use athanor_core::formats::{Format, FormatDetector};
use athanor_core::parser::detect_format;

#[test]
fn test_format_detection() {
    // A file named `test.xmlb` is XMLB whatever it holds.
    let format = detect_format("xmlb", &[]);
    assert_eq!(format, Format::XMLB);
}

#[test]
fn extensions_match_without_regard_to_case() {
    assert_eq!(Format::from_extension("xmlb"), Format::XMLB);
    assert_eq!(Format::from_extension("XmLb"), Format::XMLB);
    assert_eq!(Format::from_extension("PKGB"), Format::PKGB);
    assert_eq!(Format::from_extension("EnGb"), Format::ENGB);
    assert_eq!(Format::from_extension("chrb"), Format::CHRB);
    assert_eq!(Format::from_extension("navb"), Format::NAVB);
    assert_eq!(Format::from_extension("boyb"), Format::BOYB);
    assert_eq!(Format::from_extension("BNX"), Format::BNX);
    assert_eq!(Format::from_extension("igb"), Format::IGB);
    assert_eq!(Format::from_extension("zsm"), Format::ZSM);
    assert_eq!(Format::from_extension("zss"), Format::ZSS);
    assert_eq!(Format::from_extension("zam"), Format::ZAM);
    assert_eq!(Format::from_extension("anim"), Format::ANIM);
    assert_eq!(Format::from_extension("anm"), Format::ANIM);
    assert_eq!(Format::from_extension("phys"), Format::PHYS);
    assert_eq!(Format::from_extension("bus"), Format::AUD);
    assert_eq!(Format::from_extension("aud"), Format::AUD);
    assert_eq!(Format::from_extension("comp"), Format::COMP);
    assert_eq!(Format::from_extension("pbr"), Format::PBR);
    assert_eq!(Format::from_extension("plgn"), Format::PLGN);
    assert_eq!(Format::from_extension("save"), Format::SAVE);
    assert_eq!(Format::from_extension("pipe"), Format::PIPE);
    assert_eq!(Format::from_extension(""), Format::Unknown);
    assert_eq!(Format::from_extension("xml"), Format::Unknown);
    assert_eq!(Format::from_extension("xmlbb"), Format::Unknown);
}

#[test]
fn kelvin_sign_lowers_to_k() {
    // `to_lowercase` maps the Kelvin sign to `k`, but no extension holds a `k`.
    assert_eq!(Format::from_extension("\u{212a}"), Format::Unknown);
    assert_eq!(Format::from_extension("ÄNIM"), Format::Unknown);
}

#[test]
fn case_does_not_change_the_format() {
    for e in ["XMLB", "Pkgb", "eNGB", "CHRB", "NavB", "BOYB", "Bnx", "IGB", "ZsM", "ZSS", "ZAM",
        "ANIM", "AnM", "PHYS", "BUS", "AUD", "COMP", "PBR", "PLGN", "SAVE", "PIPE", "Other", ""]
    {
        assert_eq!(Format::from_extension(e), Format::from_extension(&e.to_lowercase()));
    }
}

#[test]
fn named_extensions_are_registered() {
    for e in ["XMLB", "pkgb", "ENGB", "chrb", "NAVB", "boyb", "BNX", "igb", "ZSM", "zss", "ZAM",
        "anim", "ANM", "phys", "BUS", "aud", "COMP", "pbr", "PLGN", "save", "PIPE"]
    {
        let f = Format::from_extension(e);
        assert_ne!(f, Format::Unknown);
        assert!(f.extensions().contains(&e.to_lowercase().as_str()));
    }
}

#[test]
fn magic_numbers_name_formats() {
    assert_eq!(Format::from_magic(0x11B1), Format::XMLB);
    assert_eq!(Format::from_magic(0x414E), Format::ANIM);
    assert_eq!(Format::from_magic(0x5048), Format::PHYS);
    assert_eq!(Format::from_magic(0x4155), Format::AUD);
    assert_eq!(Format::from_magic(0x434D), Format::COMP);
    assert_eq!(Format::from_magic(0x5042), Format::PBR);
    assert_eq!(Format::from_magic(0x4C47), Format::PLGN);
    assert_eq!(Format::from_magic(0x5347), Format::SAVE);
    assert_eq!(Format::from_magic(0x5049), Format::PIPE);
    assert_eq!(Format::from_magic(0), Format::Unknown);
    assert_eq!(Format::from_magic(0x0001_11B1), Format::Unknown);
}

#[test]
fn names_and_extension_lists() {
    assert_eq!(Format::XMLB.name(), "XMLB");
    assert_eq!(Format::Unknown.name(), "UNKNOWN");
    assert_eq!(Format::ZSS.name(), "ZSS");
    assert_eq!(Format::XMLB.extensions(), &["xmlb", "pkgb", "engb", "chrb", "navb", "boyb"]);
    assert_eq!(Format::AUD.extensions(), &["bus", "aud"]);
    assert_eq!(Format::PKGB.extensions(), &["pkgb"]);
    assert!(Format::Unknown.extensions().is_empty());
}

#[test]
fn every_extension_names_its_format_again() {
    let formats = [
        Format::PKGB, Format::ENGB, Format::CHRB, Format::NAVB, Format::BOYB, Format::BNX,
        Format::IGB, Format::ZSM, Format::ZSS, Format::ZAM, Format::ANIM, Format::PHYS,
        Format::AUD, Format::COMP, Format::PBR, Format::PLGN, Format::SAVE, Format::PIPE,
    ];
    for f in formats {
        for e in f.extensions() {
            assert_eq!(Format::from_extension(e), f);
            assert!(!e.is_empty() && e.chars().all(|c| c.is_ascii_lowercase()));
        }
    }
    // XMLB also lists the package kinds' extensions, which name their own kinds.
    assert_eq!(Format::from_extension(Format::XMLB.extensions()[0]), Format::XMLB);
    assert_eq!(Format::from_extension(Format::XMLB.extensions()[1]), Format::PKGB);
}

#[test]
fn contents_decide_when_the_extension_does_not() {
    assert_eq!(FormatDetector::detect_contents("dat", &[0xB1, 0x11, 0, 0, 9]), Format::XMLB);
    assert_eq!(FormatDetector::detect_contents("dat", &[0x4E, 0x41, 0, 0]), Format::ANIM);
    assert_eq!(FormatDetector::detect_contents("dat", &[1, 2, 3, 4]), Format::Unknown);
    // Short files: text with `=` is BNX, A4 02 is IGB.
    assert_eq!(FormatDetector::detect_contents("", b"a=b"), Format::BNX);
    assert_eq!(FormatDetector::detect_contents("", b"ab"), Format::Unknown);
    assert_eq!(FormatDetector::detect_contents("", &[0xA4, 0x02]), Format::IGB);
    assert_eq!(FormatDetector::detect_contents("", &[0xA4, 0x02, 0x3D]), Format::IGB);
    assert_eq!(FormatDetector::detect_contents("", &[]), Format::Unknown);
    // The extension wins over the contents.
    assert_eq!(FormatDetector::detect_contents("pbr", &[0xB1, 0x11, 0, 0]), Format::PBR);
}

#[test]
fn metadata_records_the_magic_word() {
    let m = FormatDetector::metadata_for("a/b.anim".to_string(), Format::ANIM, 7, &[0x4E, 0x41, 0, 0, 1]);
    assert_eq!(m.path, "a/b.anim");
    assert_eq!(m.format, "ANIM");
    assert_eq!(m.size, 7);
    assert_eq!(m.magic, Some(0x414E));
    assert_eq!(m.version, None);
    assert_eq!(m.node_count, None);
    assert_eq!(m.string_count, None);
    let short = FormatDetector::metadata_for("x".to_string(), Format::Unknown, 3, &[1, 2, 3]);
    assert_eq!(short.magic, None);
    assert_eq!(short.format, "UNKNOWN");
}
