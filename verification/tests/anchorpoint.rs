use athanor_core::anchorpoint_integration::{
    add_tag, lfs_attributes, tag_file_asset, tags_contain, AnchorpointClient, AnchorpointConfig,
    AssetMetadata, AssetType, ReviewStatus,
};

#[test]
fn default_configuration() {
    let c = AnchorpointConfig::default();
    assert_eq!(c.repo_path, "./athanor-repo");
    assert_eq!(c.anchorpoint_cli, "anchorpoint");
    assert_eq!(c.api_endpoint, "http://127.0.0.1:9090");
    assert_eq!(c.project_name, "Athanor");
    let client = AnchorpointClient::new(c);
    assert_eq!(client.config().project_name, "Athanor");
}

#[test]
fn tags_are_added_once() {
    let t = add_tag(String::new(), "hero");
    assert_eq!(t, "hero\n");
    let t = add_tag(t, "villain");
    assert_eq!(t, "hero\nvillain\n");
    assert_eq!(add_tag(t.clone(), "hero"), t);
    assert_eq!(add_tag(t.clone(), "ero"), t);
    assert!(tags_contain(&t, "vill"));
    assert!(!tags_contain(&t, "boss"));
}

#[test]
fn tag_files_name_their_assets() {
    assert_eq!(tag_file_asset("hero.xmlb.tags").as_deref(), Some("hero.xmlb"));
    assert_eq!(tag_file_asset("a.tags.tags").as_deref(), Some("a"));
    assert_eq!(tag_file_asset(".tags"), None);
    assert_eq!(tag_file_asset("hero.xmlb"), None);
    assert_eq!(tag_file_asset("x.TAGS"), None);
}

#[test]
fn lfs_attributes_cover_the_game_formats() {
    let a = lfs_attributes();
    for ext in ["xmlb", "bnx", "igb", "zsm", "zss", "zam", "anim", "phys", "aud", "comp", "pbr", "plgn", "save", "pipe", "dds"] {
        assert!(a.contains(&format!("*.{} filter=lfs diff=lfs merge=lfs -text", ext)));
    }
    let m = AssetMetadata {
        path: "a.bnx".to_string(),
        tags: vec![],
        description: None,
        locked_by: None,
        review_status: ReviewStatus::Pending,
        asset_type: AssetType::Bnx,
    };
    assert_eq!(m.review_status, ReviewStatus::Pending);
}
