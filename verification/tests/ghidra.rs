use athanor_core::ghidra::{GhidraMcpServer, McpData, McpParams, McpRequest, McpResponse};

fn request(method: &str, params: Option<McpParams>) -> McpRequest {
    McpRequest { jsonrpc: "2.0".to_string(), id: Some(7), method: method.to_string(), params }
}

fn params(binary: Option<&str>) -> McpParams {
    McpParams {
        binary_path: binary.map(|b| b.to_string()),
        function_name: None,
        address: None,
        analysis_options: None,
        export_format: None,
    }
}

fn error_of(r: &McpResponse) -> (i32, String) {
    assert!(r.result.is_none());
    let e = r.error.as_ref().expect("an error");
    (e.code, e.message.clone())
}

#[test]
fn unknown_methods_and_missing_params() {
    let mut s = GhidraMcpServer::new();
    let r = s.handle_request(request("frobnicate", None), false);
    assert_eq!(r.jsonrpc, "2.0");
    assert_eq!(r.id, Some(7));
    assert_eq!(error_of(&r), (-32601, "Method not found: frobnicate".to_string()));
    assert_eq!(error_of(&s.handle_request(request("decompile", None), false)), (-32602, "Missing params".to_string()));
    assert_eq!(
        error_of(&s.handle_request(request("get_symbols", Some(params(None))), false)),
        (-32602, "Missing binary_path".to_string())
    );
}

#[test]
fn analyze_records_one_session_per_binary() {
    let mut s = GhidraMcpServer::new();
    let r = s.handle_request(request("analyze", Some(params(Some("game.xbe")))), false);
    assert_eq!(error_of(&r), (-32603, "File not found: game.xbe".to_string()));
    assert!(s.analysis_results.is_empty());
    let r = s.handle_request(request("analyze", Some(params(Some("game.xbe")))), true);
    assert!(r.error.is_none());
    let res = r.result.expect("a result");
    assert!(res.success);
    match res.data {
        Some(McpData::Analyzed { binary_path, program: Some(p) }) => {
            assert_eq!(binary_path, "game.xbe");
            assert_eq!(p.arch, "x86");
            assert_eq!(p.endian, "little");
            assert_eq!((p.entry_point, p.base_address, p.image_size), (0x401000, 0x400000, 0x10000));
        }
        other => panic!("unexpected data {:?}", other),
    }
    s.handle_request(request("analyze", Some(params(Some("other.elf")))), true);
    s.handle_request(request("analyze", Some(params(Some("game.xbe")))), true);
    assert_eq!(s.analysis_results.len(), 2);
    assert_eq!(s.analysis_results[0].binary_path, "other.elf");
    assert_eq!(s.analysis_results[1].binary_path, "game.xbe");
}

#[test]
fn listings_and_decompilation() {
    let mut s = GhidraMcpServer::new();
    let r = s.handle_request(request("get_symbols", Some(params(Some("a")))), false).result.unwrap();
    let symbols = r.symbols.unwrap();
    assert_eq!(symbols.len(), 2);
    assert_eq!(symbols[1].name, "_start");
    assert!(matches!(r.data, Some(McpData::SymbolCount(2))));
    let r = s.handle_request(request("get_functions", Some(params(Some("a")))), false).result.unwrap();
    let f = &r.functions.unwrap()[0];
    assert_eq!(f.signature, "int main(int argc, char** argv)");
    assert_eq!(f.local_variables[1].offset, 12);
    let r = s.handle_request(request("get_strings", Some(params(Some("a")))), false).result.unwrap();
    assert_eq!(r.strings.unwrap()[0].value, "Hello, World!");
    let mut p = params(None);
    p.function_name = Some("update".to_string());
    let r = s.handle_request(request("decompile", Some(p)), false).result.unwrap();
    match r.data {
        Some(McpData::Decompiled { function, decompiled_code }) => {
            assert_eq!(function, "update");
            assert_eq!(
                decompiled_code,
                "int update(int argc, char **argv) {\n  printf(\"Hello, World!\\n\");\n  return 0;\n}"
            );
        }
        other => panic!("unexpected data {:?}", other),
    }
    let r = s.handle_request(request("find_references", Some(params(None))), false).result.unwrap();
    match r.data {
        Some(McpData::References { address, references }) => {
            assert_eq!(address, "0x401000");
            assert_eq!(references.len(), 2);
            assert_eq!((references[0].from.as_str(), references[0].kind.as_str()), ("0x401050", "CALL"));
            assert_eq!((references[1].from.as_str(), references[1].kind.as_str()), ("0x401100", "JUMP"));
        }
        other => panic!("unexpected data {:?}", other),
    }
    let mut p = params(None);
    p.address = Some("0x500".to_string());
    let r = s.handle_request(request("get_address_info", Some(p)), false).result.unwrap();
    match r.data {
        Some(McpData::AddressInfo { address, label, kind, namespace, bytes }) => {
            assert_eq!(address, "0x500");
            assert_eq!((label.as_str(), kind.as_str(), namespace.as_str()), ("main", "function", "global"));
            assert_eq!(bytes, vec![0x55, 0x48, 0x89, 0xe5]);
        }
        other => panic!("unexpected data {:?}", other),
    }
    let r = s.handle_request(request("initialize", None), false).result.unwrap();
    match r.data {
        Some(McpData::ServerInfo(info)) => {
            assert_eq!(info.server_name, "Ghidra MCP Server");
            assert_eq!(info.version, "1.0.0");
            assert_eq!(info.capabilities, vec!["analyze", "symbols", "functions", "decompile", "references"]);
            assert_eq!(info.supported_archs, vec!["x86", "x86_64", "ppc", "ppc64", "arm", "arm64", "mips"]);
        }
        other => panic!("unexpected data {:?}", other),
    }
}
