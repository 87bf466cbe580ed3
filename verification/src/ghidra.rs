//! A Model Context Protocol server for headless binary analysis: JSON-RPC
//! style requests are dispatched to analysis endpoints that answer with
//! symbols, functions, strings and decompiled code.
use vstd::prelude::*;
use std::collections::HashMap;
use crate::text::{chars_of, concat, owned, string_of};

verus! {

/// An RPC request.
#[derive(Debug, Clone)]
pub struct McpRequest {
    pub jsonrpc: String,
    pub id: Option<u64>,
    pub method: String,
    pub params: Option<McpParams>,
}

/// The parameters of a request.
#[derive(Debug, Clone)]
pub struct McpParams {
    pub binary_path: Option<String>,
    pub function_name: Option<String>,
    pub address: Option<String>,
    pub analysis_options: Option<HashMap<String, String>>,
    pub export_format: Option<String>,
}

/// An RPC response: a result or an error.
#[derive(Debug, Clone)]
pub struct McpResponse {
    pub jsonrpc: String,
    pub id: Option<u64>,
    pub result: Option<McpResult>,
    pub error: Option<McpError>,
}

/// The payload of a successful response.
#[derive(Debug, Clone)]
pub struct McpResult {
    pub success: bool,
    pub data: Option<McpData>,
    pub symbols: Option<Vec<SymbolInfo>>,
    pub functions: Option<Vec<FunctionInfo>>,
    pub strings: Option<Vec<StringInfo>>,
}

/// The `data` member of a result, one shape per endpoint.
#[derive(Debug, Clone)]
pub enum McpData {
    /// The server's name, version, capabilities and architectures.
    ServerInfo(ServerInfo),
    /// The binary was analyzed into `program`.
    Analyzed { binary_path: String, program: Option<ProgramInfo> },
    SymbolCount(usize),
    FunctionCount(usize),
    StringCount(usize),
    Decompiled { function: String, decompiled_code: String },
    /// The references to `address`.
    References { address: String, references: Vec<Reference> },
    /// What is at `address`: its label, kind, namespace and first bytes.
    AddressInfo { address: String, label: String, kind: String, namespace: String, bytes: Vec<u8> },
}

/// What the server tells about itself.
#[derive(Debug, Clone)]
pub struct ServerInfo {
    pub server_name: String,
    pub version: String,
    /// The capabilities that the server has.
    pub capabilities: Vec<String>,
    pub supported_archs: Vec<String>,
}

/// A reference to an address: where it comes from and of what kind it is.
#[derive(Debug, Clone)]
pub struct Reference {
    pub from: String,
    pub kind: String,
}

#[derive(Debug, Clone)]
pub struct McpError {
    pub code: i32,
    pub message: String,
}

#[derive(Debug, Clone)]
pub struct SymbolInfo {
    pub name: String,
    pub address: u64,
    pub symbol_type: String,
    pub namespace: String,
}

#[derive(Debug, Clone)]
pub struct FunctionInfo {
    pub name: String,
    pub entry_point: u64,
    pub func_type: String,
    pub signature: String,
    pub calling_convention: String,
    pub local_variables: Vec<LocalVariable>,
}

#[derive(Debug, Clone)]
pub struct LocalVariable {
    pub name: String,
    pub var_type: String,
    pub offset: i64,
}

#[derive(Debug, Clone)]
pub struct StringInfo {
    pub value: String,
    pub address: u64,
    pub length: usize,
    pub encoding: String,
}

/// The analysis sessions of a server, at most one per binary path.
pub struct GhidraMcpServer {
    pub analysis_results: Vec<AnalysisSession>,
}

pub struct AnalysisSession {
    pub binary_path: String,
    pub program: Option<ProgramInfo>,
    pub symbols: Vec<SymbolInfo>,
    pub functions: Vec<FunctionInfo>,
    pub strings: Vec<StringInfo>,
}

#[derive(Debug, Clone)]
pub struct ProgramInfo {
    pub arch: String,
    pub endian: String,
    pub entry_point: u64,
    pub base_address: u64,
    pub image_size: u64,
}

/// JSON-RPC: the method does not exist.
pub const METHOD_NOT_FOUND: i32 = -32601;

/// JSON-RPC: the parameters are invalid.
pub const INVALID_PARAMS: i32 = -32602;

/// JSON-RPC: the server failed internally.
pub const INTERNAL_ERROR: i32 = -32603;

/// The program that an analysis records: 32-bit little-endian x86 loaded at
/// 0x400000, 0x10000 bytes, entered at 0x401000.
pub open spec fn placeholder_program(p: ProgramInfo) -> bool {
    &&& p.arch@ == "x86"@
    &&& p.endian@ == "little"@
    &&& p.entry_point == 0x401000
    &&& p.base_address == 0x400000
    &&& p.image_size == 0x10000
}

/// The session that analyzing the binary at `path` records.
pub open spec fn analyzed_session(s: AnalysisSession, path: Seq<char>) -> bool {
    &&& s.binary_path@ == path
    &&& s.program matches Some(p) && placeholder_program(p)
    &&& s.symbols@.len() == 0
    &&& s.functions@.len() == 0
    &&& s.strings@.len() == 0
}

/// The symbols that symbol recovery reports: `main` and `_start`, global
/// functions at 0x401000.
pub open spec fn placeholder_symbols(v: Seq<SymbolInfo>) -> bool {
    &&& v.len() == 2
    &&& v[0].name@ == "main"@
    &&& v[1].name@ == "_start"@
    &&& forall|i: int|
        0 <= i < 2 ==> {
            &&& (#[trigger] v[i]).address == 0x401000
            &&& v[i].symbol_type@ == "function"@
            &&& v[i].namespace@ == "global"@
        }
}

/// The functions that function detection reports: `int main(int argc, char** argv)`.
pub open spec fn placeholder_functions(v: Seq<FunctionInfo>) -> bool {
    &&& v.len() == 1
    &&& v[0].name@ == "main"@
    &&& v[0].entry_point == 0x401000
    &&& v[0].func_type@ == "function"@
    &&& v[0].signature@ == "int main(int argc, char** argv)"@
    &&& v[0].calling_convention@ == "cdecl"@
    &&& v[0].local_variables@.len() == 2
    &&& v[0].local_variables@[0].name@ == "argc"@
    &&& v[0].local_variables@[0].var_type@ == "int"@
    &&& v[0].local_variables@[0].offset == 8
    &&& v[0].local_variables@[1].name@ == "argv"@
    &&& v[0].local_variables@[1].var_type@ == "char**"@
    &&& v[0].local_variables@[1].offset == 12
}

/// The strings that string recovery reports: one ASCII string at 0x404000.
pub open spec fn placeholder_strings(v: Seq<StringInfo>) -> bool {
    &&& v.len() == 1
    &&& v[0].value@ == "Hello, World!"@
    &&& v[0].address == 0x404000
    &&& v[0].length == 13
    &&& v[0].encoding@ == "ASCII"@
}

/// The texts of a list of strings.
pub open spec fn texts(v: Seq<String>) -> Seq<Seq<char>> {
    v.map_values(|s: String| s@)
}

/// What the server says of itself: `Ghidra MCP Server` 1.0.0, able to
/// analyze, list symbols and functions, decompile and find references, for
/// seven architectures.
pub open spec fn server_info_is(i: ServerInfo) -> bool {
    &&& i.server_name@ == "Ghidra MCP Server"@
    &&& i.version@ == "1.0.0"@
    &&& texts(i.capabilities@) == seq![
        "analyze"@,
        "symbols"@,
        "functions"@,
        "decompile"@,
        "references"@,
    ]
    &&& texts(i.supported_archs@) == seq![
        "x86"@,
        "x86_64"@,
        "ppc"@,
        "ppc64"@,
        "arm"@,
        "arm64"@,
        "mips"@,
    ]
}

/// The references reported for any address: a call from 0x401050 and a jump
/// from 0x401100.
pub open spec fn placeholder_references(v: Seq<Reference>) -> bool {
    &&& v.len() == 2
    &&& v[0].from@ == "0x401050"@
    &&& v[0].kind@ == "CALL"@
    &&& v[1].from@ == "0x401100"@
    &&& v[1].kind@ == "JUMP"@
}

/// The decompiled code reported for `name`.
pub open spec fn decompiled_text(name: Seq<char>) -> Seq<char> {
    "int "@ + name + "(int argc, char **argv) {\n  printf(\"Hello, World!\\n\");\n  return 0;\n}"@
}

/// The text of an optional string, or `default` when there is none.
pub open spec fn text_or(o: Option<String>, default: Seq<char>) -> Seq<char> {
    match o {
        Some(s) => s@,
        None => default,
    }
}

/// `r` answers request `id` with the error `code` and `message`.
pub open spec fn is_error(r: McpResponse, id: Option<u64>, code: i32, message: Seq<char>) -> bool {
    &&& r.jsonrpc@ == "2.0"@
    &&& r.id == id
    &&& r.result is None
    &&& r.error matches Some(e) && e.code == code && e.message@ == message
}

/// `r` answers request `id` with a successful result.
pub open spec fn is_success(r: McpResponse, id: Option<u64>) -> bool {
    &&& r.jsonrpc@ == "2.0"@
    &&& r.id == id
    &&& r.error is None
    &&& r.result matches Some(res) && res.success
}

/// The methods that the server answers.
pub open spec fn known_method(m: Seq<char>) -> bool {
    ||| m == "initialize"@
    ||| m == "analyze"@
    ||| m == "get_symbols"@
    ||| m == "get_functions"@
    ||| m == "get_strings"@
    ||| m == "decompile"@
    ||| m == "find_references"@
    ||| m == "get_address_info"@
}

fn success_response(id: Option<u64>, result: McpResult) -> (r: McpResponse)
    ensures
        r.jsonrpc@ == "2.0"@,
        r.id == id,
        r.result == Some(result),
        r.error is None,
{
    McpResponse { jsonrpc: owned("2.0"), id, result: Some(result), error: None }
}

fn error_response(id: Option<u64>, code: i32, message: String) -> (r: McpResponse)
    ensures
        is_error(r, id, code, message@),
{
    McpResponse { jsonrpc: owned("2.0"), id, result: None, error: Some(McpError { code, message }) }
}

/// A result that carries only `data`.
fn data_result(data: McpData) -> (r: McpResult)
    ensures
        r.success,
        r.data == Some(data),
        r.symbols is None,
        r.functions is None,
        r.strings is None,
{
    McpResult { success: true, data: Some(data), symbols: None, functions: None, strings: None }
}

fn copy_program(p: &ProgramInfo) -> (r: ProgramInfo)
    ensures
        r.arch@ == p.arch@,
        r.endian@ == p.endian@,
        r.entry_point == p.entry_point,
        r.base_address == p.base_address,
        r.image_size == p.image_size,
{
    ProgramInfo {
        arch: p.arch.clone(),
        endian: p.endian.clone(),
        entry_point: p.entry_point,
        base_address: p.base_address,
        image_size: p.image_size,
    }
}

/// No two of the sessions are for the same binary path.
pub open spec fn unique_paths(v: Seq<AnalysisSession>) -> bool {
    forall|i: int, j: int|
        0 <= i < j < v.len() ==> (#[trigger] v[i]).binary_path@ != (#[trigger] v[j]).binary_path@
}

impl GhidraMcpServer {
    /// No two sessions are for the same binary path.
    pub open spec fn sessions_unique(&self) -> bool {
        unique_paths(self.analysis_results@)
    }

    /// A server without sessions.
    pub fn new() -> (r: Self)
        ensures
            r.analysis_results@.len() == 0,
            r.sessions_unique(),
    {
        GhidraMcpServer { analysis_results: Vec::new() }
    }

    /// Answers a request. `binary_exists` tells whether the file that an
    /// `analyze` request names exists. Every method but `initialize` needs
    /// parameters; `analyze`, `get_symbols`, `get_functions` and
    /// `get_strings` need a binary path; only a successful `analyze`
    /// changes the server, recording a session for its binary in place of
    /// any earlier one.
    pub fn handle_request(&mut self, req: McpRequest, binary_exists: bool) -> (r: McpResponse)
        ensures
            old(self).sessions_unique() ==> final(self).sessions_unique(),
            !known_method(req.method@) ==> is_error(
                r,
                req.id,
                METHOD_NOT_FOUND,
                "Method not found: "@ + req.method@,
            ),
            known_method(req.method@) && req.method@ != "initialize"@ && req.params is None
                ==> is_error(r, req.id, INVALID_PARAMS, "Missing params"@),
            (req.method@ == "analyze"@ || req.method@ == "get_symbols"@ || req.method@
                == "get_functions"@ || req.method@ == "get_strings"@) && (req.params matches Some(
                p,
            ) && p.binary_path is None) ==> is_error(
                r,
                req.id,
                INVALID_PARAMS,
                "Missing binary_path"@,
            ),
            req.method@ == "initialize"@ ==> is_success(r, req.id) && (r.result->0.data matches Some(
                McpData::ServerInfo(i),
            ) && server_info_is(i)),
            req.method@ == "analyze"@ && !binary_exists ==> (req.params matches Some(p) ==> (
            p.binary_path matches Some(b) ==> is_error(
                r,
                req.id,
                INTERNAL_ERROR,
                "File not found: "@ + b@,
            ))),
            req.method@ == "analyze"@ && binary_exists ==> (req.params matches Some(p) ==> (
            p.binary_path matches Some(b) ==> {
                &&& is_success(r, req.id)
                &&& r.result->0.data matches Some(McpData::Analyzed { binary_path, program })
                &&& binary_path@ == b@
                &&& program matches Some(pi) && placeholder_program(pi)
                &&& final(self).analysis_results@.drop_last() == old(
                    self,
                ).analysis_results@.filter(|s: AnalysisSession| s.binary_path@ != b@)
                &&& final(self).analysis_results@.len() > 0
                &&& analyzed_session(final(self).analysis_results@.last(), b@)
            })),
            !(req.method@ == "analyze"@ && binary_exists && (req.params matches Some(p)
                && p.binary_path is Some)) ==> final(self).analysis_results@ == old(
                self,
            ).analysis_results@,
            req.method@ == "get_symbols"@ && (req.params matches Some(p) && p.binary_path is Some)
                ==> {
                &&& is_success(r, req.id)
                &&& r.result->0.symbols matches Some(v) && placeholder_symbols(v@)
                &&& r.result->0.data == Some(McpData::SymbolCount(2))
            },
            req.method@ == "get_functions"@ && (req.params matches Some(p)
                && p.binary_path is Some) ==> {
                &&& is_success(r, req.id)
                &&& r.result->0.functions matches Some(v) && placeholder_functions(v@)
                &&& r.result->0.data == Some(McpData::FunctionCount(1))
            },
            req.method@ == "get_strings"@ && (req.params matches Some(p) && p.binary_path is Some)
                ==> {
                &&& is_success(r, req.id)
                &&& r.result->0.strings matches Some(v) && placeholder_strings(v@)
                &&& r.result->0.data == Some(McpData::StringCount(1))
            },
            req.method@ == "decompile"@ && req.params is Some ==> {
                &&& is_success(r, req.id)
                &&& r.result->0.data matches Some(McpData::Decompiled { function, decompiled_code })
                &&& function@ == text_or(req.params->0.function_name, "main"@)
                &&& decompiled_code@ == decompiled_text(function@)
            },
            req.method@ == "find_references"@ && req.params is Some ==> {
                &&& is_success(r, req.id)
                &&& r.result->0.data matches Some(McpData::References { address, references })
                &&& address@ == text_or(req.params->0.address, "0x401000"@)
                &&& placeholder_references(references@)
            },
            req.method@ == "get_address_info"@ && req.params is Some ==> {
                &&& is_success(r, req.id)
                &&& r.result->0.data matches Some(
                    McpData::AddressInfo { address, label, kind, namespace, bytes },
                )
                &&& address@ == text_or(req.params->0.address, "0x401000"@)
                &&& label@ == "main"@
                &&& kind@ == "function"@
                &&& namespace@ == "global"@
                &&& bytes@ == seq![0x55u8, 0x48u8, 0x89u8, 0xe5u8]
            },
    {
        let id = req.id;
        let m = req.method.as_str();
        proof {
            reveal_strlit("initialize");
            reveal_strlit("analyze");
            reveal_strlit("get_symbols");
            reveal_strlit("get_functions");
            reveal_strlit("get_strings");
            reveal_strlit("decompile");
            reveal_strlit("find_references");
            reveal_strlit("get_address_info");
            assert("initialize"@.len() == 10);
            assert("analyze"@.len() == 7);
            assert("get_symbols"@.len() == 11);
            assert("get_functions"@.len() == 13);
            assert("get_strings"@.len() == 11);
            assert("decompile"@.len() == 9);
            assert("find_references"@.len() == 15);
            assert("get_address_info"@.len() == 16);
            assert("get_symbols"@[5] != "get_strings"@[5]);
        }
        if str_eq(m, "initialize") {
            return success_response(id, data_result(McpData::ServerInfo(server_info())));
        }
        let is_analyze = str_eq(m, "analyze");
        let is_symbols = str_eq(m, "get_symbols");
        let is_functions = str_eq(m, "get_functions");
        let is_strings = str_eq(m, "get_strings");
        let is_decompile = str_eq(m, "decompile");
        let is_references = str_eq(m, "find_references");
        let is_address = str_eq(m, "get_address_info");
        if !(is_analyze || is_symbols || is_functions || is_strings || is_decompile
            || is_references || is_address) {
            return error_response(id, METHOD_NOT_FOUND, concat("Method not found: ", m));
        }
        let params = match req.params {
            Some(p) => p,
            None => {
                return error_response(id, INVALID_PARAMS, owned("Missing params"));
            },
        };
        if is_decompile {
            let function = match params.function_name {
                Some(f) => f,
                None => owned("main"),
            };
            let code = decompiled_code(function.as_str());
            return success_response(
                id,
                data_result(McpData::Decompiled { function, decompiled_code: code }),
            );
        }
        if is_references || is_address {
            let address = match params.address {
                Some(a) => a,
                None => owned("0x401000"),
            };
            let data = if is_references {
                McpData::References { address, references: placeholder_reference_list() }
            } else {
                let mut bytes: Vec<u8> = Vec::new();
                bytes.push(0x55);
                bytes.push(0x48);
                bytes.push(0x89);
                bytes.push(0xe5);
                assert(bytes@ =~= seq![0x55u8, 0x48u8, 0x89u8, 0xe5u8]);
                McpData::AddressInfo {
                    address,
                    label: owned("main"),
                    kind: owned("function"),
                    namespace: owned("global"),
                    bytes,
                }
            };
            return success_response(id, data_result(data));
        }
        let binary_path = match params.binary_path {
            Some(p) => p,
            None => {
                return error_response(id, INVALID_PARAMS, owned("Missing binary_path"));
            },
        };
        if is_analyze {
            if !binary_exists {
                return error_response(
                    id,
                    INTERNAL_ERROR,
                    concat("File not found: ", binary_path.as_str()),
                );
            }
            let program = self.record_session(&binary_path);
            return success_response(
                id,
                data_result(McpData::Analyzed { binary_path, program: Some(program) }),
            );
        }
        if is_symbols {
            let symbols = placeholder_symbol_list();
            let result = McpResult {
                success: true,
                data: Some(McpData::SymbolCount(symbols.len())),
                symbols: Some(symbols),
                functions: None,
                strings: None,
            };
            return success_response(id, result);
        }
        if is_functions {
            let functions = placeholder_function_list();
            let result = McpResult {
                success: true,
                data: Some(McpData::FunctionCount(functions.len())),
                symbols: None,
                functions: Some(functions),
                strings: None,
            };
            return success_response(id, result);
        }
        let strings = placeholder_string_list();
        let result = McpResult {
            success: true,
            data: Some(McpData::StringCount(strings.len())),
            symbols: None,
            functions: None,
            strings: Some(strings),
        };
        success_response(id, result)
    }

    /// Records a fresh session for `path` in place of any earlier one, and
    /// returns a copy of its program.
    fn record_session(&mut self, path: &String) -> (r: ProgramInfo)
        ensures
            placeholder_program(r),
            final(self).analysis_results@.drop_last() == old(self).analysis_results@.filter(
                |s: AnalysisSession| s.binary_path@ != path@,
            ),
            final(self).analysis_results@.len() > 0,
            analyzed_session(final(self).analysis_results@.last(), path@),
            old(self).sessions_unique() ==> final(self).sessions_unique(),
    {
        let ghost pred = |s: AnalysisSession| s.binary_path@ != path@;
        let ghost all = self.analysis_results@;
        let mut kept: Vec<AnalysisSession> = Vec::new();
        let mut old_sessions: Vec<AnalysisSession> = Vec::new();
        std::mem::swap(&mut old_sessions, &mut self.analysis_results);
        let n = old_sessions.len();
        let mut i: usize = 0;
        while old_sessions.len() > 0
            invariant
                n == all.len(),
                old_sessions@.len() + i == all.len(),
                old_sessions@ == all.skip(i as int),
                pred == (|s: AnalysisSession| s.binary_path@ != path@),
                kept@ == all.take(i as int).filter(pred),
                forall|a: int| 0 <= a < kept@.len() ==> (#[trigger] kept@[a]).binary_path@ != path@,
                forall|a: int|
                    0 <= a < kept@.len() ==> exists|j: int|
                        0 <= j < i && #[trigger] all[j] == #[trigger] kept@[a],
                unique_paths(all) ==> unique_paths(kept@),
            decreases old_sessions@.len(),
        {
            proof {
                reveal(Seq::filter);
            }
            let s = old_sessions.remove(0);
            let ghost next = all.take(i + 1);
            assert(next.drop_last() =~= all.take(i as int));
            assert(next.last() == s);
            if !(*path == s.binary_path) {
                let ghost before = kept@;
                proof {
                    if unique_paths(all) {
                        assert forall|a: int| 0 <= a < before.len() implies (#[trigger] before[a]).binary_path@
                            != s.binary_path@ by {
                            let j = choose|j: int| 0 <= j < i && #[trigger] all[j] == before[a];
                            assert(all[j] == before[a]);
                        }
                    }
                }
                kept.push(s);
                assert forall|a: int| 0 <= a < kept@.len() implies exists|j: int|
                    0 <= j < i + 1 && #[trigger] all[j] == #[trigger] kept@[a] by {
                    if a < before.len() {
                        let j = choose|j: int| 0 <= j < i && #[trigger] all[j] == before[a];
                        assert(all[j] == kept@[a]);
                    } else {
                        assert(all[i as int] == kept@[a]);
                    }
                }
            }
            i += 1;
            assert(old_sessions@ =~= all.skip(i as int));
        }
        assert(all.take(i as int) =~= all);
        let program = ProgramInfo {
            arch: owned("x86"),
            endian: owned("little"),
            entry_point: 0x401000,
            base_address: 0x400000,
            image_size: 0x10000,
        };
        let copy = copy_program(&program);
        kept.push(
            AnalysisSession {
                binary_path: path.clone(),
                program: Some(program),
                symbols: Vec::new(),
                functions: Vec::new(),
                strings: Vec::new(),
            },
        );
        self.analysis_results = kept;
        copy
    }
}

impl Default for GhidraMcpServer {
    /// A server without sessions.
    fn default() -> (r: Self)
        ensures
            r.analysis_results@.len() == 0,
    {
        GhidraMcpServer::new()
    }
}

/// Whether two strings hold the same text.
fn str_eq(a: &str, b: &str) -> (r: bool)
    ensures
        r == (a@ == b@),
{
    let x = chars_of(a);
    let y = chars_of(b);
    if x.len() != y.len() {
        return false;
    }
    let mut i: usize = 0;
    while i < x.len()
        invariant
            x@ == a@,
            y@ == b@,
            x@.len() == y@.len(),
            i <= x@.len(),
            forall|j: int| 0 <= j < i ==> x@[j] == y@[j],
        decreases x@.len() - i,
    {
        if x[i] != y[i] {
            assert(a@[i as int] != b@[i as int]);
            return false;
        }
        i += 1;
    }
    assert(x@ =~= y@);
    true
}

/// The decompiled code reported for the function `name`.
fn decompiled_code(name: &str) -> (r: String)
    ensures
        r@ == decompiled_text(name@),
{
    let head = concat("int ", name);
    concat(
        head.as_str(),
        "(int argc, char **argv) {\n  printf(\"Hello, World!\\n\");\n  return 0;\n}",
    )
}

fn server_info() -> (r: ServerInfo)
    ensures
        server_info_is(r),
{
    let mut capabilities: Vec<String> = Vec::new();
    capabilities.push(owned("analyze"));
    capabilities.push(owned("symbols"));
    capabilities.push(owned("functions"));
    capabilities.push(owned("decompile"));
    capabilities.push(owned("references"));
    let mut archs: Vec<String> = Vec::new();
    archs.push(owned("x86"));
    archs.push(owned("x86_64"));
    archs.push(owned("ppc"));
    archs.push(owned("ppc64"));
    archs.push(owned("arm"));
    archs.push(owned("arm64"));
    archs.push(owned("mips"));
    let r = ServerInfo {
        server_name: owned("Ghidra MCP Server"),
        version: owned("1.0.0"),
        capabilities,
        supported_archs: archs,
    };
    assert(texts(r.capabilities@) =~= seq![
        "analyze"@,
        "symbols"@,
        "functions"@,
        "decompile"@,
        "references"@,
    ]);
    assert(texts(r.supported_archs@) =~= seq![
        "x86"@,
        "x86_64"@,
        "ppc"@,
        "ppc64"@,
        "arm"@,
        "arm64"@,
        "mips"@,
    ]);
    r
}

fn placeholder_reference_list() -> (r: Vec<Reference>)
    ensures
        placeholder_references(r@),
{
    let mut v: Vec<Reference> = Vec::new();
    v.push(Reference { from: owned("0x401050"), kind: owned("CALL") });
    v.push(Reference { from: owned("0x401100"), kind: owned("JUMP") });
    v
}

fn placeholder_symbol_list() -> (r: Vec<SymbolInfo>)
    ensures
        placeholder_symbols(r@),
{
    let mut v: Vec<SymbolInfo> = Vec::new();
    v.push(
        SymbolInfo {
            name: owned("main"),
            address: 0x401000,
            symbol_type: owned("function"),
            namespace: owned("global"),
        },
    );
    v.push(
        SymbolInfo {
            name: owned("_start"),
            address: 0x401000,
            symbol_type: owned("function"),
            namespace: owned("global"),
        },
    );
    v
}

fn placeholder_function_list() -> (r: Vec<FunctionInfo>)
    ensures
        placeholder_functions(r@),
{
    let mut locals: Vec<LocalVariable> = Vec::new();
    locals.push(LocalVariable { name: owned("argc"), var_type: owned("int"), offset: 8 });
    locals.push(LocalVariable { name: owned("argv"), var_type: owned("char**"), offset: 12 });
    let mut v: Vec<FunctionInfo> = Vec::new();
    v.push(
        FunctionInfo {
            name: owned("main"),
            entry_point: 0x401000,
            func_type: owned("function"),
            signature: owned("int main(int argc, char** argv)"),
            calling_convention: owned("cdecl"),
            local_variables: locals,
        },
    );
    v
}

fn placeholder_string_list() -> (r: Vec<StringInfo>)
    ensures
        placeholder_strings(r@),
{
    let mut v: Vec<StringInfo> = Vec::new();
    v.push(
        StringInfo {
            value: owned("Hello, World!"),
            address: 0x404000,
            length: 13,
            encoding: owned("ASCII"),
        },
    );
    v
}

} // verus!
