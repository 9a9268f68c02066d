//! Edges between languages.

use sqry_build::graph::CodeGraph;
use sqry_build::arena::NodeEntry;
use sqry_build::ids::{FileId, NodeId};
use sqry_build::kinds::{EdgeKind, FfiConvention, HttpMethod, Language, NodeKind};
use sqry_build::parallel_commit::finalize::rebuild_indices;
use sqry_build::pass5_cross_language::ffi::{java_to_jni_c_name, parse_ffi_qualified_name};
use sqry_build::pass5_cross_language::http::parse_endpoint_qualified_name;
use sqry_build::pass5_cross_language::{
    link_cross_language_edges, link_cross_language_edges_generic, normalize_url_path,
};

fn add_file(graph: &mut CodeGraph, path: &str, language: Language) -> FileId {
    graph.files_mut().register_with_language(path, Some(language)).expect("register file")
}

fn add_node(graph: &mut CodeGraph, kind: NodeKind, name: &str, file: FileId) -> NodeId {
    let id = graph.strings_mut().intern(name).expect("intern name");
    let mut entry = NodeEntry::new(kind, id, file);
    entry.qualified_name = Some(id);
    graph.nodes_mut().allocate(entry).expect("allocate node")
}

fn add_request(graph: &mut CodeGraph, caller: &str, method: HttpMethod, url: &str, file: FileId) {
    let from = add_node(graph, NodeKind::Function, caller, file);
    let target = format!("http::{url}");
    let to = add_node(graph, NodeKind::Module, &target, file);
    let url_id = graph.strings_mut().intern(url).expect("intern url");
    graph.edges_mut().add_edge(
        from,
        to,
        EdgeKind::HttpRequest { method, url: Some(url_id) },
        file,
    );
}

#[test]
fn test_normalize_url_path_basic() {
    assert_eq!(normalize_url_path("/api/users"), "api/users");
    assert_eq!(normalize_url_path("/api/users/"), "api/users");
    assert_eq!(normalize_url_path("api/users"), "api/users");
}

#[test]
fn test_normalize_url_path_params() {
    assert_eq!(normalize_url_path("/api/users/{id}"), "api/users/:id");
    assert_eq!(normalize_url_path("/api/users/<id>"), "api/users/:id");
    assert_eq!(normalize_url_path("/api/users/[id]"), "api/users/:id");
    assert_eq!(normalize_url_path("/api/users/:id"), "api/users/:id");
}

#[test]
fn test_normalize_url_path_double_slashes() {
    assert_eq!(normalize_url_path("/api//users"), "api/users");
    assert_eq!(normalize_url_path("///api///users///"), "api/users");
}

#[test]
fn test_normalize_url_path_query_string() {
    assert_eq!(
        normalize_url_path("/api/users?page=1&limit=10"),
        "api/users"
    );
}

#[test]
fn test_normalize_url_path_empty() {
    assert_eq!(normalize_url_path("/"), "");
    assert_eq!(normalize_url_path(""), "");
}

#[test]
fn test_parse_ffi_rust_extern_c() {
    let result = parse_ffi_qualified_name("extern::C::puts");
    assert_eq!(result, Some(("puts".to_string(), FfiConvention::C)));
}

#[test]
fn test_parse_ffi_rust_extern_stdcall() {
    let result = parse_ffi_qualified_name("extern::stdcall::MessageBoxA");
    assert_eq!(
        result,
        Some(("MessageBoxA".to_string(), FfiConvention::Stdcall))
    );
}

#[test]
fn test_parse_ffi_go_cgo() {
    let result = parse_ffi_qualified_name("C.puts");
    assert_eq!(result, Some(("puts".to_string(), FfiConvention::C)));
}

#[test]
fn test_parse_ffi_java_jni() {
    let result = parse_ffi_qualified_name("native::jni::Java_MyClass_doStuff");
    assert_eq!(
        result,
        Some(("Java_MyClass_doStuff".to_string(), FfiConvention::C))
    );
}

#[test]
fn test_parse_ffi_python_ctypes() {
    let result = parse_ffi_qualified_name("native::ctypes::calculate");
    assert_eq!(result, Some(("calculate".to_string(), FfiConvention::C)));
}

#[test]
fn test_parse_ffi_python_cffi() {
    let result = parse_ffi_qualified_name("native::cffi::calculate");
    assert_eq!(result, Some(("calculate".to_string(), FfiConvention::C)));
}

#[test]
fn test_parse_ffi_php_ffi() {
    let result = parse_ffi_qualified_name("native::ffi::crypto_encrypt");
    assert_eq!(
        result,
        Some(("crypto_encrypt".to_string(), FfiConvention::C))
    );
}

#[test]
fn test_parse_ffi_java_panama() {
    let result = parse_ffi_qualified_name("native::panama::nativeLinker");
    assert_eq!(result, Some(("nativeLinker".to_string(), FfiConvention::C)));
}

#[test]
fn test_parse_ffi_not_ffi() {
    assert!(parse_ffi_qualified_name("main").is_none());
    assert!(parse_ffi_qualified_name("module::func").is_none());
    assert!(parse_ffi_qualified_name("").is_none());
}

#[test]
fn test_parse_ffi_edge_cases() {
    // Empty bare name
    assert!(parse_ffi_qualified_name("extern::C::").is_none());
    assert!(parse_ffi_qualified_name("C.").is_none());
}

#[test]
fn test_parse_endpoint_get() {
    let result = parse_endpoint_qualified_name("route::GET::/api/users");
    assert_eq!(result, Some((HttpMethod::Get, "/api/users".to_string())));
}

#[test]
fn test_parse_endpoint_post() {
    let result = parse_endpoint_qualified_name("route::POST::/api/items");
    assert_eq!(result, Some((HttpMethod::Post, "/api/items".to_string())));
}

#[test]
fn test_parse_endpoint_all_methods() {
    assert!(matches!(
        parse_endpoint_qualified_name("route::PUT::/x"),
        Some((HttpMethod::Put, _))
    ));
    assert!(matches!(
        parse_endpoint_qualified_name("route::DELETE::/x"),
        Some((HttpMethod::Delete, _))
    ));
    assert!(matches!(
        parse_endpoint_qualified_name("route::PATCH::/x"),
        Some((HttpMethod::Patch, _))
    ));
    assert!(matches!(
        parse_endpoint_qualified_name("route::HEAD::/x"),
        Some((HttpMethod::Head, _))
    ));
    assert!(matches!(
        parse_endpoint_qualified_name("route::OPTIONS::/x"),
        Some((HttpMethod::Options, _))
    ));
}

#[test]
fn test_parse_endpoint_invalid() {
    assert!(parse_endpoint_qualified_name("not_a_route").is_none());
    assert!(parse_endpoint_qualified_name("route::INVALID::/x").is_none());
}

#[test]
fn test_link_cross_language_edges_empty_graph() {
    let mut graph = CodeGraph::new();
    let stats = link_cross_language_edges(&mut graph);
    assert_eq!(stats.total_edges_created, 0);
    assert_eq!(stats.ffi_declarations_scanned, 0);
    assert_eq!(stats.http_requests_scanned, 0);
}

#[test]
fn test_parse_ffi_go_cgo_double_colon() {
    let result = parse_ffi_qualified_name("C::puts");
    assert_eq!(result, Some(("puts".to_string(), FfiConvention::C)));
}

#[test]
fn test_parse_ffi_go_cgo_double_colon_empty() {
    assert!(parse_ffi_qualified_name("C::").is_none());
}

#[test]
fn test_java_to_jni_c_name() {
    assert_eq!(
        java_to_jni_c_name("com.example.Class.method"),
        "Java_com_example_Class_method"
    );
    assert_eq!(
        java_to_jni_c_name("MyClass.doStuff"),
        "Java_MyClass_doStuff"
    );
    assert_eq!(
        java_to_jni_c_name("com::example::Class::method"),
        "Java_com_example_Class_method"
    );
}

#[test]
fn test_parse_endpoint_all_method() {
    let result = parse_endpoint_qualified_name("route::ALL::/health");
    assert_eq!(result, Some((HttpMethod::All, "/health".to_string())));
}

#[test]
fn test_normalize_url_path_typed_params() {
    assert_eq!(normalize_url_path("/api/users/<int:id>"), "api/users/:id");
    assert_eq!(
        normalize_url_path("/files/<path:subpath>"),
        "files/:subpath"
    );
    // Regular angle bracket params still work
    assert_eq!(normalize_url_path("/api/users/<id>"), "api/users/:id");
}

#[test]
fn test_ffi_matching_with_real_graph() {
    let mut graph = CodeGraph::new();

    // File 1: Rust file with extern declaration
    let rust = add_file(&mut graph, "/test/bindings.rs", Language::Rust);
    add_node(&mut graph, NodeKind::Function, "extern::C::calculate_sum", rust);

    // File 2: C file with implementation
    let c = add_file(&mut graph, "/test/math.c", Language::C);
    add_node(&mut graph, NodeKind::Function, "calculate_sum", c);
    rebuild_indices(&mut graph);

    let stats = link_cross_language_edges(&mut graph);

    assert_eq!(stats.ffi_declarations_scanned, 1);
    assert_eq!(stats.ffi_edges_created, 1);
    assert_eq!(stats.total_edges_created, 1);
}

#[test]
fn test_http_matching_with_real_graph() {
    let mut graph = CodeGraph::new();

    // File 1: Python server with endpoint
    let server = add_file(&mut graph, "/test/server.py", Language::Python);
    add_node(&mut graph, NodeKind::Endpoint, "route::GET::/api/users", server);

    // File 2: JavaScript client with HTTP request
    let client = add_file(&mut graph, "/test/client.js", Language::JavaScript);
    add_request(&mut graph, "fetchUsers", HttpMethod::Get, "/api/users", client);
    rebuild_indices(&mut graph);

    let stats = link_cross_language_edges(&mut graph);

    assert_eq!(stats.http_requests_scanned, 1);
    assert_eq!(stats.http_endpoints_matched, 1);
    assert_eq!(stats.total_edges_created, 1);
}

#[test]
fn test_ffi_no_match_same_file() {
    let mut graph = CodeGraph::new();

    // Same file has both extern and implementation
    let file = add_file(&mut graph, "/test/combined.c", Language::C);
    add_node(&mut graph, NodeKind::Function, "extern::C::my_func", file);
    add_node(&mut graph, NodeKind::Function, "my_func", file);
    rebuild_indices(&mut graph);

    let stats = link_cross_language_edges(&mut graph);
    assert_eq!(stats.ffi_edges_created, 0);
}

#[test]
fn test_ffi_jni_demangling_with_real_graph() {
    let mut graph = CodeGraph::new();

    // File 1: Java JNI declaration with fully-qualified name
    let java = add_file(&mut graph, "/test/MyClass.java", Language::Java);
    add_node(&mut graph, NodeKind::Function, "native::jni::com.example.MyClass.doStuff", java);

    // File 2: C file with JNI-mangled implementation
    let c = add_file(&mut graph, "/test/jni_impl.c", Language::C);
    add_node(&mut graph, NodeKind::Function, "Java_com_example_MyClass_doStuff", c);
    rebuild_indices(&mut graph);

    let stats = link_cross_language_edges(&mut graph);
    assert_eq!(stats.ffi_declarations_scanned, 1);
    assert_eq!(stats.ffi_edges_created, 1);
}

#[test]
fn test_http_matching_all_method_endpoint() {
    let mut graph = CodeGraph::new();

    // File 1: Server with ALL endpoint
    let server = add_file(&mut graph, "/test/server.ts", Language::TypeScript);
    add_node(&mut graph, NodeKind::Endpoint, "route::ALL::/health", server);

    // File 2: Client making a specific GET request
    let client = add_file(&mut graph, "/test/client.js", Language::JavaScript);
    add_request(&mut graph, "checkHealth", HttpMethod::Get, "/health", client);
    rebuild_indices(&mut graph);

    let stats = link_cross_language_edges(&mut graph);
    // A specific GET request should match an ALL endpoint
    assert_eq!(stats.http_requests_scanned, 1);
    assert_eq!(stats.http_endpoints_matched, 1);
}

#[test]
fn test_http_matching_all_method_request() {
    let mut graph = CodeGraph::new();

    // File 1: Server with specific GET endpoint
    let server = add_file(&mut graph, "/test/server.py", Language::Python);
    add_node(&mut graph, NodeKind::Endpoint, "route::GET::/api/data", server);

    // File 2: Client making an ALL request (wildcard)
    let client = add_file(&mut graph, "/test/client.js", Language::JavaScript);
    add_request(&mut graph, "fetchData", HttpMethod::All, "/api/data", client);
    rebuild_indices(&mut graph);

    let stats = link_cross_language_edges(&mut graph);
    // An ALL request should match a specific GET endpoint
    assert_eq!(stats.http_requests_scanned, 1);
    assert_eq!(stats.http_endpoints_matched, 1);
}

#[test]
fn link_cross_language_edges_runs_against_rebuild_graph() {
    fn seed(graph: &mut CodeGraph) -> (FileId, FileId) {
        let rust_file = add_file(graph, "/virtual/ffi.rs", Language::Rust);
        let c_file = add_file(graph, "/virtual/ffi.c", Language::C);
        add_node(graph, NodeKind::Function, "extern::C::calc_sum", rust_file);
        add_node(graph, NodeKind::Function, "calc_sum", c_file);
        rebuild_indices(graph);
        (rust_file, c_file)
    }

    let mut first = CodeGraph::new();
    let (rust_file, _c_file) = seed(&mut first);
    let first_stats = link_cross_language_edges_generic(&mut first);

    let mut second = CodeGraph::new();
    seed(&mut second);
    let pre_counter = second.edges().seq_counter();
    let second_stats = link_cross_language_edges_generic(&mut second);

    assert_eq!(
        first_stats.ffi_declarations_scanned,
        second_stats.ffi_declarations_scanned
    );
    assert_eq!(first_stats.ffi_edges_created, second_stats.ffi_edges_created);
    assert_eq!(first_stats.total_edges_created, second_stats.total_edges_created);
    assert!(second_stats.ffi_edges_created >= 1, "expected at least one FFI link");

    let after_counter = second.edges().seq_counter();
    assert!(after_counter > pre_counter);
    let live = second.edges().all_live_forward_edges();
    let ffi_call_count =
        live.iter().filter(|e| matches!(&e.kind, EdgeKind::FfiCall { .. })).count();
    assert!(ffi_call_count >= 1);
    assert_eq!(live[0].file, rust_file);
}

#[test]
fn normalize_url_path_is_stable() {
    for path in ["/a//b/{id}?q=1", "", "///", "/files/<path:sub>", "x/[y]/:z"] {
        let once = normalize_url_path(path);
        assert_eq!(normalize_url_path(&once), once);
    }
}

#[test]
fn query_string_does_not_matter() {
    assert_eq!(normalize_url_path("/a/b?c=d"), normalize_url_path("/a/b"));
}

#[test]
fn http_request_in_the_same_file_is_not_linked() {
    let mut graph = CodeGraph::new();
    let file = add_file(&mut graph, "/test/app.py", Language::Python);
    add_node(&mut graph, NodeKind::Endpoint, "route::GET::/api/self", file);
    add_request(&mut graph, "call_self", HttpMethod::Get, "/api/self", file);
    rebuild_indices(&mut graph);

    let stats = link_cross_language_edges(&mut graph);

    assert_eq!(stats.http_requests_scanned, 1);
    assert_eq!(stats.http_endpoints_matched, 0);
    assert_eq!(stats.total_edges_created, 0);
}

#[test]
fn http_request_with_another_method_is_not_linked() {
    let mut graph = CodeGraph::new();
    let server = add_file(&mut graph, "/test/server.py", Language::Python);
    add_node(&mut graph, NodeKind::Endpoint, "route::POST::/api/users", server);
    let client = add_file(&mut graph, "/test/client.js", Language::JavaScript);
    add_request(&mut graph, "fetchUsers", HttpMethod::Get, "/api/users", client);
    rebuild_indices(&mut graph);

    let stats = link_cross_language_edges(&mut graph);

    assert_eq!(stats.http_endpoints_matched, 0);
}

#[test]
fn linked_edges_carry_the_convention_and_the_declaring_file() {
    let mut graph = CodeGraph::new();
    let rust = add_file(&mut graph, "/test/win.rs", Language::Rust);
    let decl = add_node(&mut graph, NodeKind::Function, "extern::stdcall::Beep", rust);
    let c = add_file(&mut graph, "/test/win.c", Language::C);
    let body = add_node(&mut graph, NodeKind::Function, "Beep", c);
    rebuild_indices(&mut graph);

    link_cross_language_edges(&mut graph);

    let live = graph.edges().all_live_forward_edges();
    assert_eq!(live.len(), 1);
    assert_eq!(live[0].source, decl);
    assert_eq!(live[0].target, body);
    assert_eq!(live[0].file, rust);
    assert!(matches!(live[0].kind, EdgeKind::FfiCall { convention: FfiConvention::Stdcall }));
}

#[test]
fn query_of_a_path_with_a_query_is_ignored() {
    assert_eq!(normalize_url_path("/a?b=1?c=2"), "a");
    assert_eq!(normalize_url_path("/a?b=1"), normalize_url_path("/a?b=1?c=2"));
    assert_eq!(normalize_url_path("?"), "");
}

#[test]
fn slash_in_front_of_a_path_is_ignored() {
    for path in ["a/b", "/a", "", "?x", "{id}/b", "//a//"] {
        let longer = format!("/{path}");
        assert_eq!(normalize_url_path(&longer), normalize_url_path(path));
    }
}

#[test]
fn normal_paths_have_no_query_and_no_stray_slashes() {
    for path in ["//a//b//?q=/", "/{x}/", "a///", "/?", "<int:id>//[y]"] {
        let out = normalize_url_path(path);
        assert!(!out.contains('?'));
        assert!(!out.contains("//"));
        assert!(!out.starts_with('/'));
        assert!(!out.ends_with('/'));
    }
    assert_eq!(normalize_url_path("//a//<int:id>//?q=/"), "a/:id");
}
