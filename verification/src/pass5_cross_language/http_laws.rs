//! Which requests are linked to which endpoints.
use vstd::prelude::*;

use crate::arena::{live, NodeEntry};
use crate::edges::{EdgeView, PendingView, StoreView};
use crate::fields::{
    first_char, joined, law_fields_undo_joined, lemma_before_char, lemma_first_char, non_empty,
};
use crate::graph::GraphView;
use crate::ids::{FileId, NodeId};
use crate::indices::{lemma_filter_take, lemma_kind_rows, nodes_of_kind};
use crate::kinds::{EdgeKind, HttpMethod, NodeKind};
use crate::parallel_commit::finalize::with_pending;
use crate::pass5_cross_language::ffi::{all_ffi_edges, ffi_edges, node_name, DeclarationView};
use crate::pass5_cross_language::http::{
    all_endpoints, all_http_edges, endpoint_name, endpoints, http_edges, http_edges_of,
    law_http_leaves_the_file, lemma_joined_holds, lookup_methods, method_named, normal_path,
    plain_segment, plain_segments, request_edges, request_of, requests, segments, served, served_by_any, servers,
    EndpointView, RequestView,
};
use crate::pass5_cross_language::{cross_language_edges, languages_linked, pass5_counts};
use crate::pass4_cross::Definition;
use crate::text::{find_text, lemma_find_from, occurs_at, without_prefix};

verus! {

/// How a method is written in the name of an endpoint.
pub open spec fn method_text(m: HttpMethod) -> Seq<char> {
    match m {
        HttpMethod::Get => "GET"@,
        HttpMethod::Post => "POST"@,
        HttpMethod::Put => "PUT"@,
        HttpMethod::Delete => "DELETE"@,
        HttpMethod::Patch => "PATCH"@,
        HttpMethod::Head => "HEAD"@,
        HttpMethod::Options => "OPTIONS"@,
        HttpMethod::All => "ALL"@,
    }
}

/// `e` is called `name`: by its qualified name, or by its plain name where it has no
/// qualified name that is known.
pub open spec fn called(g: GraphView, e: NodeEntry, name: Seq<char>) -> bool {
    if e.qualified_name is Some && g.strings.resolve(e.qualified_name->0) is Some {
        g.strings.resolve(e.qualified_name->0) == Some(name)
    } else {
        g.strings.resolve(e.name) == Some(name)
    }
}

/// `node` is an endpoint of `file` that serves `method` at `path`.
pub open spec fn offers(
    g: GraphView,
    node: NodeId,
    method: HttpMethod,
    path: Seq<char>,
    file: FileId,
) -> bool {
    &&& exists|k: int|
        0 <= k < g.indices.len() && (#[trigger] g.indices[k]).kind == NodeKind::Endpoint
            && g.indices[k].node == node
    &&& live(g.nodes, node) is Some
    &&& live(g.nodes, node)->0.file == file
    &&& called(g, live(g.nodes, node)->0, "route::"@ + method_text(method) + "::"@ + path)
}

/// Edge `i` is a request with `method` for `path`, made by `source`, which stands in
/// `file`.
pub open spec fn asks(
    g: GraphView,
    i: int,
    source: NodeId,
    method: HttpMethod,
    path: Seq<char>,
    file: FileId,
) -> bool {
    &&& 0 <= i < g.edges.edges.len()
    &&& g.edges.edges[i].kind matches EdgeKind::HttpRequest { method: m, url: Some(u) }
    &&& m == method
    &&& g.strings.resolve(u) == Some(path)
    &&& source.index == g.edges.edges[i].source.index
    &&& live(g.nodes, source) is Some
    &&& live(g.nodes, source)->0.file == file
}

/// `h` has, besides what `g` has, an edge of this kind from `source` to `target`.
pub open spec fn gained_edge(
    g: GraphView,
    h: GraphView,
    source: NodeId,
    target: NodeId,
    kind: EdgeKind,
    file: FileId,
) -> bool {
    exists|j: int|
        g.edges.edges.len() <= j < h.edges.edges.len() && (#[trigger] h.edges.edges[j]).source
            == source && h.edges.edges[j].target == target && h.edges.edges[j].kind == kind
            && h.edges.edges[j].file == file
}

/// The pending edge `e` as it stands in the graph.
pub open spec fn is_pending(v: EdgeView, e: PendingView) -> bool {
    v.source == e.source && v.target == e.target && v.kind == e.kind && v.file == e.file
        && v.spans == e.spans
}

pub(crate) proof fn lemma_with_pending(store: StoreView, edges: Seq<PendingView>, n: int)
    requires
        0 <= n <= edges.len(),
    ensures
        with_pending(store, edges, n).edges.len() == store.edges.len() + n,
        store.edges.is_prefix_of(with_pending(store, edges, n).edges),
        forall|j: int|
            0 <= j < n ==> is_pending(
                with_pending(store, edges, n).edges[store.edges.len() + j],
                #[trigger] edges[j],
            ),
    decreases n,
{
    if n > 0 {
        lemma_with_pending(store, edges, n - 1);
    }
}

/// The edges of the graph are left as they are, and what the pass finds comes after them.
pub(crate) proof fn lemma_gained(
    g: GraphView,
    source: NodeId,
    target: NodeId,
    kind: EdgeKind,
    file: FileId,
)
    ensures
        gained_edge(g, languages_linked(g), source, target, kind, file) <==> exists|j: int|
            0 <= j < cross_language_edges(g).len() && (#[trigger] cross_language_edges(
                g,
            )[j]).source == source && cross_language_edges(g)[j].target == target
                && cross_language_edges(g)[j].kind == kind && cross_language_edges(g)[j].file
                == file,
{
    let all = cross_language_edges(g);
    let h = languages_linked(g);
    let n = g.edges.edges.len() as int;
    lemma_with_pending(g.edges, all, all.len() as int);
    if gained_edge(g, h, source, target, kind, file) {
        let j = choose|j: int|
            n <= j < h.edges.edges.len() && (#[trigger] h.edges.edges[j]).source == source
                && h.edges.edges[j].target == target && h.edges.edges[j].kind == kind
                && h.edges.edges[j].file == file;
        assert(is_pending(h.edges.edges[n + (j - n)], all[j - n]));
        assert(all[j - n].source == source);
    }
    if exists|j: int|
        0 <= j < all.len() && (#[trigger] all[j]).source == source && all[j].target == target
            && all[j].kind == kind && all[j].file == file {
        let j = choose|j: int|
            0 <= j < all.len() && (#[trigger] all[j]).source == source && all[j].target == target
                && all[j].kind == kind && all[j].file == file;
        assert(is_pending(h.edges.edges[n + j], all[j]));
        assert(h.edges.edges[n + j].source == source);
    }
}

/// The edges that the graph has stay, in their order.
pub proof fn law_linking_languages_only_adds_edges(g: GraphView)
    ensures
        g.edges.edges.is_prefix_of(languages_linked(g).edges.edges),
        languages_linked(g) == (GraphView { edges: languages_linked(g).edges, ..g }),
        forall|j: int|
            g.edges.edges.len() <= j < languages_linked(g).edges.edges.len() ==> (
            #[trigger] languages_linked(g).edges.edges[j]).kind is FfiCall || languages_linked(
                g,
            ).edges.edges[j].kind is HttpRequest,
{
    let all = cross_language_edges(g);
    let h = languages_linked(g);
    let n = g.edges.edges.len() as int;
    lemma_with_pending(g.edges, all, all.len() as int);
    assert forall|j: int| n <= j < h.edges.edges.len() implies (
    #[trigger] h.edges.edges[j]).kind is FfiCall || h.edges.edges[j].kind is HttpRequest by {
        assert(is_pending(h.edges.edges[n + (j - n)], all[j - n]));
        lemma_sorts(g, j - n);
    }
}

pub(crate) proof fn lemma_sorts(g: GraphView, j: int)
    requires
        0 <= j < cross_language_edges(g).len(),
    ensures
        j < all_ffi_edges(g).len() ==> cross_language_edges(g)[j] == all_ffi_edges(g)[j]
            && cross_language_edges(g)[j].kind is FfiCall,
        j >= all_ffi_edges(g).len() ==> cross_language_edges(g)[j] == all_http_edges(g)[j
            - all_ffi_edges(g).len()] && cross_language_edges(g)[j].kind is HttpRequest,
{
    let decls = crate::pass5_cross_language::ffi::all_declarations(g);
    if j < all_ffi_edges(g).len() {
        lemma_ffi_sort(
            crate::pass5_cross_language::ffi::c_functions(g),
            decls,
            decls.len() as int,
            j,
        );
    } else {
        let reqs = requests(g, g.edges.edges, g.edges.edges.len() as int);
        let k = lemma_http_edge(
            all_endpoints(g),
            reqs,
            reqs.len() as int,
            j - all_ffi_edges(g).len(),
        );
    }
}

proof fn lemma_ffi_sort(
    functions: Map<Seq<char>, Seq<Definition>>,
    decls: Seq<DeclarationView>,
    n: int,
    j: int,
)
    requires
        0 <= n <= decls.len(),
        0 <= j < ffi_edges(functions, decls, n).len(),
    ensures
        ffi_edges(functions, decls, n)[j].kind is FfiCall,
    decreases n,
{
    if n > 0 && j < ffi_edges(functions, decls, n - 1).len() {
        lemma_ffi_sort(functions, decls, n - 1, j);
    }
}

/// An edge of a request belongs to one of the requests and leads to what serves it.
proof fn lemma_http_edge(ends: Seq<EndpointView>, reqs: Seq<RequestView>, n: int, j: int) -> (k: (
    int,
    int,
))
    requires
        0 <= n <= reqs.len(),
        0 <= j < http_edges(ends, reqs, n).len(),
    ensures
        0 <= k.0 < n,
        0 <= k.1 < servers(ends, reqs[k.0]).len(),
        ({
            let e = http_edges(ends, reqs, n)[j];
            let r = reqs[k.0];
            &&& e.source == r.source
            &&& e.target == servers(ends, r)[k.1]
            &&& e.kind == (EdgeKind::HttpRequest { method: r.method, url: None })
            &&& e.file == r.file
        }),
    decreases n,
{
    let before = http_edges(ends, reqs, n - 1);
    if j < before.len() {
        lemma_http_edge(ends, reqs, n - 1, j)
    } else {
        (n - 1, j - before.len())
    }
}

proof fn lemma_http_edge_there(
    ends: Seq<EndpointView>,
    reqs: Seq<RequestView>,
    n: int,
    k: int,
    m: int,
) -> (j: int)
    requires
        0 <= k < n <= reqs.len(),
        0 <= m < servers(ends, reqs[k]).len(),
    ensures
        0 <= j < http_edges(ends, reqs, n).len(),
        http_edges(ends, reqs, n)[j] == http_edges_of(reqs[k], servers(ends, reqs[k]))[m],
    decreases n,
{
    let before = http_edges(ends, reqs, n - 1);
    if k < n - 1 {
        let j = lemma_http_edge_there(ends, reqs, n - 1, k, m);
        assert(http_edges(ends, reqs, n)[j] == before[j]);
        j
    } else {
        before.len() + m
    }
}

proof fn lemma_request_of(g: GraphView, n: int, k: int) -> (i: int)
    requires
        0 <= n <= g.edges.edges.len(),
        0 <= k < requests(g, g.edges.edges, n).len(),
    ensures
        0 <= i < n,
        request_of(g, g.edges.edges[i]) == Some(requests(g, g.edges.edges, n)[k]),
    decreases n,
{
    if k < requests(g, g.edges.edges, n - 1).len() {
        lemma_request_of(g, n - 1, k)
    } else {
        n - 1
    }
}

proof fn lemma_request_there(g: GraphView, n: int, i: int) -> (k: int)
    requires
        0 <= i < n <= g.edges.edges.len(),
        request_of(g, g.edges.edges[i]) is Some,
    ensures
        0 <= k < requests(g, g.edges.edges, n).len(),
        requests(g, g.edges.edges, n)[k] == request_of(g, g.edges.edges[i])->0,
    decreases n,
{
    if i < n - 1 {
        lemma_request_there(g, n - 1, i)
    } else {
        requests(g, g.edges.edges, n - 1).len() as int
    }
}

proof fn lemma_endpoint_of(g: GraphView, nodes: Seq<NodeId>, n: int, k: int)
    requires
        0 <= n <= nodes.len(),
        0 <= k < endpoints(g, nodes, n).len(),
    ensures
        ({
            let v = endpoints(g, nodes, n)[k];
            &&& nodes.contains(v.node)
            &&& live(g.nodes, v.node) is Some
            &&& live(g.nodes, v.node)->0.file == v.file
            &&& node_name(g, v.node) is Some
            &&& endpoint_name(node_name(g, v.node)->0) is Some
            &&& (endpoint_name(node_name(g, v.node)->0)->0).0 == v.method
            &&& normal_path((endpoint_name(node_name(g, v.node)->0)->0).1) == v.path
        }),
    decreases n,
{
    if k < endpoints(g, nodes, n - 1).len() {
        lemma_endpoint_of(g, nodes, n - 1, k);
    } else {
        assert(nodes[n - 1] == endpoints(g, nodes, n)[k].node);
    }
}

proof fn lemma_endpoint_there(g: GraphView, nodes: Seq<NodeId>, n: int, i: int) -> (k: int)
    requires
        0 <= i < n <= nodes.len(),
        node_name(g, nodes[i]) is Some,
        endpoint_name(node_name(g, nodes[i])->0) is Some,
    ensures
        0 <= k < endpoints(g, nodes, n).len(),
        ({
            let v = endpoints(g, nodes, n)[k];
            let p = endpoint_name(node_name(g, nodes[i])->0)->0;
            &&& v.node == nodes[i]
            &&& v.method == p.0
            &&& v.path == normal_path(p.1)
            &&& v.file == live(g.nodes, nodes[i])->0.file
        }),
    decreases n,
{
    if i < n - 1 {
        lemma_endpoint_there(g, nodes, n - 1, i)
    } else {
        endpoints(g, nodes, n - 1).len() as int
    }
}

proof fn lemma_served_there(
    ends: Seq<EndpointView>,
    method: HttpMethod,
    path: Seq<char>,
    file: FileId,
    n: int,
    k: int,
) -> (m: int)
    requires
        0 <= k < n <= ends.len(),
        ends[k].method == method,
        ends[k].path == path,
        ends[k].file != file,
    ensures
        0 <= m < served(ends, method, path, file, n).len(),
        served(ends, method, path, file, n)[m] == ends[k].node,
    decreases n,
{
    if k < n - 1 {
        lemma_served_there(ends, method, path, file, n - 1, k)
    } else {
        served(ends, method, path, file, n - 1).len() as int
    }
}

proof fn lemma_any_served_there(
    ends: Seq<EndpointView>,
    methods: Seq<HttpMethod>,
    path: Seq<char>,
    file: FileId,
    n: int,
    i: int,
    k: int,
) -> (m: int)
    requires
        0 <= i < n <= methods.len(),
        0 <= k < ends.len(),
        ends[k].method == methods[i],
        ends[k].path == path,
        ends[k].file != file,
    ensures
        0 <= m < served_by_any(ends, methods, path, file, n).len(),
        served_by_any(ends, methods, path, file, n)[m] == ends[k].node,
    decreases n,
{
    let before = served_by_any(ends, methods, path, file, n - 1);
    if i < n - 1 {
        let m = lemma_any_served_there(ends, methods, path, file, n - 1, i, k);
        assert(served_by_any(ends, methods, path, file, n)[m] == before[m]);
        m
    } else {
        let m = lemma_served_there(ends, methods[n - 1], path, file, ends.len() as int, k);
        before.len() + m
    }
}

proof fn lemma_method_texts(m: HttpMethod)
    ensures
        method_text(m).len() > 0,
        forall|i: int| 0 <= i < method_text(m).len() ==> #[trigger] method_text(m)[i] != ':',
{
    reveal_strlit("GET");
    reveal_strlit("POST");
    reveal_strlit("PUT");
    reveal_strlit("DELETE");
    reveal_strlit("PATCH");
    reveal_strlit("HEAD");
    reveal_strlit("OPTIONS");
    reveal_strlit("ALL");
}

proof fn lemma_method_named(m: HttpMethod)
    ensures
        method_named(method_text(m)) == Some(m),
{
    reveal_strlit("GET");
    reveal_strlit("POST");
    reveal_strlit("PUT");
    reveal_strlit("DELETE");
    reveal_strlit("PATCH");
    reveal_strlit("HEAD");
    reveal_strlit("OPTIONS");
    reveal_strlit("ALL");
    assert("GET"@.len() == 3 && "GET"@[0] == 'G');
    assert("PUT"@.len() == 3 && "PUT"@[0] == 'P');
    assert("ALL"@.len() == 3 && "ALL"@[0] == 'A');
    assert("POST"@.len() == 4 && "POST"@[0] == 'P');
    assert("HEAD"@.len() == 4 && "HEAD"@[0] == 'H');
    assert("PATCH"@.len() == 5);
    assert("DELETE"@.len() == 6);
    assert("OPTIONS"@.len() == 7);
}

/// An endpoint is named `route::`, then its method in capital letters, `::` and its path;
/// and nothing else names an endpoint.
pub proof fn law_endpoint_names_give_method_and_path(name: Seq<char>)
    ensures
        forall|m: HttpMethod, path: Seq<char>|
            endpoint_name(#[trigger] ("route::"@ + method_text(m) + "::"@ + path)) == Some(
                (m, path),
            ),
        endpoint_name(name) matches Some(p) ==> name == "route::"@ + method_text(p.0) + "::"@ + p.1,
{
    reveal_strlit("route::");
    reveal_strlit("::");
    reveal_strlit("GET");
    reveal_strlit("POST");
    reveal_strlit("PUT");
    reveal_strlit("DELETE");
    reveal_strlit("PATCH");
    reveal_strlit("HEAD");
    reveal_strlit("OPTIONS");
    reveal_strlit("ALL");
    assert forall|m: HttpMethod, path: Seq<char>|
        endpoint_name(#[trigger] ("route::"@ + method_text(m) + "::"@ + path)) == Some(
            (m, path),
        ) by {
        let text = method_text(m);
        let s = "route::"@ + text + "::"@ + path;
        let rest = text + "::"@ + path;
        lemma_method_texts(m);
        lemma_method_named(m);
        assert(s.subrange(0, 7) =~= "route::"@);
        assert(s.subrange(7, s.len() as int) =~= rest);
        assert(without_prefix(s, "route::"@) == Some(rest));
        lemma_find_from(rest, "::"@, 0);
        assert(rest.subrange(text.len() as int, text.len() as int + 2) =~= "::"@);
        assert(occurs_at(rest, "::"@, text.len() as int));
        let i = find_text(rest, "::"@)->0;
        if i < text.len() {
            assert(rest.subrange(i, i + 2)[0] == text[i]);
        }
        assert(i == text.len());
        assert(rest.subrange(0, i) =~= text);
        assert(rest.subrange(i + 2, rest.len() as int) =~= path);
    }
    if let Some(p) = endpoint_name(name) {
        let rest = without_prefix(name, "route::"@)->0;
        lemma_find_from(rest, "::"@, 0);
        let i = find_text(rest, "::"@)->0;
        let text = rest.subrange(0, i);
        assert(text == method_text(p.0));
        assert(rest =~= text + "::"@ + p.1) by {
            assert(rest.subrange(i, i + 2) == "::"@);
            assert(rest =~= rest.subrange(0, i) + rest.subrange(i, i + 2) + rest.subrange(
                i + 2,
                rest.len() as int,
            ));
        }
        assert(name =~= name.subrange(0, 7) + rest);
        assert(name =~= "route::"@ + text + "::"@ + p.1);
    }
}

pub(crate) proof fn lemma_called(g: GraphView, node: NodeId, name: Seq<char>)
    requires
        live(g.nodes, node) is Some,
    ensures
        called(g, live(g.nodes, node)->0, name) <==> node_name(g, node) == Some(name),
{
}

proof fn lemma_lookup(method: HttpMethod, served: HttpMethod)
    ensures
        lookup_methods(method).contains(served) <==> (served == method || served == HttpMethod::All
            || method == HttpMethod::All),
{
    let all = lookup_methods(method);
    if method == HttpMethod::All {
        assert(all[0] == HttpMethod::All);
        assert(all[1] == HttpMethod::Get);
        assert(all[2] == HttpMethod::Post);
        assert(all[3] == HttpMethod::Put);
        assert(all[4] == HttpMethod::Delete);
        assert(all[5] == HttpMethod::Patch);
        assert(all[6] == HttpMethod::Head);
        assert(all[7] == HttpMethod::Options);
        assert(all.contains(served)) by {
            match served {
                HttpMethod::All => assert(all[0] == served),
                HttpMethod::Get => assert(all[1] == served),
                HttpMethod::Post => assert(all[2] == served),
                HttpMethod::Put => assert(all[3] == served),
                HttpMethod::Delete => assert(all[4] == served),
                HttpMethod::Patch => assert(all[5] == served),
                HttpMethod::Head => assert(all[6] == served),
                HttpMethod::Options => assert(all[7] == served),
            }
        }
    } else {
        assert(all[0] == method);
        assert(all[1] == HttpMethod::All);
        if served == method {
            assert(all.contains(all[0]));
        }
        if served == HttpMethod::All {
            assert(all.contains(all[1]));
        }
    }
}

/// Every request is linked to every endpoint of another file that has the same path in
/// normal form and the same method, or where the one or the other takes all methods.
pub proof fn law_request_is_linked_to_its_endpoints(
    g: GraphView,
    i: int,
    source: NodeId,
    method: HttpMethod,
    path: Seq<char>,
    file: FileId,
    target: NodeId,
    served_method: HttpMethod,
    served_path: Seq<char>,
    served_file: FileId,
)
    requires
        asks(g, i, source, method, path, file),
        offers(g, target, served_method, served_path, served_file),
        file != served_file,
        normal_path(path) == normal_path(served_path),
        method == served_method || method == HttpMethod::All || served_method == HttpMethod::All,
    ensures
        gained_edge(
            g,
            languages_linked(g),
            source,
            target,
            EdgeKind::HttpRequest { method, url: None },
            file,
        ),
{
    let ends = all_endpoints(g);
    let edges = g.edges.edges;
    let reqs = requests(g, edges, edges.len() as int);
    let nodes = nodes_of_kind(g.indices, NodeKind::Endpoint, g.indices.len() as int);
    lemma_kind_rows(g.indices, NodeKind::Endpoint, g.indices.len() as int, target);
    lemma_called(g, target, "route::"@ + method_text(served_method) + "::"@ + served_path);
    law_endpoint_names_give_method_and_path(seq![]);
    let at = nodes.index_of(target);
    let k = lemma_endpoint_there(g, nodes, nodes.len() as int, at);
    let r = RequestView { source, method, url: path, file };
    assert(request_of(g, edges[i]) == Some(r));
    let q = lemma_request_there(g, edges.len() as int, i);
    lemma_lookup(method, served_method);
    let methods = lookup_methods(method);
    let m = methods.index_of(served_method);
    let s = lemma_any_served_there(
        ends,
        methods,
        normal_path(path),
        file,
        methods.len() as int,
        m,
        k,
    );
    let j = lemma_http_edge_there(ends, reqs, reqs.len() as int, q, s);
    let n = all_ffi_edges(g).len();
    assert(cross_language_edges(g)[n + j] == all_http_edges(g)[j]);
    lemma_gained(g, source, target, EdgeKind::HttpRequest { method, url: None }, file);
}

/// Nothing else is linked: an edge that is added for a request leads from what makes the
/// request to an endpoint of another file that has the same path in normal form and the
/// same method, or where the one or the other takes all methods.
pub proof fn law_request_is_linked_to_nothing_else(
    g: GraphView,
    source: NodeId,
    target: NodeId,
    method: HttpMethod,
    file: FileId,
)
    requires
        gained_edge(
            g,
            languages_linked(g),
            source,
            target,
            EdgeKind::HttpRequest { method, url: None },
            file,
        ),
    ensures
        exists|i: int, path: Seq<char>, m: HttpMethod, p: Seq<char>, f: FileId|
            #![trigger asks(g, i, source, method, path, file), offers(g, target, m, p, f)]
            asks(g, i, source, method, path, file) && offers(g, target, m, p, f) && f != file
                && normal_path(p) == normal_path(path) && (m == method || m == HttpMethod::All
                || method == HttpMethod::All),
{
    let ends = all_endpoints(g);
    let edges = g.edges.edges;
    let reqs = requests(g, edges, edges.len() as int);
    let nodes = nodes_of_kind(g.indices, NodeKind::Endpoint, g.indices.len() as int);
    let kind = EdgeKind::HttpRequest { method, url: None };
    lemma_gained(g, source, target, kind, file);
    let all = cross_language_edges(g);
    let j = choose|j: int|
        0 <= j < all.len() && (#[trigger] all[j]).source == source && all[j].target == target
            && all[j].kind == kind && all[j].file == file;
    lemma_sorts(g, j);
    let at = lemma_http_edge(ends, reqs, reqs.len() as int, j - all_ffi_edges(g).len());
    let r = reqs[at.0];
    let i = lemma_request_of(g, edges.len() as int, at.0);
    assert(asks(g, i, source, method, r.url, file));
    law_http_leaves_the_file(ends, r, at.1);
    let k = choose|k: int|
        0 <= k < ends.len() && (#[trigger] ends[k]).node == target && ends[k].path == normal_path(
            r.url,
        ) && ends[k].file != r.file && lookup_methods(r.method).contains(ends[k].method);
    lemma_lookup(method, ends[k].method);
    lemma_endpoint_of(g, nodes, nodes.len() as int, k);
    lemma_kind_rows(g.indices, NodeKind::Endpoint, g.indices.len() as int, target);
    let name = node_name(g, target)->0;
    law_endpoint_names_give_method_and_path(name);
    let p = (endpoint_name(name)->0).1;
    lemma_called(g, target, name);
    assert(offers(g, target, ends[k].method, p, ends[k].file));
}

/// Segment `a` of a path is written `b` in normal form: `{name}`, `[name]`, `<name>` and
/// `<type:name>` are written `:name`, and any other segment stays as it is.
pub open spec fn written_as(a: Seq<char>, b: Seq<char>) -> bool {
    let n = a.len() as int;
    if n >= 2 && ((a[0] == '{' && a[n - 1] == '}') || (a[0] == '[' && a[n - 1] == ']')) {
        b == seq![':'] + a.subrange(1, n - 1)
    } else if n >= 2 && a[0] == '<' && a[n - 1] == '>' {
        &&& (forall|i: int| 0 <= i < n ==> #[trigger] a[i] != ':') ==> b == seq![':'] + a.subrange(
            1,
            n - 1,
        )
        &&& forall|k: int|
            0 <= k < n && #[trigger] a[k] == ':' && (forall|i: int|
                0 <= i < k ==> #[trigger] a[i] != ':') ==> b == seq![':'] + a.subrange(k + 1, n - 1)
    } else {
        b == a
    }
}

proof fn lemma_written(a: Seq<char>)
    ensures
        written_as(a, plain_segment(a)),
{
    let n = a.len() as int;
    if n >= 2 && a[0] == '<' && a[n - 1] == '>' {
        let x = a.subrange(1, n - 1);
        lemma_first_char(x, ':', 0);
        let f = first_char(x, ':', 0);
        if forall|i: int| 0 <= i < n ==> #[trigger] a[i] != ':' {
            if f < x.len() {
                assert(a[f + 1] == ':');
            }
        }
        assert forall|k: int|
            0 <= k < n && #[trigger] a[k] == ':' && (forall|i: int|
                0 <= i < k ==> #[trigger] a[i] != ':') implies plain_segment(a) == seq![':']
            + a.subrange(k + 1, n - 1) by {
            assert(x[k - 1] == ':');
            assert(a[f + 1] == ':');
            assert(f == k - 1);
            assert(x.subrange(f + 1, x.len() as int) =~= a.subrange(k + 1, n - 1));
        }
    }
}

proof fn lemma_kept(parts: Seq<Seq<char>>, n: int)
    requires
        0 <= n <= parts.len(),
    ensures
        non_empty(parts, n) == parts.take(n).filter(|p: Seq<char>| p.len() > 0),
    decreases n,
{
    let f = |p: Seq<char>| p.len() > 0;
    reveal(Seq::filter);
    if n > 0 {
        lemma_kept(parts, n - 1);
        assert(parts.take(n).drop_last() =~= parts.take(n - 1));
        assert(parts.take(n).last() == parts[n - 1]);
    }
}

/// The normal form of a path goes segment by segment: empty segments are left out, and
/// each of the others is written on its own.
pub proof fn law_normal_path_goes_by_segments(parts: Seq<Seq<char>>)
    requires
        parts.len() > 0,
        forall|i: int|
            0 <= i < parts.len() ==> !(#[trigger] parts[i]).contains('/') && !parts[i].contains('?'),
    ensures
        exists|out: Seq<Seq<char>>|
            #![trigger joined(out, '/', out.len() as int)]
            out.len() == parts.filter(|p: Seq<char>| p.len() > 0).len() && normal_path(
                joined(parts, '/', parts.len() as int),
            ) == joined(out, '/', out.len() as int) && forall|i: int|
                0 <= i < out.len() ==> written_as(
                    parts.filter(|p: Seq<char>| p.len() > 0)[i],
                    #[trigger] out[i],
                ),
{
    let n = parts.len() as int;
    let path = joined(parts, '/', n);
    lemma_joined_holds(parts, n, '?');
    lemma_before_char(path, '?');
    law_fields_undo_joined(parts, '/', n);
    assert(parts.take(n) =~= parts);
    lemma_kept(parts, n);
    let kept = parts.filter(|p: Seq<char>| p.len() > 0);
    assert(segments(path) == kept);
    let out = plain_segments(kept);
    assert forall|i: int| 0 <= i < out.len() implies written_as(kept[i], #[trigger] out[i]) by {
        lemma_written(kept[i]);
    }
    assert(normal_path(path) == joined(out, '/', out.len() as int));
}

proof fn lemma_request_edges(edges: Seq<EdgeView>, n: int)
    requires
        0 <= n <= edges.len(),
    ensures
        request_edges(edges, n) == edges.take(n).filter(|e: EdgeView| e.kind is HttpRequest).len(),
        request_edges(edges, n) <= n,
    decreases n,
{
    let p = |e: EdgeView| e.kind is HttpRequest;
    if n > 0 {
        lemma_request_edges(edges, n - 1);
        lemma_filter_take(edges, p, n);
    } else {
        reveal(Seq::filter);
        assert(edges.take(0).filter(p).len() == 0);
    }
}

/// All request edges are counted as looked at, unless the graph has no endpoint: then none
/// is.
pub proof fn law_request_edges_are_counted(g: GraphView)
    requires
        g.edges.edges.len() <= usize::MAX,
    ensures
        pass5_counts(g).http_requests_scanned == (if all_endpoints(g).len() == 0 {
            0
        } else {
            g.edges.edges.filter(|e: EdgeView| e.kind is HttpRequest).len()
        }),
{
    let n = g.edges.edges.len() as int;
    lemma_request_edges(g.edges.edges, n);
    assert(g.edges.edges.take(n) =~= g.edges.edges);
}

} // verus!
