//! HTTP requests and the endpoints that serve them.
use vstd::prelude::*;

use crate::arena::live;
use crate::edges::{edge_views, pending_views, EdgeView, PendingEdge, PendingView};
use crate::fields::{
    before_char, cut_at_char, fields, fields_of, first_char, join_fields, joined, keep_non_empty,
    law_fields_undo_joined, lemma_before_char, lemma_fields_hold_no_separator, lemma_non_empty,
    lemma_non_empty_keeps_all, non_empty, split_fields,
};
use crate::graph::{CodeGraph, GraphView};
use crate::ids::{FileId, NodeId};
use crate::indices::nodes_of_kind;
use crate::kinds::{EdgeKind, HttpMethod, NodeKind};
use crate::lists::{lemma_views_push, views};
use crate::pass5_cross_language::ffi::{entry_structural_name, node_name};
use crate::text::{
    chars_of, find_str, find_text, lemma_find_from, occurs_at, same_text, string_of,
    strip_prefix_str, sub_chars, without_prefix,
};

verus! {

/// The HTTP method that `name` stands for.
pub open spec fn method_named(name: Seq<char>) -> Option<HttpMethod> {
    if name == "GET"@ {
        Some(HttpMethod::Get)
    } else if name == "POST"@ {
        Some(HttpMethod::Post)
    } else if name == "PUT"@ {
        Some(HttpMethod::Put)
    } else if name == "DELETE"@ {
        Some(HttpMethod::Delete)
    } else if name == "PATCH"@ {
        Some(HttpMethod::Patch)
    } else if name == "HEAD"@ {
        Some(HttpMethod::Head)
    } else if name == "OPTIONS"@ {
        Some(HttpMethod::Options)
    } else if name == "ALL"@ {
        Some(HttpMethod::All)
    } else {
        None
    }
}

fn find_method(name: &str) -> (r: Option<HttpMethod>)
    ensures
        r == method_named(name@),
{
    if same_text(name, "GET") {
        Some(HttpMethod::Get)
    } else if same_text(name, "POST") {
        Some(HttpMethod::Post)
    } else if same_text(name, "PUT") {
        Some(HttpMethod::Put)
    } else if same_text(name, "DELETE") {
        Some(HttpMethod::Delete)
    } else if same_text(name, "PATCH") {
        Some(HttpMethod::Patch)
    } else if same_text(name, "HEAD") {
        Some(HttpMethod::Head)
    } else if same_text(name, "OPTIONS") {
        Some(HttpMethod::Options)
    } else if same_text(name, "ALL") {
        Some(HttpMethod::All)
    } else {
        None
    }
}

/// Method and path of the endpoint named `route::<method>::<path>`.
pub open spec fn endpoint_name(qn: Seq<char>) -> Option<(HttpMethod, Seq<char>)> {
    match without_prefix(qn, "route::"@) {
        Some(rest) => match find_text(rest, "::"@) {
            Some(i) => match method_named(rest.subrange(0, i)) {
                Some(m) => Some((m, rest.subrange(i + 2, rest.len() as int))),
                None => None,
            },
            None => None,
        },
        None => None,
    }
}

/// Contents of a parsed endpoint name.
pub open spec fn endpoint_name_view(r: Option<(HttpMethod, String)>) -> Option<
    (HttpMethod, Seq<char>),
> {
    match r {
        Some(p) => Some((p.0, p.1@)),
        None => None,
    }
}

/// Method and path of the endpoint named `qualified_name`.
pub fn parse_endpoint_qualified_name(qualified_name: &str) -> (r: Option<(HttpMethod, String)>)
    ensures
        endpoint_name_view(r) == endpoint_name(qualified_name@),
{
    match strip_prefix_str(qualified_name, "route::") {
        Some(rest) => match find_str(rest, "::") {
            Some(i) => {
                proof {
                    lemma_find_from(rest@, "::"@, 0);
                    reveal_strlit("::");
                    assert(occurs_at(rest@, "::"@, i as int));
                }
                let n: usize = rest.unicode_len();
                match find_method(rest.substring_char(0, i)) {
                    Some(m) => Some((m, rest.substring_char(i + 2, n).to_owned())),
                    None => None,
                }
            },
            None => None,
        },
        None => None,
    }
}

/// `seg` stands in brackets.
pub open spec fn in_brackets(seg: Seq<char>, left: char, right: char) -> bool {
    seg.len() >= 2 && seg[0] == left && seg[seg.len() - 1] == right
}

/// `seg` without its first and last character.
pub open spec fn inside(seg: Seq<char>) -> Seq<char> {
    seg.subrange(1, seg.len() - 1)
}

/// What follows the first colon; everything where there is none.
pub open spec fn after_colon(s: Seq<char>) -> Seq<char> {
    let i = first_char(s, ':', 0);
    if i < s.len() {
        s.subrange(i + 1, s.len() as int)
    } else {
        s
    }
}

/// A path segment with its parameter, if it is one, written as `:name`. The forms
/// `{name}`, `<name>`, `<type:name>` and `[name]` are parameters.
pub open spec fn plain_segment(seg: Seq<char>) -> Seq<char> {
    if in_brackets(seg, '{', '}') || in_brackets(seg, '[', ']') {
        seq![':'] + inside(seg)
    } else if in_brackets(seg, '<', '>') {
        seq![':'] + after_colon(inside(seg))
    } else {
        seg
    }
}

/// The segments of a path: what stands between slashes before the query and is not empty.
pub open spec fn segments(path: Seq<char>) -> Seq<Seq<char>> {
    let parts = fields(before_char(path, '?'), '/');
    non_empty(parts, parts.len() as int)
}

/// The segments with parameters in one form.
pub open spec fn plain_segments(parts: Seq<Seq<char>>) -> Seq<Seq<char>> {
    Seq::new(parts.len(), |i: int| plain_segment(parts[i]))
}

/// A path in the form in which requests and endpoints are matched: without the query,
/// without slashes at its ends or in a row, and with parameters in one form.
pub open spec fn normal_path(path: Seq<char>) -> Seq<char> {
    let s = plain_segments(segments(path));
    joined(s, '/', s.len() as int)
}

fn is_in_brackets(seg: &Vec<char>, left: char, right: char) -> (r: bool)
    ensures
        r == in_brackets(seg@, left, right),
{
    seg.len() >= 2 && seg[0] == left && seg[seg.len() - 1] == right
}

fn with_colon(name: &Vec<char>) -> (r: Vec<char>)
    ensures
        r@ == seq![':'] + name@,
{
    let mut out: Vec<char> = Vec::new();
    out.push(':');
    for i in 0..name.len()
        invariant
            out@ =~= seq![':'] + name@.take(i as int),
    {
        out.push(name[i]);
        proof {
            assert(name@.take(i + 1) =~= name@.take(i as int).push(name@[i as int]));
        }
    }
    proof {
        assert(name@.take(name@.len() as int) =~= name@);
    }
    out
}

fn cut_type(s: &Vec<char>) -> (r: Vec<char>)
    ensures
        r@ == after_colon(s@),
{
    let mut i: usize = 0;
    while i < s.len()
        invariant
            i <= s@.len(),
            first_char(s@, ':', 0) == first_char(s@, ':', i as int),
        decreases s@.len() - i,
    {
        if s[i] == ':' {
            return sub_chars(s, i + 1, s.len());
        }
        i = i + 1;
    }
    proof {
        assert(s@.subrange(0, s@.len() as int) =~= s@);
    }
    sub_chars(s, 0, s.len())
}

fn make_plain_segment(seg: &Vec<char>) -> (r: Vec<char>)
    ensures
        r@ == plain_segment(seg@),
{
    if is_in_brackets(seg, '{', '}') || is_in_brackets(seg, '[', ']') {
        let name = sub_chars(seg, 1, seg.len() - 1);
        with_colon(&name)
    } else if is_in_brackets(seg, '<', '>') {
        let inner = sub_chars(seg, 1, seg.len() - 1);
        let name = cut_type(&inner);
        with_colon(&name)
    } else {
        proof {
            assert(seg@.subrange(0, seg@.len() as int) =~= seg@);
        }
        sub_chars(seg, 0, seg.len())
    }
}

/// A path in the form in which requests and endpoints are matched.
pub fn normalize_url_path(path: &str) -> (r: String)
    ensures
        r@ == normal_path(path@),
{
    let chars = chars_of(path);
    let cut = cut_at_char(&chars, '?');
    let parts = split_fields(&cut, '/');
    let kept = keep_non_empty(parts);
    proof {
        assert(views(parts@).len() == parts@.len());
        assert(views(kept@).len() == kept@.len());
    }
    let ghost segs = segments(path@);
    let mut plain: Vec<Vec<char>> = Vec::new();
    for i in 0..kept.len()
        invariant
            segs == views(kept@),
            views(plain@) =~= plain_segments(segs).take(i as int),
    {
        assert(segs[i as int] == kept@[i as int]@);
        let seg = make_plain_segment(&kept[i]);
        proof {
            lemma_views_push(plain@, seg);
            assert(plain_segments(segs).take(i + 1) =~= plain_segments(segs).take(i as int).push(
                plain_segment(segs[i as int]),
            ));
        }
        plain.push(seg);
    }
    proof {
        assert(plain_segments(segs).take(segs.len() as int) =~= plain_segments(segs));
        assert(views(plain@).len() == plain@.len());
    }
    let out = join_fields(&plain, '/');
    string_of(&out)
}

proof fn lemma_plain_segment(seg: Seq<char>)
    requires
        seg.len() > 0,
        !seg.contains('/'),
        !seg.contains('?'),
    ensures
        plain_segment(seg).len() > 0,
        !plain_segment(seg).contains('/'),
        !plain_segment(seg).contains('?'),
        plain_segment(plain_segment(seg)) == plain_segment(seg),
{
    let out = plain_segment(seg);
    if out != seg {
        assert(out[0] == ':');
        assert forall|c: char| #[trigger] out.contains(c) implies c == ':' || seg.contains(c) by {
            let k = choose|k: int| 0 <= k < out.len() && out[k] == c;
            if k > 0 {
                let body = out.subrange(1, out.len() as int);
                if in_brackets(seg, '{', '}') || in_brackets(seg, '[', ']') {
                    assert(out[k] == inside(seg)[k - 1]);
                    assert(seg[k] == c);
                } else {
                    let i = first_char(inside(seg), ':', 0);
                    crate::fields::lemma_first_char(inside(seg), ':', 0);
                    if i < inside(seg).len() {
                        assert(out[k] == inside(seg)[k - 1 + i + 1]);
                        assert(seg[k + i + 1] == c);
                    } else {
                        assert(out[k] == inside(seg)[k - 1]);
                        assert(seg[k] == c);
                    }
                }
            }
        }
    }
}

proof fn lemma_segments(path: Seq<char>, i: int)
    requires
        0 <= i < segments(path).len(),
    ensures
        segments(path)[i].len() > 0,
        !segments(path)[i].contains('/'),
        !segments(path)[i].contains('?'),
{
    let cut = before_char(path, '?');
    let parts = fields(cut, '/');
    lemma_before_char(path, '?');
    lemma_non_empty(parts, parts.len() as int, i);
    let k = choose|k: int| 0 <= k < parts.len() && #[trigger] parts[k] == segments(path)[i];
    lemma_fields_hold_no_separator(cut, '/', cut.len() as int, k);
    if parts[k].contains('?') {
        assert(cut.contains('?'));
    }
}

pub(crate) proof fn lemma_joined_holds(parts: Seq<Seq<char>>, n: int, c: char)
    requires
        0 <= n <= parts.len(),
        c != '/',
        forall|i: int| 0 <= i < n ==> !(#[trigger] parts[i]).contains(c),
    ensures
        !joined(parts, '/', n).contains(c),
    decreases n,
{
    if n > 1 {
        lemma_joined_holds(parts, n - 1, c);
        let out = joined(parts, '/', n);
        let before = joined(parts, '/', n - 1);
        if out.contains(c) {
            let k = choose|k: int| 0 <= k < out.len() && out[k] == c;
            if k < before.len() {
                assert(before[k] == c);
            } else if k > before.len() {
                assert(parts[n - 1][k - before.len() - 1] == c);
            }
        }
    }
}

/// A path that is in normal form stays as it is.
pub proof fn law_normal_path_is_stable(path: Seq<char>)
    ensures
        normal_path(normal_path(path)) == normal_path(path),
{
    let s = plain_segments(segments(path));
    let n = s.len() as int;
    let once = normal_path(path);
    assert forall|i: int| 0 <= i < n implies (#[trigger] s[i]).len() > 0 && !s[i].contains('/')
        && !s[i].contains('?') && plain_segment(s[i]) == s[i] by {
        lemma_segments(path, i);
        lemma_plain_segment(segments(path)[i]);
    }
    lemma_joined_holds(s, n, '?');
    lemma_before_char(once, '?');
    if n > 0 {
        law_fields_undo_joined(s, '/', n);
        assert(s.take(n) =~= s);
        lemma_non_empty_keeps_all(s, n);
        assert(segments(once) =~= s);
        assert(plain_segments(s) =~= s);
    } else {
        assert(once =~= Seq::empty());
        let f = fields(once, '/');
        assert(f =~= seq![Seq::<char>::empty()]);
        assert(f[0].len() == 0);
        assert(non_empty(f, 0) =~= Seq::empty());
        assert(non_empty(f, 1) =~= Seq::empty());
        assert(segments(once) =~= Seq::empty());
        assert(plain_segments(segments(once)) =~= Seq::empty());
    }
}

/// The query of a request makes no difference.
pub proof fn law_query_is_ignored(path: Seq<char>, query: Seq<char>)
    ensures
        normal_path(path.push('?') + query) == normal_path(path),
{
    let s = path.push('?') + query;
    crate::fields::lemma_first_char(s, '?', 0);
    crate::fields::lemma_first_char(path, '?', 0);
    let i = first_char(s, '?', 0);
    let j = first_char(path, '?', 0);
    assert(s[path.len() as int] == '?');
    if i < path.len() {
        assert(path[i] == '?');
    }
    if j < path.len() {
        assert(s[j] == '?');
    }
    assert(i == j);
    assert(before_char(s, '?') =~= before_char(path, '?'));
}

proof fn lemma_fields_of_leading(s: Seq<char>, sep: char, n: int)
    requires
        0 <= n <= s.len(),
    ensures
        fields_of(s, sep, n).len() > 0,
        fields_of(seq![sep] + s, sep, n + 1) == seq![Seq::<char>::empty()] + fields_of(s, sep, n),
    decreases n,
{
    let t = seq![sep] + s;
    let empty = seq![Seq::<char>::empty()];
    if n > 0 {
        lemma_fields_of_leading(s, sep, n - 1);
        let before = fields_of(s, sep, n - 1);
        assert(t[n] == s[n - 1]);
        if s[n - 1] == sep {
            assert((empty + before).push(Seq::empty()) =~= empty + before.push(Seq::empty()));
        } else {
            let last = before[before.len() - 1].push(s[n - 1]);
            assert((empty + before)[before.len() as int] == before[before.len() - 1]);
            assert((empty + before).update(before.len() as int, last) =~= empty + before.update(
                before.len() - 1,
                last,
            ));
        }
    } else {
        assert(t[0] == sep);
        assert(fields_of(t, sep, 0) =~= empty);
        assert(fields_of(t, sep, 1) =~= empty.push(Seq::empty()));
        assert(empty.push(Seq::empty()) =~= empty + empty);
    }
}

proof fn lemma_non_empty_leading(parts: Seq<Seq<char>>, n: int)
    requires
        0 <= n <= parts.len(),
    ensures
        non_empty(seq![Seq::<char>::empty()] + parts, n + 1) == non_empty(parts, n),
    decreases n,
{
    let all = seq![Seq::<char>::empty()] + parts;
    if n > 0 {
        lemma_non_empty_leading(parts, n - 1);
        assert(all[n] == parts[n - 1]);
    } else {
        assert(all[0].len() == 0);
        assert(non_empty(all, 0) =~= Seq::empty());
    }
}

/// A slash in front of a path makes no difference.
pub proof fn law_leading_slash_is_ignored(path: Seq<char>)
    ensures
        normal_path(seq!['/'] + path) == normal_path(path),
{
    let s = seq!['/'] + path;
    let cut = before_char(path, '?');
    crate::fields::lemma_first_char(s, '?', 0);
    crate::fields::lemma_first_char(path, '?', 0);
    let i = first_char(s, '?', 0);
    let j = first_char(path, '?', 0);
    if i < s.len() {
        assert(path[i - 1] == '?');
    }
    if j < path.len() {
        assert(s[j + 1] == '?');
    }
    assert(i == j + 1);
    assert(before_char(s, '?') =~= seq!['/'] + cut);
    lemma_fields_of_leading(cut, '/', cut.len() as int);
    let parts = fields(cut, '/');
    lemma_non_empty_leading(parts, parts.len() as int);
}

/// Parts that are not empty and hold no slash, joined by slashes: no slash stands at
/// either end, and no two stand in a row.
proof fn lemma_joined_slashes(parts: Seq<Seq<char>>, n: int)
    requires
        1 <= n <= parts.len(),
        forall|i: int|
            0 <= i < n ==> (#[trigger] parts[i]).len() > 0 && !parts[i].contains('/'),
    ensures
        ({
            let out = joined(parts, '/', n);
            &&& out.len() > 0
            &&& out[0] != '/'
            &&& out[out.len() - 1] != '/'
            &&& forall|i: int|
                0 <= i < out.len() - 1 ==> !(#[trigger] out[i] == '/' && out[i + 1] == '/')
        }),
    decreases n,
{
    let out = joined(parts, '/', n);
    let last = parts[n - 1];
    assert(last.len() > 0 && !last.contains('/'));
    assert forall|k: int| 0 <= k < last.len() implies #[trigger] last[k] != '/' by {
        assert(last.contains(last[k]));
    }
    if n > 1 {
        lemma_joined_slashes(parts, n - 1);
        let before = joined(parts, '/', n - 1);
        let m = before.len() as int;
        assert(out[0] == before[0]);
        assert(out[out.len() - 1] == last[last.len() - 1]);
        assert forall|i: int| 0 <= i < out.len() - 1 implies !(#[trigger] out[i] == '/' && out[i + 1]
            == '/') by {
            if i < m {
                assert(out[i] == before[i]);
                if i + 1 < m {
                    assert(out[i + 1] == before[i + 1]);
                }
            } else {
                assert(out[i + 1] == last[i - m]);
            }
        }
    }
}

/// A path in normal form has no query, no slash at either end, and no two slashes in a
/// row.
pub proof fn law_normal_path_shape(path: Seq<char>)
    ensures
        ({
            let out = normal_path(path);
            &&& !out.contains('?')
            &&& out.len() > 0 ==> out[0] != '/' && out[out.len() - 1] != '/'
            &&& forall|i: int|
                0 <= i < out.len() - 1 ==> !(#[trigger] out[i] == '/' && out[i + 1] == '/')
        }),
{
    let s = plain_segments(segments(path));
    let n = s.len() as int;
    assert forall|i: int| 0 <= i < n implies (#[trigger] s[i]).len() > 0 && !s[i].contains('/')
        && !s[i].contains('?') by {
        lemma_segments(path, i);
        lemma_plain_segment(segments(path)[i]);
    }
    lemma_joined_holds(s, n, '?');
    if n > 0 {
        lemma_joined_slashes(s, n);
    }
}

/// An endpoint.
pub struct EndpointInfo {
    pub node_id: NodeId,
    pub method: HttpMethod,
    /// Path in normal form.
    pub normalized_path: String,
    pub file_id: FileId,
}

/// Contents of an endpoint.
pub struct EndpointView {
    pub node: NodeId,
    pub method: HttpMethod,
    pub path: Seq<char>,
    pub file: FileId,
}

impl View for EndpointInfo {
    type V = EndpointView;

    open spec fn view(&self) -> EndpointView {
        EndpointView {
            node: self.node_id,
            method: self.method,
            path: self.normalized_path@,
            file: self.file_id,
        }
    }
}

/// The endpoints among the first `n` of `nodes`.
pub open spec fn endpoints(g: GraphView, nodes: Seq<NodeId>, n: int) -> Seq<EndpointView>
    decreases n,
{
    if n <= 0 {
        Seq::empty()
    } else {
        let before = endpoints(g, nodes, n - 1);
        match node_name(g, nodes[n - 1]) {
            Some(name) => match endpoint_name(name) {
                Some(p) => before.push(
                    EndpointView {
                        node: nodes[n - 1],
                        method: p.0,
                        path: normal_path(p.1),
                        file: live(g.nodes, nodes[n - 1])->0.file,
                    },
                ),
                None => before,
            },
            None => before,
        }
    }
}

/// The endpoints of the graph.
pub open spec fn all_endpoints(g: GraphView) -> Seq<EndpointView> {
    let nodes = nodes_of_kind(g.indices, NodeKind::Endpoint, g.indices.len() as int);
    endpoints(g, nodes, nodes.len() as int)
}

fn collect_endpoints(graph: &CodeGraph) -> (r: Vec<EndpointInfo>)
    ensures
        views(r@) == all_endpoints(graph@),
{
    let nodes = graph.indices.by_kind(NodeKind::Endpoint);
    let mut out: Vec<EndpointInfo> = Vec::new();
    for i in 0..nodes.len()
        invariant
            views(out@) =~= endpoints(graph@, nodes@, i as int),
    {
        match graph.nodes.get(nodes[i]) {
            Some(entry) => match entry_structural_name(graph, &entry) {
                Some(name) => match parse_endpoint_qualified_name(name.as_str()) {
                    Some((method, path)) => {
                        let e = EndpointInfo {
                            node_id: nodes[i],
                            method,
                            normalized_path: normalize_url_path(path.as_str()),
                            file_id: entry.file,
                        };
                        proof {
                            lemma_views_push(out@, e);
                        }
                        out.push(e);
                    },
                    None => {},
                },
                None => {},
            },
            None => {},
        }
    }
    out
}

/// A request.
pub struct HttpRequestInfo {
    pub source_node: NodeId,
    pub method: HttpMethod,
    pub url_path: String,
    pub file_id: FileId,
}

/// Contents of a request.
pub struct RequestView {
    pub source: NodeId,
    pub method: HttpMethod,
    pub url: Seq<char>,
    pub file: FileId,
}

impl View for HttpRequestInfo {
    type V = RequestView;

    open spec fn view(&self) -> RequestView {
        RequestView {
            source: self.source_node,
            method: self.method,
            url: self.url_path@,
            file: self.file_id,
        }
    }
}

/// The live node in the slot of `id`, with its file. The generation of `id` may be out of
/// date.
pub open spec fn live_source(g: GraphView, id: NodeId) -> Option<(NodeId, FileId)> {
    if id.index < g.nodes.len() {
        match g.nodes[id.index as int].entry {
            Some(e) => Some(
                (
                    NodeId { index: id.index, generation: g.nodes[id.index as int].generation },
                    e.file,
                ),
            ),
            None => None,
        }
    } else {
        None
    }
}

fn find_live_source(graph: &CodeGraph, id: NodeId) -> (r: Option<(NodeId, FileId)>)
    ensures
        r == live_source(graph@, id),
{
    match graph.nodes.get(id) {
        Some(e) => Some((id, e.file)),
        None => {
            let i: usize = id.index as usize;
            if i < graph.nodes.slots.len() {
                match graph.nodes.slots[i].get() {
                    Some(e) => Some(
                        (NodeId::new(id.index, graph.nodes.slots[i].generation), e.file),
                    ),
                    None => None,
                }
            } else {
                None
            }
        },
    }
}

/// The request that an edge stands for, if it has a known address and source.
pub open spec fn request_of(g: GraphView, e: EdgeView) -> Option<RequestView> {
    match e.kind {
        EdgeKind::HttpRequest { method, url: Some(url) } => match (
            g.strings.resolve(url),
            live_source(g, e.source),
        ) {
            (Some(text), Some(s)) => Some(
                RequestView { source: s.0, method, url: text, file: s.1 },
            ),
            _ => None,
        },
        _ => None,
    }
}

/// The requests among the first `n` edges.
pub open spec fn requests(g: GraphView, edges: Seq<EdgeView>, n: int) -> Seq<RequestView>
    decreases n,
{
    if n <= 0 {
        Seq::empty()
    } else {
        let before = requests(g, edges, n - 1);
        match request_of(g, edges[n - 1]) {
            Some(r) => before.push(r),
            None => before,
        }
    }
}

/// Request edges among the first `n`, whether or not their address is known.
pub open spec fn request_edges(edges: Seq<EdgeView>, n: int) -> int
    decreases n,
{
    if n <= 0 {
        0
    } else {
        request_edges(edges, n - 1) + (if edges[n - 1].kind is HttpRequest {
            1int
        } else {
            0int
        })
    }
}

fn collect_http_requests(graph: &CodeGraph, scanned: &mut usize) -> (r: Vec<HttpRequestInfo>)
    requires
        *old(scanned) == 0,
    ensures
        views(r@) == requests(graph@, graph@.edges.edges, graph@.edges.edges.len() as int),
        *final(scanned) == request_edges(
            graph@.edges.edges,
            graph@.edges.edges.len() as int,
        ),
{
    let edges = graph.edges.all_live_forward_edges();
    let ghost all = graph@.edges.edges;
    let mut out: Vec<HttpRequestInfo> = Vec::new();
    proof {
        assert(edge_views(edges@).len() == edges@.len());
    }
    for i in 0..edges.len()
        invariant
            all == graph@.edges.edges,
            edge_views(edges@) == all,
            0 <= *scanned <= i,
            *scanned == request_edges(all, i as int),
            views(out@) =~= requests(graph@, all, i as int),
    {
        assert(all[i as int] == edges@[i as int]@);
        match &edges[i].kind {
            EdgeKind::HttpRequest { method, url } => {
                *scanned = *scanned + 1;
                match url {
                    Some(id) => match graph.strings.resolve(*id) {
                        Some(text) => match find_live_source(graph, edges[i].source) {
                            Some((source_node, file_id)) => {
                                let r = HttpRequestInfo {
                                    source_node,
                                    method: *method,
                                    url_path: text,
                                    file_id,
                                };
                                proof {
                                    lemma_views_push(out@, r);
                                }
                                out.push(r);
                            },
                            None => {},
                        },
                        None => {},
                    },
                    None => {},
                }
            },
            _ => {},
        }
    }
    out
}

/// The endpoints among the first `n` with the given method and path, outside of `file`.
pub open spec fn served(
    ends: Seq<EndpointView>,
    method: HttpMethod,
    path: Seq<char>,
    file: FileId,
    n: int,
) -> Seq<NodeId>
    decreases n,
{
    if n <= 0 {
        Seq::empty()
    } else {
        let before = served(ends, method, path, file, n - 1);
        let e = ends[n - 1];
        if e.method == method && e.path == path && e.file != file {
            before.push(e.node)
        } else {
            before
        }
    }
}

/// The specific methods, in the order in which they are tried.
pub open spec fn specific_methods() -> Seq<HttpMethod> {
    seq![
        HttpMethod::Get,
        HttpMethod::Post,
        HttpMethod::Put,
        HttpMethod::Delete,
        HttpMethod::Patch,
        HttpMethod::Head,
        HttpMethod::Options,
    ]
}

/// The endpoints that the first `n` of `methods` lead to.
pub open spec fn served_by_any(
    ends: Seq<EndpointView>,
    methods: Seq<HttpMethod>,
    path: Seq<char>,
    file: FileId,
    n: int,
) -> Seq<NodeId>
    decreases n,
{
    if n <= 0 {
        Seq::empty()
    } else {
        served_by_any(ends, methods, path, file, n - 1) + served(
            ends,
            methods[n - 1],
            path,
            file,
            ends.len() as int,
        )
    }
}

/// The methods under which a request is looked up: its own, and then the wildcard; a
/// wildcard request is looked up under every method.
pub open spec fn lookup_methods(method: HttpMethod) -> Seq<HttpMethod> {
    if method == HttpMethod::All {
        seq![HttpMethod::All] + specific_methods()
    } else {
        seq![method, HttpMethod::All]
    }
}

/// The endpoints that serve a request.
pub open spec fn servers(ends: Seq<EndpointView>, r: RequestView) -> Seq<NodeId> {
    let methods = lookup_methods(r.method);
    served_by_any(ends, methods, normal_path(r.url), r.file, methods.len() as int)
}

/// The edges from a request to the endpoints that serve it.
pub open spec fn http_edges_of(r: RequestView, targets: Seq<NodeId>) -> Seq<PendingView> {
    Seq::new(
        targets.len(),
        |i: int|
            PendingView {
                source: r.source,
                target: targets[i],
                kind: EdgeKind::HttpRequest { method: r.method, url: None },
                file: r.file,
                spans: Seq::empty(),
            },
    )
}

/// The edges from the first `n` requests to the endpoints that serve them.
pub open spec fn http_edges(ends: Seq<EndpointView>, reqs: Seq<RequestView>, n: int) -> Seq<
    PendingView,
>
    decreases n,
{
    if n <= 0 {
        Seq::empty()
    } else {
        http_edges(ends, reqs, n - 1) + http_edges_of(reqs[n - 1], servers(ends, reqs[n - 1]))
    }
}

/// The edges from all requests of the graph to the endpoints that serve them.
pub open spec fn all_http_edges(g: GraphView) -> Seq<PendingView> {
    let reqs = requests(g, g.edges.edges, g.edges.edges.len() as int);
    http_edges(all_endpoints(g), reqs, reqs.len() as int)
}

/// Request edges that are looked at: none where the graph has no endpoint.
pub open spec fn requests_scanned(g: GraphView) -> int {
    if all_endpoints(g).len() == 0 {
        0
    } else {
        request_edges(g.edges.edges, g.edges.edges.len() as int)
    }
}

fn find_lookup_methods(method: HttpMethod) -> (r: Vec<HttpMethod>)
    ensures
        r@ == lookup_methods(method),
{
    let mut out: Vec<HttpMethod> = Vec::new();
    out.push(method);
    if method == HttpMethod::All {
        out.push(HttpMethod::Get);
        out.push(HttpMethod::Post);
        out.push(HttpMethod::Put);
        out.push(HttpMethod::Delete);
        out.push(HttpMethod::Patch);
        out.push(HttpMethod::Head);
        out.push(HttpMethod::Options);
    } else {
        out.push(HttpMethod::All);
    }
    proof {
        assert(out@ =~= lookup_methods(method));
    }
    out
}

/// Adds the endpoints with the given method and path, outside of the file of the request.
fn try_http_match(
    ends: &Vec<EndpointInfo>,
    method: HttpMethod,
    path: &str,
    file: FileId,
    targets: &mut Vec<NodeId>,
)
    ensures
        final(targets)@ == old(targets)@ + served(
            views(ends@),
            method,
            path@,
            file,
            ends@.len() as int,
        ),
{
    let ghost before = targets@;
    let ghost all = views(ends@);
    proof {
        assert(before + Seq::<NodeId>::empty() =~= before);
    }
    for i in 0..ends.len()
        invariant
            all == views(ends@),
            targets@ == before + served(all, method, path@, file, i as int),
    {
        let e = &ends[i];
        assert(all[i as int] == e@);
        if e.method == method && e.file_id != file && same_text(e.normalized_path.as_str(), path) {
            targets.push(e.node_id);
            proof {
                assert(targets@ =~= before + served(all, method, path@, file, i + 1));
            }
        }
    }
}

fn find_servers(ends: &Vec<EndpointInfo>, req: &HttpRequestInfo) -> (r: Vec<NodeId>)
    ensures
        r@ == servers(views(ends@), req@),
{
    let ghost all = views(ends@);
    let path = normalize_url_path(req.url_path.as_str());
    let methods = find_lookup_methods(req.method);
    let mut targets: Vec<NodeId> = Vec::new();
    proof {
        assert(all.len() == ends@.len());
    }
    for i in 0..methods.len()
        invariant
            all == views(ends@),
            all.len() == ends@.len(),
            targets@ == served_by_any(all, methods@, path@, req.file_id, i as int),
    {
        try_http_match(ends, methods[i], path.as_str(), req.file_id, &mut targets);
    }
    targets
}

fn link_request(ends: &Vec<EndpointInfo>, req: &HttpRequestInfo, pending: &mut Vec<PendingEdge>)
    ensures
        pending_views(final(pending)@) == pending_views(old(pending)@) + http_edges_of(
            req@,
            servers(views(ends@), req@),
        ),
{
    let ghost before = pending_views(pending@);
    let targets = find_servers(ends, req);
    proof {
        assert(before + http_edges_of(req@, targets@).take(0) =~= before);
    }
    for i in 0..targets.len()
        invariant
            pending_views(pending@) == before + http_edges_of(req@, targets@).take(i as int),
    {
        let e = PendingEdge {
            source: req.source_node,
            target: targets[i],
            kind: EdgeKind::HttpRequest { method: req.method, url: None },
            file: req.file_id,
            spans: Vec::new(),
        };
        let ghost mid = pending_views(pending@);
        proof {
            assert(e@.spans =~= Seq::empty());
        }
        pending.push(e);
        proof {
            assert(pending_views(pending@) =~= mid.push(e@));
            assert(before + http_edges_of(req@, targets@).take(i + 1) =~= (before + http_edges_of(
                req@,
                targets@,
            ).take(i as int)).push(e@));
        }
    }
    proof {
        assert(http_edges_of(req@, targets@).take(targets@.len() as int) =~= http_edges_of(
            req@,
            targets@,
        ));
    }
}

proof fn lemma_no_endpoint_serves(
    methods: Seq<HttpMethod>,
    path: Seq<char>,
    file: FileId,
    n: int,
)
    ensures
        served_by_any(Seq::empty(), methods, path, file, n) == Seq::<NodeId>::empty(),
    decreases n,
{
    if n > 0 {
        lemma_no_endpoint_serves(methods, path, file, n - 1);
        assert(served(Seq::empty(), methods[n - 1], path, file, 0) =~= Seq::empty());
    }
}

proof fn lemma_no_endpoint_no_edge(reqs: Seq<RequestView>, n: int)
    ensures
        http_edges(Seq::empty(), reqs, n) == Seq::<PendingView>::empty(),
    decreases n,
{
    if n > 0 {
        lemma_no_endpoint_no_edge(reqs, n - 1);
        let r = reqs[n - 1];
        let methods = lookup_methods(r.method);
        lemma_no_endpoint_serves(methods, normal_path(r.url), r.file, methods.len() as int);
        assert(http_edges_of(r, Seq::empty()) =~= Seq::empty());
    }
}

/// Adds an edge from every request to the endpoints of other files that serve it; returns
/// the number of requests looked at.
pub fn link_http_edges(graph: &CodeGraph, pending: &mut Vec<PendingEdge>) -> (r: usize)
    ensures
        r == requests_scanned(graph@),
        pending_views(final(pending)@) == pending_views(old(pending)@) + all_http_edges(graph@),
{
    let ghost before = pending_views(pending@);
    let ends = collect_endpoints(graph);
    let ghost all = views(ends@);
    proof {
        assert(before + Seq::<PendingView>::empty() =~= before);
        assert(all.len() == ends@.len());
    }
    if ends.len() == 0 {
        proof {
            let reqs = requests(graph@, graph@.edges.edges, graph@.edges.edges.len() as int);
            assert(all =~= Seq::empty());
            lemma_no_endpoint_no_edge(reqs, reqs.len() as int);
        }
        return 0;
    }
    let mut scanned: usize = 0;
    let reqs = collect_http_requests(graph, &mut scanned);
    let ghost every = views(reqs@);
    proof {
        assert(every.len() == reqs@.len());
    }
    for i in 0..reqs.len()
        invariant
            all == views(ends@),
            every == views(reqs@),
            pending_views(pending@) == before + http_edges(all, every, i as int),
    {
        assert(every[i as int] == reqs@[i as int]@);
        link_request(&ends, &reqs[i], pending);
        proof {
            assert(before + http_edges(all, every, i + 1) =~= before + http_edges(
                all,
                every,
                i as int,
            ) + http_edges_of(every[i as int], servers(all, every[i as int])));
        }
    }
    scanned
}

/// `node` is an endpoint outside of `file` with the given path and one of `methods`.
pub open spec fn is_server(
    ends: Seq<EndpointView>,
    methods: Seq<HttpMethod>,
    path: Seq<char>,
    file: FileId,
    node: NodeId,
) -> bool {
    exists|k: int|
        0 <= k < ends.len() && (#[trigger] ends[k]).node == node && ends[k].path == path
            && ends[k].file != file && methods.contains(ends[k].method)
}

proof fn lemma_served(
    ends: Seq<EndpointView>,
    method: HttpMethod,
    path: Seq<char>,
    file: FileId,
    n: int,
    i: int,
)
    requires
        0 <= n <= ends.len(),
        0 <= i < served(ends, method, path, file, n).len(),
    ensures
        is_server(ends, seq![method], path, file, served(ends, method, path, file, n)[i]),
    decreases n,
{
    if n > 0 {
        if i < served(ends, method, path, file, n - 1).len() {
            lemma_served(ends, method, path, file, n - 1, i);
        } else {
            assert(seq![method][0] == ends[n - 1].method);
            assert(ends[n - 1].node == served(ends, method, path, file, n)[i]);
        }
    }
}

proof fn lemma_served_by_any(
    ends: Seq<EndpointView>,
    methods: Seq<HttpMethod>,
    path: Seq<char>,
    file: FileId,
    n: int,
    i: int,
)
    requires
        0 <= n <= methods.len(),
        0 <= i < served_by_any(ends, methods, path, file, n).len(),
    ensures
        is_server(ends, methods, path, file, served_by_any(ends, methods, path, file, n)[i]),
    decreases n,
{
    if n > 0 {
        let before = served_by_any(ends, methods, path, file, n - 1);
        if i < before.len() {
            lemma_served_by_any(ends, methods, path, file, n - 1, i);
        } else {
            let here = served(ends, methods[n - 1], path, file, ends.len() as int);
            lemma_served(
                ends,
                methods[n - 1],
                path,
                file,
                ends.len() as int,
                i - before.len(),
            );
            let node = here[i - before.len()];
            let k = choose|k: int|
                0 <= k < ends.len() && (#[trigger] ends[k]).node == node && ends[k].path == path
                    && ends[k].file != file && seq![methods[n - 1]].contains(ends[k].method);
            assert(methods[n - 1] == ends[k].method);
            assert(ends[k].node == node);
        }
    }
}

/// A request is only linked to endpoints of other files, whose path is the same in normal
/// form, and whose method is the same or a wildcard, on either side.
pub proof fn law_http_leaves_the_file(ends: Seq<EndpointView>, r: RequestView, i: int)
    requires
        0 <= i < servers(ends, r).len(),
    ensures
        is_server(
            ends,
            lookup_methods(r.method),
            normal_path(r.url),
            r.file,
            servers(ends, r)[i],
        ),
{
    let methods = lookup_methods(r.method);
    lemma_served_by_any(ends, methods, normal_path(r.url), r.file, methods.len() as int, i);
}

} // verus!
