//! Foreign-function declarations and the C functions that implement them.
use vstd::prelude::*;

use crate::arena::{live, NodeEntry};
use crate::edges::{pending_views, PendingEdge, PendingView};
use crate::fields::{fields, join_fields, joined, keep_non_empty, non_empty, split_fields};
use crate::files::files_of_language;
use crate::graph::{CodeGraph, GraphView};
use crate::ids::{FileId, NodeId};
use crate::indices::{nodes_of_file, nodes_of_kind};
use crate::kinds::{EdgeKind, FfiConvention, Language, NodeKind};
use crate::lists::{lemma_views_push, views};
use crate::pass4_cross::{definitions, outside, registered, Definition, ExportMap};
use crate::strings::{text_of, InternerView};
use crate::text::{
    chars_of, contains_str, contains_text, find_str, find_text, lemma_find_from, occurs_at,
    rfind_str, rfind_text, same_text, string_of, strip_prefix_str, without_prefix,
};

verus! {

/// The calling convention that `name` stands for.
pub open spec fn convention_named(name: Seq<char>) -> FfiConvention {
    if name == "cdecl"@ {
        FfiConvention::Cdecl
    } else if name == "stdcall"@ {
        FfiConvention::Stdcall
    } else if name == "fastcall"@ {
        FfiConvention::Fastcall
    } else if name == "system"@ {
        FfiConvention::System
    } else {
        FfiConvention::C
    }
}

/// What follows the marker of a C import, of a native method or of a foreign-function
/// library.
pub open spec fn foreign_rest(qn: Seq<char>) -> Option<Seq<char>> {
    if let Some(rest) = without_prefix(qn, "C."@) {
        Some(rest)
    } else if let Some(rest) = without_prefix(qn, "C::"@) {
        Some(rest)
    } else if let Some(rest) = without_prefix(qn, "native::jni::"@) {
        Some(rest)
    } else if let Some(rest) = without_prefix(qn, "native::ctypes::"@) {
        Some(rest)
    } else if let Some(rest) = without_prefix(qn, "native::cffi::"@) {
        Some(rest)
    } else if let Some(rest) = without_prefix(qn, "native::ffi::"@) {
        Some(rest)
    } else {
        without_prefix(qn, "native::panama::"@)
    }
}

/// The function that a foreign declaration named `qn` names, and its calling convention.
///
/// `extern::<convention>::<name>` gives the convention; the other markers stand for C.
/// An empty name is none.
pub open spec fn ffi_name(qn: Seq<char>) -> Option<(Seq<char>, FfiConvention)> {
    match without_prefix(qn, "extern::"@) {
        Some(rest) => match find_text(rest, "::"@) {
            Some(i) => if i + 2 < rest.len() {
                Some(
                    (
                        rest.subrange(i + 2, rest.len() as int),
                        convention_named(rest.subrange(0, i)),
                    ),
                )
            } else {
                None
            },
            None => None,
        },
        None => match foreign_rest(qn) {
            Some(rest) => if rest.len() > 0 {
                Some((rest, FfiConvention::C))
            } else {
                None
            },
            None => None,
        },
    }
}

/// Contents of a parsed foreign name.
pub open spec fn ffi_view(r: Option<(String, FfiConvention)>) -> Option<
    (Seq<char>, FfiConvention),
> {
    match r {
        Some(p) => Some((p.0@, p.1)),
        None => None,
    }
}

fn find_convention(name: &str) -> (r: FfiConvention)
    ensures
        r == convention_named(name@),
{
    if same_text(name, "cdecl") {
        FfiConvention::Cdecl
    } else if same_text(name, "stdcall") {
        FfiConvention::Stdcall
    } else if same_text(name, "fastcall") {
        FfiConvention::Fastcall
    } else if same_text(name, "system") {
        FfiConvention::System
    } else {
        FfiConvention::C
    }
}

fn find_foreign_rest<'a>(qn: &'a str) -> (r: Option<&'a str>)
    ensures
        match r {
            Some(t) => foreign_rest(qn@) == Some(t@),
            None => foreign_rest(qn@) is None,
        },
{
    if let Some(rest) = strip_prefix_str(qn, "C.") {
        Some(rest)
    } else if let Some(rest) = strip_prefix_str(qn, "C::") {
        Some(rest)
    } else if let Some(rest) = strip_prefix_str(qn, "native::jni::") {
        Some(rest)
    } else if let Some(rest) = strip_prefix_str(qn, "native::ctypes::") {
        Some(rest)
    } else if let Some(rest) = strip_prefix_str(qn, "native::cffi::") {
        Some(rest)
    } else if let Some(rest) = strip_prefix_str(qn, "native::ffi::") {
        Some(rest)
    } else {
        strip_prefix_str(qn, "native::panama::")
    }
}

/// The function that a foreign declaration named `qualified_name` names, and its calling
/// convention.
pub fn parse_ffi_qualified_name(qualified_name: &str) -> (r: Option<(String, FfiConvention)>)
    ensures
        ffi_view(r) == ffi_name(qualified_name@),
{
    match strip_prefix_str(qualified_name, "extern::") {
        Some(rest) => match find_str(rest, "::") {
            Some(i) => {
                proof {
                    lemma_find_from(rest@, "::"@, 0);
                    reveal_strlit("::");
                    assert(occurs_at(rest@, "::"@, i as int));
                }
                let n: usize = rest.unicode_len();
                if i + 2 < n {
                    let convention = find_convention(rest.substring_char(0, i));
                    Some((rest.substring_char(i + 2, n).to_owned(), convention))
                } else {
                    None
                }
            },
            None => None,
        },
        None => match find_foreign_rest(qualified_name) {
            Some(rest) => {
                if rest.unicode_len() > 0 {
                    Some((rest.to_owned(), FfiConvention::C))
                } else {
                    None
                }
            },
            None => None,
        },
    }
}

/// `s` from position `i` on, with a dot in place of every `::`.
pub open spec fn dotted(s: Seq<char>, i: int) -> Seq<char>
    decreases s.len() - i,
{
    if i < 0 || i >= s.len() {
        Seq::empty()
    } else if i + 1 < s.len() && s[i] == ':' && s[i + 1] == ':' {
        seq!['.'] + dotted(s, i + 2)
    } else {
        seq![s[i]] + dotted(s, i + 1)
    }
}

fn make_dotted(s: &Vec<char>) -> (r: Vec<char>)
    ensures
        r@ == dotted(s@, 0),
{
    let mut out: Vec<char> = Vec::new();
    let mut i: usize = 0;
    let n: usize = s.len();
    proof {
        assert(out@ + dotted(s@, 0) =~= dotted(s@, 0));
    }
    while i < n
        invariant
            n == s@.len(),
            i <= n,
            out@ + dotted(s@, i as int) == dotted(s@, 0),
        decreases n - i,
    {
        let ghost before = out@;
        if i + 1 < n && s[i] == ':' && s[i + 1] == ':' {
            proof {
                assert(before + (seq!['.'] + dotted(s@, i + 2)) =~= before.push('.') + dotted(
                    s@,
                    i + 2,
                ));
            }
            out.push('.');
            i = i + 2;
        } else {
            proof {
                assert(before + (seq![s@[i as int]] + dotted(s@, i + 1)) =~= before.push(
                    s@[i as int],
                ) + dotted(s@, i + 1));
            }
            out.push(s[i]);
            i = i + 1;
        }
    }
    proof {
        assert(out@ + Seq::<char>::empty() =~= out@);
    }
    out
}

/// The segments of a Java name, taken apart at dots and at `::`.
pub open spec fn java_segments(name: Seq<char>) -> Seq<Seq<char>> {
    let parts = fields(dotted(name, 0), '.');
    non_empty(parts, parts.len() as int)
}

/// The name of the C function that implements the native Java method `name`.
pub open spec fn jni_name(name: Seq<char>) -> Seq<char> {
    "Java_"@ + joined(java_segments(name), '_', java_segments(name).len() as int)
}

/// The name of the C function that implements the native Java method `java_name`.
pub fn java_to_jni_c_name(java_name: &str) -> (r: String)
    ensures
        r@ == jni_name(java_name@),
{
    let chars = chars_of(java_name);
    let flat = make_dotted(&chars);
    let parts = split_fields(&flat, '.');
    let kept = keep_non_empty(parts);
    let tail = join_fields(&kept, '_');
    proof {
        assert(views(parts@).len() == parts@.len());
        assert(views(kept@).len() == kept@.len());
    }
    let mut out: String = "Java_".to_owned();
    out.append(string_of(&tail).as_str());
    out
}

/// A Java name that holds a package or a class.
pub open spec fn java_qualified(name: Seq<char>) -> bool {
    contains_text(name, "."@) || contains_text(name, "::"@)
}

fn is_java_qualified_name(java_name: &str) -> (r: bool)
    ensures
        r == java_qualified(java_name@),
{
    contains_str(java_name, ".") || contains_str(java_name, "::")
}

/// What follows the last `sep`; everything where there is none.
pub open spec fn after_last(s: Seq<char>, sep: Seq<char>) -> Seq<char> {
    match rfind_text(s, sep) {
        Some(i) => s.subrange(i + sep.len(), s.len() as int),
        None => s,
    }
}

proof fn lemma_rfind(s: Seq<char>, sep: Seq<char>, i: int)
    ensures
        crate::text::rfind_from(s, sep, i) matches Some(k) ==> occurs_at(s, sep, k),
    decreases i + 1,
{
    if i >= 0 && !occurs_at(s, sep, i) {
        lemma_rfind(s, sep, i - 1);
    }
}

fn find_after_last<'a>(s: &'a str, sep: &str) -> (r: &'a str)
    ensures
        r@ == after_last(s@, sep@),
{
    match rfind_str(s, sep) {
        Some(i) => {
            proof {
                lemma_rfind(s@, sep@, s@.len() as int);
            }
            let n: usize = s.unicode_len();
            s.substring_char(i + sep.unicode_len(), n)
        },
        None => s,
    }
}

/// The last segment of a Java name, if it is not empty.
pub open spec fn java_method(name: Seq<char>) -> Option<Seq<char>> {
    let last = after_last(after_last(name, "::"@), "."@);
    if last.len() > 0 {
        Some(last)
    } else {
        None
    }
}

fn java_method_name<'a>(java_name: &'a str) -> (r: Option<&'a str>)
    ensures
        match r {
            Some(t) => java_method(java_name@) == Some(t@),
            None => java_method(java_name@) is None,
        },
{
    let last = find_after_last(find_after_last(java_name, "::"), ".");
    if last.unicode_len() > 0 {
        Some(last)
    } else {
        None
    }
}

/// The name by which a node is matched: its qualified name, or its name.
pub open spec fn structural_name(strings: InternerView, e: NodeEntry) -> Option<Seq<char>> {
    let qn = match e.qualified_name {
        Some(q) => strings.resolve(q),
        None => None,
    };
    match qn {
        Some(t) => Some(t),
        None => strings.resolve(e.name),
    }
}

/// The name by which a node is matched: its qualified name, or its name.
pub fn entry_structural_name(graph: &CodeGraph, entry: &NodeEntry) -> (r: Option<String>)
    ensures
        text_of(r) == structural_name(graph@.strings, *entry),
{
    match entry.qualified_name {
        Some(q) => match graph.strings.resolve(q) {
            Some(t) => Some(t),
            None => graph.strings.resolve(entry.name),
        },
        None => graph.strings.resolve(entry.name),
    }
}

/// The name by which `node` is matched.
pub open spec fn node_name(g: GraphView, node: NodeId) -> Option<Seq<char>> {
    match live(g.nodes, node) {
        Some(e) => structural_name(g.strings, e),
        None => None,
    }
}

/// A foreign-function declaration.
pub struct FfiDeclaration {
    pub node_id: NodeId,
    /// Name of the function that is declared.
    pub bare_name: String,
    pub convention: FfiConvention,
    pub file_id: FileId,
}

/// Contents of a declaration.
pub struct DeclarationView {
    pub node: NodeId,
    pub name: Seq<char>,
    pub convention: FfiConvention,
    pub file: FileId,
}

impl View for FfiDeclaration {
    type V = DeclarationView;

    open spec fn view(&self) -> DeclarationView {
        DeclarationView {
            node: self.node_id,
            name: self.bare_name@,
            convention: self.convention,
            file: self.file_id,
        }
    }
}

/// The foreign-function declarations among the first `n` of `nodes`.
pub open spec fn declarations(g: GraphView, nodes: Seq<NodeId>, n: int) -> Seq<DeclarationView>
    decreases n,
{
    if n <= 0 {
        Seq::empty()
    } else {
        let before = declarations(g, nodes, n - 1);
        match node_name(g, nodes[n - 1]) {
            Some(name) => match ffi_name(name) {
                Some(p) => before.push(
                    DeclarationView {
                        node: nodes[n - 1],
                        name: p.0,
                        convention: p.1,
                        file: live(g.nodes, nodes[n - 1])->0.file,
                    },
                ),
                None => before,
            },
            None => before,
        }
    }
}

/// The foreign-function declarations of the graph.
pub open spec fn all_declarations(g: GraphView) -> Seq<DeclarationView> {
    let nodes = nodes_of_kind(g.indices, NodeKind::Function, g.indices.len() as int);
    declarations(g, nodes, nodes.len() as int)
}

fn collect_ffi_declarations(graph: &CodeGraph) -> (r: Vec<FfiDeclaration>)
    ensures
        views(r@) == all_declarations(graph@),
{
    let nodes = graph.indices.by_kind(NodeKind::Function);
    let mut out: Vec<FfiDeclaration> = Vec::new();
    for i in 0..nodes.len()
        invariant
            views(out@) =~= declarations(graph@, nodes@, i as int),
    {
        match graph.nodes.get(nodes[i]) {
            Some(entry) => match entry_structural_name(graph, &entry) {
                Some(name) => match parse_ffi_qualified_name(name.as_str()) {
                    Some((bare_name, convention)) => {
                        let d = FfiDeclaration {
                            node_id: nodes[i],
                            bare_name,
                            convention,
                            file_id: entry.file,
                        };
                        proof {
                            lemma_views_push(out@, d);
                        }
                        out.push(d);
                    },
                    None => {},
                },
                None => {},
            },
            None => {},
        }
    }
    out
}

/// The functions after those among the first `n` of `nodes`, which stand in `file`, were
/// registered under the last segment of their name.
pub open spec fn with_functions(
    g: GraphView,
    m: Map<Seq<char>, Seq<Definition>>,
    nodes: Seq<NodeId>,
    file: FileId,
    n: int,
) -> Map<Seq<char>, Seq<Definition>>
    decreases n,
{
    if n <= 0 {
        m
    } else {
        let before = with_functions(g, m, nodes, file, n - 1);
        let node = nodes[n - 1];
        match node_name(g, node) {
            Some(name) => if live(g.nodes, node)->0.kind == NodeKind::Function {
                registered(before, after_last(name, "::"@), file, node)
            } else {
                before
            },
            None => before,
        }
    }
}

/// The functions after those of the first `n` of `files` were registered.
pub open spec fn with_function_files(
    g: GraphView,
    m: Map<Seq<char>, Seq<Definition>>,
    files: Seq<FileId>,
    n: int,
) -> Map<Seq<char>, Seq<Definition>>
    decreases n,
{
    if n <= 0 {
        m
    } else {
        let nodes = nodes_of_file(g.indices, files[n - 1], g.indices.len() as int);
        with_functions(
            g,
            with_function_files(g, m, files, n - 1),
            nodes,
            files[n - 1],
            nodes.len() as int,
        )
    }
}

/// The functions of all C files and then of all C++ files, by the last segment of their
/// name.
pub open spec fn c_functions(g: GraphView) -> Map<Seq<char>, Seq<Definition>> {
    let c = files_of_language(g.files.files, Language::C, g.files.files.len() as int);
    let cpp = files_of_language(g.files.files, Language::Cpp, g.files.files.len() as int);
    with_function_files(
        g,
        with_function_files(g, Map::empty(), c, c.len() as int),
        cpp,
        cpp.len() as int,
    )
}

fn add_functions(graph: &CodeGraph, map: &mut ExportMap, file: FileId)
    requires
        old(map).wf(),
    ensures
        final(map).wf(),
        ({
            let nodes = nodes_of_file(graph@.indices, file, graph@.indices.len() as int);
            final(map)@ == with_functions(graph@, old(map)@, nodes, file, nodes.len() as int)
        }),
{
    let nodes = graph.indices.by_file(file);
    let ghost m = map@;
    for i in 0..nodes.len()
        invariant
            map.wf(),
            map@ == with_functions(graph@, m, nodes@, file, i as int),
    {
        match graph.nodes.get(nodes[i]) {
            Some(entry) => {
                if entry.kind == NodeKind::Function {
                    match entry_structural_name(graph, &entry) {
                        Some(name) => {
                            let bare = find_after_last(name.as_str(), "::").to_owned();
                            map.register(bare, file, nodes[i]);
                        },
                        None => {},
                    }
                }
            },
            None => {},
        }
    }
}

fn add_function_files(graph: &CodeGraph, map: &mut ExportMap, files: &Vec<FileId>)
    requires
        old(map).wf(),
    ensures
        final(map).wf(),
        final(map)@ == with_function_files(graph@, old(map)@, files@, files@.len() as int),
{
    let ghost m = map@;
    for i in 0..files.len()
        invariant
            map.wf(),
            map@ == with_function_files(graph@, m, files@, i as int),
    {
        add_functions(graph, map, files[i]);
    }
}

fn build_c_function_map(graph: &CodeGraph) -> (r: ExportMap)
    ensures
        r.wf(),
        r@ == c_functions(graph@),
{
    let mut map = ExportMap::new();
    let c = graph.files.files_by_language(Language::C);
    add_function_files(graph, &mut map, &c);
    let cpp = graph.files.files_by_language(Language::Cpp);
    add_function_files(graph, &mut map, &cpp);
    map
}

/// The functions outside of `file` that `name` names.
pub open spec fn foreign_matches(
    functions: Map<Seq<char>, Seq<Definition>>,
    name: Seq<char>,
    file: FileId,
) -> Seq<Definition> {
    let defs = definitions(functions, name);
    outside(defs, file, defs.len() as int)
}

/// The functions that implement a declaration: those with its name; where there are none,
/// those with its name as a native Java method; and where there are none of these, those
/// with its last segment. Functions of the declaring file do not count.
pub open spec fn implementations(
    functions: Map<Seq<char>, Seq<Definition>>,
    d: DeclarationView,
) -> Seq<Definition> {
    let direct = foreign_matches(functions, d.name, d.file);
    let native = if java_qualified(d.name) {
        foreign_matches(functions, jni_name(d.name), d.file)
    } else {
        Seq::empty()
    };
    if direct.len() > 0 {
        direct
    } else if native.len() > 0 {
        native
    } else {
        match java_method(d.name) {
            Some(m) => foreign_matches(functions, m, d.file),
            None => Seq::empty(),
        }
    }
}

/// The edges from a declaration to the functions that implement it.
pub open spec fn ffi_edges_of(d: DeclarationView, targets: Seq<Definition>) -> Seq<PendingView> {
    Seq::new(
        targets.len(),
        |i: int|
            PendingView {
                source: d.node,
                target: targets[i].1,
                kind: EdgeKind::FfiCall { convention: d.convention },
                file: d.file,
                spans: Seq::empty(),
            },
    )
}

/// The edges from the first `n` declarations to the functions that implement them.
pub open spec fn ffi_edges(
    functions: Map<Seq<char>, Seq<Definition>>,
    decls: Seq<DeclarationView>,
    n: int,
) -> Seq<PendingView>
    decreases n,
{
    if n <= 0 {
        Seq::empty()
    } else {
        ffi_edges(functions, decls, n - 1) + ffi_edges_of(
            decls[n - 1],
            implementations(functions, decls[n - 1]),
        )
    }
}

/// The edges from all declarations of the graph to the functions that implement them.
pub open spec fn all_ffi_edges(g: GraphView) -> Seq<PendingView> {
    let decls = all_declarations(g);
    ffi_edges(c_functions(g), decls, decls.len() as int)
}

/// Adds an edge to every function outside of the declaring file that `name` names;
/// returns whether there is any.
fn try_ffi_match(
    decl: &FfiDeclaration,
    name: &str,
    functions: &ExportMap,
    pending: &mut Vec<PendingEdge>,
) -> (r: bool)
    requires
        functions.wf(),
    ensures
        ({
            let targets = foreign_matches(functions@, name@, decl.file_id);
            &&& r == (targets.len() > 0)
            &&& pending_views(final(pending)@) == pending_views(old(pending)@) + ffi_edges_of(
                decl@,
                targets,
            )
        }),
{
    let ghost before = pending_views(pending@);
    let targets = functions.definitions_outside(name, decl.file_id);
    proof {
        assert(before + ffi_edges_of(decl@, targets@).take(0) =~= before);
    }
    for i in 0..targets.len()
        invariant
            pending_views(pending@) == before + ffi_edges_of(decl@, targets@).take(i as int),
    {
        let e = PendingEdge {
            source: decl.node_id,
            target: targets[i].1,
            kind: EdgeKind::FfiCall { convention: decl.convention },
            file: decl.file_id,
            spans: Vec::new(),
        };
        let ghost mid = pending_views(pending@);
        proof {
            assert(e@.spans =~= Seq::empty());
        }
        pending.push(e);
        proof {
            assert(pending_views(pending@) =~= mid.push(e@));
            assert(before + ffi_edges_of(decl@, targets@).take(i + 1) =~= (before + ffi_edges_of(
                decl@,
                targets@,
            ).take(i as int)).push(e@));
        }
    }
    proof {
        assert(ffi_edges_of(decl@, targets@).take(targets@.len() as int) =~= ffi_edges_of(
            decl@,
            targets@,
        ));
    }
    targets.len() > 0
}

fn link_declaration(decl: &FfiDeclaration, functions: &ExportMap, pending: &mut Vec<PendingEdge>)
    requires
        functions.wf(),
    ensures
        pending_views(final(pending)@) == pending_views(old(pending)@) + ffi_edges_of(
            decl@,
            implementations(functions@, decl@),
        ),
{
    let ghost before = pending_views(pending@);
    proof {
        assert(before + ffi_edges_of(decl@, Seq::<Definition>::empty()) =~= before);
    }
    if try_ffi_match(decl, decl.bare_name.as_str(), functions, pending) {
        return ;
    }
    proof {
        let none = foreign_matches(functions@, decl@.name, decl.file_id);
        assert(none =~= Seq::empty());
        assert(pending_views(pending@) =~= before);
    }
    if is_java_qualified_name(decl.bare_name.as_str()) {
        let jni = java_to_jni_c_name(decl.bare_name.as_str());
        if try_ffi_match(decl, jni.as_str(), functions, pending) {
            return ;
        }
        proof {
            let none = foreign_matches(functions@, jni@, decl.file_id);
            assert(none =~= Seq::empty());
            assert(pending_views(pending@) =~= before);
        }
    }
    match java_method_name(decl.bare_name.as_str()) {
        Some(method) => {
            let _found: bool = try_ffi_match(decl, method, functions, pending);
        },
        None => {},
    }
}

/// Adds an edge from every foreign-function declaration to the C functions that implement
/// it; returns the number of declarations.
pub fn link_ffi_edges(graph: &CodeGraph, pending: &mut Vec<PendingEdge>) -> (r: usize)
    ensures
        r == all_declarations(graph@).len(),
        pending_views(final(pending)@) == pending_views(old(pending)@) + all_ffi_edges(graph@),
{
    let ghost before = pending_views(pending@);
    let decls = collect_ffi_declarations(graph);
    let functions = build_c_function_map(graph);
    let ghost all = views(decls@);
    proof {
        assert(before + Seq::<PendingView>::empty() =~= before);
        assert(all.len() == decls@.len());
    }
    for i in 0..decls.len()
        invariant
            functions.wf(),
            all == views(decls@),
            pending_views(pending@) == before + ffi_edges(functions@, all, i as int),
    {
        assert(all[i as int] == decls@[i as int]@);
        link_declaration(&decls[i], &functions, pending);
        proof {
            assert(before + ffi_edges(functions@, all, i + 1) =~= before + ffi_edges(
                functions@,
                all,
                i as int,
            ) + ffi_edges_of(all[i as int], implementations(functions@, all[i as int])));
        }
    }
    decls.len()
}

proof fn lemma_outside_leaves(defs: Seq<Definition>, file: FileId, n: int, i: int)
    requires
        0 <= n <= defs.len(),
        0 <= i < outside(defs, file, n).len(),
    ensures
        outside(defs, file, n)[i].0 != file,
    decreases n,
{
    if n > 0 && i < outside(defs, file, n - 1).len() {
        lemma_outside_leaves(defs, file, n - 1, i);
    }
}

/// A declaration is never linked to a function of its own file.
pub proof fn law_ffi_leaves_the_file(
    functions: Map<Seq<char>, Seq<Definition>>,
    d: DeclarationView,
    i: int,
)
    requires
        0 <= i < implementations(functions, d).len(),
    ensures
        implementations(functions, d)[i].0 != d.file,
{
    let direct = definitions(functions, d.name);
    let native = definitions(functions, jni_name(d.name));
    if foreign_matches(functions, d.name, d.file).len() > 0 {
        lemma_outside_leaves(direct, d.file, direct.len() as int, i);
    } else if java_qualified(d.name) && foreign_matches(
        functions,
        jni_name(d.name),
        d.file,
    ).len() > 0 {
        lemma_outside_leaves(native, d.file, native.len() as int, i);
    } else {
        let last = definitions(functions, java_method(d.name)->0);
        lemma_outside_leaves(last, d.file, last.len() as int, i);
    }
}

} // verus!
