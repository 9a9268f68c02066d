//! What references to other files and imports become.
use vstd::prelude::*;

use crate::edges::PendingView;
use crate::ids::{FileId, NodeId, Position, Span};
use crate::indices::lemma_filter_take;
use crate::kinds::EdgeKind;
use crate::pass3_intra::UnresolvedView;
use crate::pass4_cross::{
    all_import_edges, cross_calls, cross_edges, cross_target, definitions, first_outside,
    import_edges, lemma_cross_bounds, lemma_import_bound, pass4_counts, unaliased, Definition,
    ImportView,
};

verus! {

/// Among the imports, `name` stands for `meant`: for what the last import with that alias
/// imports, or for itself where none has it.
pub open spec fn means(imports: Seq<ImportView>, name: Seq<char>, meant: Seq<char>) -> bool {
    ||| meant == name && forall|j: int|
        0 <= j < imports.len() ==> (#[trigger] imports[j]).alias_name != Some(name)
    ||| exists|k: int|
        0 <= k < imports.len() && (#[trigger] imports[k]).alias_name == Some(name)
            && imports[k].imported_name == meant && (forall|j: int|
            k < j < imports.len() ==> (#[trigger] imports[j]).alias_name != Some(name))
}

/// `d` is the first definition of `name` outside of `file`.
pub open spec fn first_elsewhere(
    exports: Map<Seq<char>, Seq<Definition>>,
    name: Seq<char>,
    file: FileId,
    d: Definition,
) -> bool {
    &&& exports.dom().contains(name)
    &&& exists|k: int|
        0 <= k < exports[name].len() && (#[trigger] exports[name][k]) == d && d.0 != file && (
        forall|j: int| 0 <= j < k ==> (#[trigger] exports[name][j]).0 == file)
}

/// The reference leads to the definition `d` in another file.
pub open spec fn leads_to(
    u: UnresolvedView,
    imports: Seq<ImportView>,
    exports: Map<Seq<char>, Seq<Definition>>,
    file: FileId,
    d: Definition,
) -> bool {
    exists|meant: Seq<char>| #[trigger]
        means(imports, u.target_name, meant) && first_elsewhere(exports, meant, file, d)
}

/// The reference leads somewhere.
pub open spec fn leads_somewhere(
    u: UnresolvedView,
    imports: Seq<ImportView>,
    exports: Map<Seq<char>, Seq<Definition>>,
    file: FileId,
) -> bool {
    exists|d: Definition| #[trigger] leads_to(u, imports, exports, file, d)
}

proof fn lemma_unaliased(imports: Seq<ImportView>, name: Seq<char>, n: int) -> (k: int)
    requires
        0 <= n <= imports.len(),
    ensures
        -1 <= k < n,
        k >= 0 ==> imports[k].alias_name == Some(name) && unaliased(imports, name, n)
            == imports[k].imported_name,
        k < 0 ==> unaliased(imports, name, n) == name,
        forall|j: int| k < j < n ==> (#[trigger] imports[j]).alias_name != Some(name),
    decreases n,
{
    if n <= 0 {
        -1
    } else if imports[n - 1].alias_name == Some(name) {
        n - 1
    } else {
        lemma_unaliased(imports, name, n - 1)
    }
}

proof fn lemma_means(imports: Seq<ImportView>, name: Seq<char>, meant: Seq<char>)
    ensures
        means(imports, name, meant) <==> unaliased(imports, name, imports.len() as int) == meant,
{
    let m = lemma_unaliased(imports, name, imports.len() as int);
    if m >= 0 {
        assert(imports[m].alias_name == Some(name));
        if means(imports, name, meant) {
            let k = choose|k: int|
                0 <= k < imports.len() && (#[trigger] imports[k]).alias_name == Some(name)
                    && imports[k].imported_name == meant && (forall|j: int|
                    k < j < imports.len() ==> (#[trigger] imports[j]).alias_name != Some(name));
            assert(imports[k].alias_name == Some(name));
            assert(k == m);
        }
    }
}

proof fn lemma_first_outside(defs: Seq<Definition>, file: FileId, i: int) -> (k: int)
    requires
        0 <= i <= defs.len(),
    ensures
        i <= k <= defs.len(),
        k < defs.len() ==> first_outside(defs, file, i) == Some(defs[k]) && defs[k].0 != file,
        k == defs.len() ==> first_outside(defs, file, i) is None,
        forall|j: int| i <= j < k ==> (#[trigger] defs[j]).0 == file,
    decreases defs.len() - i,
{
    if i >= defs.len() {
        i
    } else if defs[i].0 != file {
        i
    } else {
        lemma_first_outside(defs, file, i + 1)
    }
}

proof fn lemma_leads(
    u: UnresolvedView,
    imports: Seq<ImportView>,
    exports: Map<Seq<char>, Seq<Definition>>,
    file: FileId,
    d: Definition,
)
    ensures
        leads_to(u, imports, exports, file, d) <==> cross_target(u, imports, exports, file) == Some(
            d,
        ),
{
    let meant = unaliased(imports, u.target_name, imports.len() as int);
    lemma_means(imports, u.target_name, meant);
    let defs = definitions(exports, meant);
    let m = lemma_first_outside(defs, file, 0);
    if leads_to(u, imports, exports, file, d) {
        let other = choose|other: Seq<char>| #[trigger]
            means(imports, u.target_name, other) && first_elsewhere(exports, other, file, d);
        lemma_means(imports, u.target_name, other);
        let k = choose|k: int|
            0 <= k < exports[meant].len() && (#[trigger] exports[meant][k]) == d && d.0 != file && (
            forall|j: int| 0 <= j < k ==> (#[trigger] exports[meant][j]).0 == file);
        assert(defs[k].0 != file);
        assert(k == m);
    }
    if cross_target(u, imports, exports, file) == Some(d) {
        assert(exports[meant][m] == d);
        assert(first_elsewhere(exports, meant, file, d));
    }
}

/// `e` is the edge that the reference becomes, which leads to `d`.
pub open spec fn edge_across(u: UnresolvedView, file: FileId, d: Definition, e: PendingView) -> bool {
    &&& e.source == u.source_node
    &&& e.target == d.1
    &&& e.kind == u.kind
    &&& e.file == file
    &&& e.spans == (if u.has_location {
        seq![
            Span {
                start: Position { line: u.line, column: u.column },
                end: Position { line: u.line, column: u.column },
            },
        ]
    } else {
        Seq::empty()
    })
}

proof fn lemma_across(
    refs: Seq<UnresolvedView>,
    imports: Seq<ImportView>,
    exports: Map<Seq<char>, Seq<Definition>>,
    file: FileId,
    n: int,
)
    requires
        0 <= n <= refs.len(),
    ensures
        ({
            let found = refs.take(n).filter(
                |u: UnresolvedView| leads_somewhere(u, imports, exports, file),
            );
            let calls = refs.take(n).filter(
                |u: UnresolvedView|
                    leads_somewhere(u, imports, exports, file) && u.kind is Calls,
            );
            let edges = cross_edges(refs, imports, exports, file, n);
            &&& edges.len() == found.len()
            &&& forall|i: int|
                0 <= i < edges.len() ==> across(imports, exports, file, found[i], #[trigger] edges[i])
            &&& cross_calls(refs, imports, exports, file, n) == calls.len()
        }),
    decreases n,
{
    let p = |u: UnresolvedView| leads_somewhere(u, imports, exports, file);
    let c = |u: UnresolvedView| leads_somewhere(u, imports, exports, file) && u.kind is Calls;
    if n > 0 {
        lemma_across(refs, imports, exports, file, n - 1);
        lemma_filter_take(refs, p, n);
        lemma_filter_take(refs, c, n);
        let u = refs[n - 1];
        match cross_target(u, imports, exports, file) {
            Some(d) => {
                lemma_leads(u, imports, exports, file, d);
                let before = cross_edges(refs, imports, exports, file, n - 1);
                let e = cross_edges(refs, imports, exports, file, n)[before.len() as int];
                assert(leads_to(u, imports, exports, file, d) && edge_across(u, file, d, e));
                assert(p(u));
            },
            None => {
                assert forall|d: Definition| !#[trigger] leads_to(u, imports, exports, file, d) by {
                    lemma_leads(u, imports, exports, file, d);
                }
                assert(!p(u));
            },
        }
    } else {
        reveal(Seq::filter);
        assert(refs.take(0).filter(p).len() == 0);
        assert(refs.take(0).filter(c).len() == 0);
    }
}

/// `e` is the edge that the reference becomes.
pub open spec fn across(
    imports: Seq<ImportView>,
    exports: Map<Seq<char>, Seq<Definition>>,
    file: FileId,
    u: UnresolvedView,
    e: PendingView,
) -> bool {
    exists|d: Definition| #[trigger]
        leads_to(u, imports, exports, file, d) && edge_across(u, file, d, e)
}

/// `e` is the edge that an import of something exported becomes: from the file to the first
/// definition.
pub open spec fn edge_of_import(
    exports: Map<Seq<char>, Seq<Definition>>,
    node: NodeId,
    file: FileId,
    i: ImportView,
    e: PendingView,
) -> bool {
    &&& e.source == node
    &&& e.target == exports[i.imported_name][0].1
    &&& e.kind == (EdgeKind::Imports { alias: i.alias_id, is_wildcard: i.is_wildcard })
    &&& e.file == file
    &&& e.spans == Seq::<Span>::empty()
}

/// What is imported is exported somewhere.
pub open spec fn imports_something(
    exports: Map<Seq<char>, Seq<Definition>>,
    i: ImportView,
) -> bool {
    exports.dom().contains(i.imported_name) && exports[i.imported_name].len() > 0
}

proof fn lemma_imports(
    imports: Seq<ImportView>,
    exports: Map<Seq<char>, Seq<Definition>>,
    node: NodeId,
    file: FileId,
    n: int,
)
    requires
        0 <= n <= imports.len(),
    ensures
        ({
            let found = imports.take(n).filter(|i: ImportView| imports_something(exports, i));
            let edges = import_edges(imports, exports, node, file, n);
            &&& edges.len() == found.len()
            &&& forall|k: int|
                0 <= k < edges.len() ==> edge_of_import(
                    exports,
                    node,
                    file,
                    found[k],
                    #[trigger] edges[k],
                )
        }),
    decreases n,
{
    let p = |i: ImportView| imports_something(exports, i);
    if n > 0 {
        lemma_imports(imports, exports, node, file, n - 1);
        lemma_filter_take(imports, p, n);
    } else {
        reveal(Seq::filter);
        assert(imports.take(0).filter(p).len() == 0);
    }
}

/// Every reference that leads to a definition in another file, by its name or by what an
/// import says its name stands for, becomes an edge to the first such definition, in the
/// order of the references. Every import of something exported becomes an edge from the
/// file to its first definition. All are counted by what becomes of them.
pub proof fn law_references_across_files_lead_to_definitions(
    refs: Seq<UnresolvedView>,
    imports: Seq<ImportView>,
    exports: Map<Seq<char>, Seq<Definition>>,
    file_node: Option<NodeId>,
    file: FileId,
)
    requires
        refs.len() <= usize::MAX,
        imports.len() <= usize::MAX,
    ensures
        ({
            let n = refs.len() as int;
            let found = refs.filter(
                |u: UnresolvedView| leads_somewhere(u, imports, exports, file),
            );
            let calls = refs.filter(
                |u: UnresolvedView|
                    leads_somewhere(u, imports, exports, file) && u.kind is Calls,
            );
            let edges = cross_edges(refs, imports, exports, file, n);
            let exported = imports.filter(|i: ImportView| imports_something(exports, i));
            let more = all_import_edges(imports, exports, file_node, file);
            let s = pass4_counts(refs, imports, exports, file_node, file);
            &&& edges.len() == found.len()
            &&& forall|i: int|
                0 <= i < edges.len() ==> across(imports, exports, file, found[i], #[trigger] edges[i])
            &&& file_node is None ==> more.len() == 0
            &&& file_node matches Some(node) ==> more.len() == exported.len() && forall|k: int|
                0 <= k < more.len() ==> edge_of_import(
                    exports,
                    node,
                    file,
                    exported[k],
                    #[trigger] more[k],
                )
            &&& s.unresolved_processed == refs.len()
            &&& s.cross_file_calls == calls.len()
            &&& s.cross_file_calls + s.cross_file_references == found.len()
            &&& s.still_unresolved == refs.len() - found.len()
            &&& s.imports_created == more.len()
        }),
{
    let n = refs.len() as int;
    let m = imports.len() as int;
    lemma_across(refs, imports, exports, file, n);
    assert(refs.take(n) =~= refs);
    assert(imports.take(m) =~= imports);
    lemma_cross_bounds(refs, imports, exports, file, n);
    if let Some(node) = file_node {
        lemma_imports(imports, exports, node, file, m);
        lemma_import_bound(imports, exports, node, file, m);
    }
}

} // verus!
