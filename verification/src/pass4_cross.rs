//! Edges between files: references resolved through the symbols that files export.
use vstd::hash_map::StringHashMap;
use vstd::prelude::*;

use crate::edges::{pending_views, PendingEdge, PendingView};
use crate::ids::{FileId, NodeId, StringId};
use crate::kinds::EdgeKind;
use crate::lists::views;
use crate::pass3_intra::{make_point_spans, point_spans, UnresolvedRef, UnresolvedView};
use crate::strings::text_of;
use crate::symbols::{texts, SymbolTable};

pub mod laws;

verus! {

/// Where a symbol is defined.
pub type Definition = (FileId, NodeId);

/// The definitions of every exported symbol, by qualified name, in the order in which
/// they were registered.
pub struct ExportMap {
    /// Exported names, in order of their first definition.
    pub names: Vec<String>,
    /// Definitions of each name.
    pub lists: Vec<Vec<Definition>>,
    /// Position of each name.
    pub slots: StringHashMap<usize>,
}

impl View for ExportMap {
    type V = Map<Seq<char>, Seq<Definition>>;

    open spec fn view(&self) -> Map<Seq<char>, Seq<Definition>> {
        Map::new(
            |k: Seq<char>| self.slots@.dom().contains(k),
            |k: Seq<char>| self.lists@[self.slots@[k] as int]@,
        )
    }
}

/// The definitions of `name`; none where it is not exported.
pub open spec fn definitions(m: Map<Seq<char>, Seq<Definition>>, name: Seq<char>) -> Seq<
    Definition,
> {
    if m.dom().contains(name) {
        m[name]
    } else {
        Seq::empty()
    }
}

/// The map after one more definition of `name` was registered.
pub open spec fn registered(
    m: Map<Seq<char>, Seq<Definition>>,
    name: Seq<char>,
    file: FileId,
    node: NodeId,
) -> Map<Seq<char>, Seq<Definition>> {
    m.insert(name, definitions(m, name).push((file, node)))
}

/// The first of the definitions.
pub open spec fn first_of(defs: Seq<Definition>) -> Option<Definition> {
    if defs.len() > 0 {
        Some(defs[0])
    } else {
        None
    }
}

/// The first definition outside of `file`, from position `i` on.
pub open spec fn first_outside(defs: Seq<Definition>, file: FileId, i: int) -> Option<Definition>
    decreases defs.len() - i,
{
    if i < 0 || i >= defs.len() {
        None
    } else if defs[i].0 != file {
        Some(defs[i])
    } else {
        first_outside(defs, file, i + 1)
    }
}

/// The definitions among the first `n` that are not in `file`.
pub open spec fn outside(defs: Seq<Definition>, file: FileId, n: int) -> Seq<Definition>
    decreases n,
{
    if n <= 0 {
        Seq::empty()
    } else {
        let before = outside(defs, file, n - 1);
        if defs[n - 1].0 != file {
            before.push(defs[n - 1])
        } else {
            before
        }
    }
}

/// The map without the definitions in `file`; names without a definition left are gone.
pub open spec fn without_file(m: Map<Seq<char>, Seq<Definition>>, file: FileId) -> Map<
    Seq<char>,
    Seq<Definition>,
> {
    Map::new(
        |k: Seq<char>| m.dom().contains(k) && outside(m[k], file, m[k].len() as int).len() > 0,
        |k: Seq<char>| outside(m[k], file, m[k].len() as int),
    )
}

impl ExportMap {
    /// The exported names, in order.
    pub open spec fn order(&self) -> Seq<Seq<char>> {
        texts(self.names@)
    }

    /// Every name stands at its position, and has a definition.
    pub open spec fn wf(&self) -> bool {
        &&& self.names@.len() == self.lists@.len()
        &&& forall|k: Seq<char>| #[trigger]
            self.slots@.dom().contains(k) ==> self.slots@[k] < self.names@.len()
                && self.names@[self.slots@[k] as int]@ == k
        &&& forall|i: int|
            #![trigger self.names@[i]]
            0 <= i < self.names@.len() ==> self.slots@.dom().contains(self.names@[i]@)
                && self.slots@[self.names@[i]@] == i && self.lists@[i]@.len() > 0
    }

    /// A map without symbols.
    pub fn new() -> (r: ExportMap)
        ensures
            r.wf(),
            r@ == Map::<Seq<char>, Seq<Definition>>::empty(),
            r.order() == Seq::<Seq<char>>::empty(),
    {
        let r = ExportMap { names: Vec::new(), lists: Vec::new(), slots: StringHashMap::new() };
        proof {
            assert(r@ =~= Map::<Seq<char>, Seq<Definition>>::empty());
            assert(r.order() =~= Seq::<Seq<char>>::empty());
        }
        r
    }

    fn add_list(&mut self, name: String, list: Vec<Definition>)
        requires
            old(self).wf(),
            !old(self)@.dom().contains(name@),
            list@.len() > 0,
        ensures
            final(self).wf(),
            final(self)@ == old(self)@.insert(name@, list@),
            final(self).order() == old(self).order().push(name@),
    {
        let ghost before = *self;
        let at: usize = self.names.len();
        let copy: String = name.clone();
        self.names.push(copy);
        self.lists.push(list);
        self.slots.insert(name, at);
        proof {
            assert forall|k: Seq<char>| #[trigger]
                self.slots@.dom().contains(k) implies self.slots@[k] < self.names@.len()
                && self.names@[self.slots@[k] as int]@ == k by {
                if k != name@ {
                    assert(before.slots@.dom().contains(k));
                    assert(self.names@[self.slots@[k] as int] == before.names@[self.slots@[k] as int]);
                }
            }
            assert forall|i: int|
                #![trigger self.names@[i]]
                0 <= i < self.names@.len() implies self.slots@.dom().contains(self.names@[i]@)
                && self.slots@[self.names@[i]@] == i && self.lists@[i]@.len() > 0 by {
                if i < at {
                    assert(self.names@[i] == before.names@[i]);
                    assert(before.slots@.dom().contains(before.names@[i]@));
                    assert(before.names@[i]@ != name@);
                    assert(self.lists@[i] == before.lists@[i]);
                }
            }
            assert forall|k: Seq<char>| #[trigger] before.slots@.dom().contains(k) implies
                self.lists@[before.slots@[k] as int] == before.lists@[before.slots@[k] as int] by {}
            assert(self@ =~= before@.insert(name@, list@));
            assert(self.order() =~= before.order().push(name@));
        }
    }

    /// Registers a definition of `qualified_name`, behind those that are there.
    pub fn register(&mut self, qualified_name: String, file_id: FileId, node_id: NodeId)
        requires
            old(self).wf(),
        ensures
            final(self).wf(),
            final(self)@ == registered(old(self)@, qualified_name@, file_id, node_id),
            final(self).order() == (if old(self)@.dom().contains(qualified_name@) {
                old(self).order()
            } else {
                old(self).order().push(qualified_name@)
            }),
    {
        let ghost before = *self;
        let slot: Option<usize> = match self.slots.get(qualified_name.as_str()) {
            Some(i) => Some(*i),
            None => None,
        };
        match slot {
            Some(i) => {
                self.lists[i].push((file_id, node_id));
                proof {
                    let name = qualified_name@;
                    assert forall|k: Seq<char>| #[trigger] before.slots@.dom().contains(k) && k
                        != name implies before.slots@[k] != i by {
                        assert(before.names@[before.slots@[k] as int]@ == k);
                    }
                    assert(self@ =~= registered(before@, name, file_id, node_id));
                }
            },
            None => {
                let mut list: Vec<Definition> = Vec::new();
                list.push((file_id, node_id));
                proof {
                    assert(list@ =~= Seq::<Definition>::empty().push((file_id, node_id)));
                }
                self.add_list(qualified_name, list);
            },
        }
    }

    /// The first definition of `qualified_name`.
    pub fn lookup(&self, qualified_name: &str) -> (r: Option<Definition>)
        requires
            self.wf(),
        ensures
            r == first_of(definitions(self@, qualified_name@)),
    {
        match self.slots.get(qualified_name) {
            Some(i) => {
                if self.lists[*i].len() > 0 {
                    Some(self.lists[*i][0])
                } else {
                    None
                }
            },
            None => None,
        }
    }

    /// The first definition of `qualified_name` outside of `exclude_file`.
    pub fn lookup_cross_file(&self, qualified_name: &str, exclude_file: FileId) -> (r: Option<
        Definition,
    >)
        requires
            self.wf(),
        ensures
            r == first_outside(definitions(self@, qualified_name@), exclude_file, 0),
    {
        match self.slots.get(qualified_name) {
            Some(slot) => {
                let list: &Vec<Definition> = &self.lists[*slot];
                for i in 0..list.len()
                    invariant
                        list@ == definitions(self@, qualified_name@),
                        first_outside(list@, exclude_file, 0) == first_outside(
                            list@,
                            exclude_file,
                            i as int,
                        ),
                {
                    if list[i].0 != exclude_file {
                        return Some(list[i]);
                    }
                }
                None
            },
            None => None,
        }
    }

    /// The definitions of `qualified_name` outside of `exclude_file`, in order.
    pub fn definitions_outside(&self, qualified_name: &str, exclude_file: FileId) -> (r: Vec<
        Definition,
    >)
        requires
            self.wf(),
        ensures
            ({
                let defs = definitions(self@, qualified_name@);
                r@ == outside(defs, exclude_file, defs.len() as int)
            }),
    {
        match self.slots.get(qualified_name) {
            Some(slot) => ExportMap::kept_list(&self.lists[*slot], exclude_file),
            None => Vec::new(),
        }
    }

    /// Whether `qualified_name` is exported.
    pub fn contains(&self, qualified_name: &str) -> (r: bool)
        ensures
            r == self@.dom().contains(qualified_name@),
    {
        self.slots.contains_key(qualified_name)
    }

    /// Number of exported names.
    pub fn len(&self) -> (r: usize)
        ensures
            r == self@.dom().len(),
    {
        proof {
            assert(self@.dom() =~= self.slots@.dom());
        }
        self.slots.len()
    }

    /// Whether nothing is exported.
    pub fn is_empty(&self) -> (r: bool)
        ensures
            r == (self@ == Map::<Seq<char>, Seq<Definition>>::empty()),
    {
        let r: bool = self.slots.is_empty();
        proof {
            if r {
                assert(self.slots@.dom() =~= Set::empty());
                assert(self@ =~= Map::<Seq<char>, Seq<Definition>>::empty());
            } else {
                assert(self@.dom() =~= self.slots@.dom());
                if self@ == Map::<Seq<char>, Seq<Definition>>::empty() {
                    assert(self.slots@.dom() =~= Set::empty());
                    assert(self.slots@ =~= Map::empty());
                }
            }
        }
        r
    }

    fn kept_list(list: &Vec<Definition>, file_id: FileId) -> (r: Vec<Definition>)
        ensures
            r@ == outside(list@, file_id, list@.len() as int),
    {
        let mut out: Vec<Definition> = Vec::new();
        for i in 0..list.len()
            invariant
                out@ == outside(list@, file_id, i as int),
        {
            if list[i].0 != file_id {
                out.push(list[i]);
            }
        }
        out
    }

    /// Removes the definitions in `file_id`.
    pub fn remove_file(&mut self, file_id: FileId)
        requires
            old(self).wf(),
        ensures
            final(self).wf(),
            final(self)@ == without_file(old(self)@, file_id),
    {
        let ghost m = self@;
        let mut out = ExportMap::new();
        for i in 0..self.names.len()
            invariant
                self.wf(),
                self@ == m,
                out.wf(),
                forall|k: Seq<char>|
                    #![trigger out@.dom().contains(k)]
                    out@.dom().contains(k) <==> without_file(m, file_id).dom().contains(k)
                        && self.slots@[k] < i,
                forall|k: Seq<char>|
                    #![trigger out@[k]]
                    out@.dom().contains(k) ==> out@[k] == without_file(m, file_id)[k],
        {
            let ghost name = self.names@[i as int]@;
            let ghost before = out@;
            assert(self.slots@[name] == i);
            assert(m.dom().contains(name) && m[name] == self.lists@[i as int]@);
            let kept = ExportMap::kept_list(&self.lists[i], file_id);
            if kept.len() > 0 {
                out.add_list(self.names[i].clone(), kept);
            }
            proof {
                assert forall|k: Seq<char>|
                    #![trigger out@.dom().contains(k)]
                    out@.dom().contains(k) <==> without_file(m, file_id).dom().contains(k)
                        && self.slots@[k] < i + 1 by {
                    if k != name {
                        assert(out@.dom().contains(k) == before.dom().contains(k));
                        if m.dom().contains(k) && self.slots@[k] == i {
                            assert(self.names@[self.slots@[k] as int]@ == k);
                        }
                    }
                }
                assert forall|k: Seq<char>|
                    #![trigger out@[k]]
                    out@.dom().contains(k) implies out@[k] == without_file(m, file_id)[k] by {
                    if k != name {
                        assert(before.dom().contains(k));
                        assert(out@[k] == before[k]);
                    }
                }
            }
        }
        proof {
            assert(out@ =~= without_file(m, file_id));
        }
        *self = out;
    }

    /// Each exported name with its first definition, in order.
    pub fn iter(&self) -> (r: Vec<(String, Definition)>)
        requires
            self.wf(),
        ensures
            r@.len() == self.order().len(),
            forall|i: int|
                0 <= i < r@.len() ==> (#[trigger] r@[i]).0@ == self.order()[i] && Some(r@[i].1)
                    == first_of(definitions(self@, self.order()[i])),
    {
        let mut out: Vec<(String, Definition)> = Vec::new();
        for i in 0..self.names.len()
            invariant
                self.wf(),
                out@.len() == i,
                forall|j: int|
                    0 <= j < i ==> (#[trigger] out@[j]).0@ == self.order()[j] && Some(out@[j].1)
                        == first_of(definitions(self@, self.order()[j])),
        {
            let ghost before = out@;
            assert(self.slots@.dom().contains(self.names@[i as int]@));
            out.push((self.names[i].clone(), self.lists[i][0]));
            proof {
                assert forall|j: int| 0 <= j < i + 1 implies (#[trigger] out@[j]).0@
                    == self.order()[j] && Some(out@[j].1) == first_of(
                    definitions(self@, self.order()[j]),
                ) by {
                    if j < i {
                        assert(out@[j] == before[j]);
                    }
                }
            }
        }
        out
    }
}

impl Default for ExportMap {
    fn default() -> (r: ExportMap)
        ensures
            r.wf(),
            r@ == Map::<Seq<char>, Seq<Definition>>::empty(),
            r.order() == Seq::<Seq<char>>::empty(),
    {
        ExportMap::new()
    }
}

/// What one run of the pass has done.
#[derive(Debug, Clone, Copy, PartialEq, Eq, Structural)]
pub struct Pass4Stats {
    /// Unresolved references looked at.
    pub unresolved_processed: usize,
    /// Call edges made.
    pub cross_file_calls: usize,
    /// Other edges made of references.
    pub cross_file_references: usize,
    /// Import edges made.
    pub imports_created: usize,
    /// References without a definition in another file.
    pub still_unresolved: usize,
}

impl Default for Pass4Stats {
    fn default() -> (r: Pass4Stats)
        ensures
            r == (Pass4Stats {
                unresolved_processed: 0,
                cross_file_calls: 0,
                cross_file_references: 0,
                imports_created: 0,
                still_unresolved: 0,
            }),
    {
        Pass4Stats {
            unresolved_processed: 0,
            cross_file_calls: 0,
            cross_file_references: 0,
            imports_created: 0,
            still_unresolved: 0,
        }
    }
}

/// An import of a source file.
#[derive(Clone, Debug)]
pub struct ImportDecl {
    /// The qualified name that is imported.
    pub imported_name: String,
    /// The name it is given in the file.
    pub alias_name: Option<String>,
    /// The same, interned.
    pub alias_id: Option<StringId>,
    /// Whether everything is imported.
    pub is_wildcard: bool,
    /// Line of the import.
    pub line: usize,
}

/// Contents of an import.
pub struct ImportView {
    pub imported_name: Seq<char>,
    pub alias_name: Option<Seq<char>>,
    pub alias_id: Option<StringId>,
    pub is_wildcard: bool,
    pub line: usize,
}

impl View for ImportDecl {
    type V = ImportView;

    open spec fn view(&self) -> ImportView {
        ImportView {
            imported_name: self.imported_name@,
            alias_name: text_of(self.alias_name),
            alias_id: self.alias_id,
            is_wildcard: self.is_wildcard,
            line: self.line,
        }
    }
}

/// The name that `name` stands for among the first `n` imports: that of the last import
/// with this alias, or itself.
pub open spec fn unaliased(imports: Seq<ImportView>, name: Seq<char>, n: int) -> Seq<char>
    decreases n,
{
    if n <= 0 {
        name
    } else if imports[n - 1].alias_name == Some(name) {
        imports[n - 1].imported_name
    } else {
        unaliased(imports, name, n - 1)
    }
}

/// The definition that an unresolved reference refers to, outside of `file`.
pub open spec fn cross_target(
    u: UnresolvedView,
    imports: Seq<ImportView>,
    exports: Map<Seq<char>, Seq<Definition>>,
    file: FileId,
) -> Option<Definition> {
    first_outside(
        definitions(exports, unaliased(imports, u.target_name, imports.len() as int)),
        file,
        0,
    )
}

/// The edges that the first `n` unresolved references become, in order.
pub open spec fn cross_edges(
    refs: Seq<UnresolvedView>,
    imports: Seq<ImportView>,
    exports: Map<Seq<char>, Seq<Definition>>,
    file: FileId,
    n: int,
) -> Seq<PendingView>
    decreases n,
{
    if n <= 0 {
        Seq::empty()
    } else {
        let before = cross_edges(refs, imports, exports, file, n - 1);
        let u = refs[n - 1];
        match cross_target(u, imports, exports, file) {
            Some(d) => before.push(
                PendingView {
                    source: u.source_node,
                    target: d.1,
                    kind: u.kind,
                    file,
                    spans: point_spans(u.has_location, u.line, u.column),
                },
            ),
            None => before,
        }
    }
}

/// The edges that the first `n` imports become, in order.
pub open spec fn import_edges(
    imports: Seq<ImportView>,
    exports: Map<Seq<char>, Seq<Definition>>,
    file_node: NodeId,
    file: FileId,
    n: int,
) -> Seq<PendingView>
    decreases n,
{
    if n <= 0 {
        Seq::empty()
    } else {
        let before = import_edges(imports, exports, file_node, file, n - 1);
        let i = imports[n - 1];
        match first_of(definitions(exports, i.imported_name)) {
            Some(d) => before.push(
                PendingView {
                    source: file_node,
                    target: d.1,
                    kind: EdgeKind::Imports { alias: i.alias_id, is_wildcard: i.is_wildcard },
                    file,
                    spans: Seq::empty(),
                },
            ),
            None => before,
        }
    }
}

/// The edges that all imports become, where the file has a node.
pub open spec fn all_import_edges(
    imports: Seq<ImportView>,
    exports: Map<Seq<char>, Seq<Definition>>,
    file_node: Option<NodeId>,
    file: FileId,
) -> Seq<PendingView> {
    match file_node {
        Some(node) => import_edges(imports, exports, node, file, imports.len() as int),
        None => Seq::empty(),
    }
}

/// Calls among the first `n` references that are resolved.
pub open spec fn cross_calls(
    refs: Seq<UnresolvedView>,
    imports: Seq<ImportView>,
    exports: Map<Seq<char>, Seq<Definition>>,
    file: FileId,
    n: int,
) -> int
    decreases n,
{
    if n <= 0 {
        0
    } else {
        cross_calls(refs, imports, exports, file, n - 1) + (if cross_target(
            refs[n - 1],
            imports,
            exports,
            file,
        ) is Some && refs[n - 1].kind is Calls {
            1int
        } else {
            0int
        })
    }
}

/// What the pass counts.
pub open spec fn pass4_counts(
    refs: Seq<UnresolvedView>,
    imports: Seq<ImportView>,
    exports: Map<Seq<char>, Seq<Definition>>,
    file_node: Option<NodeId>,
    file: FileId,
) -> Pass4Stats {
    let n = refs.len() as int;
    let found = cross_edges(refs, imports, exports, file, n).len();
    let calls = cross_calls(refs, imports, exports, file, n);
    Pass4Stats {
        unresolved_processed: n as usize,
        cross_file_calls: calls as usize,
        cross_file_references: (found - calls) as usize,
        imports_created: all_import_edges(imports, exports, file_node, file).len() as usize,
        still_unresolved: (n - found) as usize,
    }
}

pub(crate) proof fn lemma_cross_bounds(
    refs: Seq<UnresolvedView>,
    imports: Seq<ImportView>,
    exports: Map<Seq<char>, Seq<Definition>>,
    file: FileId,
    n: int,
)
    requires
        n >= 0,
    ensures
        cross_edges(refs, imports, exports, file, n).len() <= n,
        0 <= cross_calls(refs, imports, exports, file, n) <= cross_edges(
            refs,
            imports,
            exports,
            file,
            n,
        ).len(),
    decreases n,
{
    if n > 0 {
        lemma_cross_bounds(refs, imports, exports, file, n - 1);
    }
}

pub(crate) proof fn lemma_import_bound(
    imports: Seq<ImportView>,
    exports: Map<Seq<char>, Seq<Definition>>,
    node: NodeId,
    file: FileId,
    n: int,
)
    requires
        n >= 0,
    ensures
        import_edges(imports, exports, node, file, n).len() <= n,
    decreases n,
{
    if n > 0 {
        lemma_import_bound(imports, exports, node, file, n - 1);
    }
}

/// The imported name of each alias; of two imports with one alias the later counts.
fn build_alias_map(imports: &[ImportDecl]) -> (r: StringHashMap<usize>)
    ensures
        is_alias_map(r@, views(imports@), imports@.len() as int),
{
    let mut map: StringHashMap<usize> = StringHashMap::new();
    for i in 0..imports.len()
        invariant
            is_alias_map(map@, views(imports@), i as int),
    {
        assert(views(imports@)[i as int] == imports@[i as int]@);
        match &imports[i].alias_name {
            Some(alias) => {
                map.insert(alias.clone(), i);
            },
            None => {},
        }
    }
    map
}

/// `map` leads from each alias among the first `n` imports to the last import with it.
pub open spec fn is_alias_map(map: Map<Seq<char>, usize>, imports: Seq<ImportView>, n: int) -> bool {
    forall|name: Seq<char>|
        #![trigger map.dom().contains(name)]
        #![trigger unaliased(imports, name, n)]
        unaliased(imports, name, n) == (if map.dom().contains(name) {
            imports[map[name] as int].imported_name
        } else {
            name
        }) && (map.dom().contains(name) ==> map[name] < n)
}

fn resolve_unresolved_ref(
    unref: &UnresolvedRef,
    imports: &[ImportDecl],
    export_map: &ExportMap,
    alias_map: &StringHashMap<usize>,
    source_file: FileId,
) -> (r: Option<Definition>)
    requires
        export_map.wf(),
        is_alias_map(alias_map@, views(imports@), imports@.len() as int),
    ensures
        r == cross_target(unref@, views(imports@), export_map@, source_file),
{
    let ghost all = views(imports@);
    assert(unaliased(all, unref.target_name@, imports@.len() as int) == (
    if alias_map@.dom().contains(unref.target_name@) {
        all[alias_map@[unref.target_name@] as int].imported_name
    } else {
        unref.target_name@
    }));
    match alias_map.get(unref.target_name.as_str()) {
        Some(i) => {
            assert(all[*i as int] == imports@[*i as int]@);
            export_map.lookup_cross_file(imports[*i].imported_name.as_str(), source_file)
        },
        None => export_map.lookup_cross_file(unref.target_name.as_str(), source_file),
    }
}

fn process_unresolved_refs(
    unresolved: &[UnresolvedRef],
    imports: &[ImportDecl],
    export_map: &ExportMap,
    source_file: FileId,
    stats: &mut Pass4Stats,
    edges: &mut Vec<PendingEdge>,
)
    requires
        export_map.wf(),
        *old(stats) == (Pass4Stats {
            unresolved_processed: 0,
            cross_file_calls: 0,
            cross_file_references: 0,
            imports_created: 0,
            still_unresolved: 0,
        }),
        old(edges)@.len() == 0,
    ensures
        ({
            let refs = views(unresolved@);
            let n = refs.len() as int;
            let found = cross_edges(refs, views(imports@), export_map@, source_file, n);
            let calls = cross_calls(refs, views(imports@), export_map@, source_file, n);
            &&& pending_views(final(edges)@) == found
            &&& final(stats).unresolved_processed == n
            &&& final(stats).cross_file_calls == calls
            &&& final(stats).cross_file_references == found.len() - calls
            &&& final(stats).imports_created == 0
            &&& final(stats).still_unresolved == n - found.len()
        }),
{
    let ghost refs = views(unresolved@);
    let ghost all = views(imports@);
    let ghost exports = export_map@;
    let alias_map = build_alias_map(imports);
    for i in 0..unresolved.len()
        invariant
            refs == views(unresolved@),
            all == views(imports@),
            exports == export_map@,
            export_map.wf(),
            is_alias_map(alias_map@, all, imports@.len() as int),
            pending_views(edges@) =~= cross_edges(refs, all, exports, source_file, i as int),
            stats.unresolved_processed == i,
            stats.cross_file_calls == cross_calls(refs, all, exports, source_file, i as int),
            stats.cross_file_references == cross_edges(
                refs,
                all,
                exports,
                source_file,
                i as int,
            ).len() - cross_calls(refs, all, exports, source_file, i as int),
            stats.imports_created == 0,
            stats.still_unresolved == i - cross_edges(
                refs,
                all,
                exports,
                source_file,
                i as int,
            ).len(),
    {
        let unref = &unresolved[i];
        assert(refs[i as int] == unref@);
        proof {
            lemma_cross_bounds(refs, all, exports, source_file, i as int);
        }
        stats.unresolved_processed = stats.unresolved_processed + 1;
        match resolve_unresolved_ref(unref, imports, export_map, &alias_map, source_file) {
            None => {
                stats.still_unresolved = stats.still_unresolved + 1;
            },
            Some(d) => {
                match &unref.kind {
                    EdgeKind::Calls { .. } => {
                        stats.cross_file_calls = stats.cross_file_calls + 1;
                    },
                    _ => {
                        stats.cross_file_references = stats.cross_file_references + 1;
                    },
                }
                let e = PendingEdge {
                    source: unref.source_node,
                    target: d.1,
                    kind: unref.kind.clone(),
                    file: source_file,
                    spans: make_point_spans(unref.has_location, unref.line, unref.column),
                };
                let ghost before = pending_views(edges@);
                edges.push(e);
                proof {
                    assert(pending_views(edges@) =~= before.push(e@));
                }
            },
        }
    }
}

fn process_import_edges(
    imports: &[ImportDecl],
    export_map: &ExportMap,
    file_node: Option<NodeId>,
    source_file: FileId,
    stats: &mut Pass4Stats,
    edges: &mut Vec<PendingEdge>,
)
    requires
        export_map.wf(),
        old(stats).imports_created == 0,
    ensures
        ({
            let made = all_import_edges(views(imports@), export_map@, file_node, source_file);
            &&& pending_views(final(edges)@) == pending_views(old(edges)@) + made
            &&& *final(stats) == (Pass4Stats {
                imports_created: made.len() as usize,
                ..*old(stats)
            })
        }),
{
    let ghost all = views(imports@);
    let ghost exports = export_map@;
    let ghost before = pending_views(edges@);
    let node: NodeId = match file_node {
        Some(n) => n,
        None => {
            proof {
                assert(before + Seq::<PendingView>::empty() =~= before);
            }
            return ;
        },
    };
    proof {
        assert(before + Seq::<PendingView>::empty() =~= before);
    }
    for i in 0..imports.len()
        invariant
            all == views(imports@),
            exports == export_map@,
            export_map.wf(),
            pending_views(edges@) == before + import_edges(
                all,
                exports,
                node,
                source_file,
                i as int,
            ),
            *stats == (Pass4Stats {
                imports_created: import_edges(
                    all,
                    exports,
                    node,
                    source_file,
                    i as int,
                ).len() as usize,
                ..*old(stats)
            }),
    {
        assert(all[i as int] == imports@[i as int]@);
        proof {
            lemma_import_bound(all, exports, node, source_file, i as int);
        }
        match export_map.lookup(imports[i].imported_name.as_str()) {
            Some(d) => {
                stats.imports_created = stats.imports_created + 1;
                let e = PendingEdge {
                    source: node,
                    target: d.1,
                    kind: EdgeKind::Imports {
                        alias: imports[i].alias_id,
                        is_wildcard: imports[i].is_wildcard,
                    },
                    file: source_file,
                    spans: Vec::new(),
                };
                let ghost mid = pending_views(edges@);
                proof {
                    assert(e@.spans =~= Seq::empty());
                }
                edges.push(e);
                proof {
                    assert(pending_views(edges@) =~= mid.push(e@));
                    assert(pending_views(edges@) =~= before + import_edges(
                        all,
                        exports,
                        node,
                        source_file,
                        i + 1,
                    ));
                }
            },
            None => {},
        }
    }
}

/// Makes an edge of every reference that another file defines, and of every import that
/// some file defines. A reference may use an alias that the file gives an import.
pub fn pass4_cross_file(
    unresolved: &[UnresolvedRef],
    imports: &[ImportDecl],
    export_map: &ExportMap,
    file_node: Option<NodeId>,
    source_file: FileId,
) -> (r: (Pass4Stats, Vec<PendingEdge>))
    requires
        export_map.wf(),
    ensures
        ({
            let refs = views(unresolved@);
            let all = views(imports@);
            &&& pending_views(r.1@) == cross_edges(
                refs,
                all,
                export_map@,
                source_file,
                refs.len() as int,
            ) + all_import_edges(all, export_map@, file_node, source_file)
            &&& r.0 == pass4_counts(refs, all, export_map@, file_node, source_file)
        }),
{
    let mut stats = Pass4Stats::default();
    let mut edges: Vec<PendingEdge> = Vec::new();
    process_unresolved_refs(unresolved, imports, export_map, source_file, &mut stats, &mut edges);
    process_import_edges(imports, export_map, file_node, source_file, &mut stats, &mut edges);
    (stats, edges)
}

/// The map after the first `n` names of a file were registered.
pub open spec fn with_names(
    m: Map<Seq<char>, Seq<Definition>>,
    names: Seq<Seq<char>>,
    symbols: Map<Seq<char>, NodeId>,
    file: FileId,
    n: int,
) -> Map<Seq<char>, Seq<Definition>>
    decreases n,
{
    if n <= 0 {
        m
    } else {
        registered(
            with_names(m, names, symbols, file, n - 1),
            names[n - 1],
            file,
            symbols[names[n - 1]],
        )
    }
}

/// The map after the symbols of the first `n` files were registered.
pub open spec fn with_files(files: Seq<(FileId, &SymbolTable)>, n: int) -> Map<
    Seq<char>,
    Seq<Definition>,
>
    decreases n,
{
    if n <= 0 {
        Map::empty()
    } else {
        let names = files[n - 1].1.order();
        with_names(
            with_files(files, n - 1),
            names,
            files[n - 1].1@,
            files[n - 1].0,
            names.len() as int,
        )
    }
}

/// The symbols of all files, file by file.
pub fn build_export_map(file_symbols: &[(FileId, &SymbolTable)]) -> (r: ExportMap)
    requires
        forall|i: int| 0 <= i < file_symbols@.len() ==> (#[trigger] file_symbols@[i]).1.wf(),
    ensures
        r.wf(),
        r@ == with_files(file_symbols@, file_symbols@.len() as int),
{
    let mut out = ExportMap::new();
    for f in 0..file_symbols.len()
        invariant
            forall|i: int| 0 <= i < file_symbols@.len() ==> (#[trigger] file_symbols@[i]).1.wf(),
            out.wf(),
            out@ == with_files(file_symbols@, f as int),
    {
        let file: FileId = file_symbols[f].0;
        let table: &SymbolTable = file_symbols[f].1;
        assert(file_symbols@[f as int].1.wf());
        let ghost before = out@;
        for i in 0..table.names.len()
            invariant
                table.wf(),
                out.wf(),
                out@ == with_names(before, table.order(), table@, file, i as int),
        {
            assert(table.order()[i as int] == table.names@[i as int]@);
            assert(table.order().contains(table.names@[i as int]@));
            assert(table@.dom().contains(table.names@[i as int]@));
            match table.get(table.names[i].as_str()) {
                Some(node) => {
                    out.register(table.names[i].clone(), file, node);
                },
                None => {},
            }
        }
    }
    out
}

/// Every reference is accounted for: as a call edge, as another edge, or as unresolved.
pub proof fn law_pass4_accounts_for_every_reference(
    refs: Seq<UnresolvedView>,
    imports: Seq<ImportView>,
    exports: Map<Seq<char>, Seq<Definition>>,
    file_node: Option<NodeId>,
    file: FileId,
)
    requires
        refs.len() <= usize::MAX,
    ensures
        ({
            let s = pass4_counts(refs, imports, exports, file_node, file);
            &&& s.unresolved_processed == refs.len()
            &&& s.cross_file_calls + s.cross_file_references + s.still_unresolved == refs.len()
            &&& s.cross_file_calls + s.cross_file_references == cross_edges(
                refs,
                imports,
                exports,
                file,
                refs.len() as int,
            ).len()
        }),
{
    lemma_cross_bounds(refs, imports, exports, file, refs.len() as int);
}

/// A definition that is registered is found: as the first one where none was there, and
/// from other files in any case where none was there; other names are not affected.
pub proof fn law_registered_is_found(
    m: Map<Seq<char>, Seq<Definition>>,
    name: Seq<char>,
    file: FileId,
    node: NodeId,
    other: Seq<char>,
    from: FileId,
)
    ensures
        !m.dom().contains(name) ==> first_of(definitions(registered(m, name, file, node), name))
            == Some((file, node)),
        m.dom().contains(name) && m[name].len() > 0 ==> first_of(
            definitions(registered(m, name, file, node), name),
        ) == first_of(m[name]),
        !m.dom().contains(name) && from != file ==> first_outside(
            definitions(registered(m, name, file, node), name),
            from,
            0,
        ) == Some((file, node)),
        other != name ==> definitions(registered(m, name, file, node), other) == definitions(
            m,
            other,
        ),
{
    let defs = definitions(registered(m, name, file, node), name);
    if !m.dom().contains(name) && from != file {
        assert(defs[0] == (file, node));
    }
}

proof fn lemma_first_outside(defs: Seq<Definition>, file: FileId, i: int)
    requires
        0 <= i,
    ensures
        first_outside(defs, file, i) matches Some(d) ==> d.0 != file && defs.contains(d),
        first_outside(defs, file, i) is None ==> forall|j: int|
            i <= j < defs.len() ==> (#[trigger] defs[j]).0 == file,
    decreases defs.len() - i,
{
    if i < defs.len() && defs[i].0 == file {
        lemma_first_outside(defs, file, i + 1);
    }
}

/// Resolution across files never ends in the file that refers, and fails only where no
/// other file defines the name.
pub proof fn law_cross_file_leaves_the_file(defs: Seq<Definition>, file: FileId)
    ensures
        first_outside(defs, file, 0) matches Some(d) ==> d.0 != file && defs.contains(d),
        first_outside(defs, file, 0) is None ==> forall|j: int|
            0 <= j < defs.len() ==> (#[trigger] defs[j]).0 == file,
{
    lemma_first_outside(defs, file, 0);
}

proof fn lemma_outside(defs: Seq<Definition>, file: FileId, n: int, j: int)
    requires
        0 <= n <= defs.len(),
        0 <= j < outside(defs, file, n).len(),
    ensures
        outside(defs, file, n)[j].0 != file,
    decreases n,
{
    if n > 0 && j < outside(defs, file, n - 1).len() {
        lemma_outside(defs, file, n - 1, j);
    }
}

proof fn lemma_outside_keeps(defs: Seq<Definition>, file: FileId, n: int, i: int)
    requires
        0 <= i < n <= defs.len(),
        defs[i].0 != file,
    ensures
        outside(defs, file, n).contains(defs[i]),
    decreases n,
{
    let after = outside(defs, file, n);
    if i == n - 1 {
        assert(after[after.len() - 1] == defs[i]);
    } else {
        lemma_outside_keeps(defs, file, n - 1, i);
        let before = outside(defs, file, n - 1);
        let k = choose|k: int| 0 <= k < before.len() && before[k] == defs[i];
        assert(after[k] == defs[i]);
    }
}

/// Once a file is removed, no definition in it is left, and every other one is.
pub proof fn law_removed_file_is_gone(
    m: Map<Seq<char>, Seq<Definition>>,
    file: FileId,
    name: Seq<char>,
    d: Definition,
)
    ensures
        d.0 == file ==> !definitions(without_file(m, file), name).contains(d),
        d.0 != file && definitions(m, name).contains(d) ==> definitions(
            without_file(m, file),
            name,
        ).contains(d),
{
    let before = definitions(m, name);
    let after = definitions(without_file(m, file), name);
    if after.contains(d) {
        let j = choose|j: int| 0 <= j < after.len() && after[j] == d;
        lemma_outside(before, file, before.len() as int, j);
    }
    if d.0 != file && before.contains(d) {
        let i = choose|i: int| 0 <= i < before.len() && before[i] == d;
        lemma_outside_keeps(before, file, before.len() as int, i);
    }
}

/// File `i` of `files` defines `name`.
pub open spec fn exports(files: Seq<(FileId, &SymbolTable)>, name: Seq<char>, i: int) -> bool {
    0 <= i < files.len() && files[i].1@.dom().contains(name)
}

/// What file `i` of `files` defines under `name`.
pub open spec fn export_of(
    files: Seq<(FileId, &SymbolTable)>,
    name: Seq<char>,
    i: int,
) -> Definition {
    (files[i].0, files[i].1@[name])
}

/// The names that the first `n` of `files` define.
pub open spec fn exported_names(files: Seq<(FileId, &SymbolTable)>, n: int) -> Set<Seq<char>> {
    Set::new(|name: Seq<char>| exists|i: int| i < n && #[trigger] exports(files, name, i))
}

proof fn lemma_with_names(
    m: Map<Seq<char>, Seq<Definition>>,
    names: Seq<Seq<char>>,
    symbols: Map<Seq<char>, NodeId>,
    file: FileId,
    n: int,
    name: Seq<char>,
)
    requires
        0 <= n <= names.len(),
        names.no_duplicates(),
    ensures
        ({
            let r = with_names(m, names, symbols, file, n);
            if names.take(n).contains(name) {
                r.dom().contains(name) && definitions(r, name) == definitions(m, name).push(
                    (file, symbols[name]),
                )
            } else {
                r.dom().contains(name) == m.dom().contains(name) && definitions(r, name)
                    == definitions(m, name)
            }
        }),
    decreases n,
{
    if n > 0 {
        lemma_with_names(m, names, symbols, file, n - 1, name);
        assert(names.take(n) =~= names.take(n - 1).push(names[n - 1]));
        let head = names.take(n - 1);
        if names[n - 1] == name {
            assert(names.take(n)[n - 1] == name);
            if head.contains(name) {
                let k = choose|k: int| 0 <= k < head.len() && head[k] == name;
                assert(names[k] == names[n - 1]);
            }
        } else {
            if head.contains(name) {
                let k = choose|k: int| 0 <= k < head.len() && head[k] == name;
                assert(names.take(n)[k] == name);
            }
            if names.take(n).contains(name) {
                let k = choose|k: int| 0 <= k < n && names.take(n)[k] == name;
                assert(head[k] == name);
            }
        }
    }
}

proof fn lemma_outside_push(defs: Seq<Definition>, d: Definition, from: FileId, i: int)
    requires
        0 <= i <= defs.len(),
    ensures
        first_outside(defs.push(d), from, i) == (match first_outside(defs, from, i) {
            Some(x) => Some(x),
            None => if d.0 != from {
                Some(d)
            } else {
                None
            },
        }),
    decreases defs.len() - i,
{
    if i < defs.len() {
        assert(defs.push(d)[i] == defs[i]);
        if defs[i].0 == from {
            lemma_outside_push(defs, d, from, i + 1);
        }
    } else {
        assert(first_outside(defs.push(d), from, i + 1) is None);
    }
}

/// What the first `n` of `files` define under `name`, in order.
spec fn exported(files: Seq<(FileId, &SymbolTable)>, name: Seq<char>, n: int) -> Seq<Definition>
    decreases n,
{
    if n <= 0 {
        Seq::empty()
    } else if exports(files, name, n - 1) {
        exported(files, name, n - 1).push(export_of(files, name, n - 1))
    } else {
        exported(files, name, n - 1)
    }
}

proof fn lemma_exported(files: Seq<(FileId, &SymbolTable)>, name: Seq<char>, n: int)
    requires
        0 <= n <= files.len(),
        forall|i: int| 0 <= i < files.len() ==> (#[trigger] files[i]).1.wf(),
    ensures
        definitions(with_files(files, n), name) == exported(files, name, n),
        with_files(files, n).dom().contains(name) <==> exported(files, name, n).len() > 0,
    decreases n,
{
    if n > 0 {
        lemma_exported(files, name, n - 1);
        let table = files[n - 1].1;
        let names = table.order();
        assert(files[n - 1].1.wf());
        lemma_with_names(
            with_files(files, n - 1),
            names,
            table@,
            files[n - 1].0,
            names.len() as int,
            name,
        );
        assert(names.take(names.len() as int) =~= names);
        assert(table@.dom().contains(name) <==> names.contains(name));
    }
}

proof fn lemma_none_exported(files: Seq<(FileId, &SymbolTable)>, name: Seq<char>, n: int)
    requires
        0 <= n <= files.len(),
        forall|i: int| i < n ==> !#[trigger] exports(files, name, i),
    ensures
        exported(files, name, n).len() == 0,
    decreases n,
{
    if n > 0 {
        lemma_none_exported(files, name, n - 1);
        assert(!exports(files, name, n - 1));
    }
}

proof fn lemma_none_outside(
    files: Seq<(FileId, &SymbolTable)>,
    name: Seq<char>,
    from: FileId,
    n: int,
)
    requires
        0 <= n <= files.len(),
        forall|i: int| i < n && #[trigger] exports(files, name, i) ==> files[i].0 == from,
    ensures
        first_outside(exported(files, name, n), from, 0) is None,
    decreases n,
{
    if n > 0 {
        lemma_none_outside(files, name, from, n - 1);
        if exports(files, name, n - 1) {
            let before = exported(files, name, n - 1);
            lemma_outside_push(before, export_of(files, name, n - 1), from, 0);
        }
    }
}

/// What the files from `i` on define comes behind what file `i` defines.
proof fn lemma_first_exported(
    files: Seq<(FileId, &SymbolTable)>,
    name: Seq<char>,
    from: FileId,
    i: int,
    n: int,
)
    requires
        i < n <= files.len(),
        exports(files, name, i),
    ensures
        exported(files, name, n).len() > 0,
        exported(files, name, i).len() == 0 ==> first_of(exported(files, name, n)) == Some(
            export_of(files, name, i),
        ),
        first_outside(exported(files, name, i), from, 0) is None && files[i].0 != from
            ==> first_outside(exported(files, name, n), from, 0) == Some(
            export_of(files, name, i),
        ),
    decreases n,
{
    let before = exported(files, name, n - 1);
    lemma_outside_push(before, export_of(files, name, n - 1), from, 0);
    if i < n - 1 {
        lemma_first_exported(files, name, from, i, n - 1);
    }
}

/// The symbols of all files are found by name: a name is exported where some file defines
/// it, looking it up gives what the first such file defines, looking it up from a file
/// gives what the first such other file defines, and every name counts once.
pub proof fn law_exports_are_the_symbols_of_the_files(
    files: Seq<(FileId, &SymbolTable)>,
    name: Seq<char>,
    from: FileId,
)
    requires
        forall|i: int| 0 <= i < files.len() ==> (#[trigger] files[i]).1.wf(),
    ensures
        ({
            let m = with_files(files, files.len() as int);
            let defs = definitions(m, name);
            &&& m.dom().contains(name) <==> exists|i: int| #[trigger] exports(files, name, i)
            &&& m.dom() == exported_names(files, files.len() as int)
            &&& forall|i: int|
                #[trigger] exports(files, name, i) && (forall|j: int|
                    j < i ==> !#[trigger] exports(files, name, j)) ==> first_of(defs) == Some(
                    export_of(files, name, i),
                )
            &&& !(exists|i: int| #[trigger] exports(files, name, i)) ==> first_of(defs) is None
            &&& forall|i: int|
                #[trigger] exports(files, name, i) && files[i].0 != from && (forall|j: int|
                    j < i && #[trigger] exports(files, name, j) ==> files[j].0 == from)
                    ==> first_outside(defs, from, 0) == Some(export_of(files, name, i))
            &&& (forall|i: int| #[trigger] exports(files, name, i) ==> files[i].0 == from)
                ==> first_outside(defs, from, 0) is None
        }),
{
    let n = files.len() as int;
    lemma_exported(files, name, n);
    if !(exists|i: int| #[trigger] exports(files, name, i)) {
        lemma_none_exported(files, name, n);
    }
    assert forall|i: int| #[trigger] exports(files, name, i) implies with_files(
        files,
        n,
    ).dom().contains(name) by {
        lemma_first_exported(files, name, from, i, n);
    }
    assert forall|i: int|
        #[trigger] exports(files, name, i) && (forall|j: int|
            j < i ==> !#[trigger] exports(files, name, j)) implies first_of(
        definitions(with_files(files, n), name),
    ) == Some(export_of(files, name, i)) by {
        lemma_none_exported(files, name, i);
        lemma_first_exported(files, name, from, i, n);
    }
    assert forall|i: int|
        #[trigger] exports(files, name, i) && files[i].0 != from && (forall|j: int|
            j < i && #[trigger] exports(files, name, j) ==> files[j].0 == from) implies first_outside(
        definitions(with_files(files, n), name),
        from,
        0,
    ) == Some(export_of(files, name, i)) by {
        lemma_none_outside(files, name, from, i);
        lemma_first_exported(files, name, from, i, n);
    }
    if forall|i: int| #[trigger] exports(files, name, i) ==> files[i].0 == from {
        lemma_none_outside(files, name, from, n);
    }
    assert forall|k: Seq<char>| #[trigger] with_files(files, n).dom().contains(k) == exported_names(
        files,
        n,
    ).contains(k) by {
        lemma_exported(files, k, n);
        if exists|i: int| i < n && #[trigger] exports(files, k, i) {
            let i = choose|i: int| i < n && #[trigger] exports(files, k, i);
            lemma_first_exported(files, k, from, i, n);
        } else {
            lemma_none_exported(files, k, n);
        }
    }
    assert(with_files(files, n).dom() =~= exported_names(files, n));
}

} // verus!
