//! Nodes and edges for promoted methods.
use vstd::prelude::*;

use crate::arena::{allocated, can_allocate, live, next_id, NodeEntry};
use crate::graph::{CodeGraph, GraphView};
use crate::ids::{FileId, NodeId, StringId};
use crate::kinds::{EdgeKind, NodeKind};
use crate::pass_go_method_set::promotion::{
    count_up, counted_up, names_once, PerOuterPromotion, PromotedMethod,
};
use crate::text::{rfind_str, rfind_text};

verus! {

/// A promoted method under its package, owner and name.
#[derive(Clone, Copy, Debug, PartialEq, Eq, Structural)]
pub struct PromotedKey {
    pub package: StringId,
    pub owner: StringId,
    pub method: StringId,
    pub node: NodeId,
}

/// The type node of a pointer under its package and owner.
#[derive(Clone, Copy, Debug, PartialEq, Eq, Structural)]
pub struct PointerTypeKey {
    pub package: StringId,
    pub owner: StringId,
    pub node: NodeId,
}

/// A promoted method under the struct that gains it.
#[derive(Clone, Copy, Debug, PartialEq, Eq, Structural)]
pub struct OuterKey {
    pub outer: NodeId,
    pub name: StringId,
    pub node: NodeId,
}

/// What one run of the pass has made so far.
pub struct PassLocalIndices {
    /// Promoted methods of structs.
    pub value: Vec<PromotedKey>,
    /// Promoted methods of pointers to structs.
    pub pointer: Vec<PromotedKey>,
    /// Type nodes of pointers to structs.
    pub pointer_type: Vec<PointerTypeKey>,
    /// Promoted methods of structs, by struct.
    pub outer_to_value_promoted: Vec<OuterKey>,
    /// Promoted methods of pointers to structs, by struct.
    pub outer_to_pointer_promoted: Vec<OuterKey>,
}

/// Contents of the pass-local indices.
pub struct LocalView {
    pub value: Seq<PromotedKey>,
    pub pointer: Seq<PromotedKey>,
    pub pointer_type: Seq<PointerTypeKey>,
    pub outer_value: Seq<OuterKey>,
    pub outer_pointer: Seq<OuterKey>,
}

impl View for PassLocalIndices {
    type V = LocalView;

    open spec fn view(&self) -> LocalView {
        LocalView {
            value: self.value@,
            pointer: self.pointer@,
            pointer_type: self.pointer_type@,
            outer_value: self.outer_to_value_promoted@,
            outer_pointer: self.outer_to_pointer_promoted@,
        }
    }
}

/// Every package, owner and name occurs once.
pub open spec fn promoted_once(s: Seq<PromotedKey>) -> bool {
    forall|i: int, j: int|
        0 <= i < j < s.len() ==> (#[trigger] s[i]).package != (#[trigger] s[j]).package
            || s[i].owner != s[j].owner || s[i].method != s[j].method
}

/// Every package and owner occurs once.
pub open spec fn pointer_types_once(s: Seq<PointerTypeKey>) -> bool {
    forall|i: int, j: int|
        0 <= i < j < s.len() ==> (#[trigger] s[i]).package != (#[trigger] s[j]).package
            || s[i].owner != s[j].owner
}

/// Every struct and name occurs once.
pub open spec fn outers_once(s: Seq<OuterKey>) -> bool {
    forall|i: int, j: int|
        0 <= i < j < s.len() ==> (#[trigger] s[i]).outer != (#[trigger] s[j]).outer || s[i].name
            != s[j].name
}

impl LocalView {
    /// Every key occurs once in its list.
    pub open spec fn wf(self) -> bool {
        &&& promoted_once(self.value)
        &&& promoted_once(self.pointer)
        &&& pointer_types_once(self.pointer_type)
        &&& outers_once(self.outer_value)
        &&& outers_once(self.outer_pointer)
    }
}

impl LocalView {
    /// Nothing has been made.
    pub open spec fn none() -> LocalView {
        LocalView {
            value: Seq::empty(),
            pointer: Seq::empty(),
            pointer_type: Seq::empty(),
            outer_value: Seq::empty(),
            outer_pointer: Seq::empty(),
        }
    }
}

impl PassLocalIndices {
    /// Nothing has been made.
    pub fn new() -> (r: PassLocalIndices)
        ensures
            r@.wf(),
            r@ == LocalView::none(),
    {
        PassLocalIndices {
            value: Vec::new(),
            pointer: Vec::new(),
            pointer_type: Vec::new(),
            outer_to_value_promoted: Vec::new(),
            outer_to_pointer_promoted: Vec::new(),
        }
    }
}

/// The last of the first `n` entries with the given key.
pub open spec fn promoted_at(
    s: Seq<PromotedKey>,
    package: StringId,
    owner: StringId,
    method: StringId,
    n: int,
) -> Option<NodeId>
    decreases n,
{
    if n <= 0 {
        None
    } else {
        let k = s[n - 1];
        if k.package == package && k.owner == owner && k.method == method {
            Some(k.node)
        } else {
            promoted_at(s, package, owner, method, n - 1)
        }
    }
}

fn find_promoted(v: &Vec<PromotedKey>, package: StringId, owner: StringId, method: StringId) -> (r:
    Option<NodeId>)
    ensures
        r == promoted_at(v@, package, owner, method, v@.len() as int),
{
    let mut i: usize = v.len();
    while i > 0
        invariant
            i <= v@.len(),
            promoted_at(v@, package, owner, method, v@.len() as int) == promoted_at(
                v@,
                package,
                owner,
                method,
                i as int,
            ),
        decreases i,
    {
        let k: PromotedKey = v[i - 1];
        if k.package == package && k.owner == owner && k.method == method {
            return Some(k.node);
        }
        i = i - 1;
    }
    None
}

/// The last of the first `n` entries with the given key.
pub open spec fn pointer_type_at(
    s: Seq<PointerTypeKey>,
    package: StringId,
    owner: StringId,
    n: int,
) -> Option<NodeId>
    decreases n,
{
    if n <= 0 {
        None
    } else {
        let k = s[n - 1];
        if k.package == package && k.owner == owner {
            Some(k.node)
        } else {
            pointer_type_at(s, package, owner, n - 1)
        }
    }
}

/// The type node of the pointer to `owner` in `package`.
pub fn find_pointer_type(v: &Vec<PointerTypeKey>, package: StringId, owner: StringId) -> (r: Option<
    NodeId,
>)
    ensures
        r == pointer_type_at(v@, package, owner, v@.len() as int),
{
    let mut i: usize = v.len();
    while i > 0
        invariant
            i <= v@.len(),
            pointer_type_at(v@, package, owner, v@.len() as int) == pointer_type_at(
                v@,
                package,
                owner,
                i as int,
            ),
        decreases i,
    {
        let k: PointerTypeKey = v[i - 1];
        if k.package == package && k.owner == owner {
            return Some(k.node);
        }
        i = i - 1;
    }
    None
}

/// The last of the first `n` entries with the given key.
pub open spec fn outer_at(s: Seq<OuterKey>, outer: NodeId, name: StringId, n: int) -> Option<NodeId>
    decreases n,
{
    if n <= 0 {
        None
    } else {
        let k = s[n - 1];
        if k.outer == outer && k.name == name {
            Some(k.node)
        } else {
            outer_at(s, outer, name, n - 1)
        }
    }
}

/// The promoted method `name` of struct `outer`.
pub fn find_outer(v: &Vec<OuterKey>, outer: NodeId, name: StringId) -> (r: Option<NodeId>)
    ensures
        r == outer_at(v@, outer, name, v@.len() as int),
{
    let mut i: usize = v.len();
    while i > 0
        invariant
            i <= v@.len(),
            outer_at(v@, outer, name, v@.len() as int) == outer_at(v@, outer, name, i as int),
        decreases i,
    {
        let k: OuterKey = v[i - 1];
        if k.outer == outer && k.name == name {
            return Some(k.node);
        }
        i = i - 1;
    }
    None
}

/// Package and short name of a qualified name, which its last separator parts.
pub open spec fn split_qn(qn: Seq<char>) -> Option<(Seq<char>, Seq<char>)> {
    match rfind_text(qn, "::"@) {
        Some(i) => if i == 0 || i + 2 == qn.len() {
            None
        } else {
            Some((qn.subrange(0, i), qn.subrange(i + 2, qn.len() as int)))
        },
        None => None,
    }
}

proof fn lemma_rfind(s: Seq<char>, pat: Seq<char>, i: int)
    ensures
        crate::text::rfind_from(s, pat, i) matches Some(k) ==> 0 <= k <= i
            && crate::text::occurs_at(s, pat, k),
    decreases i + 1,
{
    if i >= 0 && !crate::text::occurs_at(s, pat, i) {
        lemma_rfind(s, pat, i - 1);
    }
}

/// Splits a qualified name at its last separator into package and short name. There is
/// no split where either would be empty.
pub fn split_qn_into_package_and_name(qn: &str) -> (r: Option<(String, String)>)
    ensures
        match r {
            Some(p) => split_qn(qn@) == Some((p.0@, p.1@)),
            None => split_qn(qn@) is None,
        },
{
    match rfind_str(qn, "::") {
        Some(i) => {
            proof {
                lemma_rfind(qn@, "::"@, qn@.len() as int);
                reveal_strlit("::");
            }
            let n: usize = qn.unicode_len();
            if i == 0 || i + 2 == n {
                None
            } else {
                let package: String = qn.substring_char(0, i).to_owned();
                let short: String = qn.substring_char(i + 2, n).to_owned();
                Some((package, short))
            }
        },
        None => None,
    }
}

/// A split qualified name is package, separator and short name again.
pub proof fn law_split_joins(qn: Seq<char>)
    ensures
        split_qn(qn) matches Some(p) ==> qn == p.0 + "::"@ + p.1 && p.0.len() > 0 && p.1.len() > 0,
{
    lemma_rfind(qn, "::"@, qn.len() as int);
    reveal_strlit("::");
    if let Some(p) = split_qn(qn) {
        let i = rfind_text(qn, "::"@)->0;
        assert(qn.subrange(i, i + 2) == "::"@);
        assert(qn =~= qn.subrange(0, i) + qn.subrange(i, i + 2) + qn.subrange(
            i + 2,
            qn.len() as int,
        ));
    }
}

/// A graph and, where it could be made, a new node.
pub struct Minted {
    pub g: GraphView,
    pub id: Option<NodeId>,
}

/// The graph with one more synthetic node in it, recorded in the bucket of its file.
pub open spec fn minted(
    g: GraphView,
    kind: NodeKind,
    short: Seq<char>,
    qn: StringId,
    file: FileId,
) -> Minted {
    let named = GraphView { strings: g.strings.interned(short), ..g };
    if !g.strings.can_intern(short) || !can_allocate(g.nodes) {
        Minted { g: named, id: None }
    } else {
        let id = next_id(g.nodes);
        let entry = NodeEntry {
            qualified_name: Some(qn),
            ..NodeEntry::bare(kind, g.strings.intern_id(short), file)
        };
        Minted {
            g: GraphView {
                nodes: allocated(g.nodes, entry),
                metadata: g.metadata.marked_synthetic(id),
                files: g.files.recorded(file, id),
                ..named
            },
            id: Some(id),
        }
    }
}

/// Makes a synthetic node and records it in the bucket of its file.
pub fn mint_synthetic_node(
    graph: &mut CodeGraph,
    kind: NodeKind,
    short_name: &str,
    qualified_name: StringId,
    file: FileId,
) -> (r: Option<NodeId>)
    requires
        old(graph).wf(),
    ensures
        final(graph).wf(),
        (Minted { g: final(graph)@, id: r }) == minted(
            old(graph)@,
            kind,
            short_name@,
            qualified_name,
            file,
        ),
{
    let name: StringId = match graph.strings.intern(short_name) {
        Ok(id) => id,
        Err(_) => {
            return None;
        },
    };
    let mut entry = NodeEntry::new(kind, name, file);
    entry.qualified_name = Some(qualified_name);
    let id: NodeId = match graph.nodes.allocate(entry) {
        Ok(id) => id,
        Err(_) => {
            return None;
        },
    };
    graph.macro_metadata.mark_synthetic(id);
    graph.files.record_node(file, id);
    Some(id)
}

/// The graph with one more edge.
pub open spec fn with_edge(
    g: GraphView,
    source: NodeId,
    target: NodeId,
    kind: EdgeKind,
    file: FileId,
) -> GraphView {
    GraphView { edges: g.edges.added(source, target, kind, file, Seq::empty()), ..g }
}

/// A graph while promoted methods are being made.
pub struct MintState {
    pub g: GraphView,
    pub idx: LocalView,
    /// Nodes made so far.
    pub fresh: Seq<NodeId>,
    /// Promoted methods made so far.
    pub promoted: u32,
}

/// A struct that gains methods.
pub struct OuterMeta {
    pub outer: NodeId,
    pub package_id: StringId,
    pub short_id: StringId,
    pub short: String,
    pub qn: String,
    /// Qualified name of the pointer to the struct.
    pub pointer_qn: String,
    pub file: FileId,
    /// Position of what the struct gains.
    pub at: usize,
}

/// Contents of a struct that gains methods.
pub struct MetaView {
    pub outer: NodeId,
    pub package_id: StringId,
    pub short_id: StringId,
    pub short: Seq<char>,
    pub qn: Seq<char>,
    pub pointer_qn: Seq<char>,
    pub file: FileId,
    pub at: int,
}

impl View for OuterMeta {
    type V = MetaView;

    open spec fn view(&self) -> MetaView {
        MetaView {
            outer: self.outer,
            package_id: self.package_id,
            short_id: self.short_id,
            short: self.short@,
            qn: self.qn@,
            pointer_qn: self.pointer_qn@,
            file: self.file,
            at: self.at as int,
        }
    }
}

/// Contents of structs that gain methods.
pub open spec fn meta_views(s: Seq<OuterMeta>) -> Seq<MetaView> {
    Seq::new(s.len(), |i: int| s[i]@)
}

/// What a struct gains, as lists.
pub struct GainView {
    pub value: Seq<PromotedMethod>,
    pub pointer_only: Seq<PromotedMethod>,
}

impl View for PerOuterPromotion {
    type V = GainView;

    open spec fn view(&self) -> GainView {
        GainView { value: self.value@, pointer_only: self.pointer_only@ }
    }
}

/// What several structs gain.
pub open spec fn gain_views(s: Seq<PerOuterPromotion>) -> Seq<GainView> {
    Seq::new(s.len(), |i: int| s[i]@)
}

/// A graph and the structs that gain methods.
pub struct Surveyed {
    pub g: GraphView,
    pub metas: Seq<MetaView>,
}

/// The qualified name of the pointer to `short` in `package`.
pub open spec fn pointer_name(package: Seq<char>, short: Seq<char>) -> Seq<char> {
    package + "::*"@ + short
}

/// One struct that gains something and has a package and a short name, both of which
/// get interned.
pub open spec fn surveyed_one(h: GraphView, outer: NodeId, gain: GainView, at: int) -> (
    GraphView,
    Option<MetaView>,
) {
    if gain.value.len() == 0 && gain.pointer_only.len() == 0 {
        (h, None)
    } else {
        match h.qn(outer) {
            None => (h, None),
            Some(qn) => match split_qn(qn) {
                None => (h, None),
                Some(p) => {
                    let s1 = h.strings.interned(p.0);
                    let s2 = s1.interned(p.1);
                    if !h.strings.can_intern(p.0) {
                        (h, None)
                    } else if !s1.can_intern(p.1) {
                        (GraphView { strings: s1, ..h }, None)
                    } else {
                        (
                            GraphView { strings: s2, ..h },
                            Some(
                                MetaView {
                                    outer,
                                    package_id: h.strings.intern_id(p.0),
                                    short_id: s1.intern_id(p.1),
                                    short: p.1,
                                    qn,
                                    pointer_qn: pointer_name(p.0, p.1),
                                    file: live(h.nodes, outer)->0.file,
                                    at,
                                },
                            ),
                        )
                    }
                },
            },
        }
    }
}

fn survey_one(graph: &mut CodeGraph, outer: NodeId, gain: &PerOuterPromotion, at: usize) -> (r:
    Option<OuterMeta>)
    requires
        old(graph).wf(),
    ensures
        final(graph).wf(),
        match r {
            Some(m) => (final(graph)@, Some(m@)) == surveyed_one(
                old(graph)@,
                outer,
                gain@,
                at as int,
            ) && m.at == at,
            None => (final(graph)@, None::<MetaView>) == surveyed_one(
                old(graph)@,
                outer,
                gain@,
                at as int,
            ),
        },
{
    if gain.value.len() == 0 && gain.pointer_only.len() == 0 {
        return None;
    }
    let entry: NodeEntry = match graph.nodes.get(outer) {
        Some(e) => e,
        None => {
            return None;
        },
    };
    let qn: String = match graph.qualified_name_string(outer) {
        Some(s) => s,
        None => {
            return None;
        },
    };
    let (package, short) = match split_qn_into_package_and_name(qn.as_str()) {
        Some(p) => p,
        None => {
            return None;
        },
    };
    let package_id: StringId = match graph.strings.intern(package.as_str()) {
        Ok(id) => id,
        Err(_) => {
            return None;
        },
    };
    let short_id: StringId = match graph.strings.intern(short.as_str()) {
        Ok(id) => id,
        Err(_) => {
            return None;
        },
    };
    let mut pointer_qn: String = package.clone();
    pointer_qn.append("::*");
    pointer_qn.append(short.as_str());
    Some(
        OuterMeta {
            outer,
            package_id,
            short_id,
            short,
            qn,
            pointer_qn,
            file: entry.file,
            at,
        },
    )
}

/// The first `n` of `outers` that gain something and have a package and a short name.
pub open spec fn surveyed(g: GraphView, outers: Seq<NodeId>, gains: Seq<GainView>, n: int) -> Surveyed
    decreases n,
{
    if n <= 0 {
        Surveyed { g, metas: Seq::empty() }
    } else {
        let before = surveyed(g, outers, gains, n - 1);
        let one = surveyed_one(before.g, outers[n - 1], gains[n - 1], n - 1);
        Surveyed {
            g: one.0,
            metas: match one.1 {
                Some(m) => before.metas.push(m),
                None => before.metas,
            },
        }
    }
}

fn survey(graph: &mut CodeGraph, outers: &Vec<NodeId>, gains: &Vec<PerOuterPromotion>) -> (r: Vec<
    OuterMeta,
>)
    requires
        old(graph).wf(),
        outers@.len() == gains@.len(),
    ensures
        final(graph).wf(),
        (Surveyed { g: final(graph)@, metas: meta_views(r@) }) == surveyed(
            old(graph)@,
            outers@,
            gain_views(gains@),
            outers@.len() as int,
        ),
        forall|i: int| 0 <= i < r@.len() ==> (#[trigger] r@[i]).at < outers@.len(),
{
    let mut out: Vec<OuterMeta> = Vec::new();
    proof {
        assert(meta_views(out@) =~= Seq::<MetaView>::empty());
    }
    for i in 0..outers.len()
        invariant
            graph.wf(),
            outers@.len() == gains@.len(),
            (Surveyed { g: graph@, metas: meta_views(out@) }) == surveyed(
                old(graph)@,
                outers@,
                gain_views(gains@),
                i as int,
            ),
            forall|j: int| 0 <= j < out@.len() ==> (#[trigger] out@[j]).at < outers@.len(),
    {
        assert(gain_views(gains@)[i as int] == gains@[i as int]@);
        match survey_one(graph, outers[i], &gains[i], i) {
            Some(meta) => {
                let ghost before = meta_views(out@);
                out.push(meta);
                proof {
                    assert(meta_views(out@) =~= before.push(meta@));
                }
            },
            None => {},
        }
    }
    out
}

/// The state with one promoted method made, or found, and linked: `parent` contains it
/// and it inherits from the method as it is declared.
pub open spec fn with_member(
    st: MintState,
    meta: MetaView,
    parent: NodeId,
    base: Seq<char>,
    pointer: bool,
    pm: PromotedMethod,
) -> MintState {
    match st.g.strings.resolve(pm.name) {
        None => st,
        Some(short) => {
            let list = if pointer {
                st.idx.pointer
            } else {
                st.idx.value
            };
            match promoted_at(
                list,
                meta.package_id,
                meta.short_id,
                pm.name,
                list.len() as int,
            ) {
                Some(node) => linked(st, meta, parent, node, pointer, pm),
                None => {
                    let qn = base + "::"@ + short;
                    let g1 = GraphView { strings: st.g.strings.interned(qn), ..st.g };
                    let m = minted(
                        g1,
                        NodeKind::Method,
                        short,
                        st.g.strings.intern_id(qn),
                        meta.file,
                    );
                    if !st.g.strings.can_intern(qn) {
                        st
                    } else {
                        match m.id {
                            None => MintState { g: m.g, ..st },
                            Some(node) => {
                                let key = PromotedKey {
                                    package: meta.package_id,
                                    owner: meta.short_id,
                                    method: pm.name,
                                    node,
                                };
                                let idx = if pointer {
                                    LocalView { pointer: st.idx.pointer.push(key), ..st.idx }
                                } else {
                                    LocalView { value: st.idx.value.push(key), ..st.idx }
                                };
                                linked(
                                    MintState {
                                        g: m.g,
                                        idx,
                                        fresh: st.fresh.push(node),
                                        promoted: counted_up(st.promoted, 1),
                                    },
                                    meta,
                                    parent,
                                    node,
                                    pointer,
                                    pm,
                                )
                            },
                        }
                    }
                },
            }
        },
    }
}

/// The state with promoted method `node` linked to `parent` and to its declaration.
pub open spec fn linked(
    st: MintState,
    meta: MetaView,
    parent: NodeId,
    node: NodeId,
    pointer: bool,
    pm: PromotedMethod,
) -> MintState {
    let key = OuterKey { outer: meta.outer, name: pm.name, node };
    let idx = if pointer {
        LocalView { outer_pointer: st.idx.outer_pointer.push(key), ..st.idx }
    } else {
        LocalView { outer_value: st.idx.outer_value.push(key), ..st.idx }
    };
    MintState {
        g: with_edge(
            with_edge(st.g, parent, node, EdgeKind::Contains, meta.file),
            node,
            pm.method,
            EdgeKind::Inherits,
            meta.file,
        ),
        idx,
        ..st
    }
}

fn materialise_member(
    graph: &mut CodeGraph,
    idx: &mut PassLocalIndices,
    fresh: &mut Vec<NodeId>,
    promoted: &mut u32,
    meta: &OuterMeta,
    parent: NodeId,
    base: &String,
    pointer: bool,
    pm: PromotedMethod,
)
    requires
        old(graph).wf(),
    ensures
        final(graph).wf(),
        (MintState {
            g: final(graph)@,
            idx: final(idx)@,
            fresh: final(fresh)@,
            promoted: *final(promoted),
        }) == with_member(
            MintState {
                g: old(graph)@,
                idx: old(idx)@,
                fresh: old(fresh)@,
                promoted: *old(promoted),
            },
            meta@,
            parent,
            base@,
            pointer,
            pm,
        ),
{
    let short: String = match graph.strings.resolve(pm.name) {
        Some(s) => s,
        None => {
            return ;
        },
    };
    let known: Option<NodeId> = if pointer {
        find_promoted(&idx.pointer, meta.package_id, meta.short_id, pm.name)
    } else {
        find_promoted(&idx.value, meta.package_id, meta.short_id, pm.name)
    };
    let node: NodeId = match known {
        Some(n) => n,
        None => {
            let mut qn: String = base.clone();
            qn.append("::");
            qn.append(short.as_str());
            let qn_id: StringId = match graph.strings.intern(qn.as_str()) {
                Ok(id) => id,
                Err(_) => {
                    return ;
                },
            };
            let made = mint_synthetic_node(
                graph,
                NodeKind::Method,
                short.as_str(),
                qn_id,
                meta.file,
            );
            let n: NodeId = match made {
                Some(n) => n,
                None => {
                    return ;
                },
            };
            let key = PromotedKey {
                package: meta.package_id,
                owner: meta.short_id,
                method: pm.name,
                node: n,
            };
            if pointer {
                idx.pointer.push(key);
            } else {
                idx.value.push(key);
            }
            fresh.push(n);
            *promoted = count_up(*promoted);
            n
        },
    };
    let key = OuterKey { outer: meta.outer, name: pm.name, node };
    if pointer {
        idx.outer_to_pointer_promoted.push(key);
    } else {
        idx.outer_to_value_promoted.push(key);
    }
    graph.edges.add_edge(parent, node, EdgeKind::Contains, meta.file);
    graph.edges.add_edge(node, pm.method, EdgeKind::Inherits, meta.file);
}

/// The state with the first `n` of `methods` made and linked.
pub open spec fn with_members(
    st: MintState,
    meta: MetaView,
    parent: NodeId,
    base: Seq<char>,
    pointer: bool,
    methods: Seq<PromotedMethod>,
    n: int,
) -> MintState
    decreases n,
{
    if n <= 0 {
        st
    } else {
        with_member(
            with_members(st, meta, parent, base, pointer, methods, n - 1),
            meta,
            parent,
            base,
            pointer,
            methods[n - 1],
        )
    }
}

fn materialise_members(
    graph: &mut CodeGraph,
    idx: &mut PassLocalIndices,
    fresh: &mut Vec<NodeId>,
    promoted: &mut u32,
    meta: &OuterMeta,
    parent: NodeId,
    base: &String,
    pointer: bool,
    methods: &Vec<PromotedMethod>,
)
    requires
        old(graph).wf(),
    ensures
        final(graph).wf(),
        (MintState {
            g: final(graph)@,
            idx: final(idx)@,
            fresh: final(fresh)@,
            promoted: *final(promoted),
        }) == with_members(
            MintState {
                g: old(graph)@,
                idx: old(idx)@,
                fresh: old(fresh)@,
                promoted: *old(promoted),
            },
            meta@,
            parent,
            base@,
            pointer,
            methods@,
            methods@.len() as int,
        ),
{
    let ghost st = MintState { g: graph@, idx: idx@, fresh: fresh@, promoted: *promoted };
    for i in 0..methods.len()
        invariant
            graph.wf(),
            (MintState { g: graph@, idx: idx@, fresh: fresh@, promoted: *promoted })
                == with_members(st, meta@, parent, base@, pointer, methods@, i as int),
    {
        materialise_member(graph, idx, fresh, promoted, meta, parent, base, pointer, methods[i]);
    }
}

/// The state with a type node for the pointer to the struct, where one could be made.
pub open spec fn with_anchor(st: MintState, meta: MetaView) -> (MintState, Option<NodeId>) {
    match pointer_type_at(
        st.idx.pointer_type,
        meta.package_id,
        meta.short_id,
        st.idx.pointer_type.len() as int,
    ) {
        Some(node) => (st, Some(node)),
        None => {
            let g1 = GraphView { strings: st.g.strings.interned(meta.pointer_qn), ..st.g };
            let m = minted(
                g1,
                NodeKind::Type,
                meta.short,
                st.g.strings.intern_id(meta.pointer_qn),
                meta.file,
            );
            if !st.g.strings.can_intern(meta.pointer_qn) {
                (st, None)
            } else {
                match m.id {
                    None => (MintState { g: m.g, ..st }, None),
                    Some(node) => (
                        MintState {
                            g: with_edge(m.g, node, meta.outer, EdgeKind::Inherits, meta.file),
                            idx: LocalView {
                                pointer_type: st.idx.pointer_type.push(
                                    PointerTypeKey {
                                        package: meta.package_id,
                                        owner: meta.short_id,
                                        node,
                                    },
                                ),
                                ..st.idx
                            },
                            fresh: st.fresh.push(node),
                            promoted: st.promoted,
                        },
                        Some(node),
                    ),
                }
            }
        },
    }
}

fn materialise_anchor(
    graph: &mut CodeGraph,
    idx: &mut PassLocalIndices,
    fresh: &mut Vec<NodeId>,
    meta: &OuterMeta,
    Ghost(promoted): Ghost<u32>,
) -> (r: Option<NodeId>)
    requires
        old(graph).wf(),
    ensures
        final(graph).wf(),
        (MintState { g: final(graph)@, idx: final(idx)@, fresh: final(fresh)@, promoted }, r)
            == with_anchor(
            MintState { g: old(graph)@, idx: old(idx)@, fresh: old(fresh)@, promoted },
            meta@,
        ),
{
    match find_pointer_type(&idx.pointer_type, meta.package_id, meta.short_id) {
        Some(node) => Some(node),
        None => {
            let qn_id: StringId = match graph.strings.intern(meta.pointer_qn.as_str()) {
                Ok(id) => id,
                Err(_) => {
                    return None;
                },
            };
            let made = mint_synthetic_node(
                graph,
                NodeKind::Type,
                meta.short.as_str(),
                qn_id,
                meta.file,
            );
            let node: NodeId = match made {
                Some(n) => n,
                None => {
                    return None;
                },
            };
            idx.pointer_type.push(
                PointerTypeKey { package: meta.package_id, owner: meta.short_id, node },
            );
            fresh.push(node);
            graph.edges.add_edge(node, meta.outer, EdgeKind::Inherits, meta.file);
            Some(node)
        },
    }
}

/// The state with everything made that one struct gains. Where the type node of its
/// pointer is needed and could not be made, nothing is.
pub open spec fn with_gain(st: MintState, meta: MetaView, gain: GainView) -> MintState {
    let value_n = gain.value.len() as int;
    if gain.pointer_only.len() == 0 {
        with_members(st, meta, meta.outer, meta.qn, false, gain.value, value_n)
    } else {
        let a = with_anchor(st, meta);
        match a.1 {
            None => a.0,
            Some(anchor) => with_members(
                with_members(a.0, meta, meta.outer, meta.qn, false, gain.value, value_n),
                meta,
                anchor,
                meta.pointer_qn,
                true,
                gain.pointer_only,
                gain.pointer_only.len() as int,
            ),
        }
    }
}

/// The state with everything made that the first `n` structs gain.
pub open spec fn with_gains(st: MintState, metas: Seq<MetaView>, gains: Seq<GainView>, n: int) -> MintState
    decreases n,
{
    if n <= 0 {
        st
    } else {
        with_gain(
            with_gains(st, metas, gains, n - 1),
            metas[n - 1],
            gains[metas[n - 1].at],
        )
    }
}

/// The state with nodes and edges for everything that `outers` gain.
pub open spec fn materialised(st: MintState, outers: Seq<NodeId>, gains: Seq<GainView>) -> MintState {
    let s = surveyed(st.g, outers, gains, outers.len() as int);
    with_gains(MintState { g: s.g, ..st }, s.metas, gains, s.metas.len() as int)
}

proof fn lemma_promoted_nowhere(
    s: Seq<PromotedKey>,
    package: StringId,
    owner: StringId,
    method: StringId,
    n: int,
)
    requires
        0 <= n <= s.len(),
        promoted_at(s, package, owner, method, n) is None,
    ensures
        forall|i: int|
            0 <= i < n ==> (#[trigger] s[i]).package != package || s[i].owner != owner || s[i].method
                != method,
    decreases n,
{
    if n > 0 {
        lemma_promoted_nowhere(s, package, owner, method, n - 1);
    }
}

proof fn lemma_pointer_type_nowhere(
    s: Seq<PointerTypeKey>,
    package: StringId,
    owner: StringId,
    n: int,
)
    requires
        0 <= n <= s.len(),
        pointer_type_at(s, package, owner, n) is None,
    ensures
        forall|i: int| 0 <= i < n ==> (#[trigger] s[i]).package != package || s[i].owner != owner,
    decreases n,
{
    if n > 0 {
        lemma_pointer_type_nowhere(s, package, owner, n - 1);
    }
}

/// The promoted methods noted under structs, or under the pointers to them.
spec fn outer_list(idx: LocalView, pointer: bool) -> Seq<OuterKey> {
    if pointer {
        idx.outer_pointer
    } else {
        idx.outer_value
    }
}

/// A method is noted under a struct.
spec fn noted(s: Seq<OuterKey>, outer: NodeId, name: StringId) -> bool {
    exists|i: int| 0 <= i < s.len() && (#[trigger] s[i]).outer == outer && s[i].name == name
}

/// The methods noted in `t` are those noted in `s`, and perhaps `name` under `outer`.
spec fn notes_more(s: Seq<OuterKey>, t: Seq<OuterKey>, outer: NodeId, name: StringId) -> bool {
    forall|o: NodeId, m: StringId| #[trigger]
        noted(t, o, m) ==> noted(s, o, m) || (o == outer && m == name)
}

proof fn lemma_note(s: Seq<OuterKey>, key: OuterKey)
    requires
        outers_once(s),
        !noted(s, key.outer, key.name),
    ensures
        outers_once(s.push(key)),
        notes_more(s, s.push(key), key.outer, key.name),
{
    let t = s.push(key);
    assert forall|i: int, j: int| 0 <= i < j < t.len() implies (#[trigger] t[i]).outer != (
    #[trigger] t[j]).outer || t[i].name != t[j].name by {
        assert(t[i] == s[i]);
        if j == s.len() && s[i].outer == key.outer && s[i].name == key.name {
            assert(noted(s, key.outer, key.name));
        }
    }
    assert forall|o: NodeId, m: StringId| #[trigger] noted(t, o, m) implies noted(s, o, m) || (o
        == key.outer && m == key.name) by {
        let i = choose|i: int| 0 <= i < t.len() && (#[trigger] t[i]).outer == o && t[i].name == m;
        if i < s.len() {
            assert(s[i].outer == o && s[i].name == m);
        }
    }
}

proof fn lemma_member_noted_once(
    st: MintState,
    meta: MetaView,
    parent: NodeId,
    base: Seq<char>,
    pointer: bool,
    pm: PromotedMethod,
)
    requires
        st.idx.wf(),
        !noted(outer_list(st.idx, pointer), meta.outer, pm.name),
    ensures
        ({
            let r = with_member(st, meta, parent, base, pointer, pm);
            &&& r.idx.wf()
            &&& notes_more(st.idx.outer_value, r.idx.outer_value, meta.outer, pm.name)
            &&& notes_more(st.idx.outer_pointer, r.idx.outer_pointer, meta.outer, pm.name)
            &&& pointer ==> r.idx.outer_value == st.idx.outer_value
            &&& !pointer ==> r.idx.outer_pointer == st.idx.outer_pointer
        }),
{
    let list = if pointer {
        st.idx.pointer
    } else {
        st.idx.value
    };
    let outers = outer_list(st.idx, pointer);
    let r = with_member(st, meta, parent, base, pointer, pm);
    if promoted_at(list, meta.package_id, meta.short_id, pm.name, list.len() as int) is None {
        lemma_promoted_nowhere(
            list,
            meta.package_id,
            meta.short_id,
            pm.name,
            list.len() as int,
        );
    }
    let after = outer_list(r.idx, pointer);
    if after != outers {
        let key = after.last();
        assert(after =~= outers.push(key));
        lemma_note(outers, key);
    }
}

/// Nothing is noted under `outer`.
spec fn unnoted(s: Seq<OuterKey>, outer: NodeId) -> bool {
    forall|m: StringId| !#[trigger] noted(s, outer, m)
}

proof fn lemma_members_noted_once(
    st: MintState,
    meta: MetaView,
    parent: NodeId,
    base: Seq<char>,
    pointer: bool,
    methods: Seq<PromotedMethod>,
    n: int,
)
    requires
        st.idx.wf(),
        0 <= n <= methods.len(),
        names_once(methods),
        unnoted(outer_list(st.idx, pointer), meta.outer),
    ensures
        ({
            let r = with_members(st, meta, parent, base, pointer, methods, n);
            &&& r.idx.wf()
            &&& forall|m: StringId| #[trigger]
                noted(outer_list(r.idx, pointer), meta.outer, m) ==> exists|k: int|
                    0 <= k < n && (#[trigger] methods[k]).name == m
            &&& forall|o: NodeId|
                o != meta.outer && #[trigger] unnoted(st.idx.outer_value, o) ==> unnoted(
                    r.idx.outer_value,
                    o,
                )
            &&& forall|o: NodeId|
                o != meta.outer && #[trigger] unnoted(st.idx.outer_pointer, o) ==> unnoted(
                    r.idx.outer_pointer,
                    o,
                )
            &&& pointer ==> r.idx.outer_value == st.idx.outer_value
            &&& !pointer ==> r.idx.outer_pointer == st.idx.outer_pointer
        }),
    decreases n,
{
    if n > 0 {
        lemma_members_noted_once(st, meta, parent, base, pointer, methods, n - 1);
        let before = with_members(st, meta, parent, base, pointer, methods, n - 1);
        let list = outer_list(before.idx, pointer);
        let pm = methods[n - 1];
        if noted(list, meta.outer, pm.name) {
            let k = choose|k: int| 0 <= k < n - 1 && (#[trigger] methods[k]).name == pm.name;
            assert(methods[k].name != methods[n - 1].name);
        }
        lemma_member_noted_once(before, meta, parent, base, pointer, pm);
        let r = with_members(st, meta, parent, base, pointer, methods, n);
        let after = outer_list(r.idx, pointer);
        assert forall|m: StringId| #[trigger] noted(after, meta.outer, m) implies exists|k: int|
            0 <= k < n && (#[trigger] methods[k]).name == m by {
            if noted(list, meta.outer, m) {
                let k = choose|k: int| 0 <= k < n - 1 && (#[trigger] methods[k]).name == m;
                assert(0 <= k < n && methods[k].name == m);
            } else {
                assert(methods[n - 1].name == m);
            }
        }
        assert forall|o: NodeId|
            o != meta.outer && #[trigger] unnoted(st.idx.outer_value, o) implies unnoted(
            r.idx.outer_value,
            o,
        ) by {
            assert(unnoted(before.idx.outer_value, o));
        }
        assert forall|o: NodeId|
            o != meta.outer && #[trigger] unnoted(st.idx.outer_pointer, o) implies unnoted(
            r.idx.outer_pointer,
            o,
        ) by {
            assert(unnoted(before.idx.outer_pointer, o));
        }
    }
}

proof fn lemma_gain_noted_once(st: MintState, meta: MetaView, gain: GainView)
    requires
        st.idx.wf(),
        names_once(gain.value),
        names_once(gain.pointer_only),
        unnoted(st.idx.outer_value, meta.outer),
        unnoted(st.idx.outer_pointer, meta.outer),
    ensures
        ({
            let r = with_gain(st, meta, gain);
            &&& r.idx.wf()
            &&& forall|o: NodeId|
                o != meta.outer && #[trigger] unnoted(st.idx.outer_value, o) ==> unnoted(
                    r.idx.outer_value,
                    o,
                )
            &&& forall|o: NodeId|
                o != meta.outer && #[trigger] unnoted(st.idx.outer_pointer, o) ==> unnoted(
                    r.idx.outer_pointer,
                    o,
                )
        }),
{
    let n = gain.value.len() as int;
    if gain.pointer_only.len() == 0 {
        lemma_members_noted_once(st, meta, meta.outer, meta.qn, false, gain.value, n);
    } else {
        let types = st.idx.pointer_type;
        if pointer_type_at(types, meta.package_id, meta.short_id, types.len() as int) is None {
            lemma_pointer_type_nowhere(
                types,
                meta.package_id,
                meta.short_id,
                types.len() as int,
            );
        }
        let a = with_anchor(st, meta);
        assert(a.0.idx.wf());
        if let Some(anchor) = a.1 {
            lemma_members_noted_once(a.0, meta, meta.outer, meta.qn, false, gain.value, n);
            let b = with_members(a.0, meta, meta.outer, meta.qn, false, gain.value, n);
            lemma_members_noted_once(
                b,
                meta,
                anchor,
                meta.pointer_qn,
                true,
                gain.pointer_only,
                gain.pointer_only.len() as int,
            );
        }
    }
}

proof fn lemma_gains_noted_once(
    st: MintState,
    metas: Seq<MetaView>,
    gains: Seq<GainView>,
    n: int,
)
    requires
        st.idx == LocalView::none(),
        0 <= n <= metas.len(),
        forall|i: int, j: int|
            0 <= i < j < metas.len() ==> (#[trigger] metas[i]).outer != (#[trigger] metas[j]).outer,
        forall|i: int| 0 <= i < metas.len() ==> 0 <= (#[trigger] metas[i]).at < gains.len(),
        forall|i: int|
            0 <= i < gains.len() ==> names_once((#[trigger] gains[i]).value) && names_once(
                gains[i].pointer_only,
            ),
    ensures
        with_gains(st, metas, gains, n).idx.wf(),
        forall|i: int|
            n <= i < metas.len() ==> unnoted(
                with_gains(st, metas, gains, n).idx.outer_value,
                (#[trigger] metas[i]).outer,
            ) && unnoted(with_gains(st, metas, gains, n).idx.outer_pointer, metas[i].outer),
    decreases n,
{
    if n > 0 {
        lemma_gains_noted_once(st, metas, gains, n - 1);
        let before = with_gains(st, metas, gains, n - 1);
        let meta = metas[n - 1];
        let gain = gains[meta.at];
        assert(names_once(gain.value) && names_once(gain.pointer_only));
        lemma_gain_noted_once(before, meta, gain);
        assert forall|i: int| n <= i < metas.len() implies unnoted(
            with_gains(st, metas, gains, n).idx.outer_value,
            (#[trigger] metas[i]).outer,
        ) && unnoted(with_gains(st, metas, gains, n).idx.outer_pointer, metas[i].outer) by {
            assert(metas[n - 1].outer != metas[i].outer);
            assert(unnoted(before.idx.outer_value, metas[i].outer));
            assert(unnoted(before.idx.outer_pointer, metas[i].outer));
        }
    }
}

proof fn lemma_surveyed_outers(g: GraphView, outers: Seq<NodeId>, gains: Seq<GainView>, n: int)
    requires
        0 <= n <= outers.len(),
        n <= gains.len(),
        outers.no_duplicates(),
    ensures
        ({
            let metas = surveyed(g, outers, gains, n).metas;
            &&& forall|i: int|
                0 <= i < metas.len() ==> 0 <= (#[trigger] metas[i]).at < n && metas[i].outer
                    == outers[metas[i].at]
            &&& forall|i: int, j: int|
                0 <= i < j < metas.len() ==> (#[trigger] metas[i]).outer != (
                #[trigger] metas[j]).outer
        }),
    decreases n,
{
    if n > 0 {
        lemma_surveyed_outers(g, outers, gains, n - 1);
        let before = surveyed(g, outers, gains, n - 1).metas;
        let metas = surveyed(g, outers, gains, n).metas;
        assert forall|i: int| 0 <= i < metas.len() implies 0 <= (#[trigger] metas[i]).at < n
            && metas[i].outer == outers[metas[i].at] by {
            if i < before.len() {
                assert(metas[i] == before[i]);
            }
        }
        assert forall|i: int, j: int| 0 <= i < j < metas.len() implies (#[trigger] metas[i]).outer
            != (#[trigger] metas[j]).outer by {
            assert(metas[i] == before[i]);
            if j < before.len() {
                assert(metas[j] == before[j]);
            } else {
                assert(outers[before[i].at] != outers[n - 1]);
            }
        }
    }
}

/// Whatever is made for distinct structs, each of which gains a method of a given name
/// once, is noted once under its key.
pub proof fn law_keys_are_noted_once(st: MintState, outers: Seq<NodeId>, gains: Seq<GainView>)
    requires
        st.idx == LocalView::none(),
        outers.len() == gains.len(),
        outers.no_duplicates(),
        forall|i: int|
            0 <= i < gains.len() ==> names_once((#[trigger] gains[i]).value) && names_once(
                gains[i].pointer_only,
            ),
    ensures
        materialised(st, outers, gains).idx.wf(),
{
    let s = surveyed(st.g, outers, gains, outers.len() as int);
    lemma_surveyed_outers(st.g, outers, gains, outers.len() as int);
    lemma_gains_noted_once(MintState { g: s.g, ..st }, s.metas, gains, s.metas.len() as int);
}

/// Makes a node for each promoted method and links it: its struct, or the type node of
/// the pointer to it, contains it, and it inherits from the method as it is declared.
/// The type node of a pointer inherits from the struct.
#[verifier::spinoff_prover]
pub fn materialise_and_emit_structural(
    graph: &mut CodeGraph,
    outers: &Vec<NodeId>,
    gains: &Vec<PerOuterPromotion>,
    idx: &mut PassLocalIndices,
    fresh: &mut Vec<NodeId>,
    promoted: &mut u32,
)
    requires
        old(graph).wf(),
        outers@.len() == gains@.len(),
    ensures
        final(graph).wf(),
        (MintState {
            g: final(graph)@,
            idx: final(idx)@,
            fresh: final(fresh)@,
            promoted: *final(promoted),
        }) == materialised(
            MintState {
                g: old(graph)@,
                idx: old(idx)@,
                fresh: old(fresh)@,
                promoted: *old(promoted),
            },
            outers@,
            gain_views(gains@),
        ),
        old(idx)@ == LocalView::none() && outers@.no_duplicates() && (forall|i: int|
            0 <= i < gains@.len() ==> (#[trigger] gains@[i]).wf()) ==> final(idx)@.wf(),
{
    proof {
        if idx@ == LocalView::none() && outers@.no_duplicates() && (forall|i: int|
            0 <= i < gains@.len() ==> (#[trigger] gains@[i]).wf()) {
            let views = gain_views(gains@);
            assert forall|i: int| 0 <= i < views.len() implies names_once(
                (#[trigger] views[i]).value,
            ) && names_once(views[i].pointer_only) by {
                assert(gains@[i].wf());
            }
            law_keys_are_noted_once(
                MintState { g: graph@, idx: idx@, fresh: fresh@, promoted: *promoted },
                outers@,
                views,
            );
        }
    }
    let metas = survey(graph, outers, gains);
    let ghost st = MintState { g: graph@, idx: idx@, fresh: fresh@, promoted: *promoted };
    for i in 0..metas.len()
        invariant
            graph.wf(),
            outers@.len() == gains@.len(),
            forall|j: int| 0 <= j < metas@.len() ==> (#[trigger] metas@[j]).at < outers@.len(),
            (MintState { g: graph@, idx: idx@, fresh: fresh@, promoted: *promoted }) == with_gains(
                st,
                meta_views(metas@),
                gain_views(gains@),
                i as int,
            ),
    {
        assert(meta_views(metas@)[i as int] == metas@[i as int]@);
        let at: usize = metas[i].at;
        assert(gain_views(gains@)[at as int] == gains@[at as int]@);
        let mut anchor: Option<NodeId> = None;
        if gains[at].pointer_only.len() > 0 {
            anchor = materialise_anchor(graph, idx, fresh, &metas[i], Ghost(*promoted));
        }
        if anchor.is_some() || gains[at].pointer_only.len() == 0 {
            materialise_members(
                graph,
                idx,
                fresh,
                promoted,
                &metas[i],
                metas[i].outer,
                &metas[i].qn,
                false,
                &gains[at].value,
            );
        }
        match anchor {
            Some(node) => {
                materialise_members(
                    graph,
                    idx,
                    fresh,
                    promoted,
                    &metas[i],
                    node,
                    &metas[i].pointer_qn,
                    true,
                    &gains[at].pointer_only,
                );
            },
            None => {},
        }
    }
}

} // verus!
