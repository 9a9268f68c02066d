//! Which types satisfy which interfaces.
use vstd::prelude::*;

use crate::arena::live_kind;
use crate::edges::StoreView;
use crate::files::has_node;
use crate::graph::{CodeGraph, GraphView};
use crate::hints::SignatureView;
use crate::ids::{FileId, NodeId, StringId};
use crate::indices::nodes_of_kind;
use crate::kinds::{EdgeKind, NodeKind, Receiver};
use crate::pass_go_method_set::lookup::{
    add_new_names, collect_embedded_interfaces, embedded_interfaces, find_method_names_of_type,
    inherits_target, inherits_target_of_promoted, kind_of, methods_of, named, with_new_names,
    MethodRef, MAX_INTERFACE_EMBED_DEPTH,
};
use crate::pass_go_method_set::materialise::{
    find_pointer_type, mint_synthetic_node, minted, pointer_name, pointer_type_at,
    split_qn, split_qn_into_package_and_name, with_edge, LocalView, OuterKey, PassLocalIndices,
};
use crate::pass_go_method_set::promotion::{
    count_up, counted_up, declared_receiver, find_receiver,
};
use crate::pass_go_method_set::shadow::{file_of, find_file};
use crate::sorting::{dedup_neighbours, deduped, sorted, stable_sort, Ranked};
use crate::strings::text_of;
use crate::text::{contains_str, contains_text, same_text};

verus! {

/// The signature that the last of the first `n` hints gives `node`.
pub open spec fn signature_at(hints: Seq<SignatureView>, node: NodeId, n: int) -> Option<Seq<char>>
    decreases n,
{
    if n <= 0 {
        None
    } else if hints[n - 1].node == node {
        Some(hints[n - 1].signature)
    } else {
        signature_at(hints, node, n - 1)
    }
}

/// The signature of method `node`.
pub open spec fn method_signature(g: GraphView, node: NodeId) -> Option<Seq<char>> {
    signature_at(g.hints.method_signatures, node, g.hints.method_signatures.len() as int)
}

/// The signature of method `node`.
pub fn find_method_signature(graph: &CodeGraph, node: NodeId) -> (r: Option<String>)
    ensures
        text_of(r) == method_signature(graph@, node),
{
    let mut i: usize = graph.go_hints.method_signatures.len();
    while i > 0
        invariant
            i <= graph.go_hints.method_signatures@.len(),
            method_signature(graph@, node) == signature_at(
                graph@.hints.method_signatures,
                node,
                i as int,
            ),
        decreases i,
    {
        let h = &graph.go_hints.method_signatures[i - 1];
        assert(graph@.hints.method_signatures[i - 1] == h@);
        if h.method_node == node {
            return Some(h.canonical_signature.clone());
        }
        i = i - 1;
    }
    None
}

/// A method in a method set: its name and the method whose signature it has.
#[derive(Clone, Copy, Debug, PartialEq, Eq, Structural)]
pub struct MethodSetEntry {
    pub name: StringId,
    pub source: Option<NodeId>,
}

/// Entries of a method set sort by name.
impl Ranked for MethodSetEntry {
    open spec fn ranks_before(self, other: MethodSetEntry) -> bool {
        self.name.0 < other.name.0
    }

    open spec fn same_rank(self, other: MethodSetEntry) -> bool {
        self.name == other.name
    }

    fn is_ranked_before(&self, other: &MethodSetEntry) -> (r: bool) {
        self.name.0 < other.name.0
    }

    fn is_same_rank(&self, other: &MethodSetEntry) -> (r: bool) {
        self.name == other.name
    }
}

/// The signature of an entry, where one is known.
pub open spec fn entry_signature(g: GraphView, e: MethodSetEntry) -> Option<Seq<char>> {
    match e.source {
        Some(node) => method_signature(g, node),
        None => None,
    }
}

fn find_entry_signature(graph: &CodeGraph, e: MethodSetEntry) -> (r: Option<String>)
    ensures
        text_of(r) == entry_signature(graph@, e),
{
    match e.source {
        Some(node) => find_method_signature(graph, node),
        None => None,
    }
}

/// `have` stands for `want`: same name, and same signature where both are known.
pub open spec fn entry_matches(g: GraphView, have: MethodSetEntry, want: MethodSetEntry) -> bool {
    have.name == want.name && (match (entry_signature(g, want), entry_signature(g, have)) {
        (Some(a), Some(b)) => a == b,
        _ => true,
    })
}

/// Some entry of `set` stands for `want`.
pub open spec fn set_has(g: GraphView, set: Seq<MethodSetEntry>, want: MethodSetEntry) -> bool {
    exists|i: int| 0 <= i < set.len() && #[trigger] entry_matches(g, set[i], want)
}

/// `set` has every method of `required`.
pub open spec fn satisfies(
    g: GraphView,
    set: Seq<MethodSetEntry>,
    required: Seq<MethodSetEntry>,
) -> bool {
    forall|i: int| 0 <= i < required.len() ==> set_has(g, set, #[trigger] required[i])
}

/// Whether some entry of `set` stands for `want`.
pub fn method_set_contains_match(
    graph: &CodeGraph,
    set: &Vec<MethodSetEntry>,
    want: MethodSetEntry,
) -> (r: bool)
    ensures
        r == set_has(graph@, set@, want),
{
    let wanted = find_entry_signature(graph, want);
    for i in 0..set.len()
        invariant
            text_of(wanted) == entry_signature(graph@, want),
            forall|j: int| 0 <= j < i ==> !#[trigger] entry_matches(graph@, set@[j], want),
    {
        if set[i].name == want.name {
            let had = find_entry_signature(graph, set[i]);
            let same: bool = match (&wanted, &had) {
                (Some(a), Some(b)) => same_text(a.as_str(), b.as_str()),
                _ => true,
            };
            if same {
                assert(entry_matches(graph@, set@[i as int], want));
                return true;
            }
        }
    }
    false
}

/// The method sets of a type.
pub struct CandidateMethodSet {
    /// Method set of the type.
    pub value_methods: Vec<MethodSetEntry>,
    /// Method set of the pointer to the type.
    pub pointer_methods: Vec<MethodSetEntry>,
}

/// Contents of the method sets of a type.
pub struct SetsView {
    pub value: Seq<MethodSetEntry>,
    pub pointer: Seq<MethodSetEntry>,
}

impl View for CandidateMethodSet {
    type V = SetsView;

    open spec fn view(&self) -> SetsView {
        SetsView { value: self.value_methods@, pointer: self.pointer_methods@ }
    }
}

fn has_all(graph: &CodeGraph, set: &Vec<MethodSetEntry>, required: &Vec<MethodSetEntry>) -> (r:
    bool)
    ensures
        r == satisfies(graph@, set@, required@),
{
    for i in 0..required.len()
        invariant
            forall|j: int| 0 <= j < i ==> set_has(graph@, set@, #[trigger] required@[j]),
    {
        if !method_set_contains_match(graph, set, required[i]) {
            assert(!set_has(graph@, set@, required@[i as int]));
            return false;
        }
    }
    true
}

impl CandidateMethodSet {
    /// Whether the type has every method of `required`.
    pub fn value_satisfies(&self, graph: &CodeGraph, required: &Vec<MethodSetEntry>) -> (r: bool)
        ensures
            r == satisfies(graph@, self@.value, required@),
    {
        has_all(graph, &self.value_methods, required)
    }

    /// Whether the pointer to the type has every method of `required`.
    pub fn pointer_satisfies(&self, graph: &CodeGraph, required: &Vec<MethodSetEntry>) -> (r: bool)
        ensures
            r == satisfies(graph@, self@.pointer, required@),
    {
        has_all(graph, &self.pointer_methods, required)
    }
}

/// The indexed nodes of a kind.
pub open spec fn indexed(g: GraphView, kind: NodeKind) -> Seq<NodeId> {
    nodes_of_kind(g.indices, kind, g.indices.len() as int)
}

/// The methods of the first `n` of `types`, one per name; only indexed interfaces count.
pub open spec fn interface_methods_of(g: GraphView, types: Seq<NodeId>, n: int) -> Seq<MethodRef>
    decreases n,
{
    if n <= 0 {
        Seq::empty()
    } else {
        let before = interface_methods_of(g, types, n - 1);
        let t = types[n - 1];
        match g.qn(t) {
            Some(qn) => if indexed(g, NodeKind::Interface).contains(t) {
                with_new_names(before, methods_of(g, qn), methods_of(g, qn).len() as int)
            } else {
                before
            },
            None => before,
        }
    }
}

/// The entries that methods make.
pub open spec fn entries_of(methods: Seq<MethodRef>) -> Seq<MethodSetEntry> {
    Seq::new(
        methods.len(),
        |i: int| MethodSetEntry { name: methods[i].name, source: Some(methods[i].node) },
    )
}

/// What interface `iface` requires: its methods and those of the interfaces that it
/// embeds, by name.
pub open spec fn required_methods(g: GraphView, iface: NodeId) -> Seq<MethodSetEntry> {
    let all = embedded_interfaces(g, iface, false, MAX_INTERFACE_EMBED_DEPTH - 1);
    sorted(entries_of(interface_methods_of(g, all, all.len() as int)))
}

fn find_required_methods(graph: &CodeGraph, iface: NodeId, interfaces: &Vec<NodeId>) -> (r: Vec<
    MethodSetEntry,
>)
    requires
        interfaces@ == indexed(graph@, NodeKind::Interface),
    ensures
        r@ == required_methods(graph@, iface),
{
    let all = collect_embedded_interfaces(graph, iface, false);
    let mut methods: Vec<MethodRef> = Vec::new();
    for i in 0..all.len()
        invariant
            interfaces@ == indexed(graph@, NodeKind::Interface),
            methods@ == interface_methods_of(graph@, all@, i as int),
    {
        match graph.qualified_name_string(all[i]) {
            Some(qn) => {
                if has_node(interfaces, all[i]) {
                    let more = find_method_names_of_type(graph, qn.as_str());
                    add_new_names(&mut methods, &more);
                }
            },
            None => {},
        }
    }
    let mut entries: Vec<MethodSetEntry> = Vec::new();
    for i in 0..methods.len()
        invariant
            entries@ == entries_of(methods@).take(i as int),
    {
        entries.push(MethodSetEntry { name: methods[i].name, source: Some(methods[i].node) });
        proof {
            assert(entries_of(methods@).take(i + 1) =~= entries_of(methods@).take(i as int).push(
                entries_of(methods@)[i as int],
            ));
        }
    }
    proof {
        assert(entries_of(methods@).take(methods@.len() as int) =~= entries_of(methods@));
    }
    stable_sort(entries)
}

/// Nodes in order, each once.
pub open spec fn in_order(nodes: Seq<NodeId>) -> Seq<NodeId> {
    let s = sorted(nodes);
    deduped(s, s.len() as int)
}

fn put_in_order(nodes: Vec<NodeId>) -> (r: Vec<NodeId>)
    ensures
        r@ == in_order(nodes@),
{
    let ordered = stable_sort(nodes);
    dedup_neighbours(&ordered)
}

/// An interface and what it requires.
pub struct InterfaceSet {
    pub node: NodeId,
    pub required: Vec<MethodSetEntry>,
}

/// Contents of an interface and what it requires.
pub struct InterfaceView {
    pub node: NodeId,
    pub required: Seq<MethodSetEntry>,
}

impl View for InterfaceSet {
    type V = InterfaceView;

    open spec fn view(&self) -> InterfaceView {
        InterfaceView { node: self.node, required: self.required@ }
    }
}

/// Contents of interfaces and what they require.
pub open spec fn interface_views(s: Seq<InterfaceSet>) -> Seq<InterfaceView> {
    Seq::new(s.len(), |i: int| s[i]@)
}

/// The interfaces among the first `n` of `nodes` that require something.
pub open spec fn demanding(g: GraphView, nodes: Seq<NodeId>, n: int) -> Seq<InterfaceView>
    decreases n,
{
    if n <= 0 {
        Seq::empty()
    } else {
        let before = demanding(g, nodes, n - 1);
        let required = required_methods(g, nodes[n - 1]);
        if required.len() == 0 {
            before
        } else {
            before.push(InterfaceView { node: nodes[n - 1], required })
        }
    }
}

/// The indexed interfaces that require something, in node order.
pub open spec fn interface_sets(g: GraphView) -> Seq<InterfaceView> {
    let nodes = in_order(indexed(g, NodeKind::Interface));
    demanding(g, nodes, nodes.len() as int)
}

/// The indexed interfaces and what each requires, in node order. An interface that
/// requires nothing stays out.
pub fn collect_interface_method_sets(graph: &CodeGraph) -> (r: Vec<InterfaceSet>)
    ensures
        interface_views(r@) == interface_sets(graph@),
{
    let interfaces = graph.indices.by_kind(NodeKind::Interface);
    let again = graph.indices.by_kind(NodeKind::Interface);
    let nodes = put_in_order(again);
    let mut out: Vec<InterfaceSet> = Vec::new();
    proof {
        assert(interface_views(out@) =~= Seq::<InterfaceView>::empty());
    }
    for i in 0..nodes.len()
        invariant
            interfaces@ == indexed(graph@, NodeKind::Interface),
            interface_views(out@) == demanding(graph@, nodes@, i as int),
    {
        let required = find_required_methods(graph, nodes[i], &interfaces);
        if required.len() > 0 {
            let ghost before = interface_views(out@);
            let set = InterfaceSet { node: nodes[i], required };
            out.push(set);
            proof {
                assert(interface_views(out@) =~= before.push(set@));
            }
        }
    }
    out
}

/// The node is the type node of a pointer.
pub open spec fn is_pointer_form(g: GraphView, node: NodeId) -> bool {
    match g.qn(node) {
        Some(qn) => contains_text(qn, "::*"@),
        None => false,
    }
}

/// The first `n` of `nodes` that are no type nodes of pointers, added to `found`.
pub open spec fn with_originals(g: GraphView, found: Seq<NodeId>, nodes: Seq<NodeId>, n: int) -> Seq<
    NodeId,
>
    decreases n,
{
    if n <= 0 {
        found
    } else {
        let before = with_originals(g, found, nodes, n - 1);
        if is_pointer_form(g, nodes[n - 1]) {
            before
        } else {
            before.push(nodes[n - 1])
        }
    }
}

/// The indexed structs, interfaces and named types, in node order, without the type
/// nodes of pointers.
pub open spec fn candidate_types(g: GraphView) -> Seq<NodeId> {
    let s = indexed(g, NodeKind::Struct);
    let i = indexed(g, NodeKind::Interface);
    let t = indexed(g, NodeKind::Type);
    in_order(
        with_originals(
            g,
            with_originals(
                g,
                with_originals(g, Seq::empty(), s, s.len() as int),
                i,
                i.len() as int,
            ),
            t,
            t.len() as int,
        ),
    )
}

fn add_originals(graph: &CodeGraph, found: &mut Vec<NodeId>, kind: NodeKind)
    ensures
        final(found)@ == with_originals(
            graph@,
            old(found)@,
            indexed(graph@, kind),
            indexed(graph@, kind).len() as int,
        ),
{
    let nodes = graph.indices.by_kind(kind);
    for i in 0..nodes.len()
        invariant
            nodes@ == indexed(graph@, kind),
            found@ == with_originals(graph@, old(found)@, nodes@, i as int),
    {
        let pointer: bool = match graph.qualified_name_string(nodes[i]) {
            Some(qn) => contains_str(qn.as_str(), "::*"),
            None => false,
        };
        if !pointer {
            found.push(nodes[i]);
        }
    }
}

/// The types that may satisfy an interface, in node order.
pub fn collect_candidate_types(graph: &CodeGraph) -> (r: Vec<NodeId>)
    ensures
        r@ == candidate_types(graph@),
{
    let mut found: Vec<NodeId> = Vec::new();
    add_originals(graph, &mut found, NodeKind::Struct);
    add_originals(graph, &mut found, NodeKind::Interface);
    add_originals(graph, &mut found, NodeKind::Type);
    put_in_order(found)
}

/// `node` is one of the promoted methods that `keys` list.
pub open spec fn is_promoted(keys: Seq<OuterKey>, node: NodeId) -> bool {
    exists|i: int| 0 <= i < keys.len() && (#[trigger] keys[i]).node == node
}

fn among_promoted(keys: &Vec<OuterKey>, node: NodeId) -> (r: bool)
    ensures
        r == is_promoted(keys@, node),
{
    for i in 0..keys.len()
        invariant
            forall|j: int| 0 <= j < i ==> (#[trigger] keys@[j]).node != node,
    {
        if keys[i].node == node {
            return true;
        }
    }
    false
}

/// The method sets that the declared ones among the first `n` of `methods` give the type
/// they stand under. Those that `promoted` lists are not declared.
pub open spec fn native_sets(
    g: GraphView,
    methods: Seq<MethodRef>,
    promoted: Seq<OuterKey>,
    n: int,
) -> SetsView
    decreases n,
{
    if n <= 0 {
        SetsView { value: Seq::empty(), pointer: Seq::empty() }
    } else if is_promoted(promoted, methods[n - 1].node) {
        native_sets(g, methods, promoted, n - 1)
    } else {
        let before = native_sets(g, methods, promoted, n - 1);
        let m = methods[n - 1];
        let e = MethodSetEntry { name: m.name, source: Some(m.node) };
        SetsView {
            value: if declared_receiver(g, m.node) == Receiver::Value {
                before.value.push(e)
            } else {
                before.value
            },
            pointer: before.pointer.push(e),
        }
    }
}

/// The method sets with the first `n` promoted methods of `c` added.
pub open spec fn with_promoted(
    g: GraphView,
    sets: SetsView,
    keys: Seq<OuterKey>,
    c: NodeId,
    pointer_only: bool,
    n: int,
) -> SetsView
    decreases n,
{
    if n <= 0 {
        sets
    } else {
        let before = with_promoted(g, sets, keys, c, pointer_only, n - 1);
        let k = keys[n - 1];
        if k.outer != c {
            before
        } else {
            let e = MethodSetEntry { name: k.name, source: inherits_target(g, k.node) };
            SetsView {
                value: if pointer_only {
                    before.value
                } else {
                    before.value.push(e)
                },
                pointer: before.pointer.push(e),
            }
        }
    }
}

/// The method sets of type `c`: declared methods and promoted ones. A type without a
/// qualified name has none, nor has a named type without methods.
pub open spec fn method_sets(g: GraphView, idx: LocalView, c: NodeId) -> Option<SetsView> {
    match g.qn(c) {
        Some(qn) => {
            let native = methods_of(g, qn);
            let with_value = with_promoted(
                g,
                native_sets(g, native, idx.outer_value, native.len() as int),
                idx.outer_value,
                c,
                false,
                idx.outer_value.len() as int,
            );
            let all = with_promoted(
                g,
                with_value,
                idx.outer_pointer,
                c,
                true,
                idx.outer_pointer.len() as int,
            );
            if live_kind(g.nodes, c) == Some(NodeKind::Type) && all.pointer.len() == 0 {
                None
            } else {
                Some(all)
            }
        },
        None => None,
    }
}

fn add_promoted(
    graph: &CodeGraph,
    sets: &mut CandidateMethodSet,
    keys: &Vec<OuterKey>,
    c: NodeId,
    pointer_only: bool,
)
    ensures
        final(sets)@ == with_promoted(
            graph@,
            old(sets)@,
            keys@,
            c,
            pointer_only,
            keys@.len() as int,
        ),
{
    for i in 0..keys.len()
        invariant
            sets@ == with_promoted(graph@, old(sets)@, keys@, c, pointer_only, i as int),
    {
        if keys[i].outer == c {
            let source = inherits_target_of_promoted(graph, keys[i].node);
            let e = MethodSetEntry { name: keys[i].name, source };
            if !pointer_only {
                sets.value_methods.push(e);
            }
            sets.pointer_methods.push(e);
        }
    }
}

/// The method sets of one type.
fn compute_sets_of(graph: &CodeGraph, idx: &PassLocalIndices, c: NodeId) -> (r: Option<
    CandidateMethodSet,
>)
    ensures
        match r {
            Some(s) => method_sets(graph@, idx@, c) == Some(s@),
            None => method_sets(graph@, idx@, c) is None,
        },
{
    let qn: String = match graph.qualified_name_string(c) {
        Some(s) => s,
        None => {
            return None;
        },
    };
    let native = find_method_names_of_type(graph, qn.as_str());
    let mut sets = CandidateMethodSet { value_methods: Vec::new(), pointer_methods: Vec::new() };
    for i in 0..native.len()
        invariant
            sets@ == native_sets(graph@, native@, idx@.outer_value, i as int),
    {
        let m: MethodRef = native[i];
        if !among_promoted(&idx.outer_to_value_promoted, m.node) {
            let e = MethodSetEntry { name: m.name, source: Some(m.node) };
            if find_receiver(graph, m.node) == Receiver::Value {
                sets.value_methods.push(e);
            }
            sets.pointer_methods.push(e);
        }
    }
    add_promoted(graph, &mut sets, &idx.outer_to_value_promoted, c, false);
    add_promoted(graph, &mut sets, &idx.outer_to_pointer_promoted, c, true);
    if kind_of(&graph.nodes, c) == Some(NodeKind::Type) && sets.pointer_methods.len() == 0 {
        return None;
    }
    Some(sets)
}

/// The method sets of each of `candidates`.
pub open spec fn sets_match(
    g: GraphView,
    idx: LocalView,
    candidates: Seq<NodeId>,
    sets: Seq<Option<CandidateMethodSet>>,
) -> bool {
    sets.len() == candidates.len() && forall|i: int|
        0 <= i < sets.len() ==> (match #[trigger] sets[i] {
            Some(s) => method_sets(g, idx, candidates[i]) == Some(s@),
            None => method_sets(g, idx, candidates[i]) is None,
        })
}

/// The method sets of each of `candidates`, declared methods first.
pub fn compute_candidate_method_sets(
    graph: &CodeGraph,
    candidates: &Vec<NodeId>,
    idx: &PassLocalIndices,
) -> (r: Vec<Option<CandidateMethodSet>>)
    ensures
        sets_match(graph@, idx@, candidates@, r@),
{
    let mut out: Vec<Option<CandidateMethodSet>> = Vec::new();
    for i in 0..candidates.len()
        invariant
            out@.len() == i,
            forall|j: int|
                0 <= j < i ==> (match #[trigger] out@[j] {
                    Some(s) => method_sets(graph@, idx@, candidates@[j]) == Some(s@),
                    None => method_sets(graph@, idx@, candidates@[j]) is None,
                }),
    {
        let sets = compute_sets_of(graph, idx, candidates[i]);
        out.push(sets);
    }
    out
}

/// The pointer to a type, by type.
#[derive(Clone, Copy, Debug, PartialEq, Eq, Structural)]
pub struct PointerForm {
    pub of: NodeId,
    pub node: NodeId,
}

/// The pointer to `c` among the first `n` of `forms`.
pub open spec fn form_at(forms: Seq<PointerForm>, c: NodeId, n: int) -> Option<NodeId>
    decreases n,
{
    if n <= 0 {
        None
    } else if forms[n - 1].of == c {
        Some(forms[n - 1].node)
    } else {
        form_at(forms, c, n - 1)
    }
}

fn find_form(forms: &Vec<PointerForm>, c: NodeId) -> (r: Option<NodeId>)
    ensures
        r == form_at(forms@, c, forms@.len() as int),
{
    let mut i: usize = forms.len();
    while i > 0
        invariant
            i <= forms@.len(),
            form_at(forms@, c, forms@.len() as int) == form_at(forms@, c, i as int),
        decreases i,
    {
        if forms[i - 1].of == c {
            return Some(forms[i - 1].node);
        }
        i = i - 1;
    }
    None
}

/// The first synthetic type node at or after position `i` of `nodes`.
pub open spec fn synthetic_type_from(g: GraphView, nodes: Seq<NodeId>, i: int) -> Option<NodeId>
    decreases nodes.len() - i,
{
    if i < 0 || i >= nodes.len() {
        None
    } else if live_kind(g.nodes, nodes[i]) == Some(NodeKind::Type) && g.metadata.is_synthetic(
        nodes[i],
    ) {
        Some(nodes[i])
    } else {
        synthetic_type_from(g, nodes, i + 1)
    }
}

fn find_synthetic_type(graph: &CodeGraph, qn: StringId) -> (r: Option<NodeId>)
    requires
        graph.wf(),
    ensures
        r == synthetic_type_from(graph@, named(graph@, qn), 0),
{
    let nodes = graph.indices.by_qualified_name(qn);
    for i in 0..nodes.len()
        invariant
            graph.wf(),
            nodes@ == named(graph@, qn),
            synthetic_type_from(graph@, nodes@, 0) == synthetic_type_from(
                graph@,
                nodes@,
                i as int,
            ),
    {
        if kind_of(&graph.nodes, nodes[i]) == Some(NodeKind::Type)
            && graph.macro_metadata.is_synthetic(nodes[i]) {
            return Some(nodes[i]);
        }
    }
    None
}

/// A graph while pointers to types are being made.
pub struct PointerState {
    pub g: GraphView,
    pub forms: Seq<PointerForm>,
    /// Nodes made so far.
    pub fresh: Seq<NodeId>,
}

/// The state with a type node for the pointer to `c`, made or found.
pub open spec fn with_pointer_form(
    st: PointerState,
    idx: LocalView,
    c: NodeId,
    file: FileId,
) -> (PointerState, Option<NodeId>) {
    match form_at(st.forms, c, st.forms.len() as int) {
        Some(node) => (st, Some(node)),
        None => match st.g.qn(c) {
            None => (st, None),
            Some(qn) => match split_qn(qn) {
                None => (st, None),
                Some(p) => pointer_form_in(st, idx, c, file, p.0, p.1),
            },
        },
    }
}

/// The state with a type node for the pointer to `c`, which is `short` in `package`.
pub open spec fn pointer_form_in(
    st: PointerState,
    idx: LocalView,
    c: NodeId,
    file: FileId,
    package: Seq<char>,
    short: Seq<char>,
) -> (PointerState, Option<NodeId>) {
    let s0 = st.g.strings;
    let s1 = s0.interned(package);
    let s2 = s1.interned(short);
    let g2 = GraphView { strings: s2, ..st.g };
    if !s0.can_intern(package) {
        (st, None)
    } else if !s1.can_intern(short) {
        (PointerState { g: GraphView { strings: s1, ..st.g }, ..st }, None)
    } else {
        match pointer_type_at(
            idx.pointer_type,
            s0.intern_id(package),
            s1.intern_id(short),
            idx.pointer_type.len() as int,
        ) {
            Some(node) => (
                PointerState { g: g2, forms: st.forms.push(PointerForm { of: c, node }), ..st },
                Some(node),
            ),
            None => {
                let name = pointer_name(package, short);
                let qn = s2.intern_id(name);
                let g3 = GraphView { strings: s2.interned(name), ..st.g };
                let m = minted(g3, NodeKind::Type, short, qn, file);
                if !s2.can_intern(name) {
                    (PointerState { g: g2, ..st }, None)
                } else {
                    match synthetic_type_from(g3, named(g3, qn), 0) {
                        Some(node) => (
                            PointerState {
                                g: g3,
                                forms: st.forms.push(PointerForm { of: c, node }),
                                ..st
                            },
                            Some(node),
                        ),
                        None => match m.id {
                            None => (PointerState { g: m.g, ..st }, None),
                            Some(node) => (
                                PointerState {
                                    g: with_edge(m.g, node, c, EdgeKind::Inherits, file),
                                    forms: st.forms.push(PointerForm { of: c, node }),
                                    fresh: st.fresh.push(node),
                                },
                                Some(node),
                            ),
                        },
                    }
                }
            },
        }
    }
}

/// Makes or finds the type node of the pointer to `c`. One that promotion has made, or
/// an earlier run, is used again; a new one inherits from `c`.
pub fn materialise_pointer_form_for_c(
    graph: &mut CodeGraph,
    c: NodeId,
    file: FileId,
    forms: &mut Vec<PointerForm>,
    idx: &PassLocalIndices,
    fresh: &mut Vec<NodeId>,
) -> (r: Option<NodeId>)
    requires
        old(graph).wf(),
    ensures
        final(graph).wf(),
        (PointerState { g: final(graph)@, forms: final(forms)@, fresh: final(fresh)@ }, r)
            == with_pointer_form(
            PointerState { g: old(graph)@, forms: old(forms)@, fresh: old(fresh)@ },
            idx@,
            c,
            file,
        ),
{
    match find_form(forms, c) {
        Some(node) => {
            return Some(node);
        },
        None => {},
    }
    let qn: String = match graph.qualified_name_string(c) {
        Some(s) => s,
        None => {
            return None;
        },
    };
    let (package, short) = match split_qn_into_package_and_name(qn.as_str()) {
        Some(p) => p,
        None => {
            return None;
        },
    };
    let package_id: StringId = match graph.strings.intern(package.as_str()) {
        Ok(id) => id,
        Err(_) => {
            return None;
        },
    };
    let short_id: StringId = match graph.strings.intern(short.as_str()) {
        Ok(id) => id,
        Err(_) => {
            return None;
        },
    };
    match find_pointer_type(&idx.pointer_type, package_id, short_id) {
        Some(node) => {
            forms.push(PointerForm { of: c, node });
            return Some(node);
        },
        None => {},
    }
    let mut name: String = package.clone();
    name.append("::*");
    name.append(short.as_str());
    let name_id: StringId = match graph.strings.intern(name.as_str()) {
        Ok(id) => id,
        Err(_) => {
            return None;
        },
    };
    match find_synthetic_type(graph, name_id) {
        Some(node) => {
            forms.push(PointerForm { of: c, node });
            return Some(node);
        },
        None => {},
    }
    let made = mint_synthetic_node(graph, NodeKind::Type, short.as_str(), name_id, file);
    let node: NodeId = match made {
        Some(n) => n,
        None => {
            return None;
        },
    };
    graph.edges.add_edge(node, c, EdgeKind::Inherits, file);
    fresh.push(node);
    forms.push(PointerForm { of: c, node });
    Some(node)
}

/// An implementation edge, not yet in the graph.
#[derive(Clone, Copy, Debug, PartialEq, Eq, Structural)]
pub struct PendingImplements {
    pub source: NodeId,
    pub target: NodeId,
    pub file: FileId,
    /// Whether the source is the pointer to a type.
    pub pointer: bool,
    /// Whether the type itself does not satisfy the interface.
    pub pointer_only: bool,
}

/// Implementation edges sort by source, then by target, types before pointers.
impl Ranked for PendingImplements {
    open spec fn ranks_before(self, other: PendingImplements) -> bool {
        self.source.index < other.source.index || (self.source.index == other.source.index && (
        self.target.index < other.target.index || (self.target.index == other.target.index
            && !self.pointer && other.pointer)))
    }

    open spec fn same_rank(self, other: PendingImplements) -> bool {
        self.source.index == other.source.index && self.target.index == other.target.index
            && self.pointer == other.pointer
    }

    fn is_ranked_before(&self, other: &PendingImplements) -> (r: bool) {
        self.source.index < other.source.index || (self.source.index == other.source.index && (
        self.target.index < other.target.index || (self.target.index == other.target.index
            && !self.pointer && other.pointer)))
    }

    fn is_same_rank(&self, other: &PendingImplements) -> (r: bool) {
        self.source.index == other.source.index && self.target.index == other.target.index
            && self.pointer == other.pointer
    }
}

/// A graph while types are held against interfaces.
pub struct PairState {
    pub st: PointerState,
    pub pending: Seq<PendingImplements>,
}

/// The state after type `c`, with method sets `sets`, was held against one interface.
/// `judge` is the graph from which signatures are read.
pub open spec fn with_pair(
    judge: GraphView,
    p: PairState,
    idx: LocalView,
    c: NodeId,
    file: FileId,
    sets: SetsView,
    i: InterfaceView,
) -> PairState {
    let by_value = satisfies(judge, sets.value, i.required);
    let by_pointer = satisfies(judge, sets.pointer, i.required);
    if i.node == c || (!by_value && !by_pointer) {
        p
    } else {
        let f = with_pointer_form(p.st, idx, c, file);
        let first = if by_value {
            p.pending.push(
                PendingImplements {
                    source: c,
                    target: i.node,
                    file,
                    pointer: false,
                    pointer_only: false,
                },
            )
        } else {
            p.pending
        };
        PairState {
            st: f.0,
            pending: match f.1 {
                Some(node) => first.push(
                    PendingImplements {
                        source: node,
                        target: i.node,
                        file,
                        pointer: true,
                        pointer_only: !by_value,
                    },
                ),
                None => first,
            },
        }
    }
}

/// The state after type `c` was held against the first `n` interfaces.
pub open spec fn with_type(
    judge: GraphView,
    p: PairState,
    idx: LocalView,
    c: NodeId,
    file: FileId,
    sets: SetsView,
    interfaces: Seq<InterfaceView>,
    n: int,
) -> PairState
    decreases n,
{
    if n <= 0 {
        p
    } else {
        with_pair(
            judge,
            with_type(judge, p, idx, c, file, sets, interfaces, n - 1),
            idx,
            c,
            file,
            sets,
            interfaces[n - 1],
        )
    }
}

/// The state after the first `n` types were held against all interfaces.
pub open spec fn with_types(
    judge: GraphView,
    p: PairState,
    idx: LocalView,
    types: Seq<NodeId>,
    interfaces: Seq<InterfaceView>,
    n: int,
) -> PairState
    decreases n,
{
    if n <= 0 {
        p
    } else {
        let before = with_types(judge, p, idx, types, interfaces, n - 1);
        let c = types[n - 1];
        match method_sets(judge, idx, c) {
            Some(sets) => with_type(
                judge,
                before,
                idx,
                c,
                file_of(before.st.g, c),
                sets,
                interfaces,
                interfaces.len() as int,
            ),
            None => before,
        }
    }
}

/// How many of the first `n` types have method sets.
pub open spec fn types_with_sets(g: GraphView, idx: LocalView, types: Seq<NodeId>, n: int) -> nat
    decreases n,
{
    if n <= 0 {
        0
    } else {
        types_with_sets(g, idx, types, n - 1) + (if method_sets(g, idx, types[n - 1]) is Some {
            1nat
        } else {
            0nat
        })
    }
}

/// Implementation edges in order, each source, target and form once.
pub open spec fn distinct_implements(pending: Seq<PendingImplements>) -> Seq<PendingImplements> {
    let s = sorted(pending);
    deduped(s, s.len() as int)
}

/// The store with the first `n` implementation edges added.
pub open spec fn with_implements(store: StoreView, pending: Seq<PendingImplements>, n: int) -> StoreView
    decreases n,
{
    if n <= 0 {
        store
    } else {
        let p = pending[n - 1];
        with_implements(store, pending, n - 1).added(
            p.source,
            p.target,
            EdgeKind::Implements,
            p.file,
            Seq::empty(),
        )
    }
}

/// How many of the first `n` edges start at a type.
pub open spec fn value_count(pending: Seq<PendingImplements>, n: int) -> nat
    decreases n,
{
    if n <= 0 {
        0
    } else {
        value_count(pending, n - 1) + (if pending[n - 1].pointer {
            0nat
        } else {
            1nat
        })
    }
}

/// How many of the first `n` edges start at a pointer whose type does not satisfy the
/// interface itself.
pub open spec fn pointer_count(pending: Seq<PendingImplements>, n: int) -> nat
    decreases n,
{
    if n <= 0 {
        0
    } else {
        pointer_count(pending, n - 1) + (if pending[n - 1].pointer && pending[n - 1].pointer_only {
            1nat
        } else {
            0nat
        })
    }
}

/// What comes of holding every type against every interface.
pub open spec fn judged(g: GraphView, idx: LocalView) -> PairState {
    let types = candidate_types(g);
    with_types(
        g,
        PairState {
            st: PointerState { g, forms: Seq::empty(), fresh: Seq::empty() },
            pending: Seq::empty(),
        },
        idx,
        types,
        interface_sets(g),
        types.len() as int,
    )
}

/// The implementation edges that the pass adds.
pub open spec fn implements_edges(g: GraphView, idx: LocalView) -> Seq<PendingImplements> {
    distinct_implements(judged(g, idx).pending)
}

/// The graph with its implementation edges added.
pub open spec fn satisfied(g: GraphView, idx: LocalView) -> GraphView {
    let h = judged(g, idx).st.g;
    let p = implements_edges(g, idx);
    GraphView { edges: with_implements(h.edges, p, p.len() as int), ..h }
}

/// How many pairs of type and interface are looked at.
pub open spec fn pairs_examined(g: GraphView, idx: LocalView) -> nat {
    let types = candidate_types(g);
    types_with_sets(g, idx, types, types.len() as int) * interface_sets(g).len()
}

/// `a + n`, at most the largest count.
pub open spec fn counted_up_64(a: u64, n: nat) -> u64 {
    if a + n > u64::MAX {
        u64::MAX
    } else {
        (a + n) as u64
    }
}

/// Counts `a` up by one, at most to the largest count.
fn count_up_64(a: u64) -> (r: u64)
    ensures
        r == counted_up_64(a, 1),
{
    if a < u64::MAX {
        a + 1
    } else {
        u64::MAX
    }
}

proof fn lemma_set_has_by_hints(g: GraphView, h: GraphView, set: Seq<MethodSetEntry>, want: MethodSetEntry)
    requires
        g.hints == h.hints,
    ensures
        set_has(g, set, want) == set_has(h, set, want),
{
    assert forall|i: int| 0 <= i < set.len() implies #[trigger] entry_matches(g, set[i], want)
        == entry_matches(h, set[i], want) by {}
    if set_has(g, set, want) {
        let i = choose|i: int| 0 <= i < set.len() && #[trigger] entry_matches(g, set[i], want);
        assert(entry_matches(h, set[i], want));
    }
    if set_has(h, set, want) {
        let i = choose|i: int| 0 <= i < set.len() && #[trigger] entry_matches(h, set[i], want);
        assert(entry_matches(g, set[i], want));
    }
}

proof fn lemma_satisfies_by_hints(
    g: GraphView,
    h: GraphView,
    set: Seq<MethodSetEntry>,
    required: Seq<MethodSetEntry>,
)
    requires
        g.hints == h.hints,
    ensures
        satisfies(g, set, required) == satisfies(h, set, required),
{
    assert forall|i: int| 0 <= i < required.len() implies set_has(g, set, #[trigger] required[i])
        == set_has(h, set, required[i]) by {
        lemma_set_has_by_hints(g, h, set, required[i]);
    }
}

fn hold_type_against_interfaces(
    graph: &mut CodeGraph,
    c: NodeId,
    sets: &CandidateMethodSet,
    interfaces: &Vec<InterfaceSet>,
    forms: &mut Vec<PointerForm>,
    idx: &PassLocalIndices,
    fresh: &mut Vec<NodeId>,
    pending: &mut Vec<PendingImplements>,
    examined: &mut u64,
    Ghost(judge): Ghost<GraphView>,
)
    requires
        old(graph).wf(),
        old(graph)@.hints == judge.hints,
    ensures
        final(graph).wf(),
        final(graph)@.hints == judge.hints,
        (PairState {
            st: PointerState { g: final(graph)@, forms: final(forms)@, fresh: final(fresh)@ },
            pending: final(pending)@,
        }) == with_type(
            judge,
            PairState {
                st: PointerState { g: old(graph)@, forms: old(forms)@, fresh: old(fresh)@ },
                pending: old(pending)@,
            },
            idx@,
            c,
            file_of(old(graph)@, c),
            sets@,
            interface_views(interfaces@),
            interfaces@.len() as int,
        ),
        *final(examined) == counted_up_64(*old(examined), interfaces@.len()),
{
    let file: FileId = find_file(graph, c);
    let ghost p0 = PairState {
        st: PointerState { g: graph@, forms: forms@, fresh: fresh@ },
        pending: pending@,
    };
    for k in 0..interfaces.len()
        invariant
            graph.wf(),
            graph@.hints == judge.hints,
            file == file_of(p0.st.g, c),
            (PairState {
                st: PointerState { g: graph@, forms: forms@, fresh: fresh@ },
                pending: pending@,
            }) == with_type(
                judge,
                p0,
                idx@,
                c,
                file,
                sets@,
                interface_views(interfaces@),
                k as int,
            ),
            *examined == counted_up_64(*old(examined), k as nat),
    {
        *examined = count_up_64(*examined);
        assert(interface_views(interfaces@)[k as int] == interfaces@[k as int]@);
        let target: NodeId = interfaces[k].node;
        if target != c {
            proof {
                lemma_satisfies_by_hints(
                    graph@,
                    judge,
                    sets@.value,
                    interfaces@[k as int].required@,
                );
                lemma_satisfies_by_hints(
                    graph@,
                    judge,
                    sets@.pointer,
                    interfaces@[k as int].required@,
                );
            }
            let by_value: bool = sets.value_satisfies(graph, &interfaces[k].required);
            let by_pointer: bool = sets.pointer_satisfies(graph, &interfaces[k].required);
            if by_value {
                pending.push(
                    PendingImplements {
                        source: c,
                        target,
                        file,
                        pointer: false,
                        pointer_only: false,
                    },
                );
            }
            if by_value || by_pointer {
                let made = materialise_pointer_form_for_c(graph, c, file, forms, idx, fresh);
                match made {
                    Some(node) => {
                        pending.push(
                            PendingImplements {
                                source: node,
                                target,
                                file,
                                pointer: true,
                                pointer_only: !by_value,
                            },
                        );
                    },
                    None => {},
                }
            }
        }
    }
}

fn emit_implements(
    graph: &mut CodeGraph,
    pending: &Vec<PendingImplements>,
    value: &mut u32,
    pointer: &mut u32,
)
    requires
        old(graph).wf(),
    ensures
        final(graph).wf(),
        final(graph)@ == (GraphView {
            edges: with_implements(old(graph)@.edges, pending@, pending@.len() as int),
            ..old(graph)@
        }),
        *final(value) == counted_up(*old(value), value_count(pending@, pending@.len() as int)),
        *final(pointer) == counted_up(
            *old(pointer),
            pointer_count(pending@, pending@.len() as int),
        ),
{
    for i in 0..pending.len()
        invariant
            graph.wf(),
            graph@ == (GraphView {
                edges: with_implements(old(graph)@.edges, pending@, i as int),
                ..old(graph)@
            }),
            *value == counted_up(*old(value), value_count(pending@, i as int)),
            *pointer == counted_up(*old(pointer), pointer_count(pending@, i as int)),
    {
        let p: PendingImplements = pending[i];
        graph.edges.add_edge(p.source, p.target, EdgeKind::Implements, p.file);
        if !p.pointer {
            *value = count_up(*value);
        } else if p.pointer_only {
            *pointer = count_up(*pointer);
        }
    }
}

/// Holds every type against every interface and adds an implementation edge for each
/// that is satisfied: from the type where its own methods suffice, and from the pointer
/// to it where the methods of the pointer do. An interface that requires nothing is left
/// out, and no type is held against itself.
pub fn run_t1_1_satisfaction(
    graph: &mut CodeGraph,
    idx: &PassLocalIndices,
    fresh: &mut Vec<NodeId>,
    value: &mut u32,
    pointer: &mut u32,
    examined: &mut u64,
)
    requires
        old(graph).wf(),
    ensures
        final(graph).wf(),
        final(graph)@ == satisfied(old(graph)@, idx@),
        final(fresh)@ == old(fresh)@ + judged(old(graph)@, idx@).st.fresh,
        *final(value) == counted_up(
            *old(value),
            value_count(
                implements_edges(old(graph)@, idx@),
                implements_edges(old(graph)@, idx@).len() as int,
            ),
        ),
        *final(pointer) == counted_up(
            *old(pointer),
            pointer_count(
                implements_edges(old(graph)@, idx@),
                implements_edges(old(graph)@, idx@).len() as int,
            ),
        ),
        *final(examined) == counted_up_64(*old(examined), pairs_examined(old(graph)@, idx@)),
{
    let ghost g = graph@;
    let interfaces = collect_interface_method_sets(graph);
    let types = collect_candidate_types(graph);
    let sets = compute_candidate_method_sets(graph, &types, idx);
    let mut pending: Vec<PendingImplements> = Vec::new();
    let mut forms: Vec<PointerForm> = Vec::new();
    let mut made: Vec<NodeId> = Vec::new();
    let ghost views = interface_views(interfaces@);
    let ghost p0 = PairState {
        st: PointerState { g, forms: Seq::empty(), fresh: Seq::empty() },
        pending: Seq::empty(),
    };
    let ghost m = views.len();
    proof {
        assert(0 * m == 0) by (nonlinear_arith);
    }
    for i in 0..types.len()
        invariant
            graph.wf(),
            graph@.hints == g.hints,
            sets_match(g, idx@, types@, sets@),
            views == interface_views(interfaces@),
            m == interfaces@.len(),
            (PairState {
                st: PointerState { g: graph@, forms: forms@, fresh: made@ },
                pending: pending@,
            }) == with_types(g, p0, idx@, types@, views, i as int),
            fresh@ == old(fresh)@,
            *examined == counted_up_64(
                *old(examined),
                types_with_sets(g, idx@, types@, i as int) * m,
            ),
    {
        let ghost t = types_with_sets(g, idx@, types@, i as int);
        proof {
            assert((t + 1) * m == t * m + m) by (nonlinear_arith);
        }
        match &sets[i] {
            Some(s) => {
                hold_type_against_interfaces(
                    graph,
                    types[i],
                    s,
                    &interfaces,
                    &mut forms,
                    idx,
                    &mut made,
                    &mut pending,
                    examined,
                    Ghost(g),
                );
            },
            None => {},
        }
    }
    fresh.append(&mut made);
    let ordered = stable_sort(pending);
    let distinct = dedup_neighbours(&ordered);
    emit_implements(graph, &distinct, value, pointer);
}

} // verus!
