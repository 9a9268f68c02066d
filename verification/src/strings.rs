//! The string interner and the tables that renumber interned strings.
use std::collections::HashMap;
use vstd::prelude::*;

use crate::ids::StringId;
use crate::text::same_text;

verus! {

/// No further string can be numbered.
#[derive(Clone, Copy, Debug, PartialEq, Eq, Structural)]
pub struct InternerFull;

/// Interned strings with their reference counts. Slot zero stays empty.
pub struct StringInterner {
    pub slots: Vec<Option<String>>,
    pub refs: Vec<u32>,
}

/// Contents of an interner.
pub struct InternerView {
    /// Text of each slot.
    pub text: Seq<Option<Seq<char>>>,
    /// Reference count of each slot.
    pub refs: Seq<u32>,
}

/// Text of an optional string.
pub open spec fn text_of(s: Option<String>) -> Option<Seq<char>> {
    match s {
        Some(t) => Some(t@),
        None => None,
    }
}

/// Texts of optional strings.
pub open spec fn texts_of(s: Seq<Option<String>>) -> Seq<Option<Seq<char>>> {
    Seq::new(s.len(), |i: int| text_of(s[i]))
}

impl View for StringInterner {
    type V = InternerView;

    open spec fn view(&self) -> InternerView {
        InternerView { text: texts_of(self.slots@), refs: self.refs@ }
    }
}

/// The slot of the first occurrence of `s` at or after slot `i`.
pub open spec fn slot_from(text: Seq<Option<Seq<char>>>, s: Seq<char>, i: int) -> Option<int>
    decreases text.len() - i,
{
    if i < 0 || i >= text.len() {
        None
    } else if text[i] == Some(s) {
        Some(i)
    } else {
        slot_from(text, s, i + 1)
    }
}

impl InternerView {
    /// Every slot has a reference count, and slots can be numbered.
    pub open spec fn wf(self) -> bool {
        self.text.len() == self.refs.len() && 1 <= self.text.len() <= 0x8000_0000
    }

    /// The text that `id` names.
    pub open spec fn resolve(self, id: StringId) -> Option<Seq<char>> {
        if id.0 < self.text.len() {
            self.text[id.0 as int]
        } else {
            None
        }
    }

    /// The identity of `s`, if it is interned.
    pub open spec fn get(self, s: Seq<char>) -> Option<StringId> {
        match slot_from(self.text, s, 0) {
            Some(i) => Some(StringId(i as u32)),
            None => None,
        }
    }

    /// Whether `s` is interned or another slot can be numbered.
    pub open spec fn can_intern(self, s: Seq<char>) -> bool {
        self.get(s) is Some || self.text.len() < 0x8000_0000
    }

    /// The identity that interning `s` returns.
    pub open spec fn intern_id(self, s: Seq<char>) -> StringId {
        match self.get(s) {
            Some(id) => id,
            None => StringId(self.text.len() as u32),
        }
    }

    /// The interner after `s` was interned.
    pub open spec fn interned(self, s: Seq<char>) -> InternerView {
        match slot_from(self.text, s, 0) {
            Some(i) => InternerView {
                refs: self.refs.update(
                    i,
                    if self.refs[i] < u32::MAX {
                        (self.refs[i] + 1) as u32
                    } else {
                        u32::MAX
                    },
                ),
                ..self
            },
            None => if self.text.len() < 0x8000_0000 {
                InternerView { text: self.text.push(Some(s)), refs: self.refs.push(1) }
            } else {
                self
            },
        }
    }
}

pub(crate) proof fn lemma_slot_from(text: Seq<Option<Seq<char>>>, s: Seq<char>, i: int)
    requires
        0 <= i,
    ensures
        slot_from(text, s, i) matches Some(k) ==> i <= k < text.len() && text[k] == Some(s),
        slot_from(text, s, i) is None ==> forall|k: int| i <= k < text.len() ==> text[k] != Some(s),
    decreases text.len() - i,
{
    if i < text.len() && text[i] != Some(s) {
        lemma_slot_from(text, s, i + 1);
    }
}

pub(crate) proof fn lemma_slot_from_push(text: Seq<Option<Seq<char>>>, s: Seq<char>, i: int)
    requires
        0 <= i <= text.len(),
        forall|k: int| i <= k < text.len() ==> text[k] != Some(s),
    ensures
        slot_from(text.push(Some(s)), s, i) == Some(text.len() as int),
    decreases text.len() - i,
{
    if i < text.len() {
        lemma_slot_from_push(text, s, i + 1);
    }
}

/// An interned string resolves to itself, and looking it up finds it.
pub proof fn law_interned_reads_back(v: InternerView, s: Seq<char>)
    requires
        v.wf(),
        v.can_intern(s),
    ensures
        v.interned(s).wf(),
        v.interned(s).resolve(v.intern_id(s)) == Some(s),
        v.interned(s).get(s) == Some(v.intern_id(s)),
{
    lemma_slot_from(v.text, s, 0);
    if slot_from(v.text, s, 0) is None {
        lemma_slot_from_push(v.text, s, 0);
    }
}

/// An identity that resolved keeps its string when another one is interned.
pub proof fn law_interning_keeps_strings(v: InternerView, s: Seq<char>, id: StringId)
    requires
        v.wf(),
        v.resolve(id) is Some,
    ensures
        v.interned(s).wf(),
        v.interned(s).resolve(id) == v.resolve(id),
{
    lemma_slot_from(v.text, s, 0);
}

impl StringInterner {
    /// Slots and reference counts go together.
    pub open spec fn wf(&self) -> bool {
        self@.wf()
    }

    /// An interner that holds no string.
    pub fn new() -> (r: StringInterner)
        ensures
            r.wf(),
            r@.text == seq![None::<Seq<char>>],
            r@.refs == seq![0u32],
    {
        let mut slots: Vec<Option<String>> = Vec::new();
        slots.push(None);
        let mut refs: Vec<u32> = Vec::new();
        refs.push(0);
        let r = StringInterner { slots, refs };
        proof {
            assert(r@.text =~= seq![None::<Seq<char>>]);
            assert(r@.refs =~= seq![0u32]);
        }
        r
    }

    /// The text that `id` names.
    pub fn resolve(&self, id: StringId) -> (r: Option<String>)
        ensures
            text_of(r) == self@.resolve(id),
    {
        let i: usize = id.0 as usize;
        if i < self.slots.len() {
            match &self.slots[i] {
                Some(s) => Some(s.clone()),
                None => None,
            }
        } else {
            None
        }
    }

    /// The slot that holds `s`.
    fn slot_of(&self, s: &str) -> (r: Option<usize>)
        ensures
            match r {
                Some(i) => slot_from(self@.text, s@, 0) == Some(i as int) && i < self@.text.len(),
                None => slot_from(self@.text, s@, 0) is None,
            },
    {
        for i in 0..self.slots.len()
            invariant
                slot_from(self@.text, s@, 0) == slot_from(self@.text, s@, i as int),
        {
            let hit: bool = match &self.slots[i] {
                Some(t) => same_text(t.as_str(), s),
                None => false,
            };
            if hit {
                return Some(i);
            }
        }
        None
    }

    /// The identity of `s`, if it is interned.
    pub fn get(&self, s: &str) -> (r: Option<StringId>)
        requires
            self.wf(),
        ensures
            r == self@.get(s@),
    {
        match self.slot_of(s) {
            Some(i) => Some(StringId(i as u32)),
            None => None,
        }
    }

    /// Interns `s` and returns its identity.
    pub fn intern(&mut self, s: &str) -> (r: Result<StringId, InternerFull>)
        requires
            old(self).wf(),
        ensures
            final(self).wf(),
            final(self)@ == old(self)@.interned(s@),
            match r {
                Ok(id) => old(self)@.can_intern(s@) && id == old(self)@.intern_id(s@),
                Err(_) => !old(self)@.can_intern(s@),
            },
    {
        let ghost before = self@;
        match self.slot_of(s) {
            Some(i) => {
                let n: u32 = self.refs[i];
                let next: u32 = if n < u32::MAX {
                    n + 1
                } else {
                    u32::MAX
                };
                self.refs.set(i, next);
                Ok(StringId(i as u32))
            },
            None => {
                let n: usize = self.slots.len();
                if n >= 0x8000_0000 {
                    return Err(InternerFull);
                }
                self.slots.push(Some(s.to_owned()));
                self.refs.push(1);
                proof {
                    assert(self@.text =~= before.text.push(Some(s@)));
                }
                Ok(StringId(n as u32))
            },
        }
    }

    /// Appends `count` empty slots; returns the first index.
    pub fn alloc_range(&mut self, count: u32) -> (r: Result<u32, InternerFull>)
        requires
            old(self).wf(),
        ensures
            final(self).wf(),
            match r {
                Ok(start) => old(self)@.text.len() + count <= 0x8000_0000 && start
                    == old(self)@.text.len() && final(self)@.text == old(self)@.text + Seq::new(
                    count as nat,
                    |i: int| None::<Seq<char>>,
                ) && final(self)@.refs == old(self)@.refs + Seq::new(count as nat, |i: int| 0u32),
                Err(_) => old(self)@.text.len() + count > 0x8000_0000 && final(self)@ == old(
                    self,
                )@,
            },
    {
        let n: usize = self.slots.len();
        if count > 0x8000_0000u32 - n as u32 {
            return Err(InternerFull);
        }
        let ghost before = self@;
        for i in 0..count
            invariant
                before.wf(),
                self@.text == before.text + Seq::new(i as nat, |j: int| None::<Seq<char>>),
                self@.refs == before.refs + Seq::new(i as nat, |j: int| 0u32),
        {
            let ghost mid = self@.text;
            self.slots.push(None);
            self.refs.push(0);
            proof {
                assert(self@.text =~= mid.push(None));
                assert(self@.text =~= before.text + Seq::new(
                    (i + 1) as nat,
                    |j: int| None::<Seq<char>>,
                ));
                assert(self@.refs =~= before.refs + Seq::new((i + 1) as nat, |j: int| 0u32));
            }
        }
        Ok(n as u32)
    }
}

/// A renumbering of interned strings.
pub struct StringRemap {
    pub table: HashMap<u32, u32>,
}

impl View for StringRemap {
    type V = Map<u32, u32>;

    open spec fn view(&self) -> Map<u32, u32> {
        self.table@
    }
}

/// What `id` becomes: its new number, or itself where it has none.
pub open spec fn renumbered(remap: Map<u32, u32>, id: StringId) -> StringId {
    if remap.dom().contains(id.0) {
        StringId(remap[id.0])
    } else {
        id
    }
}

/// What an optional identity becomes.
pub open spec fn renumbered_option(remap: Map<u32, u32>, id: Option<StringId>) -> Option<StringId> {
    match id {
        Some(i) => Some(renumbered(remap, i)),
        None => None,
    }
}

impl StringRemap {
    /// A renumbering that changes nothing.
    pub fn new() -> (r: StringRemap)
        ensures
            r@ == Map::<u32, u32>::empty(),
    {
        broadcast use vstd::std_specs::hash::group_hash_axioms;

        StringRemap { table: HashMap::new() }
    }

    /// Lets `from` become `to`.
    pub fn insert(&mut self, from: StringId, to: StringId)
        ensures
            final(self)@ == old(self)@.insert(from.0, to.0),
    {
        broadcast use vstd::std_specs::hash::group_hash_axioms;

        self.table.insert(from.0, to.0);
    }

    /// The new number of `id`.
    pub fn get(&self, id: &StringId) -> (r: Option<StringId>)
        ensures
            match r {
                Some(to) => self@.dom().contains(id.0) && to.0 == self@[id.0],
                None => !self@.dom().contains(id.0),
            },
    {
        broadcast use vstd::std_specs::hash::group_hash_axioms;

        match self.table.get(&id.0) {
            Some(to) => Some(StringId(*to)),
            None => None,
        }
    }

    /// Whether no string is renumbered.
    pub fn is_empty(&self) -> (r: bool)
        ensures
            r == (self@ == Map::<u32, u32>::empty()),
    {
        broadcast use vstd::std_specs::hash::group_hash_axioms;

        let n: usize = self.table.len();
        proof {
            if self@.dom().len() == 0 {
                assert(self@ =~= Map::<u32, u32>::empty());
            }
        }
        n == 0
    }
}

} // verus!
