use std::cmp::Ordering;
use vstd::prelude::*;
use vstd::std_specs::convert::IntoSpec;

use crate::bytes::{bytes_wire, Bytes, StaticBytes};
use crate::canonical::{compare_keys, key_lt, lemma_key_order};
use crate::identifier::{identifier_wire, Identifier};
use crate::wire::{canonical_entries, wire_keys_ascending, Wire, WireValue};

verus! {

/// The dynamic value tree: one leaf or container kind per variant.
#[derive(Debug, PartialEq)]
pub enum DocumentValue {
    Bool(bool),
    String(String),
    /// The IEEE 754 bit pattern of a 64-bit float; floats compare by it.
    Float(u64),
    Integer(i64),
    UInteger(u64),
    Version(u32),
    /// A mapping from string keys to values; see [`ValueMap`].
    Dict(ValueMap),
    Array(Vec<DocumentValue>),
    Identifier(Identifier),
    Bytes(Bytes),
    StaticBytes(StaticBytes<32>),
    Null,
}

/// A mapping from string keys to values, with unique keys.
///
/// Which key was inserted first carries no meaning: the entries are always
/// held in the canonical key order, so two maps with the same key→value
/// pairs are the same map.
#[derive(Debug, PartialEq)]
pub struct ValueMap {
    entries: Vec<(String, DocumentValue)>,
}

/// Keys ascend strictly in the canonical key order, so none repeats.
pub open spec fn keys_ascending(s: Seq<(String, DocumentValue)>) -> bool {
    forall|i: int, j: int| 0 <= i < j < s.len() ==> key_lt(#[trigger] s[i].0@, #[trigger] s[j].0@)
}

/// The key→value mapping that a sequence of entries with unique keys holds.
pub open spec fn entries_map(s: Seq<(String, DocumentValue)>) -> Map<Seq<char>, DocumentValue> {
    Map::new(
        |k: Seq<char>| exists|i: int| 0 <= i < s.len() && #[trigger] s[i].0@ == k,
        |k: Seq<char>| s[choose|i: int| 0 <= i < s.len() && #[trigger] s[i].0@ == k].1,
    )
}

/// In ascending entries, the mapping holds each entry's value under its key.
proof fn lemma_entries_map_at(s: Seq<(String, DocumentValue)>, i: int)
    requires
        keys_ascending(s),
        0 <= i < s.len(),
    ensures
        entries_map(s).contains_key(s[i].0@),
        entries_map(s)[s[i].0@] == s[i].1,
{
    let k = s[i].0@;
    assert(exists|j: int| 0 <= j < s.len() && #[trigger] s[j].0@ == k);
    let j = choose|j: int| 0 <= j < s.len() && #[trigger] s[j].0@ == k;
    lemma_key_order(k, k, k);
    if j < i {
        assert(key_lt(s[j].0@, s[i].0@));
    } else if i < j {
        assert(key_lt(s[i].0@, s[j].0@));
    }
}

/// Setting the value of an entry is inserting that value under its key.
proof fn lemma_entries_map_set_value(s: Seq<(String, DocumentValue)>, p: int, x: DocumentValue)
    requires
        keys_ascending(s),
        0 <= p < s.len(),
    ensures
        entries_map(s.update(p, (s[p].0, x))) == entries_map(s).insert(s[p].0@, x),
{
    let t = s.update(p, (s[p].0, x));
    assert(keys_ascending(t)) by {
        assert forall|i: int, j: int| 0 <= i < j < t.len() implies key_lt(
            #[trigger] t[i].0@,
            #[trigger] t[j].0@,
        ) by {
            assert(key_lt(s[i].0@, s[j].0@));
        }
    }
    lemma_entries_map_at(t, p);
    assert forall|k: Seq<char>| k != s[p].0@ implies (#[trigger] entries_map(t).contains_key(k)
        <==> entries_map(s).contains_key(k)) && (entries_map(t).contains_key(k) ==> entries_map(
        t,
    )[k] == entries_map(s)[k]) by {
        if entries_map(t).contains_key(k) {
            let j = choose|j: int| 0 <= j < t.len() && #[trigger] t[j].0@ == k;
            lemma_entries_map_at(t, j);
            lemma_entries_map_at(s, j);
        }
        if entries_map(s).contains_key(k) {
            let j = choose|j: int| 0 <= j < s.len() && #[trigger] s[j].0@ == k;
            lemma_entries_map_at(s, j);
            lemma_entries_map_at(t, j);
        }
    }
    assert(entries_map(t) =~= entries_map(s).insert(s[p].0@, x));
}

/// Lends the value of entry `i`; the entry's key stays as it is.
fn value_slot(entries: &mut Vec<(String, DocumentValue)>, i: usize) -> (r: &mut DocumentValue)
    requires
        i < old(entries)@.len(),
    ensures
        *r == old(entries)@[i as int].1,
        final(entries)@ == old(entries)@.update(i as int, (old(entries)@[i as int].0, *final(r))),
    no_unwind
{
    let e = &mut entries[i];
    &mut e.1
}

impl ValueMap {
    #[verifier::type_invariant]
    closed spec fn ascending(self) -> bool {
        keys_ascending(self.entries@)
    }

    /// The entries, in the canonical key order.
    pub closed spec fn entries_view(self) -> Seq<(String, DocumentValue)> {
        self.entries@
    }

    /// What the map holds, as a mathematical map from keys to values.
    pub open spec fn as_map(self) -> Map<Seq<char>, DocumentValue> {
        entries_map(self.entries_view())
    }

    /// Every map value that exists at run time has its keys in ascending order.
    pub open spec fn well_formed(self) -> bool {
        keys_ascending(self.entries_view())
    }

    pub fn new() -> (r: Self)
        ensures
            r.entries_view() == Seq::<(String, DocumentValue)>::empty(),
            r.as_map() == Map::<Seq<char>, DocumentValue>::empty(),
    {
        let r = ValueMap { entries: Vec::new() };
        assert(r.as_map() =~= Map::<Seq<char>, DocumentValue>::empty());
        r
    }

    /// The entries in the canonical key order.
    pub fn entries(&self) -> (r: &Vec<(String, DocumentValue)>)
        ensures
            r@ == self.entries_view(),
            keys_ascending(r@),
    {
        proof {
            use_type_invariant(self);
        }
        &self.entries
    }

    /// Gives up the map for its entries, in the canonical key order.
    pub fn into_entries(self) -> (r: Vec<(String, DocumentValue)>)
        ensures
            r@ == self.entries_view(),
            keys_ascending(r@),
    {
        proof {
            use_type_invariant(&self);
        }
        self.entries
    }

    /// The map of entries that are already in the canonical key order.
    pub fn from_ascending(entries: Vec<(String, DocumentValue)>) -> (r: Self)
        requires
            keys_ascending(entries@),
        ensures
            r.entries_view() == entries@,
    {
        ValueMap { entries }
    }

    pub fn len(&self) -> (r: usize)
        ensures
            r == self.entries_view().len(),
    {
        self.entries.len()
    }

    /// Where `key` stands, or would stand, among the entries.
    fn position(&self, key: &str) -> (r: (usize, bool))
        ensures
            r.0 <= self.entries_view().len(),
            forall|i: int| 0 <= i < r.0 ==> key_lt(#[trigger] self.entries_view()[i].0@, key@),
            r.1 ==> r.0 < self.entries_view().len() && self.entries_view()[r.0 as int].0@ == key@,
            !r.1 && r.0 < self.entries_view().len() ==> key_lt(
                key@,
                self.entries_view()[r.0 as int].0@,
            ),
    {
        let n = self.entries.len();
        let mut p: usize = 0;
        while p < n
            invariant
                n == self.entries@.len(),
                p <= n,
                forall|i: int| 0 <= i < p ==> key_lt(#[trigger] self.entries@[i].0@, key@),
            decreases n - p,
        {
            match compare_keys(self.entries[p].0.as_str(), key) {
                Ordering::Less => {
                    p = p + 1;
                },
                Ordering::Equal => {
                    return (p, true);
                },
                Ordering::Greater => {
                    return (p, false);
                },
            }
        }
        (p, false)
    }

    /// The value stored under `key`, if any.
    pub fn get(&self, key: &str) -> (r: Option<&DocumentValue>)
        ensures
            r is Some <==> self.as_map().contains_key(key@),
            r matches Some(v) ==> self.as_map()[key@] == *v,
    {
        proof {
            use_type_invariant(self);
        }
        let (p, found) = self.position(key);
        if found {
            proof {
                lemma_entries_map_at(self.entries@, p as int);
            }
            Some(&self.entries[p].1)
        } else {
            proof {
                let s = self.entries@;
                if self.as_map().contains_key(key@) {
                    let j = choose|j: int| 0 <= j < s.len() && #[trigger] s[j].0@ == key@;
                    lemma_key_order(key@, key@, key@);
                    if p < s.len() && j > p {
                        lemma_key_order(key@, s[p as int].0@, s[j].0@);
                    }
                }
            }
            None
        }
    }

    /// The value stored under `key`, to change in place, if any; the other
    /// entries stay as they are.
    pub fn get_mut(&mut self, key: &str) -> (r: Option<&mut DocumentValue>)
        ensures
            r is Some <==> old(self).as_map().contains_key(key@),
            r matches Some(v) ==> *v == old(self).as_map()[key@] && final(self).as_map() == old(
                self,
            ).as_map().insert(key@, *final(v)),
            r is None ==> *final(self) == *old(self),
    {
        proof {
            use_type_invariant(&*self);
        }
        let (p, found) = self.position(key);
        if found {
            let ghost s = self.entries@;
            proof {
                lemma_entries_map_at(s, p as int);
            }
            proof {
                assert forall|x: DocumentValue| #[trigger] entries_map(
                    s.update(p as int, (s[p as int].0, x)),
                ) == entries_map(s).insert(s[p as int].0@, x) by {
                    lemma_entries_map_set_value(s, p as int, x);
                }
            }
            Some(value_slot(&mut self.entries, p))
        } else {
            proof {
                let s = self.entries@;
                if self.as_map().contains_key(key@) {
                    let j = choose|j: int| 0 <= j < s.len() && #[trigger] s[j].0@ == key@;
                    lemma_key_order(key@, key@, key@);
                    if p < s.len() && j > p {
                        lemma_key_order(key@, s[p as int].0@, s[j].0@);
                    }
                }
            }
            None
        }
    }

    /// Stores `value` under `key`, and hands back the value that was stored
    /// under it before, if any.
    pub fn insert(&mut self, key: String, value: DocumentValue) -> (r: Option<DocumentValue>)
        ensures
            final(self).as_map() == old(self).as_map().insert(key@, value),
            r == old(self).as_map().get(key@),
    {
        proof {
            use_type_invariant(&*self);
        }
        let ghost s = self.entries@;
        let ghost k = key@;
        let (p, found) = self.position(key.as_str());
        proof {
            if !found && self.as_map().contains_key(k) {
                let j = choose|j: int| 0 <= j < s.len() && #[trigger] s[j].0@ == k;
                lemma_key_order(k, k, k);
                if p < s.len() && j > p {
                    lemma_key_order(k, s[p as int].0@, s[j].0@);
                }
            }
            if found {
                lemma_entries_map_at(s, p as int);
            }
        }
        let ghost v = value;
        let mut taken = ValueMap::new();
        std::mem::swap(self, &mut taken);
        let mut entries = taken.entries;
        let r = if found {
            let (_, old_value) = entries.remove(p);
            entries.insert(p, (key, value));
            Some(old_value)
        } else {
            entries.insert(p, (key, value));
            None
        };
        proof {
            let t = entries@;
            assert forall|i: int, j: int| 0 <= i < j < t.len() implies key_lt(
                #[trigger] t[i].0@,
                #[trigger] t[j].0@,
            ) by {
                if found {
                    if i == p {
                        assert(key_lt(s[i].0@, s[j].0@));
                    } else if j == p {
                        assert(key_lt(s[i].0@, s[j].0@));
                    }
                } else {
                    if p < s.len() {
                        lemma_key_order(k, s[p as int].0@, t[j].0@);
                        if j > p + 1 {
                            lemma_key_order(k, s[p as int].0@, s[j - 1].0@);
                        }
                    }
                    if i < p && j > p {
                        lemma_key_order(t[i].0@, k, t[j].0@);
                    }
                }
            }
            assert(t[p as int].0@ == k);
            lemma_entries_map_at(t, p as int);
            assert forall|key2: Seq<char>| key2 != k implies (#[trigger] entries_map(
                t,
            ).contains_key(key2) <==> entries_map(s).contains_key(key2)) && (entries_map(
                t,
            ).contains_key(key2) ==> entries_map(t)[key2] == entries_map(s)[key2]) by {
                if entries_map(t).contains_key(key2) {
                    let j = choose|j: int| 0 <= j < t.len() && #[trigger] t[j].0@ == key2;
                    lemma_entries_map_at(t, j);
                    let j0 = if found || j < p { j } else { j - 1 };
                    assert(s[j0] == t[j]);
                    lemma_entries_map_at(s, j0);
                }
                if entries_map(s).contains_key(key2) {
                    let j = choose|j: int| 0 <= j < s.len() && #[trigger] s[j].0@ == key2;
                    lemma_entries_map_at(s, j);
                    let j1 = if found || j < p { j } else { j + 1 };
                    assert(t[j1] == s[j]);
                    lemma_entries_map_at(t, j1);
                }
            }
            assert(entries_map(t) =~= entries_map(s).insert(k, v));
        }
        *self = ValueMap { entries };
        r
    }
}

/// A position in a value tree: a key into a map, or an index into an array.
pub enum DashValueIndex<'a> {
    String(&'a str),
    Int(usize),
}

impl<'a> From<&'a str> for DashValueIndex<'a> {
    fn from(v: &'a str) -> (r: Self) {
        DashValueIndex::String(v)
    }
}

impl<'a> vstd::std_specs::convert::FromSpecImpl<&'a str> for DashValueIndex<'a> {
    open spec fn obeys_from_spec() -> bool {
        true
    }

    open spec fn from_spec(v: &'a str) -> Self {
        DashValueIndex::String(v)
    }
}

impl<'a> From<usize> for DashValueIndex<'a> {
    fn from(v: usize) -> (r: Self) {
        DashValueIndex::Int(v)
    }
}

impl<'a> vstd::std_specs::convert::FromSpecImpl<usize> for DashValueIndex<'a> {
    open spec fn obeys_from_spec() -> bool {
        true
    }

    open spec fn from_spec(v: usize) -> Self {
        DashValueIndex::Int(v)
    }
}

impl Default for DocumentValue {
    fn default() -> (r: Self)
        ensures
            r is Null,
    {
        DocumentValue::Null
    }
}

impl DocumentValue {
    /// The child that `idx` names: the element at an index of an array, or
    /// the value under a key of a map; none for any other pairing.
    pub open spec fn child(self, idx: DashValueIndex) -> Option<DocumentValue> {
        match idx {
            DashValueIndex::Int(i) => match self {
                DocumentValue::Array(a) => if i < a@.len() {
                    Some(a@[i as int])
                } else {
                    None
                },
                _ => None,
            },
            DashValueIndex::String(k) => match self {
                DocumentValue::Dict(m) => m.as_map().get(k@),
                _ => None,
            },
        }
    }

    /// Whether `new` is `old` with the child that `idx` names set to `c`, and
    /// nothing else changed.
    pub open spec fn child_replaced(
        old: DocumentValue,
        idx: DashValueIndex,
        c: DocumentValue,
        new: DocumentValue,
    ) -> bool {
        match idx {
            DashValueIndex::Int(i) => old matches DocumentValue::Array(a) && new matches DocumentValue::Array(
                b,
            ) && b@ == a@.update(i as int, c),
            DashValueIndex::String(k) => old matches DocumentValue::Dict(m)
                && new matches DocumentValue::Dict(n) && n.as_map() == m.as_map().insert(k@, c),
        }
    }

    fn get_at_mut(&mut self, idx: DashValueIndex) -> (r: Option<&mut DocumentValue>)
        ensures
            r is Some <==> old(self).child(idx) is Some,
            r matches Some(v) ==> old(self).child(idx) == Some(*v) && DocumentValue::child_replaced(
                *old(self),
                idx,
                *final(v),
                *final(self),
            ),
            r is None ==> *final(self) == *old(self),
    {
        match idx {
            DashValueIndex::Int(i) => match self {
                DocumentValue::Array(a) => if i < a.len() {
                    Some(&mut a[i])
                } else {
                    None
                },
                _ => None,
            },
            DashValueIndex::String(k) => match self {
                DocumentValue::Dict(m) => m.get_mut(k),
                _ => None,
            },
        }
    }

    /// The child that `idx` names, to change in place, if there is one;
    /// never panics. Only that child changes.
    pub fn get_mut<'a, I: Into<DashValueIndex<'a>>>(&mut self, idx: I) -> (r: Option<
        &mut DocumentValue,
    >)
        ensures
            I::obeys_into_spec() ==> (r is Some <==> old(self).child(idx.into_spec()) is Some),
            I::obeys_into_spec() ==> (r matches Some(v) ==> old(self).child(idx.into_spec()) == Some(
                *v,
            ) && DocumentValue::child_replaced(*old(self), idx.into_spec(), *final(v), *final(self))),
            I::obeys_into_spec() ==> (r is None ==> *final(self) == *old(self)),
    {
        self.get_at_mut(idx.into())
    }

    /// The child that `idx` names, which must exist, to change in place.
    /// Only that child changes.
    pub fn index_mut<'a, I: Into<DashValueIndex<'a>>>(&mut self, idx: I) -> (r: &mut DocumentValue)
        requires
            I::obeys_into_spec(),
            old(self).child(idx.into_spec()) is Some,
        ensures
            old(self).child(idx.into_spec()) == Some(*r),
            DocumentValue::child_replaced(*old(self), idx.into_spec(), *final(r), *final(self)),
    {
        self.get_at_mut(idx.into()).unwrap()
    }

    fn get_at(&self, idx: DashValueIndex) -> (r: Option<&DocumentValue>)
        ensures
            r is Some <==> self.child(idx) is Some,
            r matches Some(v) ==> self.child(idx) == Some(*v),
    {
        match idx {
            DashValueIndex::Int(i) => match self {
                DocumentValue::Array(a) => if i < a.len() {
                    Some(&a[i])
                } else {
                    None
                },
                _ => None,
            },
            DashValueIndex::String(k) => match self {
                DocumentValue::Dict(m) => m.get(k),
                _ => None,
            },
        }
    }

    /// The child that `idx` names, if there is one; never panics.
    pub fn get<'a, I: Into<DashValueIndex<'a>>>(&self, idx: I) -> (r: Option<&DocumentValue>)
        ensures
            I::obeys_into_spec() ==> (r is Some <==> self.child(idx.into_spec()) is Some),
            I::obeys_into_spec() ==> (r matches Some(v) ==> self.child(idx.into_spec()) == Some(
                *v,
            )),
    {
        self.get_at(idx.into())
    }

    /// The child that `idx` names, which must exist.
    pub fn index<'a, I: Into<DashValueIndex<'a>>>(&self, idx: I) -> (r: &DocumentValue)
        requires
            I::obeys_into_spec(),
            self.child(idx.into_spec()) is Some,
        ensures
            self.child(idx.into_spec()) == Some(*r),
    {
        match self.get_at(idx.into()) {
            Some(v) => v,
            None => {
                assert(false);
                self
            },
        }
    }

    /// Whether this is an array or a map.
    pub fn is_container(&self) -> (r: bool)
        ensures
            r <==> (self is Array || self is Dict),
    {
        match self {
            DocumentValue::Array(_) | DocumentValue::Dict(_) => true,
            _ => false,
        }
    }
}

/// What a value tree becomes on the wire: leaves in the form of the chosen
/// wire form (`human_readable` for the text form), map entries in the
/// canonical key order.
pub open spec fn wire_of(v: DocumentValue, human_readable: bool) -> Wire
    decreases v,
{
    match v {
        DocumentValue::Null => Wire::Null,
        DocumentValue::Bool(b) => Wire::Bool(b),
        DocumentValue::String(s) => Wire::Text(s@),
        DocumentValue::Float(f) => Wire::Float(f),
        DocumentValue::Integer(i) => Wire::Integer(i),
        DocumentValue::UInteger(u) => Wire::UInteger(u),
        DocumentValue::Version(n) => Wire::UInteger(n as u64),
        DocumentValue::Bytes(b) => bytes_wire(b.0@, human_readable),
        DocumentValue::StaticBytes(b) => bytes_wire(b.0@, human_readable),
        DocumentValue::Identifier(id) => identifier_wire(id.data@, human_readable),
        DocumentValue::Array(a) => Wire::Array(
            Seq::new(
                a@.len(),
                |i: int|
                    if 0 <= i < a@.len() {
                        wire_of(a[i], human_readable)
                    } else {
                        Wire::Null
                    },
            ),
        ),
        DocumentValue::Dict(m) => Wire::Dict(
            Seq::new(
                m.entries_view().len(),
                |i: int|
                    if 0 <= i < m.entries_view().len() {
                        (m.entries_view()[i].0@, wire_of(m.entries_view()[i].1, human_readable))
                    } else {
                        (Seq::empty(), Wire::Null)
                    },
            ),
        ),
    }
}

impl DocumentValue {
    /// Encodes the tree for the text form (`human_readable`) or the binary
    /// form: each map's entries are sorted into the canonical key order.
    pub fn to_wire(&self, human_readable: bool) -> (r: WireValue)
        ensures
            r@ == wire_of(*self, human_readable),
        decreases self,
    {
        match self {
            DocumentValue::Null => WireValue::Null,
            DocumentValue::Bool(b) => WireValue::Bool(*b),
            DocumentValue::String(s) => WireValue::Text(s.clone()),
            DocumentValue::Float(f) => WireValue::Float(*f),
            DocumentValue::Integer(i) => WireValue::Integer(*i),
            DocumentValue::UInteger(u) => WireValue::UInteger(*u),
            DocumentValue::Version(n) => WireValue::UInteger(*n as u64),
            DocumentValue::Bytes(b) => b.to_wire(human_readable),
            DocumentValue::StaticBytes(b) => b.to_wire(human_readable),
            DocumentValue::Identifier(id) => id.to_wire(human_readable),
            DocumentValue::Array(a) => {
                let mut out: Vec<WireValue> = Vec::new();
                let mut i: usize = 0;
                while i < a.len()
                    invariant
                        *self == DocumentValue::Array(*a),
                        i <= a@.len(),
                        out@.len() == i,
                        forall|j: int| 0 <= j < i ==> (#[trigger] out@[j])@ == wire_of(a@[j], human_readable),
                    decreases a.len() - i,
                {
                    proof {
                        assert(decreases_to!(*self => (*self)->Array_0));
                        assert(decreases_to!(*a => a[i as int]));
                    }
                    out.push(a[i].to_wire(human_readable));
                    i = i + 1;
                }
                let r = WireValue::Array(out);
                assert(r@ == wire_of(*self, human_readable)) by {
                    if let Wire::Array(w) = r@ {
                        if let Wire::Array(e) = wire_of(*self, human_readable) {
                            assert(w =~= e);
                        }
                    }
                }
                r
            },
            DocumentValue::Dict(m) => {
                let entries = m.entries();
                let mut out: Vec<(String, WireValue)> = Vec::new();
                let mut i: usize = 0;
                while i < entries.len()
                    invariant
                        *self == DocumentValue::Dict(*m),
                        entries@ == m.entries_view(),
                        keys_ascending(entries@),
                        i <= entries@.len(),
                        out@.len() == i,
                        forall|j: int|
                            0 <= j < i ==> (#[trigger] out@[j]).0@ == entries@[j].0@ && out@[j].1@
                                == wire_of(entries@[j].1, human_readable),
                    decreases entries.len() - i,
                {
                    proof {
                        assert(decreases_to!(*self => (*self)->Dict_0));
                        assert(decreases_to!(*m => m.entries));
                        assert(decreases_to!(m.entries => m.entries[i as int]));
                        assert(decreases_to!(m.entries[i as int] => m.entries[i as int].1));
                    }
                    let key = entries[i].0.clone();
                    let value = entries[i].1.to_wire(human_readable);
                    out.push((key, value));
                    i = i + 1;
                }
                assert(wire_keys_ascending(out@)) by {
                    assert forall|j: int, k: int| 0 <= j < k < out@.len() implies key_lt(
                        #[trigger] out@[j].0@,
                        #[trigger] out@[k].0@,
                    ) by {
                        assert(key_lt(entries@[j].0@, entries@[k].0@));
                    }
                }
                let sorted = canonical_entries(out);
                let r = WireValue::Dict(sorted);
                assert(r@ == wire_of(*self, human_readable)) by {
                    if let Wire::Dict(w) = r@ {
                        if let Wire::Dict(e) = wire_of(*self, human_readable) {
                            assert(w =~= e);
                        }
                    }
                }
                r
            },
        }
    }
}

/// Whether some entry has the key `k`.
pub open spec fn has_key(s: Seq<(String, DocumentValue)>, k: Seq<char>) -> bool {
    exists|i: int| 0 <= i < s.len() && #[trigger] s[i].0@ == k
}

/// Two ascending entry sequences that hold the same keys hold them at the
/// same positions.
proof fn lemma_ascending_same_keys(x: Seq<(String, DocumentValue)>, y: Seq<(String, DocumentValue)>)
    requires
        keys_ascending(x),
        keys_ascending(y),
        forall|k: Seq<char>| #[trigger] has_key(x, k) <==> has_key(y, k),
    ensures
        x.len() == y.len(),
        forall|i: int| 0 <= i < x.len() ==> #[trigger] x[i].0@ == y[i].0@,
    decreases x.len(),
{
    if x.len() == 0 {
        if y.len() > 0 {
            assert(has_key(y, y[0].0@));
            assert(has_key(x, y[0].0@));
        }
    } else if y.len() == 0 {
        assert(has_key(x, x[0].0@));
        assert(has_key(y, x[0].0@));
    } else {
        let (kx, ky) = (x[0].0@, y[0].0@);
        assert(has_key(x, kx));
        let j = choose|j: int| 0 <= j < y.len() && #[trigger] y[j].0@ == kx;
        assert(has_key(y, ky));
        assert(has_key(x, ky));
        let i = choose|i: int| 0 <= i < x.len() && #[trigger] x[i].0@ == ky;
        lemma_key_order(kx, ky, kx);
        if i > 0 && j > 0 {
            assert(key_lt(x[0].0@, x[i].0@));
            assert(key_lt(y[0].0@, y[j].0@));
        }
        assert(kx == ky);
        let (xt, yt) = (x.drop_first(), y.drop_first());
        assert forall|k: Seq<char>| #[trigger] has_key(xt, k) <==> has_key(yt, k) by {
            if has_key(xt, k) {
                let i = choose|i: int| 0 <= i < xt.len() && #[trigger] xt[i].0@ == k;
                assert(x[i + 1].0@ == k);
                assert(has_key(x, k));
                let j = choose|j: int| 0 <= j < y.len() && #[trigger] y[j].0@ == k;
                assert(key_lt(x[0].0@, x[i + 1].0@));
                lemma_key_order(k, k, k);
                assert(j != 0);
                assert(yt[j - 1].0@ == k);
            }
            if has_key(yt, k) {
                let j = choose|j: int| 0 <= j < yt.len() && #[trigger] yt[j].0@ == k;
                assert(y[j + 1].0@ == k);
                assert(has_key(y, k));
                assert(has_key(x, k));
                let i = choose|i: int| 0 <= i < x.len() && #[trigger] x[i].0@ == k;
                assert(key_lt(y[0].0@, y[j + 1].0@));
                lemma_key_order(k, k, k);
                assert(i != 0);
                assert(xt[i - 1].0@ == k);
            }
        }
        lemma_ascending_same_keys(xt, yt);
        assert forall|i: int| 0 <= i < x.len() implies #[trigger] x[i].0@ == y[i].0@ by {
            if i > 0 {
                assert(xt[i - 1].0@ == yt[i - 1].0@);
            }
        }
    }
}

/// Maps that hold the same key→value pairs, whichever order the pairs were
/// inserted in, encode to the same wire tree, in the text form and in the
/// binary form alike.
pub proof fn lemma_encoding_independent_of_insertion_order(
    m1: ValueMap,
    m2: ValueMap,
    human_readable: bool,
)
    requires
        m1.well_formed(),
        m2.well_formed(),
        m1.as_map() == m2.as_map(),
    ensures
        wire_of(DocumentValue::Dict(m1), human_readable) == wire_of(
            DocumentValue::Dict(m2),
            human_readable,
        ),
{
    let (x, y) = (m1.entries_view(), m2.entries_view());
    assert forall|k: Seq<char>| #[trigger] has_key(x, k) <==> has_key(y, k) by {
        assert(entries_map(x).contains_key(k) == entries_map(y).contains_key(k));
    }
    lemma_ascending_same_keys(x, y);
    assert forall|i: int| 0 <= i < x.len() implies #[trigger] x[i].1 == y[i].1 by {
        lemma_entries_map_at(x, i);
        lemma_entries_map_at(y, i);
    }
    let w1 = wire_of(DocumentValue::Dict(m1), human_readable);
    let w2 = wire_of(DocumentValue::Dict(m2), human_readable);
    if let Wire::Dict(e1) = w1 {
        if let Wire::Dict(e2) = w2 {
            assert(e1 =~= e2);
        }
    }
}

/// Whether `v` is an array of unsigned-integer leaves holding the bytes `b`,
/// one per byte.
pub open spec fn is_byte_array(v: DocumentValue, b: Seq<u8>) -> bool {
    v matches DocumentValue::Array(a) && a@.len() == b.len() && forall|i: int|
        0 <= i < b.len() ==> #[trigger] a@[i] == DocumentValue::UInteger(b[i] as u64)
}

/// Whether a tree holds no byte-string, fixed-length byte or identifier leaf.
pub open spec fn byte_free(v: DocumentValue) -> bool
    decreases v,
{
    match v {
        DocumentValue::Bytes(_) | DocumentValue::StaticBytes(_) | DocumentValue::Identifier(_) => false,
        DocumentValue::Array(a) => forall|i: int| 0 <= i < a@.len() ==> byte_free(#[trigger] a@[i]),
        DocumentValue::Dict(m) => forall|i: int|
            0 <= i < m.entries_view().len() ==> byte_free(#[trigger] m.entries_view()[i].1),
        _ => true,
    }
}

/// Whether two trees have the same shape and the same contents, leaf by leaf.
pub open spec fn same_tree(x: DocumentValue, y: DocumentValue) -> bool
    decreases x,
{
    match (x, y) {
        (DocumentValue::Array(a), DocumentValue::Array(b)) => a@.len() == b@.len() && forall|i: int|
            0 <= i < a@.len() ==> same_tree(#[trigger] a@[i], b@[i]),
        (DocumentValue::Dict(m), DocumentValue::Dict(n)) => {
            &&& m.entries_view().len() == n.entries_view().len()
            &&& forall|i: int|
                0 <= i < m.entries_view().len() ==> (#[trigger] m.entries_view()[i]).0@
                    == n.entries_view()[i].0@ && same_tree(m.entries_view()[i].1, n.entries_view()[i].1)
        },
        (DocumentValue::String(a), DocumentValue::String(b)) => a@ == b@,
        (DocumentValue::Bytes(a), DocumentValue::Bytes(b)) => a.0@ == b.0@,
        (DocumentValue::Identifier(a), DocumentValue::Identifier(b)) => a.data@ == b.data@,
        (DocumentValue::StaticBytes(a), DocumentValue::StaticBytes(b)) => a.0@ == b.0@,
        (DocumentValue::Array(_), _) | (DocumentValue::Dict(_), _) => false,
        _ => x == y,
    }
}

/// Whether `out` is `v` with each byte-string, fixed-length byte and
/// identifier leaf replaced by the array of its bytes, everything else kept.
pub open spec fn bytes_replaced(v: DocumentValue, out: DocumentValue) -> bool
    decreases v,
{
    match v {
        DocumentValue::Bytes(b) => is_byte_array(out, b.0@),
        DocumentValue::StaticBytes(b) => is_byte_array(out, b.0@),
        DocumentValue::Identifier(id) => is_byte_array(out, id.data@),
        DocumentValue::Array(a) => out matches DocumentValue::Array(o) && o@.len() == a@.len()
            && forall|i: int| 0 <= i < a@.len() ==> bytes_replaced(#[trigger] a@[i], o@[i]),
        DocumentValue::Dict(m) => out matches DocumentValue::Dict(n) && n.entries_view().len()
            == m.entries_view().len() && forall|i: int|
            0 <= i < m.entries_view().len() ==> (#[trigger] m.entries_view()[i]).0@
                == n.entries_view()[i].0@ && bytes_replaced(m.entries_view()[i].1, n.entries_view()[i].1),
        _ => same_tree(v, out),
    }
}

/// The array of unsigned-integer leaves holding the bytes `b`.
fn byte_array(b: &[u8]) -> (r: DocumentValue)
    ensures
        is_byte_array(r, b@),
{
    let mut out: Vec<DocumentValue> = Vec::new();
    let mut i: usize = 0;
    while i < b.len()
        invariant
            i <= b@.len(),
            out@.len() == i,
            forall|j: int| 0 <= j < i ==> #[trigger] out@[j] == DocumentValue::UInteger(b@[j] as u64),
        decreases b.len() - i,
    {
        out.push(DocumentValue::UInteger(b[i] as u64));
        i = i + 1;
    }
    DocumentValue::Array(out)
}

impl DocumentValue {
    /// Replaces a byte-string, fixed-length byte or identifier leaf by the
    /// array of its bytes; leaves any other value as it is.
    pub(crate) fn replace_bytes_with_array(value: &mut DocumentValue)
        requires
            !(*old(value) is Array || *old(value) is Dict),
        ensures
            bytes_replaced(*old(value), *final(value)),
    {
        let mut owned = DocumentValue::Null;
        std::mem::swap(value, &mut owned);
        let replaced = match owned {
            DocumentValue::Identifier(id) => byte_array(id.data.as_slice()),
            DocumentValue::Bytes(b) => byte_array(b.0.as_slice()),
            DocumentValue::StaticBytes(b) => byte_array(b.0.as_slice()),
            other => other,
        };
        *value = replaced;
    }

}

/// A tree without byte leaves comes out of the transform as the same tree,
/// still without byte leaves.
proof fn lemma_byte_free_kept(v: DocumentValue, w: DocumentValue)
    requires
        byte_free(v),
        bytes_replaced(v, w),
    ensures
        same_tree(v, w),
        byte_free(w),
    decreases v,
{
    match v {
        DocumentValue::Array(a) => {
            if let DocumentValue::Array(o) = w {
                assert forall|i: int| 0 <= i < a@.len() implies same_tree(#[trigger] a@[i], o@[i])
                    && byte_free(o@[i]) by {
                    lemma_byte_free_kept(a@[i], o@[i]);
                }
                assert forall|i: int| 0 <= i < o@.len() implies byte_free(#[trigger] o@[i]) by {
                    assert(byte_free(a@[i]));
                }
            }
        },
        DocumentValue::Dict(m) => {
            if let DocumentValue::Dict(n) = w {
                let (x, y) = (m.entries_view(), n.entries_view());
                assert forall|i: int| 0 <= i < x.len() implies (#[trigger] x[i]).0@ == y[i].0@
                    && same_tree(x[i].1, y[i].1) && byte_free(y[i].1) by {
                    assert(byte_free(x[i].1));
                    assert(bytes_replaced(x[i].1, y[i].1));
                    lemma_byte_free_kept(x[i].1, y[i].1);
                }
                assert forall|i: int| 0 <= i < y.len() implies byte_free(#[trigger] y[i].1) by {
                    assert(x[i].0@ == y[i].0@);
                }
            }
        },
        _ => {},
    }
}

/// Trees that are each the same as the next are the same as the last.
proof fn lemma_same_tree_transitive(x: DocumentValue, y: DocumentValue, z: DocumentValue)
    requires
        same_tree(x, y),
        same_tree(y, z),
    ensures
        same_tree(x, z),
    decreases x,
{
    match (x, y, z) {
        (DocumentValue::Array(a), DocumentValue::Array(b), DocumentValue::Array(c)) => {
            assert forall|i: int| 0 <= i < a@.len() implies same_tree(#[trigger] a@[i], c@[i]) by {
                assert(same_tree(b@[i], c@[i]));
                lemma_same_tree_transitive(a@[i], b@[i], c@[i]);
            }
        },
        (DocumentValue::Dict(m), DocumentValue::Dict(n), DocumentValue::Dict(p)) => {
            let (e, f, g) = (m.entries_view(), n.entries_view(), p.entries_view());
            assert forall|i: int| 0 <= i < e.len() implies (#[trigger] e[i]).0@ == g[i].0@ && same_tree(
                e[i].1,
                g[i].1,
            ) by {
                assert(e[i].0@ == f[i].0@ && same_tree(e[i].1, f[i].1));
                assert(f[i].0@ == g[i].0@ && same_tree(f[i].1, g[i].1));
                lemma_same_tree_transitive(e[i].1, f[i].1, g[i].1);
            }
        },
        _ => {},
    }
}

/// On a tree without byte-string, fixed-length byte or identifier leaves,
/// the byte-to-array transform changes nothing: once applied, and applied
/// again to its own result, it gives the same tree.
pub proof fn lemma_bytes_as_arrays_idempotent_on_byte_free(
    v: DocumentValue,
    once: DocumentValue,
    twice: DocumentValue,
)
    requires
        byte_free(v),
        bytes_replaced(v, once),
        bytes_replaced(once, twice),
    ensures
        same_tree(v, once),
        same_tree(v, twice),
{
    lemma_byte_free_kept(v, once);
    lemma_byte_free_kept(once, twice);
    lemma_same_tree_transitive(v, once, twice);
}

/// Whether every map of a wire tree has its keys strictly ascending in the
/// canonical key order, as the encoder emits them.
pub open spec fn wire_canonical(w: Wire) -> bool
    decreases w,
{
    match w {
        Wire::Array(s) => forall|i: int| 0 <= i < s.len() ==> wire_canonical(#[trigger] s[i]),
        Wire::Dict(s) => {
            &&& forall|i: int, j: int| 0 <= i < j < s.len() ==> key_lt(#[trigger] s[i].0, #[trigger] s[j].0)
            &&& forall|i: int| 0 <= i < s.len() ==> wire_canonical(#[trigger] s[i].1)
        },
        _ => true,
    }
}

/// Whether entry `j` is the last one with its key.
pub open spec fn last_with_key(s: Seq<(Seq<char>, Wire)>, j: int) -> bool {
    forall|l: int| j < l < s.len() ==> #[trigger] s[l].0 != s[j].0
}

/// Whether `v` is what the generic decoder makes of wire tree `w`: a byte
/// string gives a byte-string leaf, each other scalar its plain leaf, an
/// array an array element by element, and a map a map with the same keys,
/// each holding what its last entry decodes to. No identifier, fixed-length
/// or version leaf ever comes out.
pub open spec fn decoded_from(w: Wire, v: DocumentValue) -> bool
    decreases w,
{
    match w {
        Wire::Null => v is Null,
        Wire::Bool(b) => v == DocumentValue::Bool(b),
        Wire::Integer(i) => v == DocumentValue::Integer(i),
        Wire::UInteger(u) => v == DocumentValue::UInteger(u),
        Wire::Float(f) => v == DocumentValue::Float(f),
        Wire::Text(t) => v matches DocumentValue::String(x) && x@ == t,
        Wire::Bytes(b) => v matches DocumentValue::Bytes(x) && x.0@ == b,
        Wire::Array(ws) => v matches DocumentValue::Array(a) && a@.len() == ws.len() && forall|i: int|
            0 <= i < ws.len() ==> decoded_from(#[trigger] ws[i], a@[i]),
        Wire::Dict(es) => v matches DocumentValue::Dict(m) && (forall|k: Seq<char>|
            #[trigger] m.as_map().contains_key(k) <==> exists|j: int|
                0 <= j < es.len() && #[trigger] es[j].0 == k) && forall|j: int|
            0 <= j < es.len() && last_with_key(es, j) ==> decoded_from(
                #[trigger] es[j].1,
                m.as_map()[es[j].0],
            ),
    }
}

impl DocumentValue {
    /// Rebuilds a value tree from a wire tree without knowing its record
    /// type: each wire item becomes the matching plain leaf or container
    /// (text a string, a byte string bytes, a map a map whose later entries
    /// win over earlier ones with the same key). Identifier, version and
    /// fixed-length leaves are never rebuilt: the wire does not tell them
    /// apart. A tree as the encoder emits it comes back to the same binary
    /// wire form.
    pub fn from_wire(w: &WireValue) -> (r: DocumentValue)
        ensures
            decoded_from(w@, r),
            wire_canonical(w@) ==> wire_of(r, false) == w@,
        decreases w,
    {
        match w {
            WireValue::Null => DocumentValue::Null,
            WireValue::Bool(b) => DocumentValue::Bool(*b),
            WireValue::Integer(i) => DocumentValue::Integer(*i),
            WireValue::UInteger(u) => DocumentValue::UInteger(*u),
            WireValue::Float(f) => DocumentValue::Float(*f),
            WireValue::Text(s) => DocumentValue::String(s.clone()),
            WireValue::Bytes(b) => DocumentValue::Bytes(Bytes(vstd::slice::slice_to_vec(b.as_slice()))),
            WireValue::Array(ws) => {
                let mut out: Vec<DocumentValue> = Vec::new();
                let mut i: usize = 0;
                while i < ws.len()
                    invariant
                        *w == WireValue::Array(*ws),
                        i <= ws@.len(),
                        out@.len() == i,
                        forall|j: int|
                            0 <= j < i ==> wire_canonical(ws@[j]@) ==> wire_of(#[trigger] out@[j], false)
                                == ws@[j]@,
                        forall|j: int| 0 <= j < i ==> decoded_from(ws@[j]@, #[trigger] out@[j]),
                    decreases ws.len() - i,
                {
                    proof {
                        assert(decreases_to!(*w => (*w)->Array_0));
                        assert(decreases_to!(*ws => ws[i as int]));
                    }
                    out.push(DocumentValue::from_wire(&ws[i]));
                    i = i + 1;
                }
                let r = DocumentValue::Array(out);
                proof {
                    let s = (*w)@->Array_0;
                    assert forall|j: int| 0 <= j < s.len() implies decoded_from(#[trigger] s[j], out@[j]) by {
                        assert(s[j] == ws@[j]@);
                    }
                    if wire_canonical(w@) {
                        let s = (*w)@->Array_0;
                        {
                            assert(s.len() == ws@.len());
                            assert forall|j: int| 0 <= j < out@.len() implies wire_of(
                                #[trigger] out@[j],
                                false,
                            ) == ws@[j]@ by {
                                assert(s[j] == ws@[j]@);
                            }
                            if let Wire::Array(e) = wire_of(r, false) {
                                assert(e =~= s);
                            }
                        }
                    }
                }
                r
            },
            WireValue::Dict(es) => {
                let ghost canon = wire_canonical(w@);
                let mut m = ValueMap::new();
                let ghost mut dec: Seq<DocumentValue> = Seq::empty();
                let mut i: usize = 0;
                while i < es.len()
                    invariant
                        *w == WireValue::Dict(*es),
                        canon == wire_canonical(w@),
                        i <= es@.len(),
                        dec.len() == i,
                        forall|k: Seq<char>|
                            #[trigger] m.as_map().contains_key(k) <==> exists|j: int|
                                0 <= j < i && #[trigger] es@[j].0@ == k,
                        canon ==> forall|j: int|
                            0 <= j < i ==> m.as_map()[#[trigger] es@[j].0@] == dec[j],
                        canon ==> forall|j: int|
                            0 <= j < i ==> wire_of(#[trigger] dec[j], false) == es@[j].1@,
                        forall|j: int|
                            0 <= j < i && (forall|l: int| j < l < i ==> #[trigger] es@[l].0@ != es@[j].0@)
                                ==> decoded_from(#[trigger] es@[j].1@, m.as_map()[es@[j].0@]),
                    decreases es.len() - i,
                {
                    proof {
                        assert(decreases_to!(*w => (*w)->Dict_0));
                        assert(decreases_to!(*es => es[i as int]));
                        assert(decreases_to!(es[i as int] => es[i as int].1));
                    }
                    let key = es[i].0.clone();
                    let value = DocumentValue::from_wire(&es[i].1);
                    proof {
                        if canon {
                            let s = (*w)@->Dict_0;
                            {
                                assert(s.len() == es@.len());
                                assert(s[i as int].1 == es@[i as int].1@);
                                assert(wire_canonical(s[i as int].1));
                                assert forall|j: int| 0 <= j < i implies es@[j].0@ != key@ by {
                                    assert(s[j].0 == es@[j].0@);
                                    assert(s[i as int].0 == es@[i as int].0@);
                                    assert(key_lt(s[j].0, s[i as int].0));
                                    lemma_key_order(key@, key@, key@);
                                }
                            }
                        }
                        dec = dec.push(value);
                    }
                    let ghost before = m.as_map();
                    m.insert(key, value);
                    proof {
                        assert forall|j: int|
                            0 <= j < i + 1 && (forall|l: int| j < l < i + 1 ==> #[trigger] es@[l].0@
                                != es@[j].0@) implies decoded_from(
                            #[trigger] es@[j].1@,
                            m.as_map()[es@[j].0@],
                        ) by {
                            if j < i {
                                assert(es@[i as int].0@ != es@[j].0@);
                                assert forall|l: int| j < l < i implies #[trigger] es@[l].0@ != es@[j].0@ by {
                                    assert(es@[l].0@ != es@[j].0@);
                                }
                            }
                        }
                        assert forall|k: Seq<char>|
                            #[trigger] m.as_map().contains_key(k) <==> exists|j: int|
                                0 <= j < i + 1 && #[trigger] es@[j].0@ == k by {
                            if k == es@[i as int].0@ {
                                assert(es@[i as int].0@ == k);
                            }
                        }
                    }
                    i = i + 1;
                }
                proof {
                    use_type_invariant(&m);
                    let s = (*w)@->Dict_0;
                    assert forall|j: int| 0 <= j < s.len() && last_with_key(s, j) implies decoded_from(
                        #[trigger] s[j].1,
                        m.as_map()[s[j].0],
                    ) by {
                        assert(s[j].1 == es@[j].1@ && s[j].0 == es@[j].0@);
                        assert forall|l: int| j < l < es@.len() implies #[trigger] es@[l].0@ != es@[j].0@ by {
                            assert(s[l].0 == es@[l].0@);
                        }
                    }
                    assert forall|k: Seq<char>|
                        #[trigger] m.as_map().contains_key(k) <==> exists|j: int|
                            0 <= j < s.len() && #[trigger] s[j].0 == k by {
                        if m.as_map().contains_key(k) {
                            let j = choose|j: int| 0 <= j < es@.len() && #[trigger] es@[j].0@ == k;
                            assert(s[j].0 == k);
                        }
                        if exists|j: int| 0 <= j < s.len() && #[trigger] s[j].0 == k {
                            let j = choose|j: int| 0 <= j < s.len() && #[trigger] s[j].0 == k;
                            assert(es@[j].0@ == k);
                        }
                    }
                }
                let r = DocumentValue::Dict(m);
                proof {
                    if canon {
                        let s = (*w)@->Dict_0;
                        {
                            let x = m.entries_view();
                            let pairs = Seq::new(es@.len(), |j: int| (es@[j].0, dec[j]));
                            assert forall|a: int, b: int| 0 <= a < b < pairs.len() implies key_lt(
                                #[trigger] pairs[a].0@,
                                #[trigger] pairs[b].0@,
                            ) by {
                                assert(s[a].0 == es@[a].0@ && s[b].0 == es@[b].0@);
                            }
                            assert(x == m.entries_view());
                            assert forall|k: Seq<char>| #[trigger] has_key(x, k) <==> has_key(pairs, k) by {
                                if has_key(x, k) {
                                    let j = choose|j: int| 0 <= j < x.len() && #[trigger] x[j].0@ == k;
                                    lemma_entries_map_at(x, j);
                                    assert(m.as_map().contains_key(k));
                                    let t = choose|t: int| 0 <= t < es@.len() && #[trigger] es@[t].0@ == k;
                                    assert(pairs[t].0@ == k);
                                }
                                if has_key(pairs, k) {
                                    let t = choose|t: int| 0 <= t < pairs.len() && #[trigger] pairs[t].0@ == k;
                                    assert(es@[t].0@ == k);
                                    assert(m.as_map().contains_key(k));
                                }
                            }
                            lemma_ascending_same_keys(x, pairs);
                            assert forall|j: int| 0 <= j < x.len() implies wire_of(#[trigger] x[j].1, false)
                                == s[j].1 && x[j].0@ == s[j].0 by {
                                lemma_entries_map_at(x, j);
                                assert(x[j].0@ == pairs[j].0@);
                                assert(m.as_map()[es@[j].0@] == dec[j]);
                                assert(s[j].1 == es@[j].1@);
                            }
                            if let Wire::Dict(e) = wire_of(r, false) {
                                assert(e =~= s);
                            }
                        }
                    }
                }
                r
            },
        }
    }
}

/// A size of a tree that shrinks from a container to its children: two for
/// each container, one for each leaf.
pub open spec fn tree_size(v: DocumentValue) -> nat
    decreases v,
{
    match v {
        DocumentValue::Array(a) => 2 + items_size(a@),
        DocumentValue::Dict(m) => 2 + entries_size(m.entries_view()),
        _ => 1,
    }
}

/// The total size of a sequence of trees.
pub open spec fn items_size(s: Seq<DocumentValue>) -> nat
    decreases s,
{
    if s.len() == 0 {
        0
    } else {
        items_size(s.drop_last()) + tree_size(s.last())
    }
}

/// The total size of the values of a sequence of entries.
pub open spec fn entries_size(s: Seq<(String, DocumentValue)>) -> nat
    decreases s,
{
    if s.len() == 0 {
        0
    } else {
        entries_size(s.drop_last()) + tree_size(s.last().1)
    }
}

/// The children of a container, in order; none for a leaf.
pub open spec fn children(v: DocumentValue) -> Seq<DocumentValue> {
    match v {
        DocumentValue::Array(a) => a@,
        DocumentValue::Dict(m) => Seq::new(m.entries_view().len(), |i: int| m.entries_view()[i].1),
        _ => Seq::empty(),
    }
}

/// An identifier encoded in the binary form and read back by the generic
/// decoder becomes a byte-string leaf holding the same bytes, which
/// `Identifier::from_value` accepts.
pub proof fn lemma_identifier_binary_round_trip(id: Identifier, v: DocumentValue)
    requires
        decoded_from(wire_of(DocumentValue::Identifier(id), false), v),
    ensures
        v matches DocumentValue::Bytes(b) && b.0@ == id.data@,
{
}

/// The subtree at position `i` of a container: the `i`-th element of an
/// array, or the value of the `i`-th entry of a map in canonical key order.
pub open spec fn child_at(v: DocumentValue, i: int) -> Option<DocumentValue> {
    match v {
        DocumentValue::Array(a) => if 0 <= i < a@.len() {
            Some(a@[i])
        } else {
            None
        },
        DocumentValue::Dict(m) => if 0 <= i < m.entries_view().len() {
            Some(m.entries_view()[i].1)
        } else {
            None
        },
        _ => None,
    }
}

/// The subtree reached by following `path` from `v`, position by position.
pub open spec fn at_path(v: DocumentValue, path: Seq<int>) -> Option<DocumentValue>
    decreases path.len(),
{
    if path.len() == 0 {
        Some(v)
    } else {
        match child_at(v, path[0]) {
            Some(c) => at_path(c, path.drop_first()),
            None => None,
        }
    }
}

/// Wherever an identifier leaf stands in a tree, at any depth, the
/// byte-to-array transform puts at the same place an array of as many
/// unsigned-integer leaves as the identifier has bytes, each equal to its
/// byte (so within 0..=255).
pub proof fn lemma_bytes_as_arrays_expands_identifier_at_path(
    v: DocumentValue,
    r: DocumentValue,
    path: Seq<int>,
    id: Identifier,
)
    requires
        bytes_replaced(v, r),
        at_path(v, path) == Some(DocumentValue::Identifier(id)),
    ensures
        at_path(r, path) matches Some(x) && is_byte_array(x, id.data@),
    decreases path.len(),
{
    if path.len() > 0 {
        let i = path[0];
        let c = child_at(v, i)->Some_0;
        match v {
            DocumentValue::Array(a) => {
                let o = r->Array_0;
                assert(bytes_replaced(a@[i], o@[i]));
                lemma_bytes_as_arrays_expands_identifier_at_path(a@[i], o@[i], path.drop_first(), id);
            },
            DocumentValue::Dict(m) => {
                let n = r->Dict_0;
                assert(m.entries_view()[i].0@ == n.entries_view()[i].0@);
                lemma_bytes_as_arrays_expands_identifier_at_path(
                    m.entries_view()[i].1,
                    n.entries_view()[i].1,
                    path.drop_first(),
                    id,
                );
            },
            _ => {},
        }
    }
}

impl DocumentValue {
    /// A copy of the tree, leaf by leaf.
    pub fn deep_copy(&self) -> (r: DocumentValue)
        ensures
            same_tree(*self, r),
        decreases self,
    {
        match self {
            DocumentValue::Null => DocumentValue::Null,
            DocumentValue::Bool(b) => DocumentValue::Bool(*b),
            DocumentValue::String(s) => DocumentValue::String(s.clone()),
            DocumentValue::Float(f) => DocumentValue::Float(*f),
            DocumentValue::Integer(i) => DocumentValue::Integer(*i),
            DocumentValue::UInteger(u) => DocumentValue::UInteger(*u),
            DocumentValue::Version(n) => DocumentValue::Version(*n),
            DocumentValue::Bytes(b) => DocumentValue::Bytes(
                Bytes(vstd::slice::slice_to_vec(b.0.as_slice())),
            ),
            DocumentValue::StaticBytes(b) => DocumentValue::StaticBytes(StaticBytes(b.0)),
            DocumentValue::Identifier(id) => DocumentValue::Identifier(
                Identifier { data: vstd::slice::slice_to_vec(id.data.as_slice()) },
            ),
            DocumentValue::Array(a) => {
                let mut out: Vec<DocumentValue> = Vec::new();
                let mut i: usize = 0;
                while i < a.len()
                    invariant
                        *self == DocumentValue::Array(*a),
                        i <= a@.len(),
                        out@.len() == i,
                        forall|j: int| 0 <= j < i ==> same_tree(a@[j], #[trigger] out@[j]),
                    decreases a.len() - i,
                {
                    proof {
                        assert(decreases_to!(*self => (*self)->Array_0));
                        assert(decreases_to!(*a => a[i as int]));
                    }
                    out.push(a[i].deep_copy());
                    i = i + 1;
                }
                DocumentValue::Array(out)
            },
            DocumentValue::Dict(m) => {
                let entries = m.entries();
                let mut out: Vec<(String, DocumentValue)> = Vec::new();
                let mut i: usize = 0;
                while i < entries.len()
                    invariant
                        *self == DocumentValue::Dict(*m),
                        entries@ == m.entries_view(),
                        keys_ascending(entries@),
                        i <= entries@.len(),
                        out@.len() == i,
                        forall|j: int|
                            0 <= j < i ==> (#[trigger] out@[j]).0@ == entries@[j].0@ && same_tree(
                                entries@[j].1,
                                out@[j].1,
                            ),
                    decreases entries.len() - i,
                {
                    proof {
                        assert(decreases_to!(*self => (*self)->Dict_0));
                        assert(decreases_to!(*m => m.entries));
                        assert(decreases_to!(m.entries => m.entries[i as int]));
                        assert(decreases_to!(m.entries[i as int] => m.entries[i as int].1));
                    }
                    let key = entries[i].0.clone();
                    let value = entries[i].1.deep_copy();
                    out.push((key, value));
                    i = i + 1;
                }
                assert(keys_ascending(out@)) by {
                    assert forall|j: int, k: int| 0 <= j < k < out@.len() implies key_lt(
                        #[trigger] out@[j].0@,
                        #[trigger] out@[k].0@,
                    ) by {
                        assert(key_lt(entries@[j].0@, entries@[k].0@));
                    }
                }
                let n = ValueMap::from_ascending(out);
                DocumentValue::Dict(n)
            },
        }
    }
}

impl Clone for ValueMap {
    fn clone(&self) -> (r: Self)
        ensures
            r.entries_view().len() == self.entries_view().len(),
            forall|i: int|
                0 <= i < self.entries_view().len() ==> (#[trigger] r.entries_view()[i]).0@
                    == self.entries_view()[i].0@ && same_tree(self.entries_view()[i].1, r.entries_view()[i].1),
    {
        let entries = self.entries();
        let mut out: Vec<(String, DocumentValue)> = Vec::new();
        let mut i: usize = 0;
        while i < entries.len()
            invariant
                keys_ascending(entries@),
                i <= entries@.len(),
                out@.len() == i,
                forall|j: int|
                    0 <= j < i ==> (#[trigger] out@[j]).0@ == entries@[j].0@ && same_tree(
                        entries@[j].1,
                        out@[j].1,
                    ),
            decreases entries.len() - i,
        {
            let key = entries[i].0.clone();
            let value = entries[i].1.deep_copy();
            out.push((key, value));
            i = i + 1;
        }
        assert(keys_ascending(out@)) by {
            assert forall|j: int, k: int| 0 <= j < k < out@.len() implies key_lt(
                #[trigger] out@[j].0@,
                #[trigger] out@[k].0@,
            ) by {
                assert(key_lt(entries@[j].0@, entries@[k].0@));
            }
        }
        ValueMap::from_ascending(out)
    }
}

impl Clone for DocumentValue {
    fn clone(&self) -> (r: Self)
        ensures
            same_tree(*self, r),
    {
        self.deep_copy()
    }
}

} // verus!
