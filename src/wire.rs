use itertools::Itertools;
use vstd::prelude::*;

use crate::canonical::{compare_keys, key_lt, lemma_key_order};

verus! {

/// A value tree in the exact shape in which it goes onto a wire.
///
/// Map entries are held in the order in which they are emitted; leaves are
/// already in the form that the chosen wire form uses.
#[derive(Debug, PartialEq)]
pub enum WireValue {
    Null,
    Bool(bool),
    Integer(i64),
    UInteger(u64),
    /// The IEEE 754 bit pattern of a 64-bit float.
    Float(u64),
    Text(String),
    Bytes(Vec<u8>),
    Array(Vec<WireValue>),
    Dict(Vec<(String, WireValue)>),
}

/// The mathematical content of a [`WireValue`].
pub enum Wire {
    Null,
    Bool(bool),
    Integer(i64),
    UInteger(u64),
    Float(u64),
    Text(Seq<char>),
    Bytes(Seq<u8>),
    Array(Seq<Wire>),
    Dict(Seq<(Seq<char>, Wire)>),
}

/// The mathematical content of a wire tree.
pub open spec fn wire_view(w: WireValue) -> Wire
    decreases w,
{
    match w {
        WireValue::Null => Wire::Null,
        WireValue::Bool(b) => Wire::Bool(b),
        WireValue::Integer(i) => Wire::Integer(i),
        WireValue::UInteger(u) => Wire::UInteger(u),
        WireValue::Float(f) => Wire::Float(f),
        WireValue::Text(s) => Wire::Text(s@),
        WireValue::Bytes(b) => Wire::Bytes(b@),
        WireValue::Array(a) => Wire::Array(
            Seq::new(
                a@.len(),
                |i: int|
                    if 0 <= i < a@.len() {
                        wire_view(a[i])
                    } else {
                        Wire::Null
                    },
            ),
        ),
        WireValue::Dict(m) => Wire::Dict(
            Seq::new(
                m@.len(),
                |i: int|
                    if 0 <= i < m@.len() {
                        (m[i].0@, wire_view(m[i].1))
                    } else {
                        (Seq::empty(), Wire::Null)
                    },
            ),
        ),
    }
}

impl View for WireValue {
    type V = Wire;

    open spec fn view(&self) -> Wire {
        wire_view(*self)
    }
}

/// Entries whose keys ascend strictly in the canonical key order.
pub open spec fn wire_keys_ascending(s: Seq<(String, WireValue)>) -> bool {
    forall|i: int, j: int| 0 <= i < j < s.len() ==> key_lt(#[trigger] s[i].0@, #[trigger] s[j].0@)
}

/// Relies on `itertools::Itertools::sorted_by`, which collects the items into
/// a `Vec` and sorts it with std's `slice::sort_by`: the same entries come
/// back, and since the comparator is a total order (`lemma_key_order`), no
/// entry stands after one with a greater key.
#[verifier::external_body]
fn sorted_by_key(entries: Vec<(String, WireValue)>) -> (r: Vec<(String, WireValue)>)
    ensures
        r@.to_multiset() == entries@.to_multiset(),
        forall|i: int, j: int| 0 <= i < j < r@.len() ==> !key_lt(#[trigger] r@[j].0@, #[trigger] r@[i].0@),
{
    entries.into_iter().sorted_by(|a, b| compare_keys(&a.0, &b.0)).collect()
}

/// A sequence with strictly ascending keys is the only ordering of its
/// entries in which no key stands after a greater one.
proof fn lemma_sorted_entries_unique(x: Seq<(String, WireValue)>, y: Seq<(String, WireValue)>)
    requires
        wire_keys_ascending(x),
        forall|i: int, j: int| 0 <= i < j < y.len() ==> !key_lt(#[trigger] y[j].0@, #[trigger] y[i].0@),
        x.to_multiset() == y.to_multiset(),
    ensures
        x == y,
    decreases x.len(),
{
    broadcast use vstd::multiset::group_multiset_axioms;
    broadcast use vstd::seq_lib::group_to_multiset_ensures;

    if x.len() == 0 || y.len() == 0 {
        assert(x =~= y);
    } else {
        assert(x.to_multiset().count(x[0]) > 0);
        assert(y.contains(x[0]));
        let j = choose|j: int| 0 <= j < y.len() && y[j] == x[0];
        assert(y.to_multiset().count(y[0]) > 0);
        assert(x.contains(y[0]));
        let i = choose|i: int| 0 <= i < x.len() && x[i] == y[0];
        lemma_key_order(x[0].0@, x[0].0@, x[0].0@);
        if i > 0 {
            assert(key_lt(x[0].0@, x[i].0@));
            if j > 0 {
                assert(!key_lt(y[j].0@, y[0].0@));
            }
        }
        assert(x[0] == y[0]);
        assert(x.drop_first() =~= x.remove(0));
        assert(y.drop_first() =~= y.remove(0));
        lemma_sorted_entries_unique(x.drop_first(), y.drop_first());
        assert(x =~= seq![x[0]] + x.drop_first());
        assert(y =~= seq![y[0]] + y.drop_first());
    }
}

/// Orders map entries for emission: by the canonical key order, sorted
/// afresh on every call.
pub(crate) fn canonical_entries(entries: Vec<(String, WireValue)>) -> (r: Vec<(String, WireValue)>)
    requires
        wire_keys_ascending(entries@),
    ensures
        r@ == entries@,
{
    let ghost before = entries@;
    let r = sorted_by_key(entries);
    proof {
        lemma_sorted_entries_unique(before, r@);
    }
    r
}
} // verus!
