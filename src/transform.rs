use vstd::prelude::*;

use crate::canonical::key_lt;
use crate::value::{
    bytes_replaced, children, entries_size, items_size, keys_ascending, tree_size, DocumentValue,
    ValueMap,
};

verus! {

/// The size of a sequence of trees is that of its first tree and the rest.
proof fn lemma_items_size_first(s: Seq<DocumentValue>)
    requires
        s.len() > 0,
    ensures
        items_size(s) == tree_size(s[0]) + items_size(s.drop_first()),
    decreases s.len(),
{
    if s.len() > 1 {
        lemma_items_size_first(s.drop_last());
        assert(s.drop_last().drop_first() =~= s.drop_first().drop_last());
        assert(s.drop_first().last() == s.last());
        assert(items_size(s.drop_first()) == items_size(s.drop_first().drop_last()) + tree_size(
            s.drop_first().last(),
        ));
    } else {
        assert(items_size(s.drop_last()) == 0);
        assert(items_size(s.drop_first()) == 0);
    }
}

/// Reversing a sequence of trees keeps its size.
proof fn lemma_items_size_reverse(s: Seq<DocumentValue>)
    ensures
        items_size(s.reverse()) == items_size(s),
    decreases s.len(),
{
    if s.len() > 0 {
        lemma_items_size_first(s);
        lemma_items_size_reverse(s.drop_first());
        assert(s.reverse().drop_last() =~= s.drop_first().reverse());
    } else {
        assert(s.reverse().len() == 0);
    }
}

/// The values of a sequence of entries.
spec fn values_of(s: Seq<(String, DocumentValue)>) -> Seq<DocumentValue> {
    Seq::new(s.len(), |i: int| s[i].1)
}

proof fn lemma_values_size(s: Seq<(String, DocumentValue)>)
    ensures
        items_size(values_of(s)) == entries_size(s),
    decreases s.len(),
{
    if s.len() > 0 {
        lemma_values_size(s.drop_last());
        assert(values_of(s).drop_last() =~= values_of(s.drop_last()));
    } else {
        assert(values_of(s).len() == 0);
    }
}

/// The elements of `v` in reverse order.
fn reversed<T>(v: Vec<T>) -> (r: Vec<T>)
    ensures
        r@ == v@.reverse(),
{
    let ghost orig = v@;
    let mut v = v;
    let mut r: Vec<T> = Vec::new();
    while v.len() > 0
        invariant
            v@ == orig.subrange(0, v@.len() as int),
            r@.len() + v@.len() == orig.len(),
            forall|j: int| 0 <= j < r@.len() ==> #[trigger] r@[j] == orig[orig.len() - 1 - j],
        decreases v@.len(),
    {
        let x = v.pop().unwrap();
        r.push(x);
    }
    assert(r@ =~= orig.reverse());
    r
}

/// One container under work: the children still to transform, last one
/// next, and the transformed children so far, in order; a map's frame also
/// holds its keys.
struct Frame {
    remaining: Vec<DocumentValue>,
    done: Vec<DocumentValue>,
    keys: Vec<String>,
    is_map: bool,
}

/// Whether `f` is the frame of container `c`, with `pending` more children
/// (zero or one) taken out of `remaining` but not yet in `done`.
spec fn frame_ok(f: Frame, c: DocumentValue, pending: int) -> bool {
    let ch = children(c);
    &&& match c {
        DocumentValue::Array(_) => !f.is_map,
        DocumentValue::Dict(m) => {
            &&& f.is_map
            &&& keys_ascending(m.entries_view())
            &&& f.keys@.len() == m.entries_view().len()
            &&& forall|i: int| 0 <= i < f.keys@.len() ==> #[trigger] f.keys@[i] == m.entries_view()[i].0
        },
        _ => false,
    }
    &&& f.done@.len() + f.remaining@.len() + pending == ch.len()
    &&& forall|i: int| 0 <= i < f.done@.len() ==> bytes_replaced(ch[i], #[trigger] f.done@[i])
    &&& forall|j: int| 0 <= j < f.remaining@.len() ==> #[trigger] f.remaining@[j] == ch[ch.len() - 1 - j]
}

/// Work still ahead of a stack of frames.
spec fn stack_size(s: Seq<Frame>) -> nat
    decreases s.len(),
{
    if s.len() == 0 {
        0
    } else {
        stack_size(s.drop_last()) + 1 + items_size(s.last().remaining@)
    }
}

/// Opens the frame of a container.
fn open_frame(c: DocumentValue) -> (r: Frame)
    requires
        c is Array || c is Dict,
    ensures
        frame_ok(r, c, 0),
        r.done@.len() == 0,
        items_size(r.remaining@) + 2 == tree_size(c),
{
    let ghost whole = c;
    match c {
        DocumentValue::Array(a) => {
            let ghost av = a@;
            let remaining = reversed(a);
            proof {
                lemma_items_size_reverse(av);
            }
            Frame { remaining, done: Vec::new(), keys: Vec::new(), is_map: false }
        },
        DocumentValue::Dict(m) => {
            let ghost es = m.entries_view();
            let mut entries = m.into_entries();
            let mut remaining: Vec<DocumentValue> = Vec::new();
            let mut keys_rev: Vec<String> = Vec::new();
            while entries.len() > 0
                invariant
                    entries@ == es.subrange(0, entries@.len() as int),
                    remaining@.len() + entries@.len() == es.len(),
                    keys_rev@.len() == remaining@.len(),
                    forall|j: int|
                        0 <= j < remaining@.len() ==> #[trigger] remaining@[j] == es[es.len() - 1 - j].1
                            && keys_rev@[j] == es[es.len() - 1 - j].0,
                decreases entries@.len(),
            {
                let (k, v) = entries.pop().unwrap();
                keys_rev.push(k);
                remaining.push(v);
            }
            let keys = reversed(keys_rev);
            proof {
                let ch = children(whole);
                assert(remaining@ =~= values_of(es).reverse());
                lemma_items_size_reverse(values_of(es));
                lemma_values_size(es);
                assert forall|i: int| 0 <= i < keys@.len() implies #[trigger] keys@[i] == es[i].0 by {
                    let j = keys_rev@.len() - 1 - i;
                    assert(remaining@[j] == es[es.len() - 1 - j].1);
                    assert(keys_rev@[j] == es[es.len() - 1 - j].0);
                }
                assert forall|j: int| 0 <= j < remaining@.len() implies #[trigger] remaining@[j] == ch[ch.len()
                    - 1 - j] by {
                    assert(ch[ch.len() - 1 - j] == es[es.len() - 1 - j].1);
                }
            }
            Frame { remaining, done: Vec::new(), keys, is_map: true }
        },
        _ => {
            assert(false);
            Frame { remaining: Vec::new(), done: Vec::new(), keys: Vec::new(), is_map: false }
        },
    }
}

/// Closes the frame of container `c` once all its children are done.
fn close_frame(f: Frame, Ghost(c): Ghost<DocumentValue>) -> (r: DocumentValue)
    requires
        frame_ok(f, c, 0),
        f.remaining@.len() == 0,
    ensures
        bytes_replaced(c, r),
{
    if !f.is_map {
        let r = DocumentValue::Array(f.done);
        proof {
            let ch = children(c);
            assert forall|i: int| 0 <= i < ch.len() implies bytes_replaced(#[trigger] ch[i], f.done@[i]) by {
                assert(bytes_replaced(ch[i], f.done@[i]));
            }
        }
        r
    } else {
        let ghost es = c->Dict_0.entries_view();
        let ghost ch = children(c);
        let ghost done = f.done@;
        let ghost keys = f.keys@;
        let mut kr = reversed(f.keys);
        let mut dr = reversed(f.done);
        let mut entries: Vec<(String, DocumentValue)> = Vec::new();
        while kr.len() > 0
            invariant
                kr@ == keys.reverse().subrange(0, kr@.len() as int),
                dr@ == done.reverse().subrange(0, kr@.len() as int),
                keys.len() == done.len(),
                keys.len() == es.len(),
                ch.len() == es.len(),
                entries@.len() + kr@.len() == es.len(),
                forall|i: int| 0 <= i < keys.len() ==> #[trigger] keys[i] == es[i].0,
                forall|i: int| 0 <= i < done.len() ==> bytes_replaced(ch[i], #[trigger] done[i]),
                forall|i: int| 0 <= i < es.len() ==> #[trigger] ch[i] == es[i].1,
                forall|i: int|
                    0 <= i < entries@.len() ==> (#[trigger] entries@[i]).0 == es[i].0
                        && bytes_replaced(es[i].1, entries@[i].1),
            decreases kr@.len(),
        {
            let ghost n = entries@.len();
            let k = kr.pop().unwrap();
            let v = dr.pop().unwrap();
            proof {
                assert(k == keys[n as int]);
                assert(v == done[n as int]);
            }
            entries.push((k, v));
        }
        proof {
            assert(keys_ascending(es));
            assert forall|i: int, j: int| 0 <= i < j < entries@.len() implies key_lt(
                #[trigger] entries@[i].0@,
                #[trigger] entries@[j].0@,
            ) by {
                assert(key_lt(es[i].0@, es[j].0@));
            }
        }
        let n = ValueMap::from_ascending(entries);
        DocumentValue::Dict(n)
    }
}

impl DocumentValue {
    /// Replaces every byte-string, fixed-length byte and identifier leaf of
    /// the tree by the array of its bytes as unsigned-integer leaves (each in
    /// 0..=255); every other leaf, and the shape of the tree, stay as they
    /// are. The walk keeps its own stack of open containers, so the depth of
    /// the tree is not bounded by the call stack.
    pub fn bytes_as_arrays(self) -> (r: DocumentValue)
        ensures
            bytes_replaced(self, r),
    {
        if !self.is_container() {
            let mut v = self;
            DocumentValue::replace_bytes_with_array(&mut v);
            return v;
        }
        let ghost root = self;
        let mut stack: Vec<Frame> = Vec::new();
        let ghost mut origs: Seq<DocumentValue> = seq![root];
        stack.push(open_frame(self));
        loop
            invariant
                self == root,
                stack@.len() == origs.len(),
                stack@.len() >= 1,
                origs[0] == root,
                forall|k: int|
                    0 <= k < stack@.len() ==> frame_ok(
                        #[trigger] stack@[k],
                        origs[k],
                        if k == stack@.len() - 1 {
                            0
                        } else {
                            1
                        },
                    ),
                forall|k: int|
                    0 <= k < stack@.len() - 1 ==> origs[k + 1] == children(origs[k])[(
                    #[trigger] stack@[k]).done@.len() as int],
            decreases stack_size(stack@),
        {
            let ghost before = stack@;
            let ghost top = stack@.len() - 1;
            let mut f = stack.pop().unwrap();
            let ghost old_remaining = f.remaining@;
            proof {
                assert(before.drop_last() =~= stack@);
                assert(stack_size(before) == stack_size(stack@) + 1 + items_size(old_remaining));
                assert(frame_ok(f, origs[top], 0));
            }
            let ghost c = origs[top];
            let ghost ch = children(c);
            match f.remaining.pop() {
                Some(child) => {
                    proof {
                        assert(child == ch[f.done@.len() as int]);
                        assert(f.remaining@ == old_remaining.drop_last());
                        assert(items_size(old_remaining) == items_size(f.remaining@) + tree_size(child));
                    }
                    if child.is_container() {
                        let g = open_frame(child);
                        stack.push(f);
                        stack.push(g);
                        proof {
                            origs = origs.push(child);
                            assert(stack@.drop_last().drop_last() =~= before.drop_last());
                            assert(stack@.drop_last() =~= before.drop_last().push(f));
                            assert(stack_size(stack@.drop_last()) == stack_size(before.drop_last()) + 1
                                + items_size(f.remaining@));
                            assert(stack_size(stack@) == stack_size(stack@.drop_last()) + 1
                                + items_size(g.remaining@));
                            assert forall|k: int| 0 <= k < stack@.len() implies frame_ok(
                                #[trigger] stack@[k],
                                origs[k],
                                if k == stack@.len() - 1 {
                                    0
                                } else {
                                    1
                                },
                            ) by {
                                if k < top {
                                    assert(stack@[k] == before[k]);
                                }
                            }
                            assert forall|k: int| 0 <= k < stack@.len() - 1 implies origs[k + 1]
                                == children(origs[k])[(#[trigger] stack@[k]).done@.len() as int] by {
                                if k < top {
                                    assert(stack@[k] == before[k]);
                                }
                            }
                        }
                    } else {
                        let mut leaf = child;
                        DocumentValue::replace_bytes_with_array(&mut leaf);
                        f.done.push(leaf);
                        stack.push(f);
                        proof {
                            assert(stack@.drop_last() =~= before.drop_last());
                            assert(tree_size(child) == 1);
                            assert(stack_size(stack@) == stack_size(before.drop_last()) + 1
                                + items_size(f.remaining@));
                            assert forall|k: int| 0 <= k < stack@.len() implies frame_ok(
                                #[trigger] stack@[k],
                                origs[k],
                                if k == stack@.len() - 1 {
                                    0
                                } else {
                                    1
                                },
                            ) by {
                                if k < top {
                                    assert(stack@[k] == before[k]);
                                }
                            }
                            assert forall|k: int| 0 <= k < stack@.len() - 1 implies origs[k + 1]
                                == children(origs[k])[(#[trigger] stack@[k]).done@.len() as int] by {
                                assert(stack@[k] == before[k]);
                            }
                        }
                    }
                },
                None => {
                    proof {
                        assert(old_remaining.len() == 0);
                        assert(items_size(old_remaining) == 0);
                    }
                    let built = close_frame(f, Ghost(c));
                    if stack.len() == 0 {
                        return built;
                    }
                    let ghost below = stack@;
                    let mut parent = stack.pop().unwrap();
                    proof {
                        assert(below.drop_last() =~= stack@);
                        assert(parent == before[top - 1]);
                        assert(frame_ok(parent, origs[top - 1], 1));
                        assert(c == children(origs[top - 1])[parent.done@.len() as int]);
                    }
                    parent.done.push(built);
                    stack.push(parent);
                    proof {
                        origs = origs.drop_last();
                        assert(stack@.drop_last() =~= before.drop_last().drop_last());
                        assert(stack_size(below) == stack_size(below.drop_last()) + 1 + items_size(
                            below.last().remaining@,
                        ));
                        assert(stack_size(stack@) == stack_size(stack@.drop_last()) + 1
                            + items_size(stack@.last().remaining@));
                        assert forall|k: int| 0 <= k < stack@.len() implies frame_ok(
                            #[trigger] stack@[k],
                            origs[k],
                            if k == stack@.len() - 1 {
                                0
                            } else {
                                1
                            },
                        ) by {
                            if k < top - 1 {
                                assert(stack@[k] == before[k]);
                            }
                        }
                        assert forall|k: int| 0 <= k < stack@.len() - 1 implies origs[k + 1]
                            == children(origs[k])[(#[trigger] stack@[k]).done@.len() as int] by {
                            assert(stack@[k] == before[k]);
                        }
                    }
                },
            }
        }
    }
}

} // verus!
