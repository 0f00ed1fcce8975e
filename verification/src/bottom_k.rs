//! Bottom-k sketches: a priority queue of hashed positions that can be cut
//! down to its smallest members, and the Jaccard estimate of two of them.

use crate::hash::{hash, hash_spec};
use crate::ratio::Ratio;
use vstd::multiset::Multiset;
use vstd::prelude::*;
use vstd::seq_lib::group_to_multiset_ensures;

verus! {

/// The capacity that a queue of hashed positions starts with.
pub const CAPACITY: usize = 1_000_000;

/// A position together with its hash. Members are ordered by hash, and by
/// value where the hashes are equal.
#[derive(Clone, Copy, Debug, PartialEq, Eq, Structural, PartialOrd, Ord, Hash)]
pub struct HashWithValue {
    pub hash: u32,
    pub value: u32,
}

/// The place of a member in the order: a member comes before another if and
/// only if its key is smaller.
pub open spec fn key(elem: HashWithValue) -> int {
    elem.hash as int * 0x1_0000_0000 + elem.value as int
}

/// Whether `least` is a member of `members` that no member comes before.
pub open spec fn is_least(least: HashWithValue, members: Multiset<HashWithValue>) -> bool {
    &&& members.contains(least)
    &&& forall|other: HashWithValue| members.contains(other) ==> key(least) <= key(other)
}

/// Whether `kept` holds the `k` least members of `from`, or all of them if
/// they are fewer: it is part of `from`, has that many members, and none of
/// its members comes after a member that was left out.
pub open spec fn is_bottom_k(
    kept: Multiset<HashWithValue>,
    from: Multiset<HashWithValue>,
    k: nat,
) -> bool {
    &&& kept.subset_of(from)
    &&& kept.len() == if from.len() < k {
        from.len()
    } else {
        k
    }
    &&& forall|x: HashWithValue, y: HashWithValue|
        kept.contains(x) && from.sub(kept).contains(y) ==> key(x) <= key(y)
}

/// Whether `kept` holds the `k` least members of the set `from`, or all of
/// them if they are fewer.
pub open spec fn is_bottom_k_set(
    kept: Set<HashWithValue>,
    from: Set<HashWithValue>,
    k: nat,
) -> bool {
    &&& kept.subset_of(from)
    &&& kept.len() == if from.len() < k {
        from.len()
    } else {
        k
    }
    &&& forall|x: HashWithValue, y: HashWithValue|
        kept.contains(x) && from.contains(y) && !kept.contains(y) ==> key(x) < key(y)
}

/// Whether each slot of `s` comes strictly before the next.
pub open spec fn ascending(s: Seq<HashWithValue>) -> bool {
    forall|i: int, j: int| 0 <= i < j < s.len() ==> key(s[i]) < key(s[j])
}

/// The positions paired with their hashes, in order.
pub open spec fn hashed(positions: Seq<u32>) -> Seq<HashWithValue> {
    Seq::new(
        positions.len(),
        |i: int| (HashWithValue { hash: hash_spec(positions[i]), value: positions[i] }),
    )
}

/// The slot above slot `child` in the heap.
pub open spec fn parent(child: int) -> int {
    (child - 1) / 2
}

/// Whether no slot of `s` comes before the slot above it.
pub open spec fn heap_ordered(s: Seq<HashWithValue>) -> bool {
    forall|c: int| 0 < c < s.len() ==> key(s[parent(c)]) <= key(#[trigger] s[c])
}

/// Whether `s` is heap ordered but for slot `hole`, which may come before
/// the slot above it, though the slots below it do not.
spec fn ordered_above(s: Seq<HashWithValue>, hole: int) -> bool {
    &&& forall|c: int| 0 < c < s.len() && c != hole ==> key(s[parent(c)]) <= key(#[trigger] s[c])
    &&& forall|c: int|
        0 < c < s.len() && parent(c) == hole && hole > 0 ==> key(s[parent(hole)]) <= key(
            #[trigger] s[c],
        )
}

/// Whether `s` is heap ordered but for slot `hole`, which the slots below
/// it may come before, though they do not come before the slot above it.
spec fn ordered_below(s: Seq<HashWithValue>, hole: int) -> bool {
    &&& forall|c: int|
        0 < c < s.len() && parent(c) != hole ==> key(s[parent(c)]) <= key(#[trigger] s[c])
    &&& forall|c: int|
        0 < c < s.len() && parent(c) == hole && hole > 0 ==> key(s[parent(hole)]) <= key(
            #[trigger] s[c],
        )
}

/// The first slot of a heap comes before no other slot.
proof fn lemma_root_is_least(s: Seq<HashWithValue>, i: int)
    requires
        heap_ordered(s),
        0 <= i < s.len(),
    ensures
        key(s[0]) <= key(s[i]),
    decreases i,
{
    if i > 0 {
        lemma_root_is_least(s, parent(i));
    }
}

/// The first slot of a non-empty heap is the least of its members.
proof fn lemma_root_least_member(s: Seq<HashWithValue>)
    requires
        heap_ordered(s),
        s.len() > 0,
    ensures
        is_least(s[0], s.to_multiset()),
{
    broadcast use group_to_multiset_ensures;

    assert(s.contains(s[0]));
    assert forall|other: HashWithValue| s.to_multiset().contains(other) implies key(s[0]) <= key(
        other,
    ) by {
        assert(s.contains(other));
        let i = choose|i: int| 0 <= i < s.len() && s[i] == other;
        lemma_root_is_least(s, i);
    }
}

/// Members with the same key are the same member.
proof fn lemma_key_injective(a: HashWithValue, b: HashWithValue)
    requires
        key(a) == key(b),
    ensures
        a == b,
{
    assert(a.hash == b.hash) by {
        if a.hash < b.hash {
            assert(key(b) - key(a) >= 0x1_0000_0000 + b.value - a.value);
        } else if a.hash > b.hash {
            assert(key(a) - key(b) >= 0x1_0000_0000 + a.value - b.value);
        }
    }
}

/// An ascending sequence is heap ordered, holds no member twice, and has
/// as many slots as distinct members.
proof fn lemma_ascending(s: Seq<HashWithValue>)
    requires
        ascending(s),
    ensures
        heap_ordered(s),
        s.no_duplicates(),
        s.to_set().len() == s.len(),
        s.to_set().finite(),
        s.to_multiset().dom() == s.to_set(),
        forall|x: HashWithValue| s.to_multiset().count(x) <= 1,
{
    broadcast use {group_to_multiset_ensures, vstd::multiset::group_multiset_axioms};

    assert forall|c: int| 0 < c < s.len() implies key(s[parent(c)]) <= key(#[trigger] s[c]) by {
        assert(0 <= parent(c) < c);
    }
    assert(s.no_duplicates());
    s.unique_seq_to_set();
    vstd::seq_lib::seq_to_set_is_finite(s);
    assert(s.to_multiset().dom() =~= s.to_set()) by {
        assert forall|x: HashWithValue| s.to_multiset().dom().contains(x) == s.to_set().contains(
            x,
        ) by {
            assert(s.contains(x) <==> s.to_multiset().count(x) > 0);
        }
    }
    s.lemma_multiset_has_no_duplicates();
    assert forall|x: HashWithValue| s.to_multiset().count(x) <= 1 by {
        if s.to_multiset().count(x) > 0 {
            assert(s.to_multiset().contains(x));
        }
    }
}

/// Exchanging two slots changes no member.
proof fn lemma_exchange(s: Seq<HashWithValue>, i: int, j: int)
    requires
        0 <= i < s.len(),
        0 <= j < s.len(),
    ensures
        s.update(i, s[j]).update(j, s[i]).to_multiset() == s.to_multiset(),
{
    broadcast use {group_to_multiset_ensures, vstd::multiset::group_multiset_axioms};

    let first = s.update(i, s[j]);
    let second = first.update(j, s[i]);
    assert(first.to_multiset() == s.to_multiset().insert(s[j]).remove(s[i]));
    assert(second.to_multiset() == first.to_multiset().insert(s[i]).remove(first[j]));
    assert(s.to_multiset().count(s[i]) > 0) by {
        assert(s.contains(s[i]));
    }
    assert(s.to_multiset().count(s[j]) > 0) by {
        assert(s.contains(s[j]));
    }
    assert(second.to_multiset() =~= s.to_multiset());
}

/// A sequence without slots has no members.
proof fn lemma_no_slots(s: Seq<HashWithValue>)
    requires
        s.len() == 0,
    ensures
        s.to_multiset() == Multiset::<HashWithValue>::empty(),
{
    broadcast use {group_to_multiset_ensures, vstd::multiset::group_multiset_axioms};

    assert(s.to_multiset().len() == 0);
    assert(s.to_multiset() =~= Multiset::<HashWithValue>::empty());
}

/// Whether `a` comes strictly before `b`.
fn comes_before(a: HashWithValue, b: HashWithValue) -> (result: bool)
    ensures
        result == (key(a) < key(b)),
{
    a.hash < b.hash || (a.hash == b.hash && a.value < b.value)
}

/// A priority queue of hashed positions whose least member is at hand. The
/// queue grows with every push, whatever its queue size: the size says how
/// many members `shrink_to_queue_size` keeps, so that a push costs no pop.
pub struct BoundedPriorityQueue {
    queue_size: usize,
    heap: Vec<HashWithValue>,
}

impl View for BoundedPriorityQueue {
    type V = Multiset<HashWithValue>;

    /// The members of the queue, each as often as it was pushed.
    closed spec fn view(&self) -> Multiset<HashWithValue> {
        self.heap@.to_multiset()
    }
}

impl BoundedPriorityQueue {
    /// The number of members that shrinking keeps.
    pub closed spec fn spec_queue_size(&self) -> nat {
        self.queue_size as nat
    }

    /// The slots of the queue are heap ordered.
    pub closed spec fn well_formed(&self) -> bool {
        heap_ordered(self.heap@)
    }

    /// An empty queue with the given queue size. Room for `capacity`
    /// members is set aside if that much can be had; the queue is the same
    /// if not.
    pub fn new(queue_size: usize, capacity: usize) -> (queue: Self)
        ensures
            queue.well_formed(),
            queue@ == Multiset::<HashWithValue>::empty(),
            queue.spec_queue_size() == queue_size,
    {
        let mut heap: Vec<HashWithValue> = Vec::new();
        let _ = heap.try_reserve(capacity);
        let queue = BoundedPriorityQueue { queue_size, heap };
        proof {
            lemma_no_slots(queue.heap@);
        }
        queue
    }

    /// The number of members that shrinking keeps.
    pub fn queue_size(&self) -> (size: usize)
        ensures
            size == self.spec_queue_size(),
    {
        self.queue_size
    }

    /// The number of members.
    pub fn len(&self) -> (len: usize)
        ensures
            len == self@.len(),
    {
        broadcast use group_to_multiset_ensures;

        self.heap.len()
    }

    /// The least member, if there is one.
    pub fn peek(&self) -> (least: Option<HashWithValue>)
        requires
            self.well_formed(),
        ensures
            match least {
                Some(member) => is_least(member, self@),
                None => self@.len() == 0,
            },
    {
        broadcast use group_to_multiset_ensures;

        if self.heap.len() == 0 {
            None
        } else {
            proof {
                lemma_root_least_member(self.heap@);
            }
            Some(self.heap[0])
        }
    }

    /// Adds `elem` to the queue, whatever the queue holds.
    pub fn push(&mut self, elem: HashWithValue)
        requires
            old(self).well_formed(),
        ensures
            final(self).well_formed(),
            final(self)@ == old(self)@.insert(elem),
            final(self).spec_queue_size() == old(self).spec_queue_size(),
    {
        broadcast use group_to_multiset_ensures;

        self.heap.push(elem);
        let mut i: usize = self.heap.len() - 1;
        let mut settled: bool = false;
        while i > 0 && !settled
            invariant
                0 <= i < self.heap@.len(),
                self.queue_size == old(self).queue_size,
                self.heap@.to_multiset() == old(self).heap@.to_multiset().insert(elem),
                settled ==> heap_ordered(self.heap@),
                !settled ==> ordered_above(self.heap@, i as int),
            decreases i + (if settled { 0int } else { 1int }),
        {
            let above: usize = (i - 1) / 2;
            let lower: HashWithValue = self.heap[i];
            let upper: HashWithValue = self.heap[above];
            if comes_before(lower, upper) {
                let ghost before = self.heap@;
                self.heap.set(i, upper);
                self.heap.set(above, lower);
                proof {
                    lemma_exchange(before, i as int, above as int);
                    assert(self.heap@ =~= before.update(i as int, before[above as int]).update(
                        above as int,
                        before[i as int],
                    ));
                }
                assert(ordered_above(self.heap@, above as int)) by {
                    assert forall|c: int|
                        0 < c < self.heap@.len() && c != above implies key(
                        self.heap@[parent(c)],
                    ) <= key(#[trigger] self.heap@[c]) by {
                        assert(key(before[parent(c)]) <= key(before[c]) || c == i || parent(c)
                            == i);
                    }
                }
                i = above;
            } else {
                settled = true;
            }
        }
    }

    /// Takes the least member out of the queue, if there is one.
    pub fn pop(&mut self) -> (least: Option<HashWithValue>)
        requires
            old(self).well_formed(),
        ensures
            final(self).well_formed(),
            final(self).spec_queue_size() == old(self).spec_queue_size(),
            match least {
                Some(member) => is_least(member, old(self)@) && final(self)@ == old(self)@.remove(
                    member,
                ),
                None => old(self)@.len() == 0 && final(self)@ == old(self)@,
            },
    {
        broadcast use group_to_multiset_ensures;

        if self.heap.len() == 0 {
            return None;
        }
        proof {
            lemma_root_least_member(self.heap@);
        }
        let least: HashWithValue = self.heap[0];
        let last: HashWithValue = self.heap[self.heap.len() - 1];
        self.heap.set(0, last);
        let _ = self.heap.pop();
        let len: usize = self.heap.len();
        assert(self.heap@.to_multiset() =~= old(self).heap@.to_multiset().remove(least)) by {
            let full = old(self).heap@;
            let moved = full.update(0, last);
            assert(moved.to_multiset() =~= full.to_multiset().insert(last).remove(least));
            assert(self.heap@ =~= moved.remove(moved.len() - 1));
            assert(moved[moved.len() - 1] == last);
        }
        let mut i: usize = 0;
        let mut settled: bool = false;
        while i < len / 2 && !settled
            invariant
                len == self.heap@.len(),
                0 <= i,
                len > 0 ==> i < len,
                self.queue_size == old(self).queue_size,
                self.heap@.to_multiset() == old(self).heap@.to_multiset().remove(least),
                settled ==> heap_ordered(self.heap@),
                !settled ==> ordered_below(self.heap@, i as int),
            decreases len - i + (if settled { 0int } else { 1int }),
        {
            let left: usize = 2 * i + 1;
            let right: usize = 2 * i + 2;
            let mut below: usize = left;
            if right < len && comes_before(self.heap[right], self.heap[left]) {
                below = right;
            }
            let upper: HashWithValue = self.heap[i];
            let lower: HashWithValue = self.heap[below];
            if comes_before(lower, upper) {
                let ghost before = self.heap@;
                self.heap.set(i, lower);
                self.heap.set(below, upper);
                proof {
                    lemma_exchange(before, i as int, below as int);
                    assert(self.heap@ =~= before.update(i as int, before[below as int]).update(
                        below as int,
                        before[i as int],
                    ));
                }
                assert(ordered_below(self.heap@, below as int)) by {
                    assert forall|c: int|
                        0 < c < self.heap@.len() && parent(c) != below implies key(
                        self.heap@[parent(c)],
                    ) <= key(#[trigger] self.heap@[c]) by {
                        assert(key(before[parent(c)]) <= key(before[c]) || parent(c) == i);
                    }
                }
                i = below;
            } else {
                assert(heap_ordered(self.heap@)) by {
                    assert forall|c: int| 0 < c < self.heap@.len() implies key(
                        self.heap@[parent(c)],
                    ) <= key(#[trigger] self.heap@[c]) by {
                        if parent(c) == i {
                            assert(c == left || c == right);
                        }
                    }
                }
                settled = true;
            }
        }
        assert(heap_ordered(self.heap@)) by {
            if !settled {
                assert forall|c: int| 0 < c < self.heap@.len() implies key(
                    self.heap@[parent(c)],
                ) <= key(#[trigger] self.heap@[c]) by {
                    assert(parent(c) != i);
                }
            }
        }
        Some(least)
    }

    /// Cuts the queue down to its `queue_size` least members, or leaves it
    /// as it is if it has no more than that.
    pub fn shrink_to_queue_size(&mut self)
        requires
            old(self).well_formed(),
        ensures
            final(self).well_formed(),
            final(self).spec_queue_size() == old(self).spec_queue_size(),
            is_bottom_k(final(self)@, old(self)@, old(self).spec_queue_size()),
    {
        broadcast use {group_to_multiset_ensures, vstd::multiset::group_multiset_axioms};

        let room: usize = if self.heap.len() < self.queue_size {
            self.heap.len()
        } else {
            self.queue_size
        };
        let mut kept = BoundedPriorityQueue::new(self.queue_size, room);
        let mut drained: bool = false;
        while kept.len() < self.queue_size && !drained
            invariant
                self.well_formed(),
                kept.well_formed(),
                self.queue_size == old(self).queue_size,
                kept.queue_size == self.queue_size,
                kept@.len() <= self.queue_size,
                kept@.add(self@) == old(self)@,
                drained ==> self@.len() == 0,
                forall|x: HashWithValue, y: HashWithValue|
                    kept@.contains(x) && self@.contains(y) ==> key(x) <= key(y),
            decreases self@.len() + (if drained { 0int } else { 1int }),
        {
            let ghost rest = self@;
            let ghost had = kept@;
            match self.pop() {
                Some(least) => {
                    kept.push(least);
                    assert(kept@.add(self@) =~= had.add(rest));
                    assert forall|x: HashWithValue, y: HashWithValue|
                        kept@.contains(x) && self@.contains(y) implies key(x) <= key(y) by {
                        assert(rest.contains(y));
                        assert(rest.contains(least));
                        if x != least {
                            assert(had.contains(x));
                        }
                    }
                },
                None => {
                    drained = true;
                },
            }
        }
        proof {
            assert(old(self)@.sub(kept@) =~= self@);
            assert(kept@.len() + self@.len() == old(self)@.len());
        }
        self.heap = kept.heap;
    }

    /// A queue with the same slots.
    fn duplicate(&self) -> (copy: Self)
        requires
            self.well_formed(),
        ensures
            copy.well_formed(),
            copy@ == self@,
            copy.queue_size == self.queue_size,
    {
        let mut heap: Vec<HashWithValue> = Vec::new();
        let _ = heap.try_reserve(self.heap.len());
        let mut i: usize = 0;
        while i < self.heap.len()
            invariant
                i <= self.heap@.len(),
                heap@ == self.heap@.take(i as int),
            decreases self.heap@.len() - i,
        {
            heap.push(self.heap[i]);
            assert(heap@ =~= self.heap@.take(i as int + 1));
            i = i + 1;
        }
        assert(heap@ =~= self.heap@);
        BoundedPriorityQueue { queue_size: self.queue_size, heap }
    }

    /// Whether `elem` is a member.
    fn holds(&self, elem: HashWithValue) -> (found: bool)
        ensures
            found == self@.contains(elem),
    {
        broadcast use group_to_multiset_ensures;

        let mut i: usize = 0;
        while i < self.heap.len()
            invariant
                i <= self.heap@.len(),
                forall|j: int| 0 <= j < i ==> self.heap@[j] != elem,
            decreases self.heap@.len() - i,
        {
            let slot: HashWithValue = self.heap[i];
            if slot.hash == elem.hash && slot.value == elem.value {
                proof {
                    assert(self.heap@[i as int] == elem);
                    vstd::seq_lib::to_multiset_contains(self.heap@, elem);
                }
                return true;
            }
            i = i + 1;
        }
        proof {
            vstd::seq_lib::to_multiset_contains(self.heap@, elem);
        }
        false
    }

    /// The `k` least of the distinct members of `self` and `other`, or all
    /// of them if they are fewer, in ascending order.
    fn least_distinct(&self, other: &Self, k: usize) -> (kept: Vec<HashWithValue>)
        requires
            self.well_formed(),
            other.well_formed(),
        ensures
            ascending(kept@),
            is_bottom_k_set(kept@.to_set(), self@.dom().union(other@.dom()), k as nat),
    {
        broadcast use {group_to_multiset_ensures, vstd::multiset::group_multiset_axioms};

        let ghost all = self@.dom().union(other@.dom());
        let mut ours = self.duplicate();
        let mut theirs = other.duplicate();
        let mut kept: Vec<HashWithValue> = Vec::new();
        let mut drained: bool = false;
        while kept.len() < k && !drained
            invariant
                all == self@.dom().union(other@.dom()),
                ours.well_formed(),
                theirs.well_formed(),
                ours@.subset_of(self@),
                theirs@.subset_of(other@),
                ascending(kept@),
                kept@.len() <= k,
                drained ==> ours@.len() == 0 && theirs@.len() == 0,
                forall|j: int| 0 <= j < kept@.len() ==> all.contains(#[trigger] kept@[j]),
                forall|y: HashWithValue|
                    kept@.len() > 0 && ours@.contains(y) ==> key(kept@[kept@.len() - 1]) <= key(y),
                forall|y: HashWithValue|
                    kept@.len() > 0 && theirs@.contains(y) ==> key(kept@[kept@.len() - 1]) <= key(
                        y,
                    ),
                forall|u: HashWithValue|
                    all.contains(u) ==> kept@.contains(u) || ours@.contains(u) || theirs@.contains(
                        u,
                    ),
            decreases ours@.len() + theirs@.len() + (if drained { 0int } else { 1int }),
        {
            let ghost ours_before = ours@;
            let ghost theirs_before = theirs@;
            let ghost kept_before = kept@;
            let from_ours: bool = match (ours.peek(), theirs.peek()) {
                (Some(x), Some(y)) => !comes_before(y, x),
                (Some(_), None) => true,
                (None, Some(_)) => false,
                (None, None) => {
                    drained = true;
                    false
                },
            };
            if !drained {
                let popped: Option<HashWithValue> = if from_ours {
                    ours.pop()
                } else {
                    theirs.pop()
                };
                let next: HashWithValue = popped.unwrap();
                assert(ours_before.contains(next) || theirs_before.contains(next));
                assert(all.contains(next));
                assert forall|y: HashWithValue|
                    ours_before.contains(y) || theirs_before.contains(y) implies key(next) <= key(
                    y,
                ) by {}
                let repeated: bool = kept.len() > 0 && {
                    let last: HashWithValue = kept[kept.len() - 1];
                    last.hash == next.hash && last.value == next.value
                };
                if !repeated {
                    proof {
                        if kept@.len() > 0 {
                            let last = kept@[kept@.len() - 1];
                            assert(key(last) <= key(next));
                            if key(last) == key(next) {
                                lemma_key_injective(last, next);
                            }
                        }
                    }
                    kept.push(next);
                    assert forall|i: int, j: int| 0 <= i < j < kept@.len() implies key(kept@[i])
                        < key(kept@[j]) by {
                        if j == kept@.len() - 1 && i < j - 1 {
                            assert(key(kept_before[i]) < key(kept_before[j - 1]));
                        }
                    }
                }
                assert(kept@.contains(next)) by {
                    assert(kept@[kept@.len() - 1] == next);
                }
                assert forall|u: HashWithValue| all.contains(u) implies kept@.contains(u)
                    || ours@.contains(u) || theirs@.contains(u) by {
                    if u != next {
                        if kept_before.contains(u) {
                            let j = choose|j: int| 0 <= j < kept_before.len() && kept_before[j] == u;
                            assert(kept@[j] == u);
                        }
                    }
                }
                assert forall|y: HashWithValue| ours@.contains(y) implies key(
                    kept@[kept@.len() - 1],
                ) <= key(y) by {
                    assert(ours_before.contains(y));
                }
                assert forall|y: HashWithValue| theirs@.contains(y) implies key(
                    kept@[kept@.len() - 1],
                ) <= key(y) by {
                    assert(theirs_before.contains(y));
                }
            }
        }
        proof {
            lemma_ascending(kept@);
            let members = kept@.to_set();
            assert(self@.dom().finite() && other@.dom().finite());
            assert(all.finite());
            assert(members.subset_of(all)) by {
                assert forall|x: HashWithValue| members.contains(x) implies all.contains(x) by {
                    let j = choose|j: int| 0 <= j < kept@.len() && kept@[j] == x;
                    assert(all.contains(kept@[j]));
                }
            }
            assert forall|x: HashWithValue, y: HashWithValue|
                members.contains(x) && all.contains(y) && !members.contains(y) implies key(x) < key(
                y,
            ) by {
                let j = choose|j: int| 0 <= j < kept@.len() && kept@[j] == x;
                assert(!kept@.contains(y));
                assert(ours@.contains(y) || theirs@.contains(y));
                assert(key(kept@[j]) <= key(kept@[kept@.len() - 1]));
                assert(key(kept@[j]) <= key(y));
                if key(x) == key(y) {
                    lemma_key_injective(x, y);
                }
            }
            vstd::set_lib::lemma_len_subset(members, all);
            if drained {
                assert(members =~= all) by {
                    assert forall|u: HashWithValue| all.contains(u) implies members.contains(u) by {
                        assert(ours@.count(u) <= ours@.len());
                        assert(theirs@.count(u) <= theirs@.len());
                        assert(kept@.contains(u));
                    }
                }
            }
        }
        kept
    }

    /// The duplicate-free union of the members of `self` and `other`, cut
    /// down to the `queue_size` of `self`. Neither queue is changed.
    pub fn merge(&self, other: &Self) -> (merged: Self)
        requires
            self.well_formed(),
            other.well_formed(),
        ensures
            merged.well_formed(),
            merged.spec_queue_size() == self.spec_queue_size(),
            forall|x: HashWithValue| merged@.count(x) <= 1,
            is_bottom_k_set(
                merged@.dom(),
                self@.dom().union(other@.dom()),
                self.spec_queue_size(),
            ),
    {
        let kept = self.least_distinct(other, self.queue_size);
        let merged = BoundedPriorityQueue { queue_size: self.queue_size, heap: kept };
        proof {
            lemma_ascending(merged.heap@);
            assert(merged@ == merged.heap@.to_multiset());
            assert(merged@.dom() == merged.heap@.to_set());
        }
        merged
    }
}

/// Cutting a queue down to one member or more keeps its least member: the
/// least of all members is the least of those kept.
pub proof fn lemma_bottom_k_keeps_least(
    kept: Multiset<HashWithValue>,
    from: Multiset<HashWithValue>,
    k: nat,
    least: HashWithValue,
)
    requires
        is_bottom_k(kept, from, k),
        k >= 1,
        is_least(least, from),
    ensures
        is_least(least, kept),
{
    broadcast use vstd::multiset::group_multiset_axioms;

    assert(from.count(least) <= from.len());
    let other = kept.choose();
    assert(kept.contains(other));
    assert(from.contains(other));
    if !kept.contains(least) {
        assert(from.sub(kept).contains(least));
        assert(key(other) <= key(least));
        lemma_key_injective(other, least);
    }
    assert forall|x: HashWithValue| kept.contains(x) implies key(least) <= key(x) by {
        assert(from.contains(x));
    }
}

/// Only one set holds the `k` least members of a finite set.
pub proof fn lemma_bottom_k_set_unique(
    a: Set<HashWithValue>,
    b: Set<HashWithValue>,
    from: Set<HashWithValue>,
    k: nat,
)
    requires
        from.finite(),
        is_bottom_k_set(a, from, k),
        is_bottom_k_set(b, from, k),
    ensures
        a == b,
{
    vstd::set_lib::lemma_len_subset(a, from);
    vstd::set_lib::lemma_len_subset(b, from);
    if !a.subset_of(b) {
        let x = choose|x: HashWithValue| a.contains(x) && !b.contains(x);
        if b.subset_of(a) {
            vstd::set_lib::lemma_subset_equality(b, a);
            assert(b.contains(x));
        } else {
            let y = choose|y: HashWithValue| b.contains(y) && !a.contains(y);
            assert(key(x) < key(y));
            assert(key(y) < key(x));
        }
    }
    vstd::set_lib::lemma_subset_equality(a, b);
    assert(a =~= b);
}

/// The queue of the hashed positions `data`, with queue size `k`. Every
/// position is pushed: the queue is not cut down to `k` members before
/// `shrink_to_queue_size` is called.
pub fn compute_k_minhashes(data: &[u32], k: usize) -> (minhashes: BoundedPriorityQueue)
    ensures
        minhashes.well_formed(),
        minhashes.spec_queue_size() == k,
        minhashes@ == hashed(data@).to_multiset(),
{
    broadcast use {group_to_multiset_ensures, vstd::multiset::group_multiset_axioms};

    let mut minhashes = BoundedPriorityQueue::new(k, CAPACITY);
    let mut i: usize = 0;
    proof {
        lemma_no_slots(hashed(data@.take(0)));
    }
    while i < data.len()
        invariant
            i <= data@.len(),
            minhashes.well_formed(),
            minhashes.spec_queue_size() == k,
            minhashes@ == hashed(data@.take(i as int)).to_multiset(),
        decreases data@.len() - i,
    {
        let current_hash: u32 = hash(data[i]);
        let elem = HashWithValue { hash: current_hash, value: data[i] };
        minhashes.push(elem);
        proof {
            let before = hashed(data@.take(i as int));
            assert(hashed(data@.take(i as int + 1)) =~= before.push(elem));
            vstd::seq_lib::to_multiset_build(before, elem);
        }
        i = i + 1;
    }
    assert(data@.take(i as int) =~= data@);
    minhashes
}

/// The Jaccard estimate of two bottom-k sketches. The distinct members of
/// both are merged and cut down to the queue size `k` of `sig_a`; the
/// estimate counts those of the merged members that both sketches hold, out
/// of `k`, however many members the sketches hold.
pub fn jaccard(sig_a: &BoundedPriorityQueue, sig_b: &BoundedPriorityQueue) -> (ratio: Ratio)
    requires
        sig_a.well_formed(),
        sig_b.well_formed(),
    ensures
        ratio.den == sig_a.spec_queue_size(),
        exists|merged: Set<HashWithValue>|
            #[trigger] is_bottom_k_set(
                merged,
                sig_a@.dom().union(sig_b@.dom()),
                sig_a.spec_queue_size(),
            ) && ratio.num == merged.intersect(sig_a@.dom().intersect(sig_b@.dom())).len(),
        sig_a@.dom().disjoint(sig_b@.dom()) ==> ratio.num == 0,
{
    broadcast use {group_to_multiset_ensures, vstd::multiset::group_multiset_axioms};

    let kept = sig_a.least_distinct(sig_b, sig_a.queue_size);
    let ghost both = sig_a@.dom().intersect(sig_b@.dom());
    let mut shared: usize = 0;
    let mut i: usize = 0;
    proof {
        lemma_ascending(kept@);
        assert(kept@.take(0).to_set().intersect(both) =~= Set::<HashWithValue>::empty());
    }
    while i < kept.len()
        invariant
            i <= kept@.len(),
            ascending(kept@),
            both == sig_a@.dom().intersect(sig_b@.dom()),
            shared <= i,
            shared == kept@.take(i as int).to_set().intersect(both).len(),
        decreases kept@.len() - i,
    {
        let elem: HashWithValue = kept[i];
        let in_both: bool = sig_a.holds(elem) && sig_b.holds(elem);
        proof {
            let before = kept@.take(i as int);
            let after = kept@.take(i as int + 1);
            vstd::seq_lib::seq_to_set_is_finite(before);
            assert(after =~= before.push(elem));
            assert(!before.contains(elem)) by {
                if before.contains(elem) {
                    let j = choose|j: int| 0 <= j < before.len() && before[j] == elem;
                    assert(key(kept@[j]) < key(kept@[i as int]));
                }
            }
            assert(after.to_set() =~= before.to_set().insert(elem)) by {
                assert forall|x: HashWithValue| after.to_set().contains(x) implies before.to_set().insert(
                    elem,
                ).contains(x) by {
                    let j = choose|j: int| 0 <= j < after.len() && after[j] == x;
                    if j < before.len() {
                        assert(before[j] == x);
                    }
                }
                assert forall|x: HashWithValue| before.to_set().insert(elem).contains(
                    x,
                ) implies after.to_set().contains(x) by {
                    if x == elem {
                        assert(after[after.len() - 1] == x);
                    } else {
                        let j = choose|j: int| 0 <= j < before.len() && before[j] == x;
                        assert(after[j] == x);
                    }
                }
            }
            vstd::set_lib::lemma_len_intersect(before.to_set(), both);
            if in_both {
                assert(after.to_set().intersect(both) =~= before.to_set().intersect(both).insert(
                    elem,
                ));
            } else {
                assert(after.to_set().intersect(both) =~= before.to_set().intersect(both));
            }
        }
        if in_both {
            shared = shared + 1;
        }
        i = i + 1;
    }
    proof {
        assert(kept@.take(i as int) =~= kept@);
        if sig_a@.dom().disjoint(sig_b@.dom()) {
            assert(kept@.to_set().intersect(both) =~= Set::<HashWithValue>::empty());
        }
    }
    Ratio { num: shared, den: sig_a.queue_size }
}

} // verus!
