//! A binary heap of numbers, laid out in a vector, that hands out either its
//! greatest or its smallest element first.
use crate::float_utils::{FloatOrd, FloatType};
use vstd::multiset::Multiset;
use vstd::prelude::*;
use vstd::seq_lib::*;

verus! {

/// Whether `a` may be handed out before `b`: `a` is not below `b` where the
/// greatest goes first, not above it where the smallest goes first.
pub open spec fn precedes<T: FloatType>(max_first: bool, a: T, b: T) -> bool {
    if max_first {
        a.rank() >= b.rank()
    } else {
        a.rank() <= b.rank()
    }
}

/// Whether `t` is in `m` and may be handed out before every element of `m`.
pub open spec fn is_top_of<T: FloatType>(max_first: bool, t: T, m: Multiset<T>) -> bool {
    &&& m.contains(t)
    &&& forall|x: T| m.contains(x) ==> precedes(max_first, t, x)
}

/// The values that a sequence of wrappers holds, in the same order.
spec fn values<T: FloatType>(items: Seq<FloatOrd<T>>) -> Seq<T> {
    Seq::new(items.len(), |i: int| items[i].value())
}

/// The slot above slot `i` in the tree that the vector lays out.
spec fn parent(i: int) -> int {
    (i - 1) / 2
}

/// The heap property: the element in each slot but the first may be handed
/// out after the one in the slot above it.
spec fn heap_ordered<T: FloatType>(max_first: bool, s: Seq<T>) -> bool {
    forall|i: int| 0 < i < s.len() ==> precedes(max_first, s[parent(i)], #[trigger] s[i])
}

/// The heap property everywhere but between slot `k` and the slot above it,
/// whose element may already stand above the elements below `k`.
spec fn ordered_but_above<T: FloatType>(max_first: bool, s: Seq<T>, k: int) -> bool {
    &&& forall|i: int|
        0 < i < s.len() && i != k ==> precedes(max_first, s[parent(i)], #[trigger] s[i])
    &&& forall|i: int|
        0 < k && 0 < i < s.len() && parent(i) == k ==> precedes(
            max_first,
            s[parent(k)],
            #[trigger] s[i],
        )
}

/// The heap property everywhere but between slot `k` and the slots below it,
/// which the element above `k` may already stand above.
spec fn ordered_but_below<T: FloatType>(max_first: bool, s: Seq<T>, k: int) -> bool {
    &&& forall|i: int|
        0 < i < s.len() && parent(i) != k ==> precedes(max_first, s[parent(i)], #[trigger] s[i])
    &&& forall|i: int|
        0 < k && 0 < i < s.len() && parent(i) == k ==> precedes(
            max_first,
            s[parent(k)],
            #[trigger] s[i],
        )
}

/// Exchanging two elements of a sequence keeps what it holds.
proof fn lemma_swap_keeps_contents<T>(s: Seq<T>, i: int, j: int)
    requires
        0 <= i < s.len(),
        0 <= j < s.len(),
    ensures
        s.update(i, s[j]).update(j, s[i]).to_multiset() == s.to_multiset(),
{
    broadcast use {to_multiset_update, to_multiset_contains};

    let t = s.update(i, s[j]);
    assert(s.to_multiset().contains(s[i]));
    assert(s.to_multiset().contains(s[j]));
    assert(t.to_multiset() =~= s.to_multiset().insert(s[j]).remove(s[i]));
    assert(t[j] == s[j]);
    assert(t.update(j, s[i]).to_multiset() =~= t.to_multiset().insert(s[i]).remove(s[j]));
    assert(t.update(j, s[i]).to_multiset() =~= s.to_multiset());
}

/// In a sequence with the heap property the first element may be handed out
/// before every other.
proof fn lemma_root_precedes_all<T: FloatType>(max_first: bool, s: Seq<T>, i: int)
    requires
        heap_ordered(max_first, s),
        0 <= i < s.len(),
    ensures
        precedes(max_first, s[0], s[i]),
    decreases i,
{
    if i > 0 {
        lemma_root_precedes_all(max_first, s, parent(i));
        assert(precedes(max_first, s[parent(i)], s[i]));
    }
}

/// Whether `a` may be handed out before `b`.
fn may_precede<T: FloatType>(max_first: bool, a: &FloatOrd<T>, b: &FloatOrd<T>) -> (r: bool)
    ensures
        r == precedes(max_first, a.value(), b.value()),
{
    if max_first {
        *b <= *a
    } else {
        *a <= *b
    }
}

/// Exchanges the elements in slots `i` and `j`.
fn exchange<T: FloatType>(items: &mut Vec<FloatOrd<T>>, i: usize, j: usize)
    requires
        i < old(items).len(),
        j < old(items).len(),
    ensures
        final(items)@ == old(items)@.update(i as int, old(items)@[j as int]).update(
            j as int,
            old(items)@[i as int],
        ),
        values(final(items)@) == values(old(items)@).update(
            i as int,
            values(old(items)@)[j as int],
        ).update(j as int, values(old(items)@)[i as int]),
        values(final(items)@).to_multiset() == values(old(items)@).to_multiset(),
{
    let a = items[i];
    let b = items[j];
    items[i] = b;
    items[j] = a;
    proof {
        let s = values(old(items)@);
        assert(values(items@) =~= s.update(i as int, s[j as int]).update(j as int, s[i as int]));
        lemma_swap_keeps_contents(s, i as int, j as int);
    }
}

/// Moves the element in slot `start` up until the one above it may stand there.
fn sift_up<T: FloatType>(items: &mut Vec<FloatOrd<T>>, max_first: bool, start: usize)
    requires
        start < old(items).len(),
        ordered_but_above(max_first, values(old(items)@), start as int),
    ensures
        heap_ordered(max_first, values(final(items)@)),
        values(final(items)@).to_multiset() == values(old(items)@).to_multiset(),
        final(items).len() == old(items).len(),
{
    let mut k = start;
    while k > 0
        invariant
            k < items.len(),
            items.len() == old(items).len(),
            ordered_but_above(max_first, values(items@), k as int),
            values(items@).to_multiset() == values(old(items)@).to_multiset(),
        ensures
            heap_ordered(max_first, values(items@)),
            values(items@).to_multiset() == values(old(items)@).to_multiset(),
            items.len() == old(items).len(),
        decreases k,
    {
        let p = (k - 1) / 2;
        if may_precede(max_first, &items[p], &items[k]) {
            break ;
        }
        let ghost before = values(items@);
        exchange(items, p, k);
        proof {
            let after = values(items@);
            assert forall|i: int| 0 < i < after.len() && i != p implies precedes(
                max_first,
                after[parent(i)],
                #[trigger] after[i],
            ) by {
                if i != k {
                    assert(precedes(max_first, before[parent(i)], before[i]));
                }
            }
            assert forall|i: int| 0 < p && 0 < i < after.len() && parent(i) == p implies precedes(
                max_first,
                after[parent(p as int)],
                #[trigger] after[i],
            ) by {
                assert(precedes(max_first, before[parent(p as int)], before[p as int]));
                if i != k {
                    assert(precedes(max_first, before[parent(i)], before[i]));
                }
            }
        }
        k = p;
    }
}

/// Moves the element in slot `start` down until it may stand above the
/// elements below it.
fn sift_down<T: FloatType>(items: &mut Vec<FloatOrd<T>>, max_first: bool, start: usize)
    requires
        start < old(items).len(),
        ordered_but_below(max_first, values(old(items)@), start as int),
    ensures
        heap_ordered(max_first, values(final(items)@)),
        values(final(items)@).to_multiset() == values(old(items)@).to_multiset(),
        final(items).len() == old(items).len(),
{
    let len = items.len();
    let mut k = start;
    while k < len / 2
        invariant
            k < len,
            items.len() == len,
            len == old(items).len(),
            ordered_but_below(max_first, values(items@), k as int),
            values(items@).to_multiset() == values(old(items)@).to_multiset(),
        ensures
            heap_ordered(max_first, values(items@)),
            values(items@).to_multiset() == values(old(items)@).to_multiset(),
            items.len() == len,
        decreases len - k,
    {
        let left = 2 * k + 1;
        let mut child = left;
        if left + 1 < len && may_precede(max_first, &items[left + 1], &items[left]) {
            child = left + 1;
        }
        let ghost before = values(items@);
        if may_precede(max_first, &items[k], &items[child]) {
            proof {
                assert forall|i: int| 0 < i < before.len() implies precedes(
                    max_first,
                    before[parent(i)],
                    #[trigger] before[i],
                ) by {
                    if parent(i) == k {
                        assert(i == left || i == left + 1);
                    }
                }
            }
            break ;
        }
        exchange(items, k, child);
        proof {
            let after = values(items@);
            assert forall|i: int| 0 < i < after.len() && parent(i) != child implies precedes(
                max_first,
                after[parent(i)],
                #[trigger] after[i],
            ) by {
                if parent(i) == k {
                    assert(i == left || i == left + 1);
                } else if i == k {
                    assert(parent(child as int) == k);
                    assert(precedes(max_first, before[parent(k as int)], before[child as int]));
                } else {
                    assert(precedes(max_first, before[parent(i)], before[i]));
                }
            }
            assert forall|i: int| 0 < i < after.len() && parent(i) == child implies precedes(
                max_first,
                after[parent(child as int)],
                #[trigger] after[i],
            ) by {
                assert(precedes(max_first, before[parent(i)], before[i]));
            }
        }
        k = child;
    }
}

/// A binary heap of numbers. Where `max_first` holds it hands out a greatest
/// element first, else a smallest.
pub struct Heap<T: FloatType> {
    items: Vec<FloatOrd<T>>,
    max_first: bool,
}

impl<T: FloatType> View for Heap<T> {
    type V = Multiset<T>;

    /// The numbers held, each as often as it was put in and not yet taken out.
    closed spec fn view(&self) -> Multiset<T> {
        values(self.items@).to_multiset()
    }
}

impl<T: FloatType> Heap<T> {
    /// The heap property holds of the vector.
    #[verifier::type_invariant]
    pub closed spec fn wf(self) -> bool {
        heap_ordered(self.max_first, values(self.items@))
    }

    /// Whether a greatest element is handed out first.
    pub closed spec fn max_first(self) -> bool {
        self.max_first
    }

    /// The element that `peek` shows and `pop` takes; meaningful where the heap
    /// holds anything.
    pub closed spec fn top(self) -> T {
        values(self.items@)[0]
    }

    /// The top of a well-formed heap that holds anything is one of its elements
    /// and may be handed out before each of them.
    pub proof fn lemma_top(self)
        requires
            self.wf(),
            self@.len() > 0,
        ensures
            is_top_of(self.max_first(), self.top(), self@),
    {
        broadcast use {to_multiset_contains, to_multiset_len};

        let s = values(self.items@);
        assert(s.contains(s[0]));
        assert forall|x: T| self@.contains(x) implies precedes(self.max_first, s[0], x) by {
            assert(s.contains(x));
            let i = choose|i: int| 0 <= i < s.len() && s[i] == x;
            lemma_root_precedes_all(self.max_first, s, i);
        }
    }

    /// An empty heap.
    pub fn new(max_first: bool) -> (h: Self)
        ensures
            h@ == Multiset::<T>::empty(),
            h.max_first() == max_first,
            h.wf(),
    {
        let h = Heap { items: Vec::new(), max_first };
        proof {
            broadcast use {to_multiset_len, vstd::multiset::lemma_multiset_empty_len};

            assert(h@.len() == 0);
        }
        h
    }

    /// The number of elements held.
    pub fn len(&self) -> (n: usize)
        ensures
            n == self@.len(),
    {
        proof {
            broadcast use to_multiset_len;

        }
        self.items.len()
    }

    /// Whether the heap holds nothing.
    pub fn is_empty(&self) -> (b: bool)
        ensures
            b == (self@.len() == 0),
    {
        proof {
            broadcast use to_multiset_len;

        }
        self.items.is_empty()
    }

    /// The element that would be taken out next, if there is one.
    pub fn peek(&self) -> (r: Option<FloatOrd<T>>)
        ensures
            self@.len() == 0 <==> r is None,
            r matches Some(v) ==> v.value() == self.top(),
            r is Some ==> is_top_of(self.max_first(), self.top(), self@),
    {
        proof {
            broadcast use to_multiset_len;

            use_type_invariant(self);
            if self@.len() > 0 {
                self.lemma_top();
            }
        }
        if self.items.len() == 0 {
            None
        } else {
            Some(self.items[0])
        }
    }

    /// Puts `value` in.
    pub fn push(&mut self, value: FloatOrd<T>)
        ensures
            final(self)@ == old(self)@.insert(value.value()),
            final(self).max_first() == old(self).max_first(),
            final(self).wf(),
    {
        proof {
            use_type_invariant(&*self);
        }
        // the vector is taken out while the heap property is restored in it
        let mut items = Vec::new();
        std::mem::swap(&mut self.items, &mut items);
        insert_item(&mut items, self.max_first, value);
        std::mem::swap(&mut self.items, &mut items);
    }

    /// Takes the top out, if there is one.
    pub fn pop(&mut self) -> (r: Option<FloatOrd<T>>)
        ensures
            old(self)@.len() == 0 <==> r is None,
            r is None ==> final(self)@ == old(self)@,
            r matches Some(v) ==> v.value() == old(self).top() && is_top_of(
                old(self).max_first(),
                old(self).top(),
                old(self)@,
            ) && final(self)@ == old(self)@.remove(old(self).top()),
            final(self).max_first() == old(self).max_first(),
            final(self).wf(),
    {
        proof {
            broadcast use to_multiset_len;

            use_type_invariant(&*self);
            if self@.len() > 0 {
                self.lemma_top();
            }
        }
        let mut items = Vec::new();
        std::mem::swap(&mut self.items, &mut items);
        let root = remove_root(&mut items, self.max_first);
        std::mem::swap(&mut self.items, &mut items);
        root
    }

    /// Takes everything out.
    pub fn clear(&mut self)
        ensures
            final(self)@ == Multiset::<T>::empty(),
            final(self).max_first() == old(self).max_first(),
            final(self).wf(),
    {
        self.items = Vec::new();
        proof {
            broadcast use {to_multiset_len, vstd::multiset::lemma_multiset_empty_len};

            assert(self@.len() == 0);
        }
    }
}

/// Appends `value` and restores the heap property.
fn insert_item<T: FloatType>(items: &mut Vec<FloatOrd<T>>, max_first: bool, value: FloatOrd<T>)
    requires
        heap_ordered(max_first, values(old(items)@)),
    ensures
        heap_ordered(max_first, values(final(items)@)),
        values(final(items)@).to_multiset() == values(old(items)@).to_multiset().insert(
            value.value(),
        ),
{
    items.push(value);
    let last = items.len() - 1;
    proof {
        broadcast use to_multiset_build;

        let before = values(old(items)@);
        let after = values(items@);
        assert(after =~= before.push(value.value()));
        assert forall|i: int| 0 < i < after.len() && i != last implies precedes(
            max_first,
            after[parent(i)],
            #[trigger] after[i],
        ) by {
            assert(precedes(max_first, before[parent(i)], before[i]));
        }
    }
    sift_up(items, max_first, last);
}

/// Takes the first element out, if there is one, and restores the heap
/// property.
fn remove_root<T: FloatType>(items: &mut Vec<FloatOrd<T>>, max_first: bool) -> (r: Option<
    FloatOrd<T>,
>)
    requires
        heap_ordered(max_first, values(old(items)@)),
    ensures
        heap_ordered(max_first, values(final(items)@)),
        old(items).len() == 0 <==> r is None,
        r is None ==> final(items)@ == old(items)@,
        r matches Some(v) ==> v.value() == values(old(items)@)[0] && values(
            final(items)@,
        ).to_multiset() == values(old(items)@).to_multiset().remove(v.value()),
{
    if items.len() == 0 {
        return None;
    }
    let root = items.swap_remove(0);
    proof {
        broadcast use {to_multiset_update, to_multiset_remove, to_multiset_contains};

        let before = values(old(items)@);
        let after = values(items@);
        let moved = before.update(0, before.last());
        assert(after =~= moved.drop_last());
        assert(moved.drop_last() =~= moved.remove(moved.len() - 1));
        assert(before.to_multiset().contains(before.last()));
        assert(before.to_multiset().contains(before[0]));
        assert(moved.to_multiset() =~= before.to_multiset().insert(before.last()).remove(
            before[0],
        ));
        assert(moved[moved.len() - 1] == before.last());
        assert(after.to_multiset() =~= moved.to_multiset().remove(before.last()));
        assert(after.to_multiset() =~= before.to_multiset().remove(before[0]));
        assert forall|i: int| 0 < i < after.len() && parent(i) != 0 implies precedes(
            max_first,
            after[parent(i)],
            #[trigger] after[i],
        ) by {
            assert(precedes(max_first, before[parent(i)], before[i]));
        }
    }
    if items.len() > 0 {
        sift_down(items, max_first, 0);
    }
    Some(root)
}

} // verus!
