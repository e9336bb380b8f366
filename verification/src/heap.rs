//! The heap container: a complete binary tree kept in a `Vec`, with the
//! root at index 0 and the children of index `i` at `2 * i + 1` and
//! `2 * i + 2`.

use vstd::multiset::Multiset;
use vstd::prelude::*;

use crate::laws::drains;
use crate::laws::drains_to;
use crate::laws::lemma_drain_sorted;
use crate::laws::lemma_drains_to_snoc;
use crate::laws::sorted_by_rank;
use crate::order::MaxHeap;
use crate::order::MinHeap;
use crate::order::Priority;

verus! {

/// Index of the parent of the node at index `i` in the array encoding.
pub open spec fn parent_of(i: int) -> int {
    (i - 1) / 2
}

/// The element at index `i` does not outrank its parent.
pub open spec fn parent_ok<T, P: Priority<T>>(s: Seq<T>, i: int) -> bool
    recommends
        1 <= i < s.len(),
{
    !P::outranks(s[i], s[parent_of(i)])
}

/// The heap-order invariant over the array encoding: no element outranks
/// its parent, so the extreme element under the policy sits at the root.
pub open spec fn heap_ordered<T, P: Priority<T>>(s: Seq<T>) -> bool {
    forall|i: int| 1 <= i < s.len() ==> #[trigger] parent_ok::<T, P>(s, i)
}

/// In the array encoding, every index at least 1 is the left or the right
/// child of its parent, and the parent sits strictly below it.
proof fn lemma_parent_child(i: int)
    requires
        1 <= i,
    ensures
        i == 2 * parent_of(i) + 1 || i == 2 * parent_of(i) + 2,
        0 <= parent_of(i) < i,
{
    assert(i - 1 == 2 * ((i - 1) / 2) + ((i - 1) % 2));
}

/// The two children of index `c` point back to `c` as their parent.
proof fn lemma_child_parent(c: int)
    requires
        0 <= c,
    ensures
        parent_of(2 * c + 1) == c,
        parent_of(2 * c + 2) == c,
{
}

/// Exchanging two positions of a sequence leaves its multiset unchanged.
proof fn lemma_swap_multiset<T>(s: Seq<T>, i: int, j: int)
    requires
        0 <= i < s.len(),
        0 <= j < s.len(),
    ensures
        s.update(i, s[j]).update(j, s[i]).to_multiset() == s.to_multiset(),
{
    broadcast use vstd::seq_lib::group_to_multiset_ensures;
    broadcast use vstd::multiset::group_multiset_axioms;

    if i == j {
        assert(s.update(i, s[j]).update(j, s[i]) =~= s);
    } else {
        let u = s.update(i, s[j]);
        assert(u[j] == s[j]);
        assert(u.update(j, s[i]).to_multiset() =~= s.to_multiset());
    }
}

/// Relies on `<[T]>::swap`: exchanges the elements at the two given
/// indices, which both lie within the vector.
#[verifier::external_body]
fn swap_items<T>(items: &mut Vec<T>, i: usize, j: usize)
    requires
        i < old(items).len(),
        j < old(items).len(),
    ensures
        final(items)@ == old(items)@.update(i as int, old(items)@[j as int]).update(
            j as int,
            old(items)@[i as int],
        ),
{
    items.swap(i, j);
}

/// An array-backed binary heap whose order is decided by the policy `P`.
pub struct Heap<T, P: Priority<T>> {
    count: usize,
    items: Vec<T>,
    comparator: P,
}

impl<T, P: Priority<T>> View for Heap<T, P> {
    type V = Seq<T>;

    closed spec fn view(&self) -> Seq<T> {
        self.items@
    }
}

impl<T, P: Priority<T>> Heap<T, P> {
    /// The element count kept in the heap matches its storage.
    pub closed spec fn counted(self) -> bool {
        self.count == self.items@.len()
    }

    /// A heap is well formed when its count is accurate and its elements
    /// satisfy the heap-order invariant.
    pub open spec fn well_formed(self) -> bool {
        self.counted() && heap_ordered::<T, P>(self@)
    }

    /// Creates an empty heap that orders its elements by `comparator`.
    pub fn new(comparator: P) -> (h: Self)
        ensures
            h.well_formed(),
            h@ == Seq::<T>::empty(),
    {
        Heap { count: 0, items: Vec::new(), comparator }
    }

    /// Number of elements currently held.
    pub fn len(&self) -> (n: usize)
        requires
            self.well_formed(),
        ensures
            n == self@.len(),
    {
        self.count
    }

    /// Whether the heap holds no elements.
    pub fn is_empty(&self) -> (e: bool)
        requires
            self.well_formed(),
        ensures
            e == (self@.len() == 0),
    {
        self.len() == 0
    }

    /// Inserts `value`, then sifts it up until it no longer outranks its
    /// parent, restoring the heap-order invariant.
    pub fn add(&mut self, value: T)
        requires
            old(self).well_formed(),
        ensures
            final(self).well_formed(),
            final(self)@.to_multiset() == old(self)@.to_multiset().insert(value),
            final(self)@.len() == old(self)@.len() + 1,
    {
        self.items.push(value);
        self.count = self.items.len();
        let ghost s0 = self.items@;
        proof {
            broadcast use vstd::seq_lib::group_to_multiset_ensures;

            assert(s0 == old(self)@.push(value));
            assert forall|i: int| 1 <= i < s0.len() && i != s0.len() - 1 implies #[trigger]
            parent_ok::<T, P>(s0, i) by {
                lemma_parent_child(i);
                assert(parent_ok::<T, P>(old(self)@, i));
            }
        }
        let mut curr: usize = self.count - 1;
        while curr > 0
            invariant_except_break
                self.counted(),
                curr < self.items@.len(),
                self.items@.len() == s0.len(),
                self.items@.to_multiset() == s0.to_multiset(),
                sift_up_shape::<T, P>(self.items@, curr as int),
            ensures
                self.counted(),
                self.items@.len() == s0.len(),
                self.items@.to_multiset() == s0.to_multiset(),
                heap_ordered::<T, P>(self.items@),
            decreases curr,
        {
            let parent = self.parent_idx(curr);
            if self.comparator.higher_priority(&self.items[curr], &self.items[parent]) {
                proof {
                    lemma_up_step::<T, P>(self.items@, curr as int);
                    lemma_swap_multiset(self.items@, curr as int, parent as int);
                }
                swap_items(&mut self.items, curr, parent);
                curr = parent;
            } else {
                proof {
                    // the edge above curr holds as well, so the whole tree does
                    assert forall|i: int| 1 <= i < self.items@.len() implies #[trigger]
                    parent_ok::<T, P>(self.items@, i) by {
                        assert(parent_ok::<T, P>(self.items@, curr as int));
                    }
                }
                break;
            }
        }
    }

    /// Index of the parent of the node at `idx`.
    fn parent_idx(&self, idx: usize) -> (p: usize)
        requires
            1 <= idx,
        ensures
            p as int == parent_of(idx as int),
    {
        (idx - 1) / 2
    }

    /// Index of the left child of the node at `idx`.
    fn left_child_idx(&self, idx: usize) -> (c: usize)
        requires
            2 * (idx as int) + 1 <= usize::MAX as int,
        ensures
            c as int == 2 * (idx as int) + 1,
    {
        idx * 2 + 1
    }

    /// Index of the right child of the node at `idx`.
    fn right_child_idx(&self, idx: usize) -> (c: usize)
        requires
            2 * (idx as int) + 2 <= usize::MAX as int,
        ensures
            c as int == 2 * (idx as int) + 2,
    {
        idx * 2 + 2
    }

    /// Removes and returns the root, the element that nothing outranks, or
    /// `None` on an empty heap, which it leaves unchanged. The last element
    /// replaces the root and sifts down until it outranks no child.
    pub fn next(&mut self) -> (r: Option<T>)
        requires
            old(self).well_formed(),
        ensures
            final(self).well_formed(),
            old(self)@.len() == 0 ==> r is None && final(self)@ == old(self)@,
            old(self)@.len() > 0 ==> r == Some(old(self)@[0]),
            old(self)@.len() > 0 ==> final(self)@.to_multiset() == old(self)@.to_multiset().remove(
                old(self)@[0],
            ),
            old(self)@.len() > 0 ==> final(self)@.len() == old(self)@.len() - 1,
            forall|i: int| 0 <= i < old(self)@.len() ==> !P::outranks(old(self)@[i], old(self)@[0]),
            forall|x: T|
                old(self)@.to_multiset().count(x) > 0 ==> !P::outranks(x, old(self)@[0]),
    {
        if self.count == 0 {
            proof {
                broadcast use vstd::seq_lib::group_to_multiset_ensures;

                assert forall|x: T| self@.to_multiset().count(x) > 0 implies !P::outranks(
                    x,
                    self@[0],
                ) by {
                    assert(self@.contains(x));
                }
            }
            return None;
        }
        let ghost s_old = self.items@;
        proof {
            broadcast use vstd::seq_lib::group_to_multiset_ensures;

            assert forall|i: int| 0 <= i < s_old.len() implies !P::outranks(s_old[i], s_old[0]) by {
                lemma_root_extreme::<T, P>(s_old, i);
            }
            assert forall|x: T| s_old.to_multiset().count(x) > 0 implies !P::outranks(
                x,
                s_old[0],
            ) by {
                let i = choose|i: int| 0 <= i < s_old.len() && s_old[i] == x;
                assert(s_old[i] == x);
            }
        }
        let top = self.items.swap_remove(0);
        self.count = self.count - 1;
        proof {
            broadcast use vstd::seq_lib::group_to_multiset_ensures;
            broadcast use vstd::multiset::group_multiset_axioms;

            let u = s_old.update(0, s_old.last());
            assert(self.items@ =~= u.remove(u.len() - 1));
            assert(u[u.len() - 1] == s_old.last());
            assert(self.items@.to_multiset() =~= s_old.to_multiset().remove(top));
        }
        if self.count == 0 {
            return Some(top);
        }
        let ghost s1 = self.items@;
        proof {
            assert forall|i: int| 1 <= i < s1.len() && parent_of(i) != 0 implies #[trigger]
            parent_ok::<T, P>(s1, i) by {
                lemma_parent_child(i);
                assert(parent_ok::<T, P>(s_old, i));
            }
        }
        let mut curr: usize = 0;
        loop
            invariant_except_break
                self.counted(),
                curr < self.items@.len(),
                self.items@.len() == s1.len(),
                self.items@.to_multiset() == s1.to_multiset(),
                sift_down_shape::<T, P>(self.items@, curr as int),
            ensures
                self.counted(),
                self.items@.len() == s1.len(),
                self.items@.to_multiset() == s1.to_multiset(),
                heap_ordered::<T, P>(self.items@),
            decreases self.items@.len() - curr,
        {
            if !self.children_present(curr) {
                proof {
                    assert forall|i: int| 1 <= i < self.items@.len() implies #[trigger]
                    parent_ok::<T, P>(self.items@, i) by {
                        lemma_parent_child(i);
                    }
                }
                break;
            }
            let child = self.smallest_child_idx(curr);
            if self.comparator.higher_priority(&self.items[child], &self.items[curr]) {
                proof {
                    lemma_down_step::<T, P>(self.items@, curr as int, child as int);
                    lemma_swap_multiset(self.items@, child as int, curr as int);
                }
                swap_items(&mut self.items, child, curr);
                curr = child;
            } else {
                proof {
                    let a = self.items@;
                    let c = curr as int;
                    assert forall|i: int| 1 <= i < a.len() implies #[trigger] parent_ok::<T, P>(
                        a,
                        i,
                    ) by {
                        lemma_parent_child(i);
                        if parent_of(i) == c && i != child {
                            // the other child of c: it does not outrank the
                            // candidate, which does not outrank c
                            P::lemma_not_outranks_transitive(a[c], a[child as int], a[i]);
                        }
                    }
                }
                break;
            }
        }
        Some(top)
    }

    /// Removes every element, repeating `next` until it finds no value.
    /// The result is a drain of the heap's contents: the same elements,
    /// sorted under the policy, ascending for a min-heap and descending
    /// for a max-heap. The drained heap is empty; to traverse again it
    /// must be repopulated.
    pub fn drain(&mut self) -> (out: Vec<T>)
        requires
            old(self).well_formed(),
        ensures
            final(self).well_formed(),
            final(self)@.len() == 0,
            drains::<T, P>(old(self)@.to_multiset(), out@),
            out@.to_multiset() == old(self)@.to_multiset(),
            out@.len() == old(self)@.len(),
            sorted_by_rank::<T, P>(out@),
    {
        let ghost m0 = old(self)@.to_multiset();
        let mut out: Vec<T> = Vec::new();
        loop
            invariant
                self.well_formed(),
                m0 == old(self)@.to_multiset(),
                drains_to::<T, P>(m0, out@, self@.to_multiset()),
            decreases self@.len(),
        {
            let ghost pre = self@;
            let ghost sofar = out@;
            let step = self.next();
            match step {
                None => {
                    proof {
                        broadcast use vstd::seq_lib::group_to_multiset_ensures;
                        broadcast use vstd::multiset::lemma_multiset_empty_len;

                        assert(self@.to_multiset() =~= Multiset::<T>::empty());
                        lemma_drain_sorted::<T, P>(m0, out@);
                        assert(m0.len() == old(self)@.len());
                    }
                    return out;
                },
                Some(value) => {
                    proof {
                        broadcast use vstd::seq_lib::group_to_multiset_ensures;

                        assert(pre.contains(pre[0]));
                        lemma_drains_to_snoc::<T, P>(m0, sofar, pre.to_multiset(), value);
                    }
                    out.push(value);
                },
            }
        }
    }

    /// Among the children of `idx`, the index of the one that the other
    /// does not outrank; with one child, that child.
    fn smallest_child_idx(&self, idx: usize) -> (c: usize)
        requires
            self.counted(),
            2 * (idx as int) + 1 < self@.len(),
        ensures
            c as int == 2 * (idx as int) + 1 || c as int == 2 * (idx as int) + 2,
            c < self@.len(),
            c as int == 2 * (idx as int) + 2 ==> !P::outranks(
                self@[2 * (idx as int) + 1],
                self@[c as int],
            ),
            c as int == 2 * (idx as int) + 1 && 2 * (idx as int) + 2 < self@.len()
                ==> !P::outranks(self@[2 * (idx as int) + 2], self@[c as int]),
    {
        let left_idx = self.left_child_idx(idx);
        let right_idx = self.right_child_idx(idx);
        if right_idx >= self.count {
            return left_idx;
        }
        if self.comparator.higher_priority(&self.items[left_idx], &self.items[right_idx]) {
            proof {
                P::lemma_asymmetric(self@[left_idx as int], self@[right_idx as int]);
            }
            left_idx
        } else {
            right_idx
        }
    }

    /// Whether the node at `idx` has at least one child in the tree.
    fn children_present(&self, idx: usize) -> (r: bool)
        requires
            self.counted(),
        ensures
            r == (2 * (idx as int) + 1 < self@.len()),
    {
        proof {
            let n = self.count as int;
            assert(n == 2 * (n / 2) + (n % 2));
        }
        idx < self.count / 2
    }
}

impl<T> Heap<T, MinHeap> where MinHeap: Priority<T> {
    /// Creates a heap that hands out its smallest element first.
    pub fn new_min() -> (h: Self)
        ensures
            h.well_formed(),
            h@ == Seq::<T>::empty(),
    {
        Heap::new(MinHeap)
    }
}

impl<T> Heap<T, MaxHeap> where MaxHeap: Priority<T> {
    /// Creates a heap that hands out its largest element first.
    pub fn new_max() -> (h: Self)
        ensures
            h.well_formed(),
            h@ == Seq::<T>::empty(),
    {
        Heap::new(MaxHeap)
    }
}

/// Intermediate shape during sift-up: every edge of the tree satisfies the
/// heap order except possibly the one from `c` to its parent, and the
/// children of `c` do not outrank even that parent.
spec fn sift_up_shape<T, P: Priority<T>>(s: Seq<T>, c: int) -> bool {
    &&& 0 <= c < s.len()
    &&& forall|i: int| 1 <= i < s.len() && i != c ==> #[trigger] parent_ok::<T, P>(s, i)
    &&& (0 < c && 2 * c + 1 < s.len() ==> !P::outranks(s[2 * c + 1], s[parent_of(c)]))
    &&& (0 < c && 2 * c + 2 < s.len() ==> !P::outranks(s[2 * c + 2], s[parent_of(c)]))
}

/// One sift-up swap keeps the intermediate shape: when the element at `c`
/// outranks its parent, swapping the two leaves the shape holding at the
/// parent's index.
proof fn lemma_up_step<T, P: Priority<T>>(s: Seq<T>, c: int)
    requires
        sift_up_shape::<T, P>(s, c),
        1 <= c < s.len(),
        P::outranks(s[c], s[parent_of(c)]),
    ensures
        sift_up_shape::<T, P>(
            s.update(c, s[parent_of(c)]).update(parent_of(c), s[c]),
            parent_of(c),
        ),
{
    let p = parent_of(c);
    let t = s.update(c, s[p]).update(p, s[c]);
    lemma_parent_child(c);
    assert forall|i: int| 1 <= i < t.len() && i != p implies #[trigger] parent_ok::<T, P>(t, i) by {
        lemma_parent_child(i);
        if i == c {
            P::lemma_asymmetric(s[c], s[p]);
        } else if parent_of(i) == c {
            // a child of c: the shape carries its value over the parent of c
            assert(!P::outranks(s[i], s[p]));
        } else if parent_of(i) == p {
            // the sibling of c under p
            assert(parent_ok::<T, P>(s, i));
            if P::outranks(s[i], s[c]) {
                P::lemma_transitive(s[i], s[c], s[p]);
            }
        } else {
            assert(parent_ok::<T, P>(s, i));
        }
    }
    if 0 < p {
        let pp = parent_of(p);
        lemma_parent_child(p);
        assert(parent_ok::<T, P>(s, p));
        if 2 * p + 1 < t.len() && 2 * p + 1 != c {
            let o = 2 * p + 1;
            lemma_child_parent(p);
            assert(parent_ok::<T, P>(s, o));
            P::lemma_not_outranks_transitive(s[pp], s[p], s[o]);
        }
        if 2 * p + 2 < t.len() && 2 * p + 2 != c {
            let o = 2 * p + 2;
            lemma_child_parent(p);
            assert(parent_ok::<T, P>(s, o));
            P::lemma_not_outranks_transitive(s[pp], s[p], s[o]);
        }
    }
}

/// Intermediate shape during sift-down: every edge of the tree satisfies
/// the heap order except possibly those from the children of `c` up to
/// `c`, and those children do not outrank the parent of `c`.
spec fn sift_down_shape<T, P: Priority<T>>(s: Seq<T>, c: int) -> bool {
    &&& 0 <= c < s.len()
    &&& forall|i: int| 1 <= i < s.len() && parent_of(i) != c ==> #[trigger] parent_ok::<T, P>(s, i)
    &&& (0 < c && 2 * c + 1 < s.len() ==> !P::outranks(s[2 * c + 1], s[parent_of(c)]))
    &&& (0 < c && 2 * c + 2 < s.len() ==> !P::outranks(s[2 * c + 2], s[parent_of(c)]))
}

/// One sift-down swap keeps the intermediate shape: when the candidate
/// child `k` of `c` outranks `c` and its sibling does not outrank it,
/// swapping the two leaves the shape holding at `k`.
proof fn lemma_down_step<T, P: Priority<T>>(s: Seq<T>, c: int, k: int)
    requires
        sift_down_shape::<T, P>(s, c),
        k == 2 * c + 1 || k == 2 * c + 2,
        0 <= k < s.len(),
        P::outranks(s[k], s[c]),
        forall|o: int|
            (o == 2 * c + 1 || o == 2 * c + 2) && o < s.len() && o != k ==> !P::outranks(
                s[o],
                s[k],
            ),
    ensures
        sift_down_shape::<T, P>(s.update(k, s[c]).update(c, s[k]), k),
{
    let t = s.update(k, s[c]).update(c, s[k]);
    lemma_child_parent(c);
    assert forall|i: int| 1 <= i < t.len() && parent_of(i) != k implies #[trigger] parent_ok::<
        T,
        P,
    >(t, i) by {
        lemma_parent_child(i);
        if i == k {
            P::lemma_asymmetric(s[k], s[c]);
        } else if parent_of(i) == c {
            // the sibling of k: it does not outrank the candidate
            assert(!P::outranks(s[i], s[k]));
        } else if i == c {
            // the edge from c to its parent now carries the candidate,
            // which the shape bounds by that parent
            assert(0 < c);
            assert(!P::outranks(s[k], s[parent_of(c)]));
        } else {
            assert(parent_ok::<T, P>(s, i));
        }
    }
    lemma_child_parent(k);
    if 2 * k + 1 < t.len() {
        lemma_parent_child(2 * k + 1);
        assert(parent_ok::<T, P>(s, 2 * k + 1));
    }
    if 2 * k + 2 < t.len() {
        lemma_parent_child(2 * k + 2);
        assert(parent_ok::<T, P>(s, 2 * k + 2));
    }
}

/// From the heap-order invariant, no element outranks the root: the chain
/// of parent edges from `i` up to the root never goes back up.
pub proof fn lemma_root_extreme<T, P: Priority<T>>(s: Seq<T>, i: int)
    requires
        heap_ordered::<T, P>(s),
        0 <= i < s.len(),
    ensures
        !P::outranks(s[i], s[0]),
    decreases i,
{
    if i == 0 {
        if P::outranks(s[0], s[0]) {
            P::lemma_asymmetric(s[0], s[0]);
        }
    } else {
        let p = parent_of(i);
        lemma_parent_child(i);
        assert(parent_ok::<T, P>(s, i));
        lemma_root_extreme::<T, P>(s, p);
        P::lemma_not_outranks_transitive(s[0], s[p], s[i]);
    }
}

} // verus!
