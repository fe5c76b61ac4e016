use vstd::prelude::*;

verus! {

/// The recoverable failures of the array heap: an index outside the backing
/// sequence, a position with no left child (a leaf), and a position with no
/// right child. `Empty` is declared for callers that want to report an empty
/// heap; no operation here returns it.
#[derive(Debug, Clone, Copy, PartialEq, Eq, Structural)]
pub enum Error {
    IndexOutOfBounds,
    NoLeft,
    NoRight,
    Empty,
}

/// The orientation a heap is built with. Only the min orientation is
/// implemented; building a max heap is unsupported and excluded by
/// `build_heap`'s precondition.
#[derive(Debug, Clone, Copy, PartialEq, Eq, Structural)]
pub enum HeapType {
    MaxHeap,
    MinHeap,
}

/// An array-backed binary heap: the element at position `i` has its parent at
/// `(i + 1) / 2 - 1` and its children at `2 i + 1` and `2 i + 2`.
pub struct BinaryHeap {
    heap: Vec<u32>,
    heap_type: HeapType,
}

/// Position of the parent of position `i` (meaningful for `i >= 1`).
pub open spec fn parent_index(i: int) -> int {
    (i + 1) / 2 - 1
}

/// Position of the left child of position `i`.
pub open spec fn left_index(i: int) -> int {
    2 * i + 1
}

/// Position of the right child of position `i`.
pub open spec fn right_index(i: int) -> int {
    2 * i + 2
}

/// The min-heap order: every position is at least its parent.
pub open spec fn is_min_heap(s: Seq<u32>) -> bool {
    forall|j: int| #![trigger s[parent_index(j)]] 1 <= j < s.len() ==> s[parent_index(j)] <= s[j]
}

/// Whether position `j` lies in the subtree rooted at position `root` of the
/// implicit tree (following parent links from `j` reaches `root`).
pub open spec fn in_subtree(root: int, j: int) -> bool
    decreases j,
{
    if j < 0 || root < 0 {
        false
    } else if j == root {
        true
    } else if j == 0 {
        false
    } else {
        in_subtree(root, parent_index(j))
    }
}

/// The heap order restricted to the subtree rooted at `i`: every edge whose
/// parent end lies in that subtree is ordered.
pub open spec fn heap_at(s: Seq<u32>, i: int) -> bool {
    forall|j: int|
        #![trigger s[parent_index(j)]]
        1 <= j < s.len() && in_subtree(i, parent_index(j)) ==> s[parent_index(j)] <= s[j]
}

/// The heap order on the subtree rooted at `i`, except possibly at `i` itself:
/// the subtrees of `i`'s children are heaps, while `i`'s own element may be
/// out of place.
pub open spec fn heap_below(s: Seq<u32>, i: int) -> bool {
    forall|j: int|
        #![trigger s[parent_index(j)]]
        1 <= j < s.len() && in_subtree(i, parent_index(j)) && parent_index(j) != i ==> s[
            parent_index(j)
        ] <= s[j]
}

/// Every element of the subtree rooted at `i` is at least `v`.
pub open spec fn subtree_ge(s: Seq<u32>, i: int, v: u32) -> bool {
    forall|j: int| #![trigger s[j]] 0 <= j < s.len() && in_subtree(i, j) ==> v <= s[j]
}

/// Index law: each child position computed from `i` has `i` as its parent.
pub proof fn lemma_parent_of_children(i: int)
    requires
        i >= 0,
    ensures
        parent_index(left_index(i)) == i,
        parent_index(right_index(i)) == i,
{
}

/// Index law: every position but the root is the left or the right child of
/// its parent, and the parent lies strictly below it.
pub proof fn lemma_child_of_parent(j: int)
    requires
        j >= 1,
    ensures
        0 <= parent_index(j) < j,
        left_index(parent_index(j)) == j || right_index(parent_index(j)) == j,
{
}

/// A subtree lies at or above its root position, and roots are in range.
pub proof fn lemma_in_subtree_bounds(root: int, j: int)
    requires
        in_subtree(root, j),
    ensures
        0 <= root <= j,
    decreases j,
{
    if j != root {
        lemma_in_subtree_bounds(root, parent_index(j));
    }
}

/// Subtree containment is transitive.
pub proof fn lemma_in_subtree_trans(a: int, b: int, c: int)
    requires
        in_subtree(a, b),
        in_subtree(b, c),
    ensures
        in_subtree(a, c),
    decreases c,
{
    if c != b {
        lemma_in_subtree_trans(a, b, parent_index(c));
    }
}

/// In a subtree that satisfies the heap order, the root holds a least element.
pub proof fn lemma_root_le_subtree(s: Seq<u32>, m: int, k: int)
    requires
        heap_at(s, m),
        0 <= m < s.len(),
        in_subtree(m, k),
        k < s.len(),
    ensures
        s[m] <= s[k],
    decreases k,
{
    if k != m {
        lemma_root_le_subtree(s, m, parent_index(k));
    }
}

/// Every position lies in the subtree rooted at the first position.
pub proof fn lemma_everything_under_root(j: int)
    requires
        j >= 0,
    ensures
        in_subtree(0, j),
    decreases j,
{
    if j > 0 {
        lemma_everything_under_root(parent_index(j));
    }
}

/// In a sequence with the min-heap order, the first element is a least one.
pub proof fn lemma_root_is_minimum(s: Seq<u32>, j: int)
    requires
        is_min_heap(s),
        0 <= j < s.len(),
    ensures
        s[0] <= s[j],
{
    assert(heap_at(s, 0));
    lemma_everything_under_root(j);
    lemma_root_le_subtree(s, 0, j);
}

/// Extractions from a heap in min-heap order come out in non-decreasing
/// order: with `s` the backing sequence before an extraction and `t` the one
/// after it, `extract_min` returns `s[0]` and leaves only elements at least
/// `s[0]`, so the next extraction returns `t[0] >= s[0]`.
pub proof fn lemma_extraction_monotonic(s: Seq<u32>, t: Seq<u32>)
    requires
        is_min_heap(s),
        s.len() >= 1,
        t.len() >= 1,
        forall|j: int| 0 <= j < t.len() ==> s[0] <= #[trigger] t[j],
    ensures
        s[0] <= t[0],
{
}

/// Exchanging two positions of a sequence keeps its multiset of elements.
proof fn lemma_swap_multiset(s: Seq<u32>, i: int, j: int)
    requires
        0 <= i < s.len(),
        0 <= j < s.len(),
        i != j,
    ensures
        s.update(i, s[j]).update(j, s[i]).to_multiset() == s.to_multiset(),
{
    broadcast use vstd::seq_lib::group_to_multiset_ensures;

    let s1 = s.update(i, s[j]);
    let s2 = s1.update(j, s[i]);
    assert(s.contains(s[i]));
    assert(s1.contains(s1[j]));
    assert(s1.to_multiset() == s.to_multiset().insert(s[j]).remove(s[i]));
    assert(s2.to_multiset() == s1.to_multiset().insert(s[i]).remove(s1[j]));
    assert(s2.to_multiset() =~= s.to_multiset());
}

impl View for BinaryHeap {
    type V = Seq<u32>;

    closed spec fn view(&self) -> Seq<u32> {
        self.heap@
    }
}

impl BinaryHeap {
    /// The orientation this heap was constructed with.
    pub closed spec fn orientation(&self) -> HeapType {
        self.heap_type
    }

    pub fn new(heap_type: HeapType, elements: Vec<u32>) -> (r: BinaryHeap)
        ensures
            r@ == elements@,
            r.orientation() == heap_type,
    {
        BinaryHeap { heap: elements, heap_type }
    }

    /// Position of the parent of `index`: fails as out of bounds both for the
    /// root (which has no parent) and for a position outside the heap.
    pub fn parent(&self, index: usize) -> (r: Result<usize, Error>)
        ensures
            r matches Ok(p) ==> 1 <= index < self@.len() && p == parent_index(index as int),
            r matches Err(e) ==> (index == 0 || index >= self@.len()) && e == Error::IndexOutOfBounds,
    {
        if index >= self.heap.len() || index == 0 {
            return Err(Error::IndexOutOfBounds);
        }
        let parent_position: usize = ((index + 1) / 2) - 1;
        Ok(parent_position)
    }

    /// Position of the left child of `index`, or `NoLeft` when that position
    /// falls outside the heap.
    pub fn left(&self, index: usize) -> (r: Result<usize, Error>)
        ensures
            r matches Ok(l) ==> left_index(index as int) < self@.len() && l == left_index(
                index as int,
            ),
            r matches Err(e) ==> left_index(index as int) >= self@.len() && e == Error::NoLeft,
    {
        let len = self.heap.len();
        if index < len / 2 {
            let left_position: usize = (index * 2) + 1;
            assert(left_position < len);
            Ok(left_position)
        } else {
            Err(Error::NoLeft)
        }
    }

    /// Position of the right child of `index`, or `NoRight` when that position
    /// falls outside the heap.
    pub fn right(&self, index: usize) -> (r: Result<usize, Error>)
        ensures
            r matches Ok(l) ==> right_index(index as int) < self@.len() && l == right_index(
                index as int,
            ),
            r matches Err(e) ==> right_index(index as int) >= self@.len() && e == Error::NoRight,
    {
        let len = self.heap.len();
        if len >= 1 && index < (len - 1) / 2 {
            let right_position: usize = (index * 2) + 2;
            assert(right_position < len);
            Ok(right_position)
        } else {
            Err(Error::NoRight)
        }
    }

    /// Restore the min-heap order at `index` by sifting its element downward,
    /// assuming the subtrees of its children already satisfy the order. Fails
    /// only when `index` is outside the heap; a position without a left child
    /// is a leaf and succeeds with nothing to do.
    fn min_heapify(&mut self, index: usize) -> (r: Result<(), Error>)
        ensures
            final(self).orientation() == old(self).orientation(),
            final(self)@.len() == old(self)@.len(),
            r matches Ok(u) <==> index < old(self)@.len(),
            r matches Err(e) ==> e == Error::IndexOutOfBounds && *final(self) == *old(self),
            final(self)@.to_multiset() == old(self)@.to_multiset(),
            forall|j: int|
                0 <= j < old(self)@.len() && !in_subtree(index as int, j) ==> final(self)@[j]
                    == old(self)@[j],
            index < old(self)@.len() ==> final(self)@[index as int] <= old(self)@[index as int],
            forall|v: u32|
                subtree_ge(old(self)@, index as int, v) ==> subtree_ge(
                    final(self)@,
                    index as int,
                    v,
                ),
            heap_below(old(self)@, index as int) ==> heap_at(final(self)@, index as int),
        decreases old(self)@.len() - index,
    {
        let ghost s0 = self.heap@;
        let ghost root = index as int;
        if index >= self.heap.len() {
            return Err(Error::IndexOutOfBounds);
        }

        let left = match self.left(index) {
            Ok(l) => l,
            Err(_) => {
                proof {
                    assert forall|j: int|
                        1 <= j < s0.len() && in_subtree(root, parent_index(j)) implies s0[
                        parent_index(j)] <= s0[j] by {
                        lemma_in_subtree_bounds(root, parent_index(j));
                        lemma_child_of_parent(j);
                        assert(false);
                    }
                }
                return Ok(());
            },
        };

        // a missing right child must never win the comparison for the
        // smallest element, so it falls back to the element at `index`
        let right = match self.right(index) {
            Ok(r) => r,
            Err(_) => index,
        };

        let mut smallest: usize = if self.heap[left] < self.heap[index] {
            left
        } else {
            index
        };

        if self.heap[right] < self.heap[smallest] {
            smallest = right;
        }

        if index != smallest {
            proof {
                lemma_parent_of_children(root);
                assert(in_subtree(root, root));
                assert(in_subtree(root, smallest as int));
            }
            let temp = self.heap[smallest];
            let kept = self.heap[index];
            self.heap.set(smallest, kept);
            self.heap.set(index, temp);
            let ghost s1 = self.heap@;
            let ghost small = smallest as int;
            let ghost m = s0[small];
            proof {
                lemma_swap_multiset(s0, small, root);
                assert(s1 == s0.update(small, s0[root]).update(root, s0[small]));
                // positions strictly inside the child subtree are untouched
                assert forall|p: int| in_subtree(small, p) implies root < small <= p by {
                    lemma_in_subtree_bounds(small, p);
                }
                // the element swapped down to the root is least among the three
                assert(m <= s0[root] && m <= s0[left as int] && m <= s0[right as int]);
                // everything reachable from `smallest` stays reachable from `index`
                assert forall|p: int| in_subtree(small, p) implies in_subtree(root, p) by {
                    lemma_in_subtree_trans(root, small, p);
                }
                // the other child of `index` is outside the swapped subtree
                assert forall|o: int|
                    parent_index(o) == root && o != small implies !in_subtree(small, o) by {
                    if in_subtree(small, o) {
                        lemma_in_subtree_bounds(small, o);
                        assert(o >= 1);
                        assert(in_subtree(small, root));
                        lemma_in_subtree_bounds(small, root);
                    }
                }
                // under the hypothesis of the heapify clause, the swapped
                // subtree keeps the order below its root
                if heap_below(s0, root) {
                    assert forall|j: int|
                        1 <= j < s1.len() && in_subtree(small, parent_index(j)) && parent_index(j)
                            != small implies s1[parent_index(j)] <= s1[j] by {
                        lemma_in_subtree_bounds(small, parent_index(j));
                        lemma_child_of_parent(j);
                        lemma_in_subtree_trans(root, small, parent_index(j));
                    }
                    assert(heap_below(s1, small));
                    // in the old state the child subtree was fully ordered,
                    // so its root held its least element
                    assert forall|j: int|
                        1 <= j < s0.len() && in_subtree(small, parent_index(j)) implies s0[
                        parent_index(j)] <= s0[j] by {
                        lemma_in_subtree_bounds(small, parent_index(j));
                        lemma_in_subtree_trans(root, small, parent_index(j));
                    }
                    assert(heap_at(s0, small));
                    assert forall|p: int| 0 <= p < s1.len() && in_subtree(small, p) implies m <= s1[
                        p] by {
                        if p != small {
                            lemma_root_le_subtree(s0, small, p);
                        }
                    }
                    assert(subtree_ge(s1, small, m));
                }
            }
            let rec = self.min_heapify(smallest);
            proof {
                let t = self.heap@;
                // frame: positions outside the subtree of `index` kept their
                // old elements through both the swap and the recursion
                assert forall|j: int|
                    0 <= j < s0.len() && !in_subtree(root, j) implies t[j] == s0[j] by {
                    if in_subtree(small, j) {
                        lemma_in_subtree_trans(root, small, j);
                    }
                }
                assert(t[root] == s1[root]);
                // lower bounds on the whole subtree are preserved
                assert forall|v: u32| subtree_ge(s0, root, v) implies subtree_ge(t, root, v) by {
                    assert forall|p: int|
                        0 <= p < s1.len() && in_subtree(small, p) implies v <= s1[p] by {
                        lemma_in_subtree_trans(root, small, p);
                    }
                    assert(subtree_ge(s1, small, v));
                    assert forall|j: int| 0 <= j < t.len() && in_subtree(root, j) implies v <= t[
                        j] by {
                        if in_subtree(small, j) {
                            assert(subtree_ge(t, small, v));
                        } else if j != root {
                            assert(t[j] == s0[j]);
                        }
                    }
                }
                if heap_below(s0, root) {
                    assert(heap_at(t, small));
                    assert(subtree_ge(t, small, m));
                    assert forall|j: int|
                        1 <= j < t.len() && in_subtree(root, parent_index(j)) implies t[
                        parent_index(j)] <= t[j] by {
                        let p = parent_index(j);
                        lemma_child_of_parent(j);
                        lemma_in_subtree_bounds(root, p);
                        if p == root {
                            // `j` is one of the two children of `index`
                            assert(t[root] == m);
                            if j == small {
                                assert(in_subtree(small, small));
                                assert(t[j] >= m);
                            } else {
                                assert(!in_subtree(small, j));
                                assert(t[j] == s0[j]);
                                assert(j == left as int || j == right as int);
                            }
                        } else if in_subtree(small, p) {
                            // inside the recursively ordered subtree
                            assert(t[j] >= t[p]);
                        } else {
                            // an untouched edge of the old arrangement
                            assert(!in_subtree(small, j)) by {
                                if in_subtree(small, j) {
                                    lemma_in_subtree_bounds(small, j);
                                    if j != small {
                                        assert(in_subtree(small, parent_index(j)));
                                    } else {
                                        assert(parent_index(small) == root);
                                    }
                                }
                            }
                            assert(t[j] == s0[j] && t[p] == s0[p]);
                        }
                    }
                    assert(heap_at(t, root));
                }
            }
            return match rec {
                Ok(u) => Ok(u),
                Err(Error::NoLeft) => Ok(()),
                Err(Error::NoRight) => Ok(()),
                Err(e) => Err(e),
            };
        }

        proof {
            // `index` already holds an element no larger than its children,
            // so under the heapify hypothesis its whole subtree is ordered
            if heap_below(s0, root) {
                lemma_parent_of_children(root);
                assert forall|j: int|
                    1 <= j < s0.len() && in_subtree(root, parent_index(j)) implies s0[
                    parent_index(j)] <= s0[j] by {
                    lemma_child_of_parent(j);
                    lemma_in_subtree_bounds(root, parent_index(j));
                }
                assert(heap_at(s0, root));
            }
        }
        Ok(())
    }

    /// Establish the min-heap order over the whole backing sequence, sifting
    /// down at every position that has a child, from the last such position
    /// back to the root. A sequence of at most one element is left untouched.
    fn build_min_heap(&mut self)
        ensures
            final(self).orientation() == old(self).orientation(),
            final(self)@.len() == old(self)@.len(),
            final(self)@.to_multiset() == old(self)@.to_multiset(),
            is_min_heap(final(self)@),
            old(self)@.len() <= 1 ==> final(self)@ == old(self)@,
    {
        let heap_size = self.heap.len();

        if heap_size > 1 {
            let mut index = heap_size / 2;
            proof {
                assert forall|j: int|
                    #![trigger self.heap@[parent_index(j)]]
                    1 <= j < self.heap@.len() && parent_index(j) >= index implies self.heap@[
                    parent_index(j)] <= self.heap@[j] by {
                    lemma_child_of_parent(j);
                }
            }
            while index > 0
                invariant
                    index <= heap_size,
                    heap_size == self.heap@.len(),
                    self.heap@.len() == old(self)@.len(),
                    self.heap_type == old(self).heap_type,
                    self.heap@.to_multiset() == old(self)@.to_multiset(),
                    forall|j: int|
                        #![trigger self.heap@[parent_index(j)]]
                        1 <= j < self.heap@.len() && parent_index(j) >= index ==> self.heap@[
                        parent_index(j)] <= self.heap@[j],
                decreases index,
            {
                index -= 1;
                let ghost s = self.heap@;
                let ghost root = index as int;
                proof {
                    assert forall|j: int|
                        1 <= j < s.len() && in_subtree(root, parent_index(j)) && parent_index(j)
                            != root implies s[parent_index(j)] <= s[j] by {
                        lemma_in_subtree_bounds(root, parent_index(j));
                    }
                    assert(heap_below(s, root));
                }
                let _r = self.min_heapify(index);
                proof {
                    let t = self.heap@;
                    assert(heap_at(t, root));
                    assert forall|j: int|
                        #![trigger t[parent_index(j)]]
                        1 <= j < t.len() && parent_index(j) >= root implies t[parent_index(j)] <= t[
                        j] by {
                        let p = parent_index(j);
                        lemma_child_of_parent(j);
                        if !in_subtree(root, p) {
                            assert(!in_subtree(root, j));
                            assert(t[j] == s[j] && t[p] == s[p]);
                        }
                    }
                }
            }
            proof {
                assert forall|j: int|
                    #![trigger self.heap@[parent_index(j)]]
                    1 <= j < self.heap@.len() implies self.heap@[parent_index(j)]
                    <= self.heap@[j] by {
                    lemma_child_of_parent(j);
                }
            }
        }
    }

    /// Bring the heap into the order of its orientation. Only the min
    /// orientation is implemented; a max heap is unsupported, which the
    /// precondition makes unreachable.
    pub fn build_heap(&mut self)
        requires
            old(self).orientation() == HeapType::MinHeap,
        ensures
            final(self).orientation() == old(self).orientation(),
            final(self)@.len() == old(self)@.len(),
            final(self)@.to_multiset() == old(self)@.to_multiset(),
            is_min_heap(final(self)@),
            old(self)@.len() <= 1 ==> final(self)@ == old(self)@,
    {
        match self.heap_type {
            HeapType::MinHeap => self.build_min_heap(),
            HeapType::MaxHeap => vstd::pervasive::unreached(),
        }
    }

    /// Remove and return the least element of a heap in min-heap order, then
    /// restore that order; `None` on an empty heap, which stays untouched. On
    /// a backing sequence out of order it still removes and returns the first
    /// element.
    pub fn extract_min(&mut self) -> (r: Option<u32>)
        ensures
            final(self).orientation() == old(self).orientation(),
            old(self)@.len() == 0 ==> r == None::<u32> && *final(self) == *old(self),
            old(self)@.len() > 0 ==> r == Some(old(self)@[0]) && final(self)@.len() == old(
                self,
            )@.len() - 1 && old(self)@.to_multiset() == final(self)@.to_multiset().insert(
                old(self)@[0],
            ),
            (is_min_heap(old(self)@) && old(self)@.len() > 0) ==> (is_min_heap(final(self)@)
                && (forall|j: int|
                0 <= j < final(self)@.len() ==> old(self)@[0] <= #[trigger] final(self)@[j])),
    {
        broadcast use vstd::seq_lib::group_to_multiset_ensures;

        let ghost s0 = self.heap@;
        if self.heap.len() == 1 {
            let minimum = self.heap[0];
            self.heap.remove(0);
            proof {
                assert(s0.contains(s0[0]));
                assert(s0.to_multiset() =~= self.heap@.to_multiset().insert(minimum));
            }
            return Some(minimum);
        }

        match self.minimum() {
            None => None,
            Some(minimum) => {
                let last_index = self.heap.len() - 1;
                let last_val = self.heap[last_index];
                self.heap.set(0, last_val);
                self.heap.remove(last_index);
                let ghost s2 = self.heap@;
                proof {
                    let s1 = s0.update(0, s0[last_index as int]);
                    assert(s2 == s1.remove(last_index as int));
                    assert(s0.contains(s0[0]));
                    assert(s1[last_index as int] == s0[last_index as int]);
                    assert(s2.to_multiset() =~= s0.to_multiset().remove(s0[0]));
                    assert(s0.to_multiset() =~= s2.to_multiset().insert(s0[0]));
                    if is_min_heap(s0) {
                        assert forall|j: int|
                            1 <= j < s2.len() && in_subtree(0, parent_index(j)) && parent_index(j)
                                != 0 implies s2[parent_index(j)] <= s2[j] by {
                            lemma_in_subtree_bounds(0, parent_index(j));
                            assert(s2[j] == s0[j] && s2[parent_index(j)] == s0[parent_index(j)]);
                        }
                        assert(heap_below(s2, 0));
                        assert forall|p: int| 0 <= p < s2.len() && in_subtree(0, p) implies s0[0]
                            <= s2[p] by {
                            if p == 0 {
                                lemma_root_is_minimum(s0, last_index as int);
                            } else {
                                lemma_root_is_minimum(s0, p);
                            }
                        }
                        assert(subtree_ge(s2, 0, s0[0]));
                    }
                }
                let _res = self.min_heapify(0);
                proof {
                    let t = self.heap@;
                    if is_min_heap(s0) {
                        assert(heap_at(t, 0));
                        assert forall|j: int| 1 <= j < t.len() implies t[parent_index(j)] <= t[
                        j] by {
                            lemma_child_of_parent(j);
                            lemma_everything_under_root(parent_index(j));
                        }
                        assert(is_min_heap(t));
                        assert(subtree_ge(t, 0, s0[0]));
                        assert forall|j: int| 0 <= j < t.len() implies s0[0] <= t[j] by {
                            lemma_everything_under_root(j);
                        }
                    }
                }
                Some(minimum)
            },
        }
    }

    /// The backing sequence, in heap order after `build_heap`.
    pub fn elements(&self) -> (r: &Vec<u32>)
        ensures
            r@ == self@,
    {
        &self.heap
    }

    /// The element at the root, or `None` on an empty heap. After `build_heap`
    /// this is the least element.
    pub fn minimum(&self) -> (r: Option<u32>)
        ensures
            r == (if self@.len() == 0 {
                Option::<u32>::None
            } else {
                Option::<u32>::Some(self@[0])
            }),
    {
        if self.heap.is_empty() {
            None
        } else {
            Some(self.heap[0])
        }
    }
}

} // verus!
