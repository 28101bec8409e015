use std::cmp::Ordering;
use std::collections::HashMap;
use vstd::laws_cmp::obeys_cmp;
use vstd::prelude::*;
use vstd::std_specs::cmp::{OrdSpec, PartialEqSpec, PartialOrdSpec};

verus! {

broadcast use vstd::std_specs::hash::group_hash_axioms;

/// Unique identification of the elements stored in a [`BinaryMaxHeap`].
pub trait Uid {
    /// The identifier of this element, as a mathematical value.
    spec fn spec_uid(&self) -> u64;

    /// Unique identifier of the element. Every call on a given element
    /// returns the same value.
    fn uid(&self) -> (r: u64)
        ensures
            r == self.spec_uid(),
    ;
}

/// A `(priority, id)` pair: ordered by priority first, identified by `id`.
impl Uid for (u64, u64) {
    open spec fn spec_uid(&self) -> u64 {
        self.1
    }

    fn uid(&self) -> (r: u64) {
        self.1
    }
}

/// Position of the parent of heap position `i` (for `i > 0`).
pub open spec fn parent(i: int) -> int {
    (i - 1) / 2
}

/// `a` does not have a higher priority than `b`.
pub open spec fn prio_le<T: Ord>(a: T, b: T) -> bool {
    a.cmp_spec(&b) != Ordering::Greater
}

/// Every edge whose parent lies at position `lo` or beyond is ordered,
/// except the edges that touch position `k`; the children of `k` are not
/// above the parent of `k` (when that parent counts).
pub open spec fn heap_except<T: Ord>(s: Seq<T>, k: int, lo: int) -> bool {
    &&& forall|j: int|
        0 < j < s.len() && parent(j) >= lo && j != k && parent(j) != k ==> #[trigger] prio_le(
            s[j],
            s[parent(j)],
        )
    &&& (0 < k && parent(k) >= lo) ==> forall|j: int|
        0 < j < s.len() && parent(j) == k ==> #[trigger] prio_le(s[j], s[parent(k)])
}

/// Position `j` lies in the subtree rooted at position `r`.
pub open spec fn in_subtree(j: int, r: int) -> bool
    decreases j,
{
    if j <= r || j <= 0 {
        j == r
    } else {
        in_subtree(parent(j), r)
    }
}

/// Position `j` lies on the path from position `top` down to position `p`.
pub open spec fn on_path(j: int, top: int, p: int) -> bool {
    in_subtree(p, j) && in_subtree(j, top)
}

/// Within the subtree rooted at `r`, every edge is ordered except those
/// that touch position `k`; when `k` lies strictly inside the subtree, the
/// children of `k` are not above the parent of `k`.
pub open spec fn subtree_heap_except<T: Ord>(s: Seq<T>, r: int, k: int) -> bool {
    &&& forall|j: int|
        0 < j < s.len() && in_subtree(j, r) && j != r && j != k && parent(j) != k ==> #[trigger] prio_le(
            s[j],
            s[parent(j)],
        )
    &&& (k != r && in_subtree(k, r)) ==> forall|j: int|
        0 < j < s.len() && parent(j) == k ==> #[trigger] prio_le(s[j], s[parent(k)])
}

/// Every position lies in the subtree of the root.
proof fn lemma_subtree_of_root(j: int)
    requires
        j >= 0,
    ensures
        in_subtree(j, 0),
    decreases j,
{
    if j > 0 {
        lemma_subtree_of_root(parent(j));
    }
}

/// Every element is not above its parent: the max-heap order.
pub open spec fn is_heap<T: Ord>(s: Seq<T>) -> bool {
    forall|j: int| 0 < j < s.len() ==> #[trigger] prio_le(s[j], s[parent(j)])
}

/// No two elements of `s` share an identifier.
pub open spec fn distinct_uids<T: Uid>(s: Seq<T>) -> bool {
    forall|i: int, j: int|
        0 <= i < s.len() && 0 <= j < s.len() && i != j ==> #[trigger] s[i].spec_uid()
            != #[trigger] s[j].spec_uid()
}

/// `m` maps the identifier of each element of `s` to its position, and
/// holds nothing else.
pub open spec fn positions_ok<T: Uid>(s: Seq<T>, m: Map<u64, usize>) -> bool {
    &&& forall|i: int|
        0 <= i < s.len() ==> m.contains_key(#[trigger] s[i].spec_uid()) && m[s[i].spec_uid()]
            == i
    &&& forall|u: u64|
        #[trigger] m.contains_key(u) ==> m[u] < s.len() && s[m[u] as int].spec_uid() == u
}

/// What a total order gives the heap: `Less` and `Greater` mirror each
/// other, and "not above" is transitive and reflexive.
proof fn lemma_order_laws<T: Ord>()
    requires
        obeys_cmp::<T>(),
    ensures
        T::obeys_cmp_spec(),
        forall|a: T, b: T| #[trigger]
            a.cmp_spec(&b) == Ordering::Less <==> b.cmp_spec(&a) == Ordering::Greater,
        forall|a: T, b: T, c: T|
            #[trigger] prio_le(a, b) && #[trigger] prio_le(b, c) ==> prio_le(a, c),
        forall|a: T| #[trigger] prio_le(a, a),
{
    reveal(vstd::laws_cmp::obeys_cmp_ord);
    reveal(vstd::laws_cmp::obeys_partial_cmp_spec_properties);
    reveal(vstd::laws_cmp::obeys_cmp_partial_ord);
    reveal(vstd::laws_eq::obeys_eq_spec_properties);
    assert forall|a: T, b: T|
        #[trigger] a.cmp_spec(&b) == Ordering::Less <==> b.cmp_spec(&a) == Ordering::Greater by {
        assert(a.partial_cmp_spec(&b) == Some(a.cmp_spec(&b)));
        assert(b.partial_cmp_spec(&a) == Some(b.cmp_spec(&a)));
    }
    assert forall|a: T, b: T, c: T|
        #[trigger] prio_le(a, b) && #[trigger] prio_le(b, c) implies prio_le(a, c) by {
        assert(a.partial_cmp_spec(&b) == Some(a.cmp_spec(&b)));
        assert(b.partial_cmp_spec(&c) == Some(b.cmp_spec(&c)));
        assert(a.partial_cmp_spec(&c) == Some(a.cmp_spec(&c)));
        assert(c.partial_cmp_spec(&a) == Some(c.cmp_spec(&a)));
        assert(c.partial_cmp_spec(&b) == Some(c.cmp_spec(&b)));
        assert(b.partial_cmp_spec(&a) == Some(b.cmp_spec(&a)));
        if a.cmp_spec(&c) == Ordering::Greater {
            assert(c.cmp_spec(&a) == Ordering::Less);
            if a.cmp_spec(&b) == Ordering::Less {
                if b.cmp_spec(&c) == Ordering::Less {
                    assert(a.cmp_spec(&c) == Ordering::Less);
                } else {
                    assert(b.eq_spec(&c));
                    assert(c.cmp_spec(&b) == Ordering::Equal);
                    assert(c.eq_spec(&b));
                }
            } else {
                assert(a.eq_spec(&b));
                if b.cmp_spec(&c) == Ordering::Less {
                    assert(c.cmp_spec(&b) == Ordering::Greater);
                    assert(c.cmp_spec(&a) == Ordering::Less);
                    assert(b.eq_spec(&a));
                } else {
                    assert(b.eq_spec(&c));
                    assert(a.eq_spec(&c));
                    assert(a.cmp_spec(&c) == Ordering::Equal);
                }
            }
        }
    }
}

/// The identifiers of the elements of `s`.
pub open spec fn uids_of<T: Uid>(s: Seq<T>) -> Set<u64> {
    Set::new(|u: u64| exists|i: int| 0 <= i < s.len() && #[trigger] s[i].spec_uid() == u)
}

proof fn lemma_except_nothing<T: Ord>(s: Seq<T>, k: int)
    requires
        heap_except(s, k, 0),
        k < 0 || k >= s.len(),
    ensures
        is_heap(s),
{
    assert forall|j: int| 0 < j < s.len() implies #[trigger] prio_le(s[j], s[parent(j)]) by {
        assert(parent(j) < j);
    }
}

proof fn lemma_heap_root_is_max<T: Ord>(s: Seq<T>, j: int)
    requires
        obeys_cmp::<T>(),
        is_heap(s),
        0 <= j < s.len(),
    ensures
        prio_le(s[j], s[0]),
    decreases j,
{
    lemma_order_laws::<T>();
    if j > 0 {
        lemma_heap_root_is_max(s, parent(j));
        assert(prio_le(s[j], s[parent(j)]));
    }
}

/// Replacing one element of a max heap by another element with the same
/// identifier leaves a buffer whose index is still correct and whose order
/// is broken at most around that position: exactly what
/// [`BinaryMaxHeap::restore_heap_property`] repairs.
pub proof fn lemma_replace_keeps_restorable<T: Ord + Uid>(
    s: Seq<T>,
    m: Map<u64, usize>,
    i: int,
    x: T,
)
    requires
        obeys_cmp::<T>(),
        is_heap(s),
        positions_ok(s, m),
        0 <= i < s.len(),
        x.spec_uid() == s[i].spec_uid(),
    ensures
        heap_except(s.update(i, x), i, 0),
        positions_ok(s.update(i, x), m),
{
    lemma_order_laws::<T>();
    let t = s.update(i, x);
    assert forall|j: int|
        0 < j < t.len() && parent(j) >= 0 && j != i && parent(j) != i implies #[trigger] prio_le(
        t[j],
        t[parent(j)],
    ) by {
        assert(prio_le(s[j], s[parent(j)]));
    }
    if 0 < i {
        assert forall|j: int| 0 < j < t.len() && parent(j) == i implies #[trigger] prio_le(
            t[j],
            t[parent(i)],
        ) by {
            assert(prio_le(s[j], s[i]));
            assert(prio_le(s[i], s[parent(i)]));
        }
    }
    assert forall|u: u64| #[trigger] m.contains_key(u) implies m[u] < t.len() && t[m[u] as int].spec_uid()
        == u by {
        assert(s[m[u] as int].spec_uid() == u);
    }
    assert forall|k: int| 0 <= k < t.len() implies m.contains_key(#[trigger] t[k].spec_uid())
        && m[t[k].spec_uid()] == k by {
        assert(m.contains_key(s[k].spec_uid()));
    }
}

/// Relies on `<[T]>::swap`: exchanges the elements at positions `i` and `j`.
#[verifier::external_body]
fn swap_slots<T>(v: &mut Vec<T>, i: usize, j: usize)
    requires
        i < old(v)@.len(),
        j < old(v)@.len(),
    ensures
        final(v)@ == old(v)@.update(i as int, old(v)@[j as int]).update(j as int, old(v)@[i as int]),
{
    v.swap(i, j)
}

/// A re-prioritizable binary max heap: a buffer of elements in heap order
/// and an index from element identifiers to their positions in the buffer.
pub struct BinaryMaxHeap<T> where T: Ord + Uid {
    buffer: Vec<T>,
    index: HashMap<u64, usize>,
}

impl<T> BinaryMaxHeap<T> where T: Ord + Uid {
    /// The elements, in buffer order.
    pub closed spec fn view(&self) -> Seq<T> {
        self.buffer@
    }

    /// The index: identifier to buffer position.
    pub closed spec fn positions(&self) -> Map<u64, usize> {
        self.index@
    }

    /// The index agrees with the buffer.
    pub open spec fn index_ok(&self) -> bool {
        positions_ok(self@, self.positions())
    }

    /// Well-formed: the ordering is a total order, the index agrees with the
    /// buffer, and the buffer is in max-heap order.
    pub open spec fn wf(&self) -> bool {
        &&& obeys_cmp::<T>()
        &&& self.index_ok()
        &&& is_heap(self@)
    }

    #[inline]
    pub fn is_empty(&self) -> (r: bool)
        ensures
            r == (self@.len() == 0),
    {
        self.buffer.is_empty()
    }

    #[inline]
    pub fn len(&self) -> (r: usize)
        ensures
            r == self@.len(),
    {
        self.buffer.len()
    }

    /// Swaps the elements at the given positions, first in the index, then
    /// in the buffer.
    #[inline]
    fn swap_elems_at_indices(&mut self, i: usize, j: usize)
        requires
            i < old(self)@.len(),
            j < old(self)@.len(),
            old(self).index_ok(),
        ensures
            final(self)@ == old(self)@.update(i as int, old(self)@[j as int]).update(
                j as int,
                old(self)@[i as int],
            ),
            final(self).index_ok(),
            final(self).positions().dom() == old(self).positions().dom(),
    {
        let ghost s = self@;
        let ui = self.buffer[i].uid();
        let uj = self.buffer[j].uid();
        self.index.insert(ui, j);
        self.index.insert(uj, i);
        swap_slots(&mut self.buffer, i, j);
        proof {
            let t = self@;
            let m = self.positions();
            assert forall|k: int| 0 <= k < t.len() implies m.contains_key(
                #[trigger] t[k].spec_uid(),
            ) && m[t[k].spec_uid()] == k by {
                if k != i && k != j {
                    assert(s[k].spec_uid() != ui);
                    assert(s[k].spec_uid() != uj);
                }
            }
            assert forall|u: u64| #[trigger] m.contains_key(u) implies m[u] < t.len()
                && t[m[u] as int].spec_uid() == u by {
                if u != ui && u != uj {
                    let k = old(self).positions()[u] as int;
                    assert(s[k].spec_uid() == u);
                }
            }
            assert(self.positions().dom() =~= old(self).positions().dom());
        }
    }

    /// Compares the elements at the given positions.
    #[inline]
    fn cmp(&self, i: usize, j: usize) -> (r: Ordering)
        requires
            i < self@.len(),
            j < self@.len(),
            T::obeys_cmp_spec(),
        ensures
            r == self@[i as int].cmp_spec(&self@[j as int]),
    {
        self.buffer[i].cmp(&self.buffer[j])
    }

    /// Records in the index the position `i` of the element stored there.
    /// Returns the position previously recorded for its identifier.
    #[inline]
    fn update_index(&mut self, i: usize) -> (r: Option<usize>)
        ensures
            final(self)@ == old(self)@,
            i >= old(self)@.len() ==> r is None && final(self).positions() == old(self).positions(),
            i < old(self)@.len() ==> {
                let u = old(self)@[i as int].spec_uid();
                &&& final(self).positions() == old(self).positions().insert(u, i)
                &&& r == (if old(self).positions().contains_key(u) {
                    Some(old(self).positions()[u])
                } else {
                    None
                })
            },
    {
        if i >= self.len() {
            return None;
        }
        let u = self.buffer[i].uid();
        self.index.insert(u, i)
    }

    /// Moves the element at `idx` up towards the root while it is above its
    /// parent. Returns its new position if it moved.
    fn heapify_up(&mut self, idx: usize) -> (r: Option<usize>)
        requires
            obeys_cmp::<T>(),
            old(self).index_ok(),
            idx < old(self)@.len(),
            heap_except(old(self)@, idx as int, 0),
        ensures
            final(self).index_ok(),
            final(self).positions().dom() == old(self).positions().dom(),
            final(self)@.to_multiset() == old(self)@.to_multiset(),
            final(self)@.len() == old(self)@.len(),
            match r {
                Some(p) => {
                    &&& p < idx
                    &&& final(self)@[p as int] == old(self)@[idx as int]
                    &&& is_heap(final(self)@)
                },
                None => {
                    &&& final(self)@ == old(self)@
                    &&& (idx > 0 ==> prio_le(
                        old(self)@[idx as int],
                        old(self)@[parent(idx as int)],
                    ))
                },
            },
    {
        proof {
            lemma_order_laws::<T>();
        }
        let ghost s0 = self@;
        let ghost d0 = self.positions().dom();
        let mut i = idx;
        while i > 0
            invariant
                obeys_cmp::<T>(),
                T::obeys_cmp_spec(),
                self.index_ok(),
                self.positions().dom() == d0,
                self@.to_multiset() == s0.to_multiset(),
                self@.len() == s0.len(),
                i <= idx < s0.len(),
                heap_except(self@, i as int, 0),
                i == idx ==> self@ == s0,
                i != idx ==> forall|c: int|
                    0 < c < self@.len() && parent(c) == i ==> #[trigger] prio_le(
                        self@[c],
                        self@[i as int],
                    ),
                self@[i as int] == s0[idx as int],
            ensures
                self.index_ok(),
                self.positions().dom() == d0,
                self@.to_multiset() == s0.to_multiset(),
                self@.len() == s0.len(),
                i <= idx < s0.len(),
                heap_except(self@, i as int, 0),
                i == idx ==> self@ == s0,
                i != idx ==> forall|c: int|
                    0 < c < self@.len() && parent(c) == i ==> #[trigger] prio_le(
                        self@[c],
                        self@[i as int],
                    ),
                self@[i as int] == s0[idx as int],
                i > 0 ==> prio_le(self@[i as int], self@[parent(i as int)]),
            decreases i,
        {
            let p = (i - 1) / 2;
            if let Ordering::Greater = self.cmp(i, p) {
                let ghost s = self@;
                self.swap_elems_at_indices(i, p);
                proof {
                    broadcast use vstd::seq_lib::group_to_multiset_ensures;

                    lemma_order_laws::<T>();
                    let t = self@;
                    assert(t =~= s.update(i as int, s[p as int]).update(p as int, s[i as int]));
                    assert(t.to_multiset() == s.to_multiset());
                    assert(s[p as int].cmp_spec(&s[i as int]) == Ordering::Less);
                    assert(prio_le(s[p as int], s[i as int]));
                    assert forall|j: int|
                        0 < j < t.len() && parent(j) >= 0 && j != p && parent(j) != p implies #[trigger] prio_le(
                        t[j],
                        t[parent(j)],
                    ) by {
                        if parent(j) == i {
                            assert(prio_le(s[j], s[parent(i as int)]));
                        } else {
                            assert(prio_le(s[j], s[parent(j)]));
                        }
                    }
                    if 0 < p {
                        assert forall|j: int|
                            0 < j < t.len() && parent(j) == p implies #[trigger] prio_le(
                            t[j],
                            t[parent(p as int)],
                        ) by {
                            assert(prio_le(s[p as int], s[parent(p as int)]));
                            assert(t[parent(p as int)] == s[parent(p as int)]);
                            if j != i {
                                assert(prio_le(s[j], s[p as int]));
                                assert(t[j] == s[j]);
                                assert(prio_le(s[j], s[parent(p as int)]));
                            }
                        }
                    }
                    assert forall|c: int|
                        0 < c < t.len() && parent(c) == p implies #[trigger] prio_le(
                        t[c],
                        t[p as int],
                    ) by {
                        if c != i {
                            assert(prio_le(s[c], s[p as int]));
                        }
                    }
                }
                i = p;
            } else {
                break;
            }
        }
        proof {
            let t = self@;
            if i != idx {
                assert forall|j: int| 0 < j < t.len() implies #[trigger] prio_le(
                    t[j],
                    t[parent(j)],
                ) by {
                    if parent(j) == i {
                    } else if j == i {
                    } else {
                        assert(prio_le(t[j], t[parent(j)]));
                    }
                }
            }
        }
        if i != idx {
            Some(i)
        } else {
            None
        }
    }

    /// Moves the element at `idx` down towards the leaves while one of its
    /// children is above it, each time swapping it with the larger child.
    /// When the two subtrees under `idx` are heaps, the subtree rooted at
    /// `idx` is one afterwards; only the positions on the path from `idx`
    /// down to where the element ends up change. Returns the element's new
    /// position if it moved.
    fn heapify_dn(&mut self, idx: usize) -> (r: Option<usize>)
        requires
            obeys_cmp::<T>(),
            old(self).index_ok(),
            subtree_heap_except(old(self)@, idx as int, idx as int),
        ensures
            final(self).index_ok(),
            final(self).positions().dom() == old(self).positions().dom(),
            final(self)@.to_multiset() == old(self)@.to_multiset(),
            final(self)@.len() == old(self)@.len(),
            subtree_heap_except(final(self)@, idx as int, -1),
            forall|j: int|
                0 <= j < old(self)@.len() && !in_subtree(j, idx as int)
                    ==> #[trigger] final(self)@[j] == old(self)@[j],
            match r {
                Some(p) => {
                    &&& idx < p < old(self)@.len()
                    &&& in_subtree(p as int, idx as int)
                    &&& final(self)@[p as int] == old(self)@[idx as int]
                    &&& forall|j: int|
                        0 <= j < old(self)@.len() && !on_path(j, idx as int, p as int)
                            ==> #[trigger] final(self)@[j] == old(self)@[j]
                    &&& 2 * idx + 1 < old(self)@.len()
                    &&& (final(self)@[idx as int] == old(self)@[2 * idx + 1] || (2 * idx + 2
                        < old(self)@.len() && final(self)@[idx as int] == old(self)@[2 * idx + 2]))
                },
                None => final(self)@ == old(self)@,
            },
    {
        let ghost s0 = self@;
        let ghost d0 = self.positions().dom();
        let ghost r0 = idx as int;
        let mut i = idx;
        while i < self.len() / 2
            invariant
                obeys_cmp::<T>(),
                self.index_ok(),
                self.positions().dom() == d0,
                self@.to_multiset() == s0.to_multiset(),
                self@.len() == s0.len(),
                r0 == idx,
                idx <= i,
                in_subtree(i as int, r0),
                i != idx ==> i < s0.len(),
                subtree_heap_except(self@, r0, i as int),
                i != idx ==> prio_le(self@[i as int], self@[parent(i as int)]),
                forall|j: int|
                    0 <= j < s0.len() && !in_subtree(j, r0) ==> #[trigger] self@[j] == s0[j],
                i == idx ==> self@ == s0,
                i != idx ==> self@[i as int] == s0[r0],
                i != idx ==> 2 * r0 + 1 < s0.len(),
                i != idx ==> forall|j: int|
                    0 <= j < s0.len() && !on_path(j, r0, i as int) ==> #[trigger] self@[j] == s0[j],
                i != idx ==> (self@[r0] == s0[2 * r0 + 1] || (2 * r0 + 2 < s0.len() && self@[r0]
                    == s0[2 * r0 + 2])),
            ensures
                self.index_ok(),
                self.positions().dom() == d0,
                self@.to_multiset() == s0.to_multiset(),
                self@.len() == s0.len(),
                idx <= i,
                in_subtree(i as int, r0),
                i != idx ==> i < s0.len(),
                subtree_heap_except(self@, r0, i as int),
                i != idx ==> prio_le(self@[i as int], self@[parent(i as int)]),
                forall|j: int|
                    0 <= j < s0.len() && !in_subtree(j, r0) ==> #[trigger] self@[j] == s0[j],
                i == idx ==> self@ == s0,
                i != idx ==> self@[i as int] == s0[r0],
                i != idx ==> 2 * r0 + 1 < s0.len(),
                i != idx ==> forall|j: int|
                    0 <= j < s0.len() && !on_path(j, r0, i as int) ==> #[trigger] self@[j] == s0[j],
                i != idx ==> (self@[r0] == s0[2 * r0 + 1] || (2 * r0 + 2 < s0.len() && self@[r0]
                    == s0[2 * r0 + 2])),
                forall|c: int|
                    0 < c < self@.len() && parent(c) == i ==> #[trigger] prio_le(
                        self@[c],
                        self@[i as int],
                    ),
            decreases self@.len() - i,
        {
            proof {
                lemma_order_laws::<T>();
            }
            let mut max = i;
            let lc = 2 * i + 1;
            let rc = 2 * i + 2;
            let ghost s = self@;
            if lc < self.len() {
                if let Ordering::Less = self.cmp(max, lc) {
                    max = lc;
                }
            }
            assert(lc < s.len() ==> prio_le(s[lc as int], s[max as int]));
            assert(prio_le(s[i as int], s[max as int]));
            let ghost max0 = max;
            if rc < self.len() {
                if let Ordering::Less = self.cmp(max, rc) {
                    max = rc;
                    assert(prio_le(s[max0 as int], s[max as int]));
                }
            }
            proof {
                assert(lc < s.len());
                assert(parent(lc as int) == i);
                assert(parent(rc as int) == i);
                assert(forall|c: int| 0 < c < s.len() && parent(c) == i ==> c == lc || c == rc);
                assert(prio_le(s[lc as int], s[max as int]));
                if rc < s.len() {
                    assert(prio_le(s[rc as int], s[max as int]));
                }
                assert(prio_le(s[i as int], s[max as int]));
            }
            if i != max {
                self.swap_elems_at_indices(i, max);
                proof {
                    broadcast use vstd::seq_lib::group_to_multiset_ensures;

                    lemma_order_laws::<T>();
                    let t = self@;
                    let m = max as int;
                    let o = if m == lc { rc as int } else { lc as int };
                    assert(t =~= s.update(i as int, s[m]).update(m, s[i as int]));
                    assert(t.to_multiset() == s.to_multiset());
                    assert(parent(m) == i);
                    assert(in_subtree(m, r0));
                    assert forall|j: int|
                        0 < j < t.len() && in_subtree(j, r0) && j != r0 && j != m && parent(j)
                            != m implies #[trigger] prio_le(t[j], t[parent(j)]) by {
                        if j == i {
                            assert(prio_le(s[m], s[parent(i as int)]));
                        } else if j == o {
                            assert(prio_le(s[o], s[m]));
                        } else {
                            assert(prio_le(s[j], s[parent(j)]));
                        }
                    }
                    assert forall|j: int|
                        0 < j < t.len() && parent(j) == m implies #[trigger] prio_le(
                        t[j],
                        t[parent(m)],
                    ) by {
                        assert(in_subtree(j, r0));
                        assert(prio_le(s[j], s[m]));
                    }
                    assert forall|j: int|
                        0 <= j < s0.len() && !in_subtree(j, r0) implies #[trigger] t[j] == s0[j] by {
                        assert(s[j] == s0[j]);
                    }
                    assert(in_subtree(i as int, i as int));
                    assert(in_subtree(m, i as int));
                    assert(in_subtree(m, m));
                    assert forall|j: int|
                        0 <= j < s0.len() && !on_path(j, r0, m) implies #[trigger] t[j] == s0[j] by {
                        if in_subtree(i as int, j) && in_subtree(j, r0) {
                            assert(j <= i);
                            assert(in_subtree(m, j));
                        }
                        if i != idx {
                            assert(!on_path(j, r0, i as int));
                        }
                        assert(s[j] == s0[j]);
                    }
                }
                i = max;
            } else {
                break;
            }
        }
        proof {
            let t = self@;
            assert forall|j: int|
                0 < j < t.len() && in_subtree(j, r0) && j != r0 && parent(j) != -1 implies #[trigger] prio_le(
                t[j],
                t[parent(j)],
            ) by {
                if parent(j) == i {
                } else if j == i {
                } else {
                    assert(prio_le(t[j], t[parent(j)]));
                }
            }
        }
        if i != idx {
            Some(i)
        } else {
            None
        }
    }

    /// Creates a heap from the given elements, which may be empty. The
    /// elements are rearranged into heap order.
    pub fn from_vec(buffer: Vec<T>) -> (r: Self)
        requires
            obeys_cmp::<T>(),
            distinct_uids(buffer@),
        ensures
            r.wf(),
            r.positions().dom() == uids_of(buffer@),
            r@.to_multiset() == buffer@.to_multiset(),
    {
        let mut bheap = BinaryMaxHeap { buffer, index: HashMap::new() };
        if !bheap.is_empty() {
            proof {
                assert(bheap.positions().dom() =~= Set::<u64>::empty());
            }
            bheap.build_heap();
        } else {
            proof {
                assert(uids_of(buffer@) =~= Set::<u64>::empty());
                assert(bheap.positions().dom() =~= Set::<u64>::empty());
            }
        }
        bheap
    }

    /// Creates an empty heap.
    pub fn new() -> (r: Self)
        requires
            obeys_cmp::<T>(),
        ensures
            r.wf(),
            r@ == Seq::<T>::empty(),
            r.positions().dom() == Set::<u64>::empty(),
    {
        let r = BinaryMaxHeap::from_vec(vec![]);
        proof {
            broadcast use vstd::seq_lib::group_to_multiset_ensures;

            assert(r@.len() == r@.to_multiset().len());
            assert(r@ =~= Seq::<T>::empty());
            assert(uids_of(r@) =~= Set::<u64>::empty());
        }
        r
    }

    /// Records in the index the position of every element of the buffer.
    /// Entries for identifiers that no element carries are left as they were.
    pub fn build_index(&mut self)
        requires
            distinct_uids(old(self)@),
        ensures
            final(self)@ == old(self)@,
            forall|i: int|
                0 <= i < old(self)@.len() ==> final(self).positions().contains_key(
                    #[trigger] old(self)@[i].spec_uid(),
                ) && final(self).positions()[old(self)@[i].spec_uid()] == i,
            forall|u: u64|
                !#[trigger] uids_of(old(self)@).contains(u) ==> (final(self).positions().contains_key(u)
                    == old(self).positions().contains_key(u)) && (old(self).positions().contains_key(u)
                    ==> final(self).positions()[u] == old(self).positions()[u]),
    {
        let ghost s = self@;
        let ghost m0 = self.positions();
        let n = self.len();
        let mut i: usize = 0;
        while i < n
            invariant
                n == s.len(),
                distinct_uids(s),
                self@ == s,
                i <= n,
                forall|k: int|
                    0 <= k < i ==> self.positions().contains_key(#[trigger] s[k].spec_uid())
                        && self.positions()[s[k].spec_uid()] == k,
                forall|u: u64|
                    !#[trigger] uids_of(s.take(i as int)).contains(u) ==> (
                    self.positions().contains_key(u) == m0.contains_key(u)) && (m0.contains_key(u)
                        ==> self.positions()[u] == m0[u]),
            decreases n - i,
        {
            let ghost before = self.positions();
            self.update_index(i);
            proof {
                assert forall|u: u64|
                    !#[trigger] uids_of(s.take(i + 1)).contains(u) implies (
                self.positions().contains_key(u) == m0.contains_key(u)) && (m0.contains_key(u)
                    ==> self.positions()[u] == m0[u]) by {
                    assert(s.take(i + 1)[i as int] == s[i as int]);
                    assert(s[i as int].spec_uid() != u);
                    if uids_of(s.take(i as int)).contains(u) {
                        let k = choose|k: int|
                            0 <= k < i && #[trigger] s.take(i as int)[k].spec_uid() == u;
                        assert(s.take(i + 1)[k] == s.take(i as int)[k]);
                    }
                }
            }
            i = i + 1;
        }
        proof {
            assert(s.take(n as int) =~= s);
            assert forall|u: u64| !#[trigger] uids_of(s).contains(u) implies (
            self.positions().contains_key(u) == m0.contains_key(u)) && (m0.contains_key(u)
                ==> self.positions()[u] == m0[u]) by {
                assert(!uids_of(s.take(n as int)).contains(u));
            }
        }
    }

    /// Arranges the elements of the buffer into heap order, after building
    /// the index.
    pub fn build_heap(&mut self)
        requires
            obeys_cmp::<T>(),
            distinct_uids(old(self)@),
            old(self).positions().dom().subset_of(uids_of(old(self)@)),
        ensures
            final(self).wf(),
            final(self).positions().dom() == uids_of(old(self)@),
            final(self)@.to_multiset() == old(self)@.to_multiset(),
    {
        let ghost s0 = self@;
        self.build_index();
        proof {
            let m = self.positions();
            assert forall|u: u64| #[trigger] m.contains_key(u) implies m[u] < s0.len()
                && s0[m[u] as int].spec_uid() == u by {
                if uids_of(s0).contains(u) {
                    let k = choose|k: int| 0 <= k < s0.len() && #[trigger] s0[k].spec_uid() == u;
                    assert(m[s0[k].spec_uid()] == k);
                } else {
                    assert(old(self).positions().dom().contains(u));
                }
            }
            assert(self.index_ok());
            assert forall|u: u64| #[trigger] m.contains_key(u) == uids_of(s0).contains(u) by {
                if uids_of(s0).contains(u) {
                    let k = choose|k: int| 0 <= k < s0.len() && #[trigger] s0[k].spec_uid() == u;
                    assert(m.contains_key(s0[k].spec_uid()));
                }
            }
            assert(m.dom() =~= uids_of(s0));
        }
        let ghost d0 = self.positions().dom();
        let mut i = self.len() / 2;
        while i > 0
            invariant
                obeys_cmp::<T>(),
                self.index_ok(),
                self.positions().dom() == d0,
                self@.to_multiset() == s0.to_multiset(),
                self@.len() == s0.len(),
                i <= self@.len() / 2,
                heap_except(self@, -1, i as int),
            decreases i,
        {
            i = i - 1;
            let ghost t = self@;
            proof {
                assert forall|j: int|
                    0 < j < t.len() && in_subtree(j, i as int) && j != i && parent(j)
                        != i implies #[trigger] prio_le(t[j], t[parent(j)]) by {
                    assert(in_subtree(parent(j), i as int));
                    assert(parent(j) >= i + 1);
                }
            }
            self.heapify_dn(i);
            proof {
                let u = self@;
                assert forall|j: int|
                    0 < j < u.len() && parent(j) >= i && j != -1 && parent(j) != -1 implies #[trigger] prio_le(
                    u[j],
                    u[parent(j)],
                ) by {
                    if in_subtree(parent(j), i as int) {
                        assert(in_subtree(j, i as int));
                    } else {
                        assert(!in_subtree(j, i as int));
                        assert(parent(j) != i);
                        assert(u[j] == t[j]);
                        assert(u[parent(j)] == t[parent(j)]);
                        assert(prio_le(t[j], t[parent(j)]));
                    }
                }
            }
        }
        proof {
            lemma_except_nothing(self@, -1);
        }
    }

    /// Restores the heap order around position `idx`, whose element may
    /// have changed priority. Returns the element's new position if it moved.
    pub fn restore_heap_property(&mut self, idx: usize) -> (r: Option<usize>)
        requires
            idx < old(self)@.len() ==> {
                &&& obeys_cmp::<T>()
                &&& old(self).index_ok()
                &&& heap_except(old(self)@, idx as int, 0)
            },
        ensures
            idx < old(self)@.len() ==> final(self).wf(),
            final(self).positions().dom() == old(self).positions().dom(),
            final(self)@.to_multiset() == old(self)@.to_multiset(),
            final(self)@.len() == old(self)@.len(),
            idx >= old(self)@.len() ==> r is None && *final(self) == *old(self),
            match r {
                Some(p) => p < old(self)@.len() && p != idx && final(self)@[p as int] == old(
                    self,
                )@[idx as int],
                None => final(self)@ == old(self)@,
            },
    {
        if idx >= self.len() {
            return None;
        }
        let up = self.heapify_up(idx);
        if up.is_some() {
            return up;
        }
        let ghost t = self@;
        proof {
            assert forall|j: int|
                0 < j < t.len() && in_subtree(j, idx as int) && j != idx && parent(j)
                    != idx implies #[trigger] prio_le(t[j], t[parent(j)]) by {
                assert(prio_le(t[j], t[parent(j)]));
            }
        }
        let r = self.heapify_dn(idx);
        proof {
            lemma_order_laws::<T>();
            let u = self@;
            assert(in_subtree(idx as int, idx as int));
            assert forall|j: int| 0 < j < u.len() implies #[trigger] prio_le(u[j], u[parent(j)]) by {
                if in_subtree(j, idx as int) && j != idx {
                    assert(in_subtree(parent(j), idx as int));
                } else if j == idx {
                    assert(!in_subtree(parent(j), idx as int));
                    assert(u[parent(j)] == t[parent(j)]);
                    if r is Some {
                        assert(parent(2 * idx + 1) == idx);
                        assert(parent(2 * idx + 2) == idx);
                        if u[j] == t[2 * idx + 1] {
                            assert(prio_le(t[2 * idx + 1], t[parent(idx as int)]));
                        } else {
                            assert(prio_le(t[2 * idx + 2], t[parent(idx as int)]));
                        }
                    }
                } else {
                    if in_subtree(parent(j), idx as int) {
                        assert(in_subtree(j, idx as int));
                    }
                    assert(u[j] == t[j]);
                    assert(u[parent(j)] == t[parent(j)]);
                    assert(prio_le(t[j], t[parent(j)]));
                }
            }
        }
        r
    }

    /// Inserts an element, whose identifier no element of the heap carries.
    pub fn push(&mut self, elem: T)
        requires
            old(self).wf(),
            !old(self).positions().contains_key(elem.spec_uid()),
        ensures
            final(self).wf(),
            final(self)@.to_multiset() == old(self)@.to_multiset().insert(elem),
            final(self)@.len() == old(self)@.len() + 1,
            final(self).positions().dom() == old(self).positions().dom().insert(elem.spec_uid()),
    {
        broadcast use vstd::seq_lib::group_to_multiset_ensures;

        let ghost s = self@;
        let ghost u = elem.spec_uid();
        let idx = self.buffer.len();
        self.buffer.push(elem);
        self.update_index(idx);
        proof {
            let t = self@;
            let m = self.positions();
            assert(t =~= s.push(elem));
            assert forall|k: int| 0 <= k < t.len() implies m.contains_key(#[trigger] t[k].spec_uid())
                && m[t[k].spec_uid()] == k by {
                if k < s.len() {
                    assert(old(self).positions().contains_key(s[k].spec_uid()));
                }
            }
            assert forall|w: u64| #[trigger] m.contains_key(w) implies m[w] < t.len()
                && t[m[w] as int].spec_uid() == w by {
                if w != u {
                    assert(old(self).positions().contains_key(w));
                }
            }
            assert forall|j: int|
                0 < j < t.len() && parent(j) >= 0 && j != idx && parent(j) != idx implies #[trigger] prio_le(
                t[j],
                t[parent(j)],
            ) by {
                assert(prio_le(s[j], s[parent(j)]));
            }
        }
        let r = self.heapify_up(idx);
        proof {
            assert(self.positions().dom() =~= old(self).positions().dom().insert(u));
            if r is None {
                let t = self@;
                assert forall|j: int| 0 < j < t.len() implies #[trigger] prio_le(
                    t[j],
                    t[parent(j)],
                ) by {
                    if j != idx {
                        assert(parent(j) != idx);
                    }
                }
            }
        }
    }

    /// The element with the highest priority, if any.
    pub fn peek(&self) -> (r: Option<&T>)
        ensures
            match r {
                Some(e) => self@.len() > 0 && *e == self@[0],
                None => self@.len() == 0,
            },
            self.wf() ==> match r {
                Some(e) => forall|j: int| 0 <= j < self@.len() ==> prio_le(#[trigger] self@[j], *e),
                None => true,
            },
    {
        if self.is_empty() {
            return None;
        }
        proof {
            if self.wf() {
                assert forall|j: int| 0 <= j < self@.len() implies prio_le(
                    #[trigger] self@[j],
                    self@[0],
                ) by {
                    lemma_heap_root_is_max(self@, j);
                }
            }
        }
        Some(&self.buffer[0])
    }

    /// Removes and returns the element with the highest priority, if any.
    pub fn pop(&mut self) -> (r: Option<T>)
        requires
            old(self).wf(),
        ensures
            final(self).wf(),
            match r {
                Some(e) => {
                    &&& old(self)@.len() > 0
                    &&& e == old(self)@[0]
                    &&& forall|j: int|
                        0 <= j < old(self)@.len() ==> prio_le(#[trigger] old(self)@[j], e)
                    &&& final(self)@.to_multiset() == old(self)@.to_multiset().remove(e)
                    &&& final(self)@.len() == old(self)@.len() - 1
                    &&& final(self).positions().dom() == old(self).positions().dom().remove(
                        e.spec_uid(),
                    )
                },
                None => old(self)@.len() == 0 && final(self)@ == old(self)@,
            },
    {
        broadcast use vstd::seq_lib::group_to_multiset_ensures;

        if self.is_empty() {
            return None;
        }
        let ghost s = self@;
        let ghost m0 = self.positions();
        proof {
            assert forall|j: int| 0 <= j < s.len() implies prio_le(#[trigger] s[j], s[0]) by {
                lemma_heap_root_is_max(s, j);
            }
        }
        let elem = self.buffer.swap_remove(0);
        let ghost s1 = self@;
        let u = elem.uid();
        self.index.remove(&u);
        self.update_index(0);
        proof {
            let n = s.len();
            let t = self@;
            let m = self.positions();
            assert(s1 =~= s.update(0, s.last()).drop_last());
            assert(s.update(0, s.last()).to_multiset() == s.to_multiset().insert(s.last()).remove(s[0]));
            assert(t.to_multiset() == s.to_multiset().remove(elem)) by {
                assert(s.update(0, s.last()) =~= s1.push(s.last()));
                assert(s1.push(s.last()).to_multiset() == s1.to_multiset().insert(s.last()));
                broadcast use vstd::multiset::group_multiset_axioms;

                assert(s.to_multiset().count(s[0]) > 0);
                assert forall|x: T| #[trigger] s1.to_multiset().count(x) == s.to_multiset().remove(
                    elem,
                ).count(x) by {
                    assert(s1.to_multiset().insert(s.last()).count(x) == s.to_multiset().insert(
                        s.last(),
                    ).remove(s[0]).count(x));
                }
                assert(s1.to_multiset() =~= s.to_multiset().remove(elem));
            }
            assert forall|k: int| 0 <= k < t.len() implies m.contains_key(#[trigger] t[k].spec_uid())
                && m[t[k].spec_uid()] == k by {
                if k > 0 {
                    assert(m0.contains_key(s[k].spec_uid()));
                    assert(s[k].spec_uid() != s[0].spec_uid());
                    assert(s[k].spec_uid() != s[n - 1].spec_uid());
                }
            }
            assert forall|w: u64| #[trigger] m.contains_key(w) implies m[w] < t.len()
                && t[m[w] as int].spec_uid() == w by {
                if t.len() == 0 || w != t[0].spec_uid() {
                    assert(m0.contains_key(w));
                    let k = m0[w] as int;
                    assert(s[k].spec_uid() == w);
                    assert(k != 0);
                    assert(k != n - 1);
                }
            }
            assert forall|j: int|
                0 < j < t.len() && parent(j) >= 0 && j != 0 && parent(j) != 0 implies #[trigger] prio_le(
                t[j],
                t[parent(j)],
            ) by {
                assert(prio_le(s[j], s[parent(j)]));
            }
        }
        proof {
            assert(self.positions().dom() =~= m0.dom().remove(u)) by {
                if self@.len() > 0 {
                    assert(m0.contains_key(self@[0].spec_uid()));
                }
            }
        }
        proof {
            let t = self@;
            assert forall|j: int|
                0 < j < t.len() && in_subtree(j, 0) && j != 0 && parent(j) != 0 implies #[trigger] prio_le(
                t[j],
                t[parent(j)],
            ) by {
                assert(prio_le(s[j], s[parent(j)]));
            }
        }
        self.heapify_dn(0);
        proof {
            let u = self@;
            assert forall|j: int| 0 < j < u.len() implies #[trigger] prio_le(u[j], u[parent(j)]) by {
                lemma_subtree_of_root(j);
            }
        }
        Some(elem)
    }

    /// The position in the buffer of the element with identifier `uid`.
    pub fn index_in_heap_from_uid(&self, uid: u64) -> (r: Option<usize>)
        ensures
            r == (if self.positions().contains_key(uid) {
                Some(self.positions()[uid])
            } else {
                None
            }),
            self.index_ok() ==> match r {
                Some(p) => p < self@.len() && self@[p as int].spec_uid() == uid,
                None => forall|j: int| 0 <= j < self@.len() ==> #[trigger] self@[j].spec_uid() != uid,
            },
    {
        match self.index.get(&uid) {
            Some(p) => Some(*p),
            None => None,
        }
    }

    /// The position in the buffer of the element with the identifier of
    /// `elem`.
    pub fn index_in_heap(&self, elem: &T) -> (r: Option<usize>)
        ensures
            r == (if self.positions().contains_key(elem.spec_uid()) {
                Some(self.positions()[elem.spec_uid()])
            } else {
                None
            }),
            self.index_ok() ==> match r {
                Some(p) => p < self@.len() && self@[p as int].spec_uid() == elem.spec_uid(),
                None => forall|j: int|
                    0 <= j < self@.len() ==> #[trigger] self@[j].spec_uid() != elem.spec_uid(),
            },
    {
        self.index_in_heap_from_uid(elem.uid())
    }

    /// A mutable reference to the element at position `i`, if there is one.
    /// A change made through it must keep the element's identifier; the
    /// heap order is then repaired with [`Self::restore_heap_property`] at `i`.
    pub fn get(&mut self, i: usize) -> (r: Option<&mut T>)
        ensures
            match r {
                Some(e) => {
                    &&& i < old(self)@.len()
                    &&& *e == old(self)@[i as int]
                    &&& final(self)@ == old(self)@.update(i as int, *final(e))
                    &&& final(self).positions() == old(self).positions()
                },
                None => i >= old(self)@.len() && *final(self) == *old(self),
            },
    {
        if i >= self.len() {
            return None;
        }
        Some(&mut self.buffer[i])
    }
}

} // verus!
