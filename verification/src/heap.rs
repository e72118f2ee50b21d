//! A binary heap, used as a priority queue.
//!
//! The heap is parameterized by a caller-supplied "greater-than" relation on
//! weights; all tie-breaking lives in that relation, never in the heap.  One
//! container therefore serves both Huffman tree construction (ranking by
//! count, then serial) and output reordering (ranking by sequence id).

use vstd::prelude::*;

verus! {

use vstd::multiset::Multiset;

broadcast use vstd::seq_lib::group_to_multiset_ensures;

/// A total priority relation on heap weights.  `gt_spec` says that `self`
/// outranks `other`; the heap extracts an element no other element outranks.
pub trait HeapWeight: Sized + Copy {
    spec fn gt_spec(self, other: Self) -> bool;

    /// The relation is a strict total order: irreflexive, transitive, and any
    /// two distinct weights are comparable.
    proof fn lemma_gt_order(a: Self, b: Self, c: Self)
        ensures
            !a.gt_spec(a),
            a.gt_spec(b) && b.gt_spec(c) ==> a.gt_spec(c),
            a != b ==> a.gt_spec(b) || b.gt_spec(a),
    ;

    fn gt(self, other: Self) -> (r: bool)
        ensures
            r == self.gt_spec(other),
    ;
}

proof fn lemma_asym<Weight: HeapWeight>(a: Weight, b: Weight)
    requires
        a.gt_spec(b),
    ensures
        !b.gt_spec(a),
{
    if b.gt_spec(a) {
        Weight::lemma_gt_order(a, b, a);
        Weight::lemma_gt_order(a, a, a);
    }
}

proof fn lemma_neg_trans<Weight: HeapWeight>(a: Weight, b: Weight, c: Weight)
    requires
        !a.gt_spec(b),
        !b.gt_spec(c),
    ensures
        !a.gt_spec(c),
{
    if a.gt_spec(c) {
        Weight::lemma_gt_order(b, c, b);
        if b == c {
        } else if c.gt_spec(b) {
            Weight::lemma_gt_order(a, c, b);
        }
    }
}

struct Node<Val, Weight> {
    weight: Weight,
    val: Val,
}

/// Index of the parent of heap slot `i`.
pub open spec fn pix(i: int) -> int {
    (i - 1) / 2
}

/// Index of the left child of heap slot `i`.
pub open spec fn lix(i: int) -> int {
    2 * i + 1
}

/// Index of the right child of heap slot `i`.
pub open spec fn rix(i: int) -> int {
    2 * i + 2
}

fn parent(loc: usize) -> (r: usize)
    requires
        loc >= 1,
    ensures
        r == pix(loc as int),
{
    (loc - 1) / 2
}

fn left(loc: usize) -> (r: usize)
    requires
        2 * loc + 1 <= usize::MAX,
    ensures
        r == lix(loc as int),
{
    (loc * 2) + 1
}

fn right(loc: usize) -> (r: usize)
    requires
        2 * loc + 2 <= usize::MAX,
    ensures
        r == rix(loc as int),
{
    (loc + 1) * 2
}

spec fn edge_ok<Val, Weight: HeapWeight>(s: Seq<Node<Val, Weight>>, i: int) -> bool {
    !s[i].weight.gt_spec(s[pix(i)].weight)
}

spec fn is_heap<Val, Weight: HeapWeight>(s: Seq<Node<Val, Weight>>) -> bool {
    forall|i: int| 0 < i < s.len() ==> #[trigger] edge_ok(s, i)
}

/// Heap-ordered except possibly on the edges from the children of `loc`.
spec fn heap_except_children_of<Val, Weight: HeapWeight>(
    s: Seq<Node<Val, Weight>>,
    loc: int,
) -> bool {
    forall|i: int| 0 < i < s.len() && pix(i) != loc ==> #[trigger] edge_ok(s, i)
}

/// Heap-ordered except possibly on the edge from `loc` to its parent.
spec fn heap_except_at<Val, Weight: HeapWeight>(s: Seq<Node<Val, Weight>>, loc: int) -> bool {
    forall|i: int| 0 < i < s.len() && i != loc ==> #[trigger] edge_ok(s, i)
}

/// The children of `loc` do not outrank the parent of `loc`.
spec fn skip_ok<Val, Weight: HeapWeight>(s: Seq<Node<Val, Weight>>, loc: int) -> bool {
    loc == 0 || forall|i: int|
        0 < i < s.len() && pix(i) == loc ==> !(#[trigger] s[i].weight.gt_spec(
            s[pix(loc)].weight,
        ))
}

spec fn node_pairs<Val, Weight: HeapWeight>(s: Seq<Node<Val, Weight>>) -> Seq<(Weight, Val)> {
    s.map_values(|n: Node<Val, Weight>| (n.weight, n.val))
}

pub struct Heap<Val, Weight: HeapWeight> {
    xs: Vec<Node<Val, Weight>>,
}

impl<Val, Weight: HeapWeight> View for Heap<Val, Weight> {
    type V = Multiset<(Weight, Val)>;

    closed spec fn view(&self) -> Multiset<(Weight, Val)> {
        node_pairs(self.xs@).to_multiset()
    }
}

/// Swap two elements of a vector.
fn vec_swap<T>(v: &mut Vec<T>, i: usize, j: usize)
    requires
        i < old(v).len(),
        j < old(v).len(),
    ensures
        final(v)@ == old(v)@.update(i as int, old(v)@[j as int]).update(
            j as int,
            old(v)@[i as int],
        ),
{
    let ghost orig = v@;
    if i == j {
        proof {
            assert(orig.update(i as int, orig[j as int]).update(j as int, orig[i as int])
                =~= orig);
        }
        return ;
    }
    let (a, b) = if i < j {
        (i, j)
    } else {
        (j, i)
    };
    let last = v.len() - 1;
    let mut x = v.pop().unwrap();
    if b == last {
        v.set_and_swap(a, &mut x);
        v.push(x);
        proof {
            assert(v@ =~= orig.update(i as int, orig[j as int]).update(
                j as int,
                orig[i as int],
            ));
        }
    } else {
        v.set_and_swap(a, &mut x);
        v.set_and_swap(b, &mut x);
        v.set_and_swap(a, &mut x);
        v.push(x);
        proof {
            assert(v@ =~= orig.update(i as int, orig[j as int]).update(
                j as int,
                orig[i as int],
            ));
        }
    }
}

proof fn lemma_pairs_update<Val, Weight: HeapWeight>(
    s: Seq<Node<Val, Weight>>,
    i: int,
    n: Node<Val, Weight>,
)
    requires
        0 <= i < s.len(),
    ensures
        node_pairs(s.update(i, n)) == node_pairs(s).update(i, (n.weight, n.val)),
{
    assert(node_pairs(s.update(i, n)) =~= node_pairs(s).update(i, (n.weight, n.val)));
}

proof fn lemma_swap_multiset<Val, Weight: HeapWeight>(s: Seq<Node<Val, Weight>>, i: int, j: int)
    requires
        0 <= i < s.len(),
        0 <= j < s.len(),
    ensures
        node_pairs(s.update(i, s[j]).update(j, s[i])).to_multiset() == node_pairs(
            s,
        ).to_multiset(),
{
    let p = node_pairs(s);
    lemma_pairs_update(s, i, s[j]);
    lemma_pairs_update(s.update(i, s[j]), j, s[i]);
    assert(node_pairs(s.update(i, s[j]).update(j, s[i])) == p.update(i, p[j]).update(j, p[i]));
    assert(p.update(i, p[j]).update(j, p[i]).to_multiset() =~= p.to_multiset());
}

/// No element of a heap-ordered array outranks the root.
proof fn lemma_root_max<Val, Weight: HeapWeight>(s: Seq<Node<Val, Weight>>, i: int)
    requires
        is_heap(s),
        0 <= i < s.len(),
    ensures
        !s[i].weight.gt_spec(s[0].weight),
    decreases i,
{
    if i == 0 {
        Weight::lemma_gt_order(s[0].weight, s[0].weight, s[0].weight);
    } else {
        lemma_root_max(s, pix(i));
        assert(edge_ok(s, i));
        lemma_neg_trans(s[i].weight, s[pix(i)].weight, s[0].weight);
    }
}

impl<Val, Weight: HeapWeight> Heap<Val, Weight> {
    /// Heap order: no child outranks its parent.
    pub closed spec fn wf(&self) -> bool {
        is_heap(self.xs@)
    }

    pub fn new() -> (h: Heap<Val, Weight>)
        ensures
            h@ == Multiset::<(Weight, Val)>::empty(),
            h.wf(),
    {
        let h = Heap::<Val, Weight> { xs: Vec::<Node<Val, Weight>>::new() };
        proof {
            assert(node_pairs(h.xs@) =~= Seq::<(Weight, Val)>::empty());
            assert(Seq::<(Weight, Val)>::empty().to_multiset() =~= Multiset::<(
                Weight,
                Val,
            )>::empty());
        }
        h
    }

    pub fn len(&self) -> (n: usize)
        ensures
            n == self@.len(),
    {
        proof {
            assert(node_pairs(self.xs@).len() == self.xs@.len());
        }
        self.xs.len()
    }

    /// The weight at the top of the heap: an element's weight that no element
    /// of the heap outranks.
    pub fn max_weight(&self) -> (w: Weight)
        requires
            self.wf(),
            self@.len() > 0,
        ensures
            self@.contains(w2p_witness(self@, w)) && w2p_witness(self@, w).0 == w,
            forall|p: (Weight, Val)| self@.contains(p) ==> !p.0.gt_spec(w),
    {
        proof {
            assert(node_pairs(self.xs@).len() == self.xs@.len());
        }
        let w = self.xs[0].weight;
        proof {
            self.lemma_top(w);
        }
        w
    }

    proof fn lemma_top(&self, w: Weight)
        requires
            self.wf(),
            self.xs@.len() > 0,
            w == self.xs@[0].weight,
        ensures
            self@.contains(w2p_witness(self@, w)) && w2p_witness(self@, w).0 == w,
            forall|p: (Weight, Val)| self@.contains(p) ==> !p.0.gt_spec(w),
    {
        let pairs = node_pairs(self.xs@);
        assert(pairs[0] == (self.xs@[0].weight, self.xs@[0].val));
        assert(pairs.contains(pairs[0]));
        assert(self@.contains(pairs[0]));
        assert forall|p: (Weight, Val)| self@.contains(p) implies !p.0.gt_spec(w) by {
            let k = choose|k: int| 0 <= k < pairs.len() && pairs[k] == p;
            assert(pairs.contains(p));
            lemma_root_max(self.xs@, k);
        }
        assert(w2p_holds(self@, w, pairs[0]));
        lemma_w2p(self@, w);
    }

    /// Remove and return a value and its weight such that no element of the
    /// heap outranks the returned weight.
    pub fn extract_max(&mut self) -> (r: (Val, Weight))
        requires
            old(self).wf(),
            old(self)@.len() > 0,
        ensures
            final(self).wf(),
            old(self)@.contains((r.1, r.0)),
            final(self)@ == old(self)@.remove((r.1, r.0)),
            forall|p: (Weight, Val)| old(self)@.contains(p) ==> !p.0.gt_spec(r.1),
    {
        proof {
            assert(node_pairs(self.xs@).len() == self.xs@.len());
        }
        let ghost orig = self.xs@;
        let l = self.xs.len();
        vec_swap(&mut self.xs, 0, l - 1);
        let ghost swapped = self.xs@;
        let max = self.xs.pop().unwrap();
        proof {
            assert(max == orig[0]);
            lemma_swap_multiset(orig, 0, (l - 1) as int);
            assert(self.xs@ =~= swapped.remove(l - 1));
            lemma_pairs_update(orig, 0, orig[l - 1]);
            lemma_pairs_update(orig.update(0, orig[l - 1]), (l - 1) as int, orig[0]);
            assert(node_pairs(self.xs@) =~= node_pairs(swapped).remove(l - 1));
            assert(node_pairs(swapped)[l - 1] == (orig[0].weight, orig[0].val));
            assert(node_pairs(swapped).remove(l - 1).to_multiset() == node_pairs(
                swapped,
            ).to_multiset().remove((orig[0].weight, orig[0].val)));
            // the remaining array is heap-ordered except at the root's children
            assert forall|i: int|
                0 < i < self.xs@.len() && pix(i) != 0 implies #[trigger] edge_ok(
                self.xs@,
                i,
            ) by {
                assert(edge_ok(orig, i));
                assert(pix(i) > 0);
                assert(self.xs@[i] == orig[i]);
                assert(self.xs@[pix(i)] == orig[pix(i)]);
            }
            assert(node_pairs(orig).contains(node_pairs(orig)[0]));
            assert(old(self)@.contains((max.weight, max.val)));
            assert forall|p: (Weight, Val)| old(self)@.contains(p) implies !p.0.gt_spec(
                max.weight,
            ) by {
                let pairs = node_pairs(orig);
                assert(pairs.contains(p));
                let k = choose|k: int| 0 <= k < pairs.len() && pairs[k] == p;
                lemma_root_max(orig, k);
            }
        }
        if l > 2 {
            proof {
                assert(skip_ok(self.xs@, 0));
            }
            self.heapify(0);
        } else {
            proof {
                assert forall|i: int| 0 < i < self.xs@.len() implies #[trigger] edge_ok(
                    self.xs@,
                    i,
                ) by {
                    assert(self.xs@.len() <= 1);
                }
            }
        }
        (max.val, max.weight)
    }

    /// Insert a value with the given weight.
    pub fn insert(&mut self, weight: Weight, t: Val)
        requires
            old(self).wf(),
        ensures
            final(self).wf(),
            final(self)@ == old(self)@.insert((weight, t)),
    {
        let ghost orig = self.xs@;
        self.xs.push(Node { weight: weight, val: t });
        let mut i = self.xs.len() - 1;
        proof {
            assert(node_pairs(self.xs@) =~= node_pairs(orig).push((weight, t)));
            assert forall|j: int| 0 < j < self.xs@.len() && j != i implies #[trigger] edge_ok(
                self.xs@,
                j,
            ) by {
                assert(edge_ok(orig, j));
            }
            assert(skip_ok(self.xs@, i as int) || i == 0);
            if i > 0 {
                assert forall|c: int|
                    0 < c < self.xs@.len() && pix(c) == i as int implies !(
                #[trigger] self.xs@[c].weight.gt_spec(self.xs@[pix(i as int)].weight)) by {
                    assert(c >= self.xs@.len());
                }
            }
        }
        while i > 0 && self.xs[i].weight.gt(self.xs[parent(i)].weight)
            invariant
                i < self.xs@.len(),
                heap_except_at(self.xs@, i as int),
                skip_ok(self.xs@, i as int),
                node_pairs(self.xs@).to_multiset() == node_pairs(orig).to_multiset().insert(
                    (weight, t),
                ),
            decreases i,
        {
            let p = parent(i);
            let ghost s = self.xs@;
            vec_swap(&mut self.xs, i, p);
            proof {
                lemma_swap_multiset(s, i as int, p as int);
                lemma_pairs_update(s, i as int, s[p as int]);
                lemma_pairs_update(s.update(i as int, s[p as int]), p as int, s[i as int]);
                let s2 = self.xs@;
                let pi = p as int;
                let ii = i as int;
                // restore the invariant one level up
                assert forall|j: int| 0 < j < s2.len() && j != pi implies #[trigger] edge_ok(
                    s2,
                    j,
                ) by {
                    if j == ii {
                        // the swapped-down element does not outrank the moved-up one
                        lemma_asym(s[ii].weight, s[pi].weight);
                    } else if pix(j) == ii {
                        // children of the moved element: use the skip property
                        assert(!s[j].weight.gt_spec(s[pix(ii)].weight));
                        assert(s2[j] == s[j]);
                    } else if pix(j) == pi {
                        // sibling of the moved element
                        assert(edge_ok(s, j));
                        if s[j].weight.gt_spec(s2[pi].weight) {
                            Weight::lemma_gt_order(s[j].weight, s[ii].weight, s[pi].weight);
                        }
                    } else {
                        assert(edge_ok(s, j));
                        assert(s2[j] == s[j]);
                        assert(s2[pix(j)] == s[pix(j)]);
                    }
                }
                if pi > 0 {
                    assert forall|c: int|
                        0 < c < s2.len() && pix(c) == pi implies !(
                    #[trigger] s2[c].weight.gt_spec(s2[pix(pi)].weight)) by {
                        assert(s2[pix(pi)] == s[pix(pi)]);
                        if c == ii {
                            // the demoted element is the old parent, which obeyed
                            // the heap order with the grandparent already
                            assert(s2[c] == s[pi]);
                            assert(edge_ok(s, pi));
                        } else {
                            assert(edge_ok(s, c));
                            assert(edge_ok(s, pi));
                            lemma_neg_trans(s[c].weight, s[pi].weight, s[pix(pi)].weight);
                        }
                    }
                }
            }
            i = p;
        }
        proof {
            if i == 0 {
                assert forall|j: int| 0 < j < self.xs@.len() implies #[trigger] edge_ok(
                    self.xs@,
                    j,
                ) by {
                    assert(heap_except_at(self.xs@, 0));
                }
            }
        }
    }

    fn heapify(&mut self, loc: usize)
        requires
            loc < old(self).xs@.len(),
            heap_except_children_of(old(self).xs@, loc as int),
            skip_ok(old(self).xs@, loc as int),
        ensures
            final(self).wf(),
            node_pairs(final(self).xs@).to_multiset() == node_pairs(old(self).xs@).to_multiset(),
    {
        let mut loc = loc;
        loop
            invariant
                loc < self.xs@.len(),
                heap_except_children_of(self.xs@, loc as int),
                skip_ok(self.xs@, loc as int),
                node_pairs(self.xs@).to_multiset() == node_pairs(old(self).xs@).to_multiset(),
            decreases self.xs@.len() - loc,
        {
            let len = self.xs.len();
            let mut greatest = loc;
            if loc + 1 <= len / 2 {
                let l = left(loc);
                assert(lix(loc as int) < len);
                if self.xs[l].weight.gt(self.xs[loc].weight) {
                    greatest = l;
                }
            }
            if loc + 1 <= (len - 1) / 2 {
                let r = right(loc);
                assert(rix(loc as int) < len);
                if self.xs[r].weight.gt(self.xs[greatest].weight) {
                    greatest = r;
                }
            }
            if greatest == loc {
                proof {
                    let s = self.xs@;
                    let li = lix(loc as int);
                    let ri = rix(loc as int);
                    assert(li < s.len() ==> li < len && loc + 1 <= len / 2);
                    assert(ri < s.len() ==> ri < len && loc + 1 <= (len - 1) / 2);
                    assert forall|j: int| 0 < j < s.len() implies #[trigger] edge_ok(s, j) by {
                        if pix(j) == loc as int {
                            assert(j == li || j == ri);
                        }
                    }
                }
                return ;
            }
            let ghost s = self.xs@;
            let ghost gi = greatest as int;
            let ghost li = loc as int;
            vec_swap(&mut self.xs, loc, greatest);
            proof {
                lemma_swap_multiset(s, li, gi);
                lemma_pairs_update(s, li, s[gi]);
                lemma_pairs_update(s.update(li, s[gi]), gi, s[li]);
                let s2 = self.xs@;
                assert(pix(gi) == li);
                assert(lix(li) < s.len() <==> li + 1 <= len / 2);
                assert(rix(li) < s.len() <==> li + 1 <= (len - 1) / 2);
                assert(s[gi].weight.gt_spec(s[li].weight)) by {
                    if gi == rix(li) && lix(li) < s.len() && s[lix(li)].weight.gt_spec(
                        s[li].weight,
                    ) {
                        Weight::lemma_gt_order(s[gi].weight, s[lix(li)].weight, s[li].weight);
                    }
                }
                assert forall|j: int| 0 < j < s2.len() && pix(j) != gi implies #[trigger] edge_ok(
                    s2,
                    j,
                ) by {
                    if j == gi {
                        lemma_asym(s[gi].weight, s[li].weight);
                    } else if pix(j) == li {
                        // sibling of `greatest` among the children of `loc`
                        assert(j == lix(li) || j == rix(li));
                        if s2[j].weight.gt_spec(s2[li].weight) {
                            // s[j] outranks s[gi]; but the selection made gi greatest
                            if greatest == lix(li) {
                                assert(j == rix(li));
                                assert(!s[j].weight.gt_spec(s[gi].weight));
                            } else {
                                assert(greatest == rix(li));
                                assert(j == lix(li));
                                if s[j].weight.gt_spec(s[li].weight) {
                                    // the left child fired first, so gi outranks j
                                    lemma_asym(s[gi].weight, s[j].weight);
                                } else {
                                    Weight::lemma_gt_order(
                                        s[j].weight,
                                        s[gi].weight,
                                        s[li].weight,
                                    );
                                }
                            }
                        }
                    } else if j == li {
                        // edge from loc to its parent: use the skip property
                        assert(0 < gi < s.len() && pix(gi) == li);
                        assert(!s[gi].weight.gt_spec(s[pix(li)].weight));
                    } else {
                        assert(edge_ok(s, j));
                        assert(s2[j] == s[j]);
                        assert(s2[pix(j)] == s[pix(j)]);
                    }
                }
                assert forall|c: int|
                    0 < c < s2.len() && pix(c) == gi implies !(#[trigger] s2[c].weight.gt_spec(
                    s2[pix(gi)].weight,
                )) by {
                    assert(s2[c] == s[c]);
                    assert(edge_ok(s, c));
                }
            }
            loc = greatest;
        }
    }
}

/// Whether `p` is an element of `m` carrying weight `w`.
pub open spec fn w2p_holds<Val, Weight: HeapWeight>(
    m: Multiset<(Weight, Val)>,
    w: Weight,
    p: (Weight, Val),
) -> bool {
    m.contains(p) && p.0 == w
}

/// Some element of `m` carrying weight `w`, if one exists.
pub open spec fn w2p_witness<Val, Weight: HeapWeight>(
    m: Multiset<(Weight, Val)>,
    w: Weight,
) -> (Weight, Val) {
    choose|p: (Weight, Val)| w2p_holds(m, w, p)
}

proof fn lemma_w2p<Val, Weight: HeapWeight>(m: Multiset<(Weight, Val)>, w: Weight)
    requires
        exists|p: (Weight, Val)| w2p_holds(m, w, p),
    ensures
        w2p_holds(m, w, w2p_witness(m, w)),
{
}

} // verus!
