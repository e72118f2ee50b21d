//! Deterministic Huffman tree construction.
//!
//! Leaves are created in canonical table order and tagged with serial numbers
//! 0, 1, 2, ...; internal nodes continue the same serial sequence.  The
//! priority queue ranks lower counts first and breaks ties by lower serial,
//! so the tree is a function of the table alone: independent encoders and
//! decoders build identical trees from identical tables.

use vstd::prelude::*;

verus! {

use vstd::multiset::Multiset;
use vstd::seq_lib::group_to_multiset_ensures;
use crate::freq::FreqEntry;
use crate::heap::{Heap, HeapWeight};

broadcast use group_to_multiset_ensures, vstd::multiset::group_multiset_axioms;

/// A Huffman tree: an internal node always owns exactly two children, and a
/// leaf carries exactly one byte value.
pub enum HuffTree {
    Leaf { val: u8 },
    Node { left: Box<HuffTree>, right: Box<HuffTree> },
}

/// The multiset of byte values at the leaves of a tree.
pub open spec fn tree_leaves_ms(t: HuffTree) -> Multiset<u8>
    decreases t,
{
    match t {
        HuffTree::Leaf { val } => Multiset::empty().insert(val),
        HuffTree::Node { left, right } => tree_leaves_ms(*left).add(tree_leaves_ms(*right)),
    }
}

/// Priority key for tree construction: a lower count outranks a higher one,
/// and on equal counts the lower serial number wins.
#[derive(Clone, Copy, Debug, PartialEq, Eq, Structural)]
pub struct Weight {
    pub serial: u32,
    pub weight: u64,
}

impl HeapWeight for Weight {
    open spec fn gt_spec(self, other: Self) -> bool {
        self.weight < other.weight || (self.weight == other.weight && self.serial
            < other.serial)
    }

    proof fn lemma_gt_order(a: Self, b: Self, c: Self) {
    }

    fn gt(self, other: Self) -> (r: bool) {
        self.weight < other.weight || (self.weight == other.weight && self.serial
            < other.serial)
    }
}

/// Index of the entry that the priority queue would extract first: the entry
/// that no other entry outranks.
pub open spec fn min_idx(q: Seq<(Weight, HuffTree)>) -> int
    recommends
        q.len() > 0,
    decreases q.len(),
{
    if q.len() <= 1 {
        0
    } else {
        let m = min_idx(q.drop_first());
        if q[0].0.gt_spec(q[m + 1].0) {
            0
        } else {
            m + 1
        }
    }
}

pub proof fn lemma_min_idx(q: Seq<(Weight, HuffTree)>)
    requires
        q.len() > 0,
    ensures
        0 <= min_idx(q) < q.len(),
        forall|k: int| 0 <= k < q.len() ==> !(#[trigger] q[k].0).gt_spec(q[min_idx(q)].0),
    decreases q.len(),
{
    if q.len() > 1 {
        lemma_min_idx(q.drop_first());
        let m = min_idx(q.drop_first());
        assert forall|k: int| 0 <= k < q.len() implies !(#[trigger] q[k].0).gt_spec(
            q[min_idx(q)].0,
        ) by {
            if k > 0 {
                assert(q.drop_first()[k - 1] == q[k]);
                assert(!q.drop_first()[k - 1].0.gt_spec(q.drop_first()[m].0));
            }
        }
    }
}

/// All serial numbers in the working state are distinct.
spec fn distinct_serials(q: Seq<(Weight, HuffTree)>) -> bool {
    forall|i: int, j: int|
        0 <= i < q.len() && 0 <= j < q.len() && i != j ==> (#[trigger] q[i].0).serial != (
        #[trigger] q[j].0).serial
}

proof fn lemma_distinct_serials_remove(q: Seq<(Weight, HuffTree)>, i: int)
    requires
        distinct_serials(q),
        0 <= i < q.len(),
    ensures
        distinct_serials(q.remove(i)),
{
    let r = q.remove(i);
    assert forall|a: int, b: int|
        0 <= a < r.len() && 0 <= b < r.len() && a != b implies (#[trigger] r[a].0).serial != (
    #[trigger] r[b].0).serial by {
        let a0 = if a < i {
            a
        } else {
            a + 1
        };
        let b0 = if b < i {
            b
        } else {
            b + 1
        };
        assert(r[a] == q[a0]);
        assert(r[b] == q[b0]);
    }
}

/// Total weight of the working state.
spec fn wsum(q: Seq<(Weight, HuffTree)>) -> int
    decreases q.len(),
{
    if q.len() == 0 {
        0
    } else {
        wsum(q.drop_last()) + q.last().0.weight
    }
}

proof fn lemma_wsum_elem(q: Seq<(Weight, HuffTree)>, i: int)
    requires
        0 <= i < q.len(),
    ensures
        q[i].0.weight <= wsum(q),
        wsum(q) >= 0,
    decreases q.len(),
{
    lemma_wsum_nonneg(q.drop_last());
    if i < q.len() - 1 {
        lemma_wsum_elem(q.drop_last(), i);
    }
}

proof fn lemma_wsum_nonneg(q: Seq<(Weight, HuffTree)>)
    ensures
        wsum(q) >= 0,
    decreases q.len(),
{
    if q.len() > 0 {
        lemma_wsum_nonneg(q.drop_last());
    }
}

proof fn lemma_wsum_remove(q: Seq<(Weight, HuffTree)>, i: int)
    requires
        0 <= i < q.len(),
    ensures
        wsum(q.remove(i)) == wsum(q) - q[i].0.weight,
    decreases q.len(),
{
    if i == q.len() - 1 {
        assert(q.remove(i) =~= q.drop_last());
    } else {
        lemma_wsum_remove(q.drop_last(), i);
        assert(q.remove(i).drop_last() =~= q.drop_last().remove(i));
        assert(q.remove(i).last() == q.last());
    }
}

/// The multiset of leaf byte values across all trees of the working state.
spec fn state_leaves(q: Seq<(Weight, HuffTree)>) -> Multiset<u8>
    decreases q.len(),
{
    if q.len() == 0 {
        Multiset::empty()
    } else {
        state_leaves(q.drop_last()).add(tree_leaves_ms(q.last().1))
    }
}

proof fn lemma_state_leaves_remove(q: Seq<(Weight, HuffTree)>, i: int)
    requires
        0 <= i < q.len(),
    ensures
        state_leaves(q) == state_leaves(q.remove(i)).add(tree_leaves_ms(q[i].1)),
    decreases q.len(),
{
    if i == q.len() - 1 {
        assert(q.remove(i) =~= q.drop_last());
    } else {
        lemma_state_leaves_remove(q.drop_last(), i);
        assert(q.remove(i).drop_last() =~= q.drop_last().remove(i));
        assert(q.remove(i).last() == q.last());
        assert(state_leaves(q.remove(i)) == state_leaves(q.drop_last().remove(i)).add(
            tree_leaves_ms(q.last().1),
        ));
        assert(state_leaves(q.remove(i)).add(tree_leaves_ms(q[i].1)) =~= state_leaves(
            q.drop_last(),
        ).add(tree_leaves_ms(q.last().1)));
    }
}

/// One round of tree construction: extract the two highest-priority nodes,
/// join them (first extracted on the left), and reinsert the joint node with
/// the next serial number; the last remaining node is the tree.
pub open spec fn spec_combine(q: Seq<(Weight, HuffTree)>, next_serial: u32) -> HuffTree
    recommends
        q.len() > 0,
    decreases q.len(),
    via spec_combine_decreases
{
    if q.len() <= 1 {
        q[0].1
    } else {
        let ia = min_idx(q);
        let a = q[ia];
        let q1 = q.remove(ia);
        let ib = min_idx(q1);
        let b = q1[ib];
        let q2 = q1.remove(ib);
        let t = HuffTree::Node { left: Box::new(a.1), right: Box::new(b.1) };
        let w = Weight {
            serial: next_serial,
            weight: (a.0.weight + b.0.weight) as u64,
        };
        spec_combine(q2.push((w, t)), (next_serial + 1) as u32)
    }
}

#[via_fn]
proof fn spec_combine_decreases(q: Seq<(Weight, HuffTree)>, next_serial: u32) {
    if q.len() > 1 {
        lemma_min_idx(q);
        lemma_min_idx(q.remove(min_idx(q)));
    }
}

/// The initial working state: one leaf per table entry, serials in table
/// order, weighted by the entry's count.
pub open spec fn leaf_entries(t: Seq<FreqEntry>) -> Seq<(Weight, HuffTree)> {
    Seq::new(
        t.len(),
        |i: int|
            (
                Weight { serial: i as u32, weight: t[i].count as u64 },
                HuffTree::Leaf { val: t[i].val },
            ),
    )
}

/// The deterministic Huffman tree of a canonical frequency table.
pub open spec fn spec_build_tree(t: Seq<FreqEntry>) -> HuffTree {
    spec_combine(leaf_entries(t), t.len() as u32)
}

/// The multiset of byte values in a table.
pub open spec fn table_vals(t: Seq<FreqEntry>) -> Multiset<u8>
    decreases t.len(),
{
    if t.len() == 0 {
        Multiset::empty()
    } else {
        table_vals(t.drop_last()).insert(t.last().val)
    }
}

pub proof fn lemma_table_vals_contains(t: Seq<FreqEntry>, v: u8)
    ensures
        table_vals(t).count(v) > 0 <==> exists|i: int| 0 <= i < t.len() && t[i].val == v,
    decreases t.len(),
{
    if t.len() > 0 {
        lemma_table_vals_contains(t.drop_last(), v);
        if table_vals(t).count(v) > 0 {
            if t.last().val == v {
                assert(t[t.len() - 1].val == v);
            } else {
                let i = choose|i: int| 0 <= i < t.drop_last().len() && t.drop_last()[i].val == v;
                assert(t[i].val == v);
            }
        }
        if exists|i: int| 0 <= i < t.len() && t[i].val == v {
            let i = choose|i: int| 0 <= i < t.len() && t[i].val == v;
            if i < t.len() - 1 {
                assert(t.drop_last()[i].val == v);
            }
        }
    }
}

proof fn lemma_combine_leaves(q: Seq<(Weight, HuffTree)>, next_serial: u32)
    requires
        q.len() > 0,
    ensures
        tree_leaves_ms(spec_combine(q, next_serial)) == state_leaves(q),
    decreases q.len(),
{
    if q.len() == 1 {
        assert(q.drop_last().len() == 0);
        assert(state_leaves(q.drop_last()) == Multiset::<u8>::empty());
        assert(state_leaves(q) =~= tree_leaves_ms(q[0].1));
    } else {
        let ia = min_idx(q);
        lemma_min_idx(q);
        let a = q[ia];
        let q1 = q.remove(ia);
        let ib = min_idx(q1);
        lemma_min_idx(q1);
        let b = q1[ib];
        let q2 = q1.remove(ib);
        let t = HuffTree::Node { left: Box::new(a.1), right: Box::new(b.1) };
        let w = Weight {
            serial: next_serial,
            weight: (a.0.weight + b.0.weight) as u64,
        };
        let st2 = q2.push((w, t));
        lemma_combine_leaves(st2, (next_serial + 1) as u32);
        assert(st2.drop_last() =~= q2);
        assert(state_leaves(st2) == state_leaves(q2).add(tree_leaves_ms(t)));
        lemma_state_leaves_remove(q1, ib);
        lemma_state_leaves_remove(q, ia);
        assert(tree_leaves_ms(t) == tree_leaves_ms(a.1).add(tree_leaves_ms(b.1)));
        assert(state_leaves(st2) =~= state_leaves(q));
    }
}

proof fn lemma_leaf_entries_vals(t: Seq<FreqEntry>)
    ensures
        state_leaves(leaf_entries(t)) == table_vals(t),
    decreases t.len(),
{
    if t.len() == 0 {
        assert(leaf_entries(t).len() == 0);
    } else {
        lemma_leaf_entries_vals(t.drop_last());
        assert(leaf_entries(t).drop_last() =~= leaf_entries(t.drop_last()));
        assert(leaf_entries(t).last().1 == (HuffTree::Leaf { val: t.last().val }));
        assert(state_leaves(leaf_entries(t)) == state_leaves(leaf_entries(t.drop_last())).add(
            tree_leaves_ms(HuffTree::Leaf { val: t.last().val }),
        ));
        assert(table_vals(t.drop_last()).add(
            Multiset::empty().insert(t.last().val),
        ) =~= table_vals(t.drop_last()).insert(t.last().val));
    }
}

/// The tree built from a table has exactly the table's byte values at its
/// leaves.
pub proof fn lemma_build_tree_leaves(t: Seq<FreqEntry>)
    requires
        t.len() > 0,
    ensures
        tree_leaves_ms(spec_build_tree(t)) == table_vals(t),
{
    lemma_combine_leaves(leaf_entries(t), t.len() as u32);
    lemma_leaf_entries_vals(t);
}

/// A contained pair that nothing outranks is the pair at `min_idx`.
proof fn lemma_extract_is_min(q: Seq<(Weight, HuffTree)>, p: (Weight, HuffTree))
    requires
        q.len() > 0,
        distinct_serials(q),
        q.to_multiset().contains(p),
        forall|o: (Weight, HuffTree)| q.to_multiset().contains(o) ==> !o.0.gt_spec(p.0),
    ensures
        0 <= min_idx(q) < q.len(),
        p == q[min_idx(q)],
{
    lemma_min_idx(q);
    let mi = min_idx(q);
    assert(q.contains(q[mi]));
    assert(q.to_multiset().count(q[mi]) > 0);
    assert(q.to_multiset().contains(q[mi]));
    assert(q.to_multiset().count(p) > 0);
    assert(q.contains(p));
    let k = choose|k: int| 0 <= k < q.len() && q[k] == p;
    if k != mi {
        if p.0 == q[mi].0 {
            assert(q[k].0.serial == q[mi].0.serial);
            assert(false);
        } else {
            // the weights differ, so one of the two outranks the other,
            // contradicting minimality on one side
            assert(!q[k].0.gt_spec(q[mi].0));
            assert(!q[mi].0.gt_spec(p.0));
            assert(false);
        }
    }
}

/// Build the Huffman tree of a canonical frequency table.
pub fn build_huffman_tree(freq: &[FreqEntry]) -> (tree: Box<HuffTree>)
    requires
        1 <= freq@.len() <= 256,
    ensures
        *tree == spec_build_tree(freq@),
{
    let n = freq.len();
    let mut priq = Heap::<HuffTree, Weight>::new();
    let mut i: usize = 0;
    while i < n
        invariant
            i <= n,
            n == freq@.len() <= 256,
            priq.wf(),
            priq@ == leaf_entries(freq@).take(i as int).to_multiset(),
            wsum(leaf_entries(freq@).take(i as int)) <= i * 0xffff_ffff,
        decreases n - i,
    {
        let t = HuffTree::Leaf { val: freq[i].val };
        let w = Weight { serial: i as u32, weight: freq[i].count as u64 };
        priq.insert(w, t);
        proof {
            let le = leaf_entries(freq@);
            assert(le.take(i + 1) =~= le.take(i as int).push(le[i as int]));
            assert(le[i as int] == (w, t));
            assert(le.take(i + 1).drop_last() =~= le.take(i as int));
        }
        i = i + 1;
    }
    let ghost le = leaf_entries(freq@);
    let ghost mut st = le;
    let ghost mut s0 = wsum(le);
    let mut next_serial: u32 = n as u32;
    proof {
        assert(le.take(n as int) =~= le);
        assert(s0 <= 256 * 0xffff_ffff);
        lemma_wsum_nonneg(le);
    }
    while priq.len() > 1
        invariant
            freq@.len() <= 256,
            priq.wf(),
            st.len() >= 1,
            priq@ == st.to_multiset(),
            distinct_serials(st),
            forall|k: int| 0 <= k < st.len() ==> (#[trigger] st[k].0).serial < next_serial,
            next_serial + st.len() == 2 * leaf_entries(freq@).len(),
            wsum(st) == s0,
            0 <= s0 <= 256 * 0xffff_ffff,
            spec_combine(st, next_serial) == spec_build_tree(freq@),
        decreases st.len(),
    {
        proof {
            assert(st.to_multiset().len() == st.len());
            assert(leaf_entries(freq@).len() == freq@.len());
            assert(next_serial + 1 <= 511);
        }
        let (a, wa) = priq.extract_max();
        proof {
            lemma_extract_is_min(st, (wa, a));
            assert((wa, a) == st[min_idx(st)]);
        }
        let ghost ia = min_idx(st);
        let ghost st1 = st.remove(ia);
        proof {
            lemma_distinct_serials_remove(st, ia);
            assert(st.remove(ia).to_multiset() == st.to_multiset().remove(st[ia]));
            assert(priq@ == st1.to_multiset());
            assert(st1.to_multiset().len() == st1.len());
            lemma_wsum_remove(st, ia);
        }
        let (b, wb) = priq.extract_max();
        proof {
            lemma_extract_is_min(st1, (wb, b));
        }
        let ghost ib = min_idx(st1);
        let ghost st2 = st1.remove(ib);
        proof {
            lemma_distinct_serials_remove(st1, ib);
            assert(st1.remove(ib).to_multiset() == st1.to_multiset().remove(st1[ib]));
            assert(priq@ == st2.to_multiset());
            lemma_wsum_remove(st1, ib);
            lemma_wsum_elem(st1, ib);
            assert(wa.weight + wb.weight <= wsum(st));
        }
        let t = HuffTree::Node { left: Box::new(a), right: Box::new(b) };
        let w = Weight { serial: next_serial, weight: wa.weight + wb.weight };
        priq.insert(w, t);
        proof {
            let stn = st2.push((w, t));
            assert(st2.push((w, t)).to_multiset() == st2.to_multiset().insert((w, t)));
            assert(priq@ == stn.to_multiset());
            assert(stn.drop_last() =~= st2);
            assert(wsum(stn) == wsum(st2) + w.weight);
            assert forall|k: int| 0 <= k < stn.len() implies (#[trigger] stn[k].0).serial
                < next_serial + 1 by {
                if k < st2.len() {
                    assert(stn[k] == st2[k]);
                }
            }
            assert(distinct_serials(stn)) by {
                assert forall|p: int, q2: int|
                    0 <= p < stn.len() && 0 <= q2 < stn.len() && p != q2 implies (
                #[trigger] stn[p].0).serial != (#[trigger] stn[q2].0).serial by {
                    if p < st2.len() && q2 < st2.len() {
                        assert(stn[p] == st2[p]);
                        assert(stn[q2] == st2[q2]);
                    } else if p < st2.len() {
                        assert(stn[p] == st2[p]);
                        assert(st2[p].0.serial < next_serial);
                    } else {
                        assert(stn[q2] == st2[q2]);
                        assert(st2[q2].0.serial < next_serial);
                    }
                }
            }
            assert(spec_combine(st, next_serial) == spec_combine(stn, (next_serial + 1) as u32));
            st = stn;
            s0 = s0;
        }
        next_serial = next_serial + 1;
    }
    proof {
        assert(st.to_multiset().len() == st.len());
        assert(st.len() == 1);
    }
    let (root, _w) = priq.extract_max();
    proof {
        assert(st.to_multiset().contains((_w, root)));
        let k = choose|k: int| 0 <= k < st.len() && st[k] == (_w, root);
        assert(st[0] == (_w, root));
        assert(spec_combine(st, next_serial) == st[0].1);
    }
    Box::new(root)
}

} // verus!
