//! Byte frequency analysis.
//!
//! A block's frequency table holds one entry per byte value that occurs in
//! the block, in canonical order: count descending, ties broken by byte value
//! ascending.  The canonical order makes tree construction deterministic and
//! the wire encoding reproducible.

use vstd::prelude::*;

verus! {

use vstd::multiset::Multiset;
use vstd::relations::{sorted_by, total_ordering};
use vstd::seq_lib::group_to_multiset_ensures;
use vstd::seq_lib::lemma_sorted_unique;

broadcast use group_to_multiset_ensures;

/// A byte value and its occurrence count.
#[derive(Clone, Copy, Debug, PartialEq, Eq, Structural)]
pub struct FreqEntry {
    pub val: u8,
    pub count: u32,
}

/// How often `v` occurs in `s`.
pub open spec fn count_of(s: Seq<u8>, v: u8) -> nat
    decreases s.len(),
{
    if s.len() == 0 {
        0
    } else {
        count_of(s.drop_last(), v) + if s.last() == v {
            1nat
        } else {
            0nat
        }
    }
}

pub broadcast proof fn lemma_count_of_push(s: Seq<u8>, x: u8, v: u8)
    ensures
        #[trigger] count_of(s.push(x), v) == count_of(s, v) + if x == v {
            1nat
        } else {
            0nat
        },
{
    assert(s.push(x).drop_last() =~= s);
}

/// The number of occurrences depends only on the multiset of bytes.
pub proof fn lemma_count_of_multiset(s: Seq<u8>, v: u8)
    ensures
        count_of(s, v) == s.to_multiset().count(v),
    decreases s.len(),
{
    if s.len() == 0 {
        assert(s.to_multiset() =~= Multiset::<u8>::empty());
    } else {
        lemma_count_of_multiset(s.drop_last(), v);
        assert(s =~= s.drop_last().push(s.last()));
        assert(s.drop_last().push(s.last()).to_multiset() == s.drop_last().to_multiset().insert(
            s.last(),
        ));
    }
}

/// The canonical table order: count descending, ties by byte value ascending.
pub open spec fn freq_le(a: FreqEntry, b: FreqEntry) -> bool {
    a.count > b.count || (a.count == b.count && a.val <= b.val)
}

pub open spec fn freq_le_fn() -> spec_fn(FreqEntry, FreqEntry) -> bool {
    |a: FreqEntry, b: FreqEntry| freq_le(a, b)
}

pub proof fn lemma_freq_le_total()
    ensures
        total_ordering(freq_le_fn()),
{
}

/// `t` is the canonical frequency table of the block `s`: sorted canonically,
/// one entry per occurring byte value, no entry for an absent value.  The
/// entries carry distinct byte values, so there are at most 256 of them.
pub open spec fn is_canonical_table(t: Seq<FreqEntry>, s: Seq<u8>) -> bool {
    &&& t.len() <= 256
    &&& sorted_by(t, freq_le_fn())
    &&& forall|i: int|
        0 <= i < t.len() ==> (#[trigger] t[i]).count == count_of(s, t[i].val) && t[i].count > 0
    &&& forall|v: u8| count_of(s, v) > 0 ==> exists|i: int| 0 <= i < t.len() && t[i].val == v
    &&& forall|i: int, j: int| 0 <= i < j < t.len() ==> t[i].val != t[j].val
}

/// Two blocks with the same bytes (in any order) have the same canonical
/// table: the table is unique and depends only on the multiset of bytes.
pub proof fn lemma_canonical_table_unique(
    t1: Seq<FreqEntry>,
    t2: Seq<FreqEntry>,
    s1: Seq<u8>,
    s2: Seq<u8>,
)
    requires
        is_canonical_table(t1, s1),
        is_canonical_table(t2, s2),
        s1.to_multiset() == s2.to_multiset(),
    ensures
        t1 == t2,
{
    assert forall|v: u8| count_of(s1, v) == count_of(s2, v) by {
        lemma_count_of_multiset(s1, v);
        lemma_count_of_multiset(s2, v);
    }
    lemma_canonical_no_dup(t1);
    lemma_canonical_no_dup(t2);
    assert forall|e: FreqEntry| t1.to_multiset().count(e) == t2.to_multiset().count(e) by {
        lemma_canonical_entry_count(t1, s1, e);
        lemma_canonical_entry_count(t2, s2, e);
        assert(in_canonical(e, s1) == in_canonical(e, s2));
    }
    assert(t1.to_multiset() =~= t2.to_multiset());
    lemma_freq_le_total();
    lemma_sorted_unique(t1, t2, freq_le_fn());
    assert(t1 =~= t2);
}

/// Whether the canonical table of `s` holds entry `e`.
spec fn in_canonical(e: FreqEntry, s: Seq<u8>) -> bool {
    e.count == count_of(s, e.val) && e.count > 0
}

proof fn lemma_canonical_no_dup(t: Seq<FreqEntry>)
    requires
        forall|i: int, j: int| 0 <= i < j < t.len() ==> t[i].val != t[j].val,
    ensures
        forall|e: FreqEntry| t.to_multiset().count(e) <= 1,
{
    assert(t.no_duplicates()) by {
        assert forall|i: int, j: int|
            0 <= i < t.len() && 0 <= j < t.len() && i != j implies t[i] != t[j] by {
            if i < j {
                assert(t[i].val != t[j].val);
            } else {
                assert(t[j].val != t[i].val);
            }
        }
    }
    t.lemma_multiset_has_no_duplicates();
}

proof fn lemma_canonical_entry_count(t: Seq<FreqEntry>, s: Seq<u8>, e: FreqEntry)
    requires
        is_canonical_table(t, s),
        forall|x: FreqEntry| t.to_multiset().count(x) <= 1,
    ensures
        t.to_multiset().count(e) == if in_canonical(e, s) {
            1int
        } else {
            0int
        },
{
    if in_canonical(e, s) {
        let i = choose|i: int| 0 <= i < t.len() && t[i].val == e.val;
        assert(0 <= i < t.len() && t[i].val == e.val);
        assert(t[i].count == count_of(s, t[i].val));
        assert(t[i] == e);
        assert(t.contains(e));
        assert(t.to_multiset().count(e) > 0);
    } else {
        if t.to_multiset().count(e) > 0 {
            assert(t.contains(e));
            let i = choose|i: int| 0 <= i < t.len() && t[i] == e;
            assert(t[i].count == count_of(s, t[i].val) && t[i].count > 0);
        }
    }
}

fn freq_before(a: FreqEntry, b: FreqEntry) -> (r: bool)
    ensures
        r == (freq_le(a, b) && a != b),
{
    a.count > b.count || (a.count == b.count && a.val < b.val)
}

/// Count byte occurrences in a block and return the table of entries with
/// nonzero counts, in canonical order.
pub fn compute_byte_frequencies(bytes: &[u8]) -> (freq: Vec<FreqEntry>)
    requires
        bytes@.len() <= 65536,
    ensures
        is_canonical_table(freq@, bytes@),
        freq@.len() <= 256,
{
    broadcast use lemma_count_of_push;

    let n = bytes.len();
    let mut counts: Vec<u32> = vec![0u32; 256];
    let mut i: usize = 0;
    while i < n
        invariant
            i <= n,
            n == bytes@.len() <= 65536,
            counts@.len() == 256,
            forall|v: u8| #[trigger] counts@[v as int] == count_of(bytes@.take(i as int), v),
        decreases n - i,
    {
        let b = bytes[i];
        let c = counts[b as usize];
        proof {
            assert(counts@[b as int] == count_of(bytes@.take(i as int), b));
            lemma_count_bound(bytes@.take(i as int), b);
        }
        counts.set(b as usize, c + 1);
        proof {
            assert(bytes@.take(i + 1) =~= bytes@.take(i as int).push(bytes@[i as int]));
            assert forall|v: u8| #[trigger] counts@[v as int] == count_of(
                bytes@.take(i + 1),
                v,
            ) by {
                lemma_count_of_push(bytes@.take(i as int), bytes@[i as int], v);
            }
        }
        i = i + 1;
    }
    proof {
        assert(bytes@.take(n as int) =~= bytes@);
    }
    // collect the nonzero entries, in ascending byte-value order
    let mut freq: Vec<FreqEntry> = Vec::new();
    let mut v: usize = 0;
    while v < 256
        invariant
            v <= 256,
            counts@.len() == 256,
            freq@.len() <= v,
            forall|w: u8| #[trigger] counts@[w as int] == count_of(bytes@, w),
            forall|i: int|
                0 <= i < freq@.len() ==> (#[trigger] freq@[i]).count == count_of(
                    bytes@,
                    freq@[i].val,
                ) && freq@[i].count > 0 && freq@[i].val < v,
            forall|i: int, j: int| 0 <= i < j < freq@.len() ==> freq@[i].val < freq@[j].val,
            forall|w: u8| count_of(bytes@, w) > 0 && w < v ==> exists|i: int|
                0 <= i < freq@.len() && #[trigger] freq@[i].val == w,
        decreases 256 - v,
    {
        let c = counts[v];
        if c > 0 {
            let ghost prev = freq@;
            freq.push(FreqEntry { val: v as u8, count: c });
            proof {
                assert forall|w: u8| count_of(bytes@, w) > 0 && w < v + 1 implies exists|i: int|
                    0 <= i < freq@.len() && #[trigger] freq@[i].val == w by {
                    if w < v {
                        let i = choose|i: int| 0 <= i < prev.len() && #[trigger] prev[i].val == w;
                        assert(freq@[i].val == w);
                    } else {
                        assert(freq@[freq@.len() - 1].val == w);
                    }
                }
            }
        }
        v = v + 1;
    }
    // sort into canonical order: count descending, ties by value ascending
    let ghost unsorted = freq@;
    let mut i: usize = 1;
    while i < freq.len()
        invariant
            1 <= i <= freq@.len() || freq@.len() == 0,
            freq@.len() == unsorted.len(),
            freq@.to_multiset() == unsorted.to_multiset(),
            forall|a: int, b: int| 0 <= a < b < i ==> freq_le(freq@[a], freq@[b]),
        decreases freq@.len() - i,
    {
        let mut j = i;
        while j > 0 && freq_before(freq[j], freq[j - 1])
            invariant
                0 <= j <= i < freq@.len(),
                freq@.len() == unsorted.len(),
                freq@.to_multiset() == unsorted.to_multiset(),
                forall|a: int, b: int| 0 <= a < b <= i && b != j ==> freq_le(freq@[a], freq@[b]),
            decreases j,
        {
            let x = freq[j];
            let y = freq[j - 1];
            let ghost before = freq@;
            freq.set(j, y);
            freq.set(j - 1, x);
            proof {
                assert(freq@ =~= before.update(j as int, before[j - 1]).update(
                    j - 1,
                    before[j as int],
                ));
                assert(freq@.to_multiset() =~= before.to_multiset());
                assert forall|a: int, b: int|
                    0 <= a < b <= i && b != j - 1 implies freq_le(freq@[a], freq@[b]) by {
                    if b == j {
                        if a == j - 1 {
                        } else {
                            assert(freq_le(before[a], before[j - 1]));
                        }
                    } else {
                        if a == j - 1 {
                            assert(freq_le(before[j as int], freq@[b]));
                        } else if a == j {
                            assert(freq_le(before[j - 1], freq@[b]));
                        } else {
                            assert(freq_le(before[a], before[b]));
                        }
                    }
                }
            }
            j = j - 1;
        }
        proof {
            assert forall|a: int, b: int| 0 <= a < b <= i implies freq_le(freq@[a], freq@[b]) by {
                if b == j {
                    if j > 0 {
                        assert(!(freq_le(freq@[j as int], freq@[j - 1]) && freq@[j as int]
                            != freq@[j - 1]));
                        if a < j - 1 {
                            assert(freq_le(freq@[a], freq@[j - 1]));
                        }
                    }
                }
            }
        }
        i = i + 1;
    }
    proof {
        lemma_table_props_from_multiset(freq@, unsorted, bytes@);
    }
    freq
}

proof fn lemma_count_bound(s: Seq<u8>, v: u8)
    ensures
        count_of(s, v) <= s.len(),
    decreases s.len(),
{
    if s.len() > 0 {
        lemma_count_bound(s.drop_last(), v);
    }
}

/// Transfer the canonical-table point properties across a permutation.
proof fn lemma_table_props_from_multiset(t: Seq<FreqEntry>, u: Seq<FreqEntry>, s: Seq<u8>)
    requires
        u.len() <= 256,
        t.to_multiset() == u.to_multiset(),
        forall|i: int|
            0 <= i < u.len() ==> (#[trigger] u[i]).count == count_of(s, u[i].val) && u[i].count
                > 0,
        forall|i: int, j: int| 0 <= i < j < u.len() ==> u[i].val != u[j].val,
        forall|v: u8| count_of(s, v) > 0 ==> exists|i: int|
            0 <= i < u.len() && (#[trigger] u[i]).val == v,
        forall|a: int, b: int| 0 <= a < b < t.len() ==> freq_le(t[a], t[b]),
    ensures
        is_canonical_table(t, s),
{
    assert(t.to_multiset().len() == t.len());
    assert(u.to_multiset().len() == u.len());
    assert forall|i: int|
        0 <= i < t.len() implies (#[trigger] t[i]).count == count_of(s, t[i].val) && t[i].count
        > 0 by {
        assert(t.contains(t[i]));
        assert(t.to_multiset().count(t[i]) > 0);
        assert(u.to_multiset().count(t[i]) > 0);
        assert(u.contains(t[i]));
        let k = choose|k: int| 0 <= k < u.len() && u[k] == t[i];
        assert(u[k].count == count_of(s, u[k].val));
    }
    assert forall|v: u8| count_of(s, v) > 0 implies exists|i: int|
        0 <= i < t.len() && t[i].val == v by {
        let k = choose|k: int| 0 <= k < u.len() && (#[trigger] u[k]).val == v;
        assert(u.contains(u[k]));
        assert(t.to_multiset().count(u[k]) > 0);
        assert(t.contains(u[k]));
        let i = choose|i: int| 0 <= i < t.len() && t[i] == u[k];
        assert(t[i].val == v);
    }
    assert forall|i: int, j: int| 0 <= i < j < t.len() implies t[i].val != t[j].val by {
        if t[i].val == t[j].val {
            // both entries carry the correct count, so they are equal,
            // which contradicts distinctness in the unsorted table
            assert(t.contains(t[i]));
            assert(u.to_multiset().count(t[i]) > 0);
            assert(u.contains(t[i]));
            let k = choose|k: int| 0 <= k < u.len() && u[k] == t[i];
            assert(t[i].count == count_of(s, t[i].val));
            assert(t[j].count == count_of(s, t[j].val));
            assert(t[i] == t[j]);
            lemma_two_indices_count(t, i, j);
            lemma_canonical_no_dup_u(u);
        }
    }
    assert(sorted_by(t, freq_le_fn()));
}

proof fn lemma_canonical_no_dup_u(u: Seq<FreqEntry>)
    requires
        forall|i: int, j: int| 0 <= i < j < u.len() ==> u[i].val != u[j].val,
    ensures
        forall|e: FreqEntry| u.to_multiset().count(e) <= 1,
{
    lemma_canonical_no_dup(u);
}

proof fn lemma_two_indices_count(t: Seq<FreqEntry>, i: int, j: int)
    requires
        0 <= i < j < t.len(),
        t[i] == t[j],
    ensures
        t.to_multiset().count(t[i]) >= 2,
    decreases t.len(),
{
    let last = t.len() - 1;
    if j == last {
        assert(t.drop_last()[i] == t[i]);
        assert(t.drop_last().contains(t[i]));
        assert(t.drop_last().to_multiset().count(t[i]) > 0);
        assert(t =~= t.drop_last().push(t.last()));
        assert(t.drop_last().push(t.last()).to_multiset() == t.drop_last().to_multiset().insert(
            t.last(),
        ));
    } else {
        lemma_two_indices_count(t.drop_last(), i, j);
        assert(t =~= t.drop_last().push(t.last()));
        assert(t.drop_last().push(t.last()).to_multiset() == t.drop_last().to_multiset().insert(
            t.last(),
        ));
    }
}

} // verus!
