//! Encoding dictionary: maps byte values to bit strings.
//!
//! The dictionary is filled by walking the tree; the left branch appends a 0
//! bit and the right branch a 1 bit, least significant bit first.  A walk
//! that would produce a code wider than 56 bits fails, and the caller falls
//! back to storing the block raw; the 56-bit ceiling keeps the packer's
//! 64-bit accumulator free of overflow.  A tree that is a single leaf yields
//! the empty code (width 0): the unpacker emits the leaf's byte value without
//! consuming bits, so the policy round-trips.

use vstd::prelude::*;

verus! {

use vstd::arithmetic::power2::{pow2, lemma_pow2_unfold, lemma_pow2_pos, lemma2_to64,
    lemma_pow2_strictly_increases};
use vstd::bits::lemma_u64_shl_is_mul;
use crate::tree::{HuffTree, tree_leaves_ms};
use crate::bits::{bits_value, lemma_bits_value_concat};

/// One dictionary slot: the bit string, at most 56 significant bits, padded
/// with zeroes, and the number of valid bits.
#[derive(Clone, Copy, Debug, PartialEq, Eq, Structural)]
pub struct DictItem {
    pub bits: u64,
    pub width: usize,
}

/// The bit path from the root of `t` to a leaf carrying `b` (false = left).
/// When several leaves carry `b`, the rightmost one wins, as its dictionary
/// write happens last.
pub open spec fn code_of(t: HuffTree, b: u8) -> Option<Seq<bool>>
    decreases t,
{
    match t {
        HuffTree::Leaf { val } => if val == b {
            Some(Seq::empty())
        } else {
            None
        },
        HuffTree::Node { left, right } => match code_of(*right, b) {
            Some(c) => Some(seq![true] + c),
            None => match code_of(*left, b) {
                Some(c) => Some(seq![false] + c),
                None => None,
            },
        },
    }
}

/// Every leaf of `t`, rooted `w` levels down, lies within the 56-bit ceiling.
pub open spec fn subtree_fits(t: HuffTree, w: int) -> bool
    decreases t,
{
    match t {
        HuffTree::Leaf { .. } => w <= 56,
        HuffTree::Node { left, right } => subtree_fits(*left, w + 1) && subtree_fits(
            *right,
            w + 1,
        ),
    }
}

proof fn lemma_deep_unfit(t: HuffTree, w: int)
    requires
        w > 56,
    ensures
        !subtree_fits(t, w),
    decreases t,
{
    match t {
        HuffTree::Leaf { .. } => {
        },
        HuffTree::Node { left, right } => {
            lemma_deep_unfit(*left, w + 1);
        },
    }
}

/// A code found within budget stays below the 56-bit ceiling.
pub proof fn lemma_code_within(t: HuffTree, w: int, b: u8)
    requires
        subtree_fits(t, w),
        code_of(t, b) is Some,
    ensures
        w + code_of(t, b).unwrap().len() <= 56,
    decreases t,
{
    match t {
        HuffTree::Leaf { .. } => {
        },
        HuffTree::Node { left, right } => {
            match code_of(*right, b) {
                Some(c) => {
                    lemma_code_within(*right, w + 1, b);
                },
                None => {
                    lemma_code_within(*left, w + 1, b);
                },
            }
        },
    }
}

/// A byte value has a code exactly when it sits at some leaf of the tree.
pub proof fn lemma_code_exists(t: HuffTree, b: u8)
    ensures
        code_of(t, b) is Some <==> tree_leaves_ms(t).count(b) > 0,
    decreases t,
{
    broadcast use vstd::multiset::group_multiset_axioms;

    match t {
        HuffTree::Leaf { val } => {
        },
        HuffTree::Node { left, right } => {
            lemma_code_exists(*left, b);
            lemma_code_exists(*right, b);
        },
    }
}

/// Fill the dictionary with the codes of every leaf of `tree`, rooted `width`
/// levels down with path value `bits`; fails when some code would exceed 56
/// bits, leaving the dictionary partially written.  Whether the walk fails
/// or not, only slots of byte values that sit under some leaf are touched.
pub fn populate_dict(width: usize, bits: u64, tree: &HuffTree, dict: &mut Vec<DictItem>) -> (r:
    bool)
    requires
        old(dict).len() == 256,
        bits < pow2(width as nat),
    ensures
        final(dict).len() == 256,
        r == subtree_fits(*tree, width as int),
        r ==> forall|b: u8|
            match code_of(*tree, b) {
                Some(c) => {
                    let e = #[trigger] final(dict)@[b as int];
                    e.width == width + c.len() && e.bits == bits + bits_value(c) * pow2(
                        width as nat,
                    ) && e.bits < pow2((width + c.len()) as nat)
                },
                None => final(dict)@[b as int] == old(dict)@[b as int],
            },
        forall|b: u8|
            tree_leaves_ms(*tree).count(b) == 0 ==> #[trigger] final(dict)@[b as int] == old(
                dict,
            )@[b as int],
    decreases *tree,
{
    broadcast use vstd::multiset::group_multiset_axioms;

    match tree {
        HuffTree::Leaf { val } => {
            if width > 56 {
                return false;
            }
            dict.set(*val as usize, DictItem { bits, width });
            proof {
                assert forall|b: u8|
                    match code_of(*tree, b) {
                        Some(c) => {
                            let e = #[trigger] final(dict)@[b as int];
                            e.width == width + c.len() && e.bits == bits + bits_value(c) * pow2(
                                width as nat,
                            ) && e.bits < pow2((width + c.len()) as nat)
                        },
                        None => final(dict)@[b as int] == old(dict)@[b as int],
                    } by {
                    if b == *val {
                        let c = code_of(*tree, b).unwrap();
                        assert(c.len() == 0);
                        assert(bits_value(c) == 0);
                    }
                }
            }
            true
        },
        HuffTree::Node { left, right } => {
            if width >= 56 {
                proof {
                    lemma_deep_unfit(**left, width as int + 1);
                }
                return false;
            }
            proof {
                lemma_pow2_strictly_increases(width as nat, (width + 1) as nat);
            }
            let ghost mid = dict@;
            let ok_left = populate_dict(width + 1, bits, left, dict);
            proof {
                assert forall|b: u8|
                    tree_leaves_ms(*tree).count(b) == 0 implies #[trigger] dict@[b as int]
                    == mid[b as int] by {
                    assert(tree_leaves_ms(**left).count(b) == 0);
                    if ok_left {
                        lemma_code_exists(**left, b);
                    }
                }
            }
            if !ok_left {
                return false;
            }
            let ghost after_left = dict@;
            let hi: u64 = 1u64 << width;
            proof {
                vstd::bits::lemma_u64_pow2_no_overflow(width as nat);
                lemma_u64_shl_is_mul(1u64, width as u64);
                lemma_pow2_unfold((width + 1) as nat);
                assert(hi == pow2(width as nat));
                assert((bits | hi) == bits + hi) by (bit_vector)
                    requires
                        hi == (1u64 << width),
                        width < 56,
                        bits < (1u64 << width),
                ;
            }
            let bits_right: u64 = bits | hi;
            let ok_right = populate_dict(width + 1, bits_right, right, dict);
            proof {
                assert forall|b: u8|
                    tree_leaves_ms(*tree).count(b) == 0 implies #[trigger] dict@[b as int]
                    == mid[b as int] by {
                    assert(tree_leaves_ms(**right).count(b) == 0);
                    if ok_right {
                        lemma_code_exists(**right, b);
                    }
                }
            }
            if !ok_right {
                return false;
            }
            proof {
                let w = width as nat;
                lemma_pow2_pos(w);
                lemma2_to64();
                assert forall|b: u8|
                    match code_of(*tree, b) {
                        Some(c) => {
                            let e = #[trigger] final(dict)@[b as int];
                            e.width == width + c.len() && e.bits == bits + bits_value(c) * pow2(
                                w,
                            ) && e.bits < pow2((width + c.len()) as nat)
                        },
                        None => final(dict)@[b as int] == mid[b as int],
                    } by {
                    match code_of(**right, b) {
                        Some(cr) => {
                            let c = seq![true] + cr;
                            lemma_bits_value_concat(seq![true], cr);
                            assert(bits_value(seq![true]) == 1) by {
                                assert(seq![true].drop_first() =~= Seq::<bool>::empty());
                                assert(bits_value(Seq::<bool>::empty()) == 0);
                                assert(seq![true][0]);
                            }
                            assert(bits_value(c) == 1 + bits_value(cr) * 2);
                            assert((1 + bits_value(cr) * 2) * pow2(w) == pow2(w) + bits_value(
                                cr,
                            ) * (2 * pow2(w))) by (nonlinear_arith);
                            assert(2 * pow2(w) == pow2(w + 1));
                        },
                        None => {
                            match code_of(**left, b) {
                                Some(cl) => {
                                    let c = seq![false] + cl;
                                    lemma_bits_value_concat(seq![false], cl);
                                    assert(bits_value(seq![false]) == 0) by {
                                        assert(seq![false].drop_first()
                                            =~= Seq::<bool>::empty());
                                        assert(bits_value(Seq::<bool>::empty()) == 0);
                                        assert(!seq![false][0]);
                                    }
                                    assert(bits_value(c) == bits_value(cl) * 2);
                                    assert(bits_value(cl) * 2 * pow2(w) == bits_value(cl) * (2
                                        * pow2(w))) by (nonlinear_arith);
                                    assert(2 * pow2(w) == pow2(w + 1));
                                },
                                None => {
                                },
                            }
                        },
                    }
                }
            }
            true
        },
    }
}

} // verus!
