//! Block codec: bit packing and unpacking.
//!
//! Compression packs each input byte's dictionary code into a 64-bit
//! accumulator and flushes whole bytes; it fails exactly when the packed
//! block would not fit the caller's capacity, and the caller then stores the
//! block raw.  Decompression walks the tree one bit at a time, emitting a
//! byte at each leaf.

use vstd::prelude::*;

verus! {

use vstd::arithmetic::power2::{pow2, lemma_pow2_unfold, lemma_pow2_adds, lemma_pow2_pos,
    lemma2_to64, lemma2_to64_rest, lemma_pow2_strictly_increases};
use vstd::arithmetic::div_mod::{lemma_fundamental_div_mod, lemma_fundamental_div_mod_converse,
    lemma_div_is_ordered};
use vstd::bits::{lemma_u64_shl_is_mul, lemma_u64_shr_is_div, lemma_u64_pow2_no_overflow};
use crate::bits::{bits_value, byte_bits, bytes_bits, falses, low_bits, nth_bit,
    lemma_bytes_bits_index, lemma_bits_value_bound, lemma_bits_value_concat,
    lemma_bits_value_pad, lemma_byte_bits_of_value, lemma_bytes_bits_push,
    lemma_bytes_bits_len, lemma_low_bits_of_value, lemma_low_bits_value};
use crate::dict::{DictItem, code_of, subtree_fits, populate_dict, lemma_code_exists,
    lemma_code_within};
use crate::freq::{FreqEntry, count_of, is_canonical_table, compute_byte_frequencies,
    lemma_count_of_multiset};
use crate::tree::{HuffTree, spec_build_tree, build_huffman_tree, lemma_build_tree_leaves,
    lemma_table_vals_contains};
use crate::wire::{le16, le32, spec_u32_at, put_u8, put_u16, put_u32, get_u8, get_u32};
use vstd::slice::slice_to_vec;

/// The bit string held by a dictionary slot.
pub open spec fn dict_code(e: DictItem) -> Seq<bool> {
    low_bits(e.bits as nat, e.width as nat)
}

/// A usable dictionary slot: at most 56 significant bits.
pub open spec fn fits_entry(e: DictItem) -> bool {
    e.width <= 56 && e.bits < pow2(e.width as nat)
}

/// The concatenated dictionary codes of a block's bytes.
pub open spec fn dict_bits(d: Seq<DictItem>, s: Seq<u8>) -> Seq<bool>
    decreases s.len(),
{
    if s.len() == 0 {
        Seq::empty()
    } else {
        dict_bits(d, s.drop_last()) + dict_code(d[s.last() as int])
    }
}

/// The concatenated tree codes of a block's bytes.
pub open spec fn tree_bits(s: Seq<u8>, t: HuffTree) -> Seq<bool>
    decreases s.len(),
{
    if s.len() == 0 {
        Seq::empty()
    } else {
        tree_bits(s.drop_last(), t) + code_of(t, s.last()).unwrap()
    }
}

/// Zero bits that fill the last byte: what padding an `n`-bit string needs.
pub open spec fn pad_len(n: int) -> int {
    (8 - n % 8) % 8
}

pub proof fn lemma_pad8(n: int)
    requires
        n >= 0,
    ensures
        0 <= pad_len(n) < 8,
        ((n + 7) / 8) * 8 == n + pad_len(n),
        n % 8 == 0 ==> pad_len(n) == 0 && (n + 7) / 8 == n / 8,
{
    lemma_fundamental_div_mod(n, 8);
    let q = n / 8;
    let r = n % 8;
    if r == 0 {
        lemma_fundamental_div_mod_converse(n + 7, 8, q, 7);
    } else {
        lemma_fundamental_div_mod_converse(n + 7, 8, q + 1, r - 1);
    }
}

proof fn lemma_dict_bits_push(d: Seq<DictItem>, s: Seq<u8>, x: u8)
    ensures
        dict_bits(d, s.push(x)) == dict_bits(d, s) + dict_code(d[x as int]),
{
    assert(s.push(x).drop_last() =~= s);
}

proof fn lemma_dict_bits_len_mono(d: Seq<DictItem>, s: Seq<u8>, i: int)
    requires
        0 <= i <= s.len(),
    ensures
        dict_bits(d, s.take(i)).len() <= dict_bits(d, s).len(),
    decreases s.len(),
{
    if i == s.len() {
        assert(s.take(i) =~= s);
    } else {
        assert(s.take(i) =~= s.drop_last().take(i));
        lemma_dict_bits_len_mono(d, s.drop_last(), i);
    }
}

/// Pack a block's bytes into bits using the dictionary.  Succeeds exactly
/// when the packed block fits in `limit` bytes; on success the output holds
/// the concatenated codes padded with zero bits to a whole byte.
pub fn compress_block(dict: &Vec<DictItem>, input: &[u8], limit: usize) -> (r: (bool, Vec<u8>))
    requires
        dict@.len() == 256,
        forall|i: int| 0 <= i < input@.len() ==> fits_entry(dict@[input@[i] as int]),
    ensures
        r.0 <==> (dict_bits(dict@, input@).len() + 7) / 8 <= limit,
        r.0 ==> bytes_bits(r.1@) == dict_bits(dict@, input@) + falses(
            pad_len(dict_bits(dict@, input@).len() as int) as nat,
        ),
        r.0 ==> r.1@.len() == (dict_bits(dict@, input@).len() + 7) / 8,
{
    let n = input.len();
    let mut out: Vec<u8> = Vec::new();
    let mut window: u64 = 0;
    let mut width: usize = 0;
    let mut i: usize = 0;
    proof {
        lemma2_to64();
        lemma2_to64_rest();
        assert(input@.take(0) =~= Seq::<u8>::empty());
        assert(bytes_bits(out@) + low_bits(window as nat, width as nat) =~= dict_bits(
            dict@,
            input@.take(0),
        ));
    }
    while i < n
        invariant
            i <= n,
            n == input@.len(),
            dict@.len() == 256,
            forall|k: int| 0 <= k < input@.len() ==> fits_entry(dict@[input@[k] as int]),
            width <= 7,
            (window as nat) < pow2(width as nat),
            out@.len() <= limit,
            8 * out@.len() + width == dict_bits(dict@, input@.take(i as int)).len(),
            bytes_bits(out@) + low_bits(window as nat, width as nat) == dict_bits(
                dict@,
                input@.take(i as int),
            ),
        decreases n - i,
    {
        let b = input[i];
        let e = dict[b as usize];
        let ghost pend = low_bits(window as nat, width as nat);
        let ghost code = dict_code(e);
        proof {
            assert(fits_entry(dict@[input@[i as int] as int]));
            lemma2_to64();
            lemma2_to64_rest();
            lemma_pow2_adds(e.width as nat, width as nat);
            lemma_pow2_strictly_increases(e.width as nat, 57);
            lemma_pow2_strictly_increases((e.width + width) as nat, 64);
            assert((e.bits as nat) * pow2(width as nat) < pow2((e.width + width) as nat)) by {
                vstd::arithmetic::mul::lemma_mul_strict_inequality(
                    e.bits as int,
                    pow2(e.width as nat) as int,
                    pow2(width as nat) as int,
                );
            }
            lemma_u64_shl_is_mul(e.bits, width as u64);
        }
        let sh: u64 = e.bits << width;
        proof {
            assert((1u64 << (width as u64)) as nat == pow2(width as nat)) by {
                lemma_u64_pow2_no_overflow(width as nat);
                lemma_u64_shl_is_mul(1u64, width as u64);
            }
            assert(sh % (1u64 << (width as u64)) == 0) by {
                lemma_pow2_pos(width as nat);
                vstd::arithmetic::div_mod::lemma_mod_multiples_basic(
                    e.bits as int,
                    pow2(width as nat) as int,
                );
            }
            assert(sh < 0x8000000000000000u64);
            assert(window | sh == window + sh) by (bit_vector)
                requires
                    width < 8usize,
                    window < (1u64 << (width as u64)),
                    sh % (1u64 << (width as u64)) == 0,
                    sh < 0x8000000000000000u64,
            ;
        }
        let ghost wold = window as nat;
        window = window | sh;
        proof {
            let wv = window as nat;
            assert(wv == bits_value(pend) + bits_value(code) * pow2(pend.len())) by {
                lemma_low_bits_value(wold, width as nat);
                lemma_low_bits_value(e.bits as nat, e.width as nat);
            }
            lemma_bits_value_concat(pend, code);
            assert(wv == bits_value(pend + code));
            lemma_bits_value_bound(pend + code);
            lemma_low_bits_of_value(pend + code);
            assert(low_bits(wv, (width + e.width) as nat) == pend + code);
            assert(input@.take(i + 1) =~= input@.take(i as int).push(input@[i as int]));
            lemma_dict_bits_push(dict@, input@.take(i as int), input@[i as int]);
            assert(bytes_bits(out@) + low_bits(wv, (width + e.width) as nat) =~= dict_bits(
                dict@,
                input@.take(i + 1),
            ));
        }
        width = width + e.width;
        while width >= 8
            invariant
                i < n,
                n == input@.len(),
                dict@.len() == 256,
                width <= 63,
                (window as nat) < pow2(width as nat),
                out@.len() <= limit,
                8 * out@.len() + width == dict_bits(dict@, input@.take(i + 1)).len(),
                bytes_bits(out@) + low_bits(window as nat, width as nat) == dict_bits(
                    dict@,
                    input@.take(i + 1),
                ),
            decreases width,
        {
            if out.len() == limit {
                proof {
                    lemma_dict_bits_len_mono(dict@, input@, i + 1);
                    let total = dict_bits(dict@, input@).len() as int;
                    assert(total >= 8 * limit + 8);
                    lemma_div_is_ordered(8 * (limit as int) + 15, total + 7, 8);
                    assert((8 * (limit as int) + 15) / 8 == limit + 1) by {
                        lemma_fundamental_div_mod_converse(
                            8 * (limit as int) + 15,
                            8,
                            limit as int + 1,
                            7,
                        );
                    }
                }
                return (false, Vec::new());
            }
            let ghost pend2 = low_bits(window as nat, width as nat);
            let ghost c8 = pend2.subrange(0, 8);
            let ghost rest = pend2.subrange(8, width as int);
            let x: u8 = #[verifier::truncate] (window as u8);
            proof {
                lemma2_to64();
                assert(pend2 =~= c8 + rest);
                lemma_bits_value_concat(c8, rest);
                lemma_low_bits_value(window as nat, width as nat);
                lemma_bits_value_bound(c8);
                lemma_fundamental_div_mod_converse(
                    window as int,
                    256,
                    bits_value(rest) as int,
                    bits_value(c8) as int,
                );
                assert(window as u8 == window % 256) by (bit_vector);
                assert(x == window as nat % 256);
                assert(x == bits_value(c8));
                lemma_byte_bits_of_value(c8);
                lemma_bytes_bits_push(out@, x);
            }
            out.push(x);
            proof {
                lemma_u64_shr_is_div(window, 8);
                lemma_bits_value_bound(rest);
                lemma_low_bits_of_value(rest);
                assert((window >> 8) as nat == bits_value(rest));
                assert(low_bits((window >> 8) as nat, (width - 8) as nat) == rest);
                assert(bytes_bits(out@) + rest =~= (bytes_bits(out@.drop_last()) + c8) + rest);
                assert((bytes_bits(out@.drop_last()) + c8) + rest =~= bytes_bits(
                    out@.drop_last(),
                ) + pend2);
            }
            window = window >> 8;
            width = width - 8;
        }
        i = i + 1;
    }
    proof {
        assert(input@.take(n as int) =~= input@);
    }
    let ghost total = dict_bits(dict@, input@).len() as int;
    if width > 0 {
        if out.len() == limit {
            proof {
                assert(total == 8 * limit + width);
                lemma_pad8(total);
                assert((total + 7) / 8 * 8 == total + pad_len(total));
                assert((total + 7) / 8 > limit) by {
                    if (total + 7) / 8 <= limit {
                        vstd::arithmetic::mul::lemma_mul_inequality(
                            (total + 7) / 8,
                            limit as int,
                            8,
                        );
                    }
                }
            }
            return (false, Vec::new());
        }
        let ghost pend3 = low_bits(window as nat, width as nat);
        proof {
            lemma2_to64();
            assert(window < 256);
        }
        let x: u8 = (window as u8);
        proof {
            lemma2_to64();
            let c = pend3 + falses((8 - width) as nat);
            lemma_bits_value_pad(pend3, (8 - width) as nat);
            lemma_low_bits_value(window as nat, width as nat);
            assert(bits_value(c) == window);
            lemma_byte_bits_of_value(c);
            assert(byte_bits(x) == c);
            lemma_bytes_bits_push(out@, x);
        }
        out.push(x);
        proof {
            assert(total == 8 * (out@.len() - 1) + width);
            lemma_pad8(total);
            assert(pad_len(total) == 8 - width) by {
                lemma_fundamental_div_mod_converse(
                    total,
                    8,
                    out@.len() - 1,
                    width as int,
                );
            }
            assert(bytes_bits(out@) =~= dict_bits(dict@, input@) + falses(
                pad_len(total) as nat,
            ));
            assert(out@.len() == (total + 7) / 8) by {
                lemma_fundamental_div_mod_converse(
                    total + 7,
                    8,
                    out@.len() as int,
                    (width - 1) as int,
                );
            }
        }
        (true, out)
    } else {
        proof {
            assert(total == 8 * out@.len());
            lemma_pad8(total);
            assert(pad_len(total) == 0) by {
                lemma_fundamental_div_mod_converse(total, 8, out@.len() as int, 0);
            }
            assert(falses(0) =~= Seq::<bool>::empty());
            assert(low_bits(window as nat, 0) =~= Seq::<bool>::empty());
            assert(bytes_bits(out@) + Seq::<bool>::empty() =~= bytes_bits(out@));
            assert(out@.len() == (total + 7) / 8) by {
                lemma_fundamental_div_mod_converse(total + 7, 8, out@.len() as int, 7);
            }
        }
        (true, out)
    }
}

/// The serialized frequency table: for each entry one byte value and its
/// 32-bit count, in canonical order.
pub open spec fn table_bytes(t: Seq<FreqEntry>) -> Seq<u8>
    decreases t.len(),
{
    if t.len() == 0 {
        Seq::empty()
    } else {
        table_bytes(t.drop_last()) + seq![t.last().val] + le32(t.last().count)
    }
}

/// Metadata of an encoded block: entry count, table, original byte count,
/// encoded byte count.
pub open spec fn block_meta(t: Seq<FreqEntry>, s: Seq<u8>, enc_len: int) -> Seq<u8> {
    le16(t.len() as u16) + table_bytes(t) + le32(s.len() as u32) + le32(enc_len as u32)
}

/// Metadata of a raw block: a zero entry count and the byte count.
pub open spec fn raw_meta(s: Seq<u8>) -> Seq<u8> {
    le16(0) + le32(s.len() as u32)
}

/// What encoding a block with canonical table `t` produces: the packed form
/// when the dictionary fits 56 bits and the packed block fits `limit` bytes,
/// and the raw form otherwise.
pub open spec fn encoding_matches(
    t: Seq<FreqEntry>,
    meta: Seq<u8>,
    payload: Seq<u8>,
    s: Seq<u8>,
    limit: int,
) -> bool {
    let tree = spec_build_tree(t);
    let bits = tree_bits(s, tree);
    if subtree_fits(tree, 0) && (bits.len() + 7) / 8 <= limit {
        &&& meta == block_meta(t, s, (bits.len() + 7) as int / 8)
        &&& bytes_bits(payload) == bits + falses(pad_len(bits.len() as int) as nat)
        &&& payload.len() == (bits.len() + 7) / 8
    } else {
        meta == raw_meta(s) && payload == s
    }
}

/// The block encoding of `s`: its canonical table, laid out per
/// `encoding_matches`.
pub open spec fn is_block_encoding(meta: Seq<u8>, payload: Seq<u8>, s: Seq<u8>, limit: int) -> bool {
    exists|t: Seq<FreqEntry>|
        #[trigger] is_canonical_table(t, s) && encoding_matches(t, meta, payload, s, limit)
}

/// Codes of at most 56 bits bound a block's packed size.
pub proof fn lemma_tree_bits_len_bound(s: Seq<u8>, t: HuffTree)
    requires
        forall|i: int|
            0 <= i < s.len() ==> code_of(t, #[trigger] s[i]) is Some && code_of(
                t,
                s[i],
            ).unwrap().len() <= 56,
    ensures
        tree_bits(s, t).len() <= 56 * s.len(),
    decreases s.len(),
{
    if s.len() > 0 {
        assert forall|i: int| 0 <= i < s.drop_last().len() implies code_of(
            t,
            #[trigger] s.drop_last()[i],
        ) is Some && code_of(t, s.drop_last()[i]).unwrap().len() <= 56 by {
            assert(s.drop_last()[i] == s[i]);
        }
        lemma_tree_bits_len_bound(s.drop_last(), t);
        assert(s.last() == s[s.len() - 1]);
    }
}

proof fn lemma_dict_tree_bits(d: Seq<DictItem>, s: Seq<u8>, t: HuffTree)
    requires
        forall|i: int|
            0 <= i < s.len() ==> code_of(t, #[trigger] s[i]) is Some && dict_code(
                d[s[i] as int],
            ) == code_of(t, s[i]).unwrap(),
    ensures
        dict_bits(d, s) == tree_bits(s, t),
    decreases s.len(),
{
    if s.len() > 0 {
        assert forall|i: int| 0 <= i < s.drop_last().len() implies code_of(
            t,
            #[trigger] s.drop_last()[i],
        ) is Some && dict_code(d[s.drop_last()[i] as int]) == code_of(
            t,
            s.drop_last()[i],
        ).unwrap() by {
            assert(s.drop_last()[i] == s[i]);
        }
        lemma_dict_tree_bits(d, s.drop_last(), t);
        assert(s.last() == s[s.len() - 1]);
    }
}

/// Encode one block: canonicalize frequencies, build the tree and the
/// dictionary, and pack; fall back to the raw form when the dictionary or the
/// packed block does not fit.  Returns the metadata and the payload bytes.
pub fn encode_block(input: &[u8], dict: &mut Vec<DictItem>, limit: usize) -> (r: (Vec<u8>, Vec<
    u8,
>))
    requires
        old(dict).len() == 256,
        1 <= input@.len() <= 65536,
    ensures
        final(dict).len() == 256,
        is_block_encoding(r.0@, r.1@, input@, limit as int),
{
    broadcast use vstd::seq_lib::group_to_multiset_ensures;

    let freq = compute_byte_frequencies(input);
    proof {
        assert(input@.contains(input@[0]));
        lemma_count_of_multiset(input@, input@[0]);
        assert(count_of(input@, input@[0]) > 0);
        assert(freq@.len() >= 1);
    }
    let tree = build_huffman_tree(freq.as_slice());
    let ghost spec_tree = spec_build_tree(freq@);
    proof {
        lemma2_to64();
    }
    let have_dict = populate_dict(0, 0, &tree, dict);
    if have_dict {
        proof {
            lemma_build_tree_leaves(freq@);
            assert forall|i: int| 0 <= i < input@.len() implies code_of(
                spec_tree,
                #[trigger] input@[i],
            ) is Some && dict_code(dict@[input@[i] as int]) == code_of(
                spec_tree,
                input@[i],
            ).unwrap() && fits_entry(dict@[input@[i] as int]) && code_of(
                spec_tree,
                input@[i],
            ).unwrap().len() <= 56 by {
                let b = input@[i];
                assert(input@.contains(b));
                lemma_count_of_multiset(input@, b);
                assert(count_of(input@, b) > 0);
                let j = choose|j: int| 0 <= j < freq@.len() && freq@[j].val == b;
                lemma_table_vals_contains(freq@, b);
                lemma_code_exists(spec_tree, b);
                let c = code_of(spec_tree, b).unwrap();
                lemma_code_within(spec_tree, 0, b);
                let e = dict@[b as int];
                assert(e.width == 0 + c.len());
                assert(e.bits == 0 + bits_value(c) * pow2(0));
                assert(e.bits == bits_value(c));
                lemma_low_bits_of_value(c);
            }
            lemma_dict_tree_bits(dict@, input@, spec_tree);
        }
        let (ok, payload) = compress_block(dict, input, limit);
        if ok {
            proof {
                lemma_tree_bits_len_bound(input@, spec_tree);
                assert(tree_bits(input@, spec_tree).len() <= 56 * 65536) by {
                    vstd::arithmetic::mul::lemma_mul_inequality(
                        input@.len() as int,
                        65536,
                        56,
                    );
                }
                lemma_div_is_ordered(
                    tree_bits(input@, spec_tree).len() + 7 as int,
                    (56 * 65536 + 7) as int,
                    8,
                );
            }
            let mut meta: Vec<u8> = Vec::new();
            let d = freq.len();
            put_u16(&mut meta, d as u16);
            let mut k: usize = 0;
            proof {
                assert(freq@.take(0) =~= Seq::<FreqEntry>::empty());
                assert(meta@ =~= le16(d as u16) + table_bytes(freq@.take(0)));
            }
            while k < d
                invariant
                    k <= d,
                    d == freq@.len(),
                    meta@ == le16(d as u16) + table_bytes(freq@.take(k as int)),
                decreases d - k,
            {
                let ghost before = meta@;
                put_u8(&mut meta, freq[k].val);
                put_u32(&mut meta, freq[k].count);
                proof {
                    assert(freq@.take(k + 1) =~= freq@.take(k as int).push(freq@[k as int]));
                    assert(freq@.take(k + 1).drop_last() =~= freq@.take(k as int));
                    assert(meta@ =~= le16(d as u16) + table_bytes(freq@.take(k + 1)));
                }
                k = k + 1;
            }
            put_u32(&mut meta, input.len() as u32);
            put_u32(&mut meta, payload.len() as u32);
            proof {
                assert(freq@.take(d as int) =~= freq@);
                assert(meta@ =~= block_meta(
                    freq@,
                    input@,
                    (tree_bits(input@, spec_tree).len() + 7) as int / 8,
                ));
                assert(is_canonical_table(freq@, input@) && encoding_matches(
                    freq@,
                    meta@,
                    payload@,
                    input@,
                    limit as int,
                ));
            }
            return (meta, payload);
        }
        let mut meta: Vec<u8> = Vec::new();
        put_u16(&mut meta, 0);
        put_u32(&mut meta, input.len() as u32);
        let payload = slice_to_vec(input);
        proof {
            assert(meta@ =~= raw_meta(input@));
            assert(is_canonical_table(freq@, input@) && encoding_matches(
                freq@,
                meta@,
                payload@,
                input@,
                limit as int,
            ));
        }
        (meta, payload)
    } else {
        let mut meta: Vec<u8> = Vec::new();
        put_u16(&mut meta, 0);
        put_u32(&mut meta, input.len() as u32);
        let payload = slice_to_vec(input);
        proof {
            assert(meta@ =~= raw_meta(input@));
            assert(is_canonical_table(freq@, input@) && encoding_matches(
                freq@,
                meta@,
                payload@,
                input@,
                limit as int,
            ));
        }
        (meta, payload)
    }
}

/// The frequency table held little-endian at position `p`.
pub open spec fn parse_table(c: Seq<u8>, p: int, d: int) -> Seq<FreqEntry> {
    Seq::new(
        d as nat,
        |i: int|
            FreqEntry {
                val: c[p + 5 * i],
                count: spec_u32_at(c, p + 5 * i + 1) as u32,
            },
    )
}

/// How many metadata bytes follow the entry-count field: the serialized
/// table plus the two length fields for an encoded block, or the single
/// length field for a raw one.
pub fn metadata_len(freq_len: usize) -> (r: usize)
    requires
        freq_len <= 65535,
    ensures
        r == if freq_len > 0 {
            5 * freq_len + 8
        } else {
            4int
        },
{
    if freq_len > 0 {
        5 * freq_len + 8
    } else {
        4
    }
}

/// Parse a block's metadata after the entry-count field: the frequency table
/// (when `freq_len > 0`), the encoded byte count, and the decoded byte count.
pub fn decode_metadata(buf: &[u8], p: usize, freq_len: usize) -> (r: (Vec<FreqEntry>, usize,
    usize))
    requires
        freq_len <= 256,
        freq_len > 0 ==> p + 5 * freq_len + 8 <= buf@.len(),
        freq_len == 0 ==> p + 4 <= buf@.len(),
    ensures
        r.0@.len() == freq_len,
        freq_len > 0 ==> r.0@ == parse_table(buf@, p as int, freq_len as int) && r.2
            == spec_u32_at(buf@, p + 5 * freq_len) && r.1 == spec_u32_at(
            buf@,
            p + 5 * freq_len + 4,
        ),
        freq_len == 0 ==> r.1 == spec_u32_at(buf@, p as int) && r.2 == r.1,
{
    let mut freq: Vec<FreqEntry> = Vec::new();
    if freq_len > 0 {
        let mut k: usize = 0;
        let mut loc: usize = p;
        while k < freq_len
            invariant
                k <= freq_len,
                freq_len <= 256,
                p + 5 * freq_len + 8 <= buf@.len(),
                loc == p + 5 * k,
                freq@.len() == k,
                forall|j: int|
                    0 <= j < k ==> #[trigger] freq@[j] == (FreqEntry {
                        val: buf@[p + 5 * j],
                        count: spec_u32_at(buf@, p + 5 * j + 1) as u32,
                    }),
            decreases freq_len - k,
        {
            let (loc2, val) = get_u8(buf, loc);
            let (loc3, count) = get_u32(buf, loc2);
            freq.push(FreqEntry { val, count });
            loc = loc3;
            k = k + 1;
        }
        proof {
            assert(freq@ =~= parse_table(buf@, p as int, freq_len as int));
        }
        let (loc4, to_decode) = get_u32(buf, loc);
        let (_, encoded) = get_u32(buf, loc4);
        (freq, encoded as usize, to_decode as usize)
    } else {
        let (_, encoded) = get_u32(buf, p);
        (freq, encoded as usize, encoded as usize)
    }
}

/// Decode one block's payload: rebuild the tree from the transmitted table
/// and unpack, or, for a raw block, return the literal bytes.
pub fn decode_block(freq: &Vec<FreqEntry>, bytes_to_decode: usize, in_buf: &[u8]) -> (r: Result<
    Vec<u8>,
    FormatError,
>)
    requires
        freq@.len() <= 256,
    ensures
        freq@.len() > 0 ==> (match r {
            Ok(v) => decode_bits(
                spec_build_tree(freq@),
                bytes_bits(in_buf@),
                bytes_to_decode as nat,
            ) == Some(v@) && v@.len() == bytes_to_decode,
            Err(_) => decode_bits(
                spec_build_tree(freq@),
                bytes_bits(in_buf@),
                bytes_to_decode as nat,
            ) is None,
        }),
        freq@.len() == 0 ==> (match r {
            Ok(v) => in_buf@.len() == bytes_to_decode && v@ == in_buf@,
            Err(_) => in_buf@.len() != bytes_to_decode,
        }),
{
    if freq.len() > 0 {
        let tree = build_huffman_tree(freq.as_slice());
        decompress_block(&tree, bytes_to_decode, in_buf)
    } else {
        if in_buf.len() != bytes_to_decode {
            return Err(FormatError);
        }
        Ok(slice_to_vec(in_buf))
    }
}

/// A malformed or truncated stream: premature end of data mid-block, a
/// malformed length prefix, or an inconsistent dictionary.
#[derive(Clone, Copy, Debug, PartialEq, Eq, Structural)]
pub struct FormatError;

/// Walk the tree from the root along `bits` to the first leaf: the byte
/// found there and the number of bits consumed, or nothing if the bits run
/// out at an internal node.
pub open spec fn walk(t: HuffTree, bits: Seq<bool>) -> Option<(u8, nat)>
    decreases t,
{
    match t {
        HuffTree::Leaf { val } => Some((val, 0)),
        HuffTree::Node { left, right } => if bits.len() == 0 {
            None
        } else {
            match walk(
                if bits[0] {
                    *right
                } else {
                    *left
                },
                bits.drop_first(),
            ) {
                Some(p) => Some((p.0, p.1 + 1)),
                None => None,
            }
        },
    }
}

pub proof fn lemma_walk_len(t: HuffTree, bits: Seq<bool>)
    ensures
        walk(t, bits) is Some ==> walk(t, bits).unwrap().1 <= bits.len(),
    decreases t,
{
    match t {
        HuffTree::Leaf { .. } => {
        },
        HuffTree::Node { left, right } => {
            if bits.len() > 0 {
                if bits[0] {
                    lemma_walk_len(*right, bits.drop_first());
                } else {
                    lemma_walk_len(*left, bits.drop_first());
                }
            }
        },
    }
}

/// Decode `n` bytes from `bits` by repeated walks from the root.
pub open spec fn decode_bits(t: HuffTree, bits: Seq<bool>, n: nat) -> Option<Seq<u8>>
    decreases n,
{
    if n == 0 {
        Some(Seq::empty())
    } else {
        match walk(t, bits) {
            Some(p) => match decode_bits(t, bits.skip(p.1 as int), (n - 1) as nat) {
                Some(rest) => Some(seq![p.0] + rest),
                None => None,
            },
            None => None,
        }
    }
}

/// Unpack `bytes_to_decode` bytes from the packed block `in_buf` by walking
/// the tree bit by bit, least-significant bit first within each byte.  Fails
/// exactly when the packed data runs out before the last byte is decoded.
pub fn decompress_block(tree: &HuffTree, bytes_to_decode: usize, in_buf: &[u8]) -> (r: Result<
    Vec<u8>,
    FormatError,
>)
    ensures
        match r {
            Ok(v) => decode_bits(*tree, bytes_bits(in_buf@), bytes_to_decode as nat) == Some(v@)
                && v@.len() == bytes_to_decode,
            Err(_) => decode_bits(*tree, bytes_bits(in_buf@), bytes_to_decode as nat) is None,
        },
{
    let ghost bits = bytes_bits(in_buf@);
    let mut out: Vec<u8> = Vec::new();
    if bytes_to_decode == 0 {
        return Ok(out);
    }
    let buf_len = in_buf.len();
    let mut inptr: usize = 0;
    let mut inbyte: u8 = 0;
    let mut inwidth: usize = 0;
    let mut t: &HuffTree = tree;
    let ghost mut ws: int = 0;
    proof {
        lemma_bytes_bits_len(in_buf@);
        lemma2_to64();
        assert(bits.skip(0) =~= bits);
        assert(low_bits(inbyte as nat, 0) =~= bits.subrange(0, 0));
        match decode_bits(*tree, bits.skip(0), bytes_to_decode as nat) {
            Some(rest) => {
                assert(Seq::<u8>::empty() + rest =~= rest);
            },
            None => {
            },
        }
    }
    loop
        invariant
            bits == bytes_bits(in_buf@),
            bits.len() == 8 * in_buf@.len(),
            buf_len == in_buf@.len(),
            inptr <= buf_len,
            inwidth <= 8,
            inwidth <= 8 * inptr,
            out@.len() < bytes_to_decode,
            0 <= ws <= 8 * inptr - inwidth,
            (inbyte as nat) < pow2(inwidth as nat),
            low_bits(inbyte as nat, inwidth as nat) == bits.subrange(
                8 * inptr - inwidth,
                8 * inptr as int,
            ),
            (match walk(*t, bits.skip(8 * inptr - inwidth)) {
                Some(p) => walk(*tree, bits.skip(ws)) == Some(
                    (p.0, (p.1 + (8 * inptr - inwidth - ws)) as nat),
                ),
                None => walk(*tree, bits.skip(ws)) is None,
            }),
            (match decode_bits(*tree, bits.skip(ws), (bytes_to_decode - out@.len()) as nat) {
                Some(rest) => decode_bits(*tree, bits, bytes_to_decode as nat) == Some(
                    out@ + rest,
                ),
                None => decode_bits(*tree, bits, bytes_to_decode as nat) is None,
            }),
        decreases bytes_to_decode - out@.len(), bits.len() - (8 * inptr - inwidth),
    {
        let ghost c = 8 * inptr as int - inwidth as int;
        match t {
            HuffTree::Leaf { val } => {
                proof {
                    let rem = (bytes_to_decode - out@.len()) as nat;
                    assert(walk(*t, bits.skip(c)) == Some((*val, 0nat)));
                    assert(walk(*tree, bits.skip(ws)) == Some((*val, (c - ws) as nat)));
                    lemma_walk_len(*tree, bits.skip(ws));
                    assert(bits.skip(ws).skip(c - ws) =~= bits.skip(c));
                    match decode_bits(*tree, bits.skip(c), (rem - 1) as nat) {
                        Some(rest2) => {
                            assert(decode_bits(*tree, bits.skip(ws), rem) == Some(
                                seq![*val] + rest2,
                            ));
                            assert(out@ + (seq![*val] + rest2) =~= out@.push(*val) + rest2);
                        },
                        None => {
                            assert(decode_bits(*tree, bits.skip(ws), rem) is None);
                        },
                    }
                }
                out.push(*val);
                if out.len() == bytes_to_decode {
                    proof {
                        assert(decode_bits(*tree, bits.skip(c), 0nat) == Some(
                            Seq::<u8>::empty(),
                        ));
                        assert(out@ + Seq::<u8>::empty() =~= out@);
                    }
                    return Ok(out);
                }
                t = tree;
                proof {
                    ws = c;
                }
            },
            HuffTree::Node { left, right } => {
                if inwidth == 0 {
                    if inptr == buf_len {
                        proof {
                            assert(bits.skip(c) =~= Seq::<bool>::empty());
                            assert(walk(*t, bits.skip(c)) is None);
                            assert(decode_bits(
                                *tree,
                                bits.skip(ws),
                                (bytes_to_decode - out@.len()) as nat,
                            ) is None);
                        }
                        return Err(FormatError);
                    }
                    inbyte = in_buf[inptr];
                    inptr = inptr + 1;
                    inwidth = 8;
                    proof {
                        lemma_bytes_bits_index(in_buf@, inptr as int - 1);
                        crate::bits::lemma_byte_bits_low(inbyte);
                        assert(low_bits(inbyte as nat, 8) == bits.subrange(
                            8 * (inptr - 1),
                            8 * (inptr - 1) + 8,
                        ));
                    }
                }
                let bit = inbyte & 1;
                let ghost c2 = 8 * inptr as int - inwidth as int;
                proof {
                    assert(c2 == c);
                    assert(c < bits.len());
                    assert(inbyte & 1 == inbyte % 2) by (bit_vector);
                    assert((inbyte as nat) / pow2(0) == inbyte as nat) by {
                        lemma2_to64();
                        vstd::arithmetic::div_mod::lemma_div_basics(inbyte as int);
                    }
                    assert(low_bits(inbyte as nat, inwidth as nat)[0] == nth_bit(
                        inbyte as nat,
                        0,
                    ));
                    assert(bits[c] == (bit == 1));
                    assert(bits.skip(c).len() > 0);
                    assert(bits.skip(c)[0] == bits[c]);
                    assert(bits.skip(c).drop_first() =~= bits.skip(c + 1));
                }
                proof {
                    let child = if bits[c] {
                        **right
                    } else {
                        **left
                    };
                    match walk(child, bits.skip(c + 1)) {
                        Some(q) => {
                            assert(walk(*t, bits.skip(c)) == Some((q.0, q.1 + 1)));
                        },
                        None => {
                            assert(walk(*t, bits.skip(c)) is None);
                        },
                    }
                    // shift the buffered byte right by one bit
                    lemma2_to64();
                    vstd::bits::lemma_u8_shr_is_div(inbyte, 1);
                    lemma_fundamental_div_mod(inbyte as int, 2);
                    lemma_pow2_unfold(inwidth as nat);
                    assert(low_bits(inbyte as nat, inwidth as nat).drop_first() =~= low_bits(
                        (inbyte >> 1) as nat,
                        (inwidth - 1) as nat,
                    )) by {
                        assert forall|j: int| 0 <= j < inwidth - 1 implies low_bits(
                            inbyte as nat,
                            inwidth as nat,
                        ).drop_first()[j] == low_bits(
                            (inbyte >> 1) as nat,
                            (inwidth - 1) as nat,
                        )[j] by {
                            crate::bits::lemma_nth_bit_div2(inbyte as nat, j as nat);
                        }
                    }
                    assert(low_bits((inbyte >> 1) as nat, (inwidth - 1) as nat) =~= bits.subrange(
                        c + 1,
                        8 * inptr as int,
                    ));
                }
                inbyte = inbyte >> 1;
                inwidth = inwidth - 1;
                t = if bit == 0 {
                    &**left
                } else {
                    &**right
                };
            },
        }
    }
}

} // verus!
