//! Stream layer: a compressed stream is a sequence of independently coded
//! blocks of at most 65536 original bytes each, ended by the end of the data.
//!
//! This module states the stream format as a spec, proves that decompression
//! inverts compression and that the compressed form of a byte sequence is
//! unique, and provides the sequential compressor and decompressor.

use vstd::prelude::*;

verus! {

use vstd::slice::slice_subrange;
use crate::bits::{bytes_bits, falses, lemma_bytes_bits_inj};
use crate::block::{FormatError, block_meta, decode_bits, decode_block, decode_metadata,
    encode_block, encoding_matches, is_block_encoding, metadata_len, pad_len, parse_table,
    raw_meta, table_bytes, tree_bits, walk, lemma_tree_bits_len_bound};
use crate::dict::{DictItem, code_of, subtree_fits, lemma_code_exists, lemma_code_within};
use crate::freq::{FreqEntry, count_of, is_canonical_table, lemma_canonical_table_unique,
    lemma_count_of_multiset};
use crate::tree::{HuffTree, spec_build_tree, lemma_build_tree_leaves, lemma_table_vals_contains};
use crate::wire::{le16, le32, spec_u16_at, spec_u32_at, get_u16, lemma_le16_parse,
    lemma_le32_parse};

/// Decode a whole stream: parse blocks until the data ends cleanly, or
/// nothing if the stream is malformed.
pub open spec fn spec_decompress(c: Seq<u8>) -> Option<Seq<u8>>
    decreases c.len(),
{
    if c.len() == 0 {
        Some(Seq::empty())
    } else if c.len() < 2 {
        None
    } else {
        let d = spec_u16_at(c, 0);
        if d > 256 {
            None
        } else {
            let metabytes: int = if d > 0 {
                5 * d + 8
            } else {
                4
            };
            if c.len() < 2 + metabytes {
                None
            } else {
                let t = parse_table(c, 2, d);
                let dec = if d > 0 {
                    spec_u32_at(c, 2 + 5 * d)
                } else {
                    spec_u32_at(c, 2)
                };
                let enc = if d > 0 {
                    spec_u32_at(c, 2 + 5 * d + 4)
                } else {
                    spec_u32_at(c, 2)
                };
                if dec > 65536 || enc > 65536 {
                    None
                } else {
                    let body = 2 + metabytes;
                    if c.len() < body + enc {
                        None
                    } else {
                        let payload = c.subrange(body, body + enc);
                        let blk = if d > 0 {
                            decode_bits(spec_build_tree(t), bytes_bits(payload), dec as nat)
                        } else {
                            Some(payload)
                        };
                        match blk {
                            Some(b) => match spec_decompress(c.skip(body + enc)) {
                                Some(rest) => Some(b + rest),
                                None => None,
                            },
                            None => None,
                        }
                    }
                }
            }
        }
    }
}

/// How many bytes of `s` the next block covers: a full 65536-byte block, or
/// all of a shorter remainder.
pub open spec fn chunk_len(s: Seq<u8>) -> int {
    if s.len() <= 65536 {
        s.len() as int
    } else {
        65536
    }
}

/// `c` is the compressed form of `s`: the encodings of `s` split into blocks
/// of 65536 bytes (the last one shorter), in order.
pub open spec fn is_stream_encoding(c: Seq<u8>, s: Seq<u8>) -> bool
    decreases s.len(),
{
    if s.len() == 0 {
        c == Seq::<u8>::empty()
    } else {
        exists|meta: Seq<u8>, payload: Seq<u8>|
            #![trigger is_block_encoding(meta, payload, s.take(chunk_len(s)), 65536)]
            c.len() >= meta.len() + payload.len() && c.subrange(0, meta.len() as int) == meta
                && c.subrange(meta.len() as int, (meta.len() + payload.len()) as int) == payload
                && is_block_encoding(meta, payload, s.take(chunk_len(s)), 65536)
                && is_stream_encoding(
                c.skip((meta.len() + payload.len()) as int),
                s.skip(chunk_len(s)),
            )
    }
}

/// Walking the tree along a code reaches the coded byte, consuming exactly
/// the code, whatever bits follow.
proof fn lemma_walk_code(t: HuffTree, b: u8, rest: Seq<bool>)
    requires
        code_of(t, b) is Some,
    ensures
        walk(t, code_of(t, b).unwrap() + rest) == Some((b, code_of(t, b).unwrap().len())),
    decreases t,
{
    let c = code_of(t, b).unwrap();
    match t {
        HuffTree::Leaf { val } => {
            assert(c + rest =~= rest);
            assert(c.len() == 0);
        },
        HuffTree::Node { left, right } => {
            match code_of(*right, b) {
                Some(cr) => {
                    assert(c =~= seq![true] + cr);
                    assert((c + rest)[0]);
                    assert((c + rest).drop_first() =~= cr + rest);
                    lemma_walk_code(*right, b, rest);
                },
                None => {
                    let cl = code_of(*left, b).unwrap();
                    assert(c =~= seq![false] + cl);
                    assert(!(c + rest)[0]);
                    assert((c + rest).drop_first() =~= cl + rest);
                    lemma_walk_code(*left, b, rest);
                },
            }
        },
    }
}

/// The coded bits of a block, read from the front.
proof fn lemma_tree_bits_first(s: Seq<u8>, t: HuffTree)
    requires
        s.len() > 0,
    ensures
        tree_bits(s, t) == code_of(t, s[0]).unwrap() + tree_bits(s.drop_first(), t),
    decreases s.len(),
{
    if s.len() == 1 {
        assert(s.drop_last().len() == 0);
        assert(s.drop_first().len() == 0);
        assert(tree_bits(s.drop_last(), t) =~= Seq::<bool>::empty());
        assert(tree_bits(s.drop_first(), t) =~= Seq::<bool>::empty());
        assert(s.last() == s[0]);
        assert(tree_bits(s, t) =~= code_of(t, s[0]).unwrap() + tree_bits(s.drop_first(), t));
    } else {
        lemma_tree_bits_first(s.drop_last(), t);
        assert(s.drop_last().drop_first() =~= s.drop_first().drop_last());
        assert(s.drop_first().last() == s.last());
        assert(s.drop_last()[0] == s[0]);
        assert(tree_bits(s, t) == tree_bits(s.drop_last(), t) + code_of(t, s.last()).unwrap());
        assert((code_of(t, s[0]).unwrap() + tree_bits(s.drop_last().drop_first(), t)) + code_of(
            t,
            s.last(),
        ).unwrap() =~= code_of(t, s[0]).unwrap() + (tree_bits(s.drop_first().drop_last(), t)
            + code_of(t, s.drop_first().last()).unwrap()));
    }
}

/// Decoding the coded bits of a block recovers the block, whatever padding
/// bits follow.
proof fn lemma_decode_tree_bits(s: Seq<u8>, t: HuffTree, extra: Seq<bool>)
    requires
        forall|i: int| 0 <= i < s.len() ==> code_of(t, #[trigger] s[i]) is Some,
    ensures
        decode_bits(t, tree_bits(s, t) + extra, s.len()) == Some(s),
    decreases s.len(),
{
    if s.len() == 0 {
        assert(decode_bits(t, tree_bits(s, t) + extra, 0) == Some(Seq::<u8>::empty()));
        assert(s =~= Seq::<u8>::empty());
    } else {
        lemma_tree_bits_first(s, t);
        let c0 = code_of(t, s[0]).unwrap();
        let tail_bits = tree_bits(s.drop_first(), t) + extra;
        assert(tree_bits(s, t) + extra =~= c0 + tail_bits);
        lemma_walk_code(t, s[0], tail_bits);
        assert((c0 + tail_bits).skip(c0.len() as int) =~= tail_bits);
        assert forall|i: int| 0 <= i < s.drop_first().len() implies code_of(
            t,
            #[trigger] s.drop_first()[i],
        ) is Some by {
            assert(s.drop_first()[i] == s[i + 1]);
        }
        lemma_decode_tree_bits(s.drop_first(), t, extra);
        assert(seq![s[0]] + s.drop_first() =~= s);
    }
}

proof fn lemma_table_bytes_len(t: Seq<FreqEntry>)
    ensures
        table_bytes(t).len() == 5 * t.len(),
    decreases t.len(),
{
    if t.len() > 0 {
        lemma_table_bytes_len(t.drop_last());
    }
}

proof fn lemma_table_bytes_index(t: Seq<FreqEntry>, i: int)
    requires
        0 <= i < t.len(),
    ensures
        table_bytes(t).subrange(5 * i, 5 * i + 5) == seq![t[i].val] + le32(t[i].count),
    decreases t.len(),
{
    lemma_table_bytes_len(t);
    lemma_table_bytes_len(t.drop_last());
    if i == t.len() - 1 {
        assert(table_bytes(t).subrange(5 * i, 5 * i + 5) =~= seq![t.last().val] + le32(
            t.last().count,
        ));
    } else {
        lemma_table_bytes_index(t.drop_last(), i);
        assert(table_bytes(t).subrange(5 * i, 5 * i + 5) =~= table_bytes(
            t.drop_last(),
        ).subrange(5 * i, 5 * i + 5));
    }
}

/// Every byte of a block whose table is canonical has a code in the block's
/// tree, and the code fits the 56-bit ceiling when the tree does.
proof fn lemma_codes_exist(t: Seq<FreqEntry>, s: Seq<u8>)
    requires
        is_canonical_table(t, s),
        s.len() >= 1,
    ensures
        t.len() >= 1,
        forall|i: int| 0 <= i < s.len() ==> code_of(spec_build_tree(t), #[trigger] s[i]) is Some,
        subtree_fits(spec_build_tree(t), 0) ==> forall|i: int|
            0 <= i < s.len() ==> code_of(spec_build_tree(t), #[trigger] s[i]).unwrap().len()
                <= 56,
{
    broadcast use vstd::seq_lib::group_to_multiset_ensures;

    let tree = spec_build_tree(t);
    assert(s.contains(s[0]));
    lemma_count_of_multiset(s, s[0]);
    assert(count_of(s, s[0]) > 0);
    lemma_build_tree_leaves(t);
    assert forall|i: int| 0 <= i < s.len() implies code_of(tree, #[trigger] s[i]) is Some by {
        let b = s[i];
        assert(s.contains(b));
        lemma_count_of_multiset(s, b);
        assert(count_of(s, b) > 0);
        lemma_table_vals_contains(t, b);
        lemma_code_exists(tree, b);
    }
    if subtree_fits(tree, 0) {
        assert forall|i: int| 0 <= i < s.len() implies code_of(
            tree,
            #[trigger] s[i],
        ).unwrap().len() <= 56 by {
            lemma_code_within(tree, 0, s[i]);
        }
    }
}

/// Framing: a well-formed block followed by any tail decodes to the block's
/// bytes followed by whatever the tail decodes to.
#[verifier::rlimit(100)]
proof fn lemma_block_framing(
    meta: Seq<u8>,
    payload: Seq<u8>,
    s: Seq<u8>,
    rest: Seq<u8>,
    t: Seq<FreqEntry>,
)
    requires
        1 <= s.len() <= 65536,
        is_canonical_table(t, s),
        encoding_matches(t, meta, payload, s, 65536),
    ensures
        spec_decompress(meta + payload + rest) == match spec_decompress(rest) {
            Some(r) => Some(s + r),
            None => None,
        },
{
    let c = meta + payload + rest;
    let tree = spec_build_tree(t);
    let bits = tree_bits(s, tree);
    lemma_codes_exist(t, s);
    lemma_table_bytes_len(t);
    if subtree_fits(tree, 0) && (bits.len() + 7) / 8 <= 65536 {
        let d = t.len() as int;
        let enc = (bits.len() + 7) as int / 8;
        assert(meta == block_meta(t, s, enc));
        assert(meta.len() == 2 + 5 * d + 8);
        assert(c.subrange(0, 2) =~= le16(d as u16));
        lemma_le16_parse(c, 0, d as u16);
        assert(spec_u16_at(c, 0) == d);
        assert(1 <= d <= 256);
        // the transmitted table parses back to t
        assert(parse_table(c, 2, d) =~= t) by {
            assert forall|i: int| 0 <= i < d implies parse_table(c, 2, d)[i] == t[i] by {
                lemma_table_bytes_index(t, i);
                assert(table_bytes(t)[5 * i] == (seq![t[i].val] + le32(t[i].count))[0]);
                assert(c[2 + 5 * i] == table_bytes(t)[5 * i]);
                assert(c.subrange(2 + 5 * i + 1, 2 + 5 * i + 5) =~= le32(t[i].count)) by {
                    assert forall|j: int| 0 <= j < 4 implies c.subrange(
                        2 + 5 * i + 1,
                        2 + 5 * i + 5,
                    )[j] == le32(t[i].count)[j] by {
                        assert(c[2 + 5 * i + 1 + j] == table_bytes(t)[5 * i + 1 + j]);
                        assert(table_bytes(t)[5 * i + 1 + j] == (seq![t[i].val] + le32(
                            t[i].count,
                        ))[1 + j]);
                    }
                }
                lemma_le32_parse(c, 2 + 5 * i + 1, t[i].count);
            }
        }
        assert(c.subrange(2 + 5 * d, 2 + 5 * d + 4) =~= le32(s.len() as u32));
        lemma_le32_parse(c, 2 + 5 * d, s.len() as u32);
        assert(spec_u32_at(c, 2 + 5 * d) == s.len());
        assert(c.subrange(2 + 5 * d + 4, 2 + 5 * d + 8) =~= le32(enc as u32));
        assert(enc <= 65536) by {
            lemma_tree_bits_len_bound(s, tree);
        }
        lemma_le32_parse(c, 2 + 5 * d + 4, enc as u32);
        assert(spec_u32_at(c, 2 + 5 * d + 4) == enc);
        assert(payload.len() == enc);
        assert(c.subrange(meta.len() as int, meta.len() as int + enc) =~= payload);
        assert(c.skip(meta.len() as int + enc) =~= rest);
        lemma_decode_tree_bits(s, tree, falses(pad_len(bits.len() as int) as nat));
        assert(decode_bits(tree, bytes_bits(payload), s.len()) == Some(s));
        assert(c.len() >= 2 + (5 * d + 8) + enc);
    } else {
        assert(meta == raw_meta(s));
        assert(payload == s);
        assert(meta.len() == 6);
        assert(c.subrange(0, 2) =~= le16(0));
        lemma_le16_parse(c, 0, 0);
        assert(spec_u16_at(c, 0) == 0);
        assert(c.subrange(2, 6) =~= le32(s.len() as u32));
        lemma_le32_parse(c, 2, s.len() as u32);
        assert(spec_u32_at(c, 2) == s.len());
        assert(c.subrange(6, 6 + s.len() as int) =~= s);
        assert(c.skip(6 + s.len() as int) =~= rest);
    }
}

/// The head block of a stream encoding decodes off the front: the stream
/// decodes to the first chunk followed by whatever the tail decodes to.
#[verifier::rlimit(100)]
proof fn lemma_stream_head(c: Seq<u8>, s: Seq<u8>)
    requires
        s.len() > 0,
        is_stream_encoding(c, s),
    ensures
        exists|j: int|
            0 < j <= c.len() && #[trigger] is_stream_encoding(c.skip(j), s.skip(chunk_len(s)))
                && spec_decompress(c) == (match spec_decompress(c.skip(j)) {
                Some(r) => Some(s.take(chunk_len(s)) + r),
                None => None::<Seq<u8>>,
            }),
{
    let k = chunk_len(s);
    let blk = s.take(k);
    let (meta, payload) = choose|meta: Seq<u8>, payload: Seq<u8>|
        #![trigger is_block_encoding(meta, payload, blk, 65536)]
        c.len() >= meta.len() + payload.len() && c.subrange(0, meta.len() as int) == meta
            && c.subrange(meta.len() as int, (meta.len() + payload.len()) as int) == payload
            && is_block_encoding(meta, payload, blk, 65536) && is_stream_encoding(
            c.skip((meta.len() + payload.len()) as int),
            s.skip(k),
        );
    let t = choose|t: Seq<FreqEntry>|
        #[trigger] is_canonical_table(t, blk) && encoding_matches(t, meta, payload, blk, 65536);
    let j = (meta.len() + payload.len()) as int;
    let rest = c.skip(j);
    assert(c =~= meta + payload + rest);
    lemma_block_framing(meta, payload, blk, rest, t);
    assert(j > 0) by {
        if subtree_fits(spec_build_tree(t), 0) && (tree_bits(blk, spec_build_tree(t)).len() + 7)
            / 8 <= 65536 {
            assert(meta == block_meta(t, blk, (tree_bits(blk, spec_build_tree(t)).len() + 7) as int
                / 8));
        } else {
            assert(meta == raw_meta(blk));
        }
    }
}

/// Round trip: decompressing a compressed stream gives back the original
/// bytes, for any byte sequence.
pub proof fn lemma_round_trip(c: Seq<u8>, s: Seq<u8>)
    requires
        is_stream_encoding(c, s),
    ensures
        spec_decompress(c) == Some(s),
    decreases s.len(),
{
    if s.len() == 0 {
        assert(spec_decompress(c) == Some(Seq::<u8>::empty()));
        assert(s =~= Seq::<u8>::empty());
    } else {
        lemma_stream_head(c, s);
        let j = choose|j: int|
            0 < j <= c.len() && #[trigger] is_stream_encoding(c.skip(j), s.skip(chunk_len(s)))
                && spec_decompress(c) == (match spec_decompress(c.skip(j)) {
                Some(r) => Some(s.take(chunk_len(s)) + r),
                None => None::<Seq<u8>>,
            });
        lemma_round_trip(c.skip(j), s.skip(chunk_len(s)));
        assert(s.take(chunk_len(s)) + s.skip(chunk_len(s)) =~= s);
    }
}

/// A block's encoding is unique: any two encodings of the same bytes at the
/// same capacity are identical.
proof fn lemma_block_encoding_unique(
    meta1: Seq<u8>,
    payload1: Seq<u8>,
    meta2: Seq<u8>,
    payload2: Seq<u8>,
    s: Seq<u8>,
    limit: int,
)
    requires
        is_block_encoding(meta1, payload1, s, limit),
        is_block_encoding(meta2, payload2, s, limit),
    ensures
        meta1 == meta2,
        payload1 == payload2,
{
    let t1 = choose|t: Seq<FreqEntry>|
        #[trigger] is_canonical_table(t, s) && encoding_matches(t, meta1, payload1, s, limit);
    let t2 = choose|t: Seq<FreqEntry>|
        #[trigger] is_canonical_table(t, s) && encoding_matches(t, meta2, payload2, s, limit);
    lemma_canonical_table_unique(t1, t2, s, s);
    let tree = spec_build_tree(t1);
    let bits = tree_bits(s, tree);
    if subtree_fits(tree, 0) && (bits.len() + 7) / 8 <= limit {
        lemma_bytes_bits_inj(payload1, payload2);
    }
}

/// Determinism: any two compressed forms of the same bytes are identical;
/// in particular the number of workers cannot affect the output.
#[verifier::rlimit(100)]
pub proof fn lemma_compress_deterministic(c1: Seq<u8>, c2: Seq<u8>, s: Seq<u8>)
    requires
        is_stream_encoding(c1, s),
        is_stream_encoding(c2, s),
    ensures
        c1 == c2,
    decreases s.len(),
{
    if s.len() == 0 {
    } else {
        let k = chunk_len(s);
        let blk = s.take(k);
        let (meta1, payload1) = choose|meta: Seq<u8>, payload: Seq<u8>|
            #![trigger is_block_encoding(meta, payload, blk, 65536)]
            c1.len() >= meta.len() + payload.len() && c1.subrange(0, meta.len() as int) == meta
                && c1.subrange(meta.len() as int, (meta.len() + payload.len()) as int)
                == payload && is_block_encoding(meta, payload, blk, 65536)
                && is_stream_encoding(c1.skip((meta.len() + payload.len()) as int), s.skip(k));
        let (meta2, payload2) = choose|meta: Seq<u8>, payload: Seq<u8>|
            #![trigger is_block_encoding(meta, payload, blk, 65536)]
            c2.len() >= meta.len() + payload.len() && c2.subrange(0, meta.len() as int) == meta
                && c2.subrange(meta.len() as int, (meta.len() + payload.len()) as int)
                == payload && is_block_encoding(meta, payload, blk, 65536)
                && is_stream_encoding(c2.skip((meta.len() + payload.len()) as int), s.skip(k));
        lemma_block_encoding_unique(meta1, payload1, meta2, payload2, blk, 65536);
        lemma_compress_deterministic(
            c1.skip((meta1.len() + payload1.len()) as int),
            c2.skip((meta2.len() + payload2.len()) as int),
            s.skip(k),
        );
        assert(c1 =~= meta1 + payload1 + c1.skip((meta1.len() + payload1.len()) as int));
        assert(c2 =~= meta2 + payload2 + c2.skip((meta2.len() + payload2.len()) as int));
    }
}

/// One block encoding followed by a stream encoding of the remaining bytes
/// is a stream encoding of the whole.
proof fn lemma_stream_cons(meta: Seq<u8>, payload: Seq<u8>, rest: Seq<u8>, s: Seq<u8>)
    requires
        s.len() > 0,
        is_block_encoding(meta, payload, s.take(chunk_len(s)), 65536),
        is_stream_encoding(rest, s.skip(chunk_len(s))),
    ensures
        is_stream_encoding(meta + payload + rest, s),
{
    let k = chunk_len(s);
    let c = meta + payload + rest;
    assert(c.subrange(0, meta.len() as int) =~= meta);
    assert(c.subrange(meta.len() as int, (meta.len() + payload.len()) as int) =~= payload);
    assert(c.skip((meta.len() + payload.len()) as int) =~= rest);
    assert(is_stream_encoding(c.skip((meta.len() + payload.len()) as int), s.skip(k)));
    assert(is_block_encoding(meta, payload, s.take(k), 65536));
}

/// Compress a byte sequence, block by block, sequentially.
#[verifier::rlimit(100)]
pub fn compress_bytes(input: &[u8]) -> (r: Vec<u8>)
    ensures
        is_stream_encoding(r@, input@),
{
    let n = input.len();
    let mut out: Vec<u8> = Vec::new();
    let mut dict: Vec<DictItem> = Vec::new();
    let mut j: usize = 0;
    while j < 256
        invariant
            dict@.len() == j,
            j <= 256,
        decreases 256 - j,
    {
        dict.push(DictItem { bits: 0, width: 0 });
        j = j + 1;
    }
    let mut p: usize = 0;
    proof {
        assert(input@.skip(0) =~= input@);
    }
    while p < n
        invariant
            p <= n,
            n == input@.len(),
            dict@.len() == 256,
            forall|rest: Seq<u8>|
                #[trigger] is_stream_encoding(rest, input@.skip(p as int))
                    ==> is_stream_encoding(out@ + rest, input@),
        decreases n - p,
    {
        let k: usize = if n - p <= 65536 {
            n - p
        } else {
            65536
        };
        let chunk = slice_subrange(input, p, p + k);
        let (meta, payload) = encode_block(chunk, &mut dict, 65536);
        let ghost out_before = out@;
        let mut m = meta;
        let mut pl = payload;
        let ghost meta_s = m@;
        let ghost payload_s = pl@;
        out.append(&mut m);
        out.append(&mut pl);
        proof {
            let tail = input@.skip(p as int);
            assert(chunk@ =~= tail.take(k as int));
            assert forall|rest: Seq<u8>|
                #[trigger] is_stream_encoding(rest, input@.skip(p + k)) implies is_stream_encoding(
                out@ + rest,
                input@,
            ) by {
                let c2 = meta_s + payload_s + rest;
                assert(tail.skip(k as int) =~= input@.skip(p + k));
                lemma_stream_cons(meta_s, payload_s, rest, tail);
                assert(is_stream_encoding(c2, tail));
                assert(out@ + rest =~= out_before + c2);
            }
        }
        p = p + k;
    }
    proof {
        assert(input@.skip(n as int).len() == 0);
        assert(is_stream_encoding(Seq::<u8>::empty(), input@.skip(n as int)));
        assert(out@ + Seq::<u8>::empty() =~= out@);
    }
    out
}

/// Decompress a whole stream of blocks.  Fails exactly on a malformed
/// stream: a truncated block, an oversized field, or packed data that runs
/// out mid-block.
#[verifier::rlimit(100)]
pub fn decompress_stream(input: &[u8]) -> (r: Result<Vec<u8>, FormatError>)
    ensures
        match r {
            Ok(v) => spec_decompress(input@) == Some(v@),
            Err(_) => spec_decompress(input@) is None,
        },
{
    let n = input.len();
    let mut out: Vec<u8> = Vec::new();
    let mut p: usize = 0;
    proof {
        assert(input@.skip(0) =~= input@);
        match spec_decompress(input@) {
            Some(rest) => {
                assert(Seq::<u8>::empty() + rest =~= rest);
            },
            None => {
            },
        }
    }
    while p < n
        invariant
            p <= n,
            n == input@.len(),
            (match spec_decompress(input@.skip(p as int)) {
                Some(rest) => spec_decompress(input@) == Some(out@ + rest),
                None => spec_decompress(input@) is None,
            }),
        decreases n - p,
    {
        let ghost c = input@.skip(p as int);
        proof {
            assert(c.len() == n - p);
        }
        if n - p < 2 {
            return Err(FormatError);
        }
        let (p2, d16) = get_u16(input, p);
        let d = d16 as usize;
        proof {
            assert(c.subrange(0, 2) =~= input@.subrange(p as int, p + 2));
            assert(spec_u16_at(c, 0) == spec_u16_at(input@, p as int));
        }
        if d > 256 {
            return Err(FormatError);
        }
        let metabytes = metadata_len(d);
        if n - p2 < metabytes {
            return Err(FormatError);
        }
        let (freq, enc, dec) = decode_metadata(input, p2, d);
        proof {
            if d > 0 {
                assert(parse_table(c, 2, d as int) =~= parse_table(input@, p + 2, d as int));
                assert(spec_u32_at(c, 2 + 5 * d) == spec_u32_at(input@, p + 2 + 5 * d));
                assert(spec_u32_at(c, 2 + 5 * d + 4) == spec_u32_at(
                    input@,
                    p + 2 + 5 * d + 4,
                ));
            } else {
                assert(spec_u32_at(c, 2) == spec_u32_at(input@, p + 2));
            }
        }
        if dec > 65536 || enc > 65536 {
            return Err(FormatError);
        }
        let body = p2 + metabytes;
        if n - body < enc {
            return Err(FormatError);
        }
        let payload = slice_subrange(input, body, body + enc);
        proof {
            assert(payload@ =~= c.subrange(2 + metabytes as int, 2 + metabytes as int
                + enc as int));
        }
        let blk = decode_block(&freq, dec, payload);
        match blk {
            Ok(mut v) => {
                let ghost vs = v@;
                let ghost out_before = out@;
                out.append(&mut v);
                proof {
                    assert(c.skip(2 + metabytes as int + enc as int) =~= input@.skip(
                        (body + enc) as int,
                    ));
                    match spec_decompress(input@.skip((body + enc) as int)) {
                        Some(rest2) => {
                            assert(spec_decompress(c) == Some(vs + rest2));
                            assert(out_before + (vs + rest2) =~= out@ + rest2);
                        },
                        None => {
                            assert(spec_decompress(c) is None);
                        },
                    }
                }
                p = body + enc;
            },
            Err(e) => {
                proof {
                    assert(spec_decompress(c) is None);
                }
                return Err(e);
            },
        }
    }
    proof {
        assert(input@.skip(n as int).len() == 0);
        assert(spec_decompress(input@.skip(n as int)) == Some(Seq::<u8>::empty()));
        assert(out@ + Seq::<u8>::empty() =~= out@);
    }
    Ok(out)
}

} // verus!
