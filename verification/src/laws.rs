//! The stated laws of the codec: every built code table is prefix-free,
//! and decoding inverts encoding for every admissible input.

use vstd::prelude::*;
use crate::bit_stream::bits_val;
use crate::bit_stream::val_bits;
use crate::bit_stream::lemma_val_bits_len;
use crate::bit_stream::lemma_val_bits_val;
use crate::bit_stream::lemma_pw2_values;
use crate::huffman_types::HuffmanNode;
use crate::huffman_types::wf_node;
use crate::huffman_types::syms;
use crate::huffman_types::shape;
use crate::huffman_types::depth;
use crate::huffman_types::paths;
use crate::huffman_types::code_of;
use crate::huffman_types::lemma_paths_len;
use crate::compress::Strategy;
use crate::compress::build_spec;
use crate::compress::encode_spec;
use crate::compress::frame_spec;
use crate::compress::sym_byte;
use crate::compress::sym_bytes;
use crate::compress::records_bits;
use crate::compress::record_bits;
use crate::compress::payload_spec;
use crate::compress::lemma_build_props;
use crate::compress::lemma_depth_bound;
use crate::compress::lemma_paths_align;
use crate::compress::lemma_sym_bytes_len;
use crate::compress::lemma_records_len;
use crate::decompress::decode_spec;
use crate::decompress::decode_payload;
use crate::decompress::scan_symbol;
use crate::decompress::lookup_spec;
use crate::decompress::parse_frame;
use crate::decompress::parse_frame_a;
use crate::decompress::parse_frame_b;
use crate::decompress::parse_paths;
use crate::decompress::parse_record;
use crate::decompress::char_at;
use crate::decompress::zip_table;
use crate::decompress::strip_code;
use crate::decompress::lemma_strip_at;
use crate::decompress::lemma_parse_paths_fuel;

verus! {

/// Prefix-freedom: in the code table of any well-formed tree, no entry's
/// code is a prefix of a different entry's code (in particular, all codes
/// are distinct).
pub proof fn lemma_prefix_free(t: HuffmanNode, i: int, j: int)
    requires
        wf_node(t),
        0 <= i < paths(t).len(),
        0 <= j < paths(t).len(),
        i != j,
    ensures
        !paths(t)[i].0.is_prefix_of(paths(t)[j].0),
    decreases t,
{
    match t {
        HuffmanNode::Branch(b) => {
            lemma_paths_len(*b.t);
            lemma_paths_len(*b.f);
            let la = paths(*b.t).len() as int;
            let pi = paths(t)[i].0;
            let pj = paths(t)[j].0;
            if i < la && j < la {
                assert(pi == seq![false] + paths(*b.t)[i].0);
                assert(pj == seq![false] + paths(*b.t)[j].0);
                lemma_prefix_free(*b.t, i, j);
                if pi.is_prefix_of(pj) {
                    assert(pi == pj.subrange(0, pi.len() as int));
                    assert forall|q: int| 0 <= q < paths(*b.t)[i].0.len() implies paths(
                        *b.t,
                    )[i].0[q] == pj.subrange(1, pi.len() as int)[q] by {
                        assert(pi[1 + q] == paths(*b.t)[i].0[q]);
                        assert(pj.subrange(0, pi.len() as int)[1 + q] == pj[1 + q]);
                    }
                    assert(paths(*b.t)[i].0 =~= pj.subrange(1, pi.len() as int));
                    assert(pj.subrange(1, pi.len() as int) =~= paths(*b.t)[j].0.subrange(
                        0,
                        paths(*b.t)[i].0.len() as int,
                    ));
                    assert(paths(*b.t)[i].0.is_prefix_of(paths(*b.t)[j].0));
                }
            } else if i >= la && j >= la {
                assert(pi == seq![true] + paths(*b.f)[i - la].0);
                assert(pj == seq![true] + paths(*b.f)[j - la].0);
                lemma_prefix_free(*b.f, i - la, j - la);
                if pi.is_prefix_of(pj) {
                    assert(pi == pj.subrange(0, pi.len() as int));
                    assert forall|q: int| 0 <= q < paths(*b.f)[i - la].0.len() implies paths(
                        *b.f,
                    )[i - la].0[q] == pj.subrange(1, pi.len() as int)[q] by {
                        assert(pi[1 + q] == paths(*b.f)[i - la].0[q]);
                        assert(pj.subrange(0, pi.len() as int)[1 + q] == pj[1 + q]);
                    }
                    assert(paths(*b.f)[i - la].0 =~= pj.subrange(1, pi.len() as int));
                    assert(pj.subrange(1, pi.len() as int) =~= paths(*b.f)[j - la].0.subrange(
                        0,
                        paths(*b.f)[i - la].0.len() as int,
                    ));
                    assert(paths(*b.f)[i - la].0.is_prefix_of(paths(*b.f)[j - la].0));
                }
            } else if i < la {
                assert(pi == seq![false] + paths(*b.t)[i].0);
                assert(pj == seq![true] + paths(*b.f)[j - la].0);
                assert(pi[0] == false && pj[0] == true);
                if pi.is_prefix_of(pj) {
                    assert(pi[0] == pj[0]);
                }
            } else {
                assert(pi == seq![true] + paths(*b.f)[i - la].0);
                assert(pj == seq![false] + paths(*b.t)[j].0);
                assert(pi[0] == true && pj[0] == false);
                if pi.is_prefix_of(pj) {
                    assert(pi[0] == pj[0]);
                }
            }
        },
        HuffmanNode::Value(_) => {
            assert(false);
        },
        HuffmanNode::Empty => {},
    }
}

proof fn lemma_lookup_found(tbl: Seq<(Seq<bool>, char)>, key: Seq<bool>, j: int)
    requires
        0 <= j < tbl.len(),
        tbl[j].0 == key,
        forall|k: int| 0 <= k < tbl.len() && k != j ==> (#[trigger] tbl[k]).0 != key,
    ensures
        lookup_spec(tbl, key) == Some(tbl[j].1),
    decreases j,
{
    if j > 0 {
        assert(tbl[0].0 != key);
        let rest = tbl.drop_first();
        assert(rest[j - 1].0 == key);
        assert(forall|k: int| 0 <= k < rest.len() && k != j - 1 ==> (#[trigger] rest[k]).0 != key);
        lemma_lookup_found(rest, key, j - 1);
    }
}

proof fn lemma_lookup_absent(tbl: Seq<(Seq<bool>, char)>, key: Seq<bool>)
    requires
        forall|k: int| 0 <= k < tbl.len() ==> (#[trigger] tbl[k]).0 != key,
    ensures
        lookup_spec(tbl, key) is None,
    decreases tbl.len(),
{
    if tbl.len() > 0 {
        let rest = tbl.drop_first();
        assert(forall|k: int| 0 <= k < rest.len() ==> (#[trigger] rest[k]).0 != key);
        lemma_lookup_absent(rest, key);
    }
}

proof fn lemma_scan_steps(t: HuffmanNode, bits: Seq<bool>, start: int, cur: int, c: char)
    requires
        wf_node(t),
        syms(t).no_duplicates(),
        syms(t).contains(c),
        t matches HuffmanNode::Branch(_),
        0 <= start <= cur,
        cur <= start + code_of(t, c).len() - 1,
        start + code_of(t, c).len() <= bits.len(),
        bits.subrange(start, start + code_of(t, c).len()) == code_of(t, c),
    ensures
        scan_symbol(paths(t), bits, start, cur) == Some((c, start + code_of(t, c).len())),
    decreases start + code_of(t, c).len() - cur,
{
    let code = code_of(t, c);
    let piece = bits.subrange(start, cur + 1);
    assert forall|q: int| 0 <= q < cur + 1 - start implies piece[q] == code[q] by {
        assert(code[q] == bits.subrange(start, start + code.len())[q]);
    }
    lemma_paths_align(t);
    lemma_paths_len(t);
    let jc = choose|q: int| 0 <= q < syms(t).len() && syms(t)[q] == c;
    assert(paths(t)[jc] == (code, c));
    if cur + 1 - start == code.len() {
        assert(piece =~= code);
        assert forall|k: int| 0 <= k < paths(t).len() && k != jc implies (#[trigger] paths(
            t,
        )[k]).0 != code by {
            if paths(t)[k].0 == code {
                lemma_prefix_free(t, k, jc);
                assert(code.subrange(0, code.len() as int) =~= code);
                assert(paths(t)[k].0.is_prefix_of(paths(t)[jc].0));
            }
        }
        lemma_lookup_found(paths(t), code, jc);
        assert(lookup_spec(paths(t), piece) == Some(c));
    } else {
        assert forall|k: int| 0 <= k < paths(t).len() implies (#[trigger] paths(t)[k]).0
            != piece by {
            if paths(t)[k].0 == piece {
                assert(piece.len() < code.len());
                assert(piece =~= code.subrange(0, piece.len() as int));
                assert(piece.is_prefix_of(code));
                if k == jc {
                    assert(paths(t)[jc].0 == code);
                } else {
                    lemma_prefix_free(t, k, jc);
                }
            }
        }
        lemma_lookup_absent(paths(t), piece);
        lemma_scan_steps(t, bits, start, cur + 1, c);
    }
}

proof fn lemma_decode_payload_codes(t: HuffmanNode, bits: Seq<bool>, pos: int, inseq: Seq<char>)
    requires
        wf_node(t),
        syms(t).no_duplicates(),
        t matches HuffmanNode::Branch(_),
        forall|i: int| 0 <= i < inseq.len() ==> syms(t).contains(#[trigger] inseq[i]),
        0 <= pos,
        pos + payload_spec(t, inseq).len() <= bits.len(),
        bits.subrange(pos, pos + payload_spec(t, inseq).len()) == payload_spec(t, inseq),
    ensures
        decode_payload(paths(t), bits, pos, inseq.len() as int) == Some(inseq),
    decreases inseq.len(),
{
    if inseq.len() == 0 {
        assert(Seq::<char>::empty() =~= inseq);
    } else {
        let c = inseq[0];
        assert(syms(t).contains(c));
        let code = code_of(t, c);
        let rest = inseq.drop_first();
        let pl = payload_spec(t, inseq);
        assert(pl == code + payload_spec(t, rest));
        assert(code.len() >= 1);
        assert forall|q: int| 0 <= q < code.len() implies bits.subrange(
            pos,
            pos + code.len(),
        )[q] == code[q] by {
            assert(pl[q] == code[q]);
            assert(bits.subrange(pos, pos + pl.len())[q] == pl[q]);
        }
        assert(bits.subrange(pos, pos + code.len()) =~= code);
        lemma_scan_steps(t, bits, pos, pos, c);
        let p2 = pos + code.len();
        assert forall|q: int| 0 <= q < payload_spec(t, rest).len() implies bits.subrange(
            p2,
            p2 + payload_spec(t, rest).len(),
        )[q] == payload_spec(t, rest)[q] by {
            assert(pl[code.len() + q] == payload_spec(t, rest)[q]);
            assert(bits.subrange(pos, pos + pl.len())[code.len() + q] == pl[code.len() + q]);
        }
        assert(bits.subrange(p2, p2 + payload_spec(t, rest).len()) =~= payload_spec(t, rest));
        assert forall|i: int| 0 <= i < rest.len() implies syms(t).contains(#[trigger] rest[i]) by {
            assert(rest[i] == inseq[i + 1]);
        }
        lemma_decode_payload_codes(t, bits, p2, rest);
        assert(seq![c] + rest =~= inseq);
    }
}

proof fn lemma_parse_shape(t: HuffmanNode, bits: Seq<bool>, pos: int, prefix: Seq<bool>)
    requires
        wf_node(t),
        0 <= pos,
        pos + shape(t).len() <= bits.len(),
        bits.subrange(pos, pos + shape(t).len()) == shape(t),
    ensures
        parse_paths(bits, pos, prefix, (bits.len() + 1) as nat) == Some(
            (Seq::new(paths(t).len(), |j: int| prefix + paths(t)[j].0), pos + shape(t).len()),
        ),
    decreases t,
{
    let canonical: nat = (bits.len() + 1) as nat;
    lemma_paths_len(t);
    match t {
        HuffmanNode::Branch(b) => {
            let sl = shape(*b.t);
            let sr = shape(*b.f);
            let sh = shape(t);
            assert(sh == seq![true] + sl + sr);
            assert(bits[pos] == sh[0]);
            assert(bits[pos] == true);
            assert forall|q: int| 0 <= q < sl.len() implies bits.subrange(
                pos + 1,
                pos + 1 + sl.len(),
            )[q] == sl[q] by {
                assert(sh[1 + q] == sl[q]);
                assert(bits.subrange(pos, pos + sh.len())[1 + q] == sh[1 + q]);
            }
            assert(bits.subrange(pos + 1, pos + 1 + sl.len()) =~= sl);
            lemma_parse_shape(*b.t, bits, pos + 1, prefix.push(false));
            let p2 = pos + 1 + sl.len();
            assert forall|q: int| 0 <= q < sr.len() implies bits.subrange(
                p2,
                p2 + sr.len(),
            )[q] == sr[q] by {
                assert(sh[1 + sl.len() + q] == sr[q]);
                assert(bits.subrange(pos, pos + sh.len())[1 + sl.len() + q] == sh[1 + sl.len()
                    + q]);
            }
            assert(bits.subrange(p2, p2 + sr.len()) =~= sr);
            lemma_parse_shape(*b.f, bits, p2, prefix.push(true));
            lemma_parse_paths_fuel(
                bits,
                pos + 1,
                prefix.push(false),
                (canonical - 1) as nat,
                canonical,
            );
            lemma_parse_paths_fuel(bits, p2, prefix.push(true), (canonical - 1) as nat, canonical);
            let psl = Seq::new(paths(*b.t).len(), |j: int| prefix.push(false) + paths(*b.t)[j].0);
            let psr = Seq::new(paths(*b.f).len(), |j: int| prefix.push(true) + paths(*b.f)[j].0);
            lemma_paths_len(*b.t);
            lemma_paths_len(*b.f);
            assert(parse_paths(bits, pos, prefix, canonical) == Some(
                (psl + psr, pos + sh.len()),
            ));
            assert forall|j: int| 0 <= j < paths(t).len() implies (psl + psr)[j] == prefix + paths(
                t,
            )[j].0 by {
                let la = paths(*b.t).len() as int;
                if j < la {
                    assert(paths(t)[j].0 == seq![false] + paths(*b.t)[j].0);
                    assert(prefix.push(false) + paths(*b.t)[j].0 =~= prefix + (seq![false] + paths(
                        *b.t,
                    )[j].0));
                } else {
                    assert(paths(t)[j].0 == seq![true] + paths(*b.f)[j - la].0);
                    assert(prefix.push(true) + paths(*b.f)[j - la].0 =~= prefix + (seq![true]
                        + paths(*b.f)[j - la].0));
                }
            }
            assert(psl + psr =~= Seq::new(paths(t).len(), |j: int| prefix + paths(t)[j].0));
        },
        HuffmanNode::Value(_) => {
            assert(bits[pos] == shape(t)[0]);
            assert(bits[pos] == false);
            assert(parse_paths(bits, pos, prefix, canonical) == Some((seq![prefix], pos + 1)));
            assert(paths(t).len() == 1);
            assert(prefix + paths(t)[0].0 =~= prefix);
            assert(seq![prefix] =~= Seq::new(paths(t).len(), |j: int| prefix + paths(t)[j].0));
        },
        HuffmanNode::Empty => {},
    }
}

proof fn lemma_sym_block(cs: Seq<char>, bits: Seq<bool>, cbase: int)
    requires
        0 <= cbase,
        cbase + 8 * cs.len() <= bits.len(),
        bits.subrange(cbase, cbase + 8 * cs.len()) == sym_bytes(cs),
    ensures
        forall|j: int|
            0 <= j < cs.len() ==> #[trigger] bits.subrange(cbase + 8 * j, cbase + 8 * j + 8)
                == val_bits(sym_byte(cs[j]) as int, 8),
    decreases cs.len(),
{
    lemma_sym_bytes_len(cs);
    if cs.len() > 0 {
        let sb = sym_bytes(cs);
        let first = val_bits(sym_byte(cs[0]) as int, 8);
        lemma_val_bits_len(sym_byte(cs[0]) as int, 8);
        assert(sb == first + sym_bytes(cs.drop_first()));
        assert forall|q: int| 0 <= q < 8 implies bits.subrange(cbase, cbase + 8)[q] == first[q] by {
            assert(sb[q] == first[q]);
            assert(bits.subrange(cbase, cbase + 8 * cs.len())[q] == sb[q]);
        }
        assert(bits.subrange(cbase, cbase + 8) =~= first);
        let rest = cs.drop_first();
        lemma_sym_bytes_len(rest);
        assert forall|q: int| 0 <= q < 8 * rest.len() implies bits.subrange(
            cbase + 8,
            cbase + 8 + 8 * rest.len(),
        )[q] == sym_bytes(rest)[q] by {
            assert(sb[8 + q] == sym_bytes(rest)[q]);
            assert(bits.subrange(cbase, cbase + 8 * cs.len())[8 + q] == sb[8 + q]);
        }
        assert(bits.subrange(cbase + 8, cbase + 8 + 8 * rest.len()) =~= sym_bytes(rest));
        lemma_sym_block(rest, bits, cbase + 8);
        assert forall|j: int|
            0 <= j < cs.len() implies #[trigger] bits.subrange(cbase + 8 * j, cbase + 8 * j + 8)
            == val_bits(sym_byte(cs[j]) as int, 8) by {
            if j > 0 {
                assert(bits.subrange((cbase + 8) + 8 * (j - 1), (cbase + 8) + 8 * (j - 1) + 8)
                    == val_bits(sym_byte(rest[j - 1]) as int, 8));
                assert((cbase + 8) + 8 * (j - 1) == cbase + 8 * j);
                assert(rest[j - 1] == cs[j]);
            }
        }
    }
}

/// A symbol below 256 survives the wire byte: writing its low byte and
/// reading it back as a symbol is the identity.
proof fn lemma_sym_byte_char(c: char)
    requires
        (c as u32) < 256,
    ensures
        (sym_byte(c) as char) == c,
        sym_byte(c) as int == c as int,
{
    assert(sym_byte(c) as u32 == c as u32);
    assert((sym_byte(c) as char) as u32 == sym_byte(c) as u32);
}

proof fn lemma_records_at(tbl: Seq<(Seq<bool>, char)>, bits: Seq<bool>, base: int, d: int)
    requires
        0 <= base,
        0 <= d,
        forall|k: int| 0 <= k < tbl.len() ==> (#[trigger] tbl[k]).0.len() <= d,
        base + tbl.len() * (d + 9) <= bits.len(),
        bits.subrange(base, base + tbl.len() * (d + 9)) == records_bits(tbl, d),
    ensures
        forall|j: int|
            0 <= j < tbl.len() ==> #[trigger] bits.subrange(
                base + j * (d + 9),
                base + j * (d + 9) + (d + 9),
            ) == record_bits(tbl[j].0, tbl[j].1, d),
    decreases tbl.len(),
{
    lemma_records_len(tbl, d, d);
    if tbl.len() > 0 {
        let rb = records_bits(tbl, d);
        let first = record_bits(tbl[0].0, tbl[0].1, d);
        lemma_val_bits_len(sym_byte(tbl[0].1) as int, 8);
        assert(first.len() == d + 9);
        assert(rb == first + records_bits(tbl.drop_first(), d));
        assert forall|q: int| 0 <= q < d + 9 implies bits.subrange(base, base + (d + 9))[q]
            == first[q] by {
            assert(rb[q] == first[q]);
            assert(bits.subrange(base, base + tbl.len() * (d + 9))[q] == rb[q]);
        }
        assert(bits.subrange(base, base + (d + 9)) =~= first);
        let rest = tbl.drop_first();
        assert(forall|k: int| 0 <= k < rest.len() ==> (#[trigger] rest[k]).0.len() <= d);
        lemma_records_len(rest, d, d);
        assert(rest.len() * (d + 9) == tbl.len() * (d + 9) - (d + 9)) by (nonlinear_arith)
            requires
                rest.len() == tbl.len() - 1,
        ;
        assert forall|q: int| 0 <= q < rest.len() * (d + 9) implies bits.subrange(
            base + (d + 9),
            base + (d + 9) + rest.len() * (d + 9),
        )[q] == records_bits(rest, d)[q] by {
            assert(rb[(d + 9) + q] == records_bits(rest, d)[q]);
            assert(bits.subrange(base, base + tbl.len() * (d + 9))[(d + 9) + q] == rb[(d + 9)
                + q]);
        }
        assert(bits.subrange(base + (d + 9), base + (d + 9) + rest.len() * (d + 9))
            =~= records_bits(rest, d));
        lemma_records_at(rest, bits, base + (d + 9), d);
        assert forall|j: int|
            0 <= j < tbl.len() implies #[trigger] bits.subrange(
            base + j * (d + 9),
            base + j * (d + 9) + (d + 9),
        ) == record_bits(tbl[j].0, tbl[j].1, d) by {
            if j > 0 {
                assert(bits.subrange(
                    (base + (d + 9)) + (j - 1) * (d + 9),
                    (base + (d + 9)) + (j - 1) * (d + 9) + (d + 9),
                ) == record_bits(rest[j - 1].0, rest[j - 1].1, d));
                assert((base + (d + 9)) + (j - 1) * (d + 9) == base + j * (d + 9)) by (
                nonlinear_arith);
                assert(rest[j - 1] == tbl[j]);
            } else {
                assert(0 * (d + 9) == 0) by (nonlinear_arith);
            }
        }
    }
}

proof fn lemma_record_parse(code: Seq<bool>, c: char, bits: Seq<bool>, rb: int, d: int)
    requires
        0 <= rb,
        0 <= code.len() <= d,
        rb + d + 9 <= bits.len(),
        bits.subrange(rb, rb + d + 9) == record_bits(code, c, d),
        (c as u32) < 256,
    ensures
        strip_code(bits, rb, d + 1) == code,
        char_at(bits, rb + d + 1) == c,
{
    let rec = record_bits(code, c, d);
    let m0 = d - code.len();
    lemma_val_bits_len(sym_byte(c) as int, 8);
    assert(rec.len() == d + 9);
    assert forall|q: int| 0 <= q < d + 9 implies bits[#[trigger] (rb + q)] == rec[q] by {
        assert(bits.subrange(rb, rb + d + 9)[q] == rec[q]);
    }
    assert forall|q: int| 0 <= q < m0 implies !bits[#[trigger] (rb + q)] by {
        assert(rec[q] == Seq::new((d - code.len()) as nat, |i: int| false)[q]);
    }
    assert(rec[m0] == (Seq::new((d - code.len()) as nat, |i: int| false) + seq![true])[m0]);
    assert(bits[rb + m0]);
    lemma_strip_at(bits, rb, d + 1, m0);
    assert forall|q: int| 0 <= q < code.len() implies bits.subrange(
        rb + m0 + 1,
        rb + d + 1,
    )[q] == code[q] by {
        assert(rec[m0 + 1 + q] == code[q]);
        assert(bits[rb + (m0 + 1 + q)] == rec[m0 + 1 + q]);
    }
    assert(bits.subrange(rb + m0 + 1, rb + d + 1) =~= code);
    assert forall|q: int| 0 <= q < 8 implies bits.subrange(rb + d + 1, rb + d + 1 + 8)[q]
        == val_bits(sym_byte(c) as int, 8)[q] by {
        assert(rec[d + 1 + q] == val_bits(sym_byte(c) as int, 8)[q]);
        assert(bits[rb + (d + 1 + q)] == rec[d + 1 + q]);
    }
    assert(bits.subrange(rb + d + 1, rb + d + 1 + 8) =~= val_bits(sym_byte(c) as int, 8));
    lemma_pw2_values();
    lemma_val_bits_val(sym_byte(c) as int, 8);
    lemma_sym_byte_char(c);
    assert(bits_val(bits.subrange(rb + d + 1, rb + d + 1 + 8)) == sym_byte(c) as int);
    assert(char_at(bits, rb + d + 1) == (sym_byte(c) as u8) as char);
}

/// Round trip: for every non-empty input of at most 65535 symbols, all
/// below U+0100 (the wire keeps one byte per symbol), decoding an encoded
/// stream yields the input exactly, under either framing strategy.
pub proof fn lemma_round_trip(strategy: Strategy, input: Seq<char>)
    requires
        1 <= input.len() <= 0xFFFF,
        forall|i: int| 0 <= i < input.len() ==> ((#[trigger] input[i]) as u32) < 256,
    ensures
        decode_spec(strategy, encode_spec(strategy, input), 0) == Some(input),
{
    let t = build_spec(input);
    lemma_build_props(input);
    lemma_depth_bound(t);
    lemma_paths_len(t);
    lemma_paths_align(t);
    let bits = encode_spec(strategy, input);
    let l = syms(t).len() as int;
    let fr = frame_spec(strategy, t);
    let cnt_bits = val_bits(input.len() as int, 16);
    let pl = payload_spec(t, input);
    assert(bits == fr + cnt_bits + pl);
    lemma_val_bits_len(input.len() as int, 16);
    lemma_val_bits_len(l, 16);
    lemma_pw2_values();
    assert forall|j: int| 0 <= j < l implies ((#[trigger] syms(t)[j]) as u32) < 256 by {
        assert(syms(t).contains(syms(t)[j]));
        assert(input.contains(syms(t)[j]));
        let q = choose|q: int| 0 <= q < input.len() && input[q] == syms(t)[j];
        assert((input[q] as u32) < 256);
    }
    assert forall|q: int| 0 <= q < fr.len() implies bits[q] == fr[q] by {
        assert((fr + cnt_bits)[q] == fr[q]);
        assert(bits[q] == (fr + cnt_bits)[q]);
    }
    assert forall|q: int| 0 <= q < 16 implies bits[fr.len() + q] == cnt_bits[q] by {
        assert((fr + cnt_bits)[fr.len() + q] == cnt_bits[q]);
        assert(bits[fr.len() + q] == (fr + cnt_bits)[fr.len() + q]);
    }
    assert forall|q: int| 0 <= q < pl.len() implies bits[fr.len() + 16 + q] == pl[q] by {
        assert(bits[(fr + cnt_bits).len() + q] == pl[q]);
    }
    match strategy {
        Strategy::TreeShape => {
            let sb = sym_bytes(syms(t));
            let sh = shape(t);
            lemma_sym_bytes_len(syms(t));
            assert(fr == val_bits(l, 16) + sb + sh);
            assert forall|q: int| 0 <= q < fr.len() implies fr[q] == (if q < 16 {
                val_bits(l, 16)[q]
            } else if q < 16 + 8 * l {
                sb[q - 16]
            } else {
                sh[q - 16 - 8 * l]
            }) by {
                if q < 16 {
                    assert((val_bits(l, 16) + sb)[q] == val_bits(l, 16)[q]);
                } else if q < 16 + 8 * l {
                    assert((val_bits(l, 16) + sb)[q] == sb[q - 16]);
                } else {
                }
            }
            assert(bits.subrange(0, 16) =~= val_bits(l, 16));
            lemma_val_bits_val(l, 16);
            assert(bits.subrange(16, 16 + 8 * l) =~= sb);
            lemma_sym_block(syms(t), bits, 16);
            assert(bits.subrange(16 + 8 * l, 16 + 8 * l + sh.len()) =~= sh);
            lemma_parse_shape(t, bits, 16 + 8 * l, Seq::<bool>::empty());
            let ps = Seq::new(paths(t).len(), |j: int| Seq::<bool>::empty() + paths(t)[j].0);
            assert forall|j: int| 0 <= j < l implies zip_table(bits, 16, ps)[j] == paths(
                t,
            )[j] by {
                assert(bits.subrange(16 + 8 * j, 16 + 8 * j + 8) == val_bits(
                    sym_byte(syms(t)[j]) as int,
                    8,
                ));
                assert(sym_byte(syms(t)[j]) < 256);
                lemma_val_bits_val(sym_byte(syms(t)[j]) as int, 8);
                lemma_sym_byte_char(syms(t)[j]);
                assert(char_at(bits, 16 + 8 * j) == syms(t)[j]);
                assert(Seq::<bool>::empty() + paths(t)[j].0 =~= paths(t)[j].0);
                assert(paths(t)[j] == (code_of(t, syms(t)[j]), syms(t)[j]));
            }
            assert(zip_table(bits, 16, ps) =~~= paths(t));
            assert(parse_frame_a(bits, 0) == Some((paths(t), 16 + 8 * l + sh.len())));
            assert(fr.len() == 16 + 8 * l + sh.len());
        },
        Strategy::CodeTable => {
            let d = depth(t);
            assert(0 <= d < 65536);
            lemma_val_bits_len(d, 16);
            assert(fr == val_bits(l, 16) + val_bits(d, 16) + records_bits(paths(t), d));
            lemma_records_len(paths(t), d, d);
            assert forall|q: int| 0 <= q < fr.len() implies fr[q] == (if q < 16 {
                val_bits(l, 16)[q]
            } else if q < 32 {
                val_bits(d, 16)[q - 16]
            } else {
                records_bits(paths(t), d)[q - 32]
            }) by {
                if q < 16 {
                    assert((val_bits(l, 16) + val_bits(d, 16))[q] == val_bits(l, 16)[q]);
                } else if q < 32 {
                    assert((val_bits(l, 16) + val_bits(d, 16))[q] == val_bits(d, 16)[q - 16]);
                } else {
                }
            }
            assert(bits.subrange(0, 16) =~= val_bits(l, 16));
            lemma_val_bits_val(l, 16);
            assert(bits.subrange(16, 32) =~= val_bits(d, 16));
            lemma_val_bits_val(d, 16);
            assert(fr.len() == 32 + l * (d + 9));
            assert(bits.subrange(32, 32 + l * (d + 9)) =~= records_bits(paths(t), d));
            lemma_records_at(paths(t), bits, 32, d);
            assert forall|j: int| 0 <= j < l implies parse_record(bits, 32 + j * (d + 9), d)
                == paths(t)[j] by {
                assert(bits.subrange(32 + j * (d + 9), 32 + j * (d + 9) + (d + 9)) == record_bits(
                    paths(t)[j].0,
                    paths(t)[j].1,
                    d,
                ));
                assert(paths(t)[j] == (code_of(t, syms(t)[j]), syms(t)[j]));
                assert((paths(t)[j].1 as u32) < 256);
                assert(32 + j * (d + 9) + (d + 9) <= 32 + l * (d + 9)) by (nonlinear_arith)
                    requires
                        0 <= j < l,
                        d >= 0,
                ;
                lemma_record_parse(paths(t)[j].0, paths(t)[j].1, bits, 32 + j * (d + 9), d);
            }
            assert(Seq::new(l as nat, |j: int| parse_record(bits, 32 + j * (d + 9), d))
                =~~= paths(t));
            assert(parse_frame_b(bits, 0) == Some((paths(t), 32 + l * (d + 9))));
        },
    }
    let p2 = fr.len() as int;
    assert(parse_frame(strategy, bits, 0) == Some((paths(t), p2)));
    assert(bits.subrange(p2, p2 + 16) =~= cnt_bits);
    lemma_val_bits_val(input.len() as int, 16);
    assert(bits_val(bits.subrange(p2, p2 + 16)) == input.len());
    let body = p2 + 16;
    assert(bits.len() == body + pl.len());
    if l == 1 {
        let v = match t {
            HuffmanNode::Value(v) => v,
            HuffmanNode::Branch(b) => {
                lemma_depth_bound(*b.t);
                lemma_depth_bound(*b.f);
                arbitrary()
            },
            HuffmanNode::Empty => arbitrary(),
        };
        assert(t == HuffmanNode::Value(v));
        assert(paths(t) == seq![(Seq::<bool>::empty(), v.ch)]);
        assert(paths(t)[0].0.len() == 0);
        assert(syms(t)[0] == v.ch);
        assert forall|q: int| 0 <= q < input.len() implies Seq::new(
            input.len(),
            |i: int| paths(t)[0].1,
        )[q] == input[q] by {
            assert(input.contains(input[q]));
            assert(syms(t).contains(input[q]));
            let w = choose|w: int| 0 <= w < syms(t).len() && syms(t)[w] == input[q];
            assert(w == 0);
        }
        assert(Seq::new(input.len(), |i: int| paths(t)[0].1) =~= input);
    } else {
        assert(l >= 2);
        assert(t matches HuffmanNode::Branch(_));
        assert(paths(t).len() >= 2);
        assert(!(paths(t).len() == 1 && paths(t)[0].0.len() == 0));
        assert(bits.subrange(body, body + pl.len()) =~= pl);
        assert forall|i: int| 0 <= i < input.len() implies syms(t).contains(
            #[trigger] input[i],
        ) by {
            assert(input.contains(input[i]));
        }
        lemma_decode_payload_codes(t, bits, body, input);
    }
}

/// Framing determinism: the encoded stream is a function of the strategy
/// and the input alone, so encoding the same input twice with the same
/// strategy appends bit-identical output (`compress` promises exactly
/// `encode_spec` of its input).
pub proof fn lemma_encode_deterministic(strategy: Strategy, a: Seq<char>, b: Seq<char>)
    requires
        a == b,
    ensures
        encode_spec(strategy, a) == encode_spec(strategy, b),
{
}

} // verus!
