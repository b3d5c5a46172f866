//! Decoding: framing readers for both strategies, the bit-by-bit symbol
//! matcher, and the decode driver.

use vstd::prelude::*;
use crate::bit_stream::BitReader;
use crate::bit_stream::bits_val;
use crate::bit_stream::lemma_bits_val_bound;
use crate::bit_stream::lemma_pw2_values;
use crate::compress::Strategy;
use crate::compress::table_view;

verus! {

broadcast use crate::bit_stream::BitReader::lemma_pos_nonneg;

/// The symbol stored as eight wire bits at position `p`.
pub open spec fn char_at(bits: Seq<bool>, p: int) -> char {
    (bits_val(bits.subrange(p, p + 8)) as u8) as char
}

/// Pairs each parsed path with the symbol read from the symbol block.
pub open spec fn zip_table(bits: Seq<bool>, cbase: int, ps: Seq<Seq<bool>>) -> Seq<
    (Seq<bool>, char),
> {
    Seq::new(ps.len(), |j: int| (ps[j], char_at(bits, cbase + 8 * j)))
}

/// Recursive-descent reading of the structural bits from `pos`: a `false`
/// bit closes a leaf whose path is `prefix`, a `true` bit opens a branch
/// (left subtree, then right). Returns the leaf paths in visitation order
/// and the position after the consumed bits. `fuel` bounds the descent and
/// is immaterial once it is at least the remaining bit count plus one.
pub open spec fn parse_paths(bits: Seq<bool>, pos: int, prefix: Seq<bool>, fuel: nat) -> Option<
    (Seq<Seq<bool>>, int),
>
    decreases fuel,
{
    if fuel == 0 || pos < 0 || pos >= bits.len() {
        None
    } else if !bits[pos] {
        Some((seq![prefix], pos + 1))
    } else {
        match parse_paths(bits, pos + 1, prefix.push(false), (fuel - 1) as nat) {
            None => None,
            Some((l, p2)) => match parse_paths(bits, p2, prefix.push(true), (fuel - 1) as nat) {
                None => None,
                Some((r, p3)) => Some((l + r, p3)),
            },
        }
    }
}

/// A successful descent consumes at least one bit per leaf and stays
/// within the stream.
pub proof fn lemma_parse_paths_bounds(bits: Seq<bool>, pos: int, prefix: Seq<bool>, fuel: nat)
    requires
        parse_paths(bits, pos, prefix, fuel) is Some,
    ensures
        ({
            let (ps, p2) = parse_paths(bits, pos, prefix, fuel)->Some_0;
            &&& pos < p2 <= bits.len()
            &&& 1 <= ps.len() <= p2 - pos
        }),
    decreases fuel,
{
    if !(fuel == 0 || pos < 0 || pos >= bits.len()) && bits[pos] {
        let (l, p2) = parse_paths(bits, pos + 1, prefix.push(false), (fuel - 1) as nat)->Some_0;
        lemma_parse_paths_bounds(bits, pos + 1, prefix.push(false), (fuel - 1) as nat);
        lemma_parse_paths_bounds(bits, p2, prefix.push(true), (fuel - 1) as nat);
    }
}

/// The result does not depend on the fuel once the fuel exceeds the
/// remaining bit count.
pub proof fn lemma_parse_paths_fuel(
    bits: Seq<bool>,
    pos: int,
    prefix: Seq<bool>,
    f1: nat,
    f2: nat,
)
    requires
        f1 >= bits.len() - pos + 1,
        f2 >= bits.len() - pos + 1,
    ensures
        parse_paths(bits, pos, prefix, f1) == parse_paths(bits, pos, prefix, f2),
    decreases f1,
{
    if !(pos < 0 || pos >= bits.len()) && bits[pos] {
        lemma_parse_paths_fuel(bits, pos + 1, prefix.push(false), (f1 - 1) as nat, (f2 - 1) as nat);
        match parse_paths(bits, pos + 1, prefix.push(false), (f1 - 1) as nat) {
            None => {},
            Some((l, p2)) => {
                lemma_parse_paths_bounds(bits, pos + 1, prefix.push(false), (f1 - 1) as nat);
                lemma_parse_paths_fuel(bits, p2, prefix.push(true), (f1 - 1) as nat, (f2
                    - 1) as nat);
            },
        }
    }
}

/// Structural framing, read back: leaf count, then the symbol block, then
/// the self-terminating structural bits, walked with a second cursor for
/// the symbols.
pub open spec fn parse_frame_a(bits: Seq<bool>, pos: int) -> Option<
    (Seq<(Seq<bool>, char)>, int),
> {
    if pos < 0 || pos + 16 > bits.len() {
        None
    } else {
        let n = bits_val(bits.subrange(pos, pos + 16));
        let cbase = pos + 16;
        let sbase = cbase + 8 * n;
        match parse_paths(bits, sbase, Seq::empty(), (bits.len() + 1) as nat) {
            None => None,
            Some((ps, p2)) => if cbase + 8 * ps.len() <= bits.len() {
                Some((zip_table(bits, cbase, ps), p2))
            } else {
                None
            },
        }
    }
}

/// The code inside one fixed-size record: everything after the first
/// `true` (terminator) bit of its `k` leading bits.
pub open spec fn strip_code(bits: Seq<bool>, p: int, k: int) -> Seq<bool>
    decreases k,
{
    if k <= 0 || p < 0 || p + k > bits.len() {
        Seq::empty()
    } else if bits[p] {
        bits.subrange(p + 1, p + k)
    } else {
        strip_code(bits, p + 1, k - 1)
    }
}

/// One record of the code-table framing, read back.
pub open spec fn parse_record(bits: Seq<bool>, p: int, d: int) -> (Seq<bool>, char) {
    (strip_code(bits, p, d + 1), char_at(bits, p + d + 1))
}

/// Code-table framing, read back: entry count, maximum depth, then the
/// fixed-size records.
pub open spec fn parse_frame_b(bits: Seq<bool>, pos: int) -> Option<(Seq<(Seq<bool>, char)>, int)> {
    if pos < 0 || pos + 32 > bits.len() {
        None
    } else {
        let cnt = bits_val(bits.subrange(pos, pos + 16));
        let d = bits_val(bits.subrange(pos + 16, pos + 32));
        let base = pos + 32;
        if base + cnt * (d + 9) > bits.len() {
            None
        } else {
            Some(
                (
                    Seq::new(cnt as nat, |j: int| parse_record(bits, base + j * (d + 9), d)),
                    base + cnt * (d + 9),
                ),
            )
        }
    }
}

/// The framing reader of the chosen strategy.
pub open spec fn parse_frame(strategy: Strategy, bits: Seq<bool>, pos: int) -> Option<
    (Seq<(Seq<bool>, char)>, int),
> {
    match strategy {
        Strategy::TreeShape => parse_frame_a(bits, pos),
        Strategy::CodeTable => parse_frame_b(bits, pos),
    }
}

/// The first table entry whose code equals `key`.
pub open spec fn lookup_spec(tbl: Seq<(Seq<bool>, char)>, key: Seq<bool>) -> Option<char>
    decreases tbl.len(),
{
    if tbl.len() == 0 {
        None
    } else if tbl[0].0 == key {
        Some(tbl[0].1)
    } else {
        lookup_spec(tbl.drop_first(), key)
    }
}

/// Accumulates bits from `start`; the first accumulated piece that is a
/// table code yields its symbol and the position after it.
pub open spec fn scan_symbol(
    tbl: Seq<(Seq<bool>, char)>,
    bits: Seq<bool>,
    start: int,
    cur: int,
) -> Option<(char, int)>
    decreases bits.len() - cur,
{
    if cur < 0 || cur >= bits.len() || start > cur {
        None
    } else {
        match lookup_spec(tbl, bits.subrange(start, cur + 1)) {
            Some(c) => Some((c, cur + 1)),
            None => scan_symbol(tbl, bits, start, cur + 1),
        }
    }
}

/// Decodes `n` symbols from `pos` by repeated scanning.
pub open spec fn decode_payload(
    tbl: Seq<(Seq<bool>, char)>,
    bits: Seq<bool>,
    pos: int,
    n: int,
) -> Option<Seq<char>>
    decreases n,
{
    if n <= 0 {
        Some(Seq::empty())
    } else {
        match scan_symbol(tbl, bits, pos, pos) {
            None => None,
            Some((c, p2)) => match decode_payload(tbl, bits, p2, n - 1) {
                None => None,
                Some(rest) => Some(seq![c] + rest),
            },
        }
    }
}

/// What a stream decodes to from `pos`: the framing is read back into a
/// code table, then the expected length, then the payload. A table with a
/// single, empty code (one distinct symbol) short-circuits the matcher and
/// repeats that symbol. Nothing is returned on any premature end of
/// stream.
pub open spec fn decode_spec(strategy: Strategy, bits: Seq<bool>, pos: int) -> Option<Seq<char>> {
    match parse_frame(strategy, bits, pos) {
        None => None,
        Some((tbl, p2)) => if p2 + 16 > bits.len() {
            None
        } else {
            let n = bits_val(bits.subrange(p2, p2 + 16));
            let body = p2 + 16;
            if tbl.len() == 1 && tbl[0].0.len() == 0 {
                Some(Seq::new(n as nat, |q: int| tbl[0].1))
            } else {
                decode_payload(tbl, bits, body, n)
            }
        },
    }
}

/// Recursive descent over the structural bits, pulling one symbol byte
/// from the trailing symbol cursor at each leaf.
fn parse_tree_worker(
    struct_reader: &mut BitReader,
    chars_reader: &mut BitReader,
    table: &mut Vec<(Vec<bool>, char)>,
    location: Vec<bool>,
) -> (ok: bool)
    requires
        old(struct_reader).wf(),
        old(chars_reader).wf(),
        old(struct_reader)@ == old(chars_reader)@,
        old(chars_reader).pos() >= 0,
        old(chars_reader).pos() + 8 * (old(struct_reader)@.len() - old(struct_reader).pos()) + 8
            <= usize::MAX,
    ensures
        final(struct_reader).wf(),
        final(chars_reader).wf(),
        final(struct_reader)@ == old(struct_reader)@,
        final(chars_reader)@ == old(chars_reader)@,
        ({
            let bits = old(struct_reader)@;
            let pos = old(struct_reader).pos();
            let cpos = old(chars_reader).pos();
            match parse_paths(bits, pos, location@, (bits.len() + 1) as nat) {
                None => ok == false,
                Some((ps, p2)) => {
                    &&& ok == (cpos + 8 * ps.len() <= bits.len())
                    &&& ok ==> final(struct_reader).pos() == p2
                    &&& ok ==> final(chars_reader).pos() == cpos + 8 * ps.len()
                    &&& ok ==> table_view(final(table)@) == table_view(old(table)@) + zip_table(
                        bits,
                        cpos,
                        ps,
                    )
                },
            }
        }),
    decreases old(struct_reader)@.len() - old(struct_reader).pos(),
{
    let ghost bits = struct_reader@;
    let ghost pos0 = struct_reader.pos();
    let ghost cpos0 = chars_reader.pos();
    let ghost canonical: nat = (bits.len() + 1) as nat;
    match struct_reader.read_bit() {
        None => false,
        Some(bit) => {
            if bit {
                let mut left_location = location.clone();
                left_location.push(false);
                proof {
                    assert(left_location@ =~= location@.push(false));
                    lemma_parse_paths_fuel(
                        bits,
                        pos0 + 1,
                        location@.push(false),
                        (canonical - 1) as nat,
                        canonical,
                    );
                }
                let ghost tb0 = table@;
                let okl = parse_tree_worker(struct_reader, chars_reader, table, left_location);
                if !okl {
                    proof {
                        if parse_paths(bits, pos0, location@, canonical) is Some {
                            lemma_parse_paths_bounds(
                                bits,
                                pos0 + 1,
                                location@.push(false),
                                canonical,
                            );
                            lemma_parse_paths_bounds(bits, pos0, location@, canonical);
                        }
                    }
                    return false;
                }
                let ghost lres = parse_paths(bits, pos0 + 1, location@.push(false), canonical);
                proof {
                    lemma_parse_paths_bounds(bits, pos0 + 1, location@.push(false), canonical);
                    let (psl, pl) = lres->Some_0;
                    lemma_parse_paths_fuel(
                        bits,
                        pl,
                        location@.push(true),
                        (canonical - 1) as nat,
                        canonical,
                    );
                }
                let mut right_location = location.clone();
                right_location.push(true);
                proof {
                    assert(right_location@ =~= location@.push(true));
                }
                let ghost tb1 = table@;
                let ghost cpos1 = chars_reader.pos();
                let okr = parse_tree_worker(struct_reader, chars_reader, table, right_location);
                proof {
                    let (psl, pl) = lres->Some_0;
                    let rres = parse_paths(bits, pl, location@.push(true), canonical);
                    match rres {
                        None => {
                            assert(parse_paths(bits, pos0, location@, canonical) is None);
                            assert(!okr);
                        },
                        Some((psr, pr)) => {
                            lemma_parse_paths_bounds(bits, pl, location@.push(true), canonical);
                            let ps = psl + psr;
                            assert(parse_paths(bits, pos0, location@, canonical) == Some(
                                (ps, pr),
                            ));
                            if okr {
                                assert(cpos1 == cpos0 + 8 * psl.len());
                                assert(chars_reader.pos() == cpos0 + 8 * ps.len());
                                assert(table_view(table@) =~= table_view(tb0) + zip_table(
                                    bits,
                                    cpos0,
                                    ps,
                                )) by {
                                    assert(table_view(tb1) == table_view(tb0) + zip_table(
                                        bits,
                                        cpos0,
                                        psl,
                                    ));
                                    assert(table_view(table@) == table_view(tb1) + zip_table(
                                        bits,
                                        cpos1,
                                        psr,
                                    ));
                                    assert forall|j: int|
                                        0 <= j < ps.len() implies zip_table(bits, cpos0, ps)[j]
                                        == (zip_table(bits, cpos0, psl) + zip_table(
                                        bits,
                                        cpos1,
                                        psr,
                                    ))[j] by {
                                        if j < psl.len() {
                                            assert(ps[j] == psl[j]);
                                        } else {
                                            assert(ps[j] == psr[j - psl.len()]);
                                            assert(cpos1 + 8 * (j - psl.len()) == cpos0 + 8 * j);
                                        }
                                    }
                                    assert(zip_table(bits, cpos0, ps) =~= zip_table(
                                        bits,
                                        cpos0,
                                        psl,
                                    ) + zip_table(bits, cpos1, psr));
                                }
                            } else {
                                assert(cpos0 + 8 * ps.len() > bits.len());
                            }
                        },
                    }
                }
                okr
            } else {
                proof {
                    assert(parse_paths(bits, pos0, location@, canonical) == Some(
                        (seq![location@], pos0 + 1),
                    ));
                }
                match chars_reader.read_u8() {
                    None => false,
                    Some(byte) => {
                        let c = byte as char;
                        table.push((location, c));
                        proof {
                            let ps = seq![location@];
                            lemma_bits_val_bound(bits.subrange(cpos0, cpos0 + 8));
                            lemma_pw2_values();
                            assert(char_at(bits, cpos0) == c);
                            assert(table_view(table@) =~= table_view(old(table)@) + zip_table(
                                bits,
                                cpos0,
                                ps,
                            )) by {
                                assert(zip_table(bits, cpos0, ps).len() == 1);
                                assert(zip_table(bits, cpos0, ps)[0] == (location@, c));
                                assert(table_view(table@)[table@.len() - 1] == (location@, c));
                            }
                        }
                        true
                    },
                }
            }
        },
    }
}

/// Structural framing, read back: reads the leaf count, forks a second
/// cursor for the symbol block, skips it, and walks the structural bits.
pub fn tree_struct_decode(struct_reader: &mut BitReader) -> (r: Option<Vec<(Vec<bool>, char)>>)
    requires
        old(struct_reader).wf(),
        old(struct_reader).pos() + 8 * old(struct_reader)@.len() + 0x100000 <= usize::MAX,
    ensures
        final(struct_reader).wf(),
        final(struct_reader)@ == old(struct_reader)@,
        match r {
            Some(tbl) => parse_frame_a(old(struct_reader)@, old(struct_reader).pos()) == Some(
                (table_view(tbl@), final(struct_reader).pos()),
            ),
            None => parse_frame_a(old(struct_reader)@, old(struct_reader).pos()) is None,
        },
{
    let ghost bits = struct_reader@;
    let ghost pos0 = struct_reader.pos();
    match struct_reader.read_u16() {
        None => None,
        Some(n) => {
            let mut chars_reader = struct_reader.fork();
            struct_reader.progress(8 * (n as usize));
            let mut table: Vec<(Vec<bool>, char)> = Vec::new();
            let ghost sbase = struct_reader.pos();
            let empty_location: Vec<bool> = Vec::new();
            proof {
                assert(empty_location@ =~= Seq::<bool>::empty());
            }
            let ok = parse_tree_worker(
                struct_reader,
                &mut chars_reader,
                &mut table,
                empty_location,
            );
            proof {
                assert(table_view(Seq::<(Vec<bool>, char)>::empty()) =~= Seq::<(Seq<bool>,
                char)>::empty());
                if parse_paths(bits, sbase, Seq::empty(), (bits.len() + 1) as nat) is Some {
                    let (ps, p2) = parse_paths(
                        bits,
                        sbase,
                        Seq::empty(),
                        (bits.len() + 1) as nat,
                    )->Some_0;
                    if ok {
                        assert(table_view(table@) =~= zip_table(bits, pos0 + 16, ps));
                    }
                }
            }
            if !ok {
                return None;
            }
            Some(table)
        },
    }
}

pub proof fn lemma_strip_none(bits: Seq<bool>, p: int, k: int)
    requires
        0 <= p,
        0 <= k,
        p + k <= bits.len(),
        forall|q: int| 0 <= q < k ==> !bits[#[trigger] (p + q)],
    ensures
        strip_code(bits, p, k) == Seq::<bool>::empty(),
    decreases k,
{
    if k > 0 {
        assert(!bits[p + 0]);
        assert forall|q: int| 0 <= q < k - 1 implies !bits[#[trigger] (p + 1 + q)] by {
            assert(!bits[p + (q + 1)]);
        }
        lemma_strip_none(bits, p + 1, k - 1);
    }
}

pub proof fn lemma_strip_at(bits: Seq<bool>, p: int, k: int, m0: int)
    requires
        0 <= p,
        0 <= m0 < k,
        p + k <= bits.len(),
        bits[p + m0],
        forall|q: int| 0 <= q < m0 ==> !bits[#[trigger] (p + q)],
    ensures
        strip_code(bits, p, k) == bits.subrange(p + m0 + 1, p + k),
    decreases m0,
{
    if m0 == 0 {
    } else {
        assert(!bits[p + 0]);
        assert forall|q: int| 0 <= q < m0 - 1 implies !bits[#[trigger] (p + 1 + q)] by {
            assert(!bits[p + (q + 1)]);
        }
        lemma_strip_at(bits, p + 1, k - 1, m0 - 1);
    }
}

/// Code-table framing, read back: reads the entry count and maximum
/// depth, then one fixed-size record per entry, stripping the padding up
/// to and including the terminator bit off each code.
pub fn hash_map_decode(compressed: &mut BitReader) -> (r: Option<Vec<(Vec<bool>, char)>>)
    requires
        old(compressed).wf(),
        old(compressed)@.len() + 0x10010 <= usize::MAX,
        old(compressed).pos() + 0x10010 <= usize::MAX,
    ensures
        final(compressed).wf(),
        final(compressed)@ == old(compressed)@,
        match r {
            Some(tbl) => parse_frame_b(old(compressed)@, old(compressed).pos()) == Some(
                (table_view(tbl@), final(compressed).pos()),
            ) && final(compressed).pos() <= final(compressed)@.len(),
            None => parse_frame_b(old(compressed)@, old(compressed).pos()) is None,
        },
{
    let ghost bits = compressed@;
    let ghost pos0 = compressed.pos();
    let cnt = match compressed.read_u16() {
        Some(v) => v,
        None => {
            return None;
        },
    };
    let d = match compressed.read_u16() {
        Some(v) => v,
        None => {
            return None;
        },
    };
    let ghost base = pos0 + 32;
    let ghost rec = d + 9;
    let mut table: Vec<(Vec<bool>, char)> = Vec::new();
    let mut k: usize = 0;
    while k < cnt as usize
        invariant
            compressed.wf(),
            compressed@ == bits,
            bits == old(compressed)@,
            pos0 == old(compressed).pos(),
            bits.len() + 0x10010 <= usize::MAX,
            0 <= k <= cnt as int,
            cnt as int == bits_val(bits.subrange(pos0, pos0 + 16)),
            d as int == bits_val(bits.subrange(pos0 + 16, pos0 + 32)),
            base == pos0 + 32,
            rec == d + 9,
            pos0 + 32 <= bits.len(),
            compressed.pos() == base + k * rec,
            compressed.pos() <= bits.len(),
            table@.len() == k,
            forall|j: int|
                0 <= j < k ==> table_view(table@)[j] == parse_record(
                    bits,
                    base + j * (d as int + 9),
                    d as int,
                ),
        decreases cnt as int - k,
    {
        let ghost p = compressed.pos();
        let piece = match compressed.read_bits_vec((d as usize) + 1) {
            Some(v) => v,
            None => {
                proof {
                    assert(p + (d + 1) > bits.len());
                    assert(base + (k + 1) * rec > bits.len()) by (nonlinear_arith)
                        requires
                            base + k * rec + (d as int) + 1 > bits.len(),
                            rec == d + 9,
                            d >= 0,
                    ;
                    assert(base + cnt * rec >= base + (k + 1) * rec) by (nonlinear_arith)
                        requires
                            k + 1 <= cnt as int,
                            rec >= 9,
                    ;
                }
                return None;
            },
        };
        let mut m0: usize = 0;
        while m0 < piece.len() && !piece[m0]
            invariant
                0 <= m0 <= piece@.len(),
                forall|q: int| 0 <= q < m0 ==> !piece@[q],
            decreases piece@.len() - m0,
        {
            m0 = m0 + 1;
        }
        let mut code: Vec<bool> = Vec::new();
        if m0 < piece.len() {
            let mut q: usize = m0 + 1;
            while q < piece.len()
                invariant
                    m0 + 1 <= q <= piece@.len(),
                    code@ == piece@.subrange(m0 + 1, q as int),
                decreases piece@.len() - q,
            {
                code.push(piece[q]);
                proof {
                    assert(code@ =~= piece@.subrange(m0 + 1, q + 1));
                }
                q = q + 1;
            }
            proof {
                assert(piece@[m0 as int]);
                assert forall|q: int| 0 <= q < m0 implies !bits[#[trigger] (p + q)] by {
                    assert(!piece@[q]);
                }
                lemma_strip_at(bits, p, d as int + 1, m0 as int);
                assert(piece@.subrange(m0 + 1, piece@.len() as int) =~= bits.subrange(
                    p + m0 + 1,
                    p + d + 1,
                ));
                assert(code@ == strip_code(bits, p, d as int + 1));
            }
        } else {
            proof {
                assert forall|q: int| 0 <= q < d as int + 1 implies !bits[#[trigger] (p + q)] by {
                    assert(!piece@[q]);
                }
                lemma_strip_none(bits, p, d as int + 1);
                assert(code@ =~= strip_code(bits, p, d as int + 1));
            }
        }
        let byte = match compressed.read_u8() {
            Some(v) => v,
            None => {
                proof {
                    assert(p + (d as int) + 1 + 8 > bits.len());
                    assert(base + (k + 1) * rec > bits.len()) by (nonlinear_arith)
                        requires
                            base + k * rec + (d as int) + 9 > bits.len(),
                            rec == d + 9,
                    ;
                    assert(base + cnt * rec >= base + (k + 1) * rec) by (nonlinear_arith)
                        requires
                            k + 1 <= cnt as int,
                            rec >= 9,
                    ;
                }
                return None;
            },
        };
        let c = byte as char;
        let ghost prevt = table@;
        table.push((code, c));
        proof {
            lemma_bits_val_bound(bits.subrange(p + d + 1, p + d + 9));
            lemma_pw2_values();
            assert(char_at(bits, p + d + 1) == c);
            assert(table_view(table@)[k as int] == (strip_code(bits, p, d as int + 1), c));
            assert(base + k * rec + rec == base + (k + 1) * rec) by (nonlinear_arith);
            assert forall|j: int|
                0 <= j < k + 1 implies table_view(table@)[j] == parse_record(
                bits,
                base + j * (d as int + 9),
                d as int,
            ) by {
                if j < k {
                    assert(table@[j] == prevt[j]);
                    assert(table_view(table@)[j] == table_view(prevt)[j]);
                }
            }
        }
        k = k + 1;
    }
    proof {
        assert(k == cnt as int);
        assert(base + cnt * rec == compressed.pos());
        assert(table_view(table@) =~= Seq::new(
            cnt as nat,
            |j: int| parse_record(bits, base + j * (d as int + 9), d as int),
        ));
    }
    Some(table)
}

/// Named extension point for reading back the third framing strategy; it
/// is not functional.
pub fn branch_length_decode() {
}

/// Whether two bit vectors hold the same bits.
fn bits_eq(a: &Vec<bool>, b: &Vec<bool>) -> (r: bool)
    ensures
        r == (a@ == b@),
{
    if a.len() != b.len() {
        return false;
    }
    let mut i: usize = 0;
    while i < a.len()
        invariant
            0 <= i <= a@.len() == b@.len(),
            forall|q: int| 0 <= q < i ==> a@[q] == b@[q],
        decreases a@.len() - i,
    {
        if a[i] != b[i] {
            return false;
        }
        i = i + 1;
    }
    proof {
        assert(a@ =~= b@);
    }
    true
}

/// The first table entry whose code equals `key`, scanned in order.
fn lookup_exec(table: &Vec<(Vec<bool>, char)>, key: &Vec<bool>) -> (r: Option<char>)
    ensures
        r == lookup_spec(table_view(table@), key@),
{
    let ghost tv = table_view(table@);
    proof {
        assert(tv.skip(0) =~= tv);
    }
    let mut j: usize = 0;
    while j < table.len()
        invariant
            0 <= j <= table@.len(),
            tv == table_view(table@),
            lookup_spec(tv, key@) == lookup_spec(tv.skip(j as int), key@),
        decreases table@.len() - j,
    {
        proof {
            assert(tv.skip(j as int)[0] == tv[j as int]);
            assert(tv.skip(j as int).drop_first() =~= tv.skip(j as int + 1));
        }
        if bits_eq(&table[j].0, key) {
            proof {
                assert(tv[j as int].0 == key@);
            }
            return Some(table[j].1);
        }
        proof {
            assert(tv[j as int].0 != key@);
        }
        j = j + 1;
    }
    proof {
        assert(tv.skip(table@.len() as int) =~= Seq::<(Seq<bool>, char)>::empty());
    }
    None
}

/// Reads bits one at a time, accumulating a candidate code, until the
/// accumulated bits match a table entry; yields that entry's symbol.
fn next_symbol_exec(reader: &mut BitReader, table: &Vec<(Vec<bool>, char)>) -> (r: Option<char>)
    requires
        old(reader).wf(),
        old(reader).pos() <= old(reader)@.len(),
    ensures
        final(reader).wf(),
        final(reader)@ == old(reader)@,
        final(reader).pos() <= final(reader)@.len(),
        match r {
            Some(c) => scan_symbol(
                table_view(table@),
                old(reader)@,
                old(reader).pos(),
                old(reader).pos(),
            ) == Some((c, final(reader).pos())),
            None => scan_symbol(
                table_view(table@),
                old(reader)@,
                old(reader).pos(),
                old(reader).pos(),
            ) is None,
        },
{
    let ghost tv = table_view(table@);
    let ghost bits = reader@;
    let ghost start = reader.pos();
    let mut current: Vec<bool> = Vec::new();
    proof {
        assert(current@ =~= bits.subrange(start, start));
    }
    loop
        invariant
            reader.wf(),
            reader@ == bits,
            bits == old(reader)@,
            tv == table_view(table@),
            start == old(reader).pos(),
            start <= reader.pos() <= bits.len(),
            current@ == bits.subrange(start, reader.pos()),
            scan_symbol(tv, bits, start, start) == scan_symbol(tv, bits, start, reader.pos()),
        decreases bits.len() - reader.pos(),
    {
        let ghost cur = reader.pos();
        match reader.read_bit() {
            None => {
                return None;
            },
            Some(b) => {
                current.push(b);
                proof {
                    assert(current@ =~= bits.subrange(start, cur + 1));
                }
                match lookup_exec(table, &current) {
                    Some(c) => {
                        return Some(c);
                    },
                    None => {
                    },
                }
            },
        }
    }
}

/// Turns the decoded symbols back into a string.
/// Relies on String's FromIterator of char: the resulting string's
/// characters are exactly the iterated characters, in order.
#[verifier::external_body]
fn string_from_chars(v: Vec<char>) -> (r: String)
    ensures
        r@ == v@,
{
    v.into_iter().collect()
}

/// Decodes a stream: reads the framing back into a code table per the
/// chosen strategy, reads the expected symbol count, then matches payload
/// bits against the table until that count is reached. A single-entry
/// table with an empty code (one distinct symbol) repeats that symbol.
/// Nothing is returned when the stream ends early.
pub fn decompress(compressed: BitReader, strategy: Strategy) -> (r: Option<String>)
    requires
        compressed.wf(),
        compressed@.len() + 0x10010 <= usize::MAX,
        compressed.pos() + 8 * compressed@.len() + 0x100000 <= usize::MAX,
    ensures
        match r {
            Some(s) => decode_spec(strategy, compressed@, compressed.pos()) == Some(s@),
            None => decode_spec(strategy, compressed@, compressed.pos()) is None,
        },
{
    let ghost bits = compressed@;
    let ghost pos0 = compressed.pos();
    let mut reader = compressed;
    let cache_decode = match strategy {
        Strategy::TreeShape => {
            match tree_struct_decode(&mut reader) {
                Some(tbl) => tbl,
                None => {
                    return None;
                },
            }
        },
        Strategy::CodeTable => {
            match hash_map_decode(&mut reader) {
                Some(tbl) => tbl,
                None => {
                    return None;
                },
            }
        },
    };
    let ghost frame = parse_frame(strategy, bits, pos0)->Some_0;
    let ghost tv = table_view(cache_decode@);
    proof {
        assert(frame.0 == tv);
        assert(frame.1 == reader.pos());
        match strategy {
            Strategy::TreeShape => lemma_frame_a_pos(bits, pos0),
            Strategy::CodeTable => {},
        }
    }
    let n = match reader.read_u16() {
        Some(v) => v,
        None => {
            return None;
        },
    };
    let ghost body = reader.pos();
    if cache_decode.len() == 1 && cache_decode[0].0.len() == 0 {
        let c = cache_decode[0].1;
        proof {
            assert(tv[0] == (cache_decode@[0].0@, cache_decode@[0].1));
            assert(tv.len() == 1 && tv[0].0.len() == 0);
        }
        let mut out_chars: Vec<char> = Vec::new();
        let mut i: usize = 0;
        while i < n as usize
            invariant
                0 <= i <= n as int,
                out_chars@ =~= Seq::new(i as nat, |q: int| c),
            decreases n as int - i,
        {
            out_chars.push(c);
            proof {
                assert(out_chars@ =~= Seq::new((i + 1) as nat, |q: int| c));
            }
            i = i + 1;
        }
        let s = string_from_chars(out_chars);
        proof {
            assert(s@ =~= Seq::new(n as nat, |q: int| tv[0].1));
        }
        return Some(s);
    }
    proof {
        assert(!(tv.len() == 1 && tv[0].0.len() == 0)) by {
            if tv.len() == 1 {
                assert(tv[0] == (cache_decode@[0].0@, cache_decode@[0].1));
            }
        }
    }
    let mut out_chars: Vec<char> = Vec::new();
    let mut count: usize = 0;
    while count < n as usize
        invariant
            reader.wf(),
            reader@ == bits,
            tv == table_view(cache_decode@),
            0 <= count <= n as int,
            reader.pos() <= bits.len(),
            decode_spec(strategy, compressed@, compressed.pos()) == decode_payload(
                tv,
                bits,
                body,
                n as int,
            ),
            decode_payload(tv, bits, body, n as int) == (match decode_payload(
                tv,
                bits,
                reader.pos(),
                n as int - count,
            ) {
                None => None::<Seq<char>>,
                Some(rest) => Some(out_chars@ + rest),
            }),
        decreases n as int - count,
    {
        let ghost p = reader.pos();
        match next_symbol_exec(&mut reader, &cache_decode) {
            None => {
                proof {
                    assert(decode_payload(tv, bits, p, n as int - count) is None);
                }
                return None;
            },
            Some(c) => {
                let ghost prev = out_chars@;
                out_chars.push(c);
                proof {
                    let rest2 = decode_payload(tv, bits, reader.pos(), n as int - count - 1);
                    match rest2 {
                        None => {},
                        Some(rest) => {
                            assert(out_chars@ + rest =~= prev + (seq![c] + rest));
                        },
                    }
                }
                count = count + 1;
            },
        }
    }
    proof {
        assert(decode_payload(tv, bits, reader.pos(), 0) == Some(Seq::<char>::empty()));
        assert(out_chars@ + Seq::<char>::empty() =~= out_chars@);
    }
    let s = string_from_chars(out_chars);
    Some(s)
}


/// A successful structural-framing read never ends past the stream.
proof fn lemma_frame_a_pos(bits: Seq<bool>, pos: int)
    requires
        parse_frame_a(bits, pos) is Some,
    ensures
        parse_frame_a(bits, pos)->Some_0.1 <= bits.len(),
{
    let n = bits_val(bits.subrange(pos, pos + 16));
    let sbase = pos + 16 + 8 * n;
    lemma_parse_paths_bounds(bits, sbase, Seq::empty(), (bits.len() + 1) as nat);
}

} // verus!
