//! Bit-addressable write/read streams over a buffer of 64-bit words.
//!
//! The writer appends single bits, fixed-width little-endian fields and bit
//! sequences; the reader walks a snapshot of the written bits sequentially
//! and signals end-of-stream when asked for a bit past the last written one.

use vstd::prelude::*;

verus! {

/// Mathematical power of two.
pub open spec fn pw2(w: nat) -> int
    decreases w,
{
    if w == 0 {
        1
    } else {
        2 * pw2((w - 1) as nat)
    }
}

/// The value encoded by a bit sequence, least-significant bit first.
pub open spec fn bits_val(s: Seq<bool>) -> int
    decreases s.len(),
{
    if s.len() == 0 {
        0
    } else {
        (if s[0] {
            1int
        } else {
            0int
        }) + 2 * bits_val(s.drop_first())
    }
}

/// The `w`-bit encoding of `n`, least-significant bit first.
pub open spec fn val_bits(n: int, w: nat) -> Seq<bool>
    decreases w,
{
    if w == 0 {
        Seq::empty()
    } else {
        seq![n % 2 == 1] + val_bits(n / 2, (w - 1) as nat)
    }
}

pub proof fn lemma_pw2_pos(w: nat)
    ensures
        pw2(w) >= 1,
    decreases w,
{
    if w > 0 {
        lemma_pw2_pos((w - 1) as nat);
    }
}

pub proof fn lemma_pw2_values()
    ensures
        pw2(8) == 256,
        pw2(16) == 65536,
{
    reveal_with_fuel(pw2, 17);
}

pub proof fn lemma_val_bits_len(n: int, w: nat)
    ensures
        val_bits(n, w).len() == w,
    decreases w,
{
    if w > 0 {
        lemma_val_bits_len(n / 2, (w - 1) as nat);
    }
}

pub proof fn lemma_bits_val_bound(s: Seq<bool>)
    ensures
        0 <= bits_val(s) < pw2(s.len()),
    decreases s.len(),
{
    if s.len() > 0 {
        lemma_bits_val_bound(s.drop_first());
    }
}

/// Decoding inverts encoding: reading back the `w` bits written for `n`
/// yields `n` again.
pub proof fn lemma_val_bits_val(n: int, w: nat)
    requires
        0 <= n < pw2(w),
    ensures
        bits_val(val_bits(n, w)) == n,
    decreases w,
{
    if w == 0 {
    } else {
        let rest = val_bits(n / 2, (w - 1) as nat);
        let whole = seq![n % 2 == 1] + rest;
        assert(whole.drop_first() =~= rest);
        assert(n / 2 < pw2((w - 1) as nat));
        lemma_val_bits_val(n / 2, (w - 1) as nat);
    }
}

/// Bit `k` of the 64-bit word `w`.
pub open spec fn word_bit(w: u64, k: nat) -> bool {
    (w >> (k as u64)) & 1u64 == 1u64
}

proof fn lemma_word_bit_zero(k: u64)
    ensures
        !word_bit(0u64, k as nat),
{
    assert((0u64 >> k) & 1u64 == 0u64) by (bit_vector);
}

proof fn lemma_word_bit_or(w: u64, off: u64, k: u64)
    requires
        off < 64,
        k < 64,
    ensures
        word_bit(w | (1u64 << off), k as nat) == if k == off {
            true
        } else {
            word_bit(w, k as nat)
        },
{
    assert(((w | (1u64 << off)) >> k) & 1u64 == if k == off {
        1u64
    } else {
        (w >> k) & 1u64
    }) by (bit_vector)
        requires
            off < 64,
            k < 64,
    ;
    assert(((w >> k) & 1u64 == 0u64) || ((w >> k) & 1u64 == 1u64)) by (bit_vector);
}

/// Append-only buffer of bits, packed into 64-bit words.
pub struct BitWriter {
    pub(crate) buffer: Vec<u64>,
    pub(crate) bit_position: usize,
}

impl View for BitWriter {
    type V = Seq<bool>;

    /// The sequence of bits written so far, in write order.
    closed spec fn view(&self) -> Seq<bool> {
        Seq::new(
            self.bit_position as nat,
            |i: int| word_bit(self.buffer@[i / 64], (i % 64) as nat),
        )
    }
}

impl BitWriter {
    /// The buffer holds exactly the words needed for the written bits, and
    /// every allocated bit past the write cursor is still clear.
    pub closed spec fn wf(&self) -> bool {
        &&& self.buffer@.len() == (self.bit_position + 63) / 64
        &&& forall|i: int|
            self.bit_position <= i < self.buffer@.len() * 64 ==> !word_bit(
                self.buffer@[i / 64],
                #[trigger] ((i % 64) as nat),
            )
    }

    /// A fresh stream with no bits written.
    pub fn new() -> (w: BitWriter)
        ensures
            w.wf(),
            w@ == Seq::<bool>::empty(),
    {
        let w = BitWriter { buffer: Vec::new(), bit_position: 0 };
        proof {
            assert(w@ =~= Seq::<bool>::empty());
        }
        w
    }

    /// The number of bits written so far.
    pub fn bit_count(&self) -> (n: usize)
        ensures
            n == self@.len(),
    {
        self.bit_position
    }

    /// Appends one bit at the write cursor.
    pub fn write_bit(&mut self, bit: bool)
        requires
            old(self).wf(),
            old(self)@.len() < usize::MAX,
        ensures
            final(self).wf(),
            final(self)@ == old(self)@.push(bit),
    {
        let ghost pos = self.bit_position as int;
        if self.bit_position % 64 == 0 {
            self.buffer.push(0u64);
            proof {
                assert forall|k: u64| k < 64 implies !word_bit(0u64, k as nat) by {
                    lemma_word_bit_zero(k);
                }
            }
        }
        proof {
            assert(pos < self.buffer@.len() * 64);
            assert(0 <= pos / 64 < self.buffer@.len());
        }
        if bit {
            let buffer_index = self.bit_position / 64;
            let buffer_offset = (self.bit_position % 64) as u64;
            let w = self.buffer[buffer_index];
            let w2 = w | (1u64 << buffer_offset);
            self.buffer[buffer_index] = w2;
            proof {
                assert forall|k: u64| k < 64 implies word_bit(w2, k as nat) == if k
                    == buffer_offset {
                    true
                } else {
                    word_bit(w, k as nat)
                } by {
                    lemma_word_bit_or(w, buffer_offset, k);
                }
            }
        }
        self.bit_position = self.bit_position + 1;
        proof {
            let newv = self@;
            let oldv = old(self)@;
            assert forall|i: int| 0 <= i < pos implies newv[i] == oldv[i] by {
                assert(i / 64 <= pos / 64);
                if i / 64 == pos / 64 {
                    assert(i % 64 != pos % 64);
                }
            }
            if !bit {
                assert(!word_bit(self.buffer@[pos / 64], (pos % 64) as nat));
            }
            assert(newv =~= oldv.push(bit));
            assert forall|i: int|
                self.bit_position <= i < self.buffer@.len() * 64 implies !word_bit(
                self.buffer@[i / 64],
                #[trigger] ((i % 64) as nat),
            ) by {
                if i / 64 == pos / 64 {
                    assert(i % 64 != pos % 64);
                }
            }
        }
    }

    /// Appends a sequence of bits verbatim, in sequence order.
    pub fn write_bits_vec(&mut self, bits: &Vec<bool>)
        requires
            old(self).wf(),
            old(self)@.len() + bits@.len() <= usize::MAX,
        ensures
            final(self).wf(),
            final(self)@ == old(self)@ + bits@,
    {
        let n = bits.len();
        let mut i: usize = 0;
        while i < n
            invariant
                self.wf(),
                n == bits@.len(),
                0 <= i <= n,
                old(self)@.len() + n <= usize::MAX,
                self@ == old(self)@ + bits@.take(i as int),
            decreases n - i,
        {
            self.write_bit(bits[i]);
            proof {
                assert(old(self)@ + bits@.take(i as int + 1) =~= (old(self)@ + bits@.take(
                    i as int,
                )).push(bits@[i as int]));
            }
            i = i + 1;
        }
        proof {
            assert(bits@.take(n as int) =~= bits@);
        }
    }

    /// Appends the eight bits of `n`, least-significant first.
    pub fn write_u8(&mut self, n: u8)
        requires
            old(self).wf(),
            old(self)@.len() + 8 <= usize::MAX,
        ensures
            final(self).wf(),
            final(self)@ == old(self)@ + val_bits(n as int, 8),
    {
        self.write_fixed(n as u16, 8);
    }

    /// Appends the sixteen bits of `n`, least-significant first.
    pub fn write_u16(&mut self, n: u16)
        requires
            old(self).wf(),
            old(self)@.len() + 16 <= usize::MAX,
        ensures
            final(self).wf(),
            final(self)@ == old(self)@ + val_bits(n as int, 16),
    {
        self.write_fixed(n, 16);
    }

    /// Appends the low `width` bits of `n`, least-significant first.
    fn write_fixed(&mut self, n: u16, width: usize)
        requires
            old(self).wf(),
            width <= 16,
            old(self)@.len() + width <= usize::MAX,
        ensures
            final(self).wf(),
            final(self)@ == old(self)@ + val_bits(n as int, width as nat),
    {
        let mut cur: u16 = n;
        let mut i: usize = 0;
        proof {
            lemma_val_bits_len(n as int, width as nat);
            assert(val_bits(n as int, width as nat).skip(0) =~= val_bits(
                cur as int,
                (width - 0) as nat,
            ));
        }
        while i < width
            invariant
                self.wf(),
                0 <= i <= width <= 16,
                old(self)@.len() + width <= usize::MAX,
                val_bits(n as int, width as nat).len() == width,
                self@ == old(self)@ + val_bits(n as int, width as nat).take(i as int),
                val_bits(n as int, width as nat).skip(i as int) =~= val_bits(
                    cur as int,
                    (width - i) as nat,
                ),
            decreases width - i,
        {
            let b = cur % 2 == 1;
            proof {
                let full = val_bits(n as int, width as nat);
                let tail = val_bits(cur as int, (width - i) as nat);
                assert(tail[0] == (cur as int % 2 == 1));
                assert(full[i as int] == full.skip(i as int)[0]);
                assert(full.take(i as int + 1) =~= full.take(i as int).push(full[i as int]));
                assert(tail.drop_first() =~= val_bits(cur as int / 2, (width - i - 1) as nat));
                assert(full.skip(i as int + 1) =~= full.skip(i as int).drop_first());
            }
            self.write_bit(b);
            cur = cur / 2;
            i = i + 1;
        }
        proof {
            assert(val_bits(n as int, width as nat).take(width as int) =~= val_bits(
                n as int,
                width as nat,
            ));
        }
    }

    /// Produces a reader over a snapshot of the written bits.
    pub fn to_reader(&self) -> (r: BitReader)
        requires
            self.wf(),
        ensures
            r.wf(),
            r@ == self@,
            r.pos() == 0,
    {
        BitReader::from_writer(self)
    }
}

/// Sequential reader over a snapshot of a writer's bits.
pub struct BitReader {
    pub(crate) buffer: Vec<u64>,
    pub(crate) bit_len: usize,
    pub bit_position: usize,
}

impl View for BitReader {
    type V = Seq<bool>;

    /// The snapshot of bits the reader walks over.
    closed spec fn view(&self) -> Seq<bool> {
        Seq::new(self.bit_len as nat, |i: int| word_bit(self.buffer@[i / 64], (i % 64) as nat))
    }
}

impl BitReader {
    /// The read cursor, as a mathematical position in the snapshot.
    pub closed spec fn pos(&self) -> int {
        self.bit_position as int
    }

    /// The snapshot never addresses bits outside the word buffer.
    pub closed spec fn wf(&self) -> bool {
        self.bit_len <= self.buffer@.len() * 64
    }

    /// Snapshots the writer's bits; the read cursor starts at 0.
    pub fn from_writer(writer: &BitWriter) -> (r: BitReader)
        requires
            writer.wf(),
        ensures
            r.wf(),
            r@ == writer@,
            r.pos() == 0,
    {
        let r = BitReader {
            buffer: writer.buffer.clone(),
            bit_len: writer.bit_position,
            bit_position: 0,
        };
        proof {
            assert(r.buffer@ =~= writer.buffer@);
            assert(r@ =~= writer@);
        }
        r
    }

    /// The read cursor is never negative.
    pub broadcast proof fn lemma_pos_nonneg(&self)
        ensures
            #[trigger] self.pos() >= 0,
    {
    }

    /// A second, independently positioned cursor over the same snapshot.
    pub fn fork(&self) -> (r: BitReader)
        requires
            self.wf(),
        ensures
            r.wf(),
            r@ == self@,
            r.pos() == self.pos(),
    {
        let r = BitReader {
            buffer: self.buffer.clone(),
            bit_len: self.bit_len,
            bit_position: self.bit_position,
        };
        proof {
            assert(r.buffer@ =~= self.buffer@);
            assert(r@ =~= self@);
        }
        r
    }

    /// Advances the read cursor by `len` bits without reading them.
    pub fn progress(&mut self, len: usize)
        requires
            old(self).pos() + len <= usize::MAX,
        ensures
            final(self).wf() == old(self).wf(),
            final(self)@ == old(self)@,
            final(self).pos() == old(self).pos() + len,
    {
        self.bit_position = self.bit_position + len;
    }

    /// Returns the bit at the read cursor and advances, or signals
    /// end-of-stream (leaving the cursor in place) when no bit is left.
    pub fn read_bit(&mut self) -> (r: Option<bool>)
        requires
            old(self).wf(),
        ensures
            final(self).wf(),
            final(self)@ == old(self)@,
            match r {
                Some(b) => old(self).pos() < final(self)@.len() && b == final(self)@[old(self).pos()] && final(self).pos() == old(self).pos() + 1,
                None => old(self).pos() >= final(self)@.len() && final(self).pos() == old(self).pos(),
            },
    {
        if self.bit_position < self.bit_len {
            let buffer_index = self.bit_position / 64;
            let buffer_offset = (self.bit_position % 64) as u64;
            proof {
                assert(0 <= self.bit_position / 64 < self.buffer@.len());
            }
            let w = self.buffer[buffer_index];
            let b = (w >> buffer_offset) & 1u64 == 1u64;
            self.bit_position = self.bit_position + 1;
            Some(b)
        } else {
            None
        }
    }

    /// Reads `len` bits in order into a fresh vector; on end-of-stream no
    /// bits are consumed and nothing is returned.
    pub fn read_bits_vec(&mut self, len: usize) -> (r: Option<Vec<bool>>)
        requires
            old(self).wf(),
            old(self).pos() + len <= usize::MAX,
        ensures
            final(self).wf(),
            final(self)@ == old(self)@,
            match r {
                Some(v) => old(self).pos() + len <= final(self)@.len() && v@ == final(self)@.subrange(
                    old(self).pos(),
                    old(self).pos() + len,
                ) && final(self).pos() == old(self).pos() + len,
                None => old(self).pos() + len > final(self)@.len() && final(self).pos() == old(self).pos(),
            },
    {
        if self.bit_position > self.bit_len || self.bit_len - self.bit_position < len {
            return None;
        }
        let ghost start = self.bit_position as int;
        let mut ret: Vec<bool> = Vec::new();
        let mut i: usize = 0;
        while i < len
            invariant
                self.wf(),
                self@ == old(self)@,
                0 <= i <= len,
                start == old(self).pos(),
                start + len <= self@.len(),
                self.bit_position == start + i,
                ret@ =~= self@.subrange(start, start + i),
            decreases len - i,
        {
            let b = self.read_bit().unwrap();
            ret.push(b);
            proof {
                assert(ret@ =~= self@.subrange(start, start + i + 1));
            }
            i = i + 1;
        }
        Some(ret)
    }

    /// Reads `width` bits least-significant-bit-first and reassembles the
    /// value; on end-of-stream no bits are consumed and nothing is returned.
    fn read_fixed(&mut self, width: usize) -> (r: Option<u16>)
        requires
            old(self).wf(),
            width <= 16,
            old(self).pos() + width <= usize::MAX,
        ensures
            final(self).wf(),
            final(self)@ == old(self)@,
            match r {
                Some(v) => old(self).pos() + width <= final(self)@.len() && v as int == bits_val(
                    final(self)@.subrange(old(self).pos(), old(self).pos() + width),
                ) && final(self).pos() == old(self).pos() + width,
                None => old(self).pos() + width > final(self)@.len() && final(self).pos() == old(self).pos(),
            },
    {
        let bits = match self.read_bits_vec(width) {
            Some(v) => v,
            None => {
                return None;
            },
        };
        let mut acc: u32 = 0;
        let mut j: usize = width;
        proof {
            assert(bits@.subrange(width as int, width as int) =~= Seq::<bool>::empty());
            lemma_pw2_values();
        }
        while j > 0
            invariant
                0 <= j <= width <= 16,
                bits@.len() == width,
                acc as int == bits_val(bits@.subrange(j as int, width as int)),
                acc < pw2((width - j) as nat),
            decreases j,
        {
            j = j - 1;
            let b = bits[j];
            proof {
                let tail = bits@.subrange(j as int, width as int);
                assert(tail[0] == bits@[j as int]);
                assert(tail.drop_first() =~= bits@.subrange(j as int + 1, width as int));
                lemma_pw2_pos((width - j - 1) as nat);
                assert(pw2((width - j) as nat) == 2 * pw2((width - j - 1) as nat));
                lemma_pw2_mono((width - j) as nat, 16);
                lemma_pw2_values();
            }
            acc = 2 * acc + (if b {
                1
            } else {
                0
            });
        }
        proof {
            assert(bits@.subrange(0, width as int) =~= bits@);
            lemma_bits_val_bound(bits@);
            lemma_pw2_mono(width as nat, 16);
            lemma_pw2_values();
        }
        Some(acc as u16)
    }

    /// Reads eight bits least-significant-bit-first as one byte.
    pub fn read_u8(&mut self) -> (r: Option<u8>)
        requires
            old(self).wf(),
            old(self).pos() + 8 <= usize::MAX,
        ensures
            final(self).wf(),
            final(self)@ == old(self)@,
            match r {
                Some(v) => old(self).pos() + 8 <= final(self)@.len() && v as int == bits_val(
                    final(self)@.subrange(old(self).pos(), old(self).pos() + 8),
                ) && final(self).pos() == old(self).pos() + 8,
                None => old(self).pos() + 8 > final(self)@.len() && final(self).pos() == old(self).pos(),
            },
    {
        match self.read_fixed(8) {
            Some(v) => {
                proof {
                    lemma_bits_val_bound(
                        self@.subrange(old(self).pos(), old(self).pos() + 8),
                    );
                    lemma_pw2_values();
                }
                Some(v as u8)
            },
            None => None,
        }
    }

    /// Reads sixteen bits least-significant-bit-first as one value.
    pub fn read_u16(&mut self) -> (r: Option<u16>)
        requires
            old(self).wf(),
            old(self).pos() + 16 <= usize::MAX,
        ensures
            final(self).wf(),
            final(self)@ == old(self)@,
            match r {
                Some(v) => old(self).pos() + 16 <= final(self)@.len() && v as int == bits_val(
                    final(self)@.subrange(old(self).pos(), old(self).pos() + 16),
                ) && final(self).pos() == old(self).pos() + 16,
                None => old(self).pos() + 16 > final(self)@.len() && final(self).pos() == old(self).pos(),
            },
    {
        self.read_fixed(16)
    }
}

pub proof fn lemma_pw2_mono(a: nat, b: nat)
    requires
        a <= b,
    ensures
        pw2(a) <= pw2(b),
    decreases b,
{
    if a < b {
        lemma_pw2_mono(a, (b - 1) as nat);
        lemma_pw2_pos((b - 1) as nat);
    }
}

} // verus!
