//! The arithmetic coder: a 17-bit integer range coder with pending
//! underflow bits, in both directions.

use vstd::prelude::*;
use crate::bitstream::{stream_bit, BitReader, BitWriter};
use crate::model::{
    lemma_cum_falls, lemma_position_cum_falls, position_cum, PositionModel, SymbolModel,
};
use crate::params::{M, MAX_CUM, N_CHAR, Q1, Q2, Q3, Q4, RING_BUF_SIZE};

verus! {

/// `low` and `high` bound a range inside the coding range.
pub open spec fn in_range(low: int, high: int) -> bool {
    0 <= low < high <= Q4
}

/// No scaling step applies: the range straddles the middle and is not
/// inside the two middle quarters.
pub open spec fn settled(low: int, high: int) -> bool {
    low < Q2 < high && !(low >= Q1 && high <= Q3)
}

/// What a scaling step subtracts from both bounds before it doubles them.
pub open spec fn step_base(low: int, high: int) -> int {
    if high <= Q2 {
        0
    } else if low >= Q2 {
        Q2 as int
    } else {
        Q1 as int
    }
}

/// The lower bound after the range was narrowed to the slot that starts at
/// the cumulative count `c` out of `tot`.
pub open spec fn narrowed(low: int, high: int, c: int, tot: int) -> int {
    low + (high - low) * c / tot
}

/// One bit followed by `k` copies of its complement.
pub open spec fn emitted(bit: bool, k: int) -> Seq<bool> {
    seq![bit] + Seq::new(k as nat, |i: int| !bit)
}

/// Where scaling ends, and the bits that the encoder writes on the way.
pub struct Scaled {
    pub low: int,
    pub high: int,
    pub shifts: int,
    pub bits: Seq<bool>,
}

/// Scaling on the encoder's side, from a range and a count of pending bits.
pub open spec fn scaled(low: int, high: int, shifts: int) -> Scaled
    decreases Q4 - (high - low),
{
    if !in_range(low, high) || settled(low, high) {
        Scaled { low, high, shifts, bits: Seq::empty() }
    } else {
        let base = step_base(low, high);
        if base == Q1 {
            scaled(2 * (low - base), 2 * (high - base), shifts + 1)
        } else {
            let rest = scaled(2 * (low - base), 2 * (high - base), 0);
            Scaled { bits: emitted(base == Q2, shifts) + rest.bits, ..rest }
        }
    }
}

/// The number that `n` bits of the stream spell, starting at bit `pos`.
pub open spec fn window(src: Seq<u8>, pos: int, n: int) -> int
    decreases n,
{
    if n <= 0 {
        0
    } else {
        2 * window(src, pos, n - 1) + if stream_bit(src, pos + n - 1) {
            1int
        } else {
            0int
        }
    }
}

/// Two to the power `n`: one more than the greatest number of `n` bits.
pub open spec fn span(n: int) -> int
    decreases n,
{
    if n <= 0 {
        1
    } else {
        2 * span(n - 1)
    }
}

/// A number of at most seventeen bits is inside the coding range.
pub proof fn lemma_span(n: int)
    requires
        0 <= n <= 17,
    ensures
        1 <= span(n) <= Q4,
        n < 17 ==> 2 * span(n) <= Q4,
        span(15) == Q1,
        span(16) == Q2,
        span(17) == Q4,
{
    reveal_with_fuel(span, 20);
}

/// Where scaling ends on the decoder's side.
pub struct Rescanned {
    pub low: int,
    pub high: int,
    pub value: int,
    pub pos: int,
}

/// Scaling on the decoder's side: the same steps, each of which shifts one
/// more bit of the stream into the value.
pub open spec fn rescanned(low: int, high: int, value: int, src: Seq<u8>, pos: int) -> Rescanned
    decreases Q4 - (high - low),
{
    if !in_range(low, high) || settled(low, high) {
        Rescanned { low, high, value, pos }
    } else {
        let base = step_base(low, high);
        let bit = if stream_bit(src, pos) { 1int } else { 0int };
        rescanned(2 * (low - base), 2 * (high - base), 2 * (value - base) + bit, src, pos + 1)
    }
}

/// The cumulative count that the decoder looks up for its value.
pub open spec fn target(low: int, high: int, value: int, tot: int) -> int {
    ((value - low + 1) * tot - 1) / (high - low)
}

proof fn lemma_div_bounds(x: int, d: int)
    by (nonlinear_arith)
    requires
        0 <= x,
        0 < d,
    ensures
        0 <= x / d,
        (x / d) * d <= x < (x / d) * d + d,
{
}

proof fn lemma_mul_le(r: int, a: int, b: int)
    by (nonlinear_arith)
    requires
        0 <= r,
        a <= b,
    ensures
        r * a <= r * b,
{
}

/// Narrowing to a slot gives a range inside the old one, and not an empty
/// one as long as the old range is at least as wide as the total.
pub proof fn lemma_narrowed(low: int, high: int, c_lo: int, c_hi: int, tot: int)
    requires
        in_range(low, high),
        0 <= c_lo < c_hi <= tot <= high - low,
    ensures
        low <= narrowed(low, high, c_lo, tot) < narrowed(low, high, c_hi, tot) <= high,
{
    let r = high - low;
    lemma_mul_le(r, 0, c_lo);
    lemma_mul_le(r, c_lo + 1, c_hi);
    lemma_mul_le(r, c_hi, tot);
    assert(r * (c_lo + 1) == r * c_lo + r) by (nonlinear_arith);
    lemma_div_bounds(r * c_lo, tot);
    lemma_div_bounds(r * c_hi, tot);
    let a = r * c_lo / tot;
    let b = r * c_hi / tot;
    assert(a < b) by (nonlinear_arith)
        requires
            a * tot <= r * c_lo,
            r * c_lo + tot <= r * c_hi,
            r * c_hi < b * tot + tot,
            0 < tot,
    ;
    assert(b <= r) by (nonlinear_arith)
        requires
            b * tot <= r * c_hi,
            r * c_hi <= r * tot,
            0 < tot,
            0 <= r,
    ;
}

/// Scaling ends in a settled range, and adds at most one pending bit for
/// each unit by which the range was short of the whole.
pub proof fn lemma_scaled(low: int, high: int, shifts: int)
    requires
        in_range(low, high),
        0 <= shifts,
    ensures
        in_range(scaled(low, high, shifts).low, scaled(low, high, shifts).high),
        settled(scaled(low, high, shifts).low, scaled(low, high, shifts).high),
        0 <= scaled(low, high, shifts).shifts <= shifts + (Q4 - (high - low)),
    decreases Q4 - (high - low),
{
    if !settled(low, high) {
        let base = step_base(low, high);
        if base == Q1 {
            lemma_scaled(2 * (low - base), 2 * (high - base), shifts + 1);
        } else {
            lemma_scaled(2 * (low - base), 2 * (high - base), 0);
        }
    }
}

/// The decoder's scaling follows the encoder's: it ends in the same range,
/// and keeps the value inside the range.
pub proof fn lemma_rescanned(low: int, high: int, value: int, src: Seq<u8>, pos: int, shifts: int)
    requires
        in_range(low, high),
    ensures
        rescanned(low, high, value, src, pos).low == scaled(low, high, shifts).low,
        rescanned(low, high, value, src, pos).high == scaled(low, high, shifts).high,
        rescanned(low, high, value, src, pos).pos >= pos,
        low <= value < high ==> rescanned(low, high, value, src, pos).low <= rescanned(
            low,
            high,
            value,
            src,
            pos,
        ).value < rescanned(low, high, value, src, pos).high,
    decreases Q4 - (high - low),
{
    if !settled(low, high) {
        let base = step_base(low, high);
        let bit = if stream_bit(src, pos) { 1int } else { 0int };
        let s = if base == Q1 { shifts + 1 } else { 0 };
        lemma_rescanned(
            2 * (low - base),
            2 * (high - base),
            2 * (value - base) + bit,
            src,
            pos + 1,
            s,
        );
    }
}

/// The state of the encoder: the range, the count of pending underflow
/// bits, and every bit written so far.
pub struct EncoderView {
    pub low: int,
    pub high: int,
    pub shifts: int,
    pub bits: Seq<bool>,
}

/// The encoding half of the arithmetic coder.
pub struct Encoder {
    low: u64,
    high: u64,
    shifts: u64,
    out: BitWriter,
}

impl Encoder {
    /// The state of the encoder.
    pub closed spec fn view(&self) -> EncoderView {
        EncoderView {
            low: self.low as int,
            high: self.high as int,
            shifts: self.shifts as int,
            bits: self.out@,
        }
    }

    /// The range is settled, and its bounds are inside the coding range.
    pub closed spec fn wf(&self) -> bool {
        &&& self.out.wf()
        &&& in_range(self.low as int, self.high as int)
        &&& settled(self.low as int, self.high as int)
    }

    /// An encoder whose output goes on after `bytes`.
    pub fn new(bytes: Vec<u8>) -> (e: Self)
        ensures
            e.wf(),
            e@.low == 0,
            e@.high == Q4,
            e@.shifts == 0,
            e@.bits == crate::bitstream::bits_of(bytes@),
    {
        Encoder { low: 0, high: Q4, shifts: 0, out: BitWriter::new(bytes) }
    }

    /// The lower bound of the range.
    pub fn low(&self) -> (l: u64)
        ensures
            l == self@.low,
    {
        self.low
    }

    /// The upper bound of the range.
    pub fn high(&self) -> (h: u64)
        ensures
            h == self@.high,
    {
        self.high
    }

    /// The range is never empty and lies inside the coding range.
    pub proof fn lemma_range(&self)
        requires
            self.wf(),
        ensures
            0 <= self@.low < self@.high <= Q4,
            settled(self@.low, self@.high),
            0 <= self@.shifts,
    {
    }

    /// Writes `bit`, then its complement once for every pending bit.
    fn output(&mut self, bit: bool)
        requires
            old(self).out.wf(),
        ensures
            final(self).out.wf(),
            final(self).low == old(self).low,
            final(self).high == old(self).high,
            final(self).shifts == 0,
            final(self).out@ == old(self).out@ + emitted(bit, old(self).shifts as int),
    {
        self.out.put_bit(bit);
        let ghost k = self.shifts;
        while self.shifts > 0
            invariant
                self.out.wf(),
                self.low == old(self).low,
                self.high == old(self).high,
                self.shifts <= k,
                k == old(self).shifts,
                self.out@ == old(self).out@.push(bit) + Seq::new(
                    (k - self.shifts) as nat,
                    |i: int| !bit,
                ),
            decreases self.shifts,
        {
            self.out.put_bit(!bit);
            self.shifts -= 1;
        }
        assert(self.out@ =~= old(self).out@ + emitted(bit, old(self).shifts as int));
    }

    /// Narrows the range to the slot between the cumulative counts `c_lo`
    /// and `c_hi` out of `tot`, then scales it.
    #[verifier::rlimit(40)]
    fn encode_slot(&mut self, c_lo: u64, c_hi: u64, tot: u64)
        requires
            old(self).wf(),
            c_lo < c_hi <= tot <= MAX_CUM,
            old(self)@.shifts + Q4 <= u64::MAX,
        ensures
            final(self).wf(),
            ({
                let v = old(self)@;
                let s = scaled(
                    narrowed(v.low, v.high, c_lo as int, tot as int),
                    narrowed(v.low, v.high, c_hi as int, tot as int),
                    v.shifts,
                );
                &&& final(self)@.low == s.low
                &&& final(self)@.high == s.high
                &&& final(self)@.shifts == s.shifts
                &&& final(self)@.bits == v.bits + s.bits
            }),
            final(self)@.shifts <= old(self)@.shifts + Q4,
    {
        let ghost v = self@;
        let range: u64 = self.high - self.low;
        proof {
            lemma_narrowed(v.low, v.high, c_lo as int, c_hi as int, tot as int);
            lemma_mul_le(range as int, c_hi as int, MAX_CUM as int);
            lemma_mul_le(range as int, c_lo as int, MAX_CUM as int);
            lemma_mul_le(MAX_CUM as int, range as int, Q4 as int);
            assert(range * MAX_CUM == MAX_CUM * range) by (nonlinear_arith);
        }
        self.high = self.low + range * c_hi / tot;
        self.low = self.low + range * c_lo / tot;
        let ghost l1 = self.low as int;
        let ghost h1 = self.high as int;
        let ghost goal = scaled(l1, h1, v.shifts);
        proof {
            lemma_scaled(l1, h1, v.shifts);
            assert(v.bits + goal.bits == self.out@ + scaled(l1, h1, v.shifts).bits);
        }
        loop
            invariant
                self.out.wf(),
                in_range(self.low as int, self.high as int),
                in_range(l1, h1),
                self.shifts + (Q4 - (self.high - self.low)) <= v.shifts + (Q4 - (h1 - l1)),
                v.shifts + Q4 <= u64::MAX,
                goal == scaled(l1, h1, v.shifts),
                goal.low == scaled(self.low as int, self.high as int, self.shifts as int).low,
                goal.high == scaled(self.low as int, self.high as int, self.shifts as int).high,
                goal.shifts == scaled(
                    self.low as int,
                    self.high as int,
                    self.shifts as int,
                ).shifts,
                v.bits + goal.bits == self.out@ + scaled(
                    self.low as int,
                    self.high as int,
                    self.shifts as int,
                ).bits,
            ensures
                self.out.wf(),
                in_range(self.low as int, self.high as int),
                settled(self.low as int, self.high as int),
                goal.low == self.low,
                goal.high == self.high,
                goal.shifts == self.shifts,
                v.bits + goal.bits == self.out@,
            decreases Q4 - (self.high - self.low),
        {
            let ghost l = self.low as int;
            let ghost h = self.high as int;
            let ghost k = self.shifts as int;
            let ghost before = self.out@;
            if self.high <= Q2 {
                self.output(false);
            } else if self.low >= Q2 {
                self.output(true);
                self.low -= Q2;
                self.high -= Q2;
            } else if self.low >= Q1 && self.high <= Q3 {
                self.shifts += 1;
                self.low -= Q1;
                self.high -= Q1;
            } else {
                assert(scaled(l, h, k).bits =~= Seq::<bool>::empty());
                assert(self.out@ + Seq::<bool>::empty() =~= self.out@);
                break ;
            }
            self.low += self.low;
            self.high += self.high;
            proof {
                let base = step_base(l, h);
                if base != Q1 {
                    let rest = scaled(2 * (l - base), 2 * (h - base), 0);
                    assert(scaled(l, h, k).bits == emitted(base == Q2, k) + rest.bits);
                    assert(before + (emitted(base == Q2, k) + rest.bits) =~= (before + emitted(
                        base == Q2,
                        k,
                    )) + rest.bits);
                }
            }
        }
    }

    /// Codes the character `ch` with the symbol model, then counts it.
    pub fn encode_char(&mut self, model: &mut SymbolModel, ch: usize)
        requires
            old(self).wf(),
            old(model)@.wf(),
            ch < N_CHAR,
            old(self)@.shifts + Q4 <= u64::MAX,
        ensures
            final(self).wf(),
            final(model)@.wf(),
            ({
                let v = old(self)@;
                let m = old(model)@;
                let sym = m.ranks[ch as int];
                let s = scaled(
                    narrowed(v.low, v.high, m.cum[sym], m.cum[0]),
                    narrowed(v.low, v.high, m.cum[sym - 1], m.cum[0]),
                    v.shifts,
                );
                &&& final(model)@ == m.updated(sym)
                &&& final(self)@.low == s.low
                &&& final(self)@.high == s.high
                &&& final(self)@.shifts == s.shifts
                &&& final(self)@.bits == v.bits + s.bits
            }),
            0 <= final(self)@.low < final(self)@.high <= Q4,
            final(self)@.shifts <= old(self)@.shifts + Q4,
    {
        let sym: usize = model.sym_of(ch);
        let c_lo: u64 = model.cum(sym);
        let c_hi: u64 = model.cum(sym - 1);
        let tot: u64 = model.total();
        proof {
            lemma_cum_falls(model@, sym as int - 1, sym as int);
            lemma_cum_falls(model@, 0, sym as int - 1);
        }
        self.encode_slot(c_lo, c_hi, tot);
        model.update_model(sym);
    }

    /// Codes the match position `pos` with the position model.
    pub fn encode_position(&mut self, model: &PositionModel, pos: usize)
        requires
            old(self).wf(),
            model.wf(),
            pos < RING_BUF_SIZE,
            old(self)@.shifts + Q4 <= u64::MAX,
        ensures
            final(self).wf(),
            ({
                let v = old(self)@;
                let s = scaled(
                    narrowed(v.low, v.high, position_cum(pos + 1), position_cum(0)),
                    narrowed(v.low, v.high, position_cum(pos as int), position_cum(0)),
                    v.shifts,
                );
                &&& final(self)@.low == s.low
                &&& final(self)@.high == s.high
                &&& final(self)@.shifts == s.shifts
                &&& final(self)@.bits == v.bits + s.bits
            }),
            0 <= final(self)@.low < final(self)@.high <= Q4,
            final(self)@.shifts <= old(self)@.shifts + Q4,
    {
        let c_lo: u64 = model.cum(pos + 1);
        let c_hi: u64 = model.cum(pos);
        let tot: u64 = model.total();
        proof {
            lemma_position_cum_falls(pos as int, pos as int + 1);
            lemma_position_cum_falls(0, pos as int);
        }
        self.encode_slot(c_lo, c_hi, tot);
    }

    /// Ends the stream: one more pending bit, then the bit that names the
    /// quarter of the lower bound, then padding to a whole byte.
    pub fn encode_end(&mut self)
        requires
            old(self).wf(),
            old(self)@.shifts < u64::MAX,
        ensures
            final(self)@.bits == old(self)@.bits + emitted(
                old(self)@.low >= Q1,
                old(self)@.shifts + 1,
            ) + Seq::new(7, |i: int| false),
            final(self).writer().wf(),
            final(self).writer()@ == final(self)@.bits,
    {
        self.shifts += 1;
        if self.low < Q1 {
            self.output(false);
        } else {
            self.output(true);
        }
        self.out.flush_bit_buffer();
    }

    /// The writer that collects the bits.
    pub closed spec fn writer(&self) -> BitWriter {
        self.out
    }

    /// Hands out the bytes that are complete.
    pub fn into_bytes(self) -> (out: Vec<u8>)
        requires
            self.writer().wf(),
        ensures
            out@ == self.writer().full_bytes(),
    {
        self.out.into_bytes()
    }
}

/// The state of the decoder: the range, the value, and the place in the
/// stream of the next bit.
pub struct DecoderView {
    pub low: int,
    pub high: int,
    pub value: int,
    pub pos: int,
    pub src: Seq<u8>,
}

/// The decoding half of the arithmetic coder.
pub struct Decoder<'a> {
    low: u64,
    high: u64,
    value: u64,
    input: BitReader<'a>,
}

impl<'a> Decoder<'a> {
    /// The state of the decoder.
    pub closed spec fn view(&self) -> DecoderView {
        DecoderView {
            low: self.low as int,
            high: self.high as int,
            value: self.value as int,
            pos: self.input.position(),
            src: self.input.source(),
        }
    }

    /// The range is settled and holds the value.
    pub closed spec fn wf(&self) -> bool {
        &&& self.input.wf()
        &&& in_range(self.low as int, self.high as int)
        &&& settled(self.low as int, self.high as int)
        &&& self.low <= self.value < self.high
    }

    /// A decoder that reads `bytes` from byte `start` on. Its value is
    /// still empty.
    pub fn new(bytes: &'a [u8], start: usize) -> (d: Self)
        requires
            start <= bytes@.len(),
        ensures
            d.wf(),
            d@.low == 0,
            d@.high == Q4,
            d@.value == 0,
            d@.pos == 8 * start,
            d@.src == bytes@,
    {
        Decoder { low: 0, high: Q4, value: 0, input: BitReader::new(bytes, start) }
    }

    /// The lower bound of the range.
    pub fn low(&self) -> (l: u64)
        ensures
            l == self@.low,
    {
        self.low
    }

    /// The upper bound of the range.
    pub fn high(&self) -> (h: u64)
        ensures
            h == self@.high,
    {
        self.high
    }

    /// The value that is decoded.
    pub fn value(&self) -> (v: u64)
        ensures
            v == self@.value,
    {
        self.value
    }

    /// The range is never empty, lies inside the coding range, and holds
    /// the value.
    pub proof fn lemma_range(&self)
        requires
            self.wf(),
        ensures
            0 <= self@.low <= self@.value < self@.high <= Q4,
            settled(self@.low, self@.high),
            self@.pos >= 0,
    {
        self.input.lemma_position();
    }

    /// Loads the first seventeen bits of the stream into the value.
    pub fn start_decode(&mut self)
        requires
            old(self).wf(),
            old(self)@.low == 0,
            old(self)@.high == Q4,
            old(self)@.value == 0,
        ensures
            final(self).wf(),
            final(self)@.low == 0,
            final(self)@.high == Q4,
            final(self)@.value == window(old(self)@.src, old(self)@.pos, 17),
            final(self)@.pos == old(self)@.pos + 17,
            final(self)@.src == old(self)@.src,
    {
        let ghost src = self@.src;
        let ghost begin = self@.pos;
        let mut n: usize = 0;
        while n < M + 2
            invariant
                n <= M + 2,
                self.input.wf(),
                self.low == 0,
                self.high == Q4,
                self.input.source() == src,
                self.input.position() == begin + n,
                self.value == window(src, begin, n as int),
                self.value < span(n as int),
            decreases M + 2 - n,
        {
            proof {
                lemma_span(n as int);
            }
            let bit: bool = self.input.get_bit();
            self.value = self.value + self.value + if bit { 1 } else { 0 };
            n += 1;
        }
        proof {
            lemma_span(17);
        }
    }

    /// Narrows the range to the slot between the cumulative counts `c_lo`
    /// and `c_hi` out of `tot`, then scales it, shifting in new bits.
    #[verifier::rlimit(40)]
    fn decode_slot(&mut self, c_lo: u64, c_hi: u64, tot: u64)
        requires
            old(self).wf(),
            c_lo < c_hi <= tot <= MAX_CUM,
            c_lo <= target(old(self)@.low, old(self)@.high, old(self)@.value, tot as int) < c_hi,
        ensures
            final(self).wf(),
            final(self)@.src == old(self)@.src,
            ({
                let v = old(self)@;
                let r = rescanned(
                    narrowed(v.low, v.high, c_lo as int, tot as int),
                    narrowed(v.low, v.high, c_hi as int, tot as int),
                    v.value,
                    v.src,
                    v.pos,
                );
                &&& final(self)@.low == r.low
                &&& final(self)@.high == r.high
                &&& final(self)@.value == r.value
                &&& final(self)@.pos == r.pos
            }),
    {
        let ghost v = self@;
        let range: u64 = self.high - self.low;
        proof {
            lemma_narrowed(v.low, v.high, c_lo as int, c_hi as int, tot as int);
            lemma_mul_le(range as int, c_hi as int, MAX_CUM as int);
            lemma_mul_le(range as int, c_lo as int, MAX_CUM as int);
            lemma_mul_le(MAX_CUM as int, range as int, Q4 as int);
            assert(range * MAX_CUM == MAX_CUM * range) by (nonlinear_arith);
            lemma_target_slot(v.low, v.high, v.value, c_lo as int, c_hi as int, tot as int);
        }
        self.high = self.low + range * c_hi / tot;
        self.low = self.low + range * c_lo / tot;
        let ghost l1 = self.low as int;
        let ghost h1 = self.high as int;
        let ghost src = v.src;
        let ghost goal = rescanned(l1, h1, v.value, src, v.pos);
        proof {
            lemma_rescanned(l1, h1, v.value, src, v.pos, 0);
            lemma_scaled(l1, h1, 0);
        }
        loop
            invariant
                self.input.wf(),
                self.input.source() == src,
                in_range(self.low as int, self.high as int),
                self.low <= self.value < self.high,
                goal == rescanned(
                    self.low as int,
                    self.high as int,
                    self.value as int,
                    src,
                    self.input.position(),
                ),
            ensures
                self.input.wf(),
                self.input.source() == src,
                in_range(self.low as int, self.high as int),
                settled(self.low as int, self.high as int),
                self.low <= self.value < self.high,
                goal.low == self.low,
                goal.high == self.high,
                goal.value == self.value,
                goal.pos == self.input.position(),
            decreases Q4 - (self.high - self.low),
        {
            let ghost l = self.low as int;
            let ghost h = self.high as int;
            let ghost x = self.value as int;
            let ghost p = self.input.position();
            if self.high <= Q2 {
            } else if self.low >= Q2 {
                self.value -= Q2;
                self.low -= Q2;
                self.high -= Q2;
            } else if self.low >= Q1 && self.high <= Q3 {
                self.value -= Q1;
                self.low -= Q1;
                self.high -= Q1;
            } else {
                break ;
            }
            self.low += self.low;
            self.high += self.high;
            let bit: bool = self.input.get_bit();
            self.value = self.value + self.value + if bit { 1 } else { 0 };
            proof {
                let base = step_base(l, h);
                let b = if stream_bit(src, p) { 1int } else { 0int };
                assert(!settled(l, h));
                assert(rescanned(l, h, x, src, p) == rescanned(
                    2 * (l - base),
                    2 * (h - base),
                    2 * (x - base) + b,
                    src,
                    p + 1,
                ));
                assert(self.low == 2 * (l - base));
                assert(self.high == 2 * (h - base));
                assert(self.value == 2 * (x - base) + b);
                assert(self.input.position() == p + 1);
            }
        }
    }

    /// Decodes one character with the symbol model, then counts it.
    pub fn decode_char(&mut self, model: &mut SymbolModel) -> (ch: usize)
        requires
            old(self).wf(),
            old(model)@.wf(),
        ensures
            final(self).wf(),
            final(model)@.wf(),
            final(self)@.src == old(self)@.src,
            ch < N_CHAR,
            ({
                let v = old(self)@;
                let m = old(model)@;
                let sym = m.ranks[ch as int];
                let t = target(v.low, v.high, v.value, m.cum[0]);
                let r = rescanned(
                    narrowed(v.low, v.high, m.cum[sym], m.cum[0]),
                    narrowed(v.low, v.high, m.cum[sym - 1], m.cum[0]),
                    v.value,
                    v.src,
                    v.pos,
                );
                &&& m.cum[sym] <= t < m.cum[sym - 1]
                &&& final(model)@ == m.updated(sym)
                &&& final(self)@.low == r.low
                &&& final(self)@.high == r.high
                &&& final(self)@.value == r.value
                &&& final(self)@.pos == r.pos
            }),
            0 <= final(self)@.low <= final(self)@.value < final(self)@.high <= Q4,
    {
        let range: u64 = self.high - self.low;
        let tot: u64 = model.total();
        proof {
            lemma_cum_falls(model@, 0, N_CHAR as int);
            lemma_target_range(self@.low, self@.high, self@.value, tot as int);
            lemma_mul_le(tot as int, (self.value - self.low + 1) as int, Q4 as int);
            assert((self.value - self.low + 1) * tot == tot * (self.value - self.low + 1))
                by (nonlinear_arith);
        }
        let t: u64 = ((self.value - self.low + 1) * tot - 1) / range;
        let sym: usize = model.binary_search_sym(t);
        let c_lo: u64 = model.cum(sym);
        let c_hi: u64 = model.cum(sym - 1);
        proof {
            lemma_cum_falls(model@, 0, sym as int - 1);
            lemma_cum_falls(model@, sym as int - 1, sym as int);
        }
        self.decode_slot(c_lo, c_hi, tot);
        let ch: usize = model.char_of(sym);
        proof {
            assert(0 <= model@.chars[sym as int] < N_CHAR);
            assert((model@.ranks[ch as int] == sym) <==> (model@.chars[sym as int] == ch));
        }
        model.update_model(sym);
        ch
    }

    /// Decodes one match position with the position model.
    pub fn decode_position(&mut self, model: &PositionModel) -> (pos: usize)
        requires
            old(self).wf(),
            model.wf(),
        ensures
            final(self).wf(),
            final(self)@.src == old(self)@.src,
            pos < RING_BUF_SIZE,
            ({
                let v = old(self)@;
                let t = target(v.low, v.high, v.value, position_cum(0));
                let r = rescanned(
                    narrowed(v.low, v.high, position_cum(pos + 1), position_cum(0)),
                    narrowed(v.low, v.high, position_cum(pos as int), position_cum(0)),
                    v.value,
                    v.src,
                    v.pos,
                );
                &&& position_cum(pos + 1) <= t < position_cum(pos as int)
                &&& final(self)@.low == r.low
                &&& final(self)@.high == r.high
                &&& final(self)@.value == r.value
                &&& final(self)@.pos == r.pos
            }),
            0 <= final(self)@.low <= final(self)@.value < final(self)@.high <= Q4,
    {
        let range: u64 = self.high - self.low;
        let tot: u64 = model.total();
        proof {
            lemma_target_range(self@.low, self@.high, self@.value, tot as int);
            lemma_mul_le(tot as int, (self.value - self.low + 1) as int, Q4 as int);
            assert((self.value - self.low + 1) * tot == tot * (self.value - self.low + 1))
                by (nonlinear_arith);
        }
        let t: u64 = ((self.value - self.low + 1) * tot - 1) / range;
        let pos: usize = model.binary_search_pos(t);
        let c_lo: u64 = model.cum(pos + 1);
        let c_hi: u64 = model.cum(pos);
        proof {
            lemma_position_cum_falls(0, pos as int);
            lemma_position_cum_falls(pos as int, pos as int + 1);
            if pos > 0 {
                assert(position_cum(pos as int) > t);
            }
        }
        self.decode_slot(c_lo, c_hi, tot);
        pos
    }
}

/// The target of a value inside the range is a count below the total.
pub proof fn lemma_target_range(low: int, high: int, value: int, tot: int)
    requires
        in_range(low, high),
        low <= value < high,
        0 < tot,
    ensures
        0 <= target(low, high, value, tot) < tot,
        (value - low + 1) * tot >= 1,
{
    let r = high - low;
    let x = (value - low + 1) * tot - 1;
    lemma_mul_le(tot, 1, value - low + 1);
    lemma_mul_le(tot, value - low + 1, r);
    assert((value - low + 1) * tot == tot * (value - low + 1)) by (nonlinear_arith);
    lemma_div_bounds(x, r);
    let t = x / r;
    assert(t < tot) by (nonlinear_arith)
        requires
            t * r <= x,
            x < tot * r,
            0 < r,
    ;
}

/// The slot that holds the target of a value is the slot whose narrowed
/// range holds the value.
pub proof fn lemma_target_slot(low: int, high: int, value: int, c_lo: int, c_hi: int, tot: int)
    requires
        in_range(low, high),
        low <= value < high,
        0 <= c_lo < c_hi <= tot,
        c_lo <= target(low, high, value, tot) < c_hi,
    ensures
        narrowed(low, high, c_lo, tot) <= value < narrowed(low, high, c_hi, tot),
{
    let r = high - low;
    let d = value - low + 1;
    let x = d * tot - 1;
    lemma_mul_le(tot, 1, d);
    assert(d * tot == tot * d) by (nonlinear_arith);
    lemma_div_bounds(x, r);
    let t = x / r;
    lemma_mul_le(r, 0, c_lo);
    lemma_mul_le(r, 0, c_hi);
    lemma_div_bounds(r * c_lo, tot);
    lemma_div_bounds(r * c_hi, tot);
    let a = r * c_lo / tot;
    let b = r * c_hi / tot;
    lemma_mul_le(r, c_lo, t);
    lemma_mul_le(r, t + 1, c_hi);
    assert(r * (t + 1) == r * t + r) by (nonlinear_arith);
    assert(r * t == t * r) by (nonlinear_arith);
    assert(a < d) by (nonlinear_arith)
        requires
            a * tot <= r * c_lo,
            r * c_lo <= d * tot - 1,
            0 < tot,
    ;
    assert(b >= d) by (nonlinear_arith)
        requires
            r * c_hi < b * tot + tot,
            d * tot - 1 < r * c_hi,
            0 < tot,
    ;
}

} // verus!
