//! Why the decoder finds what the encoder wrote: the value that the
//! decoder holds always lies in the range that the encoder had when it
//! wrote the bits that the value is made of.

use vstd::prelude::*;
use crate::bitstream::{bits_of, stream_bit};
use crate::coder::{
    emitted, in_range, lemma_narrowed, lemma_span, lemma_target_slot, narrowed, rescanned,
    scaled, settled, span, step_base, target, window,
};
use crate::format::{
    code_all, code_char, code_position, code_token, copied, encoded_bits, encodes, end_bits,
    expand, extended, frames, lemma_code_all_ok, lemma_code_char_ok, lemma_code_position_ok,
    lemma_prefix, length_code, length_prefix, state_ok, stated_len, token_ok, tokens_ok,
    CoderState, Token,
};
use crate::model::{lemma_cum_falls, lemma_position_cum_falls, position_cum, ModelView};
use crate::params::{N_CHAR, Q1, Q2, Q4, RING_BUF_SIZE};

verus! {

/// Bit `i` of the stream as a number.
pub open spec fn bit_value(src: Seq<u8>, i: int) -> int {
    if stream_bit(src, i) {
        1
    } else {
        0
    }
}

/// The stream holds `bits` from bit `e` on.
pub open spec fn carries(src: Seq<u8>, e: int, bits: Seq<bool>) -> bool {
    forall|i: int| 0 <= i < bits.len() ==> #[trigger] bits[i] == stream_bit(src, e + i)
}

/// Bit `e + i` of the stream is the complement of bit `e`.
pub open spec fn flipped(src: Seq<u8>, e: int, i: int) -> bool {
    stream_bit(src, e + i) == !stream_bit(src, e)
}

/// The `k` bits after bit `e` are all the complement of bit `e`: they are
/// the pending bits of an encoder that has not yet written bit `e`.
pub open spec fn held(src: Seq<u8>, e: int, k: int) -> bool {
    forall|i: int| 1 <= i <= k ==> #[trigger] flipped(src, e, i)
}

/// The value of a decoder whose encoder is about to write bit `e` and
/// holds `k` pending bits: bit `e`, and the sixteen bits that follow the
/// pending ones.
pub open spec fn lead(src: Seq<u8>, e: int, k: int) -> int {
    bit_value(src, e) * Q2 + window(src, e + 1 + k, 16)
}

/// The decoder's value lies in the encoder's range.
pub open spec fn aimed(src: Seq<u8>, e: int, k: int, low: int, high: int) -> bool {
    held(src, e, k) && low <= lead(src, e, k) < high
}

/// A window begins with its first bit, and is a number of as many bits as
/// it is long.
pub proof fn lemma_window_front(src: Seq<u8>, p: int, n: int)
    requires
        1 <= n,
    ensures
        window(src, p, n) == bit_value(src, p) * span(n - 1) + window(src, p + 1, n - 1),
        0 <= window(src, p, n) < span(n),
        0 <= window(src, p + 1, n - 1) < span(n - 1),
    decreases n,
{
    let b = bit_value(src, p);
    if n == 1 {
        assert(window(src, p, 0) == 0);
        assert(window(src, p + 1, 0) == 0);
        assert(span(0) == 1);
        assert(span(1) == 2);
        assert(b * span(0) == b) by (nonlinear_arith)
            requires
                span(0) == 1,
        ;
    } else {
        lemma_window_front(src, p, n - 1);
        lemma_window_front(src, p + 1, n - 1);
        let t = span(n - 2);
        assert(span(n) == 2 * span(n - 1));
        assert(span(n - 1) == 2 * t);
        assert(window(src, p, n) == 2 * window(src, p, n - 1) + bit_value(src, p + n - 1));
        assert(window(src, p + 1, n - 1) == 2 * window(src, p + 1, n - 2) + bit_value(
            src,
            p + 1 + (n - 1) - 1,
        ));
        assert(b * (2 * t) == 2 * (b * t)) by (nonlinear_arith);
    }
}

/// The first value of the decoder is the lead at its starting place.
pub proof fn lemma_first_lead(src: Seq<u8>, e: int)
    ensures
        window(src, e, 17) == lead(src, e, 0),
        0 <= lead(src, e, 0) < Q4,
{
    lemma_span(17);
    lemma_window_front(src, e, 17);
}

/// A step that writes bit `e` and its pending bits moves the lead as the
/// decoder moves its value.
proof fn lemma_lead_emit(src: Seq<u8>, e: int, k: int)
    requires
        0 <= k,
    ensures
        2 * (lead(src, e, k) - bit_value(src, e) * Q2) + bit_value(src, e + k + 17) == lead(
            src,
            e + 1 + k,
            0,
        ),
{
    lemma_span(17);
    let f = e + 1 + k;
    lemma_window_front(src, f, 17);
    assert(window(src, f, 17) == 2 * window(src, f, 16) + bit_value(src, f + 17 - 1));
}

/// A step that adds a pending bit moves the lead as the decoder moves its
/// value.
proof fn lemma_lead_shift(src: Seq<u8>, e: int, k: int)
    requires
        0 <= k,
        flipped(src, e, k + 1),
    ensures
        2 * (lead(src, e, k) - Q1) + bit_value(src, e + k + 17) == lead(src, e, k + 1),
{
    lemma_span(17);
    let f = e + 1 + k;
    lemma_window_front(src, f, 16);
    assert(window(src, f + 1, 16) == 2 * window(src, f + 1, 15) + bit_value(
        src,
        f + 1 + 16 - 1,
    ));
    if stream_bit(src, e) {
    } else {
    }
}

/// If the value is aimed where scaling ends, it was aimed where scaling
/// began, and the decoder's scaling leads it from the one lead to the
/// other.
#[verifier::rlimit(40)]
pub proof fn lemma_scaling(src: Seq<u8>, e: int, low: int, high: int, k: int)
    requires
        in_range(low, high),
        0 <= k,
        carries(src, e, scaled(low, high, k).bits),
        aimed(
            src,
            e + scaled(low, high, k).bits.len(),
            scaled(low, high, k).shifts,
            scaled(low, high, k).low,
            scaled(low, high, k).high,
        ),
    ensures
        aimed(src, e, k, low, high),
        ({
            let s = scaled(low, high, k);
            let r = rescanned(low, high, lead(src, e, k), src, e + k + 17);
            &&& r.low == s.low
            &&& r.high == s.high
            &&& r.value == lead(src, e + s.bits.len(), s.shifts)
            &&& r.pos == e + s.bits.len() + s.shifts + 17
        }),
    decreases Q4 - (high - low),
{
    if !settled(low, high) {
        let base = step_base(low, high);
        let l2 = 2 * (low - base);
        let h2 = 2 * (high - base);
        let s = scaled(low, high, k);
        if base == Q1 {
            assert(s == scaled(l2, h2, k + 1));
            lemma_scaling(src, e, l2, h2, k + 1);
            assert(flipped(src, e, k + 1));
            lemma_lead_shift(src, e, k);
            assert forall|i: int| 1 <= i <= k implies #[trigger] flipped(src, e, i) by {
            }
        } else {
            let b = base == Q2;
            let rest = scaled(l2, h2, 0);
            let head = emitted(b, k);
            assert(s.bits == head + rest.bits);
            assert(head.len() == 1 + k);
            assert((head + rest.bits)[0] == b);
            assert(stream_bit(src, e + 0) == b);
            assert forall|i: int| 1 <= i <= k implies #[trigger] flipped(src, e, i) by {
                assert((head + rest.bits)[i] == !b);
                assert(s.bits[i] == stream_bit(src, e + i));
            }
            assert forall|i: int| 0 <= i < rest.bits.len() implies #[trigger] rest.bits[i]
                == stream_bit(src, e + 1 + k + i) by {
                let j = 1 + k + i;
                assert((head + rest.bits)[j] == rest.bits[i]);
                assert(s.bits[j] == stream_bit(src, e + j));
            }
            assert(s.bits.len() == 1 + k + rest.bits.len());
            lemma_scaling(src, e + 1 + k, l2, h2, 0);
            lemma_lead_emit(src, e, k);
        }
    }
}

/// The bits that end the stream aim the value into the last range.
pub proof fn lemma_end(src: Seq<u8>, e: int, low: int, high: int, k: int)
    requires
        in_range(low, high),
        settled(low, high),
        0 <= k,
        carries(src, e, emitted(low >= Q1, k + 1)),
    ensures
        aimed(src, e, k, low, high),
{
    lemma_span(17);
    let b = low >= Q1;
    let bits = emitted(b, k + 1);
    assert(bits[0] == stream_bit(src, e + 0));
    assert forall|i: int| 1 <= i <= k implies #[trigger] flipped(src, e, i) by {
        assert(bits[i] == stream_bit(src, e + i));
    }
    assert(bits[k + 1] == stream_bit(src, e + (k + 1)));
    lemma_window_front(src, e + 1 + k, 16);
}

/// A stream that carries two runs of bits, one after the other, carries
/// each of them.
pub proof fn lemma_carries_parts(src: Seq<u8>, e: int, a: Seq<bool>, b: Seq<bool>)
    requires
        carries(src, e, a + b),
    ensures
        carries(src, e, a),
        carries(src, e + a.len(), b),
{
    let whole = a + b;
    assert forall|i: int| 0 <= i < a.len() implies #[trigger] a[i] == stream_bit(src, e + i) by {
        assert(whole[i] == a[i]);
    }
    assert forall|i: int| 0 <= i < b.len() implies #[trigger] b[i] == stream_bit(
        src,
        e + a.len() + i,
    ) by {
        let j = a.len() + i;
        assert(whole[j] == b[i]);
        assert(whole[j] == stream_bit(src, e + j));
    }
}

/// The first `n + 1` tokens are the first `n` tokens and one more.
pub proof fn lemma_take_step(tokens: Seq<Token>, n: int)
    requires
        0 <= n < tokens.len(),
    ensures
        code_all(tokens.take(n + 1)).state == code_token(
            code_all(tokens.take(n)).state,
            tokens[n],
        ).state,
        code_all(tokens.take(n + 1)).bits == code_all(tokens.take(n)).bits + code_token(
            code_all(tokens.take(n)).state,
            tokens[n],
        ).bits,
        expand(tokens.take(n + 1)) == extended(expand(tokens.take(n)), tokens[n]),
{
    let more = tokens.take(n + 1);
    assert(more.drop_last() =~= tokens.take(n));
    assert(more.last() == tokens[n]);
}

/// The first tokens of good tokens are good.
pub proof fn lemma_take_ok(tokens: Seq<Token>, n: int)
    requires
        tokens_ok(tokens),
        0 <= n <= tokens.len(),
    ensures
        tokens_ok(tokens.take(n)),
        state_ok(code_all(tokens.take(n)).state),
{
    let part = tokens.take(n);
    assert forall|i: int| 0 <= i < part.len() implies token_ok(#[trigger] part[i]) by {
        assert(part[i] == tokens[i]);
    }
    lemma_code_all_ok(part);
}

/// The bits of the first `n` tokens are the first bits of all the tokens.
pub proof fn lemma_bits_prefix(tokens: Seq<Token>, n: int, m: int)
    requires
        0 <= n <= m <= tokens.len(),
    ensures
        code_all(tokens.take(n)).bits.len() <= code_all(tokens.take(m)).bits.len(),
        code_all(tokens.take(m)).bits.take(code_all(tokens.take(n)).bits.len() as int)
            == code_all(tokens.take(n)).bits,
    decreases m - n,
{
    let a = code_all(tokens.take(n)).bits;
    if n < m {
        lemma_bits_prefix(tokens, n, m - 1);
        lemma_take_step(tokens, m - 1);
        let b = code_all(tokens.take(m - 1)).bits;
        let c = code_all(tokens.take(m)).bits;
        assert(c.take(a.len() as int) =~= b.take(a.len() as int));
    } else {
        assert(a.take(a.len() as int) =~= a);
    }
}

/// The stream carries, after the bits of the first `n` tokens, the bits
/// of all that follows.
pub proof fn lemma_carries_rest(src: Seq<u8>, start: int, tokens: Seq<Token>, n: int)
    requires
        0 <= n <= tokens.len(),
        carries(src, start, encoded_bits(tokens)),
    ensures
        n < tokens.len() ==> carries(
            src,
            start + code_all(tokens.take(n)).bits.len(),
            code_token(code_all(tokens.take(n)).state, tokens[n]).bits,
        ),
        n == tokens.len() ==> carries(
            src,
            start + code_all(tokens.take(n)).bits.len(),
            end_bits(code_all(tokens.take(n)).state),
        ),
{
    let all = code_all(tokens).bits;
    assert(tokens.take(tokens.len() as int) =~= tokens);
    lemma_carries_parts(src, start, all, end_bits(code_all(tokens).state));
    if n < tokens.len() {
        lemma_bits_prefix(tokens, n + 1, tokens.len() as int);
        lemma_take_step(tokens, n);
        let a = code_all(tokens.take(n)).bits;
        let t = code_token(code_all(tokens.take(n)).state, tokens[n]).bits;
        let ab = code_all(tokens.take(n + 1)).bits;
        assert forall|i: int| 0 <= i < ab.len() implies #[trigger] ab[i] == stream_bit(
            src,
            start + i,
        ) by {
            assert(all.take(ab.len() as int)[i] == all[i]);
            assert(all[i] == stream_bit(src, start + i));
        }
        lemma_carries_parts(src, start, a, t);
    }
}

/// What the decoder finds when the encoder coded a slot: the value lies
/// in the narrowed range, and scaling leads it to the next lead.
pub open spec fn slot_found(
    src: Seq<u8>,
    e: int,
    k: int,
    low: int,
    high: int,
    c_lo: int,
    c_hi: int,
    tot: int,
) -> bool {
    let l1 = narrowed(low, high, c_lo, tot);
    let h1 = narrowed(low, high, c_hi, tot);
    let s = scaled(l1, h1, k);
    let r = rescanned(l1, h1, lead(src, e, k), src, e + k + 17);
    &&& aimed(src, e, k, low, high)
    &&& l1 <= lead(src, e, k) < h1
    &&& r.low == s.low
    &&& r.high == s.high
    &&& r.value == lead(src, e + s.bits.len(), s.shifts)
    &&& r.pos == e + s.bits.len() + s.shifts + 17
}

/// The decoder finds the character that the encoder coded.
pub proof fn lemma_char_step(src: Seq<u8>, e: int, st: CoderState, ch: int)
    requires
        state_ok(st),
        0 <= ch < N_CHAR,
        carries(src, e, code_char(st, ch).bits),
        aimed(
            src,
            e + code_char(st, ch).bits.len(),
            code_char(st, ch).state.shifts,
            code_char(st, ch).state.low,
            code_char(st, ch).state.high,
        ),
    ensures
        slot_found(
            src,
            e,
            st.shifts,
            st.low,
            st.high,
            st.model.cum[st.model.ranks[ch]],
            st.model.cum[st.model.ranks[ch] - 1],
            st.model.cum[0],
        ),
{
    let m = st.model;
    let sym = m.ranks[ch];
    lemma_code_char_ok(st, ch);
    let l1 = narrowed(st.low, st.high, m.cum[sym], m.cum[0]);
    let h1 = narrowed(st.low, st.high, m.cum[sym - 1], m.cum[0]);
    lemma_narrowed(st.low, st.high, m.cum[sym], m.cum[sym - 1], m.cum[0]);
    lemma_scaling(src, e, l1, h1, st.shifts);
}

/// The decoder finds the position that the encoder coded.
pub proof fn lemma_position_step(src: Seq<u8>, e: int, st: CoderState, pos: int)
    requires
        state_ok(st),
        0 <= pos < RING_BUF_SIZE,
        carries(src, e, code_position(st, pos).bits),
        aimed(
            src,
            e + code_position(st, pos).bits.len(),
            code_position(st, pos).state.shifts,
            code_position(st, pos).state.low,
            code_position(st, pos).state.high,
        ),
    ensures
        slot_found(
            src,
            e,
            st.shifts,
            st.low,
            st.high,
            position_cum(pos + 1),
            position_cum(pos),
            position_cum(0),
        ),
{
    lemma_code_position_ok(st, pos);
    let l1 = narrowed(st.low, st.high, position_cum(pos + 1), position_cum(0));
    let h1 = narrowed(st.low, st.high, position_cum(pos), position_cum(0));
    lemma_narrowed(st.low, st.high, position_cum(pos + 1), position_cum(pos), position_cum(0));
    lemma_scaling(src, e, l1, h1, st.shifts);
}

/// The character that a token begins with.
pub open spec fn first_char(t: Token) -> int {
    match t {
        Token::Literal { byte } => byte as int,
        Token::Copy { back, len } => length_code(len),
    }
}

/// Between the two symbols of a copy, and before every token, the value
/// of the decoder is aimed into the range of the encoder.
#[verifier::rlimit(40)]
pub proof fn lemma_aimed(src: Seq<u8>, start: int, tokens: Seq<Token>, n: int)
    requires
        tokens_ok(tokens),
        0 <= n <= tokens.len(),
        carries(src, start, encoded_bits(tokens)),
    ensures
        ({
            let c = code_all(tokens.take(n));
            aimed(src, start + c.bits.len(), c.state.shifts, c.state.low, c.state.high)
        }),
        n < tokens.len() ==> ({
            let c = code_all(tokens.take(n));
            let a = code_char(c.state, first_char(tokens[n]));
            aimed(
                src,
                start + c.bits.len() + a.bits.len(),
                a.state.shifts,
                a.state.low,
                a.state.high,
            )
        }),
    decreases tokens.len() - n,
{
    let c = code_all(tokens.take(n));
    let e = start + c.bits.len();
    lemma_take_ok(tokens, n);
    lemma_carries_rest(src, start, tokens, n);
    if n == tokens.len() {
        lemma_end(src, e, c.state.low, c.state.high, c.state.shifts);
    } else {
        lemma_aimed(src, start, tokens, n + 1);
        lemma_take_step(tokens, n);
        let t = tokens[n];
        assert(token_ok(t));
        match t {
            Token::Literal { byte } => {
                lemma_char_step(src, e, c.state, byte as int);
            },
            Token::Copy { back, len } => {
                let a = code_char(c.state, length_code(len));
                let b = code_position(a.state, back - 1);
                lemma_code_char_ok(c.state, length_code(len));
                lemma_carries_parts(src, e, a.bits, b.bits);
                assert(e + a.bits.len() + b.bits.len() == start + code_all(
                    tokens.take(n + 1),
                ).bits.len());
                lemma_position_step(src, e + a.bits.len(), a.state, back - 1);
                lemma_char_step(src, e, c.state, length_code(len));
            },
        }
    }
}

proof fn lemma_div_ordered(x: int, y: int, d: int)
    by (nonlinear_arith)
    requires
        0 <= x <= y,
        0 < d,
    ensures
        x / d <= y / d,
{
}

proof fn lemma_mul_ordered(r: int, a: int, b: int)
    by (nonlinear_arith)
    requires
        0 <= r,
        0 <= a <= b,
    ensures
        0 <= r * a <= r * b,
{
}

/// A greater count is narrowed to a bound that is no lower.
pub proof fn lemma_narrowed_ordered(low: int, high: int, c1: int, c2: int, tot: int)
    requires
        low <= high,
        0 <= c1 <= c2,
        0 < tot,
    ensures
        narrowed(low, high, c1, tot) <= narrowed(low, high, c2, tot),
{
    lemma_mul_ordered(high - low, c1, c2);
    lemma_div_ordered((high - low) * c1, (high - low) * c2, tot);
}

/// Two ranks whose narrowed ranges hold the same value are one rank.
pub proof fn lemma_same_symbol(m: ModelView, low: int, high: int, value: int, s1: int, s2: int)
    requires
        m.wf(),
        low <= high,
        1 <= s1 <= N_CHAR,
        1 <= s2 <= N_CHAR,
        narrowed(low, high, m.cum[s1], m.cum[0]) <= value < narrowed(
            low,
            high,
            m.cum[s1 - 1],
            m.cum[0],
        ),
        narrowed(low, high, m.cum[s2], m.cum[0]) <= value < narrowed(
            low,
            high,
            m.cum[s2 - 1],
            m.cum[0],
        ),
    ensures
        s1 == s2,
{
    lemma_cum_falls(m, 0, N_CHAR as int);
    lemma_cum_falls(m, s1 - 1, N_CHAR as int);
    lemma_cum_falls(m, s2 - 1, N_CHAR as int);
    if s1 < s2 {
        lemma_cum_falls(m, s1, s2 - 1);
        lemma_narrowed_ordered(low, high, m.cum[s2 - 1], m.cum[s1], m.cum[0]);
    } else if s2 < s1 {
        lemma_cum_falls(m, s2, s1 - 1);
        lemma_narrowed_ordered(low, high, m.cum[s1 - 1], m.cum[s2], m.cum[0]);
    }
}

/// Two positions whose narrowed ranges hold the same value are one
/// position.
pub proof fn lemma_same_position(low: int, high: int, value: int, a: int, b: int)
    requires
        low <= high,
        0 <= a < RING_BUF_SIZE,
        0 <= b < RING_BUF_SIZE,
        narrowed(low, high, position_cum(a + 1), position_cum(0)) <= value < narrowed(
            low,
            high,
            position_cum(a),
            position_cum(0),
        ),
        narrowed(low, high, position_cum(b + 1), position_cum(0)) <= value < narrowed(
            low,
            high,
            position_cum(b),
            position_cum(0),
        ),
    ensures
        a == b,
{
    crate::model::lemma_position_total();
    lemma_position_cum_falls(a + 1, RING_BUF_SIZE as int);
    lemma_position_cum_falls(b + 1, RING_BUF_SIZE as int);
    if a < b {
        lemma_position_cum_falls(a + 1, b);
        lemma_narrowed_ordered(low, high, position_cum(b), position_cum(a + 1), position_cum(0));
    } else if b < a {
        lemma_position_cum_falls(b + 1, a);
        lemma_narrowed_ordered(low, high, position_cum(a), position_cum(b + 1), position_cum(0));
    }
}

/// The bits of a stream for `tokens` begin after the four bytes of the
/// length, and none of them is cut off.
pub proof fn lemma_frames_carries(bytes: Seq<u8>, tokens: Seq<Token>)
    requires
        frames(bytes, tokens),
        tokens_ok(tokens),
    ensures
        carries(bytes, 32, encoded_bits(tokens)),
        bytes.len() >= 5,
        stated_len(bytes) == expand(tokens).len(),
        expand(tokens).len() <= u32::MAX,
{
    let head = bits_of(length_prefix(expand(tokens).len() as int));
    let enc = encoded_bits(tokens);
    let all = head + enc + Seq::new(7, |i: int| false);
    assert(head.len() == 32);
    assert(encodes(bytes, expand(tokens)));
    lemma_prefix(bytes, expand(tokens));
    assert forall|i: int| 0 <= i < enc.len() implies #[trigger] enc[i] == stream_bit(
        bytes,
        32 + i,
    ) by {
        let j = 32 + i;
        assert(all[j] == enc[i]);
        assert(j < 8 * bytes.len());
        assert(bits_of(bytes)[j] == all.take(8 * bytes.len() as int)[j]);
    }
}

/// Copying adds as many bytes as are copied and leaves the text before
/// them as it was.
pub proof fn lemma_copied_len(text: Seq<u8>, back: int, n: int)
    requires
        0 <= n,
    ensures
        copied(text, back, n).len() == text.len() + n,
        copied(text, back, n).take(text.len() as int) == text,
    decreases n,
{
    if n > 0 {
        lemma_copied_len(text, back, n - 1);
        let t = copied(text, back, n - 1);
        assert(copied(text, back, n).take(text.len() as int) =~= t.take(text.len() as int));
    } else {
        assert(text.take(text.len() as int) =~= text);
    }
}

/// The text of the first `n` tokens is the beginning of the text of the
/// first `m`, and shorter by at least a byte for each token between.
pub proof fn lemma_expand_prefix(tokens: Seq<Token>, n: int, m: int)
    requires
        tokens_ok(tokens),
        0 <= n <= m <= tokens.len(),
    ensures
        expand(tokens.take(n)).len() + (m - n) <= expand(tokens.take(m)).len(),
        expand(tokens.take(m)).take(expand(tokens.take(n)).len() as int) == expand(
            tokens.take(n),
        ),
    decreases m - n,
{
    let a = expand(tokens.take(n));
    if n < m {
        lemma_expand_prefix(tokens, n, m - 1);
        lemma_take_step(tokens, m - 1);
        let b = expand(tokens.take(m - 1));
        let c = expand(tokens.take(m));
        assert(token_ok(tokens[m - 1]));
        match tokens[m - 1] {
            Token::Literal { byte } => {
                assert(c.take(b.len() as int) =~= b);
            },
            Token::Copy { back, len } => {
                lemma_copied_len(b, back, len);
            },
        }
        assert(c.take(a.len() as int) =~= c.take(b.len() as int).take(a.len() as int));
    } else {
        assert(a.take(a.len() as int) =~= a);
    }
}

/// The decoder is where the encoder was before token `n`: it has the
/// encoder's range and model, its value is the lead at the bit that the
/// encoder wrote next, and it has read seventeen bits and the pending
/// bits beyond that bit.
pub open spec fn synced(
    src: Seq<u8>,
    start: int,
    tokens: Seq<Token>,
    n: int,
    model: ModelView,
    low: int,
    high: int,
    value: int,
    pos: int,
) -> bool {
    let c = code_all(tokens.take(n));
    &&& model == c.state.model
    &&& low == c.state.low
    &&& high == c.state.high
    &&& value == lead(src, start + c.bits.len(), c.state.shifts)
    &&& pos == start + c.bits.len() + c.state.shifts + 17
}

/// The same, between the two symbols of a copy.
pub open spec fn synced_inside(
    src: Seq<u8>,
    start: int,
    tokens: Seq<Token>,
    n: int,
    model: ModelView,
    low: int,
    high: int,
    value: int,
    pos: int,
) -> bool {
    let c = code_all(tokens.take(n));
    let a = code_char(c.state, first_char(tokens[n]));
    &&& model == a.state.model
    &&& low == a.state.low
    &&& high == a.state.high
    &&& value == lead(src, start + c.bits.len() + a.bits.len(), a.state.shifts)
    &&& pos == start + c.bits.len() + a.bits.len() + a.state.shifts + 17
}

/// A decoder in step with the encoder decodes the character that token
/// `n` begins with, whatever rank its search comes up with, and after
/// scaling it is in step again.
#[verifier::rlimit(40)]
pub proof fn lemma_decoded_char(
    src: Seq<u8>,
    start: int,
    tokens: Seq<Token>,
    n: int,
    model: ModelView,
    low: int,
    high: int,
    value: int,
    pos: int,
    ch: int,
)
    requires
        tokens_ok(tokens),
        0 <= n < tokens.len(),
        carries(src, start, encoded_bits(tokens)),
        synced(src, start, tokens, n, model, low, high, value, pos),
        0 <= ch < N_CHAR,
        model.cum[model.ranks[ch]] <= target(low, high, value, model.cum[0]) < model.cum[model.ranks[ch]
            - 1],
    ensures
        ch == first_char(tokens[n]),
        ({
            let sym = model.ranks[ch];
            let r = rescanned(
                narrowed(low, high, model.cum[sym], model.cum[0]),
                narrowed(low, high, model.cum[sym - 1], model.cum[0]),
                value,
                src,
                pos,
            );
            &&& tokens[n] is Literal ==> synced(
                src,
                start,
                tokens,
                n + 1,
                model.updated(sym),
                r.low,
                r.high,
                r.value,
                r.pos,
            )
            &&& tokens[n] is Copy ==> synced_inside(
                src,
                start,
                tokens,
                n,
                model.updated(sym),
                r.low,
                r.high,
                r.value,
                r.pos,
            )
        }),
{
    let c = code_all(tokens.take(n));
    let e = start + c.bits.len();
    let st = c.state;
    let want = first_char(tokens[n]);
    assert(token_ok(tokens[n]));
    lemma_take_ok(tokens, n);
    lemma_take_step(tokens, n);
    lemma_carries_rest(src, start, tokens, n);
    lemma_aimed(src, start, tokens, n);
    let a = code_char(st, want);
    match tokens[n] {
        Token::Literal { byte } => {
        },
        Token::Copy { back, len } => {
            let b = code_position(a.state, back - 1);
            lemma_carries_parts(src, e, a.bits, b.bits);
        },
    }
    lemma_char_step(src, e, st, want);
    let sym = model.ranks[ch];
    let s2 = model.ranks[want];
    assert(1 <= sym <= N_CHAR);
    assert(1 <= s2 <= N_CHAR);
    lemma_cum_falls(model, sym - 1, sym);
    lemma_cum_falls(model, 0, sym - 1);
    lemma_cum_falls(model, sym, N_CHAR as int);
    lemma_target_slot(low, high, value, model.cum[sym], model.cum[sym - 1], model.cum[0]);
    lemma_same_symbol(model, low, high, value, sym, s2);
    assert((model.ranks[ch] == sym) <==> (model.chars[sym] == ch));
    assert((model.ranks[want] == sym) <==> (model.chars[sym] == want));
}

/// A decoder in step with the encoder, between the two symbols of a
/// copy, decodes the distance of the copy, less one, and after scaling it
/// is in step again.
#[verifier::rlimit(40)]
pub proof fn lemma_decoded_position(
    src: Seq<u8>,
    start: int,
    tokens: Seq<Token>,
    n: int,
    model: ModelView,
    low: int,
    high: int,
    value: int,
    pos: int,
    found: int,
)
    requires
        tokens_ok(tokens),
        0 <= n < tokens.len(),
        tokens[n] is Copy,
        carries(src, start, encoded_bits(tokens)),
        synced_inside(src, start, tokens, n, model, low, high, value, pos),
        0 <= found < RING_BUF_SIZE,
        position_cum(found + 1) <= target(low, high, value, position_cum(0)) < position_cum(
            found,
        ),
    ensures
        tokens[n] == (Token::Copy { back: found + 1, len: tokens[n]->len }),
        ({
            let r = rescanned(
                narrowed(low, high, position_cum(found + 1), position_cum(0)),
                narrowed(low, high, position_cum(found), position_cum(0)),
                value,
                src,
                pos,
            );
            synced(src, start, tokens, n + 1, model, r.low, r.high, r.value, r.pos)
        }),
{
    let c = code_all(tokens.take(n));
    let e = start + c.bits.len();
    assert(token_ok(tokens[n]));
    lemma_take_ok(tokens, n);
    lemma_take_step(tokens, n);
    lemma_carries_rest(src, start, tokens, n);
    lemma_aimed(src, start, tokens, n + 1);
    match tokens[n] {
        Token::Literal { byte } => {
        },
        Token::Copy { back, len } => {
            let a = code_char(c.state, length_code(len));
            let b = code_position(a.state, back - 1);
            lemma_code_char_ok(c.state, length_code(len));
            lemma_carries_parts(src, e, a.bits, b.bits);
            assert(e + a.bits.len() + b.bits.len() == start + code_all(
                tokens.take(n + 1),
            ).bits.len());
            lemma_position_step(src, e + a.bits.len(), a.state, back - 1);
            lemma_position_cum_falls(found, found + 1);
            lemma_position_cum_falls(0, found);
            lemma_position_cum_falls(found + 1, RING_BUF_SIZE as int);
            lemma_target_slot(
                low,
                high,
                value,
                position_cum(found + 1),
                position_cum(found),
                position_cum(0),
            );
            lemma_same_position(low, high, value, found, back - 1);
        },
    }
}

/// Two sequences of tokens that one stream carries begin alike.
#[verifier::rlimit(40)]
pub proof fn lemma_same_tokens(
    src: Seq<u8>,
    start: int,
    t1: Seq<Token>,
    t2: Seq<Token>,
    n: int,
)
    requires
        tokens_ok(t1),
        tokens_ok(t2),
        carries(src, start, encoded_bits(t1)),
        carries(src, start, encoded_bits(t2)),
        0 <= n <= t1.len(),
        n <= t2.len(),
    ensures
        t1.take(n) == t2.take(n),
    decreases n,
{
    if n > 0 {
        let m = n - 1;
        lemma_same_tokens(src, start, t1, t2, m);
        let c = code_all(t1.take(m));
        let st = c.state;
        let e = start + c.bits.len();
        let v = lead(src, e, st.shifts);
        lemma_take_ok(t1, m);
        assert(token_ok(t1[m]));
        assert(token_ok(t2[m]));
        let ch1 = first_char(t1[m]);
        let ch2 = first_char(t2[m]);
        lemma_first_symbol(src, start, t1, m);
        lemma_first_symbol(src, start, t2, m);
        let s1 = st.model.ranks[ch1];
        let s2 = st.model.ranks[ch2];
        assert(1 <= s1 <= N_CHAR);
        assert(1 <= s2 <= N_CHAR);
        lemma_same_symbol(st.model, st.low, st.high, v, s1, s2);
        assert((st.model.ranks[ch1] == s1) <==> (st.model.chars[s1] == ch1));
        assert((st.model.ranks[ch2] == s1) <==> (st.model.chars[s1] == ch2));
        assert(ch1 == ch2);
        match t1[m] {
            Token::Literal { byte } => {
                assert(t1[m] == t2[m]);
            },
            Token::Copy { back, len } => {
                lemma_second_symbol(src, start, t1, m);
                lemma_second_symbol(src, start, t2, m);
                let a = code_char(st, ch1);
                let f = e + a.bits.len();
                lemma_code_char_ok(st, ch1);
                lemma_same_position(
                    a.state.low,
                    a.state.high,
                    lead(src, f, a.state.shifts),
                    back - 1,
                    t2[m]->back - 1,
                );
                assert(t1[m] == t2[m]);
            },
        }
        assert(t1.take(n) =~= t1.take(m).push(t1[m]));
        assert(t2.take(n) =~= t2.take(m).push(t2[m]));
    } else {
        assert(t1.take(0) =~= t2.take(0));
    }
}

/// The lead before token `n` lies in the range of its first character.
proof fn lemma_first_symbol(src: Seq<u8>, start: int, tokens: Seq<Token>, n: int)
    requires
        tokens_ok(tokens),
        0 <= n < tokens.len(),
        carries(src, start, encoded_bits(tokens)),
    ensures
        ({
            let c = code_all(tokens.take(n));
            let m = c.state.model;
            let sym = m.ranks[first_char(tokens[n])];
            let v = lead(src, start + c.bits.len(), c.state.shifts);
            narrowed(c.state.low, c.state.high, m.cum[sym], m.cum[0]) <= v < narrowed(
                c.state.low,
                c.state.high,
                m.cum[sym - 1],
                m.cum[0],
            )
        }),
{
    let c = code_all(tokens.take(n));
    let e = start + c.bits.len();
    assert(token_ok(tokens[n]));
    lemma_take_ok(tokens, n);
    lemma_take_step(tokens, n);
    lemma_carries_rest(src, start, tokens, n);
    lemma_aimed(src, start, tokens, n);
    let a = code_char(c.state, first_char(tokens[n]));
    match tokens[n] {
        Token::Literal { byte } => {
        },
        Token::Copy { back, len } => {
            let b = code_position(a.state, back - 1);
            lemma_carries_parts(src, e, a.bits, b.bits);
        },
    }
    lemma_char_step(src, e, c.state, first_char(tokens[n]));
}

/// The lead inside the copy that is token `n` lies in the range of its
/// position.
proof fn lemma_second_symbol(src: Seq<u8>, start: int, tokens: Seq<Token>, n: int)
    requires
        tokens_ok(tokens),
        0 <= n < tokens.len(),
        tokens[n] is Copy,
        carries(src, start, encoded_bits(tokens)),
    ensures
        ({
            let c = code_all(tokens.take(n));
            let a = code_char(c.state, first_char(tokens[n]));
            let p = tokens[n]->back - 1;
            let v = lead(src, start + c.bits.len() + a.bits.len(), a.state.shifts);
            narrowed(a.state.low, a.state.high, position_cum(p + 1), position_cum(0)) <= v
                < narrowed(a.state.low, a.state.high, position_cum(p), position_cum(0))
        }),
{
    let c = code_all(tokens.take(n));
    let e = start + c.bits.len();
    assert(token_ok(tokens[n]));
    lemma_take_ok(tokens, n);
    lemma_take_step(tokens, n);
    lemma_carries_rest(src, start, tokens, n);
    lemma_aimed(src, start, tokens, n + 1);
    match tokens[n] {
        Token::Literal { byte } => {
        },
        Token::Copy { back, len } => {
            let a = code_char(c.state, length_code(len));
            let b = code_position(a.state, back - 1);
            lemma_code_char_ok(c.state, length_code(len));
            lemma_carries_parts(src, e, a.bits, b.bits);
            assert(e + a.bits.len() + b.bits.len() == start + code_all(
                tokens.take(n + 1),
            ).bits.len());
            lemma_position_step(src, e + a.bits.len(), a.state, back - 1);
        },
    }
}

/// A stream is a stream for one text only.
pub proof fn lemma_one_text(bytes: Seq<u8>, x: Seq<u8>, y: Seq<u8>)
    requires
        encodes(bytes, x),
        encodes(bytes, y),
    ensures
        x == y,
{
    let t1 = choose|tokens: Seq<Token>|
        #[trigger] frames(bytes, tokens) && tokens_ok(tokens) && expand(tokens) == x;
    let t2 = choose|tokens: Seq<Token>|
        #[trigger] frames(bytes, tokens) && tokens_ok(tokens) && expand(tokens) == y;
    lemma_frames_carries(bytes, t1);
    lemma_frames_carries(bytes, t2);
    let n = if t1.len() <= t2.len() { t1.len() as int } else { t2.len() as int };
    lemma_same_tokens(bytes, 32, t1, t2, n);
    lemma_expand_prefix(t1, n, t1.len() as int);
    lemma_expand_prefix(t2, n, t2.len() as int);
    assert(t1.take(t1.len() as int) =~= t1);
    assert(t2.take(t2.len() as int) =~= t2);
}

/// Round trip: what decodes a stream that encodes a text is that text.
///
/// `packed` stands for what the encoder returns for `text`, `unpacked`
/// for what the decoder returns for `packed`.
pub proof fn lemma_round_trip(text: Seq<u8>, packed: Seq<u8>, unpacked: Seq<u8>)
    requires
        encodes(packed, text),
        forall|t: Seq<u8>| encodes(packed, t) ==> unpacked == t,
    ensures
        unpacked == text,
{
}

} // verus!
