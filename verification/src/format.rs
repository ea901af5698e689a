//! The compressed stream, described as mathematics: the tokens that a
//! text is cut into, the text that tokens stand for, and the bits that
//! the arithmetic coder writes for them.

use vstd::prelude::*;
use crate::bitstream::bits_of;
use crate::coder::{emitted, in_range, lemma_narrowed, lemma_scaled, narrowed, scaled, settled};
use crate::model::{
    lemma_cum_falls, lemma_position_cum_falls, lemma_position_total, lemma_updated_wf,
    position_cum, ModelView,
};
use crate::params::{MAX_MATCH_LEN, N_CHAR, Q1, Q4, RING_BUF_SIZE, THRESHOLD};
use crate::window::{echo_at, history, repeats};

verus! {

/// One step of the compressed text: a byte as it is, or a copy of `len`
/// bytes that lie `back` places before the place where they are written.
pub enum Token {
    Literal { byte: u8 },
    Copy { back: int, len: int },
}

/// A copy is longer than the threshold, no longer than the longest match,
/// and reaches back no further than the window.
pub open spec fn token_ok(t: Token) -> bool {
    match t {
        Token::Literal { byte } => true,
        Token::Copy { back, len } => {
            &&& 1 <= back <= RING_BUF_SIZE - MAX_MATCH_LEN
            &&& THRESHOLD < len <= MAX_MATCH_LEN
        },
    }
}

/// Every token of the sequence is a good one.
pub open spec fn tokens_ok(tokens: Seq<Token>) -> bool {
    forall|i: int| 0 <= i < tokens.len() ==> token_ok(#[trigger] tokens[i])
}

/// The text after `n` more bytes were copied from `back` places before
/// its end, one by one.
pub open spec fn copied(text: Seq<u8>, back: int, n: int) -> Seq<u8>
    decreases n,
{
    if n <= 0 {
        text
    } else {
        let t = copied(text, back, n - 1);
        t.push(history(t, t.len() - back))
    }
}

/// The text with one more token written out.
pub open spec fn extended(text: Seq<u8>, t: Token) -> Seq<u8> {
    match t {
        Token::Literal { byte } => text.push(byte),
        Token::Copy { back, len } => copied(text, back, len),
    }
}

/// The text that a sequence of tokens stands for.
pub open spec fn expand(tokens: Seq<Token>) -> Seq<u8>
    decreases tokens.len(),
{
    if tokens.len() == 0 {
        Seq::empty()
    } else {
        extended(expand(tokens.drop_last()), tokens.last())
    }
}

/// The state that encoder and decoder share: the symbol model, the range
/// and the count of pending underflow bits.
pub struct CoderState {
    pub model: ModelView,
    pub low: int,
    pub high: int,
    pub shifts: int,
}

/// A state of the coder and the bits written to reach it.
pub struct Coded {
    pub state: CoderState,
    pub bits: Seq<bool>,
}

/// The state before any symbol was coded: the initial model and the
/// whole coding range.
pub open spec fn initial_state() -> CoderState {
    CoderState { model: ModelView::initial(), low: 0, high: Q4 as int, shifts: 0 }
}

/// Coding the character `ch` with the symbol model.
pub open spec fn code_char(st: CoderState, ch: int) -> Coded {
    let sym = st.model.ranks[ch];
    let s = scaled(
        narrowed(st.low, st.high, st.model.cum[sym], st.model.cum[0]),
        narrowed(st.low, st.high, st.model.cum[sym - 1], st.model.cum[0]),
        st.shifts,
    );
    Coded {
        state: CoderState {
            model: st.model.updated(sym),
            low: s.low,
            high: s.high,
            shifts: s.shifts,
        },
        bits: s.bits,
    }
}

/// Coding the match position `pos` with the position model.
pub open spec fn code_position(st: CoderState, pos: int) -> Coded {
    let s = scaled(
        narrowed(st.low, st.high, position_cum(pos + 1), position_cum(0)),
        narrowed(st.low, st.high, position_cum(pos), position_cum(0)),
        st.shifts,
    );
    Coded { state: CoderState { low: s.low, high: s.high, shifts: s.shifts, ..st }, bits: s.bits }
}

/// The character that stands for a copy of `len` bytes.
pub open spec fn length_code(len: int) -> int {
    255 - THRESHOLD + len
}

/// Coding one token: a literal is one character; a copy is the character
/// of its length and then its distance, less one, as a position.
pub open spec fn code_token(st: CoderState, t: Token) -> Coded {
    match t {
        Token::Literal { byte } => code_char(st, byte as int),
        Token::Copy { back, len } => {
            let a = code_char(st, length_code(len));
            let b = code_position(a.state, back - 1);
            Coded { state: b.state, bits: a.bits + b.bits }
        },
    }
}

/// Coding a sequence of tokens from the initial state.
pub open spec fn code_all(tokens: Seq<Token>) -> Coded
    decreases tokens.len(),
{
    if tokens.len() == 0 {
        Coded { state: initial_state(), bits: Seq::empty() }
    } else {
        let a = code_all(tokens.drop_last());
        let b = code_token(a.state, tokens.last());
        Coded { state: b.state, bits: a.bits + b.bits }
    }
}

/// The bits that end the stream: the quarter of the lower bound, then its
/// complement for every pending bit and once more.
pub open spec fn end_bits(st: CoderState) -> Seq<bool> {
    emitted(st.low >= Q1, st.shifts + 1)
}

/// All the bits that the coder writes for a sequence of tokens.
pub open spec fn encoded_bits(tokens: Seq<Token>) -> Seq<bool> {
    code_all(tokens).bits + end_bits(code_all(tokens).state)
}

/// The four bytes that state a length, lowest byte first.
pub open spec fn length_prefix(n: int) -> Seq<u8> {
    seq![
        (n % 256) as u8,
        (n / 256 % 256) as u8,
        (n / 65536 % 256) as u8,
        (n / 16777216 % 256) as u8,
    ]
}

/// The length that the first four bytes state.
pub open spec fn stated_len(bytes: Seq<u8>) -> int {
    bytes[0] + 256 * bytes[1] + 65536 * bytes[2] + 16777216 * bytes[3]
}

/// `bytes` is the stream for `tokens`: the length of their text, then
/// their bits, padded with seven zero bits and cut to whole bytes.
pub open spec fn frames(bytes: Seq<u8>, tokens: Seq<Token>) -> bool {
    let all = bits_of(length_prefix(expand(tokens).len() as int)) + encoded_bits(tokens)
        + Seq::new(7, |i: int| false);
    &&& expand(tokens).len() <= u32::MAX
    &&& bytes.len() == all.len() / 8
    &&& bits_of(bytes) == all.take(8 * bytes.len() as int)
}

/// `bytes` is a compressed stream for `text`.
pub open spec fn encodes(bytes: Seq<u8>, text: Seq<u8>) -> bool {
    exists|tokens: Seq<Token>|
        #[trigger] frames(bytes, tokens) && tokens_ok(tokens) && expand(tokens) == text
}

/// `bytes` is a compressed stream for some text.
pub open spec fn well_formed(bytes: Seq<u8>) -> bool {
    exists|text: Seq<u8>| encodes(bytes, text)
}

/// What holds of every state that the coder reaches between symbols.
pub open spec fn state_ok(st: CoderState) -> bool {
    &&& st.model.wf()
    &&& in_range(st.low, st.high)
    &&& settled(st.low, st.high)
    &&& 0 <= st.shifts
}

/// Coding a character leads from one good state to another.
pub proof fn lemma_code_char_ok(st: CoderState, ch: int)
    requires
        state_ok(st),
        0 <= ch < N_CHAR,
    ensures
        state_ok(code_char(st, ch).state),
        ({
            let sym = st.model.ranks[ch];
            &&& 1 <= sym <= N_CHAR
            &&& 0 <= st.model.cum[sym] < st.model.cum[sym - 1] <= st.model.cum[0] <= st.high
                - st.low
            &&& in_range(
                narrowed(st.low, st.high, st.model.cum[sym], st.model.cum[0]),
                narrowed(st.low, st.high, st.model.cum[sym - 1], st.model.cum[0]),
            )
        }),
{
    let m = st.model;
    let sym = m.ranks[ch];
    assert(1 <= sym <= N_CHAR);
    lemma_cum_falls(m, sym - 1, sym);
    lemma_cum_falls(m, 0, sym - 1);
    lemma_cum_falls(m, sym, N_CHAR as int);
    lemma_narrowed(st.low, st.high, m.cum[sym], m.cum[sym - 1], m.cum[0]);
    lemma_scaled(
        narrowed(st.low, st.high, m.cum[sym], m.cum[0]),
        narrowed(st.low, st.high, m.cum[sym - 1], m.cum[0]),
        st.shifts,
    );
    lemma_updated_wf(m, sym);
}

/// Coding a position leads from one good state to another.
pub proof fn lemma_code_position_ok(st: CoderState, pos: int)
    requires
        state_ok(st),
        0 <= pos < RING_BUF_SIZE,
    ensures
        state_ok(code_position(st, pos).state),
        0 <= position_cum(pos + 1) < position_cum(pos) <= position_cum(0) <= st.high - st.low,
        in_range(
            narrowed(st.low, st.high, position_cum(pos + 1), position_cum(0)),
            narrowed(st.low, st.high, position_cum(pos), position_cum(0)),
        ),
{
    lemma_position_cum_falls(pos, pos + 1);
    lemma_position_cum_falls(0, pos);
    lemma_position_total();
    lemma_narrowed(st.low, st.high, position_cum(pos + 1), position_cum(pos), position_cum(0));
    lemma_scaled(
        narrowed(st.low, st.high, position_cum(pos + 1), position_cum(0)),
        narrowed(st.low, st.high, position_cum(pos), position_cum(0)),
        st.shifts,
    );
}

/// Coding a token leads from one good state to another.
pub proof fn lemma_code_token_ok(st: CoderState, t: Token)
    requires
        state_ok(st),
        token_ok(t),
    ensures
        state_ok(code_token(st, t).state),
{
    match t {
        Token::Literal { byte } => {
            lemma_code_char_ok(st, byte as int);
        },
        Token::Copy { back, len } => {
            lemma_code_char_ok(st, length_code(len));
            lemma_code_position_ok(code_char(st, length_code(len)).state, back - 1);
        },
    }
}

/// Coding tokens from the initial state ends in a good state.
pub proof fn lemma_code_all_ok(tokens: Seq<Token>)
    requires
        tokens_ok(tokens),
    ensures
        state_ok(code_all(tokens).state),
    decreases tokens.len(),
{
    if tokens.len() == 0 {
        crate::model::lemma_initial_wf();
    } else {
        let head = tokens.drop_last();
        assert forall|i: int| 0 <= i < head.len() implies token_ok(#[trigger] head[i]) by {
            assert(head[i] == tokens[i]);
        }
        lemma_code_all_ok(head);
        lemma_code_token_ok(code_all(head).state, tokens.last());
    }
}

/// The length that a prefix states is the length it was made from.
pub proof fn lemma_stated_len(n: int)
    requires
        0 <= n <= u32::MAX,
    ensures
        stated_len(length_prefix(n)) == n,
        length_prefix(n).len() == 4,
{
    let a = n % 256;
    let b = n / 256 % 256;
    let c = n / 65536 % 256;
    let d = n / 16777216 % 256;
    assert(n / 16777216 < 256);
    assert(d == n / 16777216);
    assert(n / 65536 == 256 * (n / 16777216) + c);
    assert(n / 256 == 256 * (n / 65536) + b);
    assert(n == 256 * (n / 256) + a);
}

/// Bytes whose bits begin with the bits of `head` begin with `head`.
pub proof fn lemma_same_front(bytes: Seq<u8>, head: Seq<u8>, all: Seq<bool>)
    requires
        head.len() <= bytes.len(),
        8 * bytes.len() <= all.len(),
        bits_of(bytes) == all.take(8 * bytes.len() as int),
        forall|i: int| 0 <= i < 8 * head.len() ==> all[i] == #[trigger] bits_of(head)[i],
    ensures
        bytes.take(head.len() as int) == head,
{
    assert forall|k: int| 0 <= k < head.len() implies bytes[k] == head[k] by {
        assert forall|j: int| 0 <= j < 8 implies crate::bitstream::bit_of_byte(bytes[k], j)
            == crate::bitstream::bit_of_byte(head[k], j) by {
            let i = 8 * k + j;
            assert(i / 8 == k && i % 8 == j);
            assert(bits_of(bytes)[i] == all.take(8 * bytes.len() as int)[i]);
            assert(all[i] == bits_of(head)[i]);
        }
        crate::bitstream::lemma_byte_of_bits(bytes[k], head[k]);
    }
    assert(bytes.take(head.len() as int) =~= head);
}

/// A stream begins with the length of its text, lowest byte first.
pub proof fn lemma_prefix(bytes: Seq<u8>, text: Seq<u8>)
    requires
        encodes(bytes, text),
    ensures
        bytes.len() >= 5,
        bytes.take(4) == length_prefix(text.len() as int),
        stated_len(bytes) == text.len(),
{
    let tokens = choose|tokens: Seq<Token>|
        #[trigger] frames(bytes, tokens) && tokens_ok(tokens) && expand(tokens) == text;
    let head = length_prefix(text.len() as int);
    let all = bits_of(head) + encoded_bits(tokens) + Seq::new(7, |i: int| false);
    lemma_code_all_ok(tokens);
    lemma_stated_len(text.len() as int);
    assert(bits_of(head).len() == 32);
    assert(end_bits(code_all(tokens).state).len() >= 2);
    assert(all.len() >= 41);
    lemma_same_front(bytes, head, all);
    assert(bytes.take(4)[0] == bytes[0]);
    assert(bytes.take(4)[1] == bytes[1]);
    assert(bytes.take(4)[2] == bytes[2]);
    assert(bytes.take(4)[3] == bytes[3]);
}

/// Copying bytes that repeat what lies `back` places before them spells
/// out the text itself.
pub proof fn lemma_copied(text: Seq<u8>, at: int, back: int, n: int)
    requires
        0 <= at,
        0 <= n,
        at + n <= text.len(),
        1 <= back,
        repeats(text, at, back, n),
    ensures
        copied(text.take(at), back, n) == text.take(at + n),
    decreases n,
{
    if n > 0 {
        lemma_copied(text, at, back, n - 1);
        let t = text.take(at + n - 1);
        assert(echo_at(text, at, back, n - 1));
        assert(history(t, t.len() - back) == history(text, at + n - 1 - back));
        assert(t.push(text[at + n - 1]) =~= text.take(at + n));
    } else {
        assert(text.take(at) =~= text.take(at + n));
    }
}

} // verus!
