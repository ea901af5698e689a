//! The codec itself: the encoder drives the window and the arithmetic
//! coder, the decoder rebuilds the text from the stream.

use vstd::prelude::*;
use crate::bitstream::bits_of;
use crate::coder::{Decoder, DecoderView, Encoder};
use crate::format::{
    code_all, code_char, code_position, copied, encoded_bits, encodes, expand, frames,
    lemma_code_all_ok, lemma_copied, length_code, length_prefix, stated_len, token_ok,
    tokens_ok, well_formed, Token,
};
use crate::roundtrip::{
    lemma_copied_len, lemma_decoded_char, lemma_decoded_position, lemma_expand_prefix,
    lemma_first_lead, lemma_frames_carries, lemma_one_text, lemma_take_step, synced,
};
use crate::model::ModelView;
use crate::window::history;
use crate::model::{PositionModel, SymbolModel};
use crate::params::{MAX_MATCH_LEN, Q4, RING_BUF_SIZE, THRESHOLD};
use crate::tree::TEXT_LEN;
use crate::parse::{advanced, covered, first_stage, parse, token_at, tokens_of, Stage};
use crate::window::{sound_match, Window};

verus! {

/// One run of the codec over one input: `encode` compresses the input,
/// `decode` takes it for a compressed stream and rebuilds the text.
pub struct LZARIContext<'a> {
    inbuf: &'a [u8],
    window: Window,
    symbols: SymbolModel,
    positions: PositionModel,
}

/// The four bytes that state the length `n`, lowest byte first.
fn length_bytes(n: usize) -> (v: Vec<u8>)
    requires
        n <= u32::MAX,
    ensures
        v@ == length_prefix(n as int),
{
    let mut v: Vec<u8> = Vec::new();
    v.push((n % 256) as u8);
    v.push((n / 256 % 256) as u8);
    v.push((n / 65536 % 256) as u8);
    v.push((n / 16777216 % 256) as u8);
    assert(v@ =~= length_prefix(n as int));
    v
}

proof fn lemma_ring_next(x: usize)
    by (bit_vector)
    requires
        x < 8192,
    ensures
        x & 4095 == x % 4096,
{
}

/// The byte that the ring holds for index `t` of the text.
spec fn ring_at(ring: Seq<u8>, t: int) -> u8 {
    ring[(RING_BUF_SIZE - MAX_MATCH_LEN + t) % (RING_BUF_SIZE as int)]
}

/// The ring of the decoder holds the end of the text, with spaces before
/// its beginning, and `r` is the place of the next byte.
spec fn ring_holds(ring: Seq<u8>, text: Seq<u8>, r: int) -> bool {
    &&& ring.len() == TEXT_LEN
    &&& r == (RING_BUF_SIZE - MAX_MATCH_LEN + text.len()) % (RING_BUF_SIZE as int)
    &&& forall|t: int|
        text.len() - (RING_BUF_SIZE - MAX_MATCH_LEN) <= t < text.len() ==> #[trigger] ring_at(
            ring,
            t,
        ) == history(text, t)
}

/// Writes one byte of text to the output and to the ring.
fn put_byte(ring: &mut Vec<u8>, rv: &mut Vec<u8>, r: usize, b: u8) -> (next: usize)
    requires
        ring_holds(old(ring)@, old(rv)@, r as int),
    ensures
        ring_holds(final(ring)@, final(rv)@, next as int),
        final(rv)@ == old(rv)@.push(b),
{
    let ghost text = rv@;
    let ghost was = ring@;
    rv.push(b);
    ring.set(r, b);
    proof {
        lemma_ring_next((r + 1) as usize);
        assert forall|t: int|
            rv@.len() - (RING_BUF_SIZE - MAX_MATCH_LEN) <= t < rv@.len() implies #[trigger] ring_at(
            ring@,
            t,
        ) == history(rv@, t) by {
            if t < text.len() {
                assert(ring_at(was, t) == history(text, t));
            }
        }
    }
    (r + 1) & (RING_BUF_SIZE - 1)
}

/// Copies up to `j` bytes from `pos + 1` places back in the text to its
/// end, and stops where the text has `textsize` bytes.
#[verifier::rlimit(40)]
fn copy_back(
    ring: &mut Vec<u8>,
    rv: &mut Vec<u8>,
    r: usize,
    pos: usize,
    j: usize,
    textsize: u64,
) -> (next: usize)
    requires
        ring_holds(old(ring)@, old(rv)@, r as int),
        pos < RING_BUF_SIZE,
        j <= MAX_MATCH_LEN,
        old(rv)@.len() <= textsize <= u32::MAX,
    ensures
        ring_holds(final(ring)@, final(rv)@, next as int),
        final(rv)@.len() == (if old(rv)@.len() + j <= textsize {
            old(rv)@.len() + j
        } else {
            textsize as int
        }),
        pos + 1 <= RING_BUF_SIZE - MAX_MATCH_LEN && old(rv)@.len() + j <= textsize ==> final(rv)@
            == copied(old(rv)@, pos + 1, j as int),
{
    proof {
        lemma_ring_next((r + RING_BUF_SIZE - pos - 1) as usize);
    }
    let from: usize = (r + RING_BUF_SIZE - pos - 1) & (RING_BUF_SIZE - 1);
    let ghost text = rv@;
    let ghost back = pos + 1;
    let ghost exact = back <= RING_BUF_SIZE - MAX_MATCH_LEN && text.len() + j <= textsize;
    let mut r: usize = r;
    let mut k: usize = 0;
    while k < j && (rv.len() as u64) < textsize
        invariant
            k <= j <= MAX_MATCH_LEN,
            from < RING_BUF_SIZE,
            from == (RING_BUF_SIZE - MAX_MATCH_LEN + text.len() + RING_BUF_SIZE - back) % (
            RING_BUF_SIZE as int),
            back == pos + 1,
            pos < RING_BUF_SIZE,
            text.len() <= textsize <= u32::MAX,
            rv@.len() == text.len() + k,
            rv@.len() <= textsize,
            k < j ==> rv@.len() < textsize || text.len() + j > textsize,
            ring_holds(ring@, rv@, r as int),
            exact == (back <= RING_BUF_SIZE - MAX_MATCH_LEN && text.len() + j <= textsize),
            exact ==> rv@ == copied(text, back, k as int),
        decreases j - k,
    {
        proof {
            lemma_ring_next((from + k) as usize);
            if exact {
                let t = rv@.len() - back;
                assert(ring_at(ring@, t) == history(rv@, t));
                assert((from + k) % (RING_BUF_SIZE as int) == (RING_BUF_SIZE - MAX_MATCH_LEN + t)
                    % (RING_BUF_SIZE as int));
            }
        }
        let b: u8 = ring[(from + k) & (RING_BUF_SIZE - 1)];
        r = put_byte(ring, rv, r, b);
        k += 1;
    }
    r
}

/// The decoder follows the encoder: if the stream carries the bits of
/// some good tokens, then the output is the text of the first `n` of
/// them, and the decoder is in step with the encoder before token `n`.
spec fn following(
    src: Seq<u8>,
    w: Option<Seq<Token>>,
    n: int,
    out: Seq<u8>,
    model: ModelView,
    d: DecoderView,
) -> bool {
    match w {
        None => true,
        Some(tokens) => {
            &&& tokens_ok(tokens)
            &&& frames(src, tokens)
            &&& 0 <= n <= tokens.len()
            &&& out == expand(tokens.take(n))
            &&& d.src == src
            &&& synced(src, 32, tokens, n, model, d.low, d.high, d.value, d.pos)
        },
    }
}

/// The match that a search reported, as a pair of numbers.
spec fn pair(found: (usize, usize)) -> (int, int) {
    (found.0 as int, found.1 as int)
}

/// The coder has reached the state, and written the bits, that the tokens
/// call for.
spec fn in_step(enc: Encoder, symbols: SymbolModel, head: Seq<bool>, tokens: Seq<Token>) -> bool {
    let c = code_all(tokens);
    &&& symbols@ == c.state.model
    &&& enc@.low == c.state.low
    &&& enc@.high == c.state.high
    &&& enc@.shifts == c.state.shifts
    &&& enc@.bits == head + c.bits
}

impl<'a> LZARIContext<'a> {
    #[verifier::type_invariant]
    spec fn inv(&self) -> bool {
        &&& self.window.fresh()
        &&& self.symbols.allocated()
        &&& self.positions.allocated()
    }

    /// The bytes that this run works on.
    pub closed spec fn input(&self) -> Seq<u8> {
        self.inbuf@
    }

    /// A codec over `inbuf`, with all its tables allocated.
    pub fn new(inbuf: &'a [u8]) -> (ctx: Self)
        ensures
            ctx.input() == inbuf@,
    {
        LZARIContext {
            inbuf,
            window: Window::new(),
            symbols: SymbolModel::new(),
            positions: PositionModel::new(),
        }
    }

    /// Writes one token: a literal for the byte at the front of the
    /// window, or the length and distance of the match found there.
    /// Returns the number of bytes that the token covers.
    #[verifier::rlimit(40)]
    fn put_token(
        enc: &mut Encoder,
        symbols: &mut SymbolModel,
        positions: &PositionModel,
        window: &Window,
        found: (usize, usize),
        Ghost(head): Ghost<Seq<bool>>,
        Ghost(tokens): Ghost<Seq<Token>>,
    ) -> (res: (usize, Ghost<Token>))
        requires
            old(enc).wf(),
            old(symbols)@.wf(),
            positions.wf(),
            window.wf(),
            window.cursor() < window.text().len(),
            sound_match(window.text(), window.cursor(), found),
            in_step(*old(enc), *old(symbols), head, tokens),
            tokens_ok(tokens),
            expand(tokens) == window.text().take(window.cursor()),
            old(enc)@.shifts + 2 * Q4 <= u64::MAX,
        ensures
            final(enc).wf(),
            final(symbols)@.wf(),
            in_step(*final(enc), *final(symbols), head, tokens.push(res.1@)),
            tokens_ok(tokens.push(res.1@)),
            1 <= res.0 <= window.text().len() - window.cursor(),
            expand(tokens.push(res.1@)) == window.text().take(window.cursor() + res.0),
            res.1@ == token_at(window@, pair(found)),
            res.0 == covered(res.1@),
            final(enc)@.shifts <= old(enc)@.shifts + 2 * Q4,
    {
        let len: usize = window.lookahead();
        let mut match_length: usize = found.1;
        if match_length > len {
            match_length = len;
        }
        let ghost st = code_all(tokens).state;
        let ghost text = window.text();
        let ghost at = window.cursor();
        let ghost before = enc@.bits;
        let tok: Ghost<Token>;
        if match_length <= THRESHOLD {
            match_length = 1;
            let c: u8 = window.front();
            enc.encode_char(symbols, c as usize);
            tok = Ghost(Token::Literal { byte: c });
            proof {
                assert(text.take(at).push(c) =~= text.take(at + 1));
                assert(before + code_char(st, c as int).bits =~= head + (code_all(tokens).bits
                    + code_char(st, c as int).bits));
            }
        } else {
            enc.encode_char(symbols, 255 - THRESHOLD + match_length);
            enc.encode_position(positions, found.0 - 1);
            tok = Ghost(Token::Copy { back: found.0 as int, len: match_length as int });
            proof {
                lemma_copied(text, at, found.0 as int, match_length as int);
                let a = code_char(st, length_code(match_length as int));
                let b = code_position(a.state, found.0 - 1);
                assert((before + a.bits) + b.bits =~= head + (code_all(tokens).bits + (a.bits
                    + b.bits)));
            }
        }
        proof {
            let next = tokens.push(tok@);
            assert(next.drop_last() =~= tokens);
            assert(next.last() == tok@);
            assert forall|i: int| 0 <= i < next.len() implies token_ok(#[trigger] next[i]) by {
                if i < tokens.len() {
                    assert(next[i] == tokens[i]);
                }
            }
        }
        (match_length, tok)
    }

    /// Compresses the input: its length, lowest byte first, and then the
    /// bits of the tokens that the window cuts it into.
    #[verifier::rlimit(40)]
    pub fn encode(self) -> (out: Vec<u8>)
        requires
            self.input().len() <= u32::MAX,
        ensures
            frames(out@, tokens_of(self.input())),
            expand(tokens_of(self.input())) == self.input(),
            encodes(out@, self.input()),
            out@.len() >= 5,
            out@.take(4) == length_prefix(self.input().len() as int),
    {
        proof {
            use_type_invariant(&self);
        }
        let inbuf: &[u8] = self.inbuf;
        let mut window: Window = self.window;
        let mut symbols: SymbolModel = self.symbols;
        let mut positions: PositionModel = self.positions;
        let n: usize = inbuf.len();
        let ghost head = bits_of(length_prefix(n as int));
        let mut enc: Encoder = Encoder::new(length_bytes(n));
        symbols.start_model();
        positions.start_model();
        let mut found: (usize, usize) = window.start(inbuf);
        let mut in_cursor: usize = if n < MAX_MATCH_LEN {
            n
        } else {
            MAX_MATCH_LEN
        };
        let ghost mut tokens: Seq<Token> = Seq::empty();
        proof {
            assert(enc@.bits =~= head + code_all(tokens).bits);
            assert(expand(tokens) =~= inbuf@.take(0));
        }
        while window.lookahead() > 0
            invariant
                n == inbuf@.len(),
                n <= u32::MAX,
                window.wf(),
                symbols@.wf(),
                positions.wf(),
                enc.wf(),
                in_cursor <= n,
                window.cursor() >= 0,
                window.text() == inbuf@.take(in_cursor as int),
                in_cursor == n || window.text().len() - window.cursor() == MAX_MATCH_LEN,
                sound_match(window.text(), window.cursor(), found),
                tokens_ok(tokens),
                expand(tokens) == inbuf@.take(window.cursor()),
                in_step(enc, symbols, head, tokens),
                tokens.len() <= window.cursor(),
                enc@.shifts <= 2 * Q4 * tokens.len(),
                tokens_of(inbuf@) == tokens + parse(
                    Stage { window: window@, found: pair(found), taken: in_cursor as int },
                    inbuf@,
                    (n - tokens.len()) as nat,
                ),
            decreases n - window.cursor(),
        {
            proof {
                assert(inbuf@.take(in_cursor as int).take(window.cursor()) =~= inbuf@.take(
                    window.cursor(),
                ));
                assert(2 * Q4 * tokens.len() <= 2 * Q4 * u32::MAX) by (nonlinear_arith)
                    requires
                        tokens.len() <= u32::MAX,
                ;
            }
            let ghost at = window.cursor();
            let ghost stage = Stage {
                window: window@,
                found: pair(found),
                taken: in_cursor as int,
            };
            let ghost before = tokens;
            let (last_match_length, tok) = Self::put_token(
                &mut enc,
                &mut symbols,
                &positions,
                &window,
                found,
                Ghost(head),
                Ghost(tokens),
            );
            proof {
                assert(inbuf@.take(in_cursor as int).take(at + last_match_length) =~= inbuf@.take(
                    at + last_match_length,
                ));
                tokens = tokens.push(tok@);
                assert(2 * Q4 * (tokens.len() - 1) + 2 * Q4 == 2 * Q4 * tokens.len())
                    by (nonlinear_arith);
            }
            let left: usize = n - in_cursor;
            let limit: usize = if last_match_length < left {
                last_match_length
            } else {
                left
            };
            let mut i: usize = 0;
            while i < limit
                invariant
                    i <= limit <= last_match_length,
                    n == inbuf@.len(),
                    limit <= n - in_cursor,
                    window.wf(),
                    window.cursor() == at + i,
                    window.text() == inbuf@.take(in_cursor + i),
                    limit > 0 ==> in_cursor - at == MAX_MATCH_LEN,
                    sound_match(window.text(), window.cursor(), found),
                    advanced(stage, inbuf@, last_match_length as int) == advanced(
                        Stage { window: window@, found: pair(found), taken: in_cursor + i },
                        inbuf@,
                        last_match_length - i,
                    ),
                decreases limit - i,
            {
                let c: u8 = inbuf[in_cursor + i];
                proof {
                    assert(inbuf@.take(in_cursor + i).push(c) =~= inbuf@.take(in_cursor + i + 1));
                }
                found = window.slide(Some(c));
                i += 1;
            }
            in_cursor += i;
            while i < last_match_length
                invariant
                    i <= last_match_length,
                    window.wf(),
                    window.cursor() == at + i,
                    window.text() == inbuf@.take(in_cursor as int),
                    last_match_length - i <= window.text().len() - window.cursor(),
                    sound_match(window.text(), window.cursor(), found),
                    n == inbuf@.len(),
                    i < last_match_length ==> in_cursor == n,
                    advanced(stage, inbuf@, last_match_length as int) == advanced(
                        Stage { window: window@, found: pair(found), taken: in_cursor as int },
                        inbuf@,
                        last_match_length - i,
                    ),
                decreases last_match_length - i,
            {
                i += 1;
                found = window.slide(None);
            }
            proof {
                let rest = parse(
                    advanced(stage, inbuf@, covered(tok@)),
                    inbuf@,
                    (n - before.len() - 1) as nat,
                );
                assert(parse(stage, inbuf@, (n - before.len()) as nat) == seq![tok@] + rest);
                assert(before + (seq![tok@] + rest) =~= before.push(tok@) + rest);
            }
        }
        proof {
            lemma_code_all_ok(tokens);
            assert(inbuf@.take(n as int) =~= inbuf@);
        }
        enc.encode_end();
        let ghost all = enc.writer()@;
        proof {
            enc.writer().lemma_view();
            assert(all =~= head + encoded_bits(tokens) + Seq::new(7, |i: int| false));
        }
        let out: Vec<u8> = enc.into_bytes();
        proof {
            assert(frames(out@, tokens));
            crate::format::lemma_prefix(out@, inbuf@);
        }
        out
    }

    /// Rebuilds the text from the stream: as many bytes as the first four
    /// bytes state, and, where the stream is a compressed stream for a
    /// text, that text.
    #[verifier::rlimit(40)]
    pub fn decode(self) -> (out: Vec<u8>)
        requires
            self.input().len() >= 4,
        ensures
            out@.len() == stated_len(self.input()),
            forall|text: Seq<u8>| encodes(self.input(), text) ==> out@ == text,
            well_formed(self.input()) ==> encodes(self.input(), out@),
    {
        proof {
            use_type_invariant(&self);
        }
        let inbuf: &[u8] = self.inbuf;
        let mut symbols: SymbolModel = self.symbols;
        let mut positions: PositionModel = self.positions;
        let textsize: u64 = inbuf[0] as u64 + 256 * (inbuf[1] as u64) + 65536 * (inbuf[2] as u64)
            + 16777216 * (inbuf[3] as u64);
        let mut dec: Decoder<'a> = Decoder::new(inbuf, 4);
        dec.start_decode();
        symbols.start_model();
        positions.start_model();
        let mut ring: Vec<u8> = Vec::new();
        let mut k: usize = 0;
        while k < TEXT_LEN
            invariant
                k <= TEXT_LEN,
                ring@.len() == k,
                forall|i: int| 0 <= i < k && i < RING_BUF_SIZE - MAX_MATCH_LEN ==> ring@[i] == 0x20,
            decreases TEXT_LEN - k,
        {
            ring.push(if k < RING_BUF_SIZE - MAX_MATCH_LEN {
                0x20
            } else {
                0
            });
            k += 1;
        }
        let mut r: usize = RING_BUF_SIZE - MAX_MATCH_LEN;
        let mut rv: Vec<u8> = Vec::new();
        let mut count: u64 = 0;
        let ghost src = inbuf@;
        let ghost w: Option<Seq<Token>> = if exists|tokens: Seq<Token>|
            #[trigger] frames(src, tokens) && tokens_ok(tokens) {
            Some(choose|tokens: Seq<Token>| #[trigger] frames(src, tokens) && tokens_ok(tokens))
        } else {
            None
        };
        let ghost mut n: int = 0;
        proof {
            assert forall|t: int|
                rv@.len() - (RING_BUF_SIZE - MAX_MATCH_LEN) <= t < rv@.len() implies #[trigger] ring_at(
                ring@,
                t,
            ) == history(rv@, t) by {
                assert(ring@[RING_BUF_SIZE - MAX_MATCH_LEN + t] == 0x20);
            }
            if let Some(tokens) = w {
                lemma_frames_carries(src, tokens);
                lemma_first_lead(src, 32);
                assert(tokens.take(0) =~= Seq::<Token>::empty());
                assert(rv@ =~= expand(tokens.take(0)));
            }
        }
        while count < textsize
            invariant
                count <= textsize <= u32::MAX,
                rv@.len() == count,
                ring_holds(ring@, rv@, r as int),
                r < RING_BUF_SIZE,
                dec.wf(),
                symbols@.wf(),
                positions.wf(),
                src == inbuf@,
                following(src, w, n, rv@, symbols@, dec@),
                w is Some ==> textsize == expand(w->0).len(),
            decreases textsize - count,
        {
            let ghost m = symbols@;
            let ghost d = dec@;
            let c: usize = dec.decode_char(&mut symbols);
            proof {
                if let Some(tokens) = w {
                    lemma_frames_carries(src, tokens);
                    lemma_expand_prefix(tokens, n, tokens.len() as int);
                    assert(tokens.take(tokens.len() as int) =~= tokens);
                    assert(n < tokens.len());
                    lemma_decoded_char(src, 32, tokens, n, m, d.low, d.high, d.value, d.pos, c as int);
                    lemma_take_step(tokens, n);
                    assert(token_ok(tokens[n]));
                    lemma_expand_prefix(tokens, n + 1, tokens.len() as int);
                }
            }
            if c < 256 {
                r = put_byte(&mut ring, &mut rv, r, c as u8);
                count += 1;
                proof {
                    n = n + 1;
                }
            } else {
                let ghost m2 = symbols@;
                let ghost d2 = dec@;
                let pos: usize = dec.decode_position(&positions);
                let j: usize = c - 255 + THRESHOLD;
                proof {
                    if let Some(tokens) = w {
                        lemma_decoded_position(
                            src,
                            32,
                            tokens,
                            n,
                            m2,
                            d2.low,
                            d2.high,
                            d2.value,
                            d2.pos,
                            pos as int,
                        );
                        lemma_copied_len(rv@, pos + 1, j as int);
                    }
                }
                r = copy_back(&mut ring, &mut rv, r, pos, j, textsize);
                count = rv.len() as u64;
                proof {
                    n = n + 1;
                }
            }
        }
        proof {
            if let Some(tokens) = w {
                lemma_expand_prefix(tokens, n, tokens.len() as int);
                assert(tokens.take(tokens.len() as int) =~= tokens);
                assert(rv@ =~= expand(tokens));
                assert(encodes(src, rv@));
            }
            assert forall|text: Seq<u8>| encodes(src, text) implies rv@ == text by {
                let t = choose|tokens: Seq<Token>|
                    #[trigger] frames(src, tokens) && tokens_ok(tokens) && expand(tokens) == text;
                assert(frames(src, t) && tokens_ok(t));
                assert(w is Some);
                lemma_one_text(src, text, rv@);
            }
        }
        rv
    }
}

} // verus!
