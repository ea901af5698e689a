//! How the encoder cuts a text into tokens: at every place it takes the
//! match that the window found there, if that is long enough, and a
//! single byte if not, and then moves the window on over what it took.

use vstd::prelude::*;
use crate::format::Token;
use crate::params::{MAX_MATCH_LEN, THRESHOLD};
use crate::window::{slid, slid_found, started, started_found, WindowView};

verus! {

/// The token for the front of the window, given the match found there:
/// the match, cut to the look-ahead, if it is then still longer than the
/// threshold; else the byte at the front.
pub open spec fn token_at(w: WindowView, found: (int, int)) -> Token {
    let n = if found.1 > w.ahead {
        w.ahead
    } else {
        found.1
    };
    if n <= THRESHOLD {
        Token::Literal { byte: w.tree.buf[w.front] }
    } else {
        Token::Copy { back: found.0, len: n }
    }
}

/// The number of bytes that a token covers.
pub open spec fn covered(t: Token) -> int {
    match t {
        Token::Literal { byte } => 1,
        Token::Copy { back, len } => len,
    }
}

/// A stage of the parse: the window, the match found at its front, and
/// the number of bytes of the input that the window has taken in.
pub struct Stage {
    pub window: WindowView,
    pub found: (int, int),
    pub taken: int,
}

/// The stage after `k` slides of the window, each of which takes in the
/// next byte of the input as long as there is one.
pub open spec fn advanced(st: Stage, input: Seq<u8>, k: int) -> Stage
    decreases k,
{
    if k <= 0 {
        st
    } else if st.taken < input.len() {
        let next = Some(input[st.taken]);
        advanced(
            Stage {
                window: slid(st.window, next),
                found: slid_found(st.window, next),
                taken: st.taken + 1,
            },
            input,
            k - 1,
        )
    } else {
        advanced(
            Stage {
                window: slid(st.window, None),
                found: slid_found(st.window, None),
                taken: st.taken,
            },
            input,
            k - 1,
        )
    }
}

/// The tokens from a stage on, `limit` of them at most: none where no
/// look-ahead is left.
pub open spec fn parse(st: Stage, input: Seq<u8>, limit: nat) -> Seq<Token>
    decreases limit,
{
    if limit == 0 || st.window.ahead <= 0 {
        Seq::empty()
    } else {
        let t = token_at(st.window, st.found);
        seq![t] + parse(advanced(st, input, covered(t)), input, (limit - 1) as nat)
    }
}

/// The stage at the start: the window holds the first bytes of the input.
pub open spec fn first_stage(input: Seq<u8>) -> Stage {
    Stage {
        window: started(input),
        found: started_found(input),
        taken: if input.len() < MAX_MATCH_LEN {
            input.len() as int
        } else {
            MAX_MATCH_LEN as int
        },
    }
}

/// The tokens that the encoder cuts `input` into.
pub open spec fn tokens_of(input: Seq<u8>) -> Seq<Token> {
    parse(first_stage(input), input, input.len())
}

} // verus!
