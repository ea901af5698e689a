//! The two probability models of the coder: the adaptive model of the
//! symbols and the fixed model of the match positions.

use vstd::prelude::*;
use crate::params::{MAX_CUM, N_CHAR, RING_BUF_SIZE};

verus! {

/// What the symbol model holds, as mathematical sequences.
///
/// Characters are the numbers `0..N_CHAR`, ranks the numbers `1..=N_CHAR`.
pub struct ModelView {
    /// The rank of each character.
    pub ranks: Seq<int>,
    /// The character at each rank; index 0 is not used.
    pub chars: Seq<int>,
    /// The frequency at each rank; index 0 holds a zero that bounds searches.
    pub freq: Seq<int>,
    /// `cum[i]` is the sum of the frequencies of the ranks above `i`.
    pub cum: Seq<int>,
}

impl ModelView {
    /// The invariant of the symbol model.
    pub open spec fn wf(self) -> bool {
        &&& self.ranks.len() == N_CHAR
        &&& self.chars.len() == N_CHAR + 1
        &&& self.freq.len() == N_CHAR + 1
        &&& self.cum.len() == N_CHAR + 1
        &&& self.freq[0] == 0
        &&& self.cum[N_CHAR as int] == 0
        &&& self.cum[0] <= MAX_CUM
        &&& forall|i: int| 1 <= i <= N_CHAR ==> #[trigger] self.freq[i] >= 1
        &&& forall|i: int|
            1 <= i <= N_CHAR ==> self.cum[i - 1] == self.cum[i] + #[trigger] self.freq[i]
        &&& forall|i: int, j: int|
            1 <= i <= j <= N_CHAR ==> #[trigger] self.freq[i] >= #[trigger] self.freq[j]
        &&& forall|c: int| 0 <= c < N_CHAR ==> 1 <= #[trigger] self.ranks[c] <= N_CHAR
        &&& forall|s: int| 1 <= s <= N_CHAR ==> 0 <= #[trigger] self.chars[s] < N_CHAR
        &&& forall|c: int, s: int|
            0 <= c < N_CHAR && 1 <= s <= N_CHAR ==> ((#[trigger] self.ranks[c] == s) <==> (
            #[trigger] self.chars[s] == c))
    }

    /// The model before any symbol was coded: every frequency is one and
    /// character `c` has rank `c + 1`.
    pub open spec fn initial() -> ModelView {
        ModelView {
            ranks: Seq::new(N_CHAR as nat, |c: int| c + 1),
            chars: Seq::new((N_CHAR + 1) as nat, |s: int| if s == 0 { 0 } else { s - 1 }),
            freq: Seq::new((N_CHAR + 1) as nat, |s: int| if s == 0 { 0int } else { 1int }),
            cum: Seq::new((N_CHAR + 1) as nat, |s: int| N_CHAR - s),
        }
    }

    /// The model with every frequency halved, rounding up.
    pub open spec fn rescaled(self) -> ModelView {
        ModelView {
            freq: Seq::new(
                (N_CHAR + 1) as nat,
                |j: int| if j == 0 { self.freq[0] } else { halved(self.freq[j]) },
            ),
            cum: Seq::new((N_CHAR + 1) as nat, |j: int| halved_tail(self.freq, j)),
            ..self
        }
    }

    /// The model after the symbol at rank `sym` was counted once more: its
    /// character moves to the lowest rank that has the same frequency, and
    /// the count at that rank grows by one.
    pub open spec fn promoted(self, sym: int) -> ModelView {
        let i = leader(self.freq, sym);
        let ci = self.chars[i];
        let cs = self.chars[sym];
        ModelView {
            chars: self.chars.update(i, cs).update(sym, ci),
            ranks: self.ranks.update(ci, sym).update(cs, i),
            freq: self.freq.update(i, self.freq[i] + 1),
            cum: Seq::new(
                (N_CHAR + 1) as nat,
                |j: int| if j < i { self.cum[j] + 1 } else { self.cum[j] },
            ),
        }
    }

    /// The model after one more occurrence of the symbol at rank `sym`.
    pub open spec fn updated(self, sym: int) -> ModelView {
        if self.cum[0] >= MAX_CUM {
            self.rescaled().promoted(sym)
        } else {
            self.promoted(sym)
        }
    }
}

/// Half of a frequency, rounded up.
pub open spec fn halved(f: int) -> int {
    (f + 1) / 2
}

/// Sum of the halved frequencies of the ranks above `i`.
pub open spec fn halved_tail(freq: Seq<int>, i: int) -> int
    decreases N_CHAR - i,
{
    if i >= N_CHAR {
        0
    } else {
        halved_tail(freq, i + 1) + halved(freq[i + 1])
    }
}

/// The lowest rank that is reached from `sym` through equal frequencies.
pub open spec fn leader(freq: Seq<int>, sym: int) -> int
    decreases sym,
{
    if sym > 1 && freq[sym - 1] == freq[sym] {
        leader(freq, sym - 1)
    } else {
        sym
    }
}

/// The cumulative counts fall strictly with the rank.
pub proof fn lemma_cum_falls(v: ModelView, a: int, b: int)
    requires
        v.wf(),
        0 <= a <= b <= N_CHAR,
    ensures
        v.cum[a] >= v.cum[b] + (b - a),
    decreases b - a,
{
    if a < b {
        lemma_cum_falls(v, a, b - 1);
        assert(v.cum[b - 1] == v.cum[b] + v.freq[b]);
    }
}

proof fn lemma_halved_tail_bound(v: ModelView, i: int)
    requires
        v.wf(),
        0 <= i <= N_CHAR,
    ensures
        2 * halved_tail(v.freq, i) <= v.cum[i] + (N_CHAR - i),
        halved_tail(v.freq, i) >= 0,
    decreases N_CHAR - i,
{
    if i < N_CHAR {
        lemma_halved_tail_bound(v, i + 1);
        assert(v.cum[i + 1 - 1] == v.cum[i + 1] + v.freq[i + 1]);
        assert(v.freq[i + 1] >= 1);
    }
}

/// Rescaling keeps the invariant and brings the total down to about half.
pub proof fn lemma_rescaled_wf(v: ModelView)
    requires
        v.wf(),
    ensures
        v.rescaled().wf(),
        2 * v.rescaled().cum[0] <= v.cum[0] + N_CHAR,
{
    let w = v.rescaled();
    lemma_halved_tail_bound(v, 0);
    assert forall|i: int| 1 <= i <= N_CHAR implies #[trigger] w.freq[i] >= 1 by {
        assert(v.freq[i] >= 1);
    }
    assert forall|i: int| 1 <= i <= N_CHAR implies w.cum[i - 1] == w.cum[i]
        + #[trigger] w.freq[i] by {
        assert(halved_tail(v.freq, i - 1) == halved_tail(v.freq, i) + halved(v.freq[i]));
    }
    assert forall|i: int, j: int| 1 <= i <= j <= N_CHAR implies #[trigger] w.freq[i]
        >= #[trigger] w.freq[j] by {
        assert(v.freq[i] >= v.freq[j]);
    }
    assert(w.cum[N_CHAR as int] == 0);
}

/// What `leader` finds: a rank at or below `sym` with the frequency of
/// `sym`, below which the frequency is another.
pub proof fn lemma_leader(freq: Seq<int>, sym: int)
    requires
        1 <= sym,
    ensures
        1 <= leader(freq, sym) <= sym,
        freq[leader(freq, sym)] == freq[sym],
        leader(freq, sym) > 1 ==> freq[leader(freq, sym) - 1] != freq[sym],
    decreases sym,
{
    if sym > 1 && freq[sym - 1] == freq[sym] {
        lemma_leader(freq, sym - 1);
    }
}

/// Counting a symbol keeps the invariant, as long as the total has room.
#[verifier::rlimit(40)]
pub proof fn lemma_promoted_wf(v: ModelView, sym: int)
    requires
        v.wf(),
        v.cum[0] < MAX_CUM,
        1 <= sym <= N_CHAR,
    ensures
        v.promoted(sym).wf(),
        v.promoted(sym).cum[0] == v.cum[0] + 1,
{
    let w = v.promoted(sym);
    let i = leader(v.freq, sym);
    lemma_leader(v.freq, sym);
    let ci = v.chars[i];
    let cs = v.chars[sym];
    assert(0 <= ci < N_CHAR && 0 <= cs < N_CHAR);
    assert(v.ranks[ci] == i && v.ranks[cs] == sym);
    assert(v.freq[i] >= 1);
    assert forall|j: int| 1 <= j <= N_CHAR implies #[trigger] w.freq[j] >= 1 by {
        assert(v.freq[j] >= 1);
    }
    assert forall|j: int| 1 <= j <= N_CHAR implies w.cum[j - 1] == w.cum[j]
        + #[trigger] w.freq[j] by {
        assert(v.cum[j - 1] == v.cum[j] + v.freq[j]);
    }
    assert forall|a: int, b: int| 1 <= a <= b <= N_CHAR implies #[trigger] w.freq[a]
        >= #[trigger] w.freq[b] by {
        assert(v.freq[a] >= v.freq[b]);
        if b == i && a < i {
            assert(v.freq[a] >= v.freq[i - 1]);
            assert(v.freq[i - 1] >= v.freq[i]);
        }
    }
    assert forall|c: int| 0 <= c < N_CHAR implies 1 <= #[trigger] w.ranks[c] <= N_CHAR by {
        assert(1 <= v.ranks[c] <= N_CHAR);
    }
    assert forall|s: int| 1 <= s <= N_CHAR implies 0 <= #[trigger] w.chars[s] < N_CHAR by {
        assert(0 <= v.chars[s] < N_CHAR);
    }
    assert forall|c: int, s: int| 0 <= c < N_CHAR && 1 <= s <= N_CHAR implies ((
    #[trigger] w.ranks[c] == s) <==> (#[trigger] w.chars[s] == c)) by {
        assert((v.ranks[c] == s) <==> (v.chars[s] == c));
        assert((v.ranks[c] == i) <==> (v.chars[i] == c));
        assert((v.ranks[c] == sym) <==> (v.chars[sym] == c));
        assert((v.ranks[ci] == s) <==> (v.chars[s] == ci));
        assert((v.ranks[cs] == s) <==> (v.chars[s] == cs));
    }
}

/// The initial model has the invariant.
pub proof fn lemma_initial_wf()
    ensures
        ModelView::initial().wf(),
{
}

/// Every update keeps the invariant of the symbol model: the total stays
/// below the first quartile, the frequencies never rise with the rank, and
/// neighbouring cumulative counts differ by the frequency between them.
pub proof fn lemma_updated_wf(v: ModelView, sym: int)
    requires
        v.wf(),
        1 <= sym <= N_CHAR,
    ensures
        v.updated(sym).wf(),
{
    if v.cum[0] >= MAX_CUM {
        lemma_rescaled_wf(v);
        lemma_promoted_wf(v.rescaled(), sym);
    } else {
        lemma_promoted_wf(v, sym);
    }
}

fn zeros_usize(n: usize) -> (v: Vec<usize>)
    ensures
        v@.len() == n,
        forall|i: int| 0 <= i < n ==> v@[i] == 0,
{
    let mut v: Vec<usize> = Vec::new();
    let mut i: usize = 0;
    while i < n
        invariant
            i <= n,
            v@.len() == i,
            forall|k: int| 0 <= k < i ==> v@[k] == 0,
        decreases n - i,
    {
        v.push(0);
        i += 1;
    }
    v
}

fn zeros_u64(n: usize) -> (v: Vec<u64>)
    ensures
        v@.len() == n,
        forall|i: int| 0 <= i < n ==> v@[i] == 0,
{
    let mut v: Vec<u64> = Vec::new();
    let mut i: usize = 0;
    while i < n
        invariant
            i <= n,
            v@.len() == i,
            forall|k: int| 0 <= k < i ==> v@[k] == 0,
        decreases n - i,
    {
        v.push(0);
        i += 1;
    }
    v
}

/// The adaptive model of the 314 symbols.
pub struct SymbolModel {
    char_to_sym: Vec<usize>,
    sym_to_char: Vec<usize>,
    sym_freq: Vec<u64>,
    sym_cum: Vec<u64>,
}

impl SymbolModel {
    /// What the model holds.
    pub closed spec fn view(&self) -> ModelView {
        ModelView {
            ranks: Seq::new(self.char_to_sym@.len(), |i: int| self.char_to_sym@[i] as int),
            chars: Seq::new(self.sym_to_char@.len(), |i: int| self.sym_to_char@[i] as int),
            freq: Seq::new(self.sym_freq@.len(), |i: int| self.sym_freq@[i] as int),
            cum: Seq::new(self.sym_cum@.len(), |i: int| self.sym_cum@[i] as int),
        }
    }

    /// The tables have their sizes; nothing is said of what they hold.
    pub closed spec fn allocated(&self) -> bool {
        &&& self.char_to_sym@.len() == N_CHAR
        &&& self.sym_to_char@.len() == N_CHAR + 1
        &&& self.sym_freq@.len() == N_CHAR + 1
        &&& self.sym_cum@.len() == N_CHAR + 1
        &&& self.sym_freq@[0] == 0
        &&& self.sym_cum@[N_CHAR as int] == 0
    }

    /// Tables of the right sizes, filled with zeros.
    pub fn new() -> (m: Self)
        ensures
            m.allocated(),
    {
        SymbolModel {
            char_to_sym: zeros_usize(N_CHAR),
            sym_to_char: zeros_usize(N_CHAR + 1),
            sym_freq: zeros_u64(N_CHAR + 1),
            sym_cum: zeros_u64(N_CHAR + 1),
        }
    }

    /// Seeds every symbol with frequency one, character `c` at rank `c + 1`.
    pub fn start_model(&mut self)
        requires
            old(self).allocated(),
        ensures
            final(self)@ == ModelView::initial(),
            final(self)@.wf(),
    {
        let mut sym: usize = N_CHAR;
        while sym >= 1
            invariant
                sym <= N_CHAR,
                self.allocated(),
                forall|s: int| sym < s <= N_CHAR ==> self.sym_to_char@[s] == s - 1,
                forall|c: int| sym <= c < N_CHAR ==> self.char_to_sym@[c] == c + 1,
                forall|s: int| sym < s <= N_CHAR ==> self.sym_freq@[s] == 1,
                forall|s: int| sym <= s <= N_CHAR ==> self.sym_cum@[s] == N_CHAR - s,
            decreases sym,
        {
            let ch: usize = sym - 1;
            self.char_to_sym.set(ch, sym);
            self.sym_to_char.set(sym, ch);
            self.sym_freq.set(sym, 1);
            let c: u64 = self.sym_cum[sym] + self.sym_freq[sym];
            self.sym_cum.set(sym - 1, c);
            sym -= 1;
        }
        self.sym_to_char.set(0, 0);
        proof {
            assert(self@.ranks =~= ModelView::initial().ranks);
            assert(self@.chars =~= ModelView::initial().chars);
            assert(self@.freq =~= ModelView::initial().freq);
            assert(self@.cum =~= ModelView::initial().cum);
        }
    }

    /// The sum of all frequencies.
    pub fn total(&self) -> (t: u64)
        requires
            self@.wf(),
        ensures
            t == self@.cum[0],
    {
        self.sym_cum[0]
    }

    /// The sum of the frequencies of the ranks above `i`.
    pub fn cum(&self, i: usize) -> (c: u64)
        requires
            self@.wf(),
            i <= N_CHAR,
        ensures
            c == self@.cum[i as int],
    {
        self.sym_cum[i]
    }

    /// The frequency at rank `sym`.
    pub fn freq(&self, sym: usize) -> (f: u64)
        requires
            self@.wf(),
            sym <= N_CHAR,
        ensures
            f == self@.freq[sym as int],
    {
        self.sym_freq[sym]
    }

    /// The rank of character `ch`.
    pub fn sym_of(&self, ch: usize) -> (sym: usize)
        requires
            self@.wf(),
            ch < N_CHAR,
        ensures
            sym == self@.ranks[ch as int],
            1 <= sym <= N_CHAR,
    {
        let sym = self.char_to_sym[ch];
        assert(1 <= self@.ranks[ch as int] <= N_CHAR);
        sym
    }

    /// The character at rank `sym`.
    pub fn char_of(&self, sym: usize) -> (ch: usize)
        requires
            self@.wf(),
            1 <= sym <= N_CHAR,
        ensures
            ch == self@.chars[sym as int],
            ch < N_CHAR,
    {
        let ch = self.sym_to_char[sym];
        assert(0 <= self@.chars[sym as int] < N_CHAR);
        ch
    }

    #[verifier::rlimit(40)]
    fn rescale(&mut self)
        requires
            old(self)@.wf(),
        ensures
            final(self)@ == old(self)@.rescaled(),
    {
        let ghost v = self@;
        let mut c: u64 = 0;
        let mut i: usize = N_CHAR;
        while i >= 1
            invariant
                i <= N_CHAR,
                v.wf(),
                self.sym_freq@.len() == N_CHAR + 1,
                self.sym_cum@.len() == N_CHAR + 1,
                self@.ranks == v.ranks,
                self@.chars == v.chars,
                c == halved_tail(v.freq, i as int),
                forall|j: int| 0 <= j <= i ==> self.sym_freq@[j] == v.freq[j],
                forall|j: int| i < j <= N_CHAR ==> self.sym_freq@[j] == halved(v.freq[j]),
                forall|j: int| i < j <= N_CHAR ==> self.sym_cum@[j] == halved_tail(v.freq, j),
            decreases i,
        {
            proof {
                lemma_halved_tail_bound(v, i as int);
                lemma_halved_tail_bound(v, i as int - 1);
                assert(halved_tail(v.freq, i as int - 1) == halved_tail(v.freq, i as int)
                    + halved(v.freq[i as int]));
                assert(v.cum[0] <= MAX_CUM);
                lemma_cum_falls(v, 0, i as int - 1);
            }
            self.sym_cum.set(i, c);
            let f: u64 = (self.sym_freq[i] + 1) >> 1;
            assert(f == halved(v.freq[i as int])) by {
                let x: u64 = self.sym_freq@[i as int];
                assert((x + 1) as u64 >> 1 == (x + 1) as u64 / 2) by (bit_vector);
            }
            self.sym_freq.set(i, f);
            c += f;
            i -= 1;
        }
        self.sym_cum.set(0, c);
        proof {
            assert(self@.freq =~= v.rescaled().freq);
            assert(self@.cum =~= v.rescaled().cum);
        }
    }

    fn find_leader(&self, sym: usize, Ghost(f): Ghost<Seq<int>>) -> (i: usize)
        requires
            self.sym_freq@.len() == N_CHAR + 1,
            f.len() == N_CHAR + 1,
            forall|k: int| 0 <= k <= N_CHAR ==> f[k] == #[trigger] self.sym_freq@[k],
            f[0] == 0,
            forall|k: int| 1 <= k <= N_CHAR ==> #[trigger] f[k] >= 1,
            1 <= sym <= N_CHAR,
        ensures
            i == leader(f, sym as int),
            1 <= i <= sym,
    {
        let mut i: usize = sym;
        while self.sym_freq[i] == self.sym_freq[i - 1]
            invariant
                1 <= i <= sym <= N_CHAR,
                self.sym_freq@.len() == N_CHAR + 1,
                f.len() == N_CHAR + 1,
                forall|k: int| 0 <= k <= N_CHAR ==> f[k] == #[trigger] self.sym_freq@[k],
                f[0] == 0,
                forall|k: int| 1 <= k <= N_CHAR ==> #[trigger] f[k] >= 1,
                leader(f, i as int) == leader(f, sym as int),
            decreases i,
        {
            assert(f[i as int] >= 1);
            assert(f[i as int] == f[i as int - 1]);
            assert(i > 1);
            i -= 1;
        }
        assert(f[i as int] != f[i as int - 1]);
        i
    }

    fn swap_ranks(&mut self, i: usize, sym: usize)
        requires
            old(self).char_to_sym@.len() == N_CHAR,
            old(self).sym_to_char@.len() == N_CHAR + 1,
            1 <= i <= sym <= N_CHAR,
            old(self).sym_to_char@[i as int] < N_CHAR,
            old(self).sym_to_char@[sym as int] < N_CHAR,
            old(self).char_to_sym@[old(self).sym_to_char@[sym as int] as int] == sym,
        ensures
            final(self).sym_to_char@ == old(self).sym_to_char@.update(
                i as int,
                old(self).sym_to_char@[sym as int],
            ).update(sym as int, old(self).sym_to_char@[i as int]),
            final(self).char_to_sym@ == old(self).char_to_sym@.update(
                old(self).sym_to_char@[i as int] as int,
                sym,
            ).update(old(self).sym_to_char@[sym as int] as int, i),
            final(self).sym_freq@ == old(self).sym_freq@,
            final(self).sym_cum@ == old(self).sym_cum@,
    {
        if i < sym {
            let ch_i: usize = self.sym_to_char[i];
            let ch_sym: usize = self.sym_to_char[sym];
            self.sym_to_char.set(i, ch_sym);
            self.sym_to_char.set(sym, ch_i);
            self.char_to_sym.set(ch_i, sym);
            self.char_to_sym.set(ch_sym, i);
        } else {
            assert(self.sym_to_char@ =~= old(self).sym_to_char@.update(
                i as int,
                old(self).sym_to_char@[sym as int],
            ).update(sym as int, old(self).sym_to_char@[i as int]));
            assert(self.char_to_sym@ =~= old(self).char_to_sym@.update(
                old(self).sym_to_char@[i as int] as int,
                sym,
            ).update(old(self).sym_to_char@[sym as int] as int, i));
        }
    }

    fn bump(&mut self, i: usize)
        requires
            old(self).sym_freq@.len() == N_CHAR + 1,
            old(self).sym_cum@.len() == N_CHAR + 1,
            1 <= i <= N_CHAR,
            old(self).sym_freq@[i as int] < MAX_CUM,
            forall|k: int| 0 <= k < i ==> old(self).sym_cum@[k] < MAX_CUM,
        ensures
            final(self).sym_to_char@ == old(self).sym_to_char@,
            final(self).char_to_sym@ == old(self).char_to_sym@,
            final(self).sym_freq@ == old(self).sym_freq@.update(
                i as int,
                (old(self).sym_freq@[i as int] + 1) as u64,
            ),
            final(self).sym_cum@.len() == N_CHAR + 1,
            forall|k: int| 0 <= k < i ==> final(self).sym_cum@[k] == old(self).sym_cum@[k] + 1,
            forall|k: int|
                i <= k <= N_CHAR ==> final(self).sym_cum@[k] == old(self).sym_cum@[k],
    {
        let f: u64 = self.sym_freq[i] + 1;
        self.sym_freq.set(i, f);
        let mut j: usize = i;
        while j > 0
            invariant
                j <= i <= N_CHAR,
                self.sym_cum@.len() == N_CHAR + 1,
                self.sym_to_char@ == old(self).sym_to_char@,
                self.char_to_sym@ == old(self).char_to_sym@,
                self.sym_freq@ == old(self).sym_freq@.update(
                    i as int,
                    (old(self).sym_freq@[i as int] + 1) as u64,
                ),
                forall|k: int| 0 <= k < i ==> old(self).sym_cum@[k] < MAX_CUM,
                forall|k: int| 0 <= k < j ==> self.sym_cum@[k] == old(self).sym_cum@[k],
                forall|k: int| j <= k < i ==> self.sym_cum@[k] == old(self).sym_cum@[k] + 1,
                forall|k: int| i <= k <= N_CHAR ==> self.sym_cum@[k] == old(self).sym_cum@[k],
            decreases j,
        {
            j -= 1;
            let c: u64 = self.sym_cum[j] + 1;
            self.sym_cum.set(j, c);
        }
    }

    #[verifier::rlimit(40)]
    fn promote(&mut self, sym: usize)
        requires
            old(self)@.wf(),
            old(self)@.cum[0] < MAX_CUM,
            1 <= sym <= N_CHAR,
        ensures
            final(self)@ == old(self)@.promoted(sym as int),
    {
        let ghost v = self@;
        let i: usize = self.find_leader(sym, Ghost(v.freq));
        proof {
            lemma_leader(v.freq, sym as int);
        }
        proof {
            assert(0 <= v.chars[i as int] < N_CHAR);
            assert(0 <= v.chars[sym as int] < N_CHAR && v.ranks[v.chars[sym as int]] == sym);
            assert forall|k: int| 0 <= k < i implies self.sym_cum@[k] < MAX_CUM by {
                lemma_cum_falls(v, 0, k);
                assert(v.cum[k] == self.sym_cum@[k]);
            }
            lemma_cum_falls(v, i as int - 1, N_CHAR as int);
            assert(v.cum[i as int - 1] == v.cum[i as int] + v.freq[i as int]);
            lemma_cum_falls(v, 0, i as int - 1);
        }
        self.swap_ranks(i, sym);
        self.bump(i);
        proof {
            let w = v.promoted(sym as int);
            assert(self@.chars =~= w.chars);
            assert(self@.ranks =~= w.ranks);
            assert(self@.freq =~= w.freq);
            assert(self@.cum =~= w.cum);
        }
    }

    /// Counts one more occurrence of the symbol at rank `sym`, after halving
    /// all frequencies if the total has reached its limit.
    pub fn update_model(&mut self, sym: usize)
        requires
            old(self)@.wf(),
            1 <= sym <= N_CHAR,
        ensures
            final(self)@ == old(self)@.updated(sym as int),
            final(self)@.wf(),
    {
        proof {
            lemma_updated_wf(self@, sym as int);
        }
        if self.sym_cum[0] >= MAX_CUM {
            proof {
                lemma_rescaled_wf(self@);
            }
            self.rescale();
        }
        self.promote(sym);
    }

    /// The lowest rank whose cumulative count is at most `x`.
    pub fn binary_search_sym(&self, x: u64) -> (sym: usize)
        requires
            self@.wf(),
        ensures
            1 <= sym <= N_CHAR,
            self@.cum[sym as int] <= x,
            forall|s: int| 1 <= s < sym ==> self@.cum[s] > x,
    {
        let mut i: usize = 1;
        let mut j: usize = N_CHAR;
        while i < j
            invariant
                1 <= i <= j <= N_CHAR,
                self@.wf(),
                self@.cum[j as int] <= x,
                i > 1 ==> self@.cum[i as int - 1] > x,
            decreases j - i,
        {
            let k: usize = (i + j) / 2;
            if self.sym_cum[k] > x {
                i = k + 1;
            } else {
                j = k;
            }
        }
        proof {
            assert forall|s: int| 1 <= s < i implies self@.cum[s] > x by {
                lemma_cum_falls(self@, s, i as int - 1);
            }
        }
        i
    }
}

/// Weight of match position `i - 1` in the position model.
pub open spec fn position_weight(i: int) -> int {
    10000int / (i + 200)
}

/// Sum of the weights of the positions from `i` on.
pub open spec fn position_cum(i: int) -> int
    decreases RING_BUF_SIZE - i,
{
    if i >= RING_BUF_SIZE {
        0
    } else {
        position_cum(i + 1) + position_weight(i + 1)
    }
}

/// An upper bound of `position_cum(i)` that is linear between a few break points.
pub open spec fn position_cap(i: int) -> int {
    if i + 1 < 64 {
        27816 + (63 - i) * 49
    } else if i + 1 < 145 {
        24819 + (144 - i) * 37
    } else if i + 1 < 255 {
        21739 + (254 - i) * 28
    } else if i + 1 < 389 {
        18925 + (388 - i) * 21
    } else if i + 1 < 570 {
        16029 + (569 - i) * 16
    } else if i + 1 < 801 {
        13257 + (800 - i) * 12
    } else if i + 1 < 1051 {
        11007 + (1050 - i) * 9
    } else if i + 1 < 1467 {
        8095 + (1466 - i) * 7
    } else if i + 1 < 1801 {
        6425 + (1800 - i) * 5
    } else if i + 1 < 2301 {
        4425 + (2300 - i) * 4
    } else if i + 1 < 3134 {
        1926 + (3133 - i) * 3
    } else {
        0 + (4096 - i) * 2
    }
}

proof fn lemma_weight_bound(t: int, a: int, c: int)
    by (nonlinear_arith)
    requires
        0 < a <= t,
        0 <= c,
        10000 < (c + 1) * (a + 200),
    ensures
        0 <= 10000int / (t + 200) <= c,
{
}

proof fn lemma_weight_floor(t: int)
    by (nonlinear_arith)
    requires
        0 < t <= 4096,
    ensures
        10000int / (t + 200) >= 2,
{
}

/// The position weights are at least two, and their sums stay below the cap.
pub proof fn lemma_position_cum_bound(i: int)
    requires
        0 <= i <= RING_BUF_SIZE,
    ensures
        0 <= position_cum(i) <= position_cap(i),
        i < RING_BUF_SIZE ==> position_cum(i) >= position_cum(i + 1) + 2,
    decreases RING_BUF_SIZE - i,
{
    if i < RING_BUF_SIZE {
        lemma_position_cum_bound(i + 1);
        lemma_weight_floor(i + 1);
        if i + 1 < 64 {
            lemma_weight_bound(i + 1, 1, 49);
        } else if i + 1 < 145 {
            lemma_weight_bound(i + 1, 64, 37);
        } else if i + 1 < 255 {
            lemma_weight_bound(i + 1, 145, 28);
        } else if i + 1 < 389 {
            lemma_weight_bound(i + 1, 255, 21);
        } else if i + 1 < 570 {
            lemma_weight_bound(i + 1, 389, 16);
        } else if i + 1 < 801 {
            lemma_weight_bound(i + 1, 570, 12);
        } else if i + 1 < 1051 {
            lemma_weight_bound(i + 1, 801, 9);
        } else if i + 1 < 1467 {
            lemma_weight_bound(i + 1, 1051, 7);
        } else if i + 1 < 1801 {
            lemma_weight_bound(i + 1, 1467, 5);
        } else if i + 1 < 2301 {
            lemma_weight_bound(i + 1, 1801, 4);
        } else if i + 1 < 3134 {
            lemma_weight_bound(i + 1, 2301, 3);
        } else {
            lemma_weight_bound(i + 1, 3134, 2);
        }
    }
}

/// The total of the position model is below the limit of the coder.
pub proof fn lemma_position_total()
    ensures
        0 < position_cum(0) <= MAX_CUM,
{
    lemma_position_cum_bound(0);
    lemma_position_cum_bound(1);
}

/// The position sums fall strictly.
pub proof fn lemma_position_cum_falls(a: int, b: int)
    requires
        0 <= a <= b <= RING_BUF_SIZE,
    ensures
        position_cum(a) >= position_cum(b) + 2 * (b - a),
        position_cum(b) >= 0,
        position_cum(a) <= MAX_CUM,
    decreases b - a,
{
    lemma_position_cum_bound(b);
    lemma_position_cum_bound(a);
    if a < b {
        lemma_position_cum_falls(a, b - 1);
        lemma_position_cum_bound(b - 1);
    } else {
        lemma_position_cum_falls_to_total(a);
    }
}

proof fn lemma_position_cum_falls_to_total(a: int)
    requires
        0 <= a <= RING_BUF_SIZE,
    ensures
        position_cum(a) <= position_cum(0) <= MAX_CUM,
    decreases a,
{
    lemma_position_total();
    if a > 0 {
        lemma_position_cum_falls_to_total(a - 1);
        lemma_position_cum_bound(a - 1);
    }
}

/// The fixed model of the 4096 match positions.
pub struct PositionModel {
    cum: Vec<u64>,
}

impl PositionModel {
    /// The table has its size; nothing is said of what it holds but the
    /// zero at its end.
    pub closed spec fn allocated(&self) -> bool {
        &&& self.cum@.len() == RING_BUF_SIZE + 1
        &&& self.cum@[RING_BUF_SIZE as int] == 0
    }

    /// The table holds the sums of the position weights.
    pub closed spec fn wf(&self) -> bool {
        &&& self.cum@.len() == RING_BUF_SIZE + 1
        &&& forall|i: int|
            0 <= i <= RING_BUF_SIZE ==> #[trigger] self.cum@[i] == position_cum(i)
    }

    /// A table of the right size, filled with zeros.
    pub fn new() -> (m: Self)
        ensures
            m.allocated(),
    {
        PositionModel { cum: zeros_u64(RING_BUF_SIZE + 1) }
    }

    /// Fills the table from its end.
    pub fn start_model(&mut self)
        requires
            old(self).allocated(),
        ensures
            final(self).wf(),
    {
        let mut i: usize = RING_BUF_SIZE;
        while i >= 1
            invariant
                i <= RING_BUF_SIZE,
                self.cum@.len() == RING_BUF_SIZE + 1,
                forall|k: int| i <= k <= RING_BUF_SIZE ==> #[trigger] self.cum@[k] == position_cum(k),
            decreases i,
        {
            proof {
                lemma_position_cum_falls(i as int - 1, i as int);
            }
            let weight: u64 = 10000 / (i as u64 + 200);
            let c: u64 = self.cum[i] + weight;
            self.cum.set(i - 1, c);
            i -= 1;
        }
    }

    /// The sum of all position weights.
    pub fn total(&self) -> (t: u64)
        requires
            self.wf(),
        ensures
            t == position_cum(0),
            0 < t <= MAX_CUM,
    {
        proof {
            lemma_position_total();
        }
        self.cum[0]
    }

    /// The sum of the weights of the positions from `i` on.
    pub fn cum(&self, i: usize) -> (c: u64)
        requires
            self.wf(),
            i <= RING_BUF_SIZE,
        ensures
            c == position_cum(i as int),
    {
        self.cum[i]
    }

    /// The lowest position `p` with `position_cum(p + 1)` at most `x`.
    pub fn binary_search_pos(&self, x: u64) -> (pos: usize)
        requires
            self.wf(),
        ensures
            pos < RING_BUF_SIZE,
            position_cum(pos + 1) <= x,
            forall|i: int| 1 <= i <= pos ==> #[trigger] position_cum(i) > x,
    {
        let mut i: usize = 1;
        let mut j: usize = RING_BUF_SIZE;
        while i < j
            invariant
                1 <= i <= j <= RING_BUF_SIZE,
                self.wf(),
                position_cum(j as int) <= x,
                i > 1 ==> position_cum(i as int - 1) > x,
            decreases j - i,
        {
            let k: usize = (i + j) / 2;
            if self.cum[k] > x {
                i = k + 1;
            } else {
                j = k;
            }
        }
        proof {
            assert forall|k: int| 1 <= k <= i - 1 implies #[trigger] position_cum(k) > x by {
                lemma_position_cum_falls(k, i as int - 1);
            }
        }
        i - 1
    }
}

} // verus!
