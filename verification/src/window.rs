//! The sliding window of the encoder: the ring buffer with its look-ahead,
//! the tree over its positions, and the text that has passed through it.

use vstd::prelude::*;
use crate::params::{MAX_MATCH_LEN, RING_BUF_SIZE, THRESHOLD};
use crate::tree::{
    agree, agree_at, empty_links, ring_distance, sought, tree_delete, tree_insert, tree_put,
    MatchFinder, TreeView, TEXT_LEN,
};

verus! {

/// The byte at index `i` of the text, where the text is taken to go on to
/// the left with spaces.
pub open spec fn history(text: Seq<u8>, i: int) -> u8 {
    if i < 0 {
        0x20
    } else {
        text[i]
    }
}

/// The byte `j` places after `at` is the byte `back` places before it.
pub open spec fn echo_at(text: Seq<u8>, at: int, back: int, j: int) -> bool {
    history(text, at + j) == history(text, at + j - back)
}

/// The `n` bytes from `at` on repeat the bytes that lie `back` places
/// before them.
pub open spec fn repeats(text: Seq<u8>, at: int, back: int, n: int) -> bool {
    forall|j: int| 0 <= j < n ==> #[trigger] echo_at(text, at, back, j)
}

/// What a search of the window may report: no match, or a match longer
/// than the threshold that lies within the window and repeats the text.
pub open spec fn sound_match(text: Seq<u8>, at: int, found: (usize, usize)) -> bool {
    found.1 == 0 || {
        &&& THRESHOLD < found.1 <= MAX_MATCH_LEN
        &&& 1 <= found.0 <= RING_BUF_SIZE - MAX_MATCH_LEN
        &&& repeats(
            text,
            at,
            found.0 as int,
            if found.1 <= text.len() - at {
                found.1 as int
            } else {
                text.len() - at
            },
        )
    }
}

/// The ring slot of an offset that is at most one lap off.
pub open spec fn slot(u: int) -> int {
    if u < 0 {
        u + RING_BUF_SIZE
    } else if u >= RING_BUF_SIZE {
        u - RING_BUF_SIZE
    } else {
        u
    }
}

/// What the window is made of: the tree with its text buffer, the ring
/// positions of its back and of its front, and the number of bytes of
/// look-ahead.
pub struct WindowView {
    pub tree: TreeView,
    pub back: int,
    pub front: int,
    pub ahead: int,
}

/// The text buffer at the start: spaces, then the first bytes of the
/// input, then zeros.
pub open spec fn first_buf(input: Seq<u8>) -> Seq<u8> {
    Seq::new(
        TEXT_LEN as nat,
        |i: int|
            if i < RING_BUF_SIZE - MAX_MATCH_LEN {
                0x20u8
            } else if i < RING_BUF_SIZE && i - (RING_BUF_SIZE - MAX_MATCH_LEN) < input.len() {
                input[i - (RING_BUF_SIZE - MAX_MATCH_LEN)]
            } else {
                0u8
            },
    )
}

/// The tree after the `i` positions before `r` were put into it, the
/// nearest first.
pub open spec fn seeded(t: TreeView, r: int, i: int) -> TreeView
    decreases i,
{
    if i <= 0 {
        t
    } else {
        tree_insert(seeded(t, r, i - 1), r - i)
    }
}

/// The tree at the start, before the front goes in: over the first text
/// buffer, with the positions before the front.
pub open spec fn first_tree(input: Seq<u8>) -> TreeView {
    seeded(
        TreeView { buf: first_buf(input), links: empty_links(), last: 0 },
        RING_BUF_SIZE - MAX_MATCH_LEN,
        MAX_MATCH_LEN as int,
    )
}

/// The window at the start.
pub open spec fn started(input: Seq<u8>) -> WindowView {
    WindowView {
        tree: tree_insert(first_tree(input), RING_BUF_SIZE - MAX_MATCH_LEN),
        back: 0,
        front: RING_BUF_SIZE - MAX_MATCH_LEN,
        ahead: if input.len() < MAX_MATCH_LEN {
            input.len() as int
        } else {
            MAX_MATCH_LEN as int
        },
    }
}

/// The match that the start reports.
pub open spec fn started_found(input: Seq<u8>) -> (int, int) {
    sought(first_tree(input), RING_BUF_SIZE - MAX_MATCH_LEN)
}

/// The tree in the middle of a slide: the back has left it, and the next
/// byte, if there is one, stands in its place, and in the tail too where
/// the place is among the first of the ring.
pub open spec fn shifted(w: WindowView, next: Option<u8>) -> TreeView {
    let t = tree_delete(w.tree, w.back);
    match next {
        Some(c) => if w.back < MAX_MATCH_LEN - 1 {
            tree_put(tree_put(t, w.back, c), w.back + RING_BUF_SIZE, c)
        } else {
            tree_put(t, w.back, c)
        },
        None => t,
    }
}

/// The look-ahead after a slide: as long as before where a byte came in,
/// shorter by one where none did.
pub open spec fn ahead_after(w: WindowView, next: Option<u8>) -> int {
    match next {
        Some(c) => w.ahead,
        None => w.ahead - 1,
    }
}

/// The window after a slide: the new front is put into the tree if any
/// look-ahead is left.
pub open spec fn slid(w: WindowView, next: Option<u8>) -> WindowView {
    let front = slot(w.front + 1);
    WindowView {
        tree: if ahead_after(w, next) > 0 {
            tree_insert(shifted(w, next), front)
        } else {
            shifted(w, next)
        },
        back: slot(w.back + 1),
        front,
        ahead: ahead_after(w, next),
    }
}

/// The match that a slide reports: the one found at the new front, or
/// none where no look-ahead is left.
pub open spec fn slid_found(w: WindowView, next: Option<u8>) -> (int, int) {
    if ahead_after(w, next) > 0 {
        sought(shifted(w, next), slot(w.front + 1))
    } else {
        (0, 0)
    }
}

proof fn lemma_next_slot(x: usize)
    by (bit_vector)
    requires
        x <= 4096,
    ensures
        x & 4095 == (if x == 4096 { 0usize } else { x }),
{
}

/// The window of the encoder.
pub struct Window {
    finder: MatchFinder,
    s: usize,
    r: usize,
    len: usize,
    text: Ghost<Seq<u8>>,
    cur: Ghost<int>,
    base: Ghost<int>,
    count: Ghost<int>,
    lost: Ghost<Set<int>>,
    front_in: Ghost<bool>,
}

impl Window {
    /// The bytes that the window has taken in so far.
    pub closed spec fn text(&self) -> Seq<u8> {
        self.text@
    }

    /// Index in the text of the byte at the front of the window.
    pub closed spec fn cursor(&self) -> int {
        self.cur@
    }

    /// Ring position of the front of the window.
    pub closed spec fn front_slot(&self) -> int {
        self.r as int
    }

    /// Number of ring positions, counted back from the front, that were
    /// put into the tree and not taken out again.
    pub closed spec fn filled(&self) -> int {
        self.count@
    }

    /// The front of the window was put into the tree.
    pub closed spec fn front_indexed(&self) -> bool {
        self.front_in@
    }

    /// The ring positions whose node gave way to a later position with
    /// the same string.
    pub closed spec fn displaced(&self) -> Set<int> {
        self.lost@
    }

    /// Ring position `p` is a node of the tree.
    pub closed spec fn holds(&self, p: int) -> bool {
        self.finder.contains(p)
    }

    /// Ring position `p` is among those that the window has put into the
    /// tree and not taken out again.
    pub open spec fn in_window(&self, p: int) -> bool {
        &&& 0 <= p < RING_BUF_SIZE
        &&& ring_distance(self.front_slot(), p) < self.filled()
        &&& (p != self.front_slot() || self.front_indexed())
    }

    spec fn offset(&self, t: int) -> int {
        RING_BUF_SIZE - MAX_MATCH_LEN + t - self.base@
    }

    spec fn stored(&self, t: int) -> bool {
        let x = slot(self.offset(t));
        &&& self.finder.buf()[x] == history(self.text@, t)
        &&& (t >= MAX_MATCH_LEN && x < MAX_MATCH_LEN - 1 ==> self.finder.buf()[x + RING_BUF_SIZE]
            == history(self.text@, t))
    }

    /// The window as seen from outside.
    pub closed spec fn view(&self) -> WindowView {
        WindowView {
            tree: self.finder@,
            back: self.s as int,
            front: self.r as int,
            ahead: self.len as int,
        }
    }

    /// The window has its buffers, still filled with zeros.
    pub closed spec fn fresh(&self) -> bool {
        &&& self.finder.allocated()
        &&& self.finder.buf() == Seq::new(TEXT_LEN as nat, |i: int| 0u8)
        &&& self.finder.last_position() == 0
    }

    /// The invariant of the window.
    pub closed spec fn wf(&self) -> bool {
        &&& self.finder.wf()
        &&& self.finder.buf().len() == TEXT_LEN
        &&& self.s < RING_BUF_SIZE
        &&& self.r < RING_BUF_SIZE
        &&& self.s == slot(self.r + MAX_MATCH_LEN)
        &&& self.len <= MAX_MATCH_LEN
        &&& self.cur@ >= 0
        &&& self.text@.len() == self.cur@ + self.len
        &&& (self.base@ == 0 || self.base@ >= RING_BUF_SIZE)
        &&& self.r == self.offset(self.cur@)
        &&& MAX_MATCH_LEN + 1 <= self.count@ <= RING_BUF_SIZE - MAX_MATCH_LEN + 1
        &&& self.count@ <= MAX_MATCH_LEN + 1 + self.cur@
        &&& (self.front_in@ || self.len == 0)
        &&& forall|t: int|
            self.cur@ - (RING_BUF_SIZE - MAX_MATCH_LEN) <= t < self.text@.len()
                ==> #[trigger] self.stored(t)
        &&& forall|p: int|
            0 <= p < RING_BUF_SIZE ==> (#[trigger] self.finder.contains(p) <==> self.in_window(p)
                && !self.lost@.contains(p))
    }

    /// The tree holds the positions of the window, but for those whose
    /// node gave way to a later position with the same string.
    pub proof fn lemma_tree_is_window(&self)
        requires
            self.wf(),
        ensures
            forall|p: int|
                #[trigger] self.holds(p) <==> self.in_window(p) && !self.displaced().contains(p),
            self.displaced() =~= Set::<int>::empty() ==> forall|p: int|
                #[trigger] self.holds(p) <==> self.in_window(p),
    {
        assert forall|p: int|
            #[trigger] self.holds(p) <==> self.in_window(p) && !self.displaced().contains(
                p,
            ) by {
            if 0 <= p < RING_BUF_SIZE {
                assert(self.finder.contains(p) <==> self.in_window(p) && !self.lost@.contains(p));
            } else {
                self.finder.lemma_contains(p);
            }
        }
    }

    /// A window that is not yet started: its buffers have their sizes and
    /// hold zeros, its back is at the first ring position and its front as
    /// far from the end of the ring as the longest match is long, and it
    /// has taken in no text.
    pub fn new() -> (w: Self)
        ensures
            w.fresh(),
            w@.back == 0,
            w@.front == RING_BUF_SIZE - MAX_MATCH_LEN,
            w@.ahead == 0,
            w@.tree.buf == Seq::new(TEXT_LEN as nat, |i: int| 0u8),
            w@.tree.last == 0,
            w.front_slot() == RING_BUF_SIZE - MAX_MATCH_LEN,
            w.text() == Seq::<u8>::empty(),
            w.cursor() == 0,
            w.filled() == 0,
            !w.front_indexed(),
            w.displaced() == Set::<int>::empty(),
    {
        Window {
            finder: MatchFinder::new(),
            s: 0,
            r: RING_BUF_SIZE - MAX_MATCH_LEN,
            len: 0,
            text: Ghost(Seq::empty()),
            cur: Ghost(0),
            base: Ghost(0),
            count: Ghost(0),
            lost: Ghost(Set::empty()),
            front_in: Ghost(false),
        }
    }

    /// Number of bytes of look-ahead, from the front of the window on.
    pub fn lookahead(&self) -> (n: usize)
        requires
            self.wf(),
        ensures
            n == self@.ahead,
            n == self.text().len() - self.cursor(),
            n <= MAX_MATCH_LEN,
            self.cursor() >= 0,
    {
        self.len
    }

    /// Ring position of the front of the window.
    pub fn front_position(&self) -> (r: usize)
        requires
            self.wf(),
        ensures
            r == self@.front,
            r == self.front_slot(),
            r < RING_BUF_SIZE,
    {
        self.r
    }

    /// Tells whether ring position `p` is a node of the tree.
    pub fn has_node(&self, p: usize) -> (b: bool)
        requires
            self.wf(),
            p < RING_BUF_SIZE,
        ensures
            b == self.holds(p as int),
    {
        proof {
            self.finder.lemma_allocated();
        }
        self.finder.has_node(p)
    }

    /// The byte at the front of the window.
    pub fn front(&self) -> (c: u8)
        requires
            self.wf(),
            self.cursor() < self.text().len(),
        ensures
            c == self.text()[self.cursor()],
            c == self@.tree.buf[self@.front],
    {
        proof {
            assert(self.stored(self.cur@));
            self.finder.lemma_allocated();
        }
        self.finder.byte_at(self.r)
    }

    /// A match that the tree reports at the front repeats the text.
    #[verifier::rlimit(40)]
    proof fn lemma_sound(&self, p: int, found: (usize, usize))
        requires
            self.finder.buf().len() == TEXT_LEN,
            self.r < RING_BUF_SIZE,
            self.len <= MAX_MATCH_LEN,
            self.cur@ >= 0,
            self.text@.len() == self.cur@ + self.len,
            self.base@ == 0 || self.base@ >= RING_BUF_SIZE,
            self.r == self.offset(self.cur@),
            forall|t: int|
                self.cur@ - (RING_BUF_SIZE - MAX_MATCH_LEN) <= t < self.text@.len()
                    ==> #[trigger] self.stored(t),
            THRESHOLD < found.1 <= MAX_MATCH_LEN,
            1 <= found.0 <= RING_BUF_SIZE - MAX_MATCH_LEN,
            p == self.r - found.0 + if found.0 > self.r { RING_BUF_SIZE as int } else { 0 },
            agree(self.finder.buf(), p, self.r as int, found.1 as int),
        ensures
            sound_match(self.text@, self.cur@, found),
    {
        let n = if found.1 <= self.text@.len() - self.cur@ {
            found.1 as int
        } else {
            self.text@.len() - self.cur@
        };
        let back = found.0 as int;
        assert forall|j: int| 0 <= j < n implies #[trigger] echo_at(
            self.text@,
            self.cur@,
            back,
            j,
        ) by {
            let t = self.cur@ + j;
            assert(agree_at(self.finder.buf(), p, self.r as int, j));
            assert(self.stored(t));
            assert(self.stored(t - back));
            assert(self.offset(t) == self.r + j);
            assert(self.offset(t - back) == self.r + j - back);
        }
    }

    /// Fills the window with spaces and the first bytes of `input`, puts
    /// the positions before the front and the front itself into the tree,
    /// and reports the match found at the front.
    #[verifier::rlimit(40)]
    pub fn start(&mut self, input: &[u8]) -> (found: (usize, usize))
        requires
            old(self).fresh(),
        ensures
            final(self).wf(),
            final(self)@ == started(input@),
            (found.0 as int, found.1 as int) == started_found(input@),
            final(self).cursor() == 0,
            final(self).text() == input@.take(
                if input@.len() < MAX_MATCH_LEN {
                    input@.len() as int
                } else {
                    MAX_MATCH_LEN as int
                },
            ),
            final(self).front_indexed(),
            final(self).filled() == MAX_MATCH_LEN + 1,
            final(self).front_slot() == RING_BUF_SIZE - MAX_MATCH_LEN,
            sound_match(final(self).text(), 0, found),
    {
        self.finder.init_tree();
        proof {
            self.finder.lemma_allocated();
        }
        let mut i: usize = 0;
        while i < RING_BUF_SIZE - MAX_MATCH_LEN
            invariant
                i <= RING_BUF_SIZE - MAX_MATCH_LEN,
                self.finder.wf(),
                self.finder.buf().len() == TEXT_LEN,
                self.finder.links() == empty_links(),
                self.finder.last_position() == 0,
                forall|p: int| !self.finder.contains(p),
                forall|k: int| 0 <= k < i ==> self.finder.buf()[k] == 0x20,
                forall|k: int| i <= k < TEXT_LEN ==> self.finder.buf()[k] == 0,
            decreases RING_BUF_SIZE - MAX_MATCH_LEN - i,
        {
            self.finder.put(i, 0x20);
            i += 1;
        }
        let n: usize = input.len();
        let len: usize = if n < MAX_MATCH_LEN {
            n
        } else {
            MAX_MATCH_LEN
        };
        let r: usize = RING_BUF_SIZE - MAX_MATCH_LEN;
        let mut i: usize = 0;
        while i < len
            invariant
                i <= len <= MAX_MATCH_LEN,
                len <= input@.len(),
                r == RING_BUF_SIZE - MAX_MATCH_LEN,
                self.finder.wf(),
                self.finder.buf().len() == TEXT_LEN,
                self.finder.links() == empty_links(),
                self.finder.last_position() == 0,
                forall|p: int| !self.finder.contains(p),
                forall|k: int| 0 <= k < r ==> self.finder.buf()[k] == 0x20,
                forall|k: int| 0 <= k < i ==> self.finder.buf()[r + k] == input@[k],
                forall|k: int| r + i <= k < TEXT_LEN ==> self.finder.buf()[k] == 0,
            decreases len - i,
        {
            self.finder.put(r + i, input[i]);
            i += 1;
        }
        let ghost text = input@.take(len as int);
        let ghost buf = self.finder.buf();
        let ghost seed = self.finder@;
        proof {
            assert(buf =~= first_buf(input@));
        }
        let ghost mut lost: Set<int> = Set::empty();
        let mut i: usize = 1;
        while i <= MAX_MATCH_LEN
            invariant
                1 <= i <= MAX_MATCH_LEN + 1,
                r == RING_BUF_SIZE - MAX_MATCH_LEN,
                self.finder.wf(),
                self.finder.buf() == buf,
                self.finder@ == seeded(seed, r as int, i - 1),
                forall|p: int|
                    0 <= p < RING_BUF_SIZE ==> (#[trigger] self.finder.contains(p) <==> r - i < p
                        < r && !lost.contains(p)),
                forall|p: int| lost.contains(p) ==> r - i < p < r,
            decreases MAX_MATCH_LEN + 1 - i,
        {
            let ghost before = self.finder;
            let q: usize = r - i;
            let hit: (usize, usize) = self.finder.insert_node(q);
            proof {
                let gone = q - hit.0 + if hit.0 > q { RING_BUF_SIZE as int } else { 0 };
                let ghost was = lost;
                if hit.1 == MAX_MATCH_LEN {
                    lost = lost.insert(gone);
                }
                assert forall|p: int| 0 <= p < RING_BUF_SIZE implies (
                #[trigger] self.finder.contains(p) <==> r - (i + 1) < p < r && !lost.contains(
                    p,
                )) by {
                    assert(self.finder.contains(p) == (p == q || (before.contains(p) && !(hit.1
                        == MAX_MATCH_LEN && ring_distance(q as int, p) == hit.0))));
                    assert(before.contains(p) <==> r - i < p < r && !was.contains(p));
                    if hit.1 == MAX_MATCH_LEN {
                        assert(ring_distance(q as int, gone) == hit.0);
                        assert(before.contains(gone));
                    }
                }
            }
            i += 1;
        }
        self.s = 0;
        self.r = r;
        self.len = len;
        let ghost before = self.finder;
        let found = self.finder.insert_node(r);
        proof {
            let gone = r - found.0 + if found.0 > r { RING_BUF_SIZE as int } else { 0 };
            let ghost was = lost;
            if found.1 == MAX_MATCH_LEN {
                lost = lost.insert(gone);
            }
            self.finder.lemma_allocated();
            self.text@ = text;
            self.cur@ = 0;
            self.base@ = 0;
            self.count@ = MAX_MATCH_LEN + 1;
            self.lost@ = lost;
            self.front_in@ = true;
            assert forall|t: int|
                self.cur@ - (RING_BUF_SIZE - MAX_MATCH_LEN) <= t < self.text@.len()
                    implies #[trigger] self.stored(t) by {
                if t >= 0 {
                    assert(buf[r + t] == input@[t]);
                }
            }
            assert forall|p: int| 0 <= p < RING_BUF_SIZE implies (
            #[trigger] self.finder.contains(p) <==> self.in_window(p) && !self.lost@.contains(
                p,
            )) by {
                assert(self.finder.contains(p) == (p == r || (before.contains(p) && !(found.1
                    == MAX_MATCH_LEN && ring_distance(r as int, p) == found.0))));
                assert(before.contains(p) <==> r - (MAX_MATCH_LEN + 1) < p < r && !was.contains(
                    p,
                ));
                if found.1 == MAX_MATCH_LEN {
                    assert(ring_distance(r as int, gone) == found.0);
                    assert(before.contains(gone));
                }
            }
            if found.1 > 0 {
                assert(before.contains(gone));
                self.lemma_sound(gone, found);
            }
        }
        found
    }

    /// The buffer holds the text of the window after a slide.
    #[verifier::rlimit(40)]
    proof fn lemma_slid_buffer(pre: Window, post: Window, next: Option<u8>)
        requires
            pre.finder.buf().len() == TEXT_LEN,
            pre.s < RING_BUF_SIZE,
            pre.r < RING_BUF_SIZE,
            pre.s == slot(pre.r + MAX_MATCH_LEN),
            pre.cur@ >= 0,
            pre.text@.len() <= pre.cur@ + MAX_MATCH_LEN,
            next is Some ==> pre.text@.len() == pre.cur@ + MAX_MATCH_LEN,
            pre.base@ == 0 || pre.base@ >= RING_BUF_SIZE,
            pre.r == pre.offset(pre.cur@),
            forall|t: int|
                pre.cur@ - (RING_BUF_SIZE - MAX_MATCH_LEN) <= t < pre.text@.len()
                    ==> #[trigger] pre.stored(t),
            post.r == slot(pre.r + 1),
            post.cur@ == pre.cur@ + 1,
            post.base@ == (if post.r == 0 { pre.base@ + RING_BUF_SIZE } else { pre.base@ }),
            post.text@ == (match next {
                Some(c) => pre.text@.push(c),
                None => pre.text@,
            }),
            post.finder.buf() == (match next {
                Some(c) => if pre.s < MAX_MATCH_LEN - 1 {
                    pre.finder.buf().update(pre.s as int, c).update(pre.s + RING_BUF_SIZE, c)
                } else {
                    pre.finder.buf().update(pre.s as int, c)
                },
                None => pre.finder.buf(),
            }),
        ensures
            forall|t: int|
                post.cur@ - (RING_BUF_SIZE - MAX_MATCH_LEN) <= t < post.text@.len()
                    ==> #[trigger] post.stored(t),
            post.r == post.offset(post.cur@),
            post.base@ == 0 || post.base@ >= RING_BUF_SIZE,
    {
        assert forall|t: int|
            post.cur@ - (RING_BUF_SIZE - MAX_MATCH_LEN) <= t < post.text@.len()
                implies #[trigger] post.stored(t) by {
            if t < pre.text@.len() {
                assert(pre.stored(t));
                assert(pre.offset(t) == pre.r + (t - pre.cur@));
                assert(history(post.text@, t) == history(pre.text@, t));
            } else {
                assert(pre.offset(t) == pre.r + MAX_MATCH_LEN);
            }
        }
    }

    /// The tree holds the window after a slide.
    #[verifier::rlimit(40)]
    proof fn lemma_slid_nodes(
        pre: Window,
        mid: MatchFinder,
        post: Window,
        back: bool,
        found: (usize, usize),
    )
        requires
            pre.s < RING_BUF_SIZE,
            pre.r < RING_BUF_SIZE,
            pre.s == slot(pre.r + MAX_MATCH_LEN),
            MAX_MATCH_LEN + 1 <= pre.count@ <= RING_BUF_SIZE - MAX_MATCH_LEN + 1,
            pre.front_in@,
            forall|p: int|
                0 <= p < RING_BUF_SIZE ==> (#[trigger] pre.finder.contains(p) <==> pre.in_window(p)
                    && !pre.lost@.contains(p)),
            forall|p: int| #[trigger] mid.contains(p) == (pre.finder.contains(p) && p != pre.s),
            post.r == slot(pre.r + 1),
            post.count@ == (if pre.count@ < RING_BUF_SIZE - MAX_MATCH_LEN + 1 {
                pre.count@ + 1
            } else {
                pre.count@
            }),
            post.front_in@ == back,
            back ==> forall|p: int|
                #[trigger] post.finder.contains(p) == (p == post.r || (mid.contains(p) && !(
                found.1 == MAX_MATCH_LEN && ring_distance(post.r as int, p) == found.0))),
            !back ==> post.finder == mid && found.1 == 0,
            found.1 > 0 ==> 1 <= found.0 < RING_BUF_SIZE,
            post.lost@ == (if found.1 == MAX_MATCH_LEN {
                pre.lost@.remove(pre.s as int).remove(post.r as int).insert(
                    post.r - found.0 + if found.0 > post.r { RING_BUF_SIZE as int } else { 0 },
                )
            } else {
                pre.lost@.remove(pre.s as int).remove(post.r as int)
            }),
        ensures
            forall|p: int|
                0 <= p < RING_BUF_SIZE ==> (#[trigger] post.finder.contains(p) <==> post.in_window(
                    p,
                ) && !post.lost@.contains(p)),
            found.1 > 0 ==> found.0 <= RING_BUF_SIZE - MAX_MATCH_LEN || !mid.contains(
                post.r - found.0 + if found.0 > post.r { RING_BUF_SIZE as int } else { 0 },
            ),
    {
        let gone = post.r - found.0 + if found.0 > post.r { RING_BUF_SIZE as int } else { 0 };
        assert(ring_distance(pre.r as int, pre.s as int) == RING_BUF_SIZE - MAX_MATCH_LEN);
        if found.1 > 0 {
            assert(ring_distance(post.r as int, gone) == found.0);
            assert(ring_distance(post.r as int, gone) == ring_distance(pre.r as int, gone) + 1);
            assert(mid.contains(gone) == (pre.finder.contains(gone) && gone != pre.s));
            assert(pre.finder.contains(gone) <==> pre.in_window(gone) && !pre.lost@.contains(
                gone,
            ));
        }
        assert forall|p: int| 0 <= p < RING_BUF_SIZE implies (
        #[trigger] post.finder.contains(p) <==> post.in_window(p) && !post.lost@.contains(
            p,
        )) by {
            assert(pre.finder.contains(p) <==> pre.in_window(p) && !pre.lost@.contains(p));
            assert(mid.contains(p) == (pre.finder.contains(p) && p != pre.s));
            if p != post.r {
                assert(ring_distance(post.r as int, p) == ring_distance(pre.r as int, p) + 1);
            } else {
                assert(ring_distance(pre.r as int, p) == RING_BUF_SIZE - 1);
            }
            if ring_distance(pre.r as int, p) == RING_BUF_SIZE - MAX_MATCH_LEN {
                assert(p == pre.s);
            }
            if ring_distance(post.r as int, p) == found.0 && found.1 > 0 {
                assert(p == gone);
            }
        }
    }

    /// Moves the window on by one byte: the oldest position leaves the
    /// tree, `next` (if there is one) takes its place in the buffer, and
    /// the new front is put into the tree if any look-ahead is left.
    /// Reports the match found at the new front.
    #[verifier::rlimit(40)]
    pub fn slide(&mut self, next: Option<u8>) -> (found: (usize, usize))
        requires
            old(self).wf(),
            old(self).cursor() < old(self).text().len(),
            next is Some ==> old(self).text().len() - old(self).cursor() == MAX_MATCH_LEN,
        ensures
            final(self).wf(),
            final(self)@ == slid(old(self)@, next),
            (found.0 as int, found.1 as int) == slid_found(old(self)@, next),
            final(self).cursor() == old(self).cursor() + 1,
            final(self).text() == (match next {
                Some(c) => old(self).text().push(c),
                None => old(self).text(),
            }),
            final(self).front_slot() == slot(old(self).front_slot() + 1),
            final(self).front_indexed() == (final(self).cursor() < final(self).text().len()),
            final(self).filled() == (if old(self).filled() < RING_BUF_SIZE - MAX_MATCH_LEN + 1 {
                old(self).filled() + 1
            } else {
                old(self).filled()
            }),
            sound_match(final(self).text(), final(self).cursor(), found),
            forall|p: int|
                #[trigger] final(self).holds(p) <==> (final(self).in_window(p)
                    && !final(self).displaced().contains(p)),
    {
        let ghost pre = *self;
        proof {
            self.finder.lemma_allocated();
        }
        self.finder.delete_node(self.s);
        match next {
            Some(c) => {
                self.finder.put(self.s, c);
                if self.s < MAX_MATCH_LEN - 1 {
                    proof {
                        self.finder.lemma_contains(self.s + RING_BUF_SIZE);
                        self.finder.lemma_allocated();
                    }
                    self.finder.put(self.s + RING_BUF_SIZE, c);
                }
            },
            None => {
                self.len -= 1;
            },
        }
        proof {
            lemma_next_slot((self.s + 1) as usize);
            lemma_next_slot((self.r + 1) as usize);
        }
        self.s = (self.s + 1) & (RING_BUF_SIZE - 1);
        self.r = (self.r + 1) & (RING_BUF_SIZE - 1);
        let ghost mid = self.finder;
        proof {
            self.text@ = match next {
                Some(c) => pre.text@.push(c),
                None => pre.text@,
            };
            self.cur@ = pre.cur@ + 1;
            if self.r == 0 {
                self.base@ = pre.base@ + RING_BUF_SIZE;
            }
            if pre.count@ < RING_BUF_SIZE - MAX_MATCH_LEN + 1 {
                self.count@ = pre.count@ + 1;
            }
            self.front_in@ = self.len > 0;
            self.lost@ = pre.lost@.remove(pre.s as int).remove(self.r as int);
            Self::lemma_slid_buffer(pre, *self, next);
        }
        let ghost snap = *self;
        let found: (usize, usize) = if self.len > 0 {
            self.finder.insert_node(self.r)
        } else {
            (0, 0)
        };
        proof {
            let gone = self.r - found.0 + if found.0 > self.r { RING_BUF_SIZE as int } else { 0 };
            if found.1 == MAX_MATCH_LEN {
                self.lost@ = self.lost@.insert(gone);
            }
            self.finder.lemma_allocated();
            assert forall|t: int|
                self.cur@ - (RING_BUF_SIZE - MAX_MATCH_LEN) <= t < self.text@.len()
                    implies #[trigger] self.stored(t) by {
                assert(snap.stored(t));
            }
            Self::lemma_slid_nodes(pre, mid, *self, self.len > 0, found);
            if found.1 > 0 {
                self.lemma_sound(gone, found);
            }
            self.lemma_tree_is_window();
        }
        found
    }
}

} // verus!
