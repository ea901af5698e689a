//! The sliding window and its match finder: a ring buffer of text and a
//! binary search tree over the strings that start at its positions.

use vstd::prelude::*;
use vstd::set_lib::*;
use crate::params::{MAX_MATCH_LEN, NIL, RING_BUF_SIZE, THRESHOLD};

verus! {

/// Number of slots that hold a tree pointer to the right: one for each
/// window position, the unused slot `NIL`, and one root for each byte.
pub const SLOTS: usize = 4353;

/// Length of the text buffer: the window and a tail that repeats its start.
pub const TEXT_LEN: usize = 4155;

/// How far position `p` lies behind position `r` on the ring.
pub open spec fn ring_distance(r: int, p: int) -> int {
    if p <= r {
        r - p
    } else {
        r + RING_BUF_SIZE - p
    }
}

/// The bytes at distance `j` from `a` and from `b` are the same.
pub open spec fn agree_at(buf: Seq<u8>, a: int, b: int, j: int) -> bool {
    buf[a + j] == buf[b + j]
}

/// The strings that start at `a` and at `b` agree over `n` bytes.
pub open spec fn agree(buf: Seq<u8>, a: int, b: int, n: int) -> bool {
    forall|j: int| 0 <= j < n ==> #[trigger] agree_at(buf, a, b, j)
}

/// Length of what the strings at `a` and `b` have in common from index
/// `i` on, counted from their beginnings and up to the longest match.
pub open spec fn common_from(buf: Seq<u8>, a: int, b: int, i: int) -> int
    decreases MAX_MATCH_LEN - i,
{
    if i >= MAX_MATCH_LEN || buf[a + i] != buf[b + i] {
        i
    } else {
        common_from(buf, a, b, i + 1)
    }
}

/// Length of the common beginning of the strings at `a` and `b`, up to
/// the longest match.
pub open spec fn common_len(buf: Seq<u8>, a: int, b: int) -> int {
    common_from(buf, a, b, 0)
}

/// `found` is the best match for the string at `r` among the positions
/// of `path`: no position of the path has more in common with it, unless
/// that is no more than the threshold, and of the positions that have as
/// much in common with it none lies nearer.
pub open spec fn best_on_path(buf: Seq<u8>, path: Seq<int>, r: int, found: (usize, usize)) -> bool {
    &&& forall|i: int|
        0 <= i < path.len() ==> common_len(buf, #[trigger] path[i], r) <= found.1 || common_len(
            buf,
            path[i],
            r,
        ) <= THRESHOLD
    &&& found.1 > 0 ==> exists|i: int|
        0 <= i < path.len() && common_len(buf, #[trigger] path[i], r) == found.1 && ring_distance(
            r,
            path[i],
        ) == found.0
    &&& found.1 > 0 ==> forall|i: int|
        0 <= i < path.len() && common_len(buf, #[trigger] path[i], r) == found.1 ==> found.0
            <= ring_distance(r, path[i])
}

/// The links of the tree.
pub struct Links {
    /// The parent of each window position: a window position, or a root,
    /// or `NIL` where the position is no node.
    pub dad: Seq<int>,
    /// The left child of each window position, `NIL` where it has none.
    pub lson: Seq<int>,
    /// The right child of each window position and, from `NIL + 1` on,
    /// the child of the root of each byte; `NIL` where there is none.
    pub rson: Seq<int>,
}

/// The search for the string at `r` goes on to the right of `pos`: it
/// does so from a root, and from a node with a lesser string.
pub open spec fn goes_right(buf: Seq<u8>, r: int, pos: int) -> bool {
    let n = common_len(buf, pos, r);
    pos > NIL || buf[r + n] > buf[pos + n]
}

/// The child of `pos` to which the search for the string at `r` goes on.
pub open spec fn turn(l: Links, buf: Seq<u8>, r: int, pos: int) -> int {
    if goes_right(buf, r, pos) {
        l.rson[pos]
    } else {
        l.lson[pos]
    }
}

/// The nodes that the search for the string at `r` visits from `pos` on,
/// `limit` of them at most: it ends where there is no child, and at a
/// node with the same string.
pub open spec fn path_from(l: Links, buf: Seq<u8>, r: int, pos: int, limit: nat) -> Seq<int>
    decreases limit,
{
    if limit == 0 || pos == NIL {
        Seq::empty()
    } else if common_len(buf, pos, r) >= MAX_MATCH_LEN {
        seq![pos]
    } else {
        seq![pos] + path_from(l, buf, r, turn(l, buf, r, pos), (limit - 1) as nat)
    }
}

/// The root of the strings that begin like the string at `r`.
pub open spec fn root_of(buf: Seq<u8>, r: int) -> int {
    NIL + 1 + buf[r]
}

/// The nodes that the search for the string at `r` visits, from the child
/// of its root on.
pub open spec fn search_path(l: Links, buf: Seq<u8>, r: int) -> Seq<int> {
    path_from(l, buf, r, turn(l, buf, r, root_of(buf, r)), SLOTS as nat)
}

/// The links after `r` became a leaf below `pos`, on the right or on the
/// left.
pub open spec fn linked(l: Links, pos: int, r: int, right: bool) -> Links {
    Links {
        dad: l.dad.update(r, pos),
        lson: if right {
            l.lson.update(r, NIL as int)
        } else {
            l.lson.update(r, NIL as int).update(pos, r)
        },
        rson: if right {
            l.rson.update(r, NIL as int).update(pos, r)
        } else {
            l.rson.update(r, NIL as int)
        },
    }
}

/// The links with one more parent entry, unless `child` is no position.
pub open spec fn adopted(dad: Seq<int>, child: int, parent: int) -> Seq<int> {
    if child == NIL {
        dad
    } else {
        dad.update(child, parent)
    }
}

/// The links after `r` took the place of the node `pos`: its parent and
/// its children are now those of `r`, and `pos` is no node.
pub open spec fn replaced(l: Links, pos: int, r: int) -> Links {
    let d = l.dad[pos];
    Links {
        dad: adopted(adopted(l.dad.update(r, d), l.lson[pos], r), l.rson[pos], r).update(
            pos,
            NIL as int,
        ),
        lson: if l.rson[d] == pos {
            l.lson.update(r, l.lson[pos]).update(pos, NIL as int)
        } else {
            l.lson.update(r, l.lson[pos]).update(pos, NIL as int).update(d, r)
        },
        rson: if l.rson[d] == pos {
            l.rson.update(r, l.rson[pos]).update(pos, NIL as int).update(d, r)
        } else {
            l.rson.update(r, l.rson[pos]).update(pos, NIL as int)
        },
    }
}

/// The links after `q`, the only child of `p` or no node at all, was
/// linked to the parent of `p` in the place of `p`.
pub open spec fn spliced(l: Links, p: int, q: int) -> Links {
    let d = l.dad[p];
    Links {
        dad: adopted(l.dad, q, d).update(p, NIL as int),
        lson: if l.rson[d] == p {
            l.lson.update(p, NIL as int)
        } else {
            l.lson.update(p, NIL as int).update(d, q)
        },
        rson: if l.rson[d] == p {
            l.rson.update(p, NIL as int).update(d, q)
        } else {
            l.rson.update(p, NIL as int)
        },
    }
}

/// The node that is reached from `t` by going right while there is a
/// right child, `limit` times at most.
pub open spec fn rightmost(l: Links, t: int, limit: nat) -> int
    decreases limit,
{
    if limit == 0 || l.rson[t] == NIL {
        t
    } else {
        rightmost(l, l.rson[t], (limit - 1) as nat)
    }
}

/// A tree without nodes.
pub open spec fn empty_links() -> Links {
    Links {
        dad: Seq::new(RING_BUF_SIZE as nat, |p: int| NIL as int),
        lson: Seq::new(RING_BUF_SIZE as nat, |p: int| NIL as int),
        rson: Seq::new(SLOTS as nat, |p: int| NIL as int),
    }
}

/// The links after position `p` was taken out: nothing changes where `p`
/// is no node; a node with one child or none gives its place to that
/// child; a node with two gives it to the rightmost node of its left
/// subtree, whose own place goes to its left child.
pub open spec fn removed(l: Links, p: int) -> Links {
    if l.dad[p] == NIL {
        l
    } else if l.rson[p] == NIL {
        spliced(l, p, l.lson[p])
    } else if l.lson[p] == NIL {
        spliced(l, p, l.rson[p])
    } else {
        let t = rightmost(l, l.lson[p], SLOTS as nat);
        replaced(spliced(l, t, l.lson[t]), p, t)
    }
}

/// The links after the string at `r` was put into the tree: where the
/// search ends at a node with the same string, `r` takes the place of
/// that node; else `r` becomes a leaf where the search found no child.
pub open spec fn inserted(l: Links, buf: Seq<u8>, r: int) -> Links {
    let path = search_path(l, buf, r);
    let last = if path.len() == 0 {
        root_of(buf, r)
    } else {
        path.last()
    };
    if path.len() > 0 && common_len(buf, last, r) >= MAX_MATCH_LEN {
        replaced(l, last, r)
    } else {
        linked(l, last, r, goes_right(buf, r, last))
    }
}

/// Length of the best match for the string at `r` among the positions of
/// `path`: the greatest length above the threshold that one of them has
/// in common with it, or zero.
pub open spec fn best_len(buf: Seq<u8>, path: Seq<int>, r: int) -> int
    decreases path.len(),
{
    if path.len() == 0 {
        0
    } else {
        let before = best_len(buf, path.drop_last(), r);
        let n = common_len(buf, path.last(), r);
        if n > THRESHOLD && n > before {
            n
        } else {
            before
        }
    }
}

/// Distance of the best match for the string at `r` among the positions
/// of `path`: the least distance of those that have the best length in
/// common with it, or `last` where there is no match.
pub open spec fn best_back(buf: Seq<u8>, path: Seq<int>, r: int, last: int) -> int
    decreases path.len(),
{
    if path.len() == 0 {
        last
    } else {
        let before = best_len(buf, path.drop_last(), r);
        let back = best_back(buf, path.drop_last(), r, last);
        let n = common_len(buf, path.last(), r);
        let d = ring_distance(r, path.last());
        if n > THRESHOLD && n > before {
            d
        } else if n > THRESHOLD && n == before && d < back {
            d
        } else {
            back
        }
    }
}

/// What the tree is made of, as seen from outside.
pub struct TreeView {
    /// The text buffer.
    pub buf: Seq<u8>,
    /// The links.
    pub links: Links,
    /// The match position that the last search left behind.
    pub last: int,
}

/// What the search for the string at `r` reports: the distance and the
/// length of the best match on its path.
pub open spec fn sought(t: TreeView, r: int) -> (int, int) {
    let path = search_path(t.links, t.buf, r);
    (best_back(t.buf, path, r, t.last), best_len(t.buf, path, r))
}

/// The tree after the string at `r` was put into it.
pub open spec fn tree_insert(t: TreeView, r: int) -> TreeView {
    TreeView { buf: t.buf, links: inserted(t.links, t.buf, r), last: sought(t, r).0 }
}

/// The tree after position `p` was taken out of it.
pub open spec fn tree_delete(t: TreeView, p: int) -> TreeView {
    TreeView { links: removed(t.links, p), ..t }
}

/// The tree after byte `i` of its text buffer was set to `c`.
pub open spec fn tree_put(t: TreeView, i: int, c: u8) -> TreeView {
    TreeView { buf: t.buf.update(i, c), ..t }
}

proof fn lemma_common_from(buf: Seq<u8>, a: int, b: int, i: int, n: int)
    requires
        0 <= i <= n <= MAX_MATCH_LEN,
        forall|j: int| i <= j < n ==> #[trigger] agree_at(buf, a, b, j),
        n < MAX_MATCH_LEN ==> !agree_at(buf, a, b, n),
    ensures
        common_from(buf, a, b, i) == n,
    decreases n - i,
{
    if i < n {
        assert(agree_at(buf, a, b, i));
        lemma_common_from(buf, a, b, i + 1, n);
    }
}

proof fn lemma_ring_mask(x: usize)
    by (bit_vector)
    requires
        x < 8192,
    ensures
        x & 4095 == x % 4096,
{
}

fn filled_bytes(n: usize) -> (v: Vec<u8>)
    ensures
        v@.len() == n,
        forall|i: int| 0 <= i < n ==> v@[i] == 0,
{
    let mut v: Vec<u8> = Vec::new();
    let mut i: usize = 0;
    while i < n
        invariant
            i <= n,
            v@.len() == i,
            forall|k: int| 0 <= k < i ==> v@[k] == 0,
        decreases n - i,
    {
        v.push(0);
        i += 1;
    }
    v
}

fn filled_links(n: usize) -> (v: Vec<usize>)
    ensures
        v@.len() == n,
        forall|i: int| 0 <= i < n ==> v@[i] == 0,
{
    let mut v: Vec<usize> = Vec::new();
    let mut i: usize = 0;
    while i < n
        invariant
            i <= n,
            v@.len() == i,
            forall|k: int| 0 <= k < i ==> v@[k] == 0,
        decreases n - i,
    {
        v.push(0);
        i += 1;
    }
    v
}

/// The text buffer and the search tree over its positions.
pub struct MatchFinder {
    text_buf: Vec<u8>,
    lson: Vec<usize>,
    rson: Vec<usize>,
    dad: Vec<usize>,
    match_position: usize,
    depth: Ghost<Seq<int>>,
}

impl MatchFinder {
    /// The text buffer.
    pub closed spec fn buf(&self) -> Seq<u8> {
        self.text_buf@
    }

    /// Position `p` is a node of the tree.
    pub closed spec fn contains(&self, p: int) -> bool {
        0 <= p < RING_BUF_SIZE && self.dad@[p] != NIL
    }

    /// The match position that the last search left behind.
    pub closed spec fn last_position(&self) -> int {
        self.match_position as int
    }

    /// The arrays have their sizes and every link points into them.
    pub closed spec fn allocated(&self) -> bool {
        &&& self.text_buf@.len() == TEXT_LEN
        &&& self.lson@.len() == RING_BUF_SIZE + 1
        &&& self.rson@.len() == SLOTS
        &&& self.dad@.len() == RING_BUF_SIZE + 1
        &&& self.depth@.len() == RING_BUF_SIZE
        &&& forall|i: int| 0 <= i <= RING_BUF_SIZE ==> #[trigger] self.lson@[i] <= NIL
        &&& forall|i: int| 0 <= i < SLOTS ==> #[trigger] self.rson@[i] <= NIL
        &&& forall|i: int| 0 <= i <= RING_BUF_SIZE ==> #[trigger] self.dad@[i] < SLOTS
    }

    spec fn rank(&self, q: int) -> int {
        if q >= RING_BUF_SIZE {
            -1
        } else {
            self.depth@[q]
        }
    }

    /// What holds of a node: its parent points back at it, lies above it
    /// and starts with the same byte, and its children name it as parent.
    spec fn node_ok(&self, p: int) -> bool {
        let d = self.dad@[p] as int;
        let l = self.lson@[p] as int;
        let r = self.rson@[p] as int;
        d != NIL ==> {
            &&& self.depth@[p] >= 0
            &&& d < NIL ==> {
                &&& self.dad@[d] != NIL
                &&& (self.lson@[d] == p || self.rson@[d] == p)
                &&& self.depth@[d] < self.depth@[p]
                &&& self.text_buf@[d] == self.text_buf@[p]
            }
            &&& d > NIL ==> self.rson@[d] == p && self.text_buf@[p] == d - (NIL + 1)
            &&& l != NIL ==> self.dad@[l] == p
            &&& r != NIL ==> self.dad@[r] == p
            &&& (l == NIL || l != r)
        }
    }

    spec fn root_ok(&self, q: int) -> bool {
        self.rson@[q] != NIL ==> self.dad@[self.rson@[q] as int] == q
    }

    /// The links of the tree.
    ///
    /// Only what is linked counts: a position that is no node has no
    /// children here, whatever its two entries still hold.
    pub closed spec fn links(&self) -> Links {
        Links {
            dad: Seq::new(RING_BUF_SIZE as nat, |p: int| self.dad@[p] as int),
            lson: Seq::new(
                RING_BUF_SIZE as nat,
                |p: int| if self.dad@[p] != NIL { self.lson@[p] as int } else { NIL as int },
            ),
            rson: Seq::new(
                SLOTS as nat,
                |p: int|
                    if p > NIL || (p < NIL && self.dad@[p] != NIL) {
                        self.rson@[p] as int
                    } else {
                        NIL as int
                    },
            ),
        }
    }

    /// What the tree is made of: the text buffer, the links, and the
    /// match position that the last search left behind.
    pub open spec fn view(&self) -> TreeView {
        TreeView { buf: self.buf(), links: self.links(), last: self.last_position() }
    }

    /// The invariant of the tree.
    pub closed spec fn wf(&self) -> bool {
        &&& self.allocated()
        &&& forall|p: int| 0 <= p < RING_BUF_SIZE ==> #[trigger] self.node_ok(p)
        &&& forall|q: int| NIL < q < SLOTS ==> #[trigger] self.root_ok(q)
    }

    /// The nodes are the window positions that have a parent.
    pub proof fn lemma_contains(&self, p: int)
        ensures
            self.contains(p) ==> 0 <= p < RING_BUF_SIZE,
            self.contains(p) <==> 0 <= p < RING_BUF_SIZE && self.links().dad[p] != NIL,
            self.links().dad.len() == RING_BUF_SIZE,
            self.links().lson.len() == RING_BUF_SIZE,
            self.links().rson.len() == SLOTS,
    {
    }

    /// A tree that is well formed is set up, and its text buffer has its
    /// full length.
    pub proof fn lemma_allocated(&self)
        requires
            self.wf() || self.allocated(),
        ensures
            self.allocated(),
            self.buf().len() == TEXT_LEN,
    {
    }

    proof fn lemma_same_links(a: MatchFinder, b: MatchFinder)
        requires
            a.wf(),
            a.text_buf@ == b.text_buf@,
            a.lson@ == b.lson@,
            a.rson@ == b.rson@,
            a.dad@ == b.dad@,
            a.depth@ == b.depth@,
        ensures
            b.wf(),
            forall|p: int| a.contains(p) == #[trigger] b.contains(p),
            a.links() == b.links(),
    {
        assert forall|p: int| 0 <= p < RING_BUF_SIZE implies #[trigger] b.node_ok(p) by {
            assert(a.node_ok(p));
        }
        assert forall|q: int| NIL < q < SLOTS implies #[trigger] b.root_ok(q) by {
            assert(a.root_ok(q));
        }
    }

    /// Buffers of the right sizes, filled with zeros.
    pub fn new() -> (t: Self)
        ensures
            t.allocated(),
            t.buf() == Seq::new(TEXT_LEN as nat, |i: int| 0u8),
            t.last_position() == 0,
    {
        let t = MatchFinder {
            text_buf: filled_bytes(TEXT_LEN),
            lson: filled_links(RING_BUF_SIZE + 1),
            rson: filled_links(SLOTS),
            dad: filled_links(RING_BUF_SIZE + 1),
            match_position: 0,
            depth: Ghost(Seq::new(RING_BUF_SIZE as nat, |i: int| 0int)),
        };
        assert(t.buf() =~= Seq::new(TEXT_LEN as nat, |i: int| 0u8));
        t
    }

    /// Empties the tree: no root has a child and no position is a node.
    pub fn init_tree(&mut self)
        requires
            old(self).allocated(),
        ensures
            final(self).wf(),
            final(self).buf() == old(self).buf(),
            final(self).last_position() == old(self).last_position(),
            forall|p: int| !#[trigger] final(self).contains(p),
            final(self).links() == empty_links(),
    {
        let mut i: usize = RING_BUF_SIZE + 1;
        while i < SLOTS
            invariant
                RING_BUF_SIZE < i <= SLOTS,
                self.allocated(),
                self.text_buf@ == old(self).text_buf@,
                self.match_position == old(self).match_position,
                forall|q: int| NIL < q < i ==> self.rson@[q] == NIL,
            decreases SLOTS - i,
        {
            self.rson.set(i, NIL);
            i += 1;
        }
        let mut j: usize = 0;
        while j < RING_BUF_SIZE
            invariant
                j <= RING_BUF_SIZE,
                self.allocated(),
                self.text_buf@ == old(self).text_buf@,
                self.match_position == old(self).match_position,
                forall|q: int| NIL < q < SLOTS ==> self.rson@[q] == NIL,
                forall|p: int| 0 <= p < j ==> self.dad@[p] == NIL,
            decreases RING_BUF_SIZE - j,
        {
            self.dad.set(j, NIL);
            j += 1;
        }
        assert forall|p: int| 0 <= p < RING_BUF_SIZE implies #[trigger] self.node_ok(p) by {
            assert(self.dad@[p] == NIL);
        }
        assert forall|q: int| NIL < q < SLOTS implies #[trigger] self.root_ok(q) by {
            assert(self.rson@[q] == NIL);
        }
        assert(self.links().dad =~= empty_links().dad);
        assert(self.links().lson =~= empty_links().lson);
        assert(self.links().rson =~= empty_links().rson);
    }

    /// Tells whether position `p` is a node of the tree.
    pub fn has_node(&self, p: usize) -> (b: bool)
        requires
            self.allocated(),
            p < RING_BUF_SIZE,
        ensures
            b == self.contains(p as int),
    {
        self.dad[p] != NIL
    }

    /// The byte at index `i` of the text buffer.
    pub fn byte_at(&self, i: usize) -> (c: u8)
        requires
            self.allocated(),
            i < TEXT_LEN,
        ensures
            c == self.buf()[i as int],
    {
        self.text_buf[i]
    }

    /// Writes one byte of the text buffer, at a place that is no node.
    pub fn put(&mut self, i: usize, c: u8)
        requires
            old(self).wf(),
            i < TEXT_LEN,
            !old(self).contains(i as int),
        ensures
            final(self).wf(),
            final(self).buf() == old(self).buf().update(i as int, c),
            final(self).last_position() == old(self).last_position(),
            forall|p: int| #[trigger] final(self).contains(p) == old(self).contains(p),
            final(self).links() == old(self).links(),
            final(self)@ == tree_put(old(self)@, i as int, c),
    {
        let ghost pre = *self;
        self.text_buf.set(i, c);
        assert forall|p: int| 0 <= p < RING_BUF_SIZE implies #[trigger] self.node_ok(p) by {
            assert(pre.node_ok(p));
        }
        assert forall|q: int| NIL < q < SLOTS implies #[trigger] self.root_ok(q) by {
            assert(pre.root_ok(q));
        }
    }

    /// Length of the common prefix of the strings at `r` and `pos`, found
    /// from their second bytes on, and whether the string at `r` is the
    /// greater one at the first difference.
    fn compare_keys(&self, r: usize, pos: usize) -> (res: (usize, bool))
        requires
            self.allocated(),
            r < RING_BUF_SIZE,
            pos < RING_BUF_SIZE,
        ensures
            1 <= res.0 <= MAX_MATCH_LEN,
            forall|j: int| 1 <= j < res.0 ==> #[trigger] agree_at(self.text_buf@, pos as int, r as int, j),
            res.0 < MAX_MATCH_LEN ==> self.text_buf@[r + res.0] != self.text_buf@[pos + res.0],
            res.0 < MAX_MATCH_LEN ==> res.1 == (self.text_buf@[r + res.0] > self.text_buf@[pos
                + res.0]),
    {
        let mut i: usize = 1;
        let mut greater: bool = false;
        while i < MAX_MATCH_LEN
            invariant
                1 <= i <= MAX_MATCH_LEN,
                self.allocated(),
                r < RING_BUF_SIZE,
                pos < RING_BUF_SIZE,
                forall|j: int| 1 <= j < i ==> #[trigger] agree_at(self.text_buf@, pos as int, r as int, j),
            ensures
                1 <= i <= MAX_MATCH_LEN,
                forall|j: int| 1 <= j < i ==> #[trigger] agree_at(self.text_buf@, pos as int, r as int, j),
                i < MAX_MATCH_LEN ==> self.text_buf@[r + i] != self.text_buf@[pos + i],
                i < MAX_MATCH_LEN ==> greater == (self.text_buf@[r + i] > self.text_buf@[pos + i]),
            decreases MAX_MATCH_LEN - i,
        {
            let a: u8 = self.text_buf[r + i];
            let b: u8 = self.text_buf[pos + i];
            if a != b {
                greater = a > b;
                break ;
            }
            i += 1;
        }
        (i, greater)
    }

    /// Makes `r` a leaf below `pos`, on the right or on the left.
    #[verifier::rlimit(40)]
    fn link_leaf(&mut self, pos: usize, r: usize, right: bool)
        requires
            old(self).wf(),
            r < RING_BUF_SIZE,
            !old(self).contains(r as int),
            pos < SLOTS,
            pos != NIL,
            pos < NIL ==> old(self).contains(pos as int) && old(self).text_buf@[pos as int]
                == old(self).text_buf@[r as int],
            pos > NIL ==> right && old(self).text_buf@[r as int] == pos - (NIL + 1),
            right ==> old(self).rson@[pos as int] == NIL,
            !right ==> old(self).lson@[pos as int] == NIL,
        ensures
            final(self).wf(),
            final(self).buf() == old(self).buf(),
            final(self).last_position() == old(self).last_position(),
            forall|p: int| #[trigger] final(self).contains(p) == (p == r || old(self).contains(p)),
            final(self).links() == linked(old(self).links(), pos as int, r as int, right),
    {
        let ghost pre = *self;
        self.rson.set(r, NIL);
        self.lson.set(r, NIL);
        if right {
            self.rson.set(pos, r);
        } else {
            self.lson.set(pos, r);
        }
        self.dad.set(r, pos);
        proof {
            self.depth@ = self.depth@.update(r as int, pre.rank(pos as int) + 1);
            let want = linked(pre.links(), pos as int, r as int, right);
            assert(self.links().dad =~= want.dad);
            assert(self.links().lson =~= want.lson);
            assert(self.links().rson =~= want.rson);
            if pos < NIL {
                assert(pre.node_ok(pos as int));
            } else {
                assert(pre.root_ok(pos as int));
            }
            assert forall|p: int| 0 <= p < RING_BUF_SIZE implies #[trigger] self.node_ok(p) by {
                assert(pre.node_ok(p));
                if p != r && pre.dad@[p] != NIL {
                    let d = pre.dad@[p] as int;
                    if d < NIL {
                        assert(pre.node_ok(d));
                    }
                    let lp = pre.lson@[p] as int;
                    let rp = pre.rson@[p] as int;
                    if lp != NIL {
                        assert(pre.node_ok(lp));
                    }
                    if rp != NIL {
                        assert(pre.node_ok(rp));
                    }
                }
            }
            assert forall|q: int| NIL < q < SLOTS implies #[trigger] self.root_ok(q) by {
                assert(pre.root_ok(q));
            }
        }
    }

    /// Puts `r` in the place of the node `pos`, which leaves the tree.
    #[verifier::rlimit(80)]
    #[verifier::spinoff_prover]
    fn replace_node(&mut self, pos: usize, r: usize)
        requires
            old(self).wf(),
            r < RING_BUF_SIZE,
            pos < RING_BUF_SIZE,
            !old(self).contains(r as int),
            old(self).contains(pos as int),
            old(self).text_buf@[pos as int] == old(self).text_buf@[r as int],
        ensures
            final(self).wf(),
            final(self).buf() == old(self).buf(),
            final(self).last_position() == old(self).last_position(),
            forall|p: int|
                #[trigger] final(self).contains(p) == (p == r || (old(self).contains(p) && p != pos)),
            final(self).links() == replaced(old(self).links(), pos as int, r as int),
    {
        let ghost pre = *self;
        proof {
            assert(pre.node_ok(pos as int));
            assert(pre.node_ok(r as int));
            let d = pre.dad@[pos as int] as int;
            if d < NIL {
                assert(pre.node_ok(d));
            } else {
                assert(pre.root_ok(d));
            }
            let l = pre.lson@[pos as int] as int;
            let rr = pre.rson@[pos as int] as int;
            if l != NIL {
                assert(pre.node_ok(l));
            }
            if rr != NIL {
                assert(pre.node_ok(rr));
            }
        }
        let d: usize = self.dad[pos];
        let l: usize = self.lson[pos];
        let rr: usize = self.rson[pos];
        self.dad.set(r, d);
        self.lson.set(r, l);
        self.rson.set(r, rr);
        self.dad.set(l, r);
        self.dad.set(rr, r);
        if self.rson[d] == pos {
            self.rson.set(d, r);
        } else {
            self.lson.set(d, r);
        }
        self.dad.set(pos, NIL);
        proof {
            self.depth@ = self.depth@.update(r as int, pre.depth@[pos as int]);
            let want = replaced(pre.links(), pos as int, r as int);
            assert(self.links().dad =~= want.dad);
            assert(self.links().lson =~= want.lson);
            assert(self.links().rson =~= want.rson);
            assert forall|p: int| 0 <= p < RING_BUF_SIZE implies #[trigger] self.node_ok(p) by {
                assert(pre.node_ok(p));
                if p != r && p != pos && pre.dad@[p] != NIL {
                    let dp = pre.dad@[p] as int;
                    if dp < NIL {
                        assert(pre.node_ok(dp));
                    } else {
                        assert(pre.root_ok(dp));
                    }
                    let lp = pre.lson@[p] as int;
                    let rp = pre.rson@[p] as int;
                    if lp != NIL {
                        assert(pre.node_ok(lp));
                    }
                    if rp != NIL {
                        assert(pre.node_ok(rp));
                    }
                }
            }
            assert forall|q: int| NIL < q < SLOTS implies #[trigger] self.root_ok(q) by {
                assert(pre.root_ok(q));
                let c = pre.rson@[q] as int;
                if c != NIL {
                    assert(pre.node_ok(c));
                }
            }
        }
    }

    /// Puts the string at `r` into the tree and reports the best match met
    /// on the way down, as a distance back from `r` and a length.
    ///
    /// A length above the threshold comes with a position that was a node
    /// and whose string agrees with the string at `r` over that length.
    /// A match of full length takes the place of the node it matched.
    #[verifier::rlimit(40)]
    pub fn insert_node(&mut self, r: usize) -> (found: (usize, usize))
        requires
            old(self).wf(),
            r < RING_BUF_SIZE,
            !old(self).contains(r as int),
        ensures
            final(self).wf(),
            final(self).buf() == old(self).buf(),
            final(self).last_position() == found.0,
            found.1 == 0 || THRESHOLD < found.1 <= MAX_MATCH_LEN,
            found.1 == 0 ==> found.0 == old(self).last_position(),
            found.1 > 0 ==> {
                let p = r - found.0 + if found.0 > r { RING_BUF_SIZE as int } else { 0 };
                &&& 1 <= found.0 < RING_BUF_SIZE
                &&& old(self).contains(p)
                &&& found.0 == ring_distance(r as int, p)
                &&& agree(old(self).buf(), p, r as int, found.1 as int)
            },
            best_on_path(
                old(self).buf(),
                search_path(old(self).links(), old(self).buf(), r as int),
                r as int,
                found,
            ),
            final(self).links() == inserted(old(self).links(), old(self).buf(), r as int),
            (found.0 as int, found.1 as int) == sought(old(self)@, r as int),
            final(self)@ == tree_insert(old(self)@, r as int),
            forall|p: int|
                #[trigger] final(self).contains(p) == (p == r || (old(self).contains(p) && !(found.1
                    == MAX_MATCH_LEN && ring_distance(r as int, p) == found.0))),
    {
        let first: u8 = self.text_buf[r];
        let mut pos: usize = RING_BUF_SIZE + 1 + first as usize;
        let mut right: bool = true;
        let ghost pre = *self;
        let ghost buf = self.text_buf@;
        let ghost links = pre.links();
        let ghost path = search_path(links, buf, r as int);
        proof {
            lemma_int_range(0, SLOTS as int);
        }
        let mut match_length: usize = 0;
        let ghost mut visited: Set<int> = Set::empty();
        let ghost mut seen: Seq<int> = Seq::empty();
        loop
            invariant_except_break
                match_length == 0 || THRESHOLD < match_length < MAX_MATCH_LEN,
                match_length == 0 ==> self.match_position == pre.match_position,
                match_length > 0 ==> {
                    let p = r - self.match_position + if self.match_position > r {
                        RING_BUF_SIZE as int
                    } else {
                        0
                    };
                    &&& 1 <= self.match_position < RING_BUF_SIZE
                    &&& pre.contains(p)
                    &&& self.match_position == ring_distance(r as int, p)
                    &&& agree(buf, p, r as int, match_length as int)
                },
                path == seen + path_from(
                    links,
                    buf,
                    r as int,
                    turn(links, buf, r as int, pos as int),
                    (SLOTS - seen.len()) as nat,
                ),
                right == goes_right(buf, r as int, pos as int),
                pos < NIL ==> common_len(buf, pos as int, r as int) < MAX_MATCH_LEN,
            invariant
                pre.wf(),
                pre == *old(self),
                buf == pre.text_buf@,
                links == pre.links(),
                path == search_path(links, buf, r as int),
                pos as int == (if seen.len() == 0 {
                    root_of(buf, r as int)
                } else {
                    seen.last()
                }),
                r < RING_BUF_SIZE,
                !pre.contains(r as int),
                first == buf[r as int],
                self.text_buf@ == pre.text_buf@,
                self.lson@ == pre.lson@,
                self.rson@ == pre.rson@,
                self.dad@ == pre.dad@,
                self.depth@ == pre.depth@,
                pos < SLOTS,
                pos != NIL,
                pos < NIL ==> pre.contains(pos as int) && buf[pos as int] == first,
                pos > NIL ==> right && pos == NIL + 1 + first,
                set_int_range(0, SLOTS as int).finite(),
                set_int_range(0, SLOTS as int).len() == SLOTS,
                visited.finite(),
                visited.subset_of(set_int_range(0, SLOTS as int)),
                visited.len() == seen.len(),
                forall|v: int| visited.contains(v) ==> pre.rank(v) < pre.rank(pos as int),
                forall|i: int| 0 <= i < seen.len() ==> pre.contains(#[trigger] seen[i]),
                best_on_path(buf, seen, r as int, (self.match_position, match_length)),
                match_length == best_len(buf, seen, r as int),
                self.match_position == best_back(buf, seen, r as int, pre.match_position as int),
            ensures
                pre.wf(),
                self.text_buf@ == pre.text_buf@,
                self.lson@ == pre.lson@,
                self.rson@ == pre.rson@,
                self.dad@ == pre.dad@,
                self.depth@ == pre.depth@,
                pos < NIL,
                pre.contains(pos as int),
                buf[pos as int] == first,
                match_length == MAX_MATCH_LEN,
                1 <= self.match_position < RING_BUF_SIZE,
                pos == r - self.match_position + if self.match_position > r {
                    RING_BUF_SIZE as int
                } else {
                    0
                },
                self.match_position == ring_distance(r as int, pos as int),
                agree(buf, pos as int, r as int, MAX_MATCH_LEN as int),
                path == seen,
                match_length == best_len(buf, seen, r as int),
                self.match_position == best_back(buf, seen, r as int, pre.match_position as int),
                seen.len() > 0,
                pos as int == seen.last(),
                common_len(buf, pos as int, r as int) >= MAX_MATCH_LEN,
                forall|i: int| 0 <= i < seen.len() ==> pre.contains(#[trigger] seen[i]),
                best_on_path(buf, seen, r as int, (self.match_position, match_length)),
            decreases SLOTS - visited.len(),
        {
            proof {
                lemma_len_subset(visited, set_int_range(0, SLOTS as int));
                if pos < NIL {
                    assert(pre.node_ok(pos as int));
                } else {
                    assert(pre.root_ok(pos as int));
                }
                assert(!visited.contains(pos as int));
                lemma_len_subset(visited.insert(pos as int), set_int_range(0, SLOTS as int));
            }
            let next: usize = if right {
                self.rson[pos]
            } else {
                self.lson[pos]
            };
            if next == NIL {
                proof {
                    Self::lemma_same_links(pre, *self);
                    assert(path =~= seen);
                }
                self.link_leaf(pos, r, right);
                return (self.match_position, match_length);
            }
            proof {
                assert(pre.node_ok(next as int));
                visited = visited.insert(pos as int);
            }
            pos = next;
            let (idx, greater) = self.compare_keys(r, pos);
            right = greater;
            let ghost prior = seen;
            let ghost was = (self.match_position, match_length);
            proof {
                assert(agree_at(buf, pos as int, r as int, 0));
                assert(agree(buf, pos as int, r as int, idx as int));
                lemma_common_from(buf, pos as int, r as int, 0, idx as int);
                seen = seen.push(pos as int);
                assert(seen.drop_last() =~= prior);
                assert(seen.last() == pos);
                assert forall|i: int| 0 <= i < seen.len() implies pre.contains(
                    #[trigger] seen[i],
                ) by {
                    if i < prior.len() {
                        assert(seen[i] == prior[i]);
                    }
                }
                let limit = (SLOTS - prior.len()) as nat;
                if idx >= MAX_MATCH_LEN {
                    assert(path_from(links, buf, r as int, pos as int, limit) =~= seq![pos as int]);
                    assert(path =~= seen);
                } else {
                    assert(path_from(links, buf, r as int, pos as int, limit) =~= seq![pos as int]
                        + path_from(
                        links,
                        buf,
                        r as int,
                        turn(links, buf, r as int, pos as int),
                        (limit - 1) as nat,
                    ));
                    assert(path =~= seen + path_from(
                        links,
                        buf,
                        r as int,
                        turn(links, buf, r as int, pos as int),
                        (SLOTS - seen.len()) as nat,
                    ));
                }
            }
            if idx > THRESHOLD {
                let back: usize = (r + RING_BUF_SIZE - pos) & (RING_BUF_SIZE - 1);
                proof {
                    lemma_ring_mask((r + RING_BUF_SIZE - pos) as usize);
                    assert(back == ring_distance(r as int, pos as int));
                }
                if idx > match_length {
                    self.match_position = back;
                    match_length = idx;
                    proof {
                        Self::lemma_best_grows(buf, prior, r as int, was, pos as int, (
                            self.match_position,
                            match_length,
                        ));
                    }
                    if idx >= MAX_MATCH_LEN {
                        break ;
                    }
                } else if idx == match_length {
                    if back < self.match_position {
                        self.match_position = back;
                    }
                    proof {
                        Self::lemma_best_grows(buf, prior, r as int, was, pos as int, (
                            self.match_position,
                            match_length,
                        ));
                    }
                } else {
                    proof {
                        Self::lemma_best_grows(buf, prior, r as int, was, pos as int, was);
                    }
                }
            } else {
                proof {
                    Self::lemma_best_grows(buf, prior, r as int, was, pos as int, was);
                }
            }
        }
        proof {
            Self::lemma_same_links(pre, *self);
        }
        self.replace_node(pos, r);
        proof {
            assert forall|p: int| #[trigger] self.contains(p) == (p == r || (old(self).contains(p) && !(
            ring_distance(r as int, p) == self.match_position))) by {
                if 0 <= p < RING_BUF_SIZE && p != pos {
                    assert(ring_distance(r as int, p) != ring_distance(r as int, pos as int));
                }
            }
        }
        (self.match_position, match_length)
    }

    /// The best match on a path that grows by one position.
    proof fn lemma_best_grows(
        buf: Seq<u8>,
        path: Seq<int>,
        r: int,
        was: (usize, usize),
        pos: int,
        now: (usize, usize),
    )
        requires
            best_on_path(buf, path, r, was),
            ({
                let n = common_len(buf, pos, r);
                let d = ring_distance(r, pos);
                if n <= THRESHOLD || n < was.1 {
                    now == was
                } else if n > was.1 {
                    now.1 == n && now.0 == d
                } else {
                    now.1 == n && now.0 == (if d < was.0 { d } else { was.0 as int })
                }
            }),
            was.1 == 0 || was.1 > THRESHOLD,
        ensures
            best_on_path(buf, path.push(pos), r, now),
    {
        let more = path.push(pos);
        let n = common_len(buf, pos, r);
        assert forall|i: int| 0 <= i < more.len() implies common_len(buf, #[trigger] more[i], r)
            <= now.1 || common_len(buf, more[i], r) <= THRESHOLD by {
            if i < path.len() {
                assert(more[i] == path[i]);
            }
        }
        if now.1 > 0 {
            if n > THRESHOLD && n >= was.1 && now.0 == ring_distance(r, pos) {
                assert(more[path.len() as int] == pos);
            } else {
                let i = choose|i: int|
                    0 <= i < path.len() && common_len(buf, #[trigger] path[i], r) == was.1
                        && ring_distance(r, path[i]) == was.0;
                assert(more[i] == path[i]);
            }
            assert forall|i: int|
                0 <= i < more.len() && common_len(buf, #[trigger] more[i], r) == now.1 implies now.0
                <= ring_distance(r, more[i]) by {
                if i < path.len() {
                    assert(more[i] == path[i]);
                }
            }
        }
    }

    /// Takes position `p` out of the tree, if it is a node.
    #[verifier::rlimit(40)]
    pub fn delete_node(&mut self, p: usize)
        requires
            old(self).wf(),
            p < RING_BUF_SIZE,
        ensures
            final(self).wf(),
            final(self).buf() == old(self).buf(),
            final(self).last_position() == old(self).last_position(),
            forall|x: int| #[trigger] final(self).contains(x) == (old(self).contains(x) && x != p),
            final(self).links() == removed(old(self).links(), p as int),
            final(self)@ == tree_delete(old(self)@, p as int),
    {
        if self.dad[p] == NIL {
            return ;
        }
        let ghost pre = *self;
        proof {
            assert(pre.node_ok(p as int));
            lemma_int_range(0, SLOTS as int);
        }
        if self.rson[p] == NIL {
            let q: usize = self.lson[p];
            self.splice(p, q);
        } else if self.lson[p] == NIL {
            let q: usize = self.rson[p];
            self.splice(p, q);
        } else {
            let mut t: usize = self.lson[p];
            proof {
                assert(pre.node_ok(t as int));
            }
            let ghost mut visited: Set<int> = Set::empty();
            while self.rson[t] != NIL
                invariant
                    *self == pre,
                    pre.wf(),
                    p < RING_BUF_SIZE,
                    pre.contains(p as int),
                    t < RING_BUF_SIZE,
                    pre.contains(t as int),
                    pre.depth@[t as int] > pre.depth@[p as int],
                    pre.text_buf@[t as int] == pre.text_buf@[p as int],
                    set_int_range(0, SLOTS as int).finite(),
                    set_int_range(0, SLOTS as int).len() == SLOTS,
                    visited.subset_of(set_int_range(0, SLOTS as int)),
                    forall|v: int| visited.contains(v) ==> pre.rank(v) < pre.rank(t as int),
                    visited.finite(),
                    rightmost(pre.links(), pre.lson@[p as int] as int, SLOTS as nat) == rightmost(
                        pre.links(),
                        t as int,
                        (SLOTS - visited.len()) as nat,
                    ),
                decreases SLOTS - visited.len(),
            {
                proof {
                    assert(pre.node_ok(t as int));
                    assert(pre.node_ok(pre.rson@[t as int] as int));
                    lemma_len_subset(visited, set_int_range(0, SLOTS as int));
                    assert(!visited.contains(t as int));
                    visited = visited.insert(t as int);
                    lemma_len_subset(visited, set_int_range(0, SLOTS as int));
                }
                t = self.rson[t];
            }
            let lt: usize = self.lson[t];
            self.splice(t, lt);
            self.replace_node(p, t);
        }
    }

    /// Links `q` to the parent of `p` in the place of `p`, which leaves
    /// the tree. `q` is the only child of `p`, or no node at all.
    #[verifier::rlimit(80)]
    #[verifier::spinoff_prover]
    fn splice(&mut self, p: usize, q: usize)
        requires
            old(self).wf(),
            p < RING_BUF_SIZE,
            old(self).contains(p as int),
            old(self).rson@[p as int] == NIL && q == old(self).lson@[p as int] || old(
                self,
            ).lson@[p as int] == NIL && q == old(self).rson@[p as int],
        ensures
            final(self).wf(),
            final(self).buf() == old(self).buf(),
            final(self).last_position() == old(self).last_position(),
            forall|x: int| #[trigger] final(self).contains(x) == (old(self).contains(x) && x != p),
            final(self).links() == spliced(old(self).links(), p as int, q as int),
    {
        let ghost pre = *self;
        proof {
            assert(pre.node_ok(p as int));
            let d = pre.dad@[p as int] as int;
            if d < NIL {
                assert(pre.node_ok(d));
            } else {
                assert(pre.root_ok(d));
            }
            if q != NIL {
                assert(pre.node_ok(q as int));
            }
        }
        let d: usize = self.dad[p];
        self.dad.set(q, d);
        if self.rson[d] == p {
            self.rson.set(d, q);
        } else {
            self.lson.set(d, q);
        }
        self.dad.set(p, NIL);
        proof {
            let want = spliced(pre.links(), p as int, q as int);
            assert(self.links().dad =~= want.dad);
            assert(self.links().lson =~= want.lson);
            assert(self.links().rson =~= want.rson);
            assert forall|x: int| 0 <= x < RING_BUF_SIZE implies #[trigger] self.node_ok(x) by {
                assert(pre.node_ok(x));
                if x != p && pre.dad@[x] != NIL {
                    let dx = pre.dad@[x] as int;
                    if dx < NIL {
                        assert(pre.node_ok(dx));
                    } else {
                        assert(pre.root_ok(dx));
                    }
                    let lx = pre.lson@[x] as int;
                    let rx = pre.rson@[x] as int;
                    if lx != NIL {
                        assert(pre.node_ok(lx));
                    }
                    if rx != NIL {
                        assert(pre.node_ok(rx));
                    }
                }
            }
            assert forall|r: int| NIL < r < SLOTS implies #[trigger] self.root_ok(r) by {
                assert(pre.root_ok(r));
                let c = pre.rson@[r] as int;
                if c != NIL {
                    assert(pre.node_ok(c));
                }
            }
        }
    }
}

} // verus!
