//! Shape of a token sequence during and after tokenizing: how sibling
//! offsets tile each container and where its last child ends.

use vstd::prelude::*;

use crate::decode::hop;
use crate::error::Error;
use crate::parse::{all_digits, digits_value, last_open, lemma_last_open, open_of, register};
use crate::token::{Token, TokenKind};

verus! {

/// The first open token at or after `j`, or the sequence's length if
/// there is none.
pub open spec fn first_open_from(toks: Seq<Token>, j: int) -> int
    decreases toks.len() - j,
{
    if j >= toks.len() {
        toks.len() as int
    } else if toks[j].next == 0 {
        j
    } else {
        first_open_from(toks, j + 1)
    }
}

/// The byte after container `c`'s last child (or after its opening byte if
/// it has none) is `pos`.
pub open spec fn lands(toks: Seq<Token>, c: int, pos: int) -> bool {
    let t = toks[c];
    if t.children > 0 {
        toks[hop(toks, c + 1, (t.children - 1) as nat)].byte_end() == pos
    } else {
        t.start + 1 == pos
    }
}

/// Every key position (even, counting from zero) among container `c`'s
/// first `n` children holds a byte string when `c` is a dictionary.
pub open spec fn keys_ok(toks: Seq<Token>, c: int, n: int) -> bool {
    toks[c].kind == TokenKind::Dict ==> forall|k: int|
        0 <= k < n && k % 2 == 0 ==> toks[#[trigger] hop(toks, c + 1, k as nat)].kind == TokenKind::ByteStr
}

/// The complete encoding of `t` starts at byte `p`: `i` before an
/// integer's digits, the opening byte of a container, or the decimal length
/// and `:` before a byte string's payload.
pub open spec fn begins(buf: Seq<u8>, t: Token, p: int) -> bool {
    &&& 0 <= p < buf.len()
    &&& if t.kind == TokenKind::Int {
        t.start == p + 1 && buf[p] == 105u8
    } else if t.kind == TokenKind::List {
        t.start == p && buf[p] == 108u8
    } else if t.kind == TokenKind::Dict {
        t.start == p && buf[p] == 100u8
    } else {
        &&& p + 1 < t.start <= buf.len()
        &&& buf[t.start - 1] == 58u8
        &&& all_digits(buf.subrange(p, t.start - 1))
        &&& digits_value(buf.subrange(p, t.start - 1)) == t.end - t.start
    }
}

/// Where the `k`-th child of container `c` must begin: right after the
/// opening byte, or where the child before it ends.
pub open spec fn child_begin(toks: Seq<Token>, c: int, k: int) -> int {
    if k == 0 {
        toks[c].start + 1
    } else {
        toks[hop(toks, c + 1, (k - 1) as nat)].byte_end()
    }
}

/// The first `n` children of container `c` are encoded one right after the
/// other, from the byte after the opening one.
#[verifier::opaque]
pub open spec fn tiles(buf: Seq<u8>, toks: Seq<Token>, c: int, n: int) -> bool {
    forall|k: int| 0 <= k < n ==> begins(buf, toks[#[trigger] hop(toks, c + 1, k as nat)], child_begin(toks, c, k))
}

/// A closed token's subtree: walking its `children` siblings from its first
/// child visits indices inside the subtree and ends exactly at the next
/// sibling; a container's last child ends right before its closing `e`.
pub open spec fn closed_ok(buf: Seq<u8>, toks: Seq<Token>, c: int) -> bool {
    let t = toks[c];
    &&& hop(toks, c + 1, t.children as nat) == c + t.next
    &&& forall|k: int| 0 <= k < t.children ==> c < #[trigger] hop(toks, c + 1, k as nat) < c + t.next
    &&& !t.is_container() ==> t.children == 0
    &&& t.is_container() ==> lands(toks, c, t.end - 1)
    &&& first_open_from(toks, c + 1) >= c + t.next
    &&& keys_ok(toks, c, t.children as int)
    &&& tiles(buf, toks, c, t.children as int)
}

/// An open container while parsing: its children so far are followed by
/// its open child, if it has one, or by the end of the sequence, and the
/// innermost one's last child ends at the cursor.
pub open spec fn open_ok(buf: Seq<u8>, toks: Seq<Token>, o: int, pos: int) -> bool {
    let t = toks[o];
    let f = first_open_from(toks, o + 1);
    &&& keys_ok(toks, o, t.children as int)
    &&& tiles(buf, toks, o, t.children as int)
    &&& f == toks.len() ==> {
        &&& hop(toks, o + 1, t.children as nat) == toks.len()
        &&& forall|k: int| 0 <= k < t.children ==> o < #[trigger] hop(toks, o + 1, k as nat) < toks.len()
        &&& lands(toks, o, pos)
    }
    &&& f < toks.len() ==> {
        &&& t.children >= 1
        &&& hop(toks, o + 1, (t.children - 1) as nat) == f
        &&& forall|k: int| 0 <= k < t.children - 1 ==> o < #[trigger] hop(toks, o + 1, k as nat) < f
    }
}

pub open spec fn shape_at(buf: Seq<u8>, toks: Seq<Token>, c: int, pos: int) -> bool {
    if toks[c].next != 0 {
        closed_ok(buf, toks, c)
    } else {
        open_ok(buf, toks, c, pos)
    }
}

/// Every token of a partial parse with the cursor at `pos` has its shape.
pub open spec fn shaped(buf: Seq<u8>, toks: Seq<Token>, pos: int) -> bool {
    forall|c: int| 0 <= c < toks.len() ==> #[trigger] shape_at(buf, toks, c, pos)
}

/// Every token of a finished parse is a well-formed subtree.
pub open spec fn subtrees_ok(buf: Seq<u8>, toks: Seq<Token>) -> bool {
    forall|c: int| 0 <= c < toks.len() ==> #[trigger] closed_ok(buf, toks, c)
}

pub proof fn lemma_first_open(toks: Seq<Token>, j: int)
    requires
        0 <= j <= toks.len(),
    ensures
        j <= first_open_from(toks, j) <= toks.len(),
        first_open_from(toks, j) < toks.len() ==> toks[first_open_from(toks, j)].next == 0,
        forall|x: int| j <= x < first_open_from(toks, j) ==> (#[trigger] toks[x]).next != 0,
    decreases toks.len() - j,
{
    if j < toks.len() && toks[j].next != 0 {
        lemma_first_open(toks, j + 1);
    }
}

/// Two sequences whose tokens agree on being open from `j` to `b` find the
/// same first open token when it lies before `b`.
pub proof fn lemma_first_open_frame(t1: Seq<Token>, t2: Seq<Token>, j: int, b: int)
    requires
        0 <= j <= b <= t1.len(),
        b <= t2.len(),
        forall|x: int| j <= x < b ==> (t1[x].next == 0) == (t2[x].next == 0),
        first_open_from(t1, j) < b,
    ensures
        first_open_from(t2, j) == first_open_from(t1, j),
    decreases b - j,
{
    lemma_first_open(t1, j);
    if t1[j].next != 0 {
        lemma_first_open_frame(t1, t2, j + 1, b);
    }
}

/// A walk that stays in `[lo, b)` reads only `next` offsets there.
pub proof fn lemma_hop_frame(t1: Seq<Token>, t2: Seq<Token>, j: int, k: nat, lo: int, b: int)
    requires
        0 <= lo <= b <= t1.len(),
        b <= t2.len(),
        forall|x: int| lo <= x < b ==> t1[x].next == t2[x].next,
        forall|m: int| 0 <= m < k ==> lo <= #[trigger] hop(t1, j, m as nat) < b,
    ensures
        hop(t1, j, k) == hop(t2, j, k),
    decreases k,
{
    if k > 0 {
        assert(lo <= hop(t1, j, (k - 1) as int as nat) < b);
        lemma_hop_frame(t1, t2, j, (k - 1) as nat, lo, b);
    }
}

/// Adding a token under the innermost open container keeps the shape.
pub proof fn lemma_shape_push(buf: Seq<u8>, toks: Seq<Token>, pos: int, t1: Seq<Token>, x: Token, p: int, pos2: int)
    requires
        shaped(buf, toks, pos),
        toks.len() > 0 ==> open_of(toks) >= 0,
        toks.len() < usize::MAX,
        forall|j: int| 0 <= j < toks.len() ==> (#[trigger] toks[j]).children + j < toks.len(),
        register(toks, x.kind, p) == Ok::<Seq<Token>, Error>(t1),
        x.children == 0,
        begins(buf, x, pos),
        x.is_container() ==> x.next == 0 && x.start + 1 == pos2,
        !x.is_container() ==> x.next == 1 && x.byte_end() == pos2,
    ensures
        shaped(buf, t1.push(x), pos2),
{
    let n = toks.len() as int;
    let t2 = t1.push(x);
    let o = open_of(toks);
    lemma_last_open(toks, n);
    assert(t2.len() == n + 1);
    assert forall|q: int| 0 <= q < n && q != o implies t2[q] == toks[q] by {}
    assert forall|q: int| 0 <= q < n implies t2[q].next == toks[q].next && t2[q].kind == toks[q].kind && t2[q].end
        == toks[q].end && t2[q].start == toks[q].start by {}
    assert(t2[n] == x);
    if o >= 0 {
        lemma_first_open(toks, o + 1);
        assert(first_open_from(toks, o + 1) == n);
        assert(toks[o].children + o < n);
    }
    assert forall|c: int| 0 <= c < t2.len() implies #[trigger] shape_at(buf, t2, c, pos2) by {
        lemma_first_open(t2, c + 1);
        if c == n {
            assert(hop(t2, c + 1, 0) == c + 1);
            assert(first_open_from(t2, c + 1) == n + 1);
            lemma_tiles_none(buf, t2, c);
            assert(shape_at(buf, t2, c, pos2));
        } else {
            assert(shape_at(buf, toks, c, pos));
            lemma_first_open(toks, c + 1);
            if c == o {
                let ch = toks[o].children as int;
                assert(t2[o].children == ch + 1);
                assert forall|k: int| 0 <= k <= ch implies #[trigger] hop(t2, o + 1, k as nat) == hop(toks, o + 1, k as nat) by {
                    assert forall|m: int| 0 <= m < k implies o + 1 <= #[trigger] hop(toks, o + 1, m as nat) < n by {}
                    lemma_hop_frame(toks, t2, o + 1, k as nat, o + 1, n);
                }
                assert(hop(t2, o + 1, ch as nat) == n);
                assert(hop(t2, o + 1, (ch + 1) as nat) == n + x.next);
                lemma_tiles_frame(buf, toks, t2, o, ch);
                if ch > 0 {
                    assert(hop(t2, o + 1, (ch - 1) as nat) == hop(toks, o + 1, (ch - 1) as nat));
                    assert(hop(toks, o + 1, (ch - 1) as nat) < n);
                }
                assert(lands(toks, o, pos));
                assert(child_begin(t2, o, ch) == pos);
                lemma_tiles_extend(buf, t2, o, ch);
                if x.is_container() {
                    assert(first_open_from(t2, o + 1) == n);
                    assert(open_ok(buf, t2, c, pos2));
                } else {
                    assert(first_open_from(t2, o + 1) == n + 1);
                    assert(lands(t2, c, pos2));
                    assert(open_ok(buf, t2, c, pos2));
                }
                assert(shape_at(buf, t2, c, pos2));
            } else if toks[c].next == 0 {
                let f = first_open_from(toks, c + 1);
                assert(c < o) by {
                    if c > o {
                        assert(toks[c].next != 0);
                    }
                }
                assert(f <= o);
                lemma_first_open_frame(toks, t2, c + 1, n);
                let ch = toks[c].children as int;
                assert forall|k: int| 0 <= k <= ch - 1 implies #[trigger] hop(t2, c + 1, k as nat) == hop(toks, c + 1, k as nat) by {
                    assert forall|m: int| 0 <= m < k implies c + 1 <= #[trigger] hop(toks, c + 1, m as nat) < f by {}
                    lemma_hop_frame(toks, t2, c + 1, k as nat, c + 1, f);
                }
                lemma_tiles_frame(buf, toks, t2, c, ch);
                assert(open_ok(buf, t2, c, pos2));
                assert(shape_at(buf, t2, c, pos2));
            } else {
                let ch = toks[c].children as int;
                let e = c + toks[c].next;
                assert(e <= n);
                assert forall|k: int| 0 <= k <= ch implies #[trigger] hop(t2, c + 1, k as nat) == hop(toks, c + 1, k as nat) by {
                    assert forall|m: int| 0 <= m < k implies c + 1 <= #[trigger] hop(toks, c + 1, m as nat) < e by {}
                    lemma_hop_frame(toks, t2, c + 1, k as nat, c + 1, e);
                }
                assert(hop(t2, c + 1, ch as nat) == hop(toks, c + 1, ch as nat));
                assert(hop(t2, c + 1, toks[c].children as nat) == c + toks[c].next);
                if first_open_from(toks, c + 1) < n {
                    lemma_first_open_frame(toks, t2, c + 1, n);
                } else {
                    assert(first_open_from(t2, c + 1) >= n);
                }
                if toks[c].is_container() && ch > 0 {
                    assert(hop(toks, c + 1, (ch - 1) as nat) < e);
                }
                lemma_tiles_frame(buf, toks, t2, c, ch);
                assert(closed_ok(buf, t2, c));
                assert(shape_at(buf, t2, c, pos2));
            }
        }
    }
}

/// The token that an `e` closes: the innermost open container, with its
/// end and its subtree size set.
pub open spec fn closed_at(toks: Seq<Token>, o: int, pos: int) -> Seq<Token> {
    toks.update(o, Token { end: (pos + 1) as usize, next: (toks.len() - o) as usize, ..toks[o] })
}

/// Closing the innermost open container keeps the shape.
pub proof fn lemma_shape_close(buf: Seq<u8>, toks: Seq<Token>, pos: int)
    requires
        shaped(buf, toks, pos),
        open_of(toks) >= 0,
        0 <= pos < usize::MAX,
        toks.len() <= usize::MAX,
        toks[open_of(toks)].is_container(),
    ensures
        shaped(buf, closed_at(toks, open_of(toks), pos), pos + 1),
{
    let n = toks.len() as int;
    let o = open_of(toks);
    let t2 = closed_at(toks, o, pos);
    lemma_last_open(toks, n);
    let p = last_open(toks, o);
    lemma_last_open(toks, o);
    assert forall|q: int| 0 <= q < n && q != o implies t2[q] == toks[q] by {}
    assert(t2[o].next == n - o);
    assert(t2[o].end == pos + 1);
    assert(t2[o].kind == toks[o].kind && t2[o].start == toks[o].start);
    lemma_first_open(toks, o + 1);
    assert(first_open_from(toks, o + 1) == n);
    assert(shape_at(buf, toks, o, pos));
    if p >= 0 {
        lemma_first_open(toks, p + 1);
        assert(first_open_from(toks, p + 1) == o);
    }
    assert forall|c: int| 0 <= c < t2.len() implies #[trigger] shape_at(buf, t2, c, pos + 1) by {
        lemma_first_open(t2, c + 1);
        lemma_first_open(toks, c + 1);
        assert(shape_at(buf, toks, c, pos));
        if c == o {
            let ch = toks[o].children as int;
            assert forall|k: int| 0 <= k <= ch implies #[trigger] hop(t2, o + 1, k as nat) == hop(toks, o + 1, k as nat) by {
                assert forall|m: int| 0 <= m < k implies o + 1 <= #[trigger] hop(toks, o + 1, m as nat) < n by {}
                lemma_hop_frame(toks, t2, o + 1, k as nat, o + 1, n);
            }
            assert(hop(t2, o + 1, ch as nat) == hop(toks, o + 1, ch as nat));
            assert(hop(t2, o + 1, toks[o].children as nat) == n);
            assert(first_open_from(t2, o + 1) == n);
            if ch > 0 {
                assert(o < hop(toks, o + 1, (ch - 1) as nat));
            }
            lemma_tiles_frame(buf, toks, t2, o, ch);
            assert(closed_ok(buf, t2, c));
        } else if c == p {
            let ch = toks[p].children as int;
            assert forall|k: int| 0 <= k <= ch - 1 implies #[trigger] hop(t2, p + 1, k as nat) == hop(toks, p + 1, k as nat) by {
                assert forall|m: int| 0 <= m < k implies p + 1 <= #[trigger] hop(toks, p + 1, m as nat) < o by {}
                lemma_hop_frame(toks, t2, p + 1, k as nat, p + 1, o);
            }
            assert(hop(t2, p + 1, (ch - 1) as nat) == o);
            assert(hop(t2, p + 1, ch as nat) == n);
            assert(hop(t2, p + 1, toks[p].children as nat) == n);
            assert(first_open_from(t2, p + 1) == n);
            assert(lands(t2, p, pos + 1));
            lemma_tiles_frame(buf, toks, t2, p, ch);
            assert(open_ok(buf, t2, c, pos + 1));
        } else if toks[c].next == 0 {
            assert(c < p) by {
                if c > p && c < o {
                    assert(toks[c].next != 0);
                }
                if c > o {
                    assert(toks[c].next != 0);
                }
            }
            let f = first_open_from(toks, c + 1);
            assert(f <= p);
            lemma_first_open_frame(toks, t2, c + 1, o);
            let ch = toks[c].children as int;
            assert forall|k: int| 0 <= k <= ch - 1 implies #[trigger] hop(t2, c + 1, k as nat) == hop(toks, c + 1, k as nat) by {
                assert forall|m: int| 0 <= m < k implies c + 1 <= #[trigger] hop(toks, c + 1, m as nat) < f by {}
                lemma_hop_frame(toks, t2, c + 1, k as nat, c + 1, f);
            }
            lemma_tiles_frame(buf, toks, t2, c, ch);
            assert(open_ok(buf, t2, c, pos + 1));
        } else {
            let ch = toks[c].children as int;
            let e = c + toks[c].next;
            assert(e <= first_open_from(toks, c + 1));
            assert(!(c + 1 <= o < e));
            assert forall|k: int| 0 <= k <= ch implies #[trigger] hop(t2, c + 1, k as nat) == hop(toks, c + 1, k as nat) by {
                assert forall|m: int| 0 <= m < k implies c + 1 <= #[trigger] hop(toks, c + 1, m as nat) < e by {}
                lemma_hop_frame(toks, t2, c + 1, k as nat, c + 1, e);
            }
            assert(hop(t2, c + 1, ch as nat) == hop(toks, c + 1, ch as nat));
            assert(hop(t2, c + 1, toks[c].children as nat) == c + toks[c].next);
            assert(first_open_from(t2, c + 1) >= e);
            if toks[c].is_container() && ch > 0 {
                assert(hop(toks, c + 1, (ch - 1) as nat) < e);
            }
            lemma_tiles_frame(buf, toks, t2, c, ch);
            assert(closed_ok(buf, t2, c));
        }
    }
}

/// Tiling reads only the children's positions, kinds and bounds, and the
/// container's start; the last child's end is not read unless it is a
/// leaf.
pub proof fn lemma_tiles_frame(buf: Seq<u8>, t1: Seq<Token>, t2: Seq<Token>, c: int, n: int)
    requires
        tiles(buf, t1, c, n),
        t1[c].start == t2[c].start,
        forall|k: int| 0 <= k < n ==> #[trigger] hop(t1, c + 1, k as nat) == hop(t2, c + 1, k as nat),
        forall|k: int|
            0 <= k < n ==> {
                let q = #[trigger] hop(t1, c + 1, k as nat);
                &&& t1[q].kind == t2[q].kind
                &&& t1[q].start == t2[q].start
                &&& (k < n - 1 || !t1[q].is_container()) ==> t1[q].end == t2[q].end
            },
    ensures
        tiles(buf, t2, c, n),
{
    reveal(tiles);
    assert forall|k: int| 0 <= k < n implies begins(buf, t2[#[trigger] hop(t2, c + 1, k as nat)], child_begin(t2, c, k)) by {
        assert(begins(buf, t1[hop(t1, c + 1, k as nat)], child_begin(t1, c, k)));
        if k > 0 {
            assert(hop(t1, c + 1, (k - 1) as nat) == hop(t2, c + 1, (k - 1) as nat));
        }
    }
}

/// A child that begins where the children before it end extends the
/// tiling.
pub proof fn lemma_tiles_extend(buf: Seq<u8>, t: Seq<Token>, c: int, n: int)
    requires
        0 <= n,
        tiles(buf, t, c, n),
        begins(buf, t[hop(t, c + 1, n as nat)], child_begin(t, c, n)),
    ensures
        tiles(buf, t, c, n + 1),
{
    reveal(tiles);
}

pub proof fn lemma_tiles_none(buf: Seq<u8>, t: Seq<Token>, c: int)
    ensures
        tiles(buf, t, c, 0),
{
    reveal(tiles);
}

} // verus!
