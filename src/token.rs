//! The token record stored in the arena, and the four kinds of value.

use vstd::prelude::*;

verus! {

/// The four kinds of Bencode value.
#[derive(Debug, PartialEq, Eq, Copy, Clone, Structural)]
pub enum TokenKind {
    Dict,
    List,
    ByteStr,
    Int,
}

/// One value of a parsed buffer, stored in a flat preorder arena.
///
/// `start..end` bounds the value in the buffer: the payload only for byte
/// strings and integers, the whole `l...e` / `d...e` span for containers.
/// `children` counts direct children (keys and values separately for a
/// dictionary); `next` is one plus the number of tokens in this token's
/// subtree, i.e. the distance to the next sibling. While its container is
/// still open during parsing, a token has `next == 0` and `end == UNSET`.
#[derive(Debug, Clone, Copy, PartialEq, Eq, Structural)]
pub struct Token {
    pub kind: TokenKind,
    pub start: usize,
    pub end: usize,
    pub children: usize,
    pub next: usize,
}

/// Placeholder `end` of a container whose closing byte has not been seen.
pub const UNSET: usize = usize::MAX;

impl Token {
    /// A token with no children that is its own whole subtree.
    pub fn new(kind: TokenKind, start: usize, end: usize) -> (r: Token)
        ensures
            r == (Token { kind, start, end, children: 0, next: 1 }),
    {
        Self::with_size(kind, start, end, 0, 1)
    }

    /// A token with every field given.
    pub fn with_size(kind: TokenKind, start: usize, end: usize, children: usize, next: usize) -> (r: Token)
        ensures
            r == (Token { kind, start, end, children, next }),
    {
        Token { kind, start, end, children, next }
    }

    /// The kind of value this token describes.
    pub fn kind(&self) -> (r: TokenKind)
        ensures
            r == self.kind,
    {
        self.kind
    }

    /// Returns this token's bounds in the parsed buffer. The token must be
    /// closed: an open container has no end yet.
    pub fn range(&self) -> (r: std::ops::Range<usize>)
        requires
            self.end != UNSET,
            self.start <= self.end,
        ensures
            r.start == self.start,
            r.end == self.end,
    {
        std::ops::Range { start: self.start, end: self.end }
    }

    /// The offset just past the last byte that belongs to this value:
    /// an integer's closing `e` lies one past its digits.
    pub open spec fn byte_end(self) -> int {
        if self.kind == TokenKind::Int {
            self.end + 1
        } else {
            self.end as int
        }
    }

    /// True while the token's container has not been closed.
    pub open spec fn is_open(self) -> bool {
        self.next == 0
    }

    pub open spec fn is_container(self) -> bool {
        self.kind == TokenKind::List || self.kind == TokenKind::Dict
    }
}

} // verus!
