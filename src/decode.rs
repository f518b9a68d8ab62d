//! Tree view over a parsed buffer: read-only cursors that walk the flat
//! token sequence by sibling offsets and slice payloads out of the buffer.

use vstd::prelude::*;
use vstd::string::StringSliceAdditionalSpecFns;
use vstd::utf8::valid_utf8;

use crate::encode::{int_digits, lemma_nat_digits, nat_digits, put_decimal};
use crate::error::Error;
use crate::parse::{
    all_digits, digits_value, finished, has_sign, int_text_ok, int_text_value, is_digit, lemma_digits_value_mono, magnitude_bound, signed,
    parse_prefix_result, parse_result, token_ok, tokenize, tokens_ok, unsigned_part,
};
use crate::shape::{closed_ok, keys_ok, subtrees_ok};
use crate::token::{Token, TokenKind};

verus! {

/// The kind of value a node holds.
pub type NodeKind = TokenKind;

/// Index reached from token `j` after `k` sibling hops, each hop skipping
/// a whole subtree by its `next` offset. A hop from outside the sequence
/// stays where it is.
pub open spec fn hop(toks: Seq<Token>, j: int, k: nat) -> int
    decreases k,
{
    if k == 0 {
        j
    } else {
        let p = hop(toks, j, (k - 1) as nat);
        if 0 <= p < toks.len() {
            p + toks[p].next
        } else {
            p
        }
    }
}

/// The index of the `i`-th direct child of container `idx`.
pub open spec fn child_at(toks: Seq<Token>, idx: int, i: int) -> Option<int> {
    let c = hop(toks, idx + 1, i as nat);
    if 0 <= i < toks[idx].children && 0 <= c < toks.len() {
        Some(c)
    } else {
        None
    }
}

/// The bytes a token spans in the buffer.
pub open spec fn span(buf: Seq<u8>, t: Token) -> Seq<u8> {
    buf.subrange(t.start as int, t.end as int)
}

/// Bytes that `as_ascii_str` accepts: ASCII letters, digits, punctuation
/// and whitespace.
pub open spec fn is_readable(b: u8) -> bool {
    (33 <= b && b <= 126) || b == 32 || b == 9 || b == 10 || b == 12 || b == 13
}

pub open spec fn all_readable(s: Seq<u8>) -> bool {
    forall|i: int| 0 <= i < s.len() ==> is_readable(#[trigger] s[i])
}

/// Relies on `std::str::from_utf8`: it accepts exactly the valid UTF-8
/// sequences and returns a view of the same bytes.
#[verifier::external_body]
fn utf8_str<'a>(b: &'a [u8]) -> (r: Option<&'a str>)
    ensures
        r is Some <==> valid_utf8(b@),
        r is Some ==> r.unwrap().spec_bytes() == b@,
{
    std::str::from_utf8(b).ok()
}

/// The token store a node reads: borrowed from a parser or a caller, or
/// owned by the root node that a parse returned.
#[derive(Debug, PartialEq)]
pub(crate) enum Store<'a> {
    Borrowed(&'a [Token]),
    Owned(Vec<Token>),
}

impl<'a> Store<'a> {
    pub(crate) open spec fn view(&self) -> Seq<Token> {
        match self {
            Store::Borrowed(t) => t@,
            Store::Owned(v) => v@,
        }
    }

    fn as_slice(&self) -> (r: &[Token])
        ensures
            r@ == self.view(),
    {
        match self {
            Store::Borrowed(t) => t,
            Store::Owned(v) => v.as_slice(),
        }
    }
}

/// What a cursor needs of its buffer and tokens: every token is closed and
/// readable, and the cursor's index is in range.
pub open spec fn cursor_ok(buf: Seq<u8>, toks: Seq<Token>, idx: int) -> bool {
    tokens_ok(buf, toks) && subtrees_ok(buf, toks) && finished(toks) && 0 <= idx < toks.len()
}

/// In a parsed sequence every child position of a container holds a token
/// after the container.
proof fn lemma_child_in_range(buf: Seq<u8>, toks: Seq<Token>, c: int, k: int)
    requires
        cursor_ok(buf, toks, c),
        0 <= k < toks[c].children,
    ensures
        child_at(toks, c, k) is Some,
        child_at(toks, c, k).unwrap() > c,
{
    assert(closed_ok(buf, toks, c));
    assert(token_ok(buf, toks, c));
    assert(c < hop(toks, c + 1, k as nat) < c + toks[c].next);
}

/// A read-only cursor on one value of a parsed buffer.
#[derive(Debug, PartialEq)]
pub struct Node<'a> {
    buf: &'a [u8],
    tokens: Store<'a>,
    idx: usize,
}

impl<'a> Node<'a> {
    #[verifier::type_invariant]
    spec fn inv(&self) -> bool {
        cursor_ok(self.buf@, self.tokens.view(), self.idx as int)
    }

    /// The buffer the node reads.
    pub closed spec fn buf_view(&self) -> Seq<u8> {
        self.buf@
    }

    /// The token sequence the node belongs to.
    pub closed spec fn toks(&self) -> Seq<Token> {
        self.tokens.view()
    }

    /// The node's index in its token sequence.
    pub closed spec fn index(&self) -> int {
        self.idx as int
    }

    /// The node's own token.
    pub open spec fn token(&self) -> Token {
        self.toks()[self.index()]
    }

    /// The bytes of the node's own token.
    pub open spec fn span_view(&self) -> Seq<u8> {
        span(self.buf_view(), self.token())
    }

    /// Node `idx` of a token sequence that a parse of `buf` produced.
    pub(crate) fn borrowed(buf: &'a [u8], tokens: &'a [Token], idx: usize) -> (r: Node<'a>)
        requires
            cursor_ok(buf@, tokens@, idx as int),
        ensures
            r.buf_view() == buf@,
            r.toks() == tokens@,
            r.index() == idx,
    {
        Node { buf, tokens: Store::Borrowed(tokens), idx }
    }

    fn tok(&self) -> (r: Token)
        ensures
            r == self.token(),
    {
        proof {
            use_type_invariant(self);
        }
        self.tokens.as_slice()[self.idx]
    }

    /// Parses `buf`, which must hold exactly one value.
    pub fn parse(buf: &'a [u8]) -> (r: Result<Node<'a>, Error>)
        ensures
            match r {
                Ok(n) => parse_result(buf@, usize::MAX as int) == Ok::<Seq<Token>, Error>(n.toks()) && n.index() == 0
                    && n.buf_view() == buf@ && subtrees_ok(n.buf_view(), n.toks()),
                Err(e) => parse_result(buf@, usize::MAX as int) == Err::<Seq<Token>, Error>(e),
            },
    {
        Self::parse_max_tokens(buf, usize::MAX)
    }

    /// Parses `buf`, which must hold exactly one value of at most
    /// `max_tokens` tokens.
    pub fn parse_max_tokens(buf: &'a [u8], max_tokens: usize) -> (r: Result<Node<'a>, Error>)
        ensures
            match r {
                Ok(n) => parse_result(buf@, max_tokens as int) == Ok::<Seq<Token>, Error>(n.toks()) && n.index() == 0
                    && n.buf_view() == buf@ && subtrees_ok(n.buf_view(), n.toks()),
                Err(e) => parse_result(buf@, max_tokens as int) == Err::<Seq<Token>, Error>(e),
            },
    {
        let mut tokens: Vec<Token> = Vec::new();
        let len = tokenize(&mut tokens, max_tokens, buf)?;
        if len != buf.len() {
            return Err(Error::Invalid { reason: crate::parse::EXTRA_BYTES, pos: len });
        }
        Ok(Node { buf, tokens: Store::Owned(tokens), idx: 0 })
    }

    /// Parses the first complete value of `buf` and returns it with the
    /// number of bytes it takes; bytes after it are left alone.
    pub fn parse_prefix(buf: &'a [u8]) -> (r: Result<(Node<'a>, usize), Error>)
        ensures
            match r {
                Ok((n, len)) => parse_prefix_result(buf@, usize::MAX as int) == Ok::<(Seq<Token>, int), Error>(
                    (n.toks(), len as int),
                ) && n.index() == 0 && n.buf_view() == buf@ && subtrees_ok(n.buf_view(), n.toks()),
                Err(e) => parse_prefix_result(buf@, usize::MAX as int) == Err::<(Seq<Token>, int), Error>(e),
            },
    {
        let mut tokens: Vec<Token> = Vec::new();
        let len = tokenize(&mut tokens, usize::MAX, buf)?;
        Ok((Node { buf, tokens: Store::Owned(tokens), idx: 0 }, len))
    }

    /// Parses `buf`, which must hold exactly one value, into the caller's
    /// token store, which is cleared first.
    pub fn parse_in(buf: &'a [u8], tokens: &'a mut Vec<Token>) -> (r: Result<Node<'a>, Error>)
        ensures
            match r {
                Ok(n) => parse_result(buf@, usize::MAX as int) == Ok::<Seq<Token>, Error>(n.toks()) && n.index() == 0
                    && n.buf_view() == buf@ && subtrees_ok(n.buf_view(), n.toks()),
                Err(e) => parse_result(buf@, usize::MAX as int) == Err::<Seq<Token>, Error>(e),
            },
    {
        let len = tokenize(tokens, usize::MAX, buf)?;
        if len != buf.len() {
            return Err(Error::Invalid { reason: crate::parse::EXTRA_BYTES, pos: len });
        }
        let shared: &'a Vec<Token> = tokens;
        Ok(Node::borrowed(buf, shared.as_slice(), 0))
    }

    /// Parses the first complete value of `buf` into the caller's token
    /// store and returns it with the number of bytes it takes.
    pub fn parse_prefix_in(buf: &'a [u8], tokens: &'a mut Vec<Token>) -> (r: Result<(Node<'a>, usize), Error>)
        ensures
            match r {
                Ok((n, len)) => parse_prefix_result(buf@, usize::MAX as int) == Ok::<(Seq<Token>, int), Error>(
                    (n.toks(), len as int),
                ) && n.index() == 0 && n.buf_view() == buf@ && subtrees_ok(n.buf_view(), n.toks()),
                Err(e) => parse_prefix_result(buf@, usize::MAX as int) == Err::<(Seq<Token>, int), Error>(e),
            },
    {
        let len = tokenize(tokens, usize::MAX, buf)?;
        let shared: &'a Vec<Token> = tokens;
        Ok((Node::borrowed(buf, shared.as_slice(), 0), len))
    }

    /// The node's bytes: the whole span, delimiters included, for a list or
    /// a dictionary; the payload alone for a byte string or an integer.
    pub fn as_raw_bytes(&self) -> (r: &'a [u8])
        ensures
            r@ == self.span_view(),
    {
        proof {
            use_type_invariant(self);
            assert(token_ok(self.buf@, self.tokens.view(), self.idx as int));
        }
        let t = self.tok();
        &self.buf[t.start..t.end]
    }

    /// Same as `as_raw_bytes`.
    pub fn data(&self) -> (r: &'a [u8])
        ensures
            r@ == self.span_view(),
    {
        self.as_raw_bytes()
    }

    /// The kind of value this node holds.
    pub fn kind(&self) -> (r: NodeKind)
        ensures
            r == self.token().kind,
    {
        self.tok().kind
    }

    /// Returns true if this node is a list.
    pub fn is_list(&self) -> (r: bool)
        ensures
            r == (self.token().kind == TokenKind::List),
    {
        self.kind() == TokenKind::List
    }

    /// Returns true if this node is a dictionary.
    pub fn is_dict(&self) -> (r: bool)
        ensures
            r == (self.token().kind == TokenKind::Dict),
    {
        self.kind() == TokenKind::Dict
    }

    /// Returns true if this node is a byte string.
    pub fn is_bytes(&self) -> (r: bool)
        ensures
            r == (self.token().kind == TokenKind::ByteStr),
    {
        self.kind() == TokenKind::ByteStr
    }

    /// Same as `is_bytes`.
    pub fn is_str(&self) -> (r: bool)
        ensures
            r == (self.token().kind == TokenKind::ByteStr),
    {
        self.is_bytes()
    }

    /// Returns true if this node is an integer.
    pub fn is_int(&self) -> (r: bool)
        ensures
            r == (self.token().kind == TokenKind::Int),
    {
        self.kind() == TokenKind::Int
    }

    /// This node as a `List`, if it is one.
    pub fn as_list(&self) -> (r: Option<List<'_>>)
        ensures
            r is Some <==> self.token().kind == TokenKind::List,
            r is Some ==> r.unwrap().buf_view() == self.buf_view() && r.unwrap().toks() == self.toks()
                && r.unwrap().index() == self.index(),
    {
        proof {
            use_type_invariant(self);
        }
        if self.is_list() {
            Some(List { buf: self.buf, tokens: self.tokens.as_slice(), idx: self.idx })
        } else {
            None
        }
    }

    /// This node as a `Dict`, if it is one.
    pub fn as_dict(&self) -> (r: Option<Dict<'_>>)
        ensures
            r is Some <==> self.token().kind == TokenKind::Dict,
            r is Some ==> r.unwrap().buf_view() == self.buf_view() && r.unwrap().toks() == self.toks()
                && r.unwrap().index() == self.index(),
    {
        proof {
            use_type_invariant(self);
        }
        if self.is_dict() {
            Some(Dict { buf: self.buf, tokens: self.tokens.as_slice(), idx: self.idx })
        } else {
            None
        }
    }

    /// The integer this node holds, decoded from its digits.
    pub fn as_int(&self) -> (r: Option<i64>)
        ensures
            r is Some <==> self.token().kind == TokenKind::Int,
            r is Some ==> r.unwrap() == int_text_value(self.span_view()),
    {
        proof {
            use_type_invariant(self);
            assert(token_ok(self.buf@, self.tokens.view(), self.idx as int));
        }
        if !self.is_int() {
            return None;
        }
        let s = self.as_raw_bytes();
        let neg = s.len() > 0 && s[0] == 45u8;
        let first: usize = if neg { 1 } else { 0 };
        let ghost u = unsigned_part(s@);
        proof {
            assert(int_text_ok(s@));
            if neg {
                assert(u =~= s@.subrange(1, s@.len() as int));
            } else {
                assert(u =~= s@.subrange(0, s@.len() as int));
            }
        }
        let mut i = first;
        let mut val: u64 = 0;
        while i < s.len()
            invariant
                first <= i <= s@.len(),
                u == s@.subrange(first as int, s@.len() as int),
                all_digits(u),
                neg == has_sign(s@),
                digits_value(u) <= magnitude_bound(neg),
                val as int == digits_value(s@.subrange(first as int, i as int)),
            decreases s@.len() - i,
        {
            proof {
                let k = i - first + 1;
                assert(u.subrange(0, k) =~= s@.subrange(first as int, i + 1));
                lemma_digits_value_mono(u, k);
                assert(s@.subrange(first as int, i + 1) =~= s@.subrange(first as int, i as int).push(s@[i as int]));
                assert(s@.subrange(first as int, i + 1).drop_last() =~= s@.subrange(first as int, i as int));
                assert(is_digit(u[i - first]));
            }
            let digit = (s[i] - 48u8) as u64;
            val = val * 10 + digit;
            i = i + 1;
        }
        proof {
            assert(s@.subrange(first as int, s@.len() as int) == u);
            if neg {
                assert(has_sign(s@));
                assert(s@.drop_first() =~= u);
            } else {
                assert(!has_sign(s@));
            }
        }
        Some(signed(neg, val))
    }

    /// The byte string this node holds.
    pub fn as_bytes(&self) -> (r: Option<&'a [u8]>)
        ensures
            r is Some <==> self.token().kind == TokenKind::ByteStr,
            r is Some ==> r.unwrap()@ == self.span_view(),
    {
        if self.is_bytes() {
            Some(self.as_raw_bytes())
        } else {
            None
        }
    }

    /// The byte string this node holds, if it is valid UTF-8.
    pub fn as_str(&self) -> (r: Option<&'a str>)
        ensures
            r is Some <==> self.token().kind == TokenKind::ByteStr && valid_utf8(self.span_view()),
            r is Some ==> r.unwrap().spec_bytes() == self.span_view(),
    {
        match self.as_bytes() {
            Some(b) => utf8_str(b),
            None => None,
        }
    }

    /// The byte string this node holds, if it is valid UTF-8 made only of
    /// ASCII letters, digits, punctuation and whitespace.
    pub fn as_ascii_str(&self) -> (r: Option<&'a str>)
        ensures
            r is Some <==> self.token().kind == TokenKind::ByteStr && valid_utf8(self.span_view()) && all_readable(
                self.span_view(),
            ),
            r is Some ==> r.unwrap().spec_bytes() == self.span_view(),
    {
        let s = match self.as_str() {
            Some(s) => s,
            None => return None,
        };
        let b = s.as_bytes();
        let mut i: usize = 0;
        while i < b.len()
            invariant
                i <= b@.len(),
                b@ == self.span_view(),
                forall|j: int| 0 <= j < i ==> is_readable(#[trigger] b@[j]),
            decreases b@.len() - i,
        {
            let c = b[i];
            if !((33u8 <= c && c <= 126u8) || c == 32u8 || c == 9u8 || c == 10u8 || c == 12u8 || c == 13u8) {
                return None;
            }
            i = i + 1;
        }
        Some(s)
    }
}

/// Compares two byte slices.
fn bytes_eq(a: &[u8], b: &[u8]) -> (r: bool)
    ensures
        r == (a@ == b@),
{
    if a.len() != b.len() {
        return false;
    }
    let mut i: usize = 0;
    while i < a.len()
        invariant
            i <= a@.len(),
            a@.len() == b@.len(),
            forall|j: int| 0 <= j < i ==> a@[j] == b@[j],
        decreases a@.len() - i,
    {
        if a[i] != b[i] {
            return false;
        }
        i = i + 1;
    }
    assert(a@ =~= b@);
    true
}

/// Walks from token `j` over `k` siblings.
fn skip(tokens: &[Token], j: usize, k: usize) -> (r: usize)
    requires
        j <= tokens@.len(),
        forall|x: int| 0 <= x < tokens@.len() ==> x + (#[trigger] tokens@[x]).next <= tokens@.len(),
    ensures
        r == hop(tokens@, j as int, k as nat),
        r <= tokens@.len(),
{
    let mut idx = j;
    let mut item: usize = 0;
    while item < k
        invariant
            item <= k,
            idx == hop(tokens@, j as int, item as nat),
            j <= idx <= tokens@.len(),
            forall|x: int| 0 <= x < tokens@.len() ==> x + (#[trigger] tokens@[x]).next <= tokens@.len(),
        decreases k - item,
    {
        if idx < tokens.len() {
            idx = idx + tokens[idx].next;
        }
        item = item + 1;
    }
    idx
}

/// Every closed token of a readable sequence ends inside it.
proof fn lemma_next_in_range(buf: Seq<u8>, toks: Seq<Token>)
    requires
        tokens_ok(buf, toks),
        finished(toks),
    ensures
        forall|x: int| 0 <= x < toks.len() ==> x + (#[trigger] toks[x]).next <= toks.len(),
        forall|x: int| 0 <= x < toks.len() ==> (#[trigger] toks[x]).next >= 1,
{
    assert forall|x: int| 0 <= x < toks.len() implies x + (#[trigger] toks[x]).next <= toks.len() by {
        assert(token_ok(buf, toks, x));
    }
}

/// A read-only cursor on a list.
pub struct List<'a> {
    buf: &'a [u8],
    tokens: &'a [Token],
    idx: usize,
}

impl<'a> List<'a> {
    #[verifier::type_invariant]
    spec fn inv(&self) -> bool {
        cursor_ok(self.buf@, self.tokens@, self.idx as int) && self.tokens@[self.idx as int].kind == TokenKind::List
    }

    pub closed spec fn buf_view(&self) -> Seq<u8> {
        self.buf@
    }

    pub closed spec fn toks(&self) -> Seq<Token> {
        self.tokens@
    }

    pub closed spec fn index(&self) -> int {
        self.idx as int
    }

    /// The list's own token.
    pub open spec fn token(&self) -> Token {
        self.toks()[self.index()]
    }

    /// The index of the list's `i`-th item.
    pub open spec fn item(&self, i: int) -> Option<int> {
        child_at(self.toks(), self.index(), i)
    }

    /// The list's whole span, `l` and `e` included.
    pub fn data(&self) -> (r: &'a [u8])
        ensures
            r@ == span(self.buf_view(), self.token()),
    {
        proof {
            use_type_invariant(self);
            assert(token_ok(self.buf@, self.tokens@, self.idx as int));
        }
        let t = self.tokens[self.idx];
        &self.buf[t.start..t.end]
    }

    /// A fresh iterator over the items of the list.
    pub fn iter(&self) -> (r: ListIter<'a>)
        ensures
            r.buf_view() == self.buf_view(),
            r.toks() == self.toks(),
            r.parent() == self.index(),
            r.position() == 0,
    {
        proof {
            use_type_invariant(self);
        }
        ListIter {
            buf: self.buf,
            tokens: self.tokens,
            parent: self.idx,
            total: self.tokens[self.idx].children,
            token_idx: self.idx + 1,
            pos: 0,
        }
    }

    /// The index of the `i`-th item, walking over the earlier items'
    /// subtrees by their `next` offsets.
    fn find_idx(&self, i: usize) -> (r: Option<usize>)
        ensures
            match r {
                Some(c) => self.item(i as int) == Some(c as int),
                None => self.item(i as int) is None,
            },
    {
        proof {
            use_type_invariant(self);
            lemma_next_in_range(self.buf@, self.tokens@);
        }
        let token = self.tokens[self.idx];
        if i >= token.children {
            return None;
        }
        let c = skip(self.tokens, self.idx + 1, i);
        if c < self.tokens.len() {
            Some(c)
        } else {
            None
        }
    }

    /// The `i`-th item of the list.
    pub fn get(&self, i: usize) -> (r: Option<Node<'a>>)
        ensures
            r is Some <==> self.item(i as int) is Some,
            r is Some <==> i < self.token().children,
            r is Some ==> r.unwrap().index() == self.item(i as int).unwrap() && r.unwrap().toks() == self.toks()
                && r.unwrap().buf_view() == self.buf_view(),
    {
        proof {
            use_type_invariant(self);
        }
        proof {
            if i < self.tokens@[self.idx as int].children {
                lemma_child_in_range(self.buf@, self.tokens@, self.idx as int, i as int);
            }
        }
        match self.find_idx(i) {
            Some(c) => Some(Node::borrowed(self.buf, self.tokens, c)),
            None => None,
        }
    }

    /// The `i`-th item, if it is a dictionary.
    pub fn get_dict(&self, i: usize) -> (r: Option<Dict<'a>>)
        ensures
            r is Some <==> self.item(i as int) is Some && self.toks()[self.item(i as int).unwrap()].kind == TokenKind::Dict,
            r is Some ==> r.unwrap().index() == self.item(i as int).unwrap() && r.unwrap().toks() == self.toks()
                && r.unwrap().buf_view() == self.buf_view(),
    {
        proof {
            use_type_invariant(self);
        }
        match self.find_idx(i) {
            Some(c) => if self.tokens[c].kind == TokenKind::Dict {
                Some(Dict { buf: self.buf, tokens: self.tokens, idx: c })
            } else {
                None
            },
            None => None,
        }
    }

    /// The `i`-th item, if it is a list.
    pub fn get_list(&self, i: usize) -> (r: Option<List<'a>>)
        ensures
            r is Some <==> self.item(i as int) is Some && self.toks()[self.item(i as int).unwrap()].kind == TokenKind::List,
            r is Some ==> r.unwrap().index() == self.item(i as int).unwrap() && r.unwrap().toks() == self.toks()
                && r.unwrap().buf_view() == self.buf_view(),
    {
        proof {
            use_type_invariant(self);
        }
        match self.find_idx(i) {
            Some(c) => if self.tokens[c].kind == TokenKind::List {
                Some(List { buf: self.buf, tokens: self.tokens, idx: c })
            } else {
                None
            },
            None => None,
        }
    }

    /// The `i`-th item, if it is a byte string.
    pub fn get_bytes(&self, i: usize) -> (r: Option<&'a [u8]>)
        ensures
            r is Some <==> self.item(i as int) is Some && self.toks()[self.item(i as int).unwrap()].kind
                == TokenKind::ByteStr,
            r is Some ==> r.unwrap()@ == span(self.buf_view(), self.toks()[self.item(i as int).unwrap()]),
    {
        match self.get(i) {
            Some(n) => n.as_bytes(),
            None => None,
        }
    }

    /// The `i`-th item, if it is a byte string of valid UTF-8.
    pub fn get_str(&self, i: usize) -> (r: Option<&'a str>)
        ensures
            r is Some <==> self.item(i as int) is Some && self.toks()[self.item(i as int).unwrap()].kind
                == TokenKind::ByteStr && valid_utf8(span(self.buf_view(), self.toks()[self.item(i as int).unwrap()])),
            r is Some ==> r.unwrap().spec_bytes() == span(self.buf_view(), self.toks()[self.item(i as int).unwrap()]),
    {
        match self.get(i) {
            Some(n) => n.as_str(),
            None => None,
        }
    }

    /// The `i`-th item, if it is a readable ASCII byte string.
    pub fn get_ascii_str(&self, i: usize) -> (r: Option<&'a str>)
        ensures
            r is Some <==> self.item(i as int) is Some && self.toks()[self.item(i as int).unwrap()].kind
                == TokenKind::ByteStr && valid_utf8(span(self.buf_view(), self.toks()[self.item(i as int).unwrap()]))
                && all_readable(span(self.buf_view(), self.toks()[self.item(i as int).unwrap()])),
            r is Some ==> r.unwrap().spec_bytes() == span(self.buf_view(), self.toks()[self.item(i as int).unwrap()]),
    {
        match self.get(i) {
            Some(n) => n.as_ascii_str(),
            None => None,
        }
    }

    /// The `i`-th item, if it is an integer.
    pub fn get_int(&self, i: usize) -> (r: Option<i64>)
        ensures
            r is Some <==> self.item(i as int) is Some && self.toks()[self.item(i as int).unwrap()].kind == TokenKind::Int,
            r is Some ==> r.unwrap() == int_text_value(span(self.buf_view(), self.toks()[self.item(i as int).unwrap()])),
    {
        match self.get(i) {
            Some(n) => n.as_int(),
            None => None,
        }
    }

    /// The number of items.
    pub fn len(&self) -> (r: usize)
        ensures
            r == self.token().children,
    {
        proof {
            use_type_invariant(self);
        }
        self.tokens[self.idx].children
    }

    /// Returns true if the list has no items.
    pub fn is_empty(&self) -> (r: bool)
        ensures
            r == (self.token().children == 0),
    {
        self.len() == 0
    }
}

/// An iterator over the items of a list; it holds no state but its place.
pub struct ListIter<'a> {
    buf: &'a [u8],
    tokens: &'a [Token],
    parent: usize,
    total: usize,
    token_idx: usize,
    pos: usize,
}

impl<'a> ListIter<'a> {
    #[verifier::type_invariant]
    spec fn inv(&self) -> bool {
        &&& cursor_ok(self.buf@, self.tokens@, self.parent as int)
        &&& self.total == self.tokens@[self.parent as int].children
        &&& self.token_idx == hop(self.tokens@, self.parent + 1, self.pos as nat)
        &&& self.token_idx <= self.tokens@.len()
    }

    pub closed spec fn buf_view(&self) -> Seq<u8> {
        self.buf@
    }

    pub closed spec fn toks(&self) -> Seq<Token> {
        self.tokens@
    }

    /// The index of the list being walked.
    pub closed spec fn parent(&self) -> int {
        self.parent as int
    }

    /// How many items have been handed out.
    pub closed spec fn position(&self) -> int {
        self.pos as int
    }

    /// The next item of the list, or `None` once all have been seen.
    pub fn next(&mut self) -> (r: Option<Node<'a>>)
        ensures
            final(self).buf_view() == old(self).buf_view(),
            final(self).toks() == old(self).toks(),
            final(self).parent() == old(self).parent(),
            r is Some <==> child_at(old(self).toks(), old(self).parent(), old(self).position()) is Some,
            r is Some <==> old(self).position() < old(self).toks()[old(self).parent()].children,
            r is Some ==> r.unwrap().index() == child_at(old(self).toks(), old(self).parent(), old(self).position()).unwrap()
                && r.unwrap().toks() == old(self).toks() && r.unwrap().buf_view() == old(self).buf_view()
                && final(self).position() == old(self).position() + 1,
            r is None ==> final(self).position() == old(self).position(),
    {
        proof {
            use_type_invariant(&*self);
            lemma_next_in_range(self.buf@, self.tokens@);
        }
        if self.pos < self.total {
            proof {
                lemma_child_in_range(self.buf@, self.tokens@, self.parent as int, self.pos as int);
            }
        }
        if self.pos >= self.total || self.token_idx >= self.tokens.len() {
            return None;
        }
        let idx = self.token_idx;
        *self = ListIter {
            buf: self.buf,
            tokens: self.tokens,
            parent: self.parent,
            total: self.total,
            token_idx: idx + self.tokens[idx].next,
            pos: self.pos + 1,
        };
        Some(Node::borrowed(self.buf, self.tokens, idx))
    }
}

/// A read-only cursor on a dictionary. Lookup by key is a linear scan over
/// the entries in buffer order: entries are neither sorted nor indexed.
pub struct Dict<'a> {
    buf: &'a [u8],
    tokens: &'a [Token],
    idx: usize,
}

/// The value of the first entry, from entry position `p` on, whose key's
/// bytes are `key`.
pub open spec fn dict_find(buf: Seq<u8>, toks: Seq<Token>, d: int, key: Seq<u8>, p: int) -> Option<int>
    decreases toks[d].children - p,
{
    if p < 0 || p >= toks[d].children {
        None
    } else {
        match (child_at(toks, d, p), child_at(toks, d, p + 1)) {
            (Some(k), Some(v)) => if span(buf, toks[k]) == key {
                Some(v)
            } else {
                dict_find(buf, toks, d, key, p + 2)
            },
            _ => None,
        }
    }
}

impl<'a> Dict<'a> {
    #[verifier::type_invariant]
    spec fn inv(&self) -> bool {
        cursor_ok(self.buf@, self.tokens@, self.idx as int) && self.tokens@[self.idx as int].kind == TokenKind::Dict
    }

    pub closed spec fn buf_view(&self) -> Seq<u8> {
        self.buf@
    }

    pub closed spec fn toks(&self) -> Seq<Token> {
        self.tokens@
    }

    pub closed spec fn index(&self) -> int {
        self.idx as int
    }

    /// The dictionary's own token.
    pub open spec fn token(&self) -> Token {
        self.toks()[self.index()]
    }

    /// The index of the value stored under `key`.
    pub open spec fn lookup(&self, key: Seq<u8>) -> Option<int> {
        dict_find(self.buf_view(), self.toks(), self.index(), key, 0)
    }

    /// The dictionary's whole span, `d` and `e` included.
    pub fn data(&self) -> (r: &'a [u8])
        ensures
            r@ == span(self.buf_view(), self.token()),
    {
        proof {
            use_type_invariant(self);
            assert(token_ok(self.buf@, self.tokens@, self.idx as int));
        }
        let t = self.tokens[self.idx];
        &self.buf[t.start..t.end]
    }

    /// A fresh iterator over the `(key, value)` entries.
    pub fn iter(&self) -> (r: DictIter<'a>)
        ensures
            r.buf_view() == self.buf_view(),
            r.toks() == self.toks(),
            r.parent() == self.index(),
            r.position() == 0,
    {
        proof {
            use_type_invariant(self);
        }
        DictIter {
            buf: self.buf,
            tokens: self.tokens,
            parent: self.idx,
            total: self.tokens[self.idx].children,
            token_idx: self.idx + 1,
            pos: 0,
        }
    }

    /// The value of the first entry whose key is `key`.
    pub fn get(&self, key: &[u8]) -> (r: Option<Node<'a>>)
        ensures
            r is Some <==> self.lookup(key@) is Some,
            r is Some ==> r.unwrap().index() == self.lookup(key@).unwrap() && r.unwrap().toks() == self.toks()
                && r.unwrap().buf_view() == self.buf_view(),
    {
        let mut it = self.iter();
        loop
            invariant
                it.buf_view() == self.buf_view(),
                it.toks() == self.toks(),
                it.parent() == self.index(),
                0 <= it.position(),
                self.lookup(key@) == dict_find(self.buf_view(), self.toks(), self.index(), key@, it.position()),
            decreases self.token().children - it.position(),
        {
            match it.next() {
                None => return None,
                Some((k, v)) => {
                    if bytes_eq(k.as_raw_bytes(), key) {
                        return Some(v);
                    }
                },
            }
        }
    }

    /// The value under `key`, if it is a dictionary.
    pub fn get_dict(&self, key: &[u8]) -> (r: Option<Dict<'a>>)
        ensures
            r is Some <==> self.lookup(key@) is Some && self.toks()[self.lookup(key@).unwrap()].kind == TokenKind::Dict,
            r is Some ==> r.unwrap().index() == self.lookup(key@).unwrap() && r.unwrap().toks() == self.toks()
                && r.unwrap().buf_view() == self.buf_view(),
    {
        match self.get(key) {
            Some(n) => {
                proof {
                    use_type_invariant(&n);
                }
                if n.is_dict() {
                    Some(Dict { buf: self.buf, tokens: self.tokens, idx: n.idx })
                } else {
                    None
                }
            },
            None => None,
        }
    }

    /// The value under `key`, if it is a list.
    pub fn get_list(&self, key: &[u8]) -> (r: Option<List<'a>>)
        ensures
            r is Some <==> self.lookup(key@) is Some && self.toks()[self.lookup(key@).unwrap()].kind == TokenKind::List,
            r is Some ==> r.unwrap().index() == self.lookup(key@).unwrap() && r.unwrap().toks() == self.toks()
                && r.unwrap().buf_view() == self.buf_view(),
    {
        match self.get(key) {
            Some(n) => {
                proof {
                    use_type_invariant(&n);
                }
                if n.is_list() {
                    Some(List { buf: self.buf, tokens: self.tokens, idx: n.idx })
                } else {
                    None
                }
            },
            None => None,
        }
    }

    /// The value under `key`, if it is a byte string.
    pub fn get_bytes(&self, key: &[u8]) -> (r: Option<&'a [u8]>)
        ensures
            r is Some <==> self.lookup(key@) is Some && self.toks()[self.lookup(key@).unwrap()].kind == TokenKind::ByteStr,
            r is Some ==> r.unwrap()@ == span(self.buf_view(), self.toks()[self.lookup(key@).unwrap()]),
    {
        match self.get(key) {
            Some(n) => n.as_bytes(),
            None => None,
        }
    }

    /// The value under `key`, if it is a byte string of valid UTF-8.
    pub fn get_str(&self, key: &[u8]) -> (r: Option<&'a str>)
        ensures
            r is Some <==> self.lookup(key@) is Some && self.toks()[self.lookup(key@).unwrap()].kind == TokenKind::ByteStr
                && valid_utf8(span(self.buf_view(), self.toks()[self.lookup(key@).unwrap()])),
            r is Some ==> r.unwrap().spec_bytes() == span(self.buf_view(), self.toks()[self.lookup(key@).unwrap()]),
    {
        match self.get(key) {
            Some(n) => n.as_str(),
            None => None,
        }
    }

    /// The value under `key`, if it is a readable ASCII byte string.
    pub fn get_ascii_str(&self, key: &[u8]) -> (r: Option<&'a str>)
        ensures
            r is Some <==> self.lookup(key@) is Some && self.toks()[self.lookup(key@).unwrap()].kind == TokenKind::ByteStr
                && valid_utf8(span(self.buf_view(), self.toks()[self.lookup(key@).unwrap()])) && all_readable(
                span(self.buf_view(), self.toks()[self.lookup(key@).unwrap()]),
            ),
            r is Some ==> r.unwrap().spec_bytes() == span(self.buf_view(), self.toks()[self.lookup(key@).unwrap()]),
    {
        match self.get(key) {
            Some(n) => n.as_ascii_str(),
            None => None,
        }
    }

    /// The value under `key`, if it is an integer.
    pub fn get_int(&self, key: &[u8]) -> (r: Option<i64>)
        ensures
            r is Some <==> self.lookup(key@) is Some && self.toks()[self.lookup(key@).unwrap()].kind == TokenKind::Int,
            r is Some ==> r.unwrap() == int_text_value(span(self.buf_view(), self.toks()[self.lookup(key@).unwrap()])),
    {
        match self.get(key) {
            Some(n) => n.as_int(),
            None => None,
        }
    }

    /// The number of entries.
    pub fn len(&self) -> (r: usize)
        ensures
            r == self.token().children / 2,
    {
        proof {
            use_type_invariant(self);
        }
        self.tokens[self.idx].children / 2
    }

    /// Returns true if the dictionary has no entries.
    pub fn is_empty(&self) -> (r: bool)
        ensures
            r == (self.token().children / 2 == 0),
    {
        self.len() == 0
    }
}

/// An iterator over the `(key, value)` entries of a dictionary.
pub struct DictIter<'a> {
    buf: &'a [u8],
    tokens: &'a [Token],
    parent: usize,
    total: usize,
    token_idx: usize,
    pos: usize,
}

impl<'a> DictIter<'a> {
    #[verifier::type_invariant]
    spec fn inv(&self) -> bool {
        &&& cursor_ok(self.buf@, self.tokens@, self.parent as int)
        &&& self.total == self.tokens@[self.parent as int].children
        &&& self.token_idx == hop(self.tokens@, self.parent + 1, self.pos as nat)
        &&& self.token_idx <= self.tokens@.len()
        &&& self.tokens@[self.parent as int].kind == TokenKind::Dict
        &&& self.pos % 2 == 0
    }

    pub closed spec fn buf_view(&self) -> Seq<u8> {
        self.buf@
    }

    pub closed spec fn toks(&self) -> Seq<Token> {
        self.tokens@
    }

    /// The index of the dictionary being walked.
    pub closed spec fn parent(&self) -> int {
        self.parent as int
    }

    /// How many children (keys and values) have been handed out.
    pub closed spec fn position(&self) -> int {
        self.pos as int
    }

    /// The next `(key, value)` entry, or `None` once all have been seen.
    pub fn next(&mut self) -> (r: Option<(Node<'a>, Node<'a>)>)
        ensures
            final(self).buf_view() == old(self).buf_view(),
            final(self).toks() == old(self).toks(),
            final(self).parent() == old(self).parent(),
            ({
                let k = child_at(old(self).toks(), old(self).parent(), old(self).position());
                let v = child_at(old(self).toks(), old(self).parent(), old(self).position() + 1);
                &&& r is Some <==> k is Some && v is Some
                &&& r is Some <==> old(self).position() + 1 < old(self).toks()[old(self).parent()].children
                &&& r is Some ==> {
                    &&& r.unwrap().0.index() == k.unwrap()
                    &&& r.unwrap().1.index() == v.unwrap()
                    &&& r.unwrap().0.token().kind == TokenKind::ByteStr
                    &&& r.unwrap().0.toks() == old(self).toks() && r.unwrap().0.buf_view() == old(self).buf_view()
                    &&& r.unwrap().1.toks() == old(self).toks() && r.unwrap().1.buf_view() == old(self).buf_view()
                    &&& final(self).position() == old(self).position() + 2
                }
                &&& r is None ==> final(self).position() == old(self).position()
            }),
    {
        proof {
            use_type_invariant(&*self);
            lemma_next_in_range(self.buf@, self.tokens@);
        }
        if self.pos < self.total {
            proof {
                lemma_child_in_range(self.buf@, self.tokens@, self.parent as int, self.pos as int);
                assert(closed_ok(self.buf@, self.tokens@, self.parent as int));
                assert(keys_ok(self.tokens@, self.parent as int, self.total as int));
            }
        }
        if self.pos < self.total && self.total - self.pos > 1 {
            proof {
                lemma_child_in_range(self.buf@, self.tokens@, self.parent as int, self.pos + 1);
            }
        }
        if self.pos >= self.total || self.token_idx >= self.tokens.len() {
            return None;
        }
        let key_idx = self.token_idx;
        let val_idx = key_idx + self.tokens[key_idx].next;
        if self.pos + 1 >= self.total || val_idx >= self.tokens.len() {
            return None;
        }
        *self = DictIter {
            buf: self.buf,
            tokens: self.tokens,
            parent: self.parent,
            total: self.total,
            token_idx: val_idx + self.tokens[val_idx].next,
            pos: self.pos + 2,
        };
        Some((Node::borrowed(self.buf, self.tokens, key_idx), Node::borrowed(self.buf, self.tokens, val_idx)))
    }
}

/// The text of a byte dump, `[1, 2, 3]`, from byte `i` on.
pub open spec fn byte_list_from(s: Seq<u8>, i: int) -> Seq<u8>
    decreases s.len() - i,
{
    if i < 0 || i >= s.len() {
        Seq::empty()
    } else {
        (if i > 0 {
            seq![44u8, 32u8]
        } else {
            Seq::empty()
        }) + nat_digits(s[i] as nat) + byte_list_from(s, i + 1)
    }
}

/// The separator written before the `i`-th item of a rendered container.
pub open spec fn separator(i: int) -> Seq<u8> {
    if i > 0 {
        seq![44u8, 32u8]
    } else {
        Seq::empty()
    }
}

/// Human-readable text of token `idx`: an integer as its digits, a byte
/// string as a quoted string when it is readable ASCII and as a byte dump
/// otherwise, a list as `[a, b]` and a dictionary as `{k: v}`.
pub open spec fn render(buf: Seq<u8>, toks: Seq<Token>, idx: int) -> Seq<u8>
    decreases toks.len() - idx, 1nat,
{
    if idx < 0 || idx >= toks.len() {
        Seq::empty()
    } else {
        let t = toks[idx];
        let s = span(buf, t);
        if t.kind == TokenKind::Int {
            int_digits(int_text_value(s))
        } else if t.kind == TokenKind::ByteStr {
            if valid_utf8(s) && all_readable(s) {
                seq![34u8] + s + seq![34u8]
            } else {
                seq![96u8, 66u8, 121u8, 116u8, 101u8, 115u8, 58u8, 91u8] + byte_list_from(s, 0) + seq![93u8, 96u8]
            }
        } else if t.kind == TokenKind::List {
            seq![91u8] + render_items(buf, toks, idx, 0) + seq![93u8]
        } else {
            seq![123u8] + render_items(buf, toks, idx, 0) + seq![125u8]
        }
    }
}

/// The rendered children of container `p` from the `i`-th on: items
/// separated by `, ` in a list, `key: value` entries in a dictionary.
pub open spec fn render_items(buf: Seq<u8>, toks: Seq<Token>, p: int, i: int) -> Seq<u8>
    decreases toks.len() - p, 0nat, toks[p].children - i,
{
    if 0 <= p < toks.len() && 0 <= i < toks[p].children {
        match child_at(toks, p, i) {
            Some(c) => if c > p {
                let mark = if toks[p].kind == TokenKind::Dict && i % 2 == 1 {
                    seq![58u8, 32u8]
                } else {
                    separator(i)
                };
                mark + render(buf, toks, c) + render_items(buf, toks, p, i + 1)
            } else {
                Seq::empty()
            },
            None => Seq::empty(),
        }
    } else {
        Seq::empty()
    }
}

proof fn lemma_hop_grows(toks: Seq<Token>, j: int, k: nat)
    requires
        0 <= j,
        forall|x: int| 0 <= x < toks.len() ==> (#[trigger] toks[x]).next >= 1,
    ensures
        hop(toks, j, k) >= j,
    decreases k,
{
    if k > 0 {
        lemma_hop_grows(toks, j, (k - 1) as nat);
    }
}

fn push_all(out: &mut Vec<u8>, bytes: &[u8])
    ensures
        final(out)@ == old(out)@ + bytes@,
{
    out.extend_from_slice(bytes);
}

/// Appends the rendered text of token `idx` to `out`.
fn render_node(buf: &[u8], toks: &[Token], idx: usize, out: &mut Vec<u8>)
    requires
        cursor_ok(buf@, toks@, idx as int),
    ensures
        final(out)@ == old(out)@ + render(buf@, toks@, idx as int),
    decreases toks@.len() - idx, 1nat,
{
    proof {
        lemma_next_in_range(buf@, toks@);
        assert(token_ok(buf@, toks@, idx as int));
    }
    let node = Node::borrowed(buf, toks, idx);
    let t = toks[idx];
    if t.kind == TokenKind::Int {
        match node.as_int() {
            Some(v) => put_decimal(out, v as i128),
            None => {},
        }
    } else if t.kind == TokenKind::ByteStr {
        let s = node.as_raw_bytes();
        match node.as_ascii_str() {
            Some(_) => {
                out.push(34u8);
                push_all(out, s);
                out.push(34u8);
            },
            None => {
                out.push(96u8);
                out.push(66u8);
                out.push(121u8);
                out.push(116u8);
                out.push(101u8);
                out.push(115u8);
                out.push(58u8);
                out.push(91u8);
                let mut i: usize = 0;
                while i < s.len()
                    invariant
                        i <= s@.len(),
                        old(out)@ + seq![96u8, 66u8, 121u8, 116u8, 101u8, 115u8, 58u8, 91u8] + byte_list_from(s@, 0)
                            == out@ + byte_list_from(s@, i as int),
                    decreases s@.len() - i,
                {
                    let ghost before = out@;
                    if i > 0 {
                        out.push(44u8);
                        out.push(32u8);
                    }
                    put_decimal(out, s[i] as i128);
                    proof {
                        assert(out@ + byte_list_from(s@, i + 1) =~= before + byte_list_from(s@, i as int));
                    }
                    i = i + 1;
                }
                out.push(93u8);
                out.push(96u8);
                assert(out@ =~= old(out)@ + render(buf@, toks@, idx as int));
            },
        }
    } else {
        let (open, close) = if t.kind == TokenKind::List {
            (91u8, 93u8)
        } else {
            (123u8, 125u8)
        };
        out.push(open);
        let mut i: usize = 0;
        let mut c: usize = idx + 1;
        while i < t.children && c < toks.len()
            invariant
                cursor_ok(buf@, toks@, idx as int),
                t == toks@[idx as int],
                i <= t.children,
                c == hop(toks@, idx + 1, i as nat),
                c <= toks@.len(),
                forall|x: int| 0 <= x < toks@.len() ==> x + (#[trigger] toks@[x]).next <= toks@.len(),
                forall|x: int| 0 <= x < toks@.len() ==> (#[trigger] toks@[x]).next >= 1,
                old(out)@.push(open) + render_items(buf@, toks@, idx as int, 0) == out@ + render_items(
                    buf@,
                    toks@,
                    idx as int,
                    i as int,
                ),
            decreases t.children - i,
        {
            proof {
                lemma_hop_grows(toks@, idx + 1, i as nat);
            }
            let ghost before = out@;
            if t.kind == TokenKind::Dict && i % 2 == 1 {
                out.push(58u8);
                out.push(32u8);
            } else if i > 0 {
                out.push(44u8);
                out.push(32u8);
            }
            render_node(buf, toks, c, out);
            proof {
                assert(out@ + render_items(buf@, toks@, idx as int, i + 1) =~= before + render_items(
                    buf@,
                    toks@,
                    idx as int,
                    i as int,
                ));
            }
            c = c + toks[c].next;
            i = i + 1;
        }
        out.push(close);
        assert(out@ =~= old(out)@ + render(buf@, toks@, idx as int));
    }
}

/// Relies on `String::from_utf8`: it accepts exactly the valid UTF-8
/// sequences and keeps their characters.
#[verifier::external_body]
fn utf8_string(v: Vec<u8>) -> (r: Option<String>)
    ensures
        r is Some <==> valid_utf8(v@),
        r is Some ==> vstd::utf8::encode_utf8(r.unwrap()@) == v@,
{
    String::from_utf8(v).ok()
}

impl<'a> Node<'a> {
    /// A human-readable rendering of this node and everything below it.
    pub fn debug_string(&self) -> (r: String)
        ensures
            vstd::utf8::encode_utf8(r@) == render(self.buf_view(), self.toks(), self.index()),
    {
        proof {
            use_type_invariant(self);
        }
        let mut out: Vec<u8> = Vec::new();
        render_node(self.buf, self.tokens.as_slice(), self.idx, &mut out);
        assert(out@ =~= render(self.buf_view(), self.toks(), self.index()));
        proof {
            lemma_render_ascii(self.buf@, self.tokens.view(), self.idx as int);
            lemma_ascii_valid(out@);
        }
        match utf8_string(out) {
            Some(s) => s,
            None => String::new(),
        }
    }
}

/// Bytes below 128 are valid UTF-8 on their own.
proof fn lemma_ascii_valid(s: Seq<u8>)
    requires
        forall|i: int| 0 <= i < s.len() ==> #[trigger] s[i] < 128,
    ensures
        valid_utf8(s),
    decreases s.len(),
{
    if s.len() > 0 {
        let b = s[0];
        assert(b & 0x80 == 0) by (bit_vector)
            requires
                b < 128,
        ;
        assert(vstd::utf8::valid_first_scalar(s));
        assert(vstd::utf8::pop_first_scalar(s) =~= s.drop_first());
        lemma_ascii_valid(s.drop_first());
    }
}

pub open spec fn all_ascii(s: Seq<u8>) -> bool {
    forall|i: int| 0 <= i < s.len() ==> #[trigger] s[i] < 128
}

proof fn lemma_ascii_concat(a: Seq<u8>, b: Seq<u8>)
    requires
        all_ascii(a),
        all_ascii(b),
    ensures
        all_ascii(a + b),
{
    assert forall|i: int| 0 <= i < (a + b).len() implies #[trigger] (a + b)[i] < 128 by {
        if i < a.len() {
            assert((a + b)[i] == a[i]);
        } else {
            assert((a + b)[i] == b[i - a.len()]);
        }
    }
}

proof fn lemma_digits_ascii(n: nat)
    ensures
        all_ascii(nat_digits(n)),
{
    lemma_nat_digits(n);
    assert forall|i: int| 0 <= i < nat_digits(n).len() implies #[trigger] nat_digits(n)[i] < 128 by {
        assert(is_digit(nat_digits(n)[i]));
    }
}

proof fn lemma_byte_list_ascii(s: Seq<u8>, i: int)
    ensures
        all_ascii(byte_list_from(s, i)),
    decreases s.len() - i,
{
    if 0 <= i < s.len() {
        lemma_byte_list_ascii(s, i + 1);
        lemma_digits_ascii(s[i] as nat);
        let sep: Seq<u8> = if i > 0 {
            seq![44u8, 32u8]
        } else {
            Seq::empty()
        };
        lemma_ascii_concat(sep, nat_digits(s[i] as nat));
        lemma_ascii_concat(sep + nat_digits(s[i] as nat), byte_list_from(s, i + 1));
    }
}

proof fn lemma_render_ascii(buf: Seq<u8>, toks: Seq<Token>, idx: int)
    ensures
        all_ascii(render(buf, toks, idx)),
    decreases toks.len() - idx, 1nat,
{
    if 0 <= idx < toks.len() {
        let t = toks[idx];
        let s = span(buf, t);
        if t.kind == TokenKind::Int {
            let v = int_text_value(s);
            if v < 0 {
                lemma_digits_ascii((-v) as nat);
                lemma_ascii_concat(seq![45u8], nat_digits((-v) as nat));
            } else {
                lemma_digits_ascii(v as nat);
            }
        } else if t.kind == TokenKind::ByteStr {
            if valid_utf8(s) && all_readable(s) {
                lemma_ascii_concat(seq![34u8], s);
                lemma_ascii_concat(seq![34u8] + s, seq![34u8]);
            } else {
                lemma_byte_list_ascii(s, 0);
                let head = seq![96u8, 66u8, 121u8, 116u8, 101u8, 115u8, 58u8, 91u8];
                lemma_ascii_concat(head, byte_list_from(s, 0));
                lemma_ascii_concat(head + byte_list_from(s, 0), seq![93u8, 96u8]);
            }
        } else {
            lemma_items_ascii(buf, toks, idx, 0);
            let (o, c) = if t.kind == TokenKind::List {
                (91u8, 93u8)
            } else {
                (123u8, 125u8)
            };
            lemma_ascii_concat(seq![o], render_items(buf, toks, idx, 0));
            lemma_ascii_concat(seq![o] + render_items(buf, toks, idx, 0), seq![c]);
        }
    }
}

proof fn lemma_items_ascii(buf: Seq<u8>, toks: Seq<Token>, p: int, i: int)
    ensures
        all_ascii(render_items(buf, toks, p, i)),
    decreases toks.len() - p, 0nat, toks[p].children - i,
{
    if 0 <= p < toks.len() && 0 <= i < toks[p].children {
        match child_at(toks, p, i) {
            Some(c) => if c > p {
                lemma_render_ascii(buf, toks, c);
                lemma_items_ascii(buf, toks, p, i + 1);
                let mark: Seq<u8> = if toks[p].kind == TokenKind::Dict && i % 2 == 1 {
                    seq![58u8, 32u8]
                } else {
                    separator(i)
                };
                lemma_ascii_concat(mark, render(buf, toks, c));
                lemma_ascii_concat(mark + render(buf, toks, c), render_items(buf, toks, p, i + 1));
            },
            None => {},
        }
    }
}

} // verus!
