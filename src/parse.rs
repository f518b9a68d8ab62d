//! Single-pass tokenizer: one value of a buffer becomes a preorder sequence
//! of tokens, without recursion and without a stack of open containers.

use vstd::prelude::*;

use crate::decode::Node;
use crate::error::Error;
use crate::shape::{closed_at, lemma_shape_close, lemma_shape_push, shape_at, shaped, subtrees_ok};
use crate::token::{Token, TokenKind, UNSET};

verus! {

const INT_OPEN: u8 = 105;
const LIST_OPEN: u8 = 108;
const DICT_OPEN: u8 = 100;
const CLOSE: u8 = 101;
const COLON: u8 = 58;

/// Reason given when a dictionary key is not a byte string.
pub const KEY_NOT_STRING: &'static str = "Dictionary key must be a string";

/// Reason given for an `e` that closes nothing.
pub const UNCLOSED: &'static str = "Unclosed object";

/// Reason given when bytes follow the root value.
pub const EXTRA_BYTES: &'static str = "Extra bytes at the end";

pub open spec fn is_digit(b: u8) -> bool {
    48 <= b && b <= 57
}

/// The end of the run of decimal digits that starts at `i`.
pub open spec fn digit_run_end(buf: Seq<u8>, i: int) -> int
    decreases buf.len() - i,
{
    if 0 <= i < buf.len() && is_digit(buf[i]) {
        digit_run_end(buf, i + 1)
    } else {
        i
    }
}

/// The value of a sequence of decimal digits.
pub open spec fn digits_value(s: Seq<u8>) -> nat
    decreases s.len(),
{
    if s.len() == 0 {
        0
    } else {
        digits_value(s.drop_last()) * 10 + (s.last() - 48) as nat
    }
}

pub open spec fn all_digits(s: Seq<u8>) -> bool {
    forall|i: int| 0 <= i < s.len() ==> is_digit(#[trigger] s[i])
}

pub open spec fn has_sign(s: Seq<u8>) -> bool {
    s.len() > 0 && s[0] == 45u8
}

/// The digits of an integer's text, without its sign.
pub open spec fn unsigned_part(s: Seq<u8>) -> Seq<u8> {
    if has_sign(s) {
        s.drop_first()
    } else {
        s
    }
}

/// The largest magnitude a literal may have: `i64::MIN`'s for a negative
/// one, `i64::MAX` otherwise.
pub open spec fn magnitude_bound(neg: bool) -> int {
    if neg {
        i64::MAX + 1
    } else {
        i64::MAX as int
    }
}

/// The text of an integer token: an optional `-` and decimal digits whose
/// signed value fits in `i64`.
pub open spec fn int_text_ok(s: Seq<u8>) -> bool {
    all_digits(unsigned_part(s)) && digits_value(unsigned_part(s)) <= magnitude_bound(has_sign(s))
}

/// The value that the text of an integer token stands for.
pub open spec fn int_text_value(s: Seq<u8>) -> int {
    if has_sign(s) {
        -digits_value(s.drop_first())
    } else {
        digits_value(s) as int
    }
}

/// Reads a signed decimal literal at `start` that must end with `stop`:
/// the value and the offset of `stop`, or the error the literal raises.
pub open spec fn scan_int(buf: Seq<u8>, start: int, stop: u8) -> Result<(int, int), Error> {
    if start >= buf.len() {
        Err(Error::Eof)
    } else {
        let neg = buf[start] == 45u8;
        let ds = if neg { start + 1 } else { start };
        let k = digit_run_end(buf, ds);
        let v = digits_value(buf.subrange(ds, k));
        if v > magnitude_bound(neg) {
            Err(Error::Overflow { pos: start as usize })
        } else if k >= buf.len() {
            Err(Error::Eof)
        } else if buf[k] != stop || (neg && k == ds) {
            Err(Error::Unexpected { pos: k as usize })
        } else {
            Ok((if neg { -v } else { v as int }, k))
        }
    }
}

/// Reads a byte string `<len>:<payload>` at `start`: the payload's bounds.
pub open spec fn scan_str(buf: Seq<u8>, start: int) -> Result<(int, int), Error> {
    match scan_int(buf, start, 58u8) {
        Err(e) => Err(e),
        Ok((n, k)) => if k + 1 + n > buf.len() {
            Err(Error::Eof)
        } else {
            Ok((k + 1, k + 1 + n))
        },
    }
}

pub proof fn lemma_digits_value_push(s: Seq<u8>, b: u8)
    ensures
        digits_value(s.push(b)) == digits_value(s) * 10 + (b - 48) as nat,
{
    assert(s.push(b).drop_last() =~= s);
}

/// A longer run of digits is worth at least as much as its prefix.
pub proof fn lemma_digits_value_mono(s: Seq<u8>, j: int)
    requires
        0 <= j <= s.len(),
        all_digits(s),
    ensures
        digits_value(s.subrange(0, j)) <= digits_value(s),
    decreases s.len() - j,
{
    if j < s.len() {
        lemma_digits_value_mono(s, j + 1);
        assert(s.subrange(0, j + 1) =~= s.subrange(0, j).push(s[j]));
        lemma_digits_value_push(s.subrange(0, j), s[j]);
    } else {
        assert(s.subrange(0, j) =~= s);
    }
}

proof fn lemma_digit_run(buf: Seq<u8>, i: int)
    requires
        0 <= i <= buf.len(),
    ensures
        i <= digit_run_end(buf, i) <= buf.len(),
        forall|j: int| i <= j < digit_run_end(buf, i) ==> is_digit(#[trigger] buf[j]),
        digit_run_end(buf, i) < buf.len() ==> !is_digit(buf[digit_run_end(buf, i)]),
    decreases buf.len() - i,
{
    if i < buf.len() && is_digit(buf[i]) {
        lemma_digit_run(buf, i + 1);
    }
}

/// The signed value of a literal's sign and magnitude.
pub(crate) fn signed(neg: bool, mag: u64) -> (r: i64)
    requires
        mag <= magnitude_bound(neg),
    ensures
        r as int == (if neg { -mag } else { mag as int }),
{
    if !neg {
        mag as i64
    } else if mag == 9223372036854775808u64 {
        i64::MIN
    } else {
        -(mag as i64)
    }
}

/// Parses a signed decimal literal at `start` that ends with `stop`.
pub fn parse_int(buf: &[u8], start: usize, stop: u8) -> (r: Result<(i64, usize), Error>)
    requires
        stop == 101u8 || stop == 58u8,
    ensures
        match r {
            Ok((v, k)) => {
                &&& scan_int(buf@, start as int, stop) == Ok::<(int, int), Error>((v as int, k as int))
                &&& start <= k < buf@.len()
                &&& int_text_ok(buf@.subrange(start as int, k as int))
                &&& int_text_value(buf@.subrange(start as int, k as int)) == v
            },
            Err(e) => scan_int(buf@, start as int, stop) == Err::<(int, int), Error>(e),
        },
{
    if start >= buf.len() {
        return Err(Error::Eof);
    }
    let neg = buf[start] == 45u8;
    let ds: usize = if neg { start + 1 } else { start };
    proof {
        lemma_digit_run(buf@, ds as int);
    }
    let ghost k = digit_run_end(buf@, ds as int);
    let bound: u64 = if neg { 9223372036854775808u64 } else { 9223372036854775807u64 };
    let mut pos: usize = ds;
    let mut val: u64 = 0;
    while pos < buf.len() && 48u8 <= buf[pos] && buf[pos] <= 57u8
        invariant
            start < buf@.len(),
            neg == (buf@[start as int] == 45u8),
            ds == (if neg { start + 1 } else { start as int }),
            ds <= pos <= k <= buf@.len(),
            k == digit_run_end(buf@, ds as int),
            forall|j: int| ds <= j < k ==> is_digit(#[trigger] buf@[j]),
            k < buf@.len() ==> !is_digit(buf@[k]),
            val as int == digits_value(buf@.subrange(ds as int, pos as int)),
            bound as int == magnitude_bound(neg),
            val <= bound,
        decreases buf@.len() - pos,
    {
        let d = (buf[pos] - 48u8) as u64;
        proof {
            assert(buf@.subrange(ds as int, pos + 1) =~= buf@.subrange(ds as int, pos as int).push(buf@[pos as int]));
            lemma_digits_value_push(buf@.subrange(ds as int, pos as int), buf@[pos as int]);
            let run = buf@.subrange(ds as int, k);
            assert(all_digits(run));
            assert(run.subrange(0, pos + 1 - ds) =~= buf@.subrange(ds as int, pos + 1));
            lemma_digits_value_mono(run, pos + 1 - ds);
            assert(pos < k);
        }
        if val > bound / 10 {
            proof {
                assert(val * 10 + d > bound) by (nonlinear_arith)
                    requires val > bound / 10, d >= 0;
                assert(digits_value(buf@.subrange(ds as int, k)) > magnitude_bound(neg));
            }
            return Err(Error::Overflow { pos: start });
        }
        if val * 10 > bound - d {
            assert(digits_value(buf@.subrange(ds as int, k)) > magnitude_bound(neg));
            return Err(Error::Overflow { pos: start });
        }
        val = val * 10 + d;
        pos = pos + 1;
    }
    if pos >= buf.len() {
        return Err(Error::Eof);
    }
    if buf[pos] != stop || (neg && pos == ds) {
        return Err(Error::Unexpected { pos });
    }
    proof {
        let s = buf@.subrange(start as int, pos as int);
        if neg {
            assert(s.drop_first() =~= buf@.subrange(ds as int, pos as int));
        } else {
            assert(s =~= buf@.subrange(ds as int, pos as int));
        }
    }
    Ok((signed(neg, val), pos))
}

/// The innermost container still open among the first `i` tokens, or -1.
pub open spec fn last_open(toks: Seq<Token>, i: int) -> int
    decreases i,
{
    if i <= 0 {
        -1
    } else if toks[i - 1].next == 0 {
        i - 1
    } else {
        last_open(toks, i - 1)
    }
}

/// The innermost open container of a token sequence, or -1.
pub open spec fn open_of(toks: Seq<Token>) -> int {
    last_open(toks, toks.len() as int)
}

/// The tokens with one more child counted in the innermost open container.
pub open spec fn counted(toks: Seq<Token>) -> Seq<Token> {
    let o = open_of(toks);
    if o < 0 {
        toks
    } else {
        toks.update(o, Token { children: (toks[o].children + 1) as usize, ..toks[o] })
    }
}

/// Counts a new child of `kind` in the innermost open container; a
/// dictionary takes only byte strings at its key positions, so a child that
/// lands at an odd position (counting from one) must be one.
pub open spec fn register(toks: Seq<Token>, kind: TokenKind, pos: int) -> Result<Seq<Token>, Error> {
    let o = open_of(toks);
    let c = counted(toks);
    if o >= 0 && c[o].kind == TokenKind::Dict && kind != TokenKind::ByteStr && c[o].children % 2 == 1 {
        Err(Error::Invalid { reason: KEY_NOT_STRING, pos: pos as usize })
    } else {
        Ok(c)
    }
}

/// One event of the tokenizer at `pos`: a whole integer, a whole byte
/// string, the opening byte of a container, or a closing `e`.
pub open spec fn step(buf: Seq<u8>, limit: int, pos: int, toks: Seq<Token>) -> Result<(int, Seq<Token>), Error> {
    let c = buf[pos];
    let n = toks.len();
    if c == 105u8 {
        match register(toks, TokenKind::Int, pos) {
            Err(e) => Err(e),
            Ok(t1) => match scan_int(buf, pos + 1, 101u8) {
                Err(e) => Err(e),
                Ok((_, k)) => if n >= limit {
                    Err(Error::NoMemory)
                } else {
                    Ok((k + 1, t1.push(Token { kind: TokenKind::Int, start: (pos + 1) as usize, end: k as usize, children: 0, next: 1 })))
                },
            },
        }
    } else if is_digit(c) {
        match scan_str(buf, pos) {
            Err(e) => Err(e),
            Ok((s, e)) => if n >= limit {
                Err(Error::NoMemory)
            } else {
                match register(toks, TokenKind::ByteStr, e) {
                    Err(x) => Err(x),
                    Ok(t1) => Ok((e, t1.push(Token { kind: TokenKind::ByteStr, start: s as usize, end: e as usize, children: 0, next: 1 }))),
                }
            },
        }
    } else if c == 108u8 || c == 100u8 {
        let kind = if c == 108u8 { TokenKind::List } else { TokenKind::Dict };
        if n >= limit {
            Err(Error::NoMemory)
        } else {
            match register(toks, kind, pos + 1) {
                Err(x) => Err(x),
                Ok(t1) => Ok((pos + 1, t1.push(Token { kind, start: pos as usize, end: UNSET, children: 0, next: 0 }))),
            }
        }
    } else if c == 101u8 {
        let o = open_of(toks);
        if o < 0 {
            Err(Error::Invalid { reason: UNCLOSED, pos: (pos + 1) as usize })
        } else {
            Ok((pos + 1, toks.update(o, Token { end: (pos + 1) as usize, next: (n - o) as usize, ..toks[o] })))
        }
    } else {
        Err(Error::Unexpected { pos: pos as usize })
    }
}

/// Runs events from `pos` until the buffer ends or the root value is complete.
pub open spec fn run(buf: Seq<u8>, limit: int, pos: int, toks: Seq<Token>) -> Result<(int, Seq<Token>), Error>
    decreases buf.len() - pos,
{
    if pos < 0 || pos >= buf.len() {
        Ok((pos, toks))
    } else {
        match step(buf, limit, pos, toks) {
            Err(e) => Err(e),
            Ok((p2, t2)) => if open_of(t2) < 0 || p2 <= pos {
                Ok((p2, t2))
            } else {
                run(buf, limit, p2, t2)
            },
        }
    }
}

/// No container is left open and no dictionary has a dangling key.
pub open spec fn finished(toks: Seq<Token>) -> bool {
    forall|j: int|
        0 <= j < toks.len() ==> (#[trigger] toks[j]).next != 0 && (toks[j].kind == TokenKind::Dict ==> toks[j].children % 2 == 0)
}

/// What tokenizing the first complete value of `buf` yields: its tokens and
/// the number of bytes it takes, or the error.
pub open spec fn parse_prefix_result(buf: Seq<u8>, limit: int) -> Result<(Seq<Token>, int), Error> {
    if buf.len() == 0 {
        Err(Error::Eof)
    } else {
        match run(buf, limit, 0, Seq::empty()) {
            Err(e) => Err(e),
            Ok((p, t)) => if finished(t) {
                Ok((t, p))
            } else {
                Err(Error::Eof)
            },
        }
    }
}

/// What tokenizing a buffer that must hold exactly one value yields.
pub open spec fn parse_result(buf: Seq<u8>, limit: int) -> Result<Seq<Token>, Error> {
    match parse_prefix_result(buf, limit) {
        Err(e) => Err(e),
        Ok((t, p)) => if p == buf.len() {
            Ok(t)
        } else {
            Err(Error::Invalid { reason: EXTRA_BYTES, pos: p as usize })
        },
    }
}

/// What a token needs so that the tree view can read it without failing.
pub open spec fn token_ok(buf: Seq<u8>, toks: Seq<Token>, j: int) -> bool {
    let t = toks[j];
    &&& t.children + j < toks.len()
    &&& t.next == 0 ==> t.is_container()
    &&& t.next != 0 ==> {
        &&& j + t.next <= toks.len()
        &&& t.start <= t.end <= buf.len()
        &&& t.kind == TokenKind::Int ==> int_text_ok(buf.subrange(t.start as int, t.end as int))
    }
}

pub open spec fn tokens_ok(buf: Seq<u8>, toks: Seq<Token>) -> bool {
    forall|j: int| 0 <= j < toks.len() ==> #[trigger] token_ok(buf, toks, j)
}

pub proof fn lemma_last_open(toks: Seq<Token>, i: int)
    requires
        0 <= i <= toks.len(),
    ensures
        -1 <= last_open(toks, i) < i,
        last_open(toks, i) >= 0 ==> toks[last_open(toks, i)].next == 0,
        forall|j: int| last_open(toks, i) < j < i ==> (#[trigger] toks[j]).next != 0,
    decreases i,
{
    if i > 0 && toks[i - 1].next != 0 {
        lemma_last_open(toks, i - 1);
    }
}

/// `last_open` reads only which tokens below `i` are open.
pub proof fn lemma_last_open_frame(t1: Seq<Token>, t2: Seq<Token>, i: int)
    requires
        0 <= i <= t1.len(),
        i <= t2.len(),
        forall|j: int| 0 <= j < i ==> (t1[j].next == 0) == (t2[j].next == 0),
    ensures
        last_open(t1, i) == last_open(t2, i),
    decreases i,
{
    if i > 0 {
        lemma_last_open_frame(t1, t2, i - 1);
    }
}

/// Closed tokens between `a` and `i` do not change the innermost open one.
pub proof fn lemma_last_open_skip(toks: Seq<Token>, a: int, i: int)
    requires
        0 <= a <= i <= toks.len(),
        forall|j: int| a <= j < i ==> (#[trigger] toks[j]).next != 0,
    ensures
        last_open(toks, i) == last_open(toks, a),
    decreases i - a,
{
    if i > a {
        lemma_last_open_skip(toks, a, i - 1);
    }
}

/// Reads a byte string `<len>:<payload>` at `start` and returns the
/// payload's bounds.
pub fn parse_string(buf: &[u8], start: usize) -> (r: Result<(usize, usize), Error>)
    requires
        start < buf@.len(),
        is_digit(buf@[start as int]),
    ensures
        match r {
            Ok((s, e)) => {
                &&& scan_str(buf@, start as int) == Ok::<(int, int), Error>((s as int, e as int))
                &&& start + 1 < s <= e <= buf@.len()
                &&& buf@[s - 1] == 58u8
                &&& all_digits(buf@.subrange(start as int, s - 1))
                &&& digits_value(buf@.subrange(start as int, s - 1)) == e - s
            },
            Err(x) => scan_str(buf@, start as int) == Err::<(int, int), Error>(x),
        },
{
    let len = buf.len();
    match parse_int(buf, start, COLON) {
        Err(e) => Err(e),
        Ok((n, k)) => {
            proof {
                let t = buf@.subrange(start as int, k as int);
                assert(k > start);
                assert(!has_sign(t));
            }
            let s = k + 1;
            let room = len - s;
            if n as u64 > room as u64 {
                Err(Error::Eof)
            } else {
                Ok((s, s + n as usize))
            }
        },
    }
}

/// The innermost open container among the first `upto` tokens, found by
/// scanning backward.
fn find_open(toks: &Vec<Token>, upto: usize) -> (r: Option<usize>)
    requires
        upto <= toks@.len(),
    ensures
        open_is(r, last_open(toks@, upto as int)),
{
    let mut i = upto;
    while i > 0
        invariant
            i <= upto <= toks@.len(),
            last_open(toks@, upto as int) == last_open(toks@, i as int),
        decreases i,
    {
        if toks[i - 1].next == 0 {
            return Some(i - 1);
        }
        i = i - 1;
    }
    None
}

/// `r` caches the index `o` (-1 for none).
pub open spec fn open_is(r: Option<usize>, o: int) -> bool {
    match r {
        Some(c) => o == c as int,
        None => o == -1,
    }
}

/// Bencode tokenizer. It keeps its token store between parses, so that a
/// store once grown is reused, and an optional ceiling on the token count.
pub struct Parser {
    token_limit: usize,
    tokens: Vec<Token>,
}

impl Parser {
    /// The ceiling on the number of tokens of one parse.
    pub closed spec fn limit(&self) -> int {
        self.token_limit as int
    }

    /// The tokens of the last parse.
    pub closed spec fn tokens_view(&self) -> Seq<Token> {
        self.tokens@
    }

    /// A parser with no token ceiling.
    pub fn new() -> (r: Parser)
        ensures
            r.limit() == usize::MAX,
            r.tokens_view() == Seq::<Token>::empty(),
    {
        Parser { token_limit: usize::MAX, tokens: Vec::new() }
    }

    /// Sets the ceiling on the number of tokens: a parse that needs more
    /// fails with `NoMemory`.
    pub fn set_token_limit(&mut self, token_limit: usize)
        ensures
            final(self).limit() == token_limit,
            final(self).tokens_view() == old(self).tokens_view(),
    {
        self.token_limit = token_limit;
    }

    /// The tokens of the last parse, in preorder.
    pub fn tokens(&self) -> (r: &[Token])
        ensures
            r@ == self.tokens_view(),
    {
        self.tokens.as_slice()
    }

    /// Parses `buf`, which must hold exactly one value, and returns its root.
    /// The tokens live in this parser until its next parse.
    pub fn parse<'a>(&'a mut self, buf: &'a [u8]) -> (r: Result<Node<'a>, Error>)
        ensures
            final(self).limit() == old(self).limit(),
            final(self).tokens_view().len() <= old(self).limit(),
            match r {
                Ok(n) => {
                    &&& parse_result(buf@, old(self).limit()) == Ok::<Seq<Token>, Error>(n.toks())
                    &&& n.index() == 0
                    &&& n.buf_view() == buf@
                    &&& final(self).tokens_view() == n.toks()
                    &&& subtrees_ok(buf@, n.toks())
                },
                Err(e) => parse_result(buf@, old(self).limit()) == Err::<Seq<Token>, Error>(e),
            },
    {
        let len = tokenize(&mut self.tokens, self.token_limit, buf)?;
        if len != buf.len() {
            return Err(Error::Invalid { reason: EXTRA_BYTES, pos: len });
        }
        let shared: &'a Parser = self;
        Ok(Node::borrowed(buf, shared.tokens.as_slice(), 0))
    }

    /// Parses the first complete value of `buf` and returns its root with
    /// the number of bytes it takes; bytes after it are left alone.
    pub fn parse_prefix<'a>(&'a mut self, buf: &'a [u8]) -> (r: Result<(Node<'a>, usize), Error>)
        ensures
            final(self).limit() == old(self).limit(),
            final(self).tokens_view().len() <= old(self).limit(),
            match r {
                Ok((n, len)) => {
                    &&& parse_prefix_result(buf@, old(self).limit()) == Ok::<(Seq<Token>, int), Error>((n.toks(), len as int))
                    &&& n.index() == 0
                    &&& n.buf_view() == buf@
                    &&& final(self).tokens_view() == n.toks()
                    &&& subtrees_ok(buf@, n.toks())
                },
                Err(e) => parse_prefix_result(buf@, old(self).limit()) == Err::<(Seq<Token>, int), Error>(e),
            },
    {
        let len = tokenize(&mut self.tokens, self.token_limit, buf)?;
        let shared: &'a Parser = self;
        Ok((Node::borrowed(buf, shared.tokens.as_slice(), 0), len))
    }
}

impl Default for Parser {
    fn default() -> (r: Parser)
        ensures
            r.limit() == usize::MAX,
            r.tokens_view() == Seq::<Token>::empty(),
    {
        Parser::new()
    }
}

/// Counts a new child of `kind` in the innermost open container, then
/// checks that a dictionary gets a byte string at a key position.
fn update_super(tokens: &mut Vec<Token>, open: Option<usize>, kind: TokenKind, pos: usize) -> (r: Result<(), Error>)
    requires
        open_is(open, open_of(old(tokens)@)),
        forall|j: int| 0 <= j < old(tokens)@.len() ==> (#[trigger] old(tokens)@[j]).children + j < old(tokens)@.len(),
    ensures
        final(tokens)@ == counted(old(tokens)@),
        match r {
            Ok(()) => register(old(tokens)@, kind, pos as int) == Ok::<Seq<Token>, Error>(final(tokens)@),
            Err(e) => register(old(tokens)@, kind, pos as int) == Err::<Seq<Token>, Error>(e),
        },
{
    proof {
        lemma_last_open(tokens@, tokens@.len() as int);
    }
    match open {
        None => Ok(()),
        Some(o) => {
            let n = tokens.len();
            let t = tokens[o];
            assert(t.children + o < n);
            let children = t.children + 1;
            tokens.set(o, Token { children, ..t });
            if t.kind == TokenKind::Dict && kind != TokenKind::ByteStr && children % 2 == 1 {
                return Err(Error::Invalid { reason: KEY_NOT_STRING, pos });
            }
            Ok(())
        },
    }
}

/// Tokenizes the first complete value of `buf` into `tokens`, which it
/// clears first, with at most `limit` tokens, and returns the number of
/// bytes the value takes.
pub fn tokenize(tokens: &mut Vec<Token>, limit: usize, buf: &[u8]) -> (r: Result<usize, Error>)
    ensures
        match r {
            Ok(n) => {
                &&& parse_prefix_result(buf@, limit as int) == Ok::<(Seq<Token>, int), Error>((final(tokens)@, n as int))
                &&& tokens_ok(buf@, final(tokens)@)
                &&& subtrees_ok(buf@, final(tokens)@)
                &&& final(tokens)@.len() > 0
                &&& n <= buf@.len()
            },
            Err(e) => parse_prefix_result(buf@, limit as int) == Err::<(Seq<Token>, int), Error>(e),
        },
        final(tokens)@.len() <= limit,
{
    tokens.clear();
    let len = buf.len();
    if len == 0 {
        return Err(Error::Eof);
    }
    let mut pos: usize = 0;
    let mut open: Option<usize> = None;
    let mut done = false;
    while !done && pos < len
        invariant
            len == buf@.len(),
            pos <= len,
            !done ==> run(buf@, limit as int, 0, Seq::empty()) == run(buf@, limit as int, pos as int, tokens@),
            done ==> run(buf@, limit as int, 0, Seq::empty()) == Ok::<(int, Seq<Token>), Error>((pos as int, tokens@)),
            done ==> pos > 0,
            open_is(open, open_of(tokens@)),
            pos == 0 <==> tokens@.len() == 0,
            tokens_ok(buf@, tokens@),
            forall|j: int| 0 <= j < tokens@.len() && (#[trigger] tokens@[j]).next == 0 ==> tokens@[j].start < pos,
            !done && tokens@.len() > 0 ==> open is Some,
            shaped(buf@, tokens@, pos as int),
            tokens@.len() <= limit,
        decreases len - pos,
    {
        let c = buf[pos];
        let n = tokens.len();
        let ghost toks = tokens@;
        proof {
            lemma_last_open(toks, n as int);
            assert forall|j: int| 0 <= j < toks.len() implies (#[trigger] toks[j]).children + j < toks.len() by {
                assert(token_ok(buf@, toks, j));
            }
        }
        if c == INT_OPEN {
            match update_super(tokens, open, TokenKind::Int, pos) {
                Err(e) => return Err(e),
                Ok(()) => {},
            }
            let ghost t1 = tokens@;
            match parse_int(buf, pos + 1, CLOSE) {
                Err(e) => return Err(e),
                Ok((_v, k)) => {
                    if n >= limit {
                        return Err(Error::NoMemory);
                    }
                    tokens.push(Token::new(TokenKind::Int, pos + 1, k));
                    proof {
                        lemma_shape_push(buf@, toks, pos as int, t1, tokens@[n as int], pos as int, k + 1);
                    }
                    pos = k + 1;
                },
            }
            proof {
                let t2 = tokens@;
                lemma_last_open_frame(t1, toks, n as int);
                lemma_last_open_frame(t2, t1, n as int);
                assert forall|j: int| 0 <= j < t2.len() implies #[trigger] token_ok(buf@, t2, j) by {
                    if j < n {
                        assert(token_ok(buf@, toks, j));
                    }
                }
            }
        } else if 48u8 <= c && c <= 57u8 {
            match parse_string(buf, pos) {
                Err(e) => return Err(e),
                Ok((s, e)) => {
                    if n >= limit {
                        return Err(Error::NoMemory);
                    }
                    match update_super(tokens, open, TokenKind::ByteStr, e) {
                        Err(x) => return Err(x),
                        Ok(()) => {},
                    }
                    let ghost t1 = tokens@;
                    tokens.push(Token::new(TokenKind::ByteStr, s, e));
                    proof {
                        lemma_shape_push(buf@, toks, pos as int, t1, tokens@[n as int], e as int, e as int);
                        let t2 = tokens@;
                        lemma_last_open_frame(t1, toks, n as int);
                        lemma_last_open_frame(t2, t1, n as int);
                        assert forall|j: int| 0 <= j < t2.len() implies #[trigger] token_ok(buf@, t2, j) by {
                            if j < n {
                                assert(token_ok(buf@, toks, j));
                            }
                        }
                    }
                    pos = e;
                },
            }
        } else if c == LIST_OPEN || c == DICT_OPEN {
            let kind = if c == LIST_OPEN {
                TokenKind::List
            } else {
                TokenKind::Dict
            };
            if n >= limit {
                return Err(Error::NoMemory);
            }
            match update_super(tokens, open, kind, pos + 1) {
                Err(e) => return Err(e),
                Ok(()) => {},
            }
            let ghost t1 = tokens@;
            tokens.push(Token::with_size(kind, pos, UNSET, 0, 0));
            proof {
                lemma_shape_push(buf@, toks, pos as int, t1, tokens@[n as int], pos + 1, pos + 1);
                let t2 = tokens@;
                assert forall|j: int| 0 <= j < t2.len() implies #[trigger] token_ok(buf@, t2, j) by {
                    if j < n {
                        assert(token_ok(buf@, toks, j));
                    }
                }
            }
            open = Some(n);
            pos = pos + 1;
        } else if c == CLOSE {
            match open {
                None => return Err(Error::Invalid { reason: UNCLOSED, pos: pos + 1 }),
                Some(o) => {
                    let t = tokens[o];
                    proof {
                        assert(token_ok(buf@, toks, o as int));
                        lemma_shape_close(buf@, toks, pos as int);
                    }
                    tokens.set(o, Token { end: pos + 1, next: n - o, ..t });
                    proof {
                        assert(tokens@ == closed_at(toks, o as int, pos as int));
                        let t2 = tokens@;
                        lemma_last_open_skip(t2, o as int, n as int);
                        lemma_last_open_frame(t2, toks, o as int);
                        assert forall|j: int| 0 <= j < t2.len() implies #[trigger] token_ok(buf@, t2, j) by {
                            assert(token_ok(buf@, toks, j));
                        }
                    }
                    open = find_open(tokens, o);
                    pos = pos + 1;
                },
            }
        } else {
            return Err(Error::Unexpected { pos });
        }
        if open.is_none() {
            done = true;
        }
    }
    let ghost toks = tokens@;
    assert(run(buf@, limit as int, 0, Seq::empty()) == Ok::<(int, Seq<Token>), Error>((pos as int, toks)));
    let ghost end_pos = pos as int;
    let mut i = tokens.len();
    while i > 0
        invariant
            i <= toks.len(),
            toks == tokens@,
            len == buf@.len(),
            0 < pos <= len,
            toks.len() > 0,
            run(buf@, limit as int, 0, Seq::empty()) == Ok::<(int, Seq<Token>), Error>((pos as int, toks)),
            tokens_ok(buf@, toks),
            shaped(buf@, toks, end_pos),
            toks.len() <= limit,
            forall|j: int|
                i <= j < toks.len() ==> (#[trigger] toks[j]).next != 0 && (toks[j].kind == TokenKind::Dict
                    ==> toks[j].children % 2 == 0),
        decreases i,
    {
        let t = tokens[i - 1];
        if t.next == 0 {
            assert(!finished(toks));
            return Err(Error::Eof);
        }
        if t.kind == TokenKind::Dict && t.children % 2 != 0 {
            assert(!finished(toks));
            return Err(Error::Eof);
        }
        i = i - 1;
    }
    assert forall|c: int| 0 <= c < toks.len() implies #[trigger] crate::shape::closed_ok(buf@, toks, c) by {
        assert(shape_at(buf@, toks, c, end_pos));
    }
    Ok(pos)
}

} // verus!
