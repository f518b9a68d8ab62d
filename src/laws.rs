//! Properties of the codec as a whole, proved from the tokenizer's
//! specification: encoded values read back as their own tokens unless they
//! need more tokens than the ceiling, parsed containers can be walked by
//! sibling offsets and keep byte strings at their key positions, oversized
//! integers are rejected where they start, and cut-off byte strings are
//! reported as the end of input.

use vstd::prelude::*;

use crate::decode::{child_at, cursor_ok, hop};
use crate::encode::{bytes_item, int_digits, int_item, lemma_nat_digits, nat_digits};
use crate::error::Error;
use crate::parse::{
    digit_run_end, digits_value, finished, is_digit, lemma_last_open,
    lemma_last_open_frame, lemma_last_open_skip, open_of, parse_prefix_result, parse_result, register, run,
    magnitude_bound, scan_int, scan_str, step, token_ok,
};
use crate::shape::{begins, child_begin, closed_ok, keys_ok, tiles};
use crate::token::{Token, TokenKind};

verus! {

/// A value as the encoder writes it: an integer, a byte string, a list of
/// values, or a dictionary of byte-string keys and values in the order
/// written.
pub enum Value {
    Int(i64),
    Bytes(Seq<u8>),
    List(Seq<Value>),
    Dict(Seq<(Seq<u8>, Value)>),
}

pub open spec fn kind_of(v: Value) -> TokenKind {
    match v {
        Value::Int(_) => TokenKind::Int,
        Value::Bytes(_) => TokenKind::ByteStr,
        Value::List(_) => TokenKind::List,
        Value::Dict(_) => TokenKind::Dict,
    }
}

/// The bytes the encoder writes for a value: `add_int`, `add_bytes`, and a
/// list or dictionary builder whose items are added in order.
pub open spec fn value_bytes(v: Value) -> Seq<u8>
    decreases v,
{
    match v {
        Value::Int(i) => int_item(i as int),
        Value::Bytes(b) => bytes_item(b),
        Value::List(items) => seq![108u8] + list_bytes(items) + seq![101u8],
        Value::Dict(entries) => seq![100u8] + dict_bytes(entries) + seq![101u8],
    }
}

pub open spec fn list_bytes(items: Seq<Value>) -> Seq<u8>
    decreases items,
{
    if items.len() == 0 {
        Seq::empty()
    } else {
        value_bytes(items[0]) + list_bytes(items.drop_first())
    }
}

pub open spec fn dict_bytes(entries: Seq<(Seq<u8>, Value)>) -> Seq<u8>
    decreases entries,
{
    if entries.len() == 0 {
        Seq::empty()
    } else {
        bytes_item(entries[0].0) + value_bytes(entries[0].1) + dict_bytes(entries.drop_first())
    }
}

/// How many tokens a value takes.
pub open spec fn count(v: Value) -> nat
    decreases v,
{
    match v {
        Value::Int(_) => 1,
        Value::Bytes(_) => 1,
        Value::List(items) => 1 + list_count(items),
        Value::Dict(entries) => 1 + dict_count(entries),
    }
}

pub open spec fn list_count(items: Seq<Value>) -> nat
    decreases items,
{
    if items.len() == 0 {
        0
    } else {
        count(items[0]) + list_count(items.drop_first())
    }
}

pub open spec fn dict_count(entries: Seq<(Seq<u8>, Value)>) -> nat
    decreases entries,
{
    if entries.len() == 0 {
        0
    } else {
        1 + count(entries[0].1) + dict_count(entries.drop_first())
    }
}

/// The token of a byte string whose encoding starts at byte `pos`.
pub open spec fn bytes_token(b: Seq<u8>, pos: int) -> Token {
    Token {
        kind: TokenKind::ByteStr,
        start: (pos + nat_digits(b.len()).len() + 1) as usize,
        end: (pos + nat_digits(b.len()).len() + 1 + b.len()) as usize,
        children: 0,
        next: 1,
    }
}

/// The tokens of a value whose encoding starts at byte `pos`.
pub open spec fn value_tokens(v: Value, pos: int) -> Seq<Token>
    decreases v,
{
    match v {
        Value::Int(i) => seq![
            Token {
                kind: TokenKind::Int,
                start: (pos + 1) as usize,
                end: (pos + 1 + int_digits(i as int).len()) as usize,
                children: 0,
                next: 1,
            },
        ],
        Value::Bytes(b) => seq![bytes_token(b, pos)],
        Value::List(items) => seq![
            Token {
                kind: TokenKind::List,
                start: pos as usize,
                end: (pos + value_bytes(v).len()) as usize,
                children: items.len() as usize,
                next: (1 + list_count(items)) as usize,
            },
        ] + list_tokens(items, pos + 1),
        Value::Dict(entries) => seq![
            Token {
                kind: TokenKind::Dict,
                start: pos as usize,
                end: (pos + value_bytes(v).len()) as usize,
                children: ((2 * entries.len()) as int) as usize,
                next: (1 + dict_count(entries)) as usize,
            },
        ] + dict_tokens(entries, pos + 1),
    }
}

pub open spec fn list_tokens(items: Seq<Value>, pos: int) -> Seq<Token>
    decreases items,
{
    if items.len() == 0 {
        Seq::empty()
    } else {
        value_tokens(items[0], pos) + list_tokens(items.drop_first(), pos + value_bytes(items[0]).len())
    }
}

pub open spec fn dict_tokens(entries: Seq<(Seq<u8>, Value)>, pos: int) -> Seq<Token>
    decreases entries,
{
    if entries.len() == 0 {
        Seq::empty()
    } else {
        seq![bytes_token(entries[0].0, pos)] + value_tokens(
            entries[0].1,
            pos + bytes_item(entries[0].0).len(),
        ) + dict_tokens(entries.drop_first(), pos + bytes_item(entries[0].0).len() + value_bytes(entries[0].1).len())
    }
}

/// The run of digits from `i` ends at `end` when the bytes in between are
/// digits and the byte at `end` is not.
proof fn lemma_run_end(buf: Seq<u8>, i: int, end: int)
    requires
        0 <= i <= end < buf.len(),
        forall|x: int| i <= x < end ==> is_digit(#[trigger] buf[x]),
        !is_digit(buf[end]),
    ensures
        digit_run_end(buf, i) == end,
    decreases end - i,
{
    if i < end {
        lemma_run_end(buf, i + 1, end);
    }
}

/// `buf` holds `a` at `pos`.
pub open spec fn holds_at(buf: Seq<u8>, pos: int, a: Seq<u8>) -> bool {
    0 <= pos && pos + a.len() <= buf.len() && buf.subrange(pos, pos + a.len()) == a
}

proof fn lemma_holds_split(buf: Seq<u8>, pos: int, a: Seq<u8>, b: Seq<u8>)
    requires
        holds_at(buf, pos, a + b),
    ensures
        holds_at(buf, pos, a),
        holds_at(buf, pos + a.len(), b),
{
    let w = buf.subrange(pos, pos + (a + b).len());
    assert(w == a + b);
    assert(buf.subrange(pos, pos + a.len()) =~= w.subrange(0, a.len() as int));
    assert(w.subrange(0, a.len() as int) =~= a);
    assert(buf.subrange(pos + a.len(), pos + a.len() + b.len()) =~= w.subrange(a.len() as int, w.len() as int));
    assert(w.subrange(a.len() as int, w.len() as int) =~= b);
}

proof fn lemma_holds_index(buf: Seq<u8>, pos: int, a: Seq<u8>, i: int)
    requires
        holds_at(buf, pos, a),
        0 <= i < a.len(),
    ensures
        buf[pos + i] == a[i],
{
    assert(buf.subrange(pos, pos + a.len())[i] == buf[pos + i]);
}

/// A decimal literal written at `ds` and followed by `stop` reads back as
/// its number.
proof fn lemma_read_digits(buf: Seq<u8>, ds: int, n: nat)
    requires
        holds_at(buf, ds, nat_digits(n)),
        ds + nat_digits(n).len() < buf.len(),
        !is_digit(buf[ds + nat_digits(n).len()]),
    ensures
        digit_run_end(buf, ds) == ds + nat_digits(n).len(),
        digits_value(buf.subrange(ds, ds + nat_digits(n).len())) == n,
        is_digit(buf[ds]),
{
    let d = nat_digits(n);
    lemma_nat_digits(n);
    assert forall|x: int| ds <= x < ds + d.len() implies is_digit(#[trigger] buf[x]) by {
        lemma_holds_index(buf, ds, d, x - ds);
    }
    lemma_run_end(buf, ds, ds + d.len());
}

/// The parser reads an encoded integer back.
proof fn lemma_scan_int_item(buf: Seq<u8>, pos: int, i: i64)
    requires
        holds_at(buf, pos, int_item(i as int)),
    ensures
        scan_int(buf, pos + 1, 101u8) == Ok::<(int, int), Error>((i as int, pos + 1 + int_digits(i as int).len())),
        buf[pos] == 105u8,
{
    let d = int_digits(i as int);
    lemma_holds_split(buf, pos, seq![105u8] + d, seq![101u8]);
    lemma_holds_split(buf, pos, seq![105u8], d);
    lemma_holds_index(buf, pos, seq![105u8], 0);
    let end = pos + 1 + d.len();
    lemma_holds_index(buf, end, seq![101u8], 0);
    if i >= 0 {
        lemma_nat_digits(i as nat);
        lemma_read_digits(buf, pos + 1, i as nat);
    } else {
        let m = (-i) as nat;
        lemma_nat_digits(m);
        lemma_holds_split(buf, pos + 1, seq![45u8], nat_digits(m));
        lemma_holds_index(buf, pos + 1, seq![45u8], 0);
        lemma_read_digits(buf, pos + 2, m);
    }
}

/// The parser reads an encoded byte string back.
proof fn lemma_scan_bytes_item(buf: Seq<u8>, pos: int, b: Seq<u8>)
    requires
        holds_at(buf, pos, bytes_item(b)),
        buf.len() <= i64::MAX,
    ensures
        scan_str(buf, pos) == Ok::<(int, int), Error>(
            (pos + nat_digits(b.len()).len() + 1, pos + nat_digits(b.len()).len() + 1 + b.len()),
        ),
        is_digit(buf[pos]),
{
    let d = nat_digits(b.len());
    lemma_holds_split(buf, pos, d + seq![58u8], b);
    lemma_holds_split(buf, pos, d, seq![58u8]);
    lemma_holds_index(buf, pos + d.len(), seq![58u8], 0);
    lemma_nat_digits(b.len());
    lemma_read_digits(buf, pos, b.len());
}

/// The innermost open container with one more child counted.
pub open spec fn bump(toks: Seq<Token>) -> Seq<Token> {
    add_children(toks, open_of(toks), 1)
}

pub open spec fn add_children(toks: Seq<Token>, o: int, m: int) -> Seq<Token> {
    toks.update(o, Token { children: (toks[o].children + m) as usize, ..toks[o] })
}

/// A container accepts a child of `kind`: a list any, a dictionary a byte
/// string at a key position and anything at a value position.
pub open spec fn accepts(toks: Seq<Token>, kind: TokenKind) -> bool {
    let t = toks[open_of(toks)];
    t.kind == TokenKind::List || (t.kind == TokenKind::Dict && (kind == TokenKind::ByteStr || t.children % 2 == 1))
}

/// The state of a parse inside an open container, with room for `extra`
/// more tokens under the ceiling.
pub open spec fn inside(toks: Seq<Token>, limit: int, extra: int) -> bool {
    &&& open_of(toks) >= 0
    &&& toks.len() + extra <= limit <= usize::MAX
    &&& forall|j: int| 0 <= j < toks.len() ==> (#[trigger] toks[j]).children < toks.len()
}

pub open spec fn dicts_even(toks: Seq<Token>) -> bool {
    forall|j: int| 0 <= j < toks.len() && (#[trigger] toks[j]).kind == TokenKind::Dict ==> toks[j].children % 2 == 0
}

pub open spec fn all_closed(toks: Seq<Token>) -> bool {
    forall|j: int| 0 <= j < toks.len() ==> (#[trigger] toks[j]).next != 0
}

proof fn lemma_register_ok(toks: Seq<Token>, kind: TokenKind, p: int)
    requires
        open_of(toks) >= 0,
        accepts(toks, kind),
        toks.len() <= usize::MAX,
        forall|j: int| 0 <= j < toks.len() ==> (#[trigger] toks[j]).children < toks.len(),
    ensures
        register(toks, kind, p) == Ok::<Seq<Token>, Error>(bump(toks)),
{
    lemma_last_open(toks, toks.len() as int);
    assert(toks[open_of(toks)].children < toks.len());
}

/// Closed tokens after the innermost open container leave it innermost.
proof fn lemma_open_after(t: Seq<Token>, s: Seq<Token>)
    requires
        all_closed(s),
    ensures
        open_of(t + s) == open_of(t),
{
    let u = t + s;
    assert forall|j: int| t.len() <= j < u.len() implies (#[trigger] u[j]).next != 0 by {
        assert(u[j] == s[j - t.len()]);
    }
    lemma_last_open_skip(u, t.len() as int, u.len() as int);
    lemma_last_open_frame(u, t, t.len() as int);
}

proof fn lemma_bump_flags(toks: Seq<Token>, m: int)
    requires
        open_of(toks) >= 0,
    ensures
        open_of(add_children(toks, open_of(toks), m)) == open_of(toks),
        add_children(toks, open_of(toks), m).len() == toks.len(),
{
    lemma_last_open(toks, toks.len() as int);
    lemma_last_open_frame(add_children(toks, open_of(toks), m), toks, toks.len() as int);
}

proof fn lemma_counts(v: Value, pos: int)
    ensures
        value_tokens(v, pos).len() == count(v),
        count(v) >= 1,
        count(v) <= usize::MAX ==> all_closed(value_tokens(v, pos)),
        count(v) <= usize::MAX ==> dicts_even(value_tokens(v, pos)),
        forall|j: int| 0 <= j < value_tokens(v, pos).len() ==> (#[trigger] value_tokens(v, pos)[j]).children < count(v),
    decreases v,
{
    match v {
        Value::List(items) => {
            lemma_list_counts(items, pos + 1);
            let t = value_tokens(v, pos);
            let rest = list_tokens(items, pos + 1);
            assert(t == seq![t[0]] + rest);
            assert forall|j: int| 0 <= j < t.len() implies (#[trigger] t[j]).children < count(v) by {
                if j > 0 {
                    assert(t[j] == rest[j - 1]);
                }
            }
            if count(v) <= usize::MAX {
                assert forall|j: int| 0 <= j < t.len() implies (#[trigger] t[j]).next != 0 by {
                    if j > 0 {
                        assert(t[j] == rest[j - 1]);
                    }
                }
                assert forall|j: int| 0 <= j < t.len() && (#[trigger] t[j]).kind == TokenKind::Dict implies t[j].children % 2
                    == 0 by {
                    if j > 0 {
                        assert(t[j] == rest[j - 1]);
                    }
                }
            }
        },
        Value::Dict(entries) => {
            lemma_dict_counts(entries, pos + 1);
            let t = value_tokens(v, pos);
            let rest = dict_tokens(entries, pos + 1);
            assert(t == seq![t[0]] + rest);
            assert forall|j: int| 0 <= j < t.len() implies (#[trigger] t[j]).children < count(v) by {
                if j > 0 {
                    assert(t[j] == rest[j - 1]);
                }
            }
            if count(v) <= usize::MAX {
                assert forall|j: int| 0 <= j < t.len() implies (#[trigger] t[j]).next != 0 by {
                    if j > 0 {
                        assert(t[j] == rest[j - 1]);
                    }
                }
                assert forall|j: int| 0 <= j < t.len() && (#[trigger] t[j]).kind == TokenKind::Dict implies t[j].children % 2
                    == 0 by {
                    if j > 0 {
                        assert(t[j] == rest[j - 1]);
                    }
                }
            }
        },
        _ => {},
    }
}

proof fn lemma_list_counts(items: Seq<Value>, pos: int)
    ensures
        list_tokens(items, pos).len() == list_count(items),
        list_count(items) >= items.len(),
        list_count(items) <= usize::MAX ==> all_closed(list_tokens(items, pos)),
        list_count(items) <= usize::MAX ==> dicts_even(list_tokens(items, pos)),
        forall|j: int| 0 <= j < list_tokens(items, pos).len() ==> (#[trigger] list_tokens(items, pos)[j]).children < list_count(items),
    decreases items,
{
    if items.len() > 0 {
        let p1 = pos + value_bytes(items[0]).len();
        lemma_counts(items[0], pos);
        lemma_list_counts(items.drop_first(), p1);
        let a = value_tokens(items[0], pos);
        let b = list_tokens(items.drop_first(), p1);
        let t = list_tokens(items, pos);
        assert(t == a + b);
        assert forall|j: int| 0 <= j < t.len() implies (#[trigger] t[j]).children < list_count(items) by {
            if j < a.len() {
                assert(t[j] == a[j]);
            } else {
                assert(t[j] == b[j - a.len()]);
            }
        }
        if list_count(items) <= usize::MAX {
            assert forall|j: int| 0 <= j < t.len() implies (#[trigger] t[j]).next != 0 by {
                if j < a.len() {
                    assert(t[j] == a[j]);
                } else {
                    assert(t[j] == b[j - a.len()]);
                }
            }
            assert forall|j: int| 0 <= j < t.len() && (#[trigger] t[j]).kind == TokenKind::Dict implies t[j].children % 2 == 0 by {
                if j < a.len() {
                    assert(t[j] == a[j]);
                } else {
                    assert(t[j] == b[j - a.len()]);
                }
            }
        }
    }
}

proof fn lemma_dict_counts(entries: Seq<(Seq<u8>, Value)>, pos: int)
    ensures
        dict_tokens(entries, pos).len() == dict_count(entries),
        dict_count(entries) >= 2 * entries.len(),
        dict_count(entries) <= usize::MAX ==> all_closed(dict_tokens(entries, pos)),
        dict_count(entries) <= usize::MAX ==> dicts_even(dict_tokens(entries, pos)),
        forall|j: int|
            0 <= j < dict_tokens(entries, pos).len() ==> (#[trigger] dict_tokens(entries, pos)[j]).children < dict_count(entries),
    decreases entries,
{
    if entries.len() > 0 {
        let p1 = pos + bytes_item(entries[0].0).len();
        let p2 = p1 + value_bytes(entries[0].1).len();
        lemma_counts(entries[0].1, p1);
        lemma_dict_counts(entries.drop_first(), p2);
        let k = seq![bytes_token(entries[0].0, pos)];
        let a = value_tokens(entries[0].1, p1);
        let b = dict_tokens(entries.drop_first(), p2);
        let t = dict_tokens(entries, pos);
        assert(t == k + a + b);
        assert forall|j: int| 0 <= j < t.len() implies (#[trigger] t[j]).children < dict_count(entries) by {
            if j < 1 {
                assert(t[j] == k[j]);
            } else if j < 1 + a.len() {
                assert(t[j] == a[j - 1]);
            } else {
                assert(t[j] == b[j - 1 - a.len()]);
            }
        }
        if dict_count(entries) <= usize::MAX {
            assert forall|j: int| 0 <= j < t.len() implies (#[trigger] t[j]).next != 0 by {
                if j < 1 {
                    assert(t[j] == k[j]);
                } else if j < 1 + a.len() {
                    assert(t[j] == a[j - 1]);
                } else {
                    assert(t[j] == b[j - 1 - a.len()]);
                }
            }
            assert forall|j: int| 0 <= j < t.len() && (#[trigger] t[j]).kind == TokenKind::Dict implies t[j].children % 2 == 0 by {
                if j < 1 {
                    assert(t[j] == k[j]);
                } else if j < 1 + a.len() {
                    assert(t[j] == a[j - 1]);
                } else {
                    assert(t[j] == b[j - 1 - a.len()]);
                }
            }
        }
    }
}

/// After the tokens of one child, the container is still innermost and
/// every token still has fewer children than the sequence has tokens.
proof fn lemma_after_child(toks: Seq<Token>, limit: int, extra: int, vt: Seq<Token>, n: nat)
    requires
        inside(toks, limit, extra),
        n <= extra,
        n >= 1,
        vt.len() == n,
        all_closed(vt),
        forall|j: int| 0 <= j < vt.len() ==> (#[trigger] vt[j]).children < n,
    ensures
        open_of(bump(toks) + vt) == open_of(toks),
        inside(bump(toks) + vt, limit, extra - n),
        (bump(toks) + vt)[open_of(toks)].children == toks[open_of(toks)].children + 1,
        (bump(toks) + vt)[open_of(toks)].kind == toks[open_of(toks)].kind,
        (bump(toks) + vt).len() == toks.len() + n,
{
    let o = open_of(toks);
    lemma_last_open(toks, toks.len() as int);
    lemma_bump_flags(toks, 1);
    lemma_open_after(bump(toks), vt);
    let t1 = bump(toks) + vt;
    assert forall|j: int| 0 <= j < t1.len() implies (#[trigger] t1[j]).children < t1.len() by {
        if j < toks.len() {
            assert(toks[j].children < toks.len());
        } else {
            assert(t1[j] == vt[j - toks.len()]);
        }
    }
}

proof fn lemma_run_bytes(buf: Seq<u8>, limit: int, pos: int, toks: Seq<Token>, b: Seq<u8>)
    requires
        holds_at(buf, pos, bytes_item(b)),
        buf.len() <= i64::MAX,
        inside(toks, limit, 1),
        accepts(toks, TokenKind::ByteStr),
    ensures
        run(buf, limit, pos, toks) == run(buf, limit, pos + bytes_item(b).len(), bump(toks) + seq![bytes_token(b, pos)]),
{
    let d = nat_digits(b.len()).len();
    let e = pos + d + 1 + b.len();
    lemma_scan_bytes_item(buf, pos, b);
    lemma_register_ok(toks, TokenKind::ByteStr, e);
    let x = bytes_token(b, pos);
    let t2 = bump(toks) + seq![x];
    assert(bump(toks).push(x) == t2);
    assert(bytes_item(b).len() == d + 1 + b.len());
    assert(step(buf, limit, pos, toks) == Ok::<(int, Seq<Token>), Error>((e, t2)));
    lemma_after_child(toks, limit, 1, seq![x], 1);
}

proof fn lemma_run_value(buf: Seq<u8>, limit: int, pos: int, toks: Seq<Token>, v: Value)
    requires
        holds_at(buf, pos, value_bytes(v)),
        buf.len() <= i64::MAX,
        inside(toks, limit, count(v) as int),
        accepts(toks, kind_of(v)),
    ensures
        run(buf, limit, pos, toks) == run(buf, limit, pos + value_bytes(v).len(), bump(toks) + value_tokens(v, pos)),
    decreases v, 0nat,
{
    match v {
        Value::Int(i) => lemma_run_int(buf, limit, pos, toks, i),
        Value::Bytes(b) => lemma_run_bytes(buf, limit, pos, toks, b),
        Value::List(items) => {
            lemma_run_list(buf, limit, pos, toks, items);
        },
        Value::Dict(entries) => {
            lemma_run_dict(buf, limit, pos, toks, entries);
        },
    }
}

proof fn lemma_run_int(buf: Seq<u8>, limit: int, pos: int, toks: Seq<Token>, i: i64)
    requires
        holds_at(buf, pos, int_item(i as int)),
        inside(toks, limit, 1),
        accepts(toks, TokenKind::Int),
    ensures
        run(buf, limit, pos, toks) == run(buf, limit, pos + int_item(i as int).len(), bump(toks) + value_tokens(Value::Int(i), pos)),
{
    let v = Value::Int(i);
    lemma_counts(v, pos);

    lemma_scan_int_item(buf, pos, i);
    lemma_register_ok(toks, TokenKind::Int, pos);
    let k = pos + 1 + int_digits(i as int).len();
    let t2 = bump(toks) + value_tokens(v, pos);
    assert(bump(toks).push(value_tokens(v, pos)[0]) == t2);
    assert(step(buf, limit, pos, toks) == Ok::<(int, Seq<Token>), Error>((k + 1, t2)));
    lemma_after_child(toks, limit, 1, value_tokens(v, pos), 1);

}

#[verifier::rlimit(40)]
proof fn lemma_run_list(buf: Seq<u8>, limit: int, pos: int, toks: Seq<Token>, items: Seq<Value>)
    requires
        holds_at(buf, pos, value_bytes(Value::List(items))),
        buf.len() <= i64::MAX,
        inside(toks, limit, count(Value::List(items)) as int),
        accepts(toks, TokenKind::List),
    ensures
        run(buf, limit, pos, toks) == run(
            buf,
            limit,
            pos + value_bytes(Value::List(items)).len(),
            bump(toks) + value_tokens(Value::List(items), pos),
        ),
    decreases items, 1nat,
{
    let v = Value::List(items);
    let n = toks.len() as int;
    lemma_counts(v, pos);

    lemma_holds_split(buf, pos, seq![108u8] + list_bytes(items), seq![101u8]);
    lemma_holds_split(buf, pos, seq![108u8], list_bytes(items));
    lemma_holds_index(buf, pos, seq![108u8], 0);
    lemma_register_ok(toks, TokenKind::List, pos + 1);
    let x = Token { kind: TokenKind::List, start: pos as usize, end: crate::token::UNSET, children: 0, next: 0 };
    let t1 = bump(toks).push(x);
    assert(step(buf, limit, pos, toks) == Ok::<(int, Seq<Token>), Error>((pos + 1, t1)));
    lemma_bump_flags(toks, 1);
    assert(open_of(t1) == n);
    assert(run(buf, limit, pos, toks) == run(buf, limit, pos + 1, t1));
    lemma_last_open(toks, n);
    assert forall|j: int| 0 <= j < t1.len() implies (#[trigger] t1[j]).children < t1.len() by {
        if j < n {
            assert(toks[j].children < n);
        }
    }
    lemma_run_list_items(buf, limit, pos + 1, t1, items);
    lemma_list_counts(items, pos + 1);
    let pe = pos + 1 + list_bytes(items).len();
    let lt = list_tokens(items, pos + 1);
    let t2 = add_children(t1, n, items.len() as int) + lt;
    lemma_holds_index(buf, pe, seq![101u8], 0);
    assert(open_of(add_children(t1, n, items.len() as int)) == n) by {
        lemma_bump_flags(t1, items.len() as int);
    }
    lemma_open_after(add_children(t1, n, items.len() as int), lt);
    assert(open_of(t2) == n);
    let t3 = t2.update(n, Token { end: (pe + 1) as usize, next: (t2.len() - n) as usize, ..t2[n] });
    assert(step(buf, limit, pe, t2) == Ok::<(int, Seq<Token>), Error>((pe + 1, t3)));
    assert(t3 =~= bump(toks) + value_tokens(v, pos));
    lemma_after_child(toks, limit, count(v) as int, value_tokens(v, pos), count(v));

}

#[verifier::rlimit(40)]
proof fn lemma_run_dict(buf: Seq<u8>, limit: int, pos: int, toks: Seq<Token>, entries: Seq<(Seq<u8>, Value)>)
    requires
        holds_at(buf, pos, value_bytes(Value::Dict(entries))),
        buf.len() <= i64::MAX,
        inside(toks, limit, count(Value::Dict(entries)) as int),
        accepts(toks, TokenKind::Dict),
    ensures
        run(buf, limit, pos, toks) == run(
            buf,
            limit,
            pos + value_bytes(Value::Dict(entries)).len(),
            bump(toks) + value_tokens(Value::Dict(entries), pos),
        ),
    decreases entries, 1nat,
{
    let v = Value::Dict(entries);
    let n = toks.len() as int;
    lemma_counts(v, pos);

    lemma_holds_split(buf, pos, seq![100u8] + dict_bytes(entries), seq![101u8]);
    lemma_holds_split(buf, pos, seq![100u8], dict_bytes(entries));
    lemma_holds_index(buf, pos, seq![100u8], 0);
    lemma_register_ok(toks, TokenKind::Dict, pos + 1);
    let x = Token { kind: TokenKind::Dict, start: pos as usize, end: crate::token::UNSET, children: 0, next: 0 };
    let t1 = bump(toks).push(x);
    assert(step(buf, limit, pos, toks) == Ok::<(int, Seq<Token>), Error>((pos + 1, t1)));
    lemma_bump_flags(toks, 1);
    assert(open_of(t1) == n);
    assert(run(buf, limit, pos, toks) == run(buf, limit, pos + 1, t1));
    lemma_last_open(toks, n);
    assert forall|j: int| 0 <= j < t1.len() implies (#[trigger] t1[j]).children < t1.len() by {
        if j < n {
            assert(toks[j].children < n);
        }
    }
    lemma_run_dict_items(buf, limit, pos + 1, t1, entries);
    lemma_dict_counts(entries, pos + 1);
    let pe = pos + 1 + dict_bytes(entries).len();
    let lt = dict_tokens(entries, pos + 1);
    let t2 = add_children(t1, n, (2 * entries.len()) as int) + lt;
    lemma_holds_index(buf, pe, seq![101u8], 0);
    assert(open_of(add_children(t1, n, (2 * entries.len()) as int)) == n) by {
        lemma_bump_flags(t1, (2 * entries.len()) as int);
    }
    lemma_open_after(add_children(t1, n, (2 * entries.len()) as int), lt);
    assert(open_of(t2) == n);
    let t3 = t2.update(n, Token { end: (pe + 1) as usize, next: (t2.len() - n) as usize, ..t2[n] });
    assert(step(buf, limit, pe, t2) == Ok::<(int, Seq<Token>), Error>((pe + 1, t3)));
    assert(t3 =~= bump(toks) + value_tokens(v, pos));
    lemma_after_child(toks, limit, count(v) as int, value_tokens(v, pos), count(v));

}

proof fn lemma_run_list_items(buf: Seq<u8>, limit: int, pos: int, toks: Seq<Token>, items: Seq<Value>)
    requires
        holds_at(buf, pos, list_bytes(items)),
        buf.len() <= i64::MAX,
        inside(toks, limit, list_count(items) as int),
        toks[open_of(toks)].kind == TokenKind::List,
    ensures
        run(buf, limit, pos, toks) == run(
            buf,
            limit,
            pos + list_bytes(items).len(),
            add_children(toks, open_of(toks), items.len() as int) + list_tokens(items, pos),
        ),
    decreases items, 0nat,
{
    let o = open_of(toks);
    lemma_last_open(toks, toks.len() as int);
    if items.len() == 0 {
        assert(add_children(toks, o, 0) + list_tokens(items, pos) =~= toks);
    } else {
        let v0 = items[0];
        let rest = items.drop_first();
        lemma_holds_split(buf, pos, value_bytes(v0), list_bytes(rest));
        lemma_counts(v0, pos);
        lemma_list_counts(rest, pos + value_bytes(v0).len());
        lemma_run_value(buf, limit, pos, toks, v0);
        let vt = value_tokens(v0, pos);
        let t1 = bump(toks) + vt;
        lemma_after_child(toks, limit, list_count(items) as int, vt, count(v0));
        let p1 = pos + value_bytes(v0).len();
        lemma_run_list_items(buf, limit, p1, t1, rest);
        assert(add_children(t1, o, rest.len() as int) + list_tokens(rest, p1) =~= add_children(toks, o, items.len() as int)
            + list_tokens(items, pos));
    }
}

#[verifier::rlimit(40)]
proof fn lemma_run_dict_items(buf: Seq<u8>, limit: int, pos: int, toks: Seq<Token>, entries: Seq<(Seq<u8>, Value)>)
    requires
        holds_at(buf, pos, dict_bytes(entries)),
        buf.len() <= i64::MAX,
        inside(toks, limit, dict_count(entries) as int),
        toks[open_of(toks)].kind == TokenKind::Dict,
        toks[open_of(toks)].children % 2 == 0,
    ensures
        run(buf, limit, pos, toks) == run(
            buf,
            limit,
            pos + dict_bytes(entries).len(),
            add_children(toks, open_of(toks), (2 * entries.len()) as int) + dict_tokens(entries, pos),
        ),
    decreases entries, 0nat,
{
    let o = open_of(toks);
    lemma_last_open(toks, toks.len() as int);
    if entries.len() == 0 {
        assert(add_children(toks, o, 0) + dict_tokens(entries, pos) =~= toks);
    } else {
        let key = entries[0].0;
        let v0 = entries[0].1;
        let rest = entries.drop_first();
        lemma_holds_split(buf, pos, bytes_item(key) + value_bytes(v0), dict_bytes(rest));
        lemma_holds_split(buf, pos, bytes_item(key), value_bytes(v0));
        let p1 = pos + bytes_item(key).len();
        let p2 = p1 + value_bytes(v0).len();
        lemma_counts(v0, p1);
        lemma_dict_counts(rest, p2);
        lemma_run_bytes(buf, limit, pos, toks, key);
        let kt = seq![bytes_token(key, pos)];
        let t1 = bump(toks) + kt;
        lemma_after_child(toks, limit, dict_count(entries) as int, kt, 1);
        lemma_run_value(buf, limit, p1, t1, v0);
        let vt = value_tokens(v0, p1);
        let t2 = bump(t1) + vt;
        lemma_after_child(t1, limit, dict_count(entries) - 1, vt, count(v0));
        lemma_run_dict_items(buf, limit, p2, t2, rest);
        assert(add_children(t2, o, (2 * rest.len()) as int) + dict_tokens(rest, p2) =~= add_children(toks, o, (2 * entries.len()) as int)
            + dict_tokens(entries, pos));
    }
}

#[verifier::rlimit(40)]
proof fn lemma_root_int(i: i64, limit: int)
    requires
        count(Value::Int(i)) <= limit <= usize::MAX,
        value_bytes(Value::Int(i)).len() <= isize::MAX,
    ensures
        run(value_bytes(Value::Int(i)), limit, 0, Seq::empty()) == Ok::<(int, Seq<Token>), Error>(
            (value_bytes(Value::Int(i)).len() as int, value_tokens(Value::Int(i), 0)),
        ),
        open_of(value_tokens(Value::Int(i), 0)) == -1,
{
    let v = Value::Int(i);
    let buf = value_bytes(v);
    assert(buf.subrange(0, buf.len() as int) =~= buf);
    assert(holds_at(buf, 0, buf));
    lemma_counts(v, 0);
    let empty = Seq::<Token>::empty();
    assert(open_of(empty) == -1);
    assert(register(empty, kind_of(v), 0) == Ok::<Seq<Token>, Error>(empty));
    let t = value_tokens(v, 0);

    lemma_scan_int_item(buf, 0, i);
    assert(empty.push(t[0]) =~= t);
    assert(step(buf, limit, 0, empty) == Ok::<(int, Seq<Token>), Error>((buf.len() as int, t)));
    assert(open_of(t) == -1) by {
        lemma_last_open_skip(t, 0, t.len() as int);
    }
}

#[verifier::rlimit(40)]
proof fn lemma_root_bytes(b: Seq<u8>, limit: int)
    requires
        count(Value::Bytes(b)) <= limit <= usize::MAX,
        value_bytes(Value::Bytes(b)).len() <= isize::MAX,
    ensures
        run(value_bytes(Value::Bytes(b)), limit, 0, Seq::empty()) == Ok::<(int, Seq<Token>), Error>(
            (value_bytes(Value::Bytes(b)).len() as int, value_tokens(Value::Bytes(b), 0)),
        ),
        open_of(value_tokens(Value::Bytes(b), 0)) == -1,
{
    let v = Value::Bytes(b);
    let buf = value_bytes(v);
    assert(buf.subrange(0, buf.len() as int) =~= buf);
    assert(holds_at(buf, 0, buf));
    lemma_counts(v, 0);
    let empty = Seq::<Token>::empty();
    assert(open_of(empty) == -1);
    assert(register(empty, kind_of(v), 0) == Ok::<Seq<Token>, Error>(empty));
    let t = value_tokens(v, 0);

    lemma_scan_bytes_item(buf, 0, b);
    assert(empty.push(t[0]) =~= t);
    assert(step(buf, limit, 0, empty) == Ok::<(int, Seq<Token>), Error>((buf.len() as int, t)));
    assert(open_of(t) == -1) by {
        lemma_last_open_skip(t, 0, t.len() as int);
    }
}

#[verifier::rlimit(40)]
proof fn lemma_root_list(items: Seq<Value>, limit: int)
    requires
        count(Value::List(items)) <= limit <= usize::MAX,
        value_bytes(Value::List(items)).len() <= isize::MAX,
    ensures
        run(value_bytes(Value::List(items)), limit, 0, Seq::empty()) == Ok::<(int, Seq<Token>), Error>(
            (value_bytes(Value::List(items)).len() as int, value_tokens(Value::List(items), 0)),
        ),
        open_of(value_tokens(Value::List(items), 0)) == -1,
{
    let v = Value::List(items);
    let buf = value_bytes(v);
    assert(buf.subrange(0, buf.len() as int) =~= buf);
    assert(holds_at(buf, 0, buf));
    lemma_counts(v, 0);
    let empty = Seq::<Token>::empty();
    assert(open_of(empty) == -1);
    assert(register(empty, kind_of(v), 0) == Ok::<Seq<Token>, Error>(empty));
    let t = value_tokens(v, 0);

    lemma_holds_split(buf, 0, seq![108u8] + list_bytes(items), seq![101u8]);
    lemma_holds_split(buf, 0, seq![108u8], list_bytes(items));
    lemma_holds_index(buf, 0, seq![108u8], 0);
    let x = Token { kind: TokenKind::List, start: 0, end: crate::token::UNSET, children: 0, next: 0 };
    let t1 = seq![x];
    assert(empty.push(x) =~= t1);
    assert(step(buf, limit, 0, empty) == Ok::<(int, Seq<Token>), Error>((1, t1)));
    assert(open_of(t1) == 0);
    assert(run(buf, limit, 0, empty) == run(buf, limit, 1, t1));
    lemma_run_list_items(buf, limit, 1, t1, items);
    lemma_list_counts(items, 1);
    let pe = 1 + list_bytes(items).len() as int;
    let lt = list_tokens(items, 1);
    let t2 = add_children(t1, 0, items.len() as int) + lt;
    lemma_holds_index(buf, pe, seq![101u8], 0);
    assert(open_of(add_children(t1, 0, items.len() as int)) == 0) by {
        lemma_bump_flags(t1, items.len() as int);
    }
    lemma_open_after(add_children(t1, 0, items.len() as int), lt);
    let t3 = t2.update(0, Token { end: (pe + 1) as usize, next: t2.len() as usize, ..t2[0] });
    assert(step(buf, limit, pe, t2) == Ok::<(int, Seq<Token>), Error>((pe + 1, t3)));
    assert(t3 =~= t);
    assert(open_of(t) == -1) by {
        lemma_last_open_skip(t, 0, t.len() as int);
    }
}

#[verifier::rlimit(40)]
proof fn lemma_root_dict(entries: Seq<(Seq<u8>, Value)>, limit: int)
    requires
        count(Value::Dict(entries)) <= limit <= usize::MAX,
        value_bytes(Value::Dict(entries)).len() <= isize::MAX,
    ensures
        run(value_bytes(Value::Dict(entries)), limit, 0, Seq::empty()) == Ok::<(int, Seq<Token>), Error>(
            (value_bytes(Value::Dict(entries)).len() as int, value_tokens(Value::Dict(entries), 0)),
        ),
        open_of(value_tokens(Value::Dict(entries), 0)) == -1,
{
    let v = Value::Dict(entries);
    let buf = value_bytes(v);
    assert(buf.subrange(0, buf.len() as int) =~= buf);
    assert(holds_at(buf, 0, buf));
    lemma_counts(v, 0);
    let empty = Seq::<Token>::empty();
    assert(open_of(empty) == -1);
    assert(register(empty, kind_of(v), 0) == Ok::<Seq<Token>, Error>(empty));
    let t = value_tokens(v, 0);

    lemma_holds_split(buf, 0, seq![100u8] + dict_bytes(entries), seq![101u8]);
    lemma_holds_split(buf, 0, seq![100u8], dict_bytes(entries));
    lemma_holds_index(buf, 0, seq![100u8], 0);
    let x = Token { kind: TokenKind::Dict, start: 0, end: crate::token::UNSET, children: 0, next: 0 };
    let t1 = seq![x];
    assert(empty.push(x) =~= t1);
    assert(step(buf, limit, 0, empty) == Ok::<(int, Seq<Token>), Error>((1, t1)));
    assert(open_of(t1) == 0);
    assert(run(buf, limit, 0, empty) == run(buf, limit, 1, t1));
    lemma_run_dict_items(buf, limit, 1, t1, entries);
    lemma_dict_counts(entries, 1);
    let pe = 1 + dict_bytes(entries).len() as int;
    let lt = dict_tokens(entries, 1);
    let t2 = add_children(t1, 0, (2 * entries.len()) as int) + lt;
    lemma_holds_index(buf, pe, seq![101u8], 0);
    assert(open_of(add_children(t1, 0, (2 * entries.len()) as int)) == 0) by {
        lemma_bump_flags(t1, (2 * entries.len()) as int);
    }
    lemma_open_after(add_children(t1, 0, (2 * entries.len()) as int), lt);
    let t3 = t2.update(0, Token { end: (pe + 1) as usize, next: t2.len() as usize, ..t2[0] });
    assert(step(buf, limit, pe, t2) == Ok::<(int, Seq<Token>), Error>((pe + 1, t3)));
    assert(t3 =~= t);
    assert(open_of(t) == -1) by {
        lemma_last_open_skip(t, 0, t.len() as int);
    }
}

/// Round trip: parsing the bytes the encoder writes for a value gives back
/// exactly that value's tokens, so the tree view shows the same kinds, the
/// same payload bytes and the same children in the same order. It holds
/// when its tokens fit under the ceiling and the encoding fits in memory.
pub proof fn lemma_round_trip(v: Value, limit: int)
    requires
        count(v) <= limit <= usize::MAX,
        value_bytes(v).len() <= isize::MAX,
    ensures
        parse_result(value_bytes(v), limit) == Ok::<Seq<Token>, Error>(value_tokens(v, 0)),
{
    let buf = value_bytes(v);
    let t = value_tokens(v, 0);
    lemma_counts(v, 0);
    match v {
        Value::Int(i) => lemma_root_int(i, limit),
        Value::Bytes(b) => lemma_root_bytes(b, limit),
        Value::List(items) => lemma_root_list(items, limit),
        Value::Dict(entries) => lemma_root_dict(entries, limit),
    }
    assert(finished(t));
    assert(parse_prefix_result(buf, limit) == Ok::<(Seq<Token>, int), Error>((t, buf.len() as int)));
}

/// Subtree skipping: in the tokens of a successful parse, walking a
/// container's children by their `next` offsets visits exactly `children`
/// entries, each inside the container's subtree, and ends at the index of
/// the container's next sibling. The children's complete encodings tile the
/// container's span: the first begins right after the opening byte, each
/// next one where the one before ends, and the last ends at the byte of the
/// container's closing `e` (an empty container's `e` follows its opening
/// byte).
pub proof fn lemma_subtree_skip(buf: Seq<u8>, toks: Seq<Token>, c: int)
    requires
        cursor_ok(buf, toks, c),
        toks[c].is_container(),
    ensures
        forall|k: int| 0 <= k < toks[c].children ==> (#[trigger] child_at(toks, c, k)) is Some,
        child_at(toks, c, toks[c].children as int) is None,
        hop(toks, c + 1, toks[c].children as nat) == c + toks[c].next,
        toks[c].children > 0 ==> toks[hop(toks, c + 1, (toks[c].children - 1) as nat)].byte_end() == toks[c].end - 1,
        toks[c].children == 0 ==> toks[c].start + 1 == toks[c].end - 1,
        forall|k: int|
            0 <= k < toks[c].children ==> begins(buf, toks[#[trigger] hop(toks, c + 1, k as nat)], child_begin(toks, c, k)),
{
    assert(closed_ok(buf, toks, c));
    reveal(tiles);
    assert(token_ok(buf, toks, c));
    assert forall|k: int| 0 <= k < toks[c].children implies (#[trigger] child_at(toks, c, k)) is Some by {
        assert(c < hop(toks, c + 1, k as nat) < c + toks[c].next);
    }
}

/// Overflow: a buffer that starts with an integer literal whose signed
/// value lies outside `i64` (digits worth more than `i64::MAX`, or more than
/// `i64::MIN`'s magnitude after a `-`) fails to parse with `Overflow` at the
/// literal's first byte, whatever follows and whatever the ceiling.
pub proof fn lemma_overflow(buf: Seq<u8>, limit: int)
    requires
        buf.len() >= 2,
        buf[0] == 105u8,
        digits_value(
            buf.subrange(
                if buf[1] == 45u8 { 2 } else { 1 },
                digit_run_end(buf, if buf[1] == 45u8 { 2 } else { 1 }),
            ),
        ) > magnitude_bound(buf[1] == 45u8),
    ensures
        parse_prefix_result(buf, limit) == Err::<(Seq<Token>, int), Error>(Error::Overflow { pos: 1 }),
        parse_result(buf, limit) == Err::<Seq<Token>, Error>(Error::Overflow { pos: 1 }),
{
    let empty = Seq::<Token>::empty();
    assert(open_of(empty) == -1);
    assert(register(empty, TokenKind::Int, 0) == Ok::<Seq<Token>, Error>(empty));
    assert(scan_int(buf, 1, 101u8) == Err::<(int, int), Error>(Error::Overflow { pos: 1 }));
    assert(step(buf, limit, 0, empty) == Err::<(int, Seq<Token>), Error>(Error::Overflow { pos: 1 }));
}

/// Dictionary keys: in the tokens of a successful parse, a dictionary has
/// an even number of children and every key position holds a byte string.
pub proof fn lemma_dict_keys(buf: Seq<u8>, toks: Seq<Token>, c: int)
    requires
        cursor_ok(buf, toks, c),
        toks[c].kind == TokenKind::Dict,
    ensures
        toks[c].children % 2 == 0,
        forall|k: int|
            0 <= k < toks[c].children && k % 2 == 0 ==> toks[(#[trigger] child_at(toks, c, k)).unwrap()].kind
                == TokenKind::ByteStr,
{
    assert(closed_ok(buf, toks, c));
    assert(keys_ok(toks, c, toks[c].children as int));
    assert(token_ok(buf, toks, c));
    assert forall|k: int| 0 <= k < toks[c].children && k % 2 == 0 implies toks[(#[trigger] child_at(
        toks,
        c,
        k,
    )).unwrap()].kind == TokenKind::ByteStr by {
        assert(c < hop(toks, c + 1, k as nat) < c + toks[c].next);
    }
}

/// A parse inside an open container with at most `limit` tokens so far.
pub open spec fn room(toks: Seq<Token>, limit: int) -> bool {
    &&& open_of(toks) >= 0
    &&& toks.len() <= limit <= usize::MAX
    &&& forall|j: int| 0 <= j < toks.len() ==> (#[trigger] toks[j]).children < toks.len()
}

proof fn lemma_fail_int(buf: Seq<u8>, limit: int, pos: int, toks: Seq<Token>, i: i64)
    requires
        holds_at(buf, pos, int_item(i as int)),
        room(toks, limit),
        toks.len() == limit,
        accepts(toks, TokenKind::Int),
    ensures
        run(buf, limit, pos, toks) == Err::<(int, Seq<Token>), Error>(Error::NoMemory),
{
    lemma_scan_int_item(buf, pos, i);
    lemma_register_ok(toks, TokenKind::Int, pos);
    assert(step(buf, limit, pos, toks) == Err::<(int, Seq<Token>), Error>(Error::NoMemory));
}

proof fn lemma_fail_bytes(buf: Seq<u8>, limit: int, pos: int, toks: Seq<Token>, b: Seq<u8>)
    requires
        holds_at(buf, pos, bytes_item(b)),
        buf.len() <= i64::MAX,
        room(toks, limit),
        toks.len() == limit,
    ensures
        run(buf, limit, pos, toks) == Err::<(int, Seq<Token>), Error>(Error::NoMemory),
{
    lemma_scan_bytes_item(buf, pos, b);
    assert(step(buf, limit, pos, toks) == Err::<(int, Seq<Token>), Error>(Error::NoMemory));
}

proof fn lemma_fail_value(buf: Seq<u8>, limit: int, pos: int, toks: Seq<Token>, v: Value)
    requires
        holds_at(buf, pos, value_bytes(v)),
        buf.len() <= i64::MAX,
        room(toks, limit),
        toks.len() + count(v) > limit,
        accepts(toks, kind_of(v)),
    ensures
        run(buf, limit, pos, toks) == Err::<(int, Seq<Token>), Error>(Error::NoMemory),
    decreases v, 0nat,
{
    match v {
        Value::Int(i) => lemma_fail_int(buf, limit, pos, toks, i),
        Value::Bytes(b) => lemma_fail_bytes(buf, limit, pos, toks, b),
        Value::List(items) => {
            lemma_fail_list(buf, limit, pos, toks, items);
        },
        Value::Dict(entries) => {
            lemma_fail_dict(buf, limit, pos, toks, entries);
        },
    }
}

/// After a container's opening byte, the parse is inside it.
proof fn lemma_opened(toks: Seq<Token>, limit: int, x: Token)
    requires
        room(toks, limit),
        toks.len() < limit,
        x.next == 0,
        x.children == 0,
    ensures
        room(bump(toks).push(x), limit),
        open_of(bump(toks).push(x)) == toks.len(),
{
    let n = toks.len() as int;
    let t1 = bump(toks).push(x);
    lemma_bump_flags(toks, 1);
    lemma_last_open(toks, n);
    assert forall|j: int| 0 <= j < t1.len() implies (#[trigger] t1[j]).children < t1.len() by {
        if j < n {
            assert(toks[j].children < n);
        }
    }
}

#[verifier::rlimit(40)]
proof fn lemma_fail_list(buf: Seq<u8>, limit: int, pos: int, toks: Seq<Token>, items: Seq<Value>)
    requires
        holds_at(buf, pos, value_bytes(Value::List(items))),
        buf.len() <= i64::MAX,
        room(toks, limit),
        toks.len() + count(Value::List(items)) > limit,
        accepts(toks, TokenKind::List),
    ensures
        run(buf, limit, pos, toks) == Err::<(int, Seq<Token>), Error>(Error::NoMemory),
    decreases items, 1nat,
{
    let n = toks.len() as int;
    lemma_holds_split(buf, pos, seq![108u8] + list_bytes(items), seq![101u8]);
    lemma_holds_split(buf, pos, seq![108u8], list_bytes(items));
    lemma_holds_index(buf, pos, seq![108u8], 0);
    if n >= limit {
        assert(step(buf, limit, pos, toks) == Err::<(int, Seq<Token>), Error>(Error::NoMemory));
    } else {
        lemma_register_ok(toks, TokenKind::List, pos + 1);
        let x = Token { kind: TokenKind::List, start: pos as usize, end: crate::token::UNSET, children: 0, next: 0 };
        let t1 = bump(toks).push(x);
        assert(step(buf, limit, pos, toks) == Ok::<(int, Seq<Token>), Error>((pos + 1, t1)));
        lemma_opened(toks, limit, x);
        assert(run(buf, limit, pos, toks) == run(buf, limit, pos + 1, t1));
        lemma_fail_list_items(buf, limit, pos + 1, t1, items);
    }
}

#[verifier::rlimit(40)]
proof fn lemma_fail_dict(buf: Seq<u8>, limit: int, pos: int, toks: Seq<Token>, entries: Seq<(Seq<u8>, Value)>)
    requires
        holds_at(buf, pos, value_bytes(Value::Dict(entries))),
        buf.len() <= i64::MAX,
        room(toks, limit),
        toks.len() + count(Value::Dict(entries)) > limit,
        accepts(toks, TokenKind::Dict),
    ensures
        run(buf, limit, pos, toks) == Err::<(int, Seq<Token>), Error>(Error::NoMemory),
    decreases entries, 1nat,
{
    let n = toks.len() as int;
    lemma_holds_split(buf, pos, seq![100u8] + dict_bytes(entries), seq![101u8]);
    lemma_holds_split(buf, pos, seq![100u8], dict_bytes(entries));
    lemma_holds_index(buf, pos, seq![100u8], 0);
    if n >= limit {
        assert(step(buf, limit, pos, toks) == Err::<(int, Seq<Token>), Error>(Error::NoMemory));
    } else {
        lemma_register_ok(toks, TokenKind::Dict, pos + 1);
        let x = Token { kind: TokenKind::Dict, start: pos as usize, end: crate::token::UNSET, children: 0, next: 0 };
        let t1 = bump(toks).push(x);
        assert(step(buf, limit, pos, toks) == Ok::<(int, Seq<Token>), Error>((pos + 1, t1)));
        lemma_opened(toks, limit, x);
        assert(run(buf, limit, pos, toks) == run(buf, limit, pos + 1, t1));
        lemma_fail_dict_items(buf, limit, pos + 1, t1, entries);
    }
}

proof fn lemma_fail_list_items(buf: Seq<u8>, limit: int, pos: int, toks: Seq<Token>, items: Seq<Value>)
    requires
        holds_at(buf, pos, list_bytes(items)),
        buf.len() <= i64::MAX,
        room(toks, limit),
        toks.len() + list_count(items) > limit,
        toks[open_of(toks)].kind == TokenKind::List,
    ensures
        run(buf, limit, pos, toks) == Err::<(int, Seq<Token>), Error>(Error::NoMemory),
    decreases items, 0nat,
{
    lemma_last_open(toks, toks.len() as int);
    let v0 = items[0];
    let rest = items.drop_first();
    lemma_holds_split(buf, pos, value_bytes(v0), list_bytes(rest));
    if toks.len() + count(v0) > limit {
        lemma_fail_value(buf, limit, pos, toks, v0);
    } else {
        lemma_counts(v0, pos);
        lemma_run_value(buf, limit, pos, toks, v0);
        let vt = value_tokens(v0, pos);
        lemma_after_child(toks, limit, count(v0) as int, vt, count(v0));
        lemma_fail_list_items(buf, limit, pos + value_bytes(v0).len(), bump(toks) + vt, rest);
    }
}

#[verifier::rlimit(40)]
proof fn lemma_fail_dict_items(
    buf: Seq<u8>,
    limit: int,
    pos: int,
    toks: Seq<Token>,
    entries: Seq<(Seq<u8>, Value)>,
)
    requires
        holds_at(buf, pos, dict_bytes(entries)),
        buf.len() <= i64::MAX,
        room(toks, limit),
        toks.len() + dict_count(entries) > limit,
        toks[open_of(toks)].kind == TokenKind::Dict,
        toks[open_of(toks)].children % 2 == 0,
    ensures
        run(buf, limit, pos, toks) == Err::<(int, Seq<Token>), Error>(Error::NoMemory),
    decreases entries, 0nat,
{
    lemma_last_open(toks, toks.len() as int);
    let key = entries[0].0;
    let v0 = entries[0].1;
    let rest = entries.drop_first();
    lemma_holds_split(buf, pos, bytes_item(key) + value_bytes(v0), dict_bytes(rest));
    lemma_holds_split(buf, pos, bytes_item(key), value_bytes(v0));
    let p1 = pos + bytes_item(key).len();
    let p2 = p1 + value_bytes(v0).len();
    if toks.len() == limit {
        lemma_fail_bytes(buf, limit, pos, toks, key);
    } else {
        lemma_run_bytes(buf, limit, pos, toks, key);
        let kt = seq![bytes_token(key, pos)];
        let t1 = bump(toks) + kt;
        lemma_after_child(toks, limit, 1, kt, 1);
        if t1.len() + count(v0) > limit {
            lemma_fail_value(buf, limit, p1, t1, v0);
        } else {
            lemma_counts(v0, p1);
            lemma_run_value(buf, limit, p1, t1, v0);
            let vt = value_tokens(v0, p1);
            lemma_after_child(t1, limit, count(v0) as int, vt, count(v0));
            lemma_fail_dict_items(buf, limit, p2, bump(t1) + vt, rest);
        }
    }
}

/// Token ceiling: parsing the bytes the encoder writes for a value fails
/// with `NoMemory` when the value needs more tokens than the ceiling allows
/// (with the round trip: such a parse succeeds exactly when the tokens
/// fit).
pub proof fn lemma_token_ceiling(v: Value, limit: int)
    requires
        0 <= limit < count(v),
        limit <= usize::MAX,
        value_bytes(v).len() <= isize::MAX,
    ensures
        parse_prefix_result(value_bytes(v), limit) == Err::<(Seq<Token>, int), Error>(Error::NoMemory),
        parse_result(value_bytes(v), limit) == Err::<Seq<Token>, Error>(Error::NoMemory),
{
    let buf = value_bytes(v);
    assert(buf.subrange(0, buf.len() as int) =~= buf);
    assert(holds_at(buf, 0, buf));
    let empty = Seq::<Token>::empty();
    assert(open_of(empty) == -1);
    assert(register(empty, kind_of(v), 0) == Ok::<Seq<Token>, Error>(empty));
    match v {
        Value::Int(i) => {
            lemma_scan_int_item(buf, 0, i);
            assert(step(buf, limit, 0, empty) == Err::<(int, Seq<Token>), Error>(Error::NoMemory));
        },
        Value::Bytes(b) => {
            lemma_scan_bytes_item(buf, 0, b);
            assert(step(buf, limit, 0, empty) == Err::<(int, Seq<Token>), Error>(Error::NoMemory));
        },
        Value::List(items) => {
            lemma_holds_split(buf, 0, seq![108u8] + list_bytes(items), seq![101u8]);
            lemma_holds_split(buf, 0, seq![108u8], list_bytes(items));
            lemma_holds_index(buf, 0, seq![108u8], 0);
            if limit == 0 {
                assert(step(buf, limit, 0, empty) == Err::<(int, Seq<Token>), Error>(Error::NoMemory));
            } else {
                let x = Token { kind: TokenKind::List, start: 0, end: crate::token::UNSET, children: 0, next: 0 };
                let t1 = seq![x];
                assert(empty.push(x) =~= t1);
                assert(step(buf, limit, 0, empty) == Ok::<(int, Seq<Token>), Error>((1, t1)));
                assert(open_of(t1) == 0);
                assert(run(buf, limit, 0, empty) == run(buf, limit, 1, t1));
                lemma_fail_list_items(buf, limit, 1, t1, items);
            }
        },
        Value::Dict(entries) => {
            lemma_holds_split(buf, 0, seq![100u8] + dict_bytes(entries), seq![101u8]);
            lemma_holds_split(buf, 0, seq![100u8], dict_bytes(entries));
            lemma_holds_index(buf, 0, seq![100u8], 0);
            if limit == 0 {
                assert(step(buf, limit, 0, empty) == Err::<(int, Seq<Token>), Error>(Error::NoMemory));
            } else {
                let x = Token { kind: TokenKind::Dict, start: 0, end: crate::token::UNSET, children: 0, next: 0 };
                let t1 = seq![x];
                assert(empty.push(x) =~= t1);
                assert(step(buf, limit, 0, empty) == Ok::<(int, Seq<Token>), Error>((1, t1)));
                assert(open_of(t1) == 0);
                assert(run(buf, limit, 0, empty) == run(buf, limit, 1, t1));
                lemma_fail_dict_items(buf, limit, 1, t1, entries);
            }
        },
    }
}

/// Truncation: a buffer that starts with a byte string whose declared
/// length runs past the end of the buffer fails to parse with `Eof`.
pub proof fn lemma_truncated_string(buf: Seq<u8>, limit: int)
    requires
        buf.len() >= 1,
        is_digit(buf[0]),
        digit_run_end(buf, 0) < buf.len(),
        buf[digit_run_end(buf, 0)] == 58u8,
        digits_value(buf.subrange(0, digit_run_end(buf, 0))) <= i64::MAX,
        digit_run_end(buf, 0) + 1 + digits_value(buf.subrange(0, digit_run_end(buf, 0))) > buf.len(),
    ensures
        parse_prefix_result(buf, limit) == Err::<(Seq<Token>, int), Error>(Error::Eof),
        parse_result(buf, limit) == Err::<Seq<Token>, Error>(Error::Eof),
{
    assert(scan_str(buf, 0) == Err::<(int, int), Error>(Error::Eof));
    assert(step(buf, limit, 0, Seq::empty()) == Err::<(int, Seq<Token>), Error>(Error::Eof));
}

} // verus!
