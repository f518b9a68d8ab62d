//! Streaming encoder: primitives append their bytes to a growable buffer,
//! and scoped list and dictionary builders write their closing byte once.

use vstd::prelude::*;
use vstd::string::StringSliceAdditionalSpecFns;

use crate::parse::{all_digits, digits_value, is_digit, lemma_digits_value_push};

verus! {

/// Decimal text of a natural number, most significant digit first.
pub open spec fn nat_digits(n: nat) -> Seq<u8>
    decreases n,
{
    if n < 10 {
        seq![(48 + n) as u8]
    } else {
        nat_digits(n / 10).push((48 + n % 10) as u8)
    }
}

/// Decimal text of an integer, with a leading `-` when it is negative.
pub open spec fn int_digits(i: int) -> Seq<u8> {
    if i < 0 {
        seq![45u8] + nat_digits((-i) as nat)
    } else {
        nat_digits(i as nat)
    }
}

/// The encoding of an integer: `i<digits>e`.
pub open spec fn int_item(v: int) -> Seq<u8> {
    seq![105u8] + int_digits(v) + seq![101u8]
}

/// The encoding of a byte string: `<len>:<payload>`.
pub open spec fn bytes_item(b: Seq<u8>) -> Seq<u8> {
    nat_digits(b.len()) + seq![58u8] + b
}

/// Decimal text is made of digits and reads back as its number.
pub proof fn lemma_nat_digits(n: nat)
    ensures
        nat_digits(n).len() >= 1,
        all_digits(nat_digits(n)),
        digits_value(nat_digits(n)) == n,
    decreases n,
{
    if n >= 10 {
        lemma_nat_digits(n / 10);
        let s = nat_digits(n / 10);
        let b = (48 + n % 10) as u8;
        assert(s.push(b).drop_last() =~= s);
        assert(n == (n / 10) * 10 + n % 10);
        assert(nat_digits(n) == s.push(b));
        lemma_digits_value_push(s, b);
        assert forall|i: int| 0 <= i < s.push(b).len() implies is_digit(#[trigger] s.push(b)[i]) by {
            if i < s.len() {
                assert(is_digit(s[i]));
            }
        }
    } else {
        let s = seq![(48 + n) as u8];
        assert(s.drop_last() =~= Seq::<u8>::empty());
        assert(nat_digits(n) == s);
        assert(digits_value(s) == digits_value(s.drop_last()) * 10 + (s.last() - 48) as nat);
    }
}

/// Relies on `itoa::Buffer::format`: it writes the decimal text of an
/// integer, with a leading `-` when negative and no leading zeros.
#[verifier::external_body]
pub(crate) fn put_decimal(out: &mut Vec<u8>, v: i128)
    ensures
        final(out)@ == old(out)@ + int_digits(v as int),
{
    let mut buf = itoa::Buffer::new();
    out.extend_from_slice(buf.format(v).as_bytes());
}

/// A sink of encoded bytes.
pub trait Encoder {
    /// The bytes written so far.
    spec fn sink(&self) -> Seq<u8>;

    /// Encode an integer value.
    fn add_int(&mut self, value: i64)
        ensures
            final(self).sink() == old(self).sink() + int_item(value as int),
    ;

    /// Encode a byte slice.
    fn add_bytes(&mut self, value: &[u8])
        ensures
            final(self).sink() == old(self).sink() + bytes_item(value@),
    ;

    /// Write the length prefix of a byte string of `len` bytes and return a
    /// writer that takes its payload in pieces.
    fn add_n_bytes(&mut self, len: usize) -> (r: AddBytes<'_>)
        ensures
            r.bytes() == old(self).sink() + nat_digits(len as nat) + seq![58u8],
            r.declared() == len,
            r.written() == 0,
            final(self).sink() == (*final(r.sink()))@,
    ;

    /// Encode a string slice as the byte string of its UTF-8 bytes.
    fn add_str(&mut self, value: &str)
        ensures
            final(self).sink() == old(self).sink() + bytes_item(value.spec_bytes()),
    ;

    /// Open a list; it is closed when the returned builder is finished or
    /// dropped.
    fn add_list(&mut self) -> (r: List<'_>)
        ensures
            r.is_open(),
            r.bytes() == old(self).sink().push(108u8),
            final(self).sink() == (*final(r.sink()))@,
    ;

    /// Open a dictionary; it is closed when the returned builder is
    /// finished or dropped.
    fn add_dict(&mut self) -> (r: Dict<'_>)
        ensures
            r.is_open(),
            r.bytes() == old(self).sink().push(100u8),
            final(self).sink() == (*final(r.sink()))@,
    ;
}

impl Encoder for Vec<u8> {
    open spec fn sink(&self) -> Seq<u8> {
        self@
    }

    fn add_int(&mut self, value: i64) {
        self.push(105u8);
        put_decimal(self, value as i128);
        self.push(101u8);
    }

    fn add_bytes(&mut self, value: &[u8]) {
        put_decimal(self, value.len() as i128);
        self.push(58u8);
        self.extend_from_slice(value);
    }

    fn add_n_bytes(&mut self, len: usize) -> (r: AddBytes<'_>) {
        put_decimal(self, len as i128);
        self.push(58u8);
        AddBytes { enc: self, len, written: 0 }
    }

    fn add_str(&mut self, value: &str) {
        self.add_bytes(value.as_bytes());
    }

    fn add_list(&mut self) -> (r: List<'_>) {
        List::new(self)
    }

    fn add_dict(&mut self) -> (r: Dict<'_>) {
        Dict::new(self)
    }
}

/// A byte string whose length was written up front and whose payload is
/// added in pieces. Finishing it requires that exactly the declared number
/// of bytes was added.
pub struct AddBytes<'a> {
    enc: &'a mut Vec<u8>,
    len: usize,
    written: usize,
}

impl<'a> AddBytes<'a> {
    /// The bytes of the underlying buffer so far.
    pub closed spec fn bytes(&self) -> Seq<u8> {
        self.enc@
    }

    /// The buffer this writer appends to.
    pub closed spec fn sink(&self) -> &'a mut Vec<u8> {
        self.enc
    }

    /// The payload length that was written as the prefix.
    pub closed spec fn declared(&self) -> int {
        self.len as int
    }

    /// How many payload bytes were added so far.
    pub closed spec fn written(&self) -> int {
        self.written as int
    }

    /// Add given byte slice; the bytes added never exceed the declared
    /// length.
    pub fn add(&mut self, buf: &[u8])
        requires
            old(self).written() + buf@.len() <= old(self).declared(),
        ensures
            final(self).bytes() == old(self).bytes() + buf@,
            final(self).written() == old(self).written() + buf@.len(),
            final(self).declared() == old(self).declared(),
            *final(final(self).sink()) == *final(old(self).sink()),
    {
        self.enc.extend_from_slice(buf);
        self.written = self.written + buf.len();
    }

    /// Ends the byte string.
    pub fn finish(self)
        requires
            self.written() == self.declared(),
        ensures
            (*final(self.sink()))@ == self.bytes(),
    {
    }
}

/// Scoped builder of a list: it wrote `l` when it was opened and writes the
/// closing `e` exactly once, when it is finished or dropped.
pub struct List<'a> {
    enc: Option<&'a mut Vec<u8>>,
}

impl<'a> List<'a> {
    /// The bytes of the underlying buffer so far.
    pub closed spec fn bytes(&self) -> Seq<u8> {
        self.enc.unwrap()@
    }

    /// The buffer this builder appends to.
    pub closed spec fn sink(&self) -> &'a mut Vec<u8> {
        self.enc.unwrap()
    }

    /// The list has not been finished yet.
    pub closed spec fn is_open(&self) -> bool {
        self.enc is Some
    }

    /// Create a new list.
    pub fn new(enc: &'a mut Vec<u8>) -> (r: List<'a>)
        ensures
            r.is_open(),
            r.bytes() == old(enc)@.push(108u8),
            (*final(r.sink()))@ == final(enc)@,
    {
        enc.push(108u8);
        List { enc: Some(enc) }
    }

    /// `Encode` a value in this list.
    pub fn add<E: Encode>(&mut self, value: E)
        requires
            old(self).is_open(),
        ensures
            final(self).is_open(),
            final(self).bytes() == old(self).bytes() + value.encoding(),
            *final(final(self).sink()) == *final(old(self).sink()),
    {
        if let Some(enc) = &mut self.enc {
            value.encode(*enc);
        }
    }

    /// Create a new `List` in this list.
    pub fn add_list(&mut self) -> (r: List<'_>)
        requires
            old(self).is_open(),
        ensures
            r.is_open(),
            final(self).is_open(),
            r.bytes() == old(self).bytes().push(108u8),
            (*final(r.sink()))@ == final(self).bytes(),
            *final(final(self).sink()) == *final(old(self).sink()),
    {
        match &mut self.enc {
            Some(enc) => enc.add_list(),
            None => List { enc: None },
        }
    }

    /// Create a new `Dict` in this list.
    pub fn add_dict(&mut self) -> (r: Dict<'_>)
        requires
            old(self).is_open(),
        ensures
            r.is_open(),
            final(self).is_open(),
            r.bytes() == old(self).bytes().push(100u8),
            (*final(r.sink()))@ == final(self).bytes(),
            *final(final(self).sink()) == *final(old(self).sink()),
    {
        match &mut self.enc {
            Some(enc) => enc.add_dict(),
            None => Dict { enc: None },
        }
    }

    /// Finish building this list.
    pub fn finish(self)
        requires
            self.is_open(),
        ensures
            (*final(self.sink()))@ == self.bytes().push(101u8),
    {
        let mut me = self;
        if let Some(enc) = me.enc.take() {
            enc.push(101u8);
        }
    }
}

impl<'a> Drop for List<'a> {
    /// Writes the closing `e` of a list that was not finished. A destructor
    /// must not unwind, which a verified `push` cannot promise, so this body
    /// is trusted. `finish` takes the buffer out before the builder drops,
    /// so the byte is written once either way.
    #[verifier::external_body]
    fn drop(&mut self)
        opens_invariants none
        no_unwind
    {
        if let Some(enc) = &mut self.enc {
            enc.push(b'e');
        }
    }
}

/// Scoped builder of a dictionary: it wrote `d` when it was opened and
/// writes the closing `e` exactly once, when it is finished or dropped.
/// Keys are written as given: their order and uniqueness are the caller's.
pub struct Dict<'a> {
    enc: Option<&'a mut Vec<u8>>,
}

impl<'a> Dict<'a> {
    /// The bytes of the underlying buffer so far.
    pub closed spec fn bytes(&self) -> Seq<u8> {
        self.enc.unwrap()@
    }

    /// The buffer this builder appends to.
    pub closed spec fn sink(&self) -> &'a mut Vec<u8> {
        self.enc.unwrap()
    }

    /// The dictionary has not been finished yet.
    pub closed spec fn is_open(&self) -> bool {
        self.enc is Some
    }

    /// Create a new dict.
    pub fn new(enc: &'a mut Vec<u8>) -> (r: Dict<'a>)
        ensures
            r.is_open(),
            r.bytes() == old(enc)@.push(100u8),
            (*final(r.sink()))@ == final(enc)@,
    {
        enc.push(100u8);
        Dict { enc: Some(enc) }
    }

    /// Create a new `List` for given key inside this dictionary.
    pub fn add_list(&mut self, key: &str) -> (r: List<'_>)
        requires
            old(self).is_open(),
        ensures
            r.is_open(),
            final(self).is_open(),
            r.bytes() == (old(self).bytes() + bytes_item(key.spec_bytes())).push(108u8),
            (*final(r.sink()))@ == final(self).bytes(),
            *final(final(self).sink()) == *final(old(self).sink()),
    {
        match &mut self.enc {
            Some(enc) => {
                enc.add_str(key);
                enc.add_list()
            },
            None => List { enc: None },
        }
    }

    /// Create a new `Dict` for given key inside this dictionary.
    pub fn add_dict(&mut self, key: &str) -> (r: Dict<'_>)
        requires
            old(self).is_open(),
        ensures
            r.is_open(),
            final(self).is_open(),
            r.bytes() == (old(self).bytes() + bytes_item(key.spec_bytes())).push(100u8),
            (*final(r.sink()))@ == final(self).bytes(),
            *final(final(self).sink()) == *final(old(self).sink()),
    {
        match &mut self.enc {
            Some(enc) => {
                enc.add_str(key);
                enc.add_dict()
            },
            None => Dict { enc: None },
        }
    }

    /// `Encode` the value for given key inside this dictionary.
    pub fn add<E: Encode>(&mut self, key: &str, value: E)
        requires
            old(self).is_open(),
        ensures
            final(self).is_open(),
            final(self).bytes() == old(self).bytes() + bytes_item(key.spec_bytes()) + value.encoding(),
            *final(final(self).sink()) == *final(old(self).sink()),
    {
        if let Some(enc) = &mut self.enc {
            enc.add_str(key);
            value.encode(*enc);
        }
    }

    /// Finish building this dict.
    pub fn finish(self)
        requires
            self.is_open(),
        ensures
            (*final(self.sink()))@ == self.bytes().push(101u8),
    {
        let mut me = self;
        if let Some(enc) = me.enc.take() {
            enc.push(101u8);
        }
    }
}

impl<'a> Drop for Dict<'a> {
    /// Writes the closing `e` of a dictionary that was not finished; trusted
    /// for the same reason as `List`'s destructor.
    #[verifier::external_body]
    fn drop(&mut self)
        opens_invariants none
        no_unwind
    {
        if let Some(enc) = &mut self.enc {
            enc.push(b'e');
        }
    }
}

/// A value that can write its own encoding into any `Encoder`.
pub trait Encode {
    /// The bytes this value encodes to. An implementation that writes
    /// anything states them here; the default is for values that write
    /// nothing.
    open spec fn encoding(&self) -> Seq<u8> {
        Seq::empty()
    }

    /// Feed this value into given `Encoder`.
    fn encode<E: Encoder>(&self, enc: &mut E)
        ensures
            final(enc).sink() == old(enc).sink() + self.encoding(),
    ;

    /// Encode this value into a vector of bytes.
    fn encode_to_vec(&self) -> (r: Vec<u8>)
        ensures
            r@ == self.encoding(),
    {
        let mut encoder: Vec<u8> = Vec::new();
        self.encode(&mut encoder);
        assert(encoder@ =~= self.encoding());
        encoder
    }
}

impl Encode for i64 {
    open spec fn encoding(&self) -> Seq<u8> {
        int_item(*self as int)
    }

    fn encode<E: Encoder>(&self, enc: &mut E) {
        enc.add_int(*self);
    }
}

/// The concatenated encodings of a sequence of values.
pub open spec fn items_encoding<T: Encode>(s: Seq<T>) -> Seq<u8>
    decreases s.len(),
{
    if s.len() == 0 {
        Seq::empty()
    } else {
        items_encoding(s.drop_last()) + s.last().encoding()
    }
}

/// Encodes each item of `items` into an open list builder.
fn add_items<T: Encode>(list: &mut List<'_>, items: &[T])
    requires
        old(list).is_open(),
    ensures
        final(list).is_open(),
        final(list).bytes() == old(list).bytes() + items_encoding(items@),
        *final(final(list).sink()) == *final(old(list).sink()),
{
    let mut i: usize = 0;
    while i < items.len()
        invariant
            i <= items@.len(),
            list.is_open(),
            list.bytes() == old(list).bytes() + items_encoding(items@.subrange(0, i as int)),
            *final(list.sink()) == *final(old(list).sink()),
        decreases items@.len() - i,
    {
        list.add(&items[i]);
        proof {
            let s = items@.subrange(0, i + 1);
            assert(s.drop_last() =~= items@.subrange(0, i as int));
            assert(list.bytes() =~= old(list).bytes() + items_encoding(s));
        }
        i = i + 1;
    }
    assert(items@.subrange(0, items@.len() as int) =~= items@);
}

impl<T: Encode> Encode for Vec<T> {
    open spec fn encoding(&self) -> Seq<u8> {
        seq![108u8] + items_encoding(self@) + seq![101u8]
    }

    fn encode<E: Encoder>(&self, enc: &mut E) {
        let mut list = enc.add_list();
        add_items(&mut list, self.as_slice());
        list.finish();
        assert(enc.sink() =~= old(enc).sink() + self.encoding());
    }
}

impl<T: Encode> Encode for [T] {
    open spec fn encoding(&self) -> Seq<u8> {
        seq![108u8] + items_encoding(self@) + seq![101u8]
    }

    fn encode<E: Encoder>(&self, enc: &mut E) {
        let mut list = enc.add_list();
        add_items(&mut list, self);
        list.finish();
        assert(enc.sink() =~= old(enc).sink() + self.encoding());
    }
}

impl<T: Encode> Encode for &T {
    open spec fn encoding(&self) -> Seq<u8> {
        (**self).encoding()
    }

    fn encode<E: Encoder>(&self, enc: &mut E) {
        (**self).encode(enc);
    }
}

impl<T: Encode> Encode for Box<T> {
    open spec fn encoding(&self) -> Seq<u8> {
        (**self).encoding()
    }

    fn encode<E: Encoder>(&self, enc: &mut E) {
        (**self).encode(enc);
    }
}

impl Encode for &[u8] {
    open spec fn encoding(&self) -> Seq<u8> {
        bytes_item(self@)
    }

    fn encode<E: Encoder>(&self, enc: &mut E) {
        enc.add_bytes(self);
    }
}

impl<const N: usize> Encode for [u8; N] {
    open spec fn encoding(&self) -> Seq<u8> {
        bytes_item(self@)
    }

    fn encode<E: Encoder>(&self, enc: &mut E) {
        enc.add_bytes(self.as_slice());
    }
}

impl Encode for &str {
    open spec fn encoding(&self) -> Seq<u8> {
        bytes_item(self.spec_bytes())
    }

    fn encode<E: Encoder>(&self, enc: &mut E) {
        enc.add_str(self);
    }
}

impl Encode for String {
    open spec fn encoding(&self) -> Seq<u8> {
        bytes_item(vstd::utf8::encode_utf8(self@))
    }

    fn encode<E: Encoder>(&self, enc: &mut E) {
        enc.add_str(self.as_str());
    }
}

} // verus!
