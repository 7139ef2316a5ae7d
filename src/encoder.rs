//! The encode surface: exact sizes and minimal-width bytes for scalars and
//! composites, with the round-trip laws.

use crate::decoder::{integer_value, nth_child, Decode};
use crate::error::Error;
use crate::header::{
    be_bytes, header_size, lemma_header_round_trip, spec_encode_header, write_be, write_header, MAJOR_ARRAY, MAJOR_BYTES,
    MAJOR_NEGATIVE, MAJOR_POSITIVE, MAJOR_STRING,
};
use crate::kind::Float;
use vstd::prelude::*;
use crate::value::{
    count_down, elem_len, elems_events, elems_len, item_events, item_len, lemma_elems_unfold,
    lemma_item_bounds, lemma_strict_then_lax, visit_events, visit_len,
    EventModel, MAX_DEPTH,
};
use vstd::string::StringSliceAdditionalSpecFns;
use vstd::utf8::encode_utf8_valid_utf8;

verus! {

/// `r` and `after` are what writing `e` at position `at` of `before` gives:
/// the bytes in place and their count, or `TooShort` where they do not fit.
pub open spec fn written(
    before: Seq<u8>,
    after: Seq<u8>,
    at: int,
    e: Seq<u8>,
    r: Result<usize, Error>,
) -> bool {
    if before.len() - at >= e.len() {
        r == Ok::<usize, Error>(e.len() as usize) && after == before.take(at) + e + before.skip(
            at + e.len(),
        )
    } else {
        r == Err::<usize, Error>(Error::TooShort)
    }
}

/// A value with a CBOR encoding.
pub trait Encode {
    /// The bytes that encode this value.
    spec fn encoding(&self) -> Seq<u8>;

    /// The number of bytes that encode this value.
    fn cbor_size(&self) -> (r: usize)
        requires
            self.encoding().len() <= usize::MAX,
        ensures
            r == self.encoding().len(),
    ;

    /// Writes the encoding at position `at` of `dest` and returns its length.
    fn cbor_encode_at(&self, dest: &mut [u8], at: usize) -> (r: Result<usize, Error>)
        requires
            self.encoding().len() <= usize::MAX,
            at <= old(dest)@.len(),
        ensures
            final(dest)@.len() == old(dest)@.len(),
            written(old(dest)@, final(dest)@, at as int, self.encoding(), r),
    ;

    /// Writes the encoding at the front of `dest` and returns its length;
    /// `TooShort` where `dest` is smaller than `cbor_size()`.
    fn cbor_encode(&self, dest: &mut [u8]) -> (r: Result<usize, Error>)
        requires
            self.encoding().len() <= usize::MAX,
        ensures
            final(dest)@.len() == old(dest)@.len(),
            written(old(dest)@, final(dest)@, 0, self.encoding(), r),
    {
        self.cbor_encode_at(dest, 0)
    }
}

/// The encoding of the integer `v`: its magnitude under the positive major
/// type, or the one's complement of a negative value under the negative one.
pub open spec fn int_encoding(v: int) -> Seq<u8> {
    if v >= 0 {
        spec_encode_header(MAJOR_POSITIVE, v as u64)
    } else {
        spec_encode_header(MAJOR_NEGATIVE, (-1 - v) as u64)
    }
}

/// The encodings of `s`, one after the other.
pub open spec fn encode_all<T: Encode>(s: Seq<T>) -> Seq<u8>
    decreases s.len(),
{
    if s.len() == 0 {
        Seq::empty()
    } else {
        encode_all(s.drop_last()) + s.last().encoding()
    }
}

proof fn lemma_encode_all_step<T: Encode>(s: Seq<T>, i: int)
    requires
        0 <= i < s.len(),
    ensures
        encode_all(s.take(i + 1)) == encode_all(s.take(i)) + s[i].encoding(),
{
    assert(s.take(i + 1).drop_last() =~= s.take(i));
}

proof fn lemma_encode_all_prefix<T: Encode>(s: Seq<T>, i: int)
    requires
        0 <= i <= s.len(),
    ensures
        encode_all(s.take(i)).len() <= encode_all(s).len(),
    decreases s.len() - i,
{
    if i < s.len() {
        lemma_encode_all_step(s, i);
        lemma_encode_all_prefix(s, i + 1);
    } else {
        assert(s.take(i) =~= s);
    }
}

/// Copies `src` to position `at` of `dest`.
fn write_bytes(dest: &mut [u8], at: usize, src: &[u8])
    requires
        at + src@.len() <= old(dest)@.len(),
    ensures
        final(dest)@ == old(dest)@.take(at as int) + src@ + old(dest)@.skip(at + src@.len()),
{
    let len = dest.len();
    let mut i: usize = 0;
    while i < src.len()
        invariant
            at + src@.len() <= len,
            dest@.len() == len,
            i <= src@.len(),
            forall|j: int| 0 <= j < i ==> dest@[at + j] == src@[j],
            forall|j: int| 0 <= j < at ==> dest@[j] == old(dest)@[j],
            forall|j: int| at + src@.len() <= j < len ==> dest@[j] == old(dest)@[j],
        decreases src@.len() - i,
    {
        dest[at + i] = src[i];
        i = i + 1;
    }
    assert(dest@ =~= old(dest)@.take(at as int) + src@ + old(dest)@.skip(at + src@.len()));
}

/// Writes the integer `v` at position `at` of `dest`.
fn write_int(dest: &mut [u8], at: usize, v: i128) -> (r: Result<usize, Error>)
    requires
        i64::MIN <= v <= u64::MAX,
        at <= old(dest)@.len(),
    ensures
        final(dest)@.len() == old(dest)@.len(),
        written(old(dest)@, final(dest)@, at as int, int_encoding(v as int), r),
{
    if v >= 0 {
        write_header(dest, at, MAJOR_POSITIVE, v as u64)
    } else {
        write_header(dest, at, MAJOR_NEGATIVE, (-1 - v) as u64)
    }
}

/// The length of the encoding of the integer `v`.
fn int_size(v: i128) -> (r: usize)
    requires
        i64::MIN <= v <= u64::MAX,
    ensures
        r == int_encoding(v as int).len(),
{
    if v >= 0 {
        header_size(v as u64)
    } else {
        header_size((-1 - v) as u64)
    }
}

impl Encode for u8 {
    open spec fn encoding(&self) -> Seq<u8> {
        int_encoding(*self as int)
    }

    fn cbor_size(&self) -> (r: usize) {
        int_size(*self as i128)
    }

    fn cbor_encode_at(&self, dest: &mut [u8], at: usize) -> (r: Result<usize, Error>) {
        write_int(dest, at, *self as i128)
    }
}

impl Encode for u16 {
    open spec fn encoding(&self) -> Seq<u8> {
        int_encoding(*self as int)
    }

    fn cbor_size(&self) -> (r: usize) {
        int_size(*self as i128)
    }

    fn cbor_encode_at(&self, dest: &mut [u8], at: usize) -> (r: Result<usize, Error>) {
        write_int(dest, at, *self as i128)
    }
}

impl Encode for u32 {
    open spec fn encoding(&self) -> Seq<u8> {
        int_encoding(*self as int)
    }

    fn cbor_size(&self) -> (r: usize) {
        int_size(*self as i128)
    }

    fn cbor_encode_at(&self, dest: &mut [u8], at: usize) -> (r: Result<usize, Error>) {
        write_int(dest, at, *self as i128)
    }
}

impl Encode for u64 {
    open spec fn encoding(&self) -> Seq<u8> {
        int_encoding(*self as int)
    }

    fn cbor_size(&self) -> (r: usize) {
        int_size(*self as i128)
    }

    fn cbor_encode_at(&self, dest: &mut [u8], at: usize) -> (r: Result<usize, Error>) {
        write_int(dest, at, *self as i128)
    }
}

impl Encode for i8 {
    open spec fn encoding(&self) -> Seq<u8> {
        int_encoding(*self as int)
    }

    fn cbor_size(&self) -> (r: usize) {
        int_size(*self as i128)
    }

    fn cbor_encode_at(&self, dest: &mut [u8], at: usize) -> (r: Result<usize, Error>) {
        write_int(dest, at, *self as i128)
    }
}

impl Encode for i16 {
    open spec fn encoding(&self) -> Seq<u8> {
        int_encoding(*self as int)
    }

    fn cbor_size(&self) -> (r: usize) {
        int_size(*self as i128)
    }

    fn cbor_encode_at(&self, dest: &mut [u8], at: usize) -> (r: Result<usize, Error>) {
        write_int(dest, at, *self as i128)
    }
}

impl Encode for i32 {
    open spec fn encoding(&self) -> Seq<u8> {
        int_encoding(*self as int)
    }

    fn cbor_size(&self) -> (r: usize) {
        int_size(*self as i128)
    }

    fn cbor_encode_at(&self, dest: &mut [u8], at: usize) -> (r: Result<usize, Error>) {
        write_int(dest, at, *self as i128)
    }
}

impl Encode for i64 {
    open spec fn encoding(&self) -> Seq<u8> {
        int_encoding(*self as int)
    }

    fn cbor_size(&self) -> (r: usize) {
        int_size(*self as i128)
    }

    fn cbor_encode_at(&self, dest: &mut [u8], at: usize) -> (r: Result<usize, Error>) {
        write_int(dest, at, *self as i128)
    }
}

/// Writes a header of major type `major` for a payload, then the payload.
fn write_string(dest: &mut [u8], at: usize, major: u8, payload: &[u8]) -> (r: Result<usize, Error>)
    requires
        major < 8,
        at <= old(dest)@.len(),
        spec_encode_header(major, payload@.len() as u64).len() + payload@.len() <= usize::MAX,
    ensures
        final(dest)@.len() == old(dest)@.len(),
        written(
            old(dest)@,
            final(dest)@,
            at as int,
            spec_encode_header(major, payload@.len() as u64) + payload@,
            r,
        ),
{
    let h = write_header(dest, at, major, payload.len() as u64)?;
    if dest.len() - at - h < payload.len() {
        return Err(Error::TooShort);
    }
    write_bytes(dest, at + h, payload);
    proof {
        let e = spec_encode_header(major, payload@.len() as u64) + payload@;
        assert(final(dest)@ =~= old(dest)@.take(at as int) + e + old(dest)@.skip(at + e.len()));
    }
    Ok(h + payload.len())
}

impl<'a> Encode for &'a str {
    open spec fn encoding(&self) -> Seq<u8> {
        spec_encode_header(MAJOR_STRING, self.spec_bytes().len() as u64) + self.spec_bytes()
    }

    fn cbor_size(&self) -> (r: usize) {
        header_size(self.len() as u64) + self.len()
    }

    fn cbor_encode_at(&self, dest: &mut [u8], at: usize) -> (r: Result<usize, Error>) {
        write_string(dest, at, MAJOR_STRING, self.as_bytes())
    }
}

impl<'a> Encode for &'a [u8] {
    open spec fn encoding(&self) -> Seq<u8> {
        spec_encode_header(MAJOR_BYTES, self@.len() as u64) + self@
    }

    fn cbor_size(&self) -> (r: usize) {
        header_size(self.len() as u64) + self.len()
    }

    fn cbor_encode_at(&self, dest: &mut [u8], at: usize) -> (r: Result<usize, Error>) {
        write_string(dest, at, MAJOR_BYTES, self)
    }
}

impl Encode for Float {
    open spec fn encoding(&self) -> Seq<u8> {
        match *self {
            Float::F32(bits) => seq![0xfau8] + be_bytes(bits as nat, 4),
            Float::F64(bits) => seq![0xfbu8] + be_bytes(bits as nat, 8),
        }
    }

    fn cbor_size(&self) -> (r: usize) {
        match self {
            Float::F32(_) => 5,
            Float::F64(_) => 9,
        }
    }

    fn cbor_encode_at(&self, dest: &mut [u8], at: usize) -> (r: Result<usize, Error>) {
        let (first, bits, w): (u8, u64, usize) = match self {
            Float::F32(b) => (0xfa, *b as u64, 4),
            Float::F64(b) => (0xfb, *b, 8),
        };
        if dest.len() - at < w + 1 {
            return Err(Error::TooShort);
        }
        dest[at] = first;
        write_be(dest, at + 1, bits, w);
        proof {
            assert(final(dest)@ =~= old(dest)@.take(at as int) + self.encoding() + old(dest)@.skip(
                at + w + 1,
            ));
        }
        Ok(w + 1)
    }
}

/// Writes the single byte `b`.
fn write_byte(dest: &mut [u8], at: usize, b: u8) -> (r: Result<usize, Error>)
    requires
        at <= old(dest)@.len(),
    ensures
        final(dest)@.len() == old(dest)@.len(),
        written(old(dest)@, final(dest)@, at as int, seq![b], r),
{
    if dest.len() - at < 1 {
        return Err(Error::TooShort);
    }
    dest[at] = b;
    assert(dest@ =~= old(dest)@.take(at as int) + seq![b] + old(dest)@.skip(at + 1));
    Ok(1)
}

impl Encode for bool {
    open spec fn encoding(&self) -> Seq<u8> {
        if *self {
            seq![0xf5u8]
        } else {
            seq![0xf4u8]
        }
    }

    fn cbor_size(&self) -> (r: usize) {
        1
    }

    fn cbor_encode_at(&self, dest: &mut [u8], at: usize) -> (r: Result<usize, Error>) {
        write_byte(dest, at, if *self { 0xf5 } else { 0xf4 })
    }
}

impl Encode for () {
    open spec fn encoding(&self) -> Seq<u8> {
        seq![0xf6u8]
    }

    fn cbor_size(&self) -> (r: usize) {
        1
    }

    fn cbor_encode_at(&self, dest: &mut [u8], at: usize) -> (r: Result<usize, Error>) {
        write_byte(dest, at, 0xf6)
    }
}

impl<T: Encode> Encode for Option<T> {
    open spec fn encoding(&self) -> Seq<u8> {
        match self {
            Some(v) => v.encoding(),
            None => seq![0xf6u8],
        }
    }

    fn cbor_size(&self) -> (r: usize) {
        match self {
            Some(v) => v.cbor_size(),
            None => 1,
        }
    }

    fn cbor_encode_at(&self, dest: &mut [u8], at: usize) -> (r: Result<usize, Error>) {
        match self {
            Some(v) => v.cbor_encode_at(dest, at),
            None => write_byte(dest, at, 0xf6),
        }
    }
}

/// The encoding of an array holding `items`.
pub open spec fn array_encoding<T: Encode>(items: Seq<T>) -> Seq<u8> {
    spec_encode_header(MAJOR_ARRAY, items.len() as u64) + encode_all(items)
}

/// The number of bytes that encode an array holding `items`.
pub fn array_cbor_size<T: Encode>(items: &[T]) -> (r: usize)
    requires
        array_encoding(items@).len() <= usize::MAX,
    ensures
        r == array_encoding(items@).len(),
{
    let h = header_size(items.len() as u64);
    let mut size = h;
    let mut i: usize = 0;
    proof {
        assert(items@.take(0) =~= Seq::<T>::empty());
    }
    while i < items.len()
        invariant
            i <= items@.len(),
            array_encoding(items@).len() <= usize::MAX,
            h == spec_encode_header(MAJOR_ARRAY, items@.len() as u64).len(),
            size == h + encode_all(items@.take(i as int)).len(),
        decreases items@.len() - i,
    {
        proof {
            lemma_encode_all_step(items@, i as int);
            lemma_encode_all_prefix(items@, i + 1);
        }
        size = size + items[i].cbor_size();
        i = i + 1;
    }
    proof {
        assert(items@.take(i as int) =~= items@);
    }
    size
}

/// Writes an array holding `items` at position `at` of `dest` and returns
/// its length.
pub fn array_cbor_encode<T: Encode>(items: &[T], dest: &mut [u8], at: usize) -> (r: Result<
    usize,
    Error,
>)
    requires
        array_encoding(items@).len() <= usize::MAX,
        at <= old(dest)@.len(),
    ensures
        final(dest)@.len() == old(dest)@.len(),
        written(old(dest)@, final(dest)@, at as int, array_encoding(items@), r),
{
    let ghost total = array_encoding(items@);
    let ghost hdr = spec_encode_header(MAJOR_ARRAY, items@.len() as u64);
    proof {
        lemma_encode_all_prefix(items@, 0);
    }
    let len = dest.len();
    let h = write_header(dest, at, MAJOR_ARRAY, items.len() as u64)?;
    let mut pos = at + h;
    let mut i: usize = 0;
    proof {
        assert(items@.take(0) =~= Seq::<T>::empty());
        assert(dest@ =~= old(dest)@.take(at as int) + hdr + encode_all(items@.take(0)) + old(
            dest,
        )@.skip(pos as int));
    }
    while i < items.len()
        invariant
            i <= items@.len(),
            at <= pos <= dest@.len(),
            dest@.len() == old(dest)@.len(),
            dest@.len() == len,
            total == array_encoding(items@),
            total.len() <= usize::MAX,
            hdr == spec_encode_header(MAJOR_ARRAY, items@.len() as u64),
            pos == at + hdr.len() + encode_all(items@.take(i as int)).len(),
            dest@ == old(dest)@.take(at as int) + hdr + encode_all(items@.take(i as int)) + old(
                dest,
            )@.skip(pos as int),
        decreases items@.len() - i,
    {
        proof {
            lemma_encode_all_step(items@, i as int);
            lemma_encode_all_prefix(items@, i + 1);
        }
        let c = items[i].cbor_encode_at(dest, pos);
        match c {
            Err(e) => {
                return Err(e);
            },
            Ok(c) => {
                proof {
                    assert(dest@ =~= old(dest)@.take(at as int) + hdr + encode_all(
                        items@.take(i + 1),
                    ) + old(dest)@.skip(pos + c));
                }
                pos = pos + c;
            },
        }
        i = i + 1;
    }
    proof {
        assert(items@.take(i as int) =~= items@);
        assert(dest@ =~= old(dest)@.take(at as int) + total + old(dest)@.skip(at + total.len()));
    }
    Ok(pos - at)
}

impl<T: Encode> Encode for Vec<T> {
    open spec fn encoding(&self) -> Seq<u8> {
        array_encoding(self@)
    }

    fn cbor_size(&self) -> (r: usize) {
        array_cbor_size(self.as_slice())
    }

    fn cbor_encode_at(&self, dest: &mut [u8], at: usize) -> (r: Result<usize, Error>) {
        array_cbor_encode(self.as_slice(), dest, at)
    }
}

impl<T: Encode, const N: usize> Encode for [T; N] {
    open spec fn encoding(&self) -> Seq<u8> {
        array_encoding(self@)
    }

    fn cbor_size(&self) -> (r: usize) {
        array_cbor_size(self.as_slice())
    }

    fn cbor_encode_at(&self, dest: &mut [u8], at: usize) -> (r: Result<usize, Error>) {
        array_cbor_encode(self.as_slice(), dest, at)
    }
}

impl<A: Encode, B: Encode> Encode for (A, B) {
    open spec fn encoding(&self) -> Seq<u8> {
        spec_encode_header(MAJOR_ARRAY, 2) + self.0.encoding() + self.1.encoding()
    }

    fn cbor_size(&self) -> (r: usize) {
        header_size(2) + self.0.cbor_size() + self.1.cbor_size()
    }

    fn cbor_encode_at(&self, dest: &mut [u8], at: usize) -> (r: Result<usize, Error>) {
        let ghost hdr = spec_encode_header(MAJOR_ARRAY, 2);
        let len = dest.len();
        let h = write_header(dest, at, MAJOR_ARRAY, 2)?;
        let a = self.0.cbor_encode_at(dest, at + h)?;
        proof {
            assert(dest@ =~= old(dest)@.take(at as int) + hdr + self.0.encoding() + old(
                dest,
            )@.skip(at + h + a));
        }
        let b = self.1.cbor_encode_at(dest, at + h + a)?;
        proof {
            assert(dest@ =~= old(dest)@.take(at as int) + self.encoding() + old(dest)@.skip(
                at + h + a + b,
            ));
        }
        Ok(h + a + b)
    }
}

/// An integer of any supported width reads back as the same integer, both as
/// a number and as one value of a visit, whatever bytes follow it; this takes
/// in the most negative one, whose one's complement is the largest magnitude.
pub proof fn lemma_int_round_trip(v: int, rest: Seq<u8>)
    requires
        i64::MIN <= v <= u64::MAX,
    ensures
        integer_value(int_encoding(v) + rest) == Ok::<(int, nat), Error>(
            (v, int_encoding(v).len()),
        ),
        visit_len(int_encoding(v) + rest) == Ok::<nat, Error>(int_encoding(v).len()),
        visit_events(int_encoding(v) + rest) == seq![EventModel::Integer(v as i128)],
{
    if v >= 0 {
        lemma_header_round_trip(MAJOR_POSITIVE, v as u64, rest);
    } else {
        lemma_header_round_trip(MAJOR_NEGATIVE, (-1 - v) as u64, rest);
    }
}

/// A 32-bit integer reads back through the typed reader as itself, and the
/// cursor moves exactly past its encoding.
pub proof fn lemma_i32_round_trip(v: i32, rest: Seq<u8>)
    ensures
        <i32 as Decode>::decoded(v.encoding() + rest, Ok(v), rest),
{
    lemma_int_round_trip(v as int, rest);
    assert((v.encoding() + rest).skip(v.encoding().len() as int) =~= rest);
}

/// A text string reads back as the same text, by the typed reader and by a
/// visit, and the cursor moves exactly past its encoding.
pub proof fn lemma_str_round_trip<'a>(s: &'a str, rest: Seq<u8>)
    requires
        s.spec_bytes().len() <= u64::MAX,
    ensures
        <&'a str as Decode<'a>>::decoded(s.encoding() + rest, Ok(s), rest),
        visit_len(s.encoding() + rest) == Ok::<nat, Error>(s.encoding().len()),
        visit_events(s.encoding() + rest) == seq![EventModel::Text(s.spec_bytes())],
{
    let p = s.spec_bytes();
    let h = spec_encode_header(MAJOR_STRING, p.len() as u64);
    let b = s.encoding() + rest;
    assert(b =~= h + (p + rest));
    lemma_header_round_trip(MAJOR_STRING, p.len() as u64, p + rest);
    encode_utf8_valid_utf8(s@);
    assert(b.subrange(h.len() as int, (h.len() + p.len()) as int) =~= p);
    assert(b.skip((h.len() + p.len()) as int) =~= rest);
    assert(b.skip(h.len() as int).take(p.len() as int) =~= p);
}

/// A byte string reads back as the same bytes, by the typed reader and by a
/// visit, and the cursor moves exactly past its encoding.
pub proof fn lemma_bytes_round_trip<'a>(v: &'a [u8], rest: Seq<u8>)
    requires
        v@.len() <= u64::MAX,
    ensures
        <&'a [u8] as Decode<'a>>::decoded(v.encoding() + rest, Ok(v), rest),
        visit_len(v.encoding() + rest) == Ok::<nat, Error>(v.encoding().len()),
        visit_events(v.encoding() + rest) == seq![EventModel::Bytes(v@)],
{
    let p = v@;
    let h = spec_encode_header(MAJOR_BYTES, p.len() as u64);
    let b = v.encoding() + rest;
    assert(b =~= h + (p + rest));
    lemma_header_round_trip(MAJOR_BYTES, p.len() as u64, p + rest);
    assert(b.subrange(h.len() as int, (h.len() + p.len()) as int) =~= p);
    assert(b.skip((h.len() + p.len()) as int) =~= rest);
    assert(b.skip(h.len() as int).take(p.len() as int) =~= p);
}

/// Every encoding of `v` reads back, at nesting `depth`, as one visited value
/// of exactly its length, whatever bytes follow it.
pub open spec fn reads_back<T: Encode>(v: T, depth: nat) -> bool {
    forall|rest: Seq<u8>| #[trigger]
        item_len(v.encoding() + rest, true, depth) == Ok::<nat, Error>(v.encoding().len())
}

proof fn lemma_encode_all_front<T: Encode>(s: Seq<T>)
    requires
        s.len() > 0,
    ensures
        encode_all(s) == s[0].encoding() + encode_all(s.skip(1)),
    decreases s.len(),
{
    if s.len() == 1 {
        assert(s.drop_last() =~= Seq::<T>::empty());
        assert(s.skip(1) =~= Seq::<T>::empty());
        assert(encode_all(s) =~= s[0].encoding() + encode_all(s.skip(1)));
    } else {
        lemma_encode_all_front(s.drop_last());
        assert(s.skip(1).drop_last() =~= s.drop_last().skip(1));
        assert(s.drop_last()[0] == s[0]);
        assert(encode_all(s) =~= s[0].encoding() + encode_all(s.skip(1)));
    }
}

proof fn lemma_children_read_back<T: Encode>(s: Seq<T>, rest: Seq<u8>, depth: nat)
    requires
        forall|i: int| 0 <= i < s.len() ==> reads_back(#[trigger] s[i], depth),
        s.len() <= u64::MAX,
    ensures
        elems_len(encode_all(s) + rest, Some(s.len() as u64), false, true, depth) == Ok::<
            nat,
            Error,
        >(encode_all(s).len()),
    decreases s.len(),
{
    if s.len() > 0 {
        lemma_encode_all_front(s);
        let e0 = s[0].encoding();
        let tail = s.skip(1);
        assert forall|i: int| 0 <= i < tail.len() implies reads_back(#[trigger] tail[i], depth) by {
            assert(tail[i] == s[i + 1]);
        }
        lemma_children_read_back(tail, rest, depth);
        let b = encode_all(s) + rest;
        assert(b =~= e0 + (encode_all(tail) + rest));
        assert(reads_back(s[0], depth));
        assert(item_len(e0 + (encode_all(tail) + rest), true, depth) == Ok::<nat, Error>(e0.len()));
        lemma_item_bounds(b, true, depth);
        assert(b.skip(e0.len() as int) =~= encode_all(tail) + rest);
        assert(b.skip(e0.len() as int).skip(0) =~= encode_all(tail) + rest);
        assert(count_down(Some(s.len() as u64)) == Some(tail.len() as u64));
    } else {
        assert(encode_all(s) =~= Seq::<u8>::empty());
    }
}

/// An array whose elements each read back as one value reads back as one
/// value of its whole length, one level of nesting deeper.
pub proof fn lemma_array_reads_back<T: Encode>(items: Seq<T>, depth: nat)
    requires
        forall|i: int| 0 <= i < items.len() ==> reads_back(#[trigger] items[i], depth),
        items.len() <= u64::MAX,
    ensures
        forall|rest: Seq<u8>| #[trigger]
            item_len(array_encoding(items) + rest, true, depth + 1) == Ok::<nat, Error>(
                array_encoding(items).len(),
            ),
{
    assert forall|rest: Seq<u8>| #[trigger]
        item_len(array_encoding(items) + rest, true, depth + 1) == Ok::<nat, Error>(
            array_encoding(items).len(),
        ) by {
        let h = spec_encode_header(MAJOR_ARRAY, items.len() as u64);
        let b = array_encoding(items) + rest;
        assert(b =~= h + (encode_all(items) + rest));
        lemma_header_round_trip(MAJOR_ARRAY, items.len() as u64, encode_all(items) + rest);
        assert(b.skip(h.len() as int) =~= encode_all(items) + rest);
        lemma_children_read_back(items, rest, depth);
    }
}

/// A pair whose halves each read back as one value reads back as one value
/// of its whole length, one level of nesting deeper.
pub proof fn lemma_pair_reads_back<A: Encode, B: Encode>(a: A, b: B, depth: nat)
    requires
        reads_back(a, depth),
        reads_back(b, depth),
    ensures
        reads_back((a, b), depth + 1),
{
    assert forall|rest: Seq<u8>| #[trigger]
        item_len((a, b).encoding() + rest, true, depth + 1) == Ok::<nat, Error>(
            (a, b).encoding().len(),
        ) by {
        let h = spec_encode_header(MAJOR_ARRAY, 2);
        let ea = a.encoding();
        let eb = b.encoding();
        let x = (a, b).encoding() + rest;
        assert(x =~= h + (ea + (eb + rest)));
        lemma_header_round_trip(MAJOR_ARRAY, 2, ea + (eb + rest));
        assert(x.skip(h.len() as int) =~= ea + (eb + rest));
        let t1 = ea + (eb + rest);
        assert(item_len(t1, true, depth) == Ok::<nat, Error>(ea.len()));
        assert(item_len(eb + rest, true, depth) == Ok::<nat, Error>(eb.len()));
        lemma_item_bounds(t1, true, depth);
        lemma_item_bounds(eb + rest, true, depth);
        assert(t1.skip(ea.len() as int).skip(0) =~= eb + rest);
        assert((eb + rest).skip(eb.len() as int).skip(0) =~= rest);
        assert(elems_len(rest, Some(0u64), false, true, depth) == Ok::<nat, Error>(0));
        assert(elems_len(eb + rest, Some(1u64), false, true, depth) == Ok::<nat, Error>(eb.len()));
        assert(elems_len(t1, Some(2u64), false, true, depth) == Ok::<nat, Error>(ea.len() + eb.len()));
    }
}

/// Integers, booleans and the null value read back as one value at any depth.
pub proof fn lemma_scalars_read_back(v: i64, u: u64, flag: bool, depth: nat)
    ensures
        reads_back(v, depth),
        reads_back(u, depth),
        reads_back(flag, depth),
        reads_back((), depth),
{
    assert forall|rest: Seq<u8>| #[trigger]
        item_len(v.encoding() + rest, true, depth) == Ok::<nat, Error>(v.encoding().len()) by {
        if v >= 0 {
            lemma_header_round_trip(MAJOR_POSITIVE, v as u64, rest);
        } else {
            lemma_header_round_trip(MAJOR_NEGATIVE, (-1 - v) as u64, rest);
        }
    }
    assert forall|rest: Seq<u8>| #[trigger]
        item_len(u.encoding() + rest, true, depth) == Ok::<nat, Error>(u.encoding().len()) by {
        lemma_header_round_trip(MAJOR_POSITIVE, u, rest);
    }
    assert forall|rest: Seq<u8>| #[trigger]
        item_len(flag.encoding() + rest, true, depth) == Ok::<nat, Error>(1) by {
        let x = flag.encoding() + rest;
        assert(x[0] / 32 == 7 && (x[0] % 32 == 20 || x[0] % 32 == 21));
    }
    assert forall|rest: Seq<u8>| #[trigger]
        item_len(().encoding() + rest, true, depth) == Ok::<nat, Error>(1) by {
        let x = ().encoding() + rest;
        assert(x[0] / 32 == 7 && x[0] % 32 == 22);
    }
}

/// Floats of either width, and optional values, read back as one value at
/// any depth; an absent value reads back as the null value does.
pub proof fn lemma_float_and_option_read_back<T: Encode>(f: Float, v: Option<T>, depth: nat)
    requires
        v matches Some(inner) ==> reads_back(inner, depth),
    ensures
        reads_back(f, depth),
        reads_back(v, depth),
{
    assert forall|rest: Seq<u8>| #[trigger]
        item_len(f.encoding() + rest, true, depth) == Ok::<nat, Error>(f.encoding().len()) by {
        let x = f.encoding() + rest;
        match f {
            Float::F32(_) => {
                assert(x[0] / 32 == 7 && x[0] % 32 == 26);
            },
            Float::F64(_) => {
                assert(x[0] / 32 == 7 && x[0] % 32 == 27);
            },
        }
    }
    assert forall|rest: Seq<u8>| #[trigger]
        item_len(v.encoding() + rest, true, depth) == Ok::<nat, Error>(v.encoding().len()) by {
        match v {
            Some(inner) => {
                assert(item_len(inner.encoding() + rest, true, depth) == Ok::<nat, Error>(
                    inner.encoding().len(),
                ));
            },
            None => {
                let x = v.encoding() + rest;
                assert(x[0] / 32 == 7 && x[0] % 32 == 22);
            },
        }
    }
}

/// In the encodings of `items` laid end to end, the child at position `i` is
/// exactly the encoding of `items[i]`: an array's elements read back in order.
pub proof fn lemma_children_in_order<T: Encode>(items: Seq<T>, i: int, rest: Seq<u8>)
    requires
        forall|j: int| 0 <= j < items.len() ==> reads_back(#[trigger] items[j], MAX_DEPTH as nat),
        0 <= i < items.len(),
    ensures
        nth_child(encode_all(items) + rest, i as nat) == Some(
            (encode_all(items.take(i)).len() as int, items[i].encoding().len()),
        ),
        (encode_all(items) + rest).subrange(
            encode_all(items.take(i)).len() as int,
            (encode_all(items.take(i)).len() + items[i].encoding().len()) as int,
        ) == items[i].encoding(),
    decreases i,
{
    lemma_encode_all_front(items);
    let e0 = items[0].encoding();
    let tail = items.skip(1);
    let b = encode_all(items) + rest;
    assert(b =~= e0 + (encode_all(tail) + rest));
    assert(reads_back(items[0], MAX_DEPTH as nat));
    assert(item_len(e0 + (encode_all(tail) + rest), true, MAX_DEPTH as nat) == Ok::<nat, Error>(
        e0.len(),
    ));
    lemma_strict_then_lax(b, MAX_DEPTH as nat);
    lemma_item_bounds(b, true, MAX_DEPTH as nat);
    if i == 0 {
        assert(items.take(0) =~= Seq::<T>::empty());
        assert(encode_all(items.take(0)) =~= Seq::<u8>::empty());
        assert(b.subrange(0, e0.len() as int) =~= e0);
    } else {
        assert forall|j: int| 0 <= j < tail.len() implies reads_back(
            #[trigger] tail[j],
            MAX_DEPTH as nat,
        ) by {
            assert(tail[j] == items[j + 1]);
        }
        lemma_children_in_order(tail, i - 1, rest);
        assert(b.skip(e0.len() as int) =~= encode_all(tail) + rest);
        lemma_encode_all_front(items.take(i));
        assert(items.take(i).skip(1) =~= tail.take(i - 1));
        assert(items.take(i)[0] == items[0]);
        assert(tail[i - 1] == items[i]);
        lemma_encode_all_step(tail, i - 1);
        lemma_encode_all_prefix(tail, i);
        let off = encode_all(tail.take(i - 1)).len();
        let l = items[i].encoding().len();
        assert(b.subrange((e0.len() + off) as int, (e0.len() + off + l) as int) =~= (encode_all(
            tail,
        ) + rest).subrange(off as int, (off + l) as int));
    }
}

/// The callbacks for the integers `items` as array elements: each integer,
/// with a separator before every one but the `first`.
pub open spec fn uint_elems_events(items: Seq<u64>, first: bool) -> Seq<EventModel>
    decreases items.len(),
{
    if items.len() == 0 {
        Seq::empty()
    } else {
        let sep: Seq<EventModel> = if first {
            Seq::empty()
        } else {
            seq![EventModel::ArraySeparator]
        };
        sep + seq![EventModel::Integer(items[0] as i128)] + uint_elems_events(items.skip(1), false)
    }
}

proof fn lemma_uint_children_events(items: Seq<u64>, rest: Seq<u8>, depth: nat, first: bool)
    requires
        items.len() <= u64::MAX,
    ensures
        elems_events(encode_all(items) + rest, Some(items.len() as u64), false, depth, first)
            == uint_elems_events(items, first),
    decreases items.len(),
{
    if items.len() > 0 {
        lemma_encode_all_front(items);
        let e0 = items[0].encoding();
        let tail = items.skip(1);
        let b = encode_all(items) + rest;
        let t = encode_all(tail) + rest;
        assert(b =~= e0 + t);
        lemma_header_round_trip(MAJOR_POSITIVE, items[0], t);
        lemma_item_bounds(b, true, depth);
        lemma_elems_unfold(b, Some(items.len() as u64), false, depth, first);
        assert(elem_len(b, false, depth) == Ok::<nat, Error>(e0.len()));
        assert(item_events(b, depth) =~= seq![EventModel::Integer(items[0] as i128)]);
        assert(b.skip(e0.len() as int) =~= t);
        lemma_uint_children_events(tail, rest, depth, false);
    }
}

/// A list of unsigned integers visits as the start of an array of that many
/// elements, each integer in order with a separator between two of them, and
/// the end of the array; its length is that of its encoding.
pub proof fn lemma_uint_array_events(items: Seq<u64>, rest: Seq<u8>)
    requires
        items.len() <= u64::MAX,
    ensures
        visit_events(array_encoding(items) + rest) == seq![
            EventModel::ArrayStart(Some(items.len() as u64)),
        ] + uint_elems_events(items, true) + seq![EventModel::ArrayEnd],
        visit_len(array_encoding(items) + rest) == Ok::<nat, Error>(array_encoding(items).len()),
{
    let d = (MAX_DEPTH - 1) as nat;
    assert forall|i: int| 0 <= i < items.len() implies reads_back(#[trigger] items[i], d) by {
        lemma_scalars_read_back(0, items[i], true, d);
    }
    lemma_array_reads_back(items, d);
    assert(item_len(array_encoding(items) + rest, true, d + 1) == Ok::<nat, Error>(
        array_encoding(items).len(),
    ));
    let h = spec_encode_header(MAJOR_ARRAY, items.len() as u64);
    let b = array_encoding(items) + rest;
    assert(b =~= h + (encode_all(items) + rest));
    lemma_header_round_trip(MAJOR_ARRAY, items.len() as u64, encode_all(items) + rest);
    assert(b.skip(h.len() as int) =~= encode_all(items) + rest);
    lemma_children_read_back(items, rest, d);
    lemma_uint_children_events(items, rest, d, true);
}

} // verus!
