//! The decode surface: visiting, navigation, the element iterator, map and
//! array accessors, and typed decode.

use crate::error::Error;
use crate::header::{
    decode_header, spec_header, lemma_be_value_bound, lemma_pow256_values, BREAK, MAJOR_ARRAY, MAJOR_BYTES,
    MAJOR_MAP, MAJOR_NEGATIVE, MAJOR_POSITIVE, MAJOR_STRING, MAJOR_TAG, SIMPLE_FALSE, SIMPLE_NULL,
    SIMPLE_TRUE,
};
use crate::kind::{kind_of, kind_of_byte, Float, Kind};
use crate::value::{
    agrees, count_down, elem_events, elem_len, elems_events, elems_len, item_events, item_len,
    lemma_elems_at_end, lemma_elems_unfold, then_if_ok, visit_events,
    EventModel, lemma_item_bounds, shift, value_len, visit_len,
    MAX_DEPTH,
};
use vstd::prelude::*;
use vstd::string::StringSliceAdditionalSpecFns;
use vstd::utf8::valid_utf8;

verus! {

/// One encoded value: a view of bytes borrowed from the caller, starting with
/// the value's first byte.
#[derive(Clone, Copy)]
pub struct CBOR<'a>(pub &'a [u8]);

impl<'a> View for CBOR<'a> {
    type V = Seq<u8>;

    open spec fn view(&self) -> Seq<u8> {
        self.0@
    }
}

/// One callback of a visit, with what it is handed. Strings and byte strings
/// are borrowed from the encoded input.
#[derive(Debug, Clone, Copy, PartialEq, Eq)]
pub enum Event<'a> {
    Integer(i128),
    Bytes(&'a [u8]),
    Text(&'a str),
    Null,
    Undefined,
    Bool(bool),
    Float(Float),
    Simple(u64),
    /// The element count, or `None` for an indefinite-length array.
    ArrayStart(Option<u64>),
    ArraySeparator,
    ArrayEnd,
    /// The pair count, or `None` for an indefinite-length map.
    MapStart(Option<u64>),
    MapColon,
    MapSeparator,
    MapEnd,
    TagStart(u64),
    TagEnd,
}

impl<'a> View for Event<'a> {
    type V = EventModel;

    open spec fn view(&self) -> EventModel {
        match *self {
            Event::Integer(v) => EventModel::Integer(v),
            Event::Bytes(b) => EventModel::Bytes(b@),
            Event::Text(s) => EventModel::Text(s.spec_bytes()),
            Event::Null => EventModel::Null,
            Event::Undefined => EventModel::Undefined,
            Event::Bool(v) => EventModel::Bool(v),
            Event::Float(v) => EventModel::Float(v),
            Event::Simple(v) => EventModel::Simple(v),
            Event::ArrayStart(n) => EventModel::ArrayStart(n),
            Event::ArraySeparator => EventModel::ArraySeparator,
            Event::ArrayEnd => EventModel::ArrayEnd,
            Event::MapStart(n) => EventModel::MapStart(n),
            Event::MapColon => EventModel::MapColon,
            Event::MapSeparator => EventModel::MapSeparator,
            Event::MapEnd => EventModel::MapEnd,
            Event::TagStart(t) => EventModel::TagStart(t),
            Event::TagEnd => EventModel::TagEnd,
        }
    }
}

/// The callback interface driven by [`CBOR::visit`]: one call per node, with
/// the node as an [`Event`]. A visitor matches the events it cares about and
/// lets the others pass with `Ok(())`; any call may stop the visit by
/// returning an error.
pub trait Visitor<'a> {
    /// Holds of a visitor whose callback never fails. No failure is promised
    /// unless a visitor says so.
    open spec fn infallible(&self) -> bool {
        false
    }

    /// Holds of a visitor that keeps the record `seen` of its callbacks.
    open spec fn records(&self) -> bool {
        false
    }

    /// The callbacks this visitor has received, where it keeps a record.
    open spec fn seen(&self) -> Seq<EventModel> {
        Seq::empty()
    }

    fn event(&mut self, e: Event<'a>) -> (r: Result<(), Error>)
        ensures
            old(self).infallible() ==> r is Ok,
            final(self).infallible() == old(self).infallible(),
            final(self).records() == old(self).records(),
            old(self).records() ==> final(self).seen() == old(self).seen().push(e@),
    ;
}

/// A visitor that lets every node pass: it only walks the value.
pub struct NullVisitor;

impl<'a> Visitor<'a> for NullVisitor {
    open spec fn infallible(&self) -> bool {
        true
    }

    fn event(&mut self, e: Event<'a>) -> (r: Result<(), Error>) {
        Ok(())
    }
}

/// A visitor that keeps every callback it receives, in order.
pub struct EventLog<'a> {
    pub events: Vec<Event<'a>>,
}

impl<'a> EventLog<'a> {
    pub fn new() -> (r: Self)
        ensures
            r.events@.len() == 0,
    {
        EventLog { events: Vec::new() }
    }
}

impl<'a> Visitor<'a> for EventLog<'a> {
    open spec fn infallible(&self) -> bool {
        true
    }

    open spec fn records(&self) -> bool {
        true
    }

    open spec fn seen(&self) -> Seq<EventModel> {
        self.events@.map_values(|e: Event<'a>| e@)
    }

    fn event(&mut self, e: Event<'a>) -> (r: Result<(), Error>) {
        self.events.push(e);
        assert(self.events@.map_values(|e: Event<'a>| e@) =~= old(self).events@.map_values(
            |e: Event<'a>| e@,
        ).push(e@));
        Ok(())
    }
}

/// Relies on std::str::from_utf8: it succeeds exactly on valid UTF-8, and the
/// text it returns is made of those bytes.
#[verifier::external_body]
fn str_from_utf8<'a>(b: &'a [u8]) -> (r: Option<&'a str>)
    ensures
        r is Some <==> valid_utf8(b@),
        r matches Some(s) ==> s.spec_bytes() == b@,
{
    std::str::from_utf8(b).ok()
}

/// The bytes of `b` after the first `n`.
fn skip<'a>(b: &'a [u8], n: usize) -> (r: &'a [u8])
    requires
        n <= b@.len(),
    ensures
        r@ == b@.skip(n as int),
{
    vstd::slice::slice_subrange(b, n, b.len())
}

/// Visits one child at the front of `next` (with `pairs`, a key and its
/// value), after a separator unless it is the `first`, and returns its length.
fn visit_elem<'a, V: Visitor<'a>>(
    next: &'a [u8],
    visitor: &mut V,
    depth: usize,
    pairs: bool,
    first: bool,
) -> (r: Result<usize, Error>)
    ensures
        final(visitor).infallible() == old(visitor).infallible(),
        final(visitor).records() == old(visitor).records(),
        agrees(r, elem_len(next@, pairs, depth as nat)) || (!old(visitor).infallible() && r is Err),
        old(visitor).records() && (r is Ok || old(visitor).infallible()) ==> final(visitor).seen()
            == old(visitor).seen() + elem_events(next@, pairs, depth as nat, first),
    decreases next@.len(), 1nat,
{
    let len = next.len();
    let ghost seen0 = visitor.seen();
    let ghost sep: Seq<EventModel> = if first {
        Seq::empty()
    } else if pairs {
        seq![EventModel::MapSeparator]
    } else {
        seq![EventModel::ArraySeparator]
    };
    if !first {
        if pairs {
            visitor.event(Event::MapSeparator)?;
        } else {
            visitor.event(Event::ArraySeparator)?;
        }
    }
    proof {
        assert(visitor.records() ==> visitor.seen() == seen0 + sep);
        lemma_item_bounds(next@, true, depth as nat);
    }
    let k = visit_item(next, visitor, depth);
    proof {
        assert(seen0 + sep + item_events(next@, depth as nat) =~= seen0 + (sep + item_events(
            next@,
            depth as nat,
        )));
    }
    let k = k?;
    if !pairs {
        return Ok(k);
    }
    visitor.event(Event::MapColon)?;
    let after = skip(next, k);
    let vl = visit_item(after, visitor, depth);
    proof {
        lemma_item_bounds(after@, true, depth as nat);
        assert(seen0 + (sep + item_events(next@, depth as nat)) + seq![EventModel::MapColon]
            + item_events(after@, depth as nat) =~= seen0 + elem_events(
            next@,
            pairs,
            depth as nat,
            first,
        ));
    }
    let vl = vl?;
    proof {
        assert(after@.len() == next@.len() - k);
        assert(k + vl <= next@.len());
    }
    Ok(k + vl)
}

/// Walks the value at the front of `b`, calling `visitor` for each node, and
/// returns its length.
#[verifier::rlimit(100)]
#[verifier::spinoff_prover]
fn visit_item<'a, V: Visitor<'a>>(b: &'a [u8], visitor: &mut V, depth: usize) -> (r: Result<
    usize,
    Error,
>)
    ensures
        final(visitor).infallible() == old(visitor).infallible(),
        final(visitor).records() == old(visitor).records(),
        agrees(r, item_len(b@, true, depth as nat)) || (!old(visitor).infallible() && r is Err),
        item_events(b@, depth as nat).len() == 0 ==> agrees(r, item_len(b@, true, depth as nat)),
        old(visitor).records() && (r is Ok || old(visitor).infallible()) ==> final(visitor).seen()
            == old(visitor).seen() + item_events(b@, depth as nat),
    decreases b@.len(), 0nat,
{
    let (major, arg, rest) = decode_header(b)?;
    let h = b.len() - rest.len();
    proof {
        lemma_item_bounds(b@, true, depth as nat);
    }
    if major == MAJOR_ARRAY || major == MAJOR_MAP {
        if depth == 0 {
            return Err(Error::TooDeep);
        }
        let pairs = major == MAJOR_MAP;
        let start = if pairs {
            Event::MapStart(arg)
        } else {
            Event::ArrayStart(arg)
        };
        let end = if pairs {
            Event::MapEnd
        } else {
            Event::ArrayEnd
        };
        let ghost rest0 = rest@;
        let ghost d = (depth - 1) as nat;
        let ghost seen0 = visitor.seen();
        let ghost total = item_len(b@, true, depth as nat);
        let ghost trace = item_events(b@, depth as nat);
        visitor.event(start)?;
        let mut next = rest;
        let mut remaining = arg;
        let mut first = true;
        let ghost mut done: Seq<EventModel> = Seq::empty();
        proof {
            assert(elems_events(rest0, arg, pairs, d, true) =~= done + elems_events(
                rest0,
                arg,
                pairs,
                d,
                first,
            ));
        }
        loop
            invariant
                depth > 0,
                d == depth - 1,
                pairs == (major == MAJOR_MAP),
                end@ == (if pairs {
                    EventModel::MapEnd
                } else {
                    EventModel::ArrayEnd
                }),
                rest@ == rest0,
                h + rest0.len() == b@.len(),
                1 <= h,
                b@.len() <= usize::MAX,
                next@.len() <= rest0.len(),
                next@ == rest0.skip(rest0.len() - next@.len()),
                total == item_len(b@, true, depth as nat),
                trace == item_events(b@, depth as nat),
                seen0 == old(visitor).seen(),
                total == shift(h as nat, elems_len(rest0, arg, pairs, true, d)),
                elems_len(rest0, arg, pairs, true, d) == shift(
                    (rest0.len() - next@.len()) as nat,
                    elems_len(next@, remaining, pairs, true, d),
                ),
                trace == then_if_ok(
                    seq![start@] + elems_events(rest0, arg, pairs, d, true),
                    elems_len(rest0, arg, pairs, true, d),
                    end@,
                ),
                elems_events(rest0, arg, pairs, d, true) == done + elems_events(
                    next@,
                    remaining,
                    pairs,
                    d,
                    first,
                ),
                visitor.infallible() == old(visitor).infallible(),
                visitor.records() == old(visitor).records(),
                old(visitor).records() ==> visitor.seen() == seen0.push(start@) + done,
            decreases next@.len(),
        {
            let consumed = rest.len() - next.len();
            let at_end = match remaining {
                Some(k) => k == 0,
                None => next.len() > 0 && next[0] == BREAK,
            };
            if at_end {
                proof {
                    lemma_elems_at_end(next@, remaining, pairs, d, first);
                    assert(trace.len() > 0);
                }
                visitor.event(end)?;
                proof {
                    assert(done =~= elems_events(rest0, arg, pairs, d, true));
                    assert(seen0.push(start@) + done + seq![end@] =~= seen0 + trace);
                }
                if remaining.is_none() {
                    return Ok(h + consumed + 1);
                }
                return Ok(h + consumed);
            }
            let ghost before = next@;
            proof {
                lemma_elems_unfold(before, remaining, pairs, d, first);
                assert(seen0.push(start@) + done + elem_events(before, pairs, d, first) =~= seen0.push(
                    start@,
                ) + (done + elem_events(before, pairs, d, first)));
            }
            let c = visit_elem(next, visitor, depth - 1, pairs, first);
            proof {
                if c is Err && old(visitor).infallible() {
                    assert(done + elem_events(before, pairs, d, first) =~= elems_events(
                        rest0,
                        arg,
                        pairs,
                        d,
                        true,
                    ));
                }
            }
            let c = c?;
            proof {
                done = done + elem_events(before, pairs, d, first);
                assert(elems_events(rest0, arg, pairs, d, true) =~= done + elems_events(
                    before.skip(c as int),
                    count_down(remaining),
                    pairs,
                    d,
                    false,
                ));
            }
            next = skip(next, c);
            proof {
                assert(next@ =~= rest0.skip(rest0.len() - next@.len()));
            }
            first = false;
            remaining = match remaining {
                Some(k) => Some(k - 1),
                None => None,
            };
        }
    } else {
        let n = match arg {
            None => return Err(Error::InvalidCode),
            Some(n) => n,
        };
        if major == MAJOR_POSITIVE {
            visitor.event(Event::Integer(n as i128))?;
            Ok(h)
        } else if major == MAJOR_NEGATIVE {
            visitor.event(Event::Integer(-1i128 - n as i128))?;
            Ok(h)
        } else if major == MAJOR_BYTES || major == MAJOR_STRING {
            if (rest.len() as u64) < n {
                return Err(Error::TooShort);
            }
            let payload = vstd::slice::slice_subrange(rest, 0, n as usize);
            if major == MAJOR_BYTES {
                visitor.event(Event::Bytes(payload))?;
            } else {
                match str_from_utf8(payload) {
                    None => return Err(Error::NonUTF8String),
                    Some(s) => visitor.event(Event::Text(s))?,
                }
            }
            Ok(h + n as usize)
        } else if major == MAJOR_TAG {
            if depth == 0 {
                return Err(Error::TooDeep);
            }
            visitor.event(Event::TagStart(n))?;
            let c = visit_item(rest, visitor, depth - 1)?;
            visitor.event(Event::TagEnd)?;
            Ok(h + c)
        } else {
            let e = if h == 2 {
                if n < 32 {
                    return Err(Error::InvalidCode);
                }
                Event::Simple(n)
            } else if h == 3 {
                return Err(Error::InvalidCode);
            } else if h == 5 {
                proof {
                    lemma_be_value_bound(b@.subrange(1, 5));
                    lemma_pow256_values();
                }
                Event::Float(Float::F32(n as u32))
            } else if h == 9 {
                Event::Float(Float::F64(n))
            } else if n < SIMPLE_FALSE {
                Event::Simple(n)
            } else if n == SIMPLE_FALSE {
                Event::Bool(false)
            } else if n == SIMPLE_TRUE {
                Event::Bool(true)
            } else if n == SIMPLE_NULL {
                Event::Null
            } else {
                Event::Undefined
            };
            visitor.event(e)?;
            Ok(h)
        }
    }
}

/// The length of the value at the front of `b`, found without callbacks.
fn nav_item(b: &[u8], depth: usize) -> (r: Result<usize, Error>)
    ensures
        agrees(r, item_len(b@, false, depth as nat)),
    decreases b@.len(),
{
    let (major, arg, rest) = decode_header(b)?;
    let h = b.len() - rest.len();
    proof {
        lemma_item_bounds(b@, false, depth as nat);
    }
    if major == MAJOR_POSITIVE || major == MAJOR_NEGATIVE || major > MAJOR_TAG {
        if arg.is_none() {
            return Err(Error::InvalidCode);
        }
        Ok(h)
    } else if major == MAJOR_BYTES || major == MAJOR_STRING {
        let n = match arg {
            None => return Err(Error::InvalidCode),
            Some(n) => n,
        };
        if (rest.len() as u64) < n {
            return Err(Error::TooShort);
        }
        Ok(h + n as usize)
    } else if major == MAJOR_ARRAY || major == MAJOR_MAP {
        if depth == 0 {
            return Err(Error::TooDeep);
        }
        let pairs = major == MAJOR_MAP;
        let ghost rest0 = rest@;
        let ghost d = (depth - 1) as nat;
        let mut next = rest;
        let mut remaining = arg;
        loop
            invariant
                depth > 0,
                d == depth - 1,
                pairs == (major == MAJOR_MAP),
                rest0 == b@.skip(h as int),
                rest@ == rest0,
                h + rest0.len() == b@.len(),
                b@.len() <= usize::MAX,
                1 <= h <= b@.len(),
                next@.len() <= rest0.len(),
                next@ == rest0.skip(rest0.len() - next@.len()),
                item_len(b@, false, depth as nat) == shift(h as nat, elems_len(rest0, arg, pairs, false, d)),
                elems_len(rest0, arg, pairs, false, d) == shift(
                    (rest0.len() - next@.len()) as nat,
                    elems_len(next@, remaining, pairs, false, d),
                ),
            decreases next@.len(),
        {
            let consumed = rest.len() - next.len();
            if let Some(k) = remaining {
                if k == 0 {
                    return Ok(h + consumed);
                }
            } else if next.len() > 0 && next[0] == BREAK {
                return Ok(h + consumed + 1);
            }
            let ghost before = next@;
            let k = nav_item(next, depth - 1)?;
            proof {
                lemma_item_bounds(before, false, d);
            }
            next = skip(next, k);
            let mut vl: usize = 0;
            if pairs {
                vl = nav_item(next, depth - 1)?;
                proof {
                    lemma_item_bounds(next@, false, d);
                }
                next = skip(next, vl);
            }
            proof {
                assert(next@ =~= before.skip(k as int).skip(vl as int));
                assert(next@ =~= rest0.skip(rest0.len() - next@.len()));
            }
            remaining = match remaining {
                Some(c) => Some(c - 1),
                None => None,
            };
        }
    } else {
        if arg.is_none() {
            return Err(Error::InvalidCode);
        }
        if depth == 0 {
            return Err(Error::TooDeep);
        }
        let c = nav_item(rest, depth - 1)?;
        Ok(h + c)
    }
}

impl<'a> CBOR<'a> {
    /// The kind of this value, from its first byte alone; `Invalid` when empty.
    pub fn kind(&self) -> (r: Kind)
        ensures
            self@.len() == 0 ==> r == Kind::Invalid,
            self@.len() > 0 ==> r == kind_of(self@[0]),
    {
        if self.0.len() == 0 {
            Kind::Invalid
        } else {
            kind_of_byte(self.0[0])
        }
    }

    /// Walks this value, calling `visitor` for each node in order, and returns
    /// the number of bytes it takes. The calls are those of `visit_events`:
    /// all of them on success, and with a visitor that never fails, those made
    /// before the error; where that list is empty, the error is the codec's own.
    pub fn visit<V: Visitor<'a>>(&self, visitor: &mut V) -> (r: Result<usize, Error>)
        ensures
            final(visitor).infallible() == old(visitor).infallible(),
            final(visitor).records() == old(visitor).records(),
            agrees(r, visit_len(self@)) || (!old(visitor).infallible() && r is Err),
            visit_events(self@).len() == 0 ==> agrees(r, visit_len(self@)),
            old(visitor).records() && (r is Ok || old(visitor).infallible()) ==> final(visitor).seen()
                == old(visitor).seen() + visit_events(self@),
    {
        visit_item(self.0, visitor, MAX_DEPTH)
    }

    /// The bytes that follow this value.
    pub fn next(&self) -> (r: Result<CBOR<'a>, Error>)
        ensures
            match value_len(self@) {
                Ok(n) => r matches Ok(c) && c@ == self@.skip(n as int),
                Err(e) => r == Err::<CBOR<'a>, Error>(e),
            },
    {
        let n = nav_item(self.0, MAX_DEPTH)?;
        proof {
            lemma_item_bounds(self@, false, MAX_DEPTH as nat);
        }
        Ok(CBOR(skip(self.0, n)))
    }

    /// The number of bytes this value takes.
    pub fn size(&self) -> (r: Result<usize, Error>)
        ensures
            agrees(r, value_len(self@)),
    {
        nav_item(self.0, MAX_DEPTH)
    }
}

/// Forward iterator over the children of a container. `cbor` starts at the
/// next child; `items` counts the children left, or is `None` where the
/// container runs to a break byte.
pub struct CBORIter<'a> {
    pub cbor: CBOR<'a>,
    pub items: Option<u64>,
}

/// The length of the child that an iterator at `b` with `items` left yields
/// next, if any.
pub open spec fn iter_step(b: Seq<u8>, items: Option<u64>) -> Option<nat> {
    if items == Some(0u64) || (b.len() > 0 && b[0] == BREAK) {
        None
    } else {
        match value_len(b) {
            Ok(n) => Some(n),
            Err(_) => None,
        }
    }
}

impl<'a> CBORIter<'a> {
    pub fn new(cbor: CBOR<'a>, items: Option<u64>) -> (r: Self)
        ensures
            r.cbor@ == cbor@,
            r.items == items,
    {
        CBORIter { cbor, items }
    }

    /// The next child, or `None` once the count is spent, a break byte is
    /// reached, or the bytes do not hold a value.
    pub fn next(&mut self) -> (r: Option<CBOR<'a>>)
        ensures
            match iter_step(old(self).cbor@, old(self).items) {
                None => r is None && final(self).cbor@ == old(self).cbor@ && final(self).items
                    == old(self).items,
                Some(n) => r matches Some(c) && c@ == old(self).cbor@.take(n as int)
                    && final(self).cbor@ == old(self).cbor@.skip(n as int) && final(self).items
                    == count_down(old(self).items),
            },
    {
        if let Some(k) = self.items {
            if k == 0 {
                return None;
            }
        }
        let b = self.cbor.0;
        if b.len() > 0 && b[0] == BREAK {
            return None;
        }
        match nav_item(b, MAX_DEPTH) {
            Err(_) => None,
            Ok(n) => {
                proof {
                    lemma_item_bounds(b@, false, MAX_DEPTH as nat);
                }
                self.items = match self.items {
                    Some(k) => Some(k - 1),
                    None => None,
                };
                self.cbor = CBOR(skip(b, n));
                Some(CBOR(vstd::slice::slice_subrange(b, 0, n)))
            },
        }
    }
}

/// `span` moved `p` bytes further on.
pub open spec fn span_after(p: int, span: Option<(int, nat)>) -> Option<(int, nat)> {
    match span {
        Some((o, l)) => Some((p + o, l)),
        None => None,
    }
}

/// Offset and length of the child at position `i` among the values that
/// follow each other at the front of `b`.
pub open spec fn nth_child(b: Seq<u8>, i: nat) -> Option<(int, nat)>
    decreases i,
{
    match value_len(b) {
        Err(_) => None,
        Ok(l) => if l > b.len() {
            None
        } else if i == 0 {
            Some((0, l))
        } else {
            span_after(l as int, nth_child(b.skip(l as int), (i - 1) as nat))
        },
    }
}

/// The encoded value `k` is the text string whose bytes are `key`.
pub open spec fn key_matches(k: Seq<u8>, key: Seq<u8>) -> bool {
    match spec_header(k) {
        Ok((m, Some(n), h)) => m == MAJOR_STRING && k.len() == h + n && k.skip(h as int) == key,
        _ => false,
    }
}

/// Offset and length of the value of the first of `count` key-value pairs at
/// the front of `b` whose key is the text `key`.
pub open spec fn find_value(b: Seq<u8>, count: nat, key: Seq<u8>) -> Option<(int, nat)>
    decreases count,
{
    if count == 0 {
        None
    } else {
        match value_len(b) {
            Err(_) => None,
            Ok(kl) => if kl > b.len() {
                None
            } else {
                let after = b.skip(kl as int);
                match value_len(after) {
                    Err(_) => None,
                    Ok(vl) => if vl > after.len() {
                        None
                    } else if key_matches(b.take(kl as int), key) {
                        Some((kl as int, vl))
                    } else {
                        span_after(
                            (kl + vl) as int,
                            find_value(after.skip(vl as int), (count - 1) as nat, key),
                        )
                    },
                }
            },
        }
    }
}

/// The break byte does not start a value.
proof fn lemma_break_is_no_value(b: Seq<u8>)
    ensures
        b.len() > 0 && b[0] == BREAK ==> value_len(b) is Err,
{
    if b.len() > 0 && b[0] == BREAK {
        assert(b[0] / 32 == 7 && b[0] % 32 == 31);
    }
}

/// Whether `a` and `b` hold the same bytes.
fn bytes_eq(a: &[u8], b: &[u8]) -> (r: bool)
    ensures
        r == (a@ == b@),
{
    if a.len() != b.len() {
        return false;
    }
    let mut i: usize = 0;
    while i < a.len()
        invariant
            a@.len() == b@.len(),
            i <= a@.len(),
            a@.take(i as int) == b@.take(i as int),
        decreases a@.len() - i,
    {
        if a[i] != b[i] {
            assert(a@[i as int] != b@[i as int]);
            return false;
        }
        assert(a@.take(i + 1) =~= a@.take(i as int).push(a@[i as int]));
        assert(b@.take(i + 1) =~= b@.take(i as int).push(b@[i as int]));
        i = i + 1;
    }
    assert(a@ =~= a@.take(i as int));
    assert(b@ =~= b@.take(i as int));
    true
}

/// Whether the encoded value `k` is the text string `key`.
fn is_key(k: &[u8], key: &str) -> (r: bool)
    ensures
        r == key_matches(k@, key.spec_bytes()),
{
    match decode_header(k) {
        Ok((major, Some(n), rest)) => {
            major == MAJOR_STRING && rest.len() as u64 == n && bytes_eq(rest, key.as_bytes())
        },
        _ => false,
    }
}

impl<'a> CBOR<'a> {
    /// For a definite-length map, the value of the first pair whose key is the
    /// text `key`; `None` where there is none or the map is not well formed.
    pub fn get(&self, key: &str) -> (r: Option<CBOR<'a>>)
        ensures
            match spec_header(self@) {
                Ok((m, Some(n), h)) if m == MAJOR_MAP => match find_value(
                    self@.skip(h as int),
                    n as nat,
                    key.spec_bytes(),
                ) {
                    Some((o, l)) => r matches Some(c) && c@ == self@.subrange(
                        h + o,
                        h + o + l,
                    ),
                    None => r is None,
                },
                _ => r is None,
            },
    {
        let (major, arg, rest) = match decode_header(self.0) {
            Ok(t) => t,
            Err(_) => return None,
        };
        let n = match arg {
            Some(n) => n,
            None => return None,
        };
        if major != MAJOR_MAP {
            return None;
        }
        let ghost h: nat = (self@.len() - rest@.len()) as nat;
        let ghost target = find_value(rest@, n as nat, key.spec_bytes());
        let mut it = CBORIter::new(CBOR(rest), None);
        let mut left: u64 = n;
        while left > 0
            invariant
                it.items is None,
                it.cbor@.len() <= rest@.len(),
                it.cbor@ == rest@.skip(rest@.len() - it.cbor@.len()),
                rest@ == self@.skip(h as int),
                spec_header(self@) == Ok::<(u8, Option<u64>, nat), Error>((major, arg, h as nat)),
                arg == Some(n),
                major == MAJOR_MAP,
                target == find_value(rest@, n as nat, key.spec_bytes()),
                target == span_after(
                    rest@.len() - it.cbor@.len(),
                    find_value(it.cbor@, left as nat, key.spec_bytes()),
                ),
            decreases left,
        {
            let ghost at = it.cbor@;
            let ghost pos = rest@.len() - at.len();
            proof {
                lemma_break_is_no_value(at);
            }
            let k = match it.next() {
                Some(k) => k,
                None => return None,
            };
            proof {
                lemma_item_bounds(at, false, MAX_DEPTH as nat);
            }
            let ghost at_value = it.cbor@;
            let ghost kl = k@.len();
            proof {
                lemma_break_is_no_value(at_value);
                assert(at_value =~= at.skip(kl as int));
            }
            let v = match it.next() {
                Some(v) => v,
                None => return None,
            };
            let ghost vl = v@.len();
            proof {
                lemma_item_bounds(at_value, false, MAX_DEPTH as nat);
                assert(at_value =~= at.skip(kl as int));
                assert(it.cbor@ =~= at.skip(kl as int).skip(vl as int));
                assert(it.cbor@ =~= rest@.skip(rest@.len() - it.cbor@.len()));
            }
            if is_key(k.0, key) {
                proof {
                    assert(find_value(at, left as nat, key.spec_bytes()) == Some((kl as int, vl)));
                    assert(v@ =~= at_value.take(vl as int));
                    assert(at_value =~= self@.skip(h + pos + kl));
                    assert(v@ =~= self@.subrange(h + pos + kl, h + pos + kl + vl));
                    assert(target == Some((pos + kl, vl)));
                }
                return Some(v);
            }
            proof {
                assert(find_value(at, left as nat, key.spec_bytes()) == span_after(
                    (kl + vl) as int,
                    find_value(it.cbor@, (left - 1) as nat, key.spec_bytes()),
                ));
            }
            left = left - 1;
        }
        None
    }

    /// For a definite-length array, the child at position `index`; `None`
    /// where there is none or the array is not well formed.
    pub fn index(&self, index: usize) -> (r: Option<CBOR<'a>>)
        ensures
            match spec_header(self@) {
                Ok((m, Some(n), h)) if m == MAJOR_ARRAY && index < n => match nth_child(
                    self@.skip(h as int),
                    index as nat,
                ) {
                    Some((o, l)) => r matches Some(c) && c@ == self@.subrange(
                        h + o,
                        h + o + l,
                    ),
                    None => r is None,
                },
                _ => r is None,
            },
    {
        let (major, arg, rest) = match decode_header(self.0) {
            Ok(t) => t,
            Err(_) => return None,
        };
        let n = match arg {
            Some(n) => n,
            None => return None,
        };
        if major != MAJOR_ARRAY || index as u64 >= n {
            return None;
        }
        let ghost h: nat = (self@.len() - rest@.len()) as nat;
        let ghost target = nth_child(rest@, index as nat);
        let mut it = CBORIter::new(CBOR(rest), arg);
        let mut j: usize = 0;
        loop
            invariant
                j <= index < n,
                it.items == Some((n - j) as u64),
                it.cbor@.len() <= rest@.len(),
                it.cbor@ == rest@.skip(rest@.len() - it.cbor@.len()),
                rest@ == self@.skip(h as int),
                spec_header(self@) == Ok::<(u8, Option<u64>, nat), Error>((major, arg, h as nat)),
                arg == Some(n),
                major == MAJOR_ARRAY,
                target == nth_child(rest@, index as nat),
                target == span_after(
                    rest@.len() - it.cbor@.len(),
                    nth_child(it.cbor@, (index - j) as nat),
                ),
            decreases index - j,
        {
            let ghost at = it.cbor@;
            let ghost pos = rest@.len() - at.len();
            proof {
                lemma_break_is_no_value(at);
            }
            let c = match it.next() {
                Some(c) => c,
                None => return None,
            };
            let ghost l = c@.len();
            proof {
                lemma_item_bounds(at, false, MAX_DEPTH as nat);
                assert(it.cbor@ =~= rest@.skip(rest@.len() - it.cbor@.len()));
            }
            if j == index {
                proof {
                    assert(nth_child(at, 0) == Some((0int, l)));
                    assert(c@ =~= at.take(l as int));
                    assert(at =~= self@.skip(h + pos));
                    assert(c@ =~= self@.subrange(h + pos, h + pos + l));
                    assert(target == Some((pos, l)));

                }
                return Some(c);
            }
            proof {
                assert(nth_child(at, (index - j) as nat) == span_after(
                    l as int,
                    nth_child(it.cbor@, (index - j - 1) as nat),
                ));
            }
            j = j + 1;
        }
    }
}

/// Where the payload of a definite byte or text string of major type `major`
/// lies at the front of `b`: its start and its length.
pub open spec fn payload_span(b: Seq<u8>, major: u8) -> Result<(nat, nat), Error> {
    match spec_header(b) {
        Err(e) => Err(e),
        Ok((m, arg, h)) => match arg {
            None => Err(Error::InvalidCode),
            Some(n) => if m != major {
                Err(Error::IncorrectType)
            } else if b.len() - h < n {
                Err(Error::TooShort)
            } else {
                Ok((h, n as nat))
            },
        },
    }
}

/// The signed integer at the front of `b`, before narrowing.
pub open spec fn integer_value(b: Seq<u8>) -> Result<(int, nat), Error> {
    match spec_header(b) {
        Err(e) => Err(e),
        Ok((m, arg, h)) => match arg {
            None => Err(Error::InvalidCode),
            Some(n) => if m == MAJOR_POSITIVE {
                Ok((n as int, h))
            } else if m == MAJOR_NEGATIVE {
                Ok((-1 - n, h))
            } else {
                Err(Error::IncorrectType)
            },
        },
    }
}

/// A native value read from the front of a byte cursor.
pub trait Decode<'s>: Sized {
    /// Reading the front of `b` gives `r`, and on success leaves the cursor at `rest`.
    spec fn decoded(b: Seq<u8>, r: Result<Self, Error>, rest: Seq<u8>) -> bool;

    /// Reads one value from the front of `src` and moves `src` past it. After
    /// an error `src` is left at an unspecified place.
    fn decode(src: &mut &'s [u8]) -> (r: Result<Self, Error>)
        ensures
            Self::decoded(old(src)@, r, final(src)@),
    ;
}

impl<'s> Decode<'s> for &'s str {
    open spec fn decoded(b: Seq<u8>, r: Result<Self, Error>, rest: Seq<u8>) -> bool {
        match payload_span(b, MAJOR_STRING) {
            Err(e) => r == Err::<Self, Error>(e),
            Ok((h, n)) => {
                let p = b.subrange(h as int, (h + n) as int);
                if valid_utf8(p) {
                    r matches Ok(s) && s.spec_bytes() == p && rest == b.skip((h + n) as int)
                } else {
                    r == Err::<Self, Error>(Error::NonUTF8String)
                }
            },
        }
    }

    fn decode(src: &mut &'s [u8]) -> (r: Result<Self, Error>) {
        let (major, arg, next) = decode_header(*src)?;
        let n = match arg {
            None => return Err(Error::InvalidCode),
            Some(n) => n,
        };
        if major != MAJOR_STRING {
            return Err(Error::IncorrectType);
        }
        if (next.len() as u64) < n {
            return Err(Error::TooShort);
        }
        let payload = vstd::slice::slice_subrange(next, 0, n as usize);
        let after = skip(next, n as usize);
        proof {
            assert(payload@ =~= old(src)@.subrange(
                old(src)@.len() - next@.len(),
                old(src)@.len() - next@.len() + n,
            ));
            assert(after@ =~= old(src)@.skip(old(src)@.len() - next@.len() + n));
        }
        match str_from_utf8(payload) {
            None => Err(Error::NonUTF8String),
            Some(s) => {
                *src = after;
                Ok(s)
            },
        }
    }
}

impl<'s> Decode<'s> for &'s [u8] {
    open spec fn decoded(b: Seq<u8>, r: Result<Self, Error>, rest: Seq<u8>) -> bool {
        match payload_span(b, MAJOR_BYTES) {
            Err(e) => r == Err::<Self, Error>(e),
            Ok((h, n)) => r matches Ok(s) && s@ == b.subrange(h as int, (h + n) as int) && rest == b.skip(
                (h + n) as int,
            ),
        }
    }

    fn decode(src: &mut &'s [u8]) -> (r: Result<Self, Error>) {
        let (major, arg, next) = decode_header(*src)?;
        let n = match arg {
            None => return Err(Error::InvalidCode),
            Some(n) => n,
        };
        if major != MAJOR_BYTES {
            return Err(Error::IncorrectType);
        }
        if (next.len() as u64) < n {
            return Err(Error::TooShort);
        }
        let payload = vstd::slice::slice_subrange(next, 0, n as usize);
        let after = skip(next, n as usize);
        proof {
            assert(payload@ =~= old(src)@.subrange(
                old(src)@.len() - next@.len(),
                old(src)@.len() - next@.len() + n,
            ));
            assert(after@ =~= old(src)@.skip(old(src)@.len() - next@.len() + n));
        }
        *src = after;
        Ok(payload)
    }
}

impl<'s> Decode<'s> for i32 {
    open spec fn decoded(b: Seq<u8>, r: Result<Self, Error>, rest: Seq<u8>) -> bool {
        match integer_value(b) {
            Err(e) => r == Err::<i32, Error>(e),
            Ok((v, h)) => if i32::MIN <= v <= i32::MAX {
                r == Ok::<i32, Error>(v as i32) && rest == b.skip(h as int)
            } else {
                r == Err::<i32, Error>(Error::NumberTooBig)
            },
        }
    }

    fn decode(src: &mut &'s [u8]) -> (r: Result<Self, Error>) {
        let (major, arg, next) = decode_header(*src)?;
        let n = match arg {
            None => return Err(Error::InvalidCode),
            Some(n) => n,
        };
        if major == MAJOR_POSITIVE {
            if n > i32::MAX as u64 {
                return Err(Error::NumberTooBig);
            }
            *src = next;
            Ok(n as i32)
        } else if major == MAJOR_NEGATIVE {
            if n > i32::MAX as u64 {
                return Err(Error::NumberTooBig);
            }
            *src = next;
            Ok(-1 - n as i32)
        } else {
            Err(Error::IncorrectType)
        }
    }
}

/// The byte strings of `es` laid end to end.
pub open spec fn concat_all(es: Seq<Seq<u8>>) -> Seq<u8>
    decreases es.len(),
{
    if es.len() == 0 {
        Seq::empty()
    } else {
        es[0] + concat_all(es.skip(1))
    }
}

/// An iterator with a count of `N` over `N` values laid end to end yields
/// them one by one: at step `i` it yields exactly the `i`-th value and moves
/// on to the values after it; once the count is spent it yields nothing and
/// reads no further.
pub proof fn lemma_iter_walks_children(es: Seq<Seq<u8>>, rest: Seq<u8>, i: int)
    requires
        forall|j: int, tail: Seq<u8>|
            0 <= j < es.len() ==> #[trigger] value_len(es[j] + tail) == Ok::<nat, Error>(
                es[j].len(),
            ),
        es.len() <= u64::MAX,
        0 <= i <= es.len(),
    ensures
        i < es.len() ==> iter_step(concat_all(es.skip(i)) + rest, Some((es.len() - i) as u64))
            == Some(es[i].len()) && (concat_all(es.skip(i)) + rest).take(es[i].len() as int)
            == es[i] && (concat_all(es.skip(i)) + rest).skip(es[i].len() as int) == concat_all(
            es.skip(i + 1),
        ) + rest && count_down(Some((es.len() - i) as u64)) == Some((es.len() - i - 1) as u64),
        i == es.len() ==> iter_step(concat_all(es.skip(i)) + rest, Some(0u64)) is None,
{
    if i < es.len() {
        let tail = concat_all(es.skip(i + 1)) + rest;
        assert(es.skip(i).skip(1) =~= es.skip(i + 1));
        assert(es.skip(i)[0] == es[i]);
        let b = concat_all(es.skip(i)) + rest;
        assert(b =~= es[i] + tail);
        assert(value_len(es[i] + tail) == Ok::<nat, Error>(es[i].len()));
        lemma_break_is_no_value(b);
        assert(b.take(es[i].len() as int) =~= es[i]);
        assert(b.skip(es[i].len() as int) =~= tail);
    }
}

} // verus!
