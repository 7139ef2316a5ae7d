//! The model of the decoder: how many bytes one encoded value takes, or which
//! error reading it meets first, with the laws that follow from it.

use crate::error::Error;
use crate::kind::Float;
use crate::header::{spec_header, BREAK, MAJOR_ARRAY, MAJOR_BYTES, MAJOR_MAP, MAJOR_NEGATIVE, MAJOR_POSITIVE, MAJOR_STRING, MAJOR_TAG};
use vstd::prelude::*;
use vstd::utf8::valid_utf8;

verus! {

/// How deeply arrays, maps and tags may nest before decoding gives up.
pub const MAX_DEPTH: usize = 256;

/// `r` with `p` more bytes in front.
pub open spec fn shift(p: nat, r: Result<nat, Error>) -> Result<nat, Error> {
    match r {
        Ok(n) => Ok(p + n),
        Err(e) => Err(e),
    }
}

/// An executable length agrees with a length of the model.
pub open spec fn agrees(r: Result<usize, Error>, s: Result<nat, Error>) -> bool {
    match (r, s) {
        (Ok(n), Ok(m)) => n as nat == m,
        (Err(e), Err(f)) => e == f,
        _ => false,
    }
}

/// One count down, where there is a count.
pub open spec fn count_down(count: Option<u64>) -> Option<u64> {
    match count {
        Some(k) => Some((k - 1) as u64),
        None => None,
    }
}

/// The length of the encoded value at the front of `b`, or the first error met
/// on the way through it. `strict` adds the checks of the visiting decoder:
/// text is valid UTF-8, no two-byte simple value below 32, no half-precision
/// float. Containers and tags nest at most `depth` deep.
pub open spec fn item_len(b: Seq<u8>, strict: bool, depth: nat) -> Result<nat, Error>
    decreases b.len(), 0nat,
{
    match spec_header(b) {
        Err(e) => Err(e),
        Ok((major, arg, h)) => {
            let rest = b.skip(h as int);
            if major == MAJOR_POSITIVE || major == MAJOR_NEGATIVE {
                if arg is None {
                    Err(Error::InvalidCode)
                } else {
                    Ok(h)
                }
            } else if major == MAJOR_BYTES || major == MAJOR_STRING {
                match arg {
                    None => Err(Error::InvalidCode),
                    Some(n) => if rest.len() < n {
                        Err(Error::TooShort)
                    } else if strict && major == MAJOR_STRING && !valid_utf8(
                        rest.take(n as int),
                    ) {
                        Err(Error::NonUTF8String)
                    } else {
                        Ok(h + n as nat)
                    },
                }
            } else if major == MAJOR_ARRAY || major == MAJOR_MAP {
                if depth == 0 {
                    Err(Error::TooDeep)
                } else {
                    shift(
                        h,
                        elems_len(rest, arg, major == MAJOR_MAP, strict, (depth - 1) as nat),
                    )
                }
            } else if major == MAJOR_TAG {
                match arg {
                    None => Err(Error::InvalidCode),
                    Some(_) => if depth == 0 {
                        Err(Error::TooDeep)
                    } else {
                        shift(h, item_len(rest, strict, (depth - 1) as nat))
                    },
                }
            } else {
                match arg {
                    None => Err(Error::InvalidCode),
                    Some(v) => if strict && (h == 3 || (h == 2 && v < 32)) {
                        Err(Error::InvalidCode)
                    } else {
                        Ok(h)
                    },
                }
            }
        },
    }
}

/// The length of the children at the front of `b`: `count` of them, or, where
/// there is no count, up to and including the break byte. With `pairs` each
/// child is a key followed by its value.
pub open spec fn elems_len(
    b: Seq<u8>,
    count: Option<u64>,
    pairs: bool,
    strict: bool,
    depth: nat,
) -> Result<nat, Error>
    decreases b.len(), 1nat,
{
    if count == Some(0u64) {
        Ok(0)
    } else if count is None && b.len() > 0 && b[0] == BREAK {
        Ok(1)
    } else {
        match item_len(b, strict, depth) {
            Err(e) => Err(e),
            Ok(k) => {
                // a child never reaches past the buffer (`lemma_item_bounds`)
                if k == 0 || k > b.len() {
                    Err(Error::TooShort)
                } else {
                    let after_key = b.skip(k as int);
                    let v = if pairs {
                        item_len(after_key, strict, depth)
                    } else {
                        Ok(0nat)
                    };
                    match v {
                        Err(e) => Err(e),
                        Ok(vl) => if vl > after_key.len() {
                            Err(Error::TooShort)
                        } else {
                            shift(
                                k + vl,
                                elems_len(
                                    after_key.skip(vl as int),
                                    count_down(count),
                                    pairs,
                                    strict,
                                    depth,
                                ),
                            )
                        },
                    }
                }
            },
        }
    }
}



/// What one callback of a visit is handed: integers as their value, byte and
/// text strings as their payload bytes.
pub enum EventModel {
    Integer(i128),
    Bytes(Seq<u8>),
    Text(Seq<u8>),
    Null,
    Undefined,
    Bool(bool),
    Float(Float),
    Simple(u64),
    ArrayStart(Option<u64>),
    ArraySeparator,
    ArrayEnd,
    MapStart(Option<u64>),
    MapColon,
    MapSeparator,
    MapEnd,
    TagStart(u64),
    TagEnd,
}

/// The callback for a major-type-7 value with header length `h` and argument `v`.
pub open spec fn simple_event(h: nat, v: u64) -> EventModel {
    if h == 2 {
        EventModel::Simple(v)
    } else if h == 5 {
        EventModel::Float(Float::F32(v as u32))
    } else if h == 9 {
        EventModel::Float(Float::F64(v))
    } else if v < 20 {
        EventModel::Simple(v)
    } else if v == 20 {
        EventModel::Bool(false)
    } else if v == 21 {
        EventModel::Bool(true)
    } else if v == 22 {
        EventModel::Null
    } else {
        EventModel::Undefined
    }
}

/// `s`, followed by `end` where `r` succeeded.
pub open spec fn then_if_ok(s: Seq<EventModel>, r: Result<nat, Error>, end: EventModel) -> Seq<
    EventModel,
> {
    if r is Ok {
        s.push(end)
    } else {
        s
    }
}

/// The callbacks, in order, that a visit of the value at the front of `b`
/// makes with a visitor that never fails: all of them where the value is well
/// formed, and those made before the error is found where it is not.
pub open spec fn item_events(b: Seq<u8>, depth: nat) -> Seq<EventModel>
    decreases b.len(), 0nat,
{
    match spec_header(b) {
        Err(_) => Seq::empty(),
        Ok((major, arg, h)) => {
            let rest = b.skip(h as int);
            match arg {
                None => if (major == MAJOR_ARRAY || major == MAJOR_MAP) && depth > 0 {
                    let pairs = major == MAJOR_MAP;
                    let start = if pairs {
                        EventModel::MapStart(arg)
                    } else {
                        EventModel::ArrayStart(arg)
                    };
                    let end = if pairs {
                        EventModel::MapEnd
                    } else {
                        EventModel::ArrayEnd
                    };
                    then_if_ok(
                        seq![start] + elems_events(rest, arg, pairs, (depth - 1) as nat, true),
                        elems_len(rest, arg, pairs, true, (depth - 1) as nat),
                        end,
                    )
                } else {
                    Seq::empty()
                },
                Some(n) => if major == MAJOR_POSITIVE {
                    seq![EventModel::Integer(n as i128)]
                } else if major == MAJOR_NEGATIVE {
                    seq![EventModel::Integer((-1 - n) as i128)]
                } else if major == MAJOR_BYTES || major == MAJOR_STRING {
                    if rest.len() < n {
                        Seq::empty()
                    } else if major == MAJOR_BYTES {
                        seq![EventModel::Bytes(rest.take(n as int))]
                    } else if valid_utf8(rest.take(n as int)) {
                        seq![EventModel::Text(rest.take(n as int))]
                    } else {
                        Seq::empty()
                    }
                } else if major == MAJOR_ARRAY || major == MAJOR_MAP {
                    if depth == 0 {
                        Seq::empty()
                    } else {
                        let pairs = major == MAJOR_MAP;
                        let start = if pairs {
                            EventModel::MapStart(arg)
                        } else {
                            EventModel::ArrayStart(arg)
                        };
                        let end = if pairs {
                            EventModel::MapEnd
                        } else {
                            EventModel::ArrayEnd
                        };
                        then_if_ok(
                            seq![start] + elems_events(rest, arg, pairs, (depth - 1) as nat, true),
                            elems_len(rest, arg, pairs, true, (depth - 1) as nat),
                            end,
                        )
                    }
                } else if major == MAJOR_TAG {
                    if depth == 0 {
                        Seq::empty()
                    } else {
                        then_if_ok(
                            seq![EventModel::TagStart(n)] + item_events(rest, (depth - 1) as nat),
                            item_len(rest, true, (depth - 1) as nat),
                            EventModel::TagEnd,
                        )
                    }
                } else if h == 3 || (h == 2 && n < 32) {
                    Seq::empty()
                } else {
                    seq![simple_event(h, n)]
                },
            }
        },
    }
}

/// The callbacks made for the children at the front of `b`, as `elems_len`
/// walks them; `first` is false once a child has been seen, and a separator
/// then comes before the next one.
pub open spec fn elems_events(
    b: Seq<u8>,
    count: Option<u64>,
    pairs: bool,
    depth: nat,
    first: bool,
) -> Seq<EventModel>
    decreases b.len(), 1nat,
{
    if count == Some(0u64) {
        Seq::empty()
    } else if count is None && b.len() > 0 && b[0] == BREAK {
        Seq::empty()
    } else {
        let sep: Seq<EventModel> = if first {
            Seq::empty()
        } else if pairs {
            seq![EventModel::MapSeparator]
        } else {
            seq![EventModel::ArraySeparator]
        };
        let head = sep + item_events(b, depth);
        match item_len(b, true, depth) {
            Err(_) => head,
            Ok(k) => if k == 0 || k > b.len() {
                head
            } else {
                let after_key = b.skip(k as int);
                if pairs {
                    let with_value = head + seq![EventModel::MapColon] + item_events(
                        after_key,
                        depth,
                    );
                    match item_len(after_key, true, depth) {
                        Err(_) => with_value,
                        Ok(vl) => if vl == 0 || vl > after_key.len() {
                            with_value
                        } else {
                            with_value + elems_events(
                                after_key.skip(vl as int),
                                count_down(count),
                                pairs,
                                depth,
                                false,
                            )
                        },
                    }
                } else {
                    head + elems_events(after_key, count_down(count), pairs, depth, false)
                }
            },
        }
    }
}


/// The length of one child at the front of `b`: a value, or with `pairs` a
/// key and its value.
pub open spec fn elem_len(b: Seq<u8>, pairs: bool, depth: nat) -> Result<nat, Error> {
    match item_len(b, true, depth) {
        Err(e) => Err(e),
        Ok(k) => if k == 0 || k > b.len() {
            Err(Error::TooShort)
        } else if !pairs {
            Ok(k)
        } else {
            match item_len(b.skip(k as int), true, depth) {
                Err(e) => Err(e),
                Ok(vl) => if vl > b.len() - k {
                    Err(Error::TooShort)
                } else {
                    Ok(k + vl)
                },
            }
        },
    }
}

/// The callbacks made for one child at the front of `b`, after a separator
/// unless it is the `first`.
pub open spec fn elem_events(b: Seq<u8>, pairs: bool, depth: nat, first: bool) -> Seq<EventModel> {
    let sep: Seq<EventModel> = if first {
        Seq::empty()
    } else if pairs {
        seq![EventModel::MapSeparator]
    } else {
        seq![EventModel::ArraySeparator]
    };
    match item_len(b, true, depth) {
        Ok(k) => if pairs && 0 < k <= b.len() {
            sep + item_events(b, depth) + seq![EventModel::MapColon] + item_events(
                b.skip(k as int),
                depth,
            )
        } else {
            sep + item_events(b, depth)
        },
        Err(_) => sep + item_events(b, depth),
    }
}

/// Away from the end of a container, its children are one child followed
/// by the rest.
pub proof fn lemma_elems_unfold(b: Seq<u8>, count: Option<u64>, pairs: bool, depth: nat, first: bool)
    requires
        count != Some(0u64),
        !(count is None && b.len() > 0 && b[0] == BREAK),
    ensures
        elems_len(b, count, pairs, true, depth) == match elem_len(b, pairs, depth) {
            Ok(c) => shift(c, elems_len(b.skip(c as int), count_down(count), pairs, true, depth)),
            Err(e) => Err(e),
        },
        elems_events(b, count, pairs, depth, first) == elem_events(b, pairs, depth, first) + match elem_len(
            b,
            pairs,
            depth,
        ) {
            Ok(c) => elems_events(b.skip(c as int), count_down(count), pairs, depth, false),
            Err(_) => Seq::empty(),
        },
{
    lemma_item_bounds(b, true, depth);
    if let Ok(k) = item_len(b, true, depth) {
        let after_key = b.skip(k as int);
        lemma_item_bounds(after_key, true, depth);
        if pairs {
            if let Ok(vl) = item_len(after_key, true, depth) {
                assert(after_key.skip(vl as int) =~= b.skip((k + vl) as int));
            }
        } else {
            assert(after_key.skip(0) =~= after_key);
        }
    }
    assert(elems_events(b, count, pairs, depth, first) =~= elem_events(b, pairs, depth, first) + match elem_len(
        b,
        pairs,
        depth,
    ) {
        Ok(c) => elems_events(b.skip(c as int), count_down(count), pairs, depth, false),
        Err(_) => Seq::empty(),
    });
}


/// At the end of a container, no child is left: the count is spent, or the
/// break byte is reached and taken in.
pub proof fn lemma_elems_at_end(b: Seq<u8>, count: Option<u64>, pairs: bool, depth: nat, first: bool)
    requires
        count == Some(0u64) || (count is None && b.len() > 0 && b[0] == BREAK),
    ensures
        elems_len(b, count, pairs, true, depth) == Ok::<nat, Error>(
            if count is None {
                1nat
            } else {
                0nat
            },
        ),
        elems_events(b, count, pairs, depth, first) == Seq::<EventModel>::empty(),
{
}

/// The callbacks of a visit of the value at the front of `b`.
pub open spec fn visit_events(b: Seq<u8>) -> Seq<EventModel> {
    item_events(b, MAX_DEPTH as nat)
}

/// The length that the visiting decoder reports for the value at the front of `b`.
pub open spec fn visit_len(b: Seq<u8>) -> Result<nat, Error> {
    item_len(b, true, MAX_DEPTH as nat)
}

/// The length that navigation reports for the value at the front of `b`.
pub open spec fn value_len(b: Seq<u8>) -> Result<nat, Error> {
    item_len(b, false, MAX_DEPTH as nat)
}

pub proof fn lemma_header_bounds(b: Seq<u8>)
    ensures
        spec_header(b) matches Ok((_, _, h)) ==> 1 <= h <= b.len(),
{
}

/// A value takes at least one byte and never reaches past the buffer.
pub proof fn lemma_item_bounds(b: Seq<u8>, strict: bool, depth: nat)
    ensures
        item_len(b, strict, depth) matches Ok(n) ==> 1 <= n <= b.len(),
    decreases b.len(), 0nat,
{
    lemma_header_bounds(b);
    if let Ok((major, arg, h)) = spec_header(b) {
        let rest = b.skip(h as int);
        if depth > 0 {
            if major == MAJOR_ARRAY || major == MAJOR_MAP {
                lemma_elems_bounds(rest, arg, major == MAJOR_MAP, strict, (depth - 1) as nat);
            } else if major == MAJOR_TAG {
                lemma_item_bounds(rest, strict, (depth - 1) as nat);
            }
        }
    }
}

/// The children of a container never reach past the buffer.
pub proof fn lemma_elems_bounds(
    b: Seq<u8>,
    count: Option<u64>,
    pairs: bool,
    strict: bool,
    depth: nat,
)
    ensures
        elems_len(b, count, pairs, strict, depth) matches Ok(n) ==> n <= b.len(),
    decreases b.len(), 1nat,
{
    if count == Some(0u64) {
    } else if count is None && b.len() > 0 && b[0] == BREAK {
    } else {
        lemma_item_bounds(b, strict, depth);
        if let Ok(k) = item_len(b, strict, depth) {
            let after_key = b.skip(k as int);
            if pairs {
                lemma_item_bounds(after_key, strict, depth);
            }
            let v = if pairs {
                item_len(after_key, strict, depth)
            } else {
                Ok(0nat)
            };
            if let Ok(vl) = v {
                if vl <= after_key.len() {
                    lemma_elems_bounds(
                        after_key.skip(vl as int),
                        count_down(count),
                        pairs,
                        strict,
                        depth,
                    );
                }
            }
        }
    }
}

/// Visiting is navigating with more checks: where visiting accepts a value,
/// navigation ends it at the same byte.
pub proof fn lemma_strict_then_lax(b: Seq<u8>, depth: nat)
    ensures
        item_len(b, true, depth) matches Ok(n) ==> item_len(b, false, depth) == Ok::<nat, Error>(n),
    decreases b.len(), 0nat,
{
    if let Ok((major, arg, h)) = spec_header(b) {
        let rest = b.skip(h as int);
        if depth > 0 {
            if major == MAJOR_ARRAY || major == MAJOR_MAP {
                lemma_strict_then_lax_elems(rest, arg, major == MAJOR_MAP, (depth - 1) as nat);
            } else if major == MAJOR_TAG {
                lemma_strict_then_lax(rest, (depth - 1) as nat);
            }
        }
    }
}

pub proof fn lemma_strict_then_lax_elems(b: Seq<u8>, count: Option<u64>, pairs: bool, depth: nat)
    ensures
        elems_len(b, count, pairs, true, depth) matches Ok(n) ==> elems_len(
            b,
            count,
            pairs,
            false,
            depth,
        ) == Ok::<nat, Error>(n),
    decreases b.len(), 1nat,
{
    if count == Some(0u64) {
    } else if count is None && b.len() > 0 && b[0] == BREAK {
    } else {
        lemma_strict_then_lax(b, depth);
        if let Ok(k) = item_len(b, true, depth) {
            if 0 < k <= b.len() {
                let after_key = b.skip(k as int);
                lemma_strict_then_lax(after_key, depth);
                let v = if pairs {
                    item_len(after_key, true, depth)
                } else {
                    Ok(0nat)
                };
                if let Ok(vl) = v {
                    if vl <= after_key.len() {
                        lemma_strict_then_lax_elems(
                            after_key.skip(vl as int),
                            count_down(count),
                            pairs,
                            depth,
                        );
                    }
                }
            }
        }
    }
}

/// For well-formed input, the length that navigation reports for a value is
/// the length that a full visit of it consumes.
pub proof fn lemma_navigation_matches_visit(b: Seq<u8>)
    requires
        visit_len(b) is Ok,
    ensures
        value_len(b) == visit_len(b),
{
    lemma_strict_then_lax(b, MAX_DEPTH as nat);
}

/// The length of the header at the front of `b`, where there is one.
pub open spec fn header_len(b: Seq<u8>) -> nat {
    match spec_header(b) {
        Ok((_, _, h)) => h,
        Err(_) => 0,
    }
}

/// Bytes after the header do not change it; cutting into it leaves too few.
pub proof fn lemma_header_prefix(b: Seq<u8>, m: int)
    requires
        spec_header(b) is Ok,
        0 <= m <= b.len(),
    ensures
        ({
            let h = header_len(b);
            if m >= h {
                spec_header(b.take(m)) == spec_header(b)
            } else {
                spec_header(b.take(m)) == Err::<(u8, Option<u64>, nat), Error>(Error::TooShort)
            }
        }),
{
    let h = header_len(b);
    if m >= h {
        assert(b.take(m).subrange(1, h as int) =~= b.subrange(1, h as int));
    }
}

/// Bytes after a value do not change how it is read.
pub proof fn lemma_item_prefix(b: Seq<u8>, strict: bool, depth: nat, m: int)
    requires
        item_len(b, strict, depth) is Ok,
        item_len(b, strict, depth)->Ok_0 <= m <= b.len(),
    ensures
        item_len(b.take(m), strict, depth) == item_len(b, strict, depth),
    decreases b.len(), 0nat,
{
    lemma_header_prefix(b, m);
    lemma_item_bounds(b, strict, depth);
    let (major, arg, h) = spec_header(b)->Ok_0;
    let rest = b.skip(h as int);
    let c = b.take(m);
    assert(c.skip(h as int) =~= rest.take(m - h));
    if major == MAJOR_BYTES || major == MAJOR_STRING {
        let n = arg->0;
        assert(rest.take(m - h).take(n as int) =~= rest.take(n as int));
    } else if major == MAJOR_ARRAY || major == MAJOR_MAP {
        lemma_elems_prefix(rest, arg, major == MAJOR_MAP, strict, (depth - 1) as nat, m - h);
    } else if major == MAJOR_TAG {
        lemma_item_prefix(rest, strict, (depth - 1) as nat, m - h);
    }
}

pub proof fn lemma_elems_prefix(
    b: Seq<u8>,
    count: Option<u64>,
    pairs: bool,
    strict: bool,
    depth: nat,
    m: int,
)
    requires
        elems_len(b, count, pairs, strict, depth) is Ok,
        elems_len(b, count, pairs, strict, depth)->Ok_0 <= m <= b.len(),
    ensures
        elems_len(b.take(m), count, pairs, strict, depth) == elems_len(
            b,
            count,
            pairs,
            strict,
            depth,
        ),
    decreases b.len(), 1nat,
{
    if count == Some(0u64) {
    } else if count is None && b.len() > 0 && b[0] == BREAK {
    } else {
        let k = item_len(b, strict, depth)->Ok_0;
        lemma_item_prefix(b, strict, depth, m);
        let c = b.take(m);
        let after_key = b.skip(k as int);
        assert(c.skip(k as int) =~= after_key.take(m - k));
        if pairs {
            lemma_item_prefix(after_key, strict, depth, m - k);
        }
        let vl = if pairs {
            item_len(after_key, strict, depth)->Ok_0
        } else {
            0nat
        };
        assert(c.skip(k as int).skip(vl as int) =~= after_key.skip(vl as int).take(m - k - vl));
        lemma_elems_prefix(
            after_key.skip(vl as int),
            count_down(count),
            pairs,
            strict,
            depth,
            m - k - vl,
        );
    }
}

/// A value cut short anywhere fails with `TooShort`.
pub proof fn lemma_item_truncated(b: Seq<u8>, strict: bool, depth: nat, m: int)
    requires
        item_len(b, strict, depth) is Ok,
        0 <= m < item_len(b, strict, depth)->Ok_0,
    ensures
        item_len(b.take(m), strict, depth) == Err::<nat, Error>(Error::TooShort),
    decreases b.len(), 0nat,
{
    lemma_item_bounds(b, strict, depth);
    lemma_header_prefix(b, m);
    let (major, arg, h) = spec_header(b)->Ok_0;
    if m >= h {
        let rest = b.skip(h as int);
        let c = b.take(m);
        assert(c.skip(h as int) =~= rest.take(m - h));
        if major == MAJOR_ARRAY || major == MAJOR_MAP {
            lemma_elems_truncated(rest, arg, major == MAJOR_MAP, strict, (depth - 1) as nat, m - h);
        } else if major == MAJOR_TAG {
            lemma_item_truncated(rest, strict, (depth - 1) as nat, m - h);
        }
    }
}

pub proof fn lemma_elems_truncated(
    b: Seq<u8>,
    count: Option<u64>,
    pairs: bool,
    strict: bool,
    depth: nat,
    m: int,
)
    requires
        elems_len(b, count, pairs, strict, depth) is Ok,
        0 <= m < elems_len(b, count, pairs, strict, depth)->Ok_0,
    ensures
        elems_len(b.take(m), count, pairs, strict, depth) == Err::<nat, Error>(Error::TooShort),
    decreases b.len(), 1nat,
{
    lemma_elems_bounds(b, count, pairs, strict, depth);
    let c = b.take(m);
    if count == Some(0u64) {
    } else if count is None && b.len() > 0 && b[0] == BREAK {
        assert(c.len() == 0);
    } else {
        let k = item_len(b, strict, depth)->Ok_0;
        lemma_item_bounds(b, strict, depth);
        if m < k {
            lemma_item_truncated(b, strict, depth, m);
        } else {
            lemma_item_prefix(b, strict, depth, m);
            let after_key = b.skip(k as int);
            assert(c.skip(k as int) =~= after_key.take(m - k));
            if pairs {
                lemma_item_bounds(after_key, strict, depth);
            }
            let vl = if pairs {
                item_len(after_key, strict, depth)->Ok_0
            } else {
                0nat
            };
            if pairs && m - k < vl {
                lemma_item_truncated(after_key, strict, depth, m - k);
            } else {
                if pairs {
                    lemma_item_prefix(after_key, strict, depth, m - k);
                }
                assert(c.skip(k as int).skip(vl as int) =~= after_key.skip(vl as int).take(
                    m - k - vl,
                ));
                lemma_elems_truncated(
                    after_key.skip(vl as int),
                    count_down(count),
                    pairs,
                    strict,
                    depth,
                    m - k - vl,
                );
            }
        }
    }
}

/// Cutting a well-formed value of length `L` to any length below `L` makes
/// both visiting and navigation fail with `TooShort`.
pub proof fn lemma_truncated_value_is_too_short(b: Seq<u8>, m: int)
    requires
        visit_len(b) is Ok,
        0 <= m < visit_len(b)->Ok_0,
    ensures
        visit_len(b.take(m)) == Err::<nat, Error>(Error::TooShort),
        value_len(b.take(m)) == Err::<nat, Error>(Error::TooShort),
{
    lemma_strict_then_lax(b, MAX_DEPTH as nat);
    lemma_item_truncated(b, true, MAX_DEPTH as nat, m);
    lemma_item_truncated(b, false, MAX_DEPTH as nat, m);
}

/// A container without a count ends with the break byte, which its length
/// takes in; one with a count never stops at a break byte.
pub proof fn lemma_break_ends_indefinite(
    b: Seq<u8>,
    count: Option<u64>,
    pairs: bool,
    strict: bool,
    depth: nat,
)
    ensures
        count is None ==> (elems_len(b, count, pairs, strict, depth) matches Ok(n) ==> n >= 1 && b[n
            - 1] == BREAK),
        count matches Some(k) && k > 0 && b.len() > 0 && b[0] == BREAK ==> elems_len(
            b,
            count,
            pairs,
            strict,
            depth,
        ) == Err::<nat, Error>(Error::InvalidCode),
    decreases b.len(),
{
    if b.len() > 0 && b[0] == BREAK {
        assert(b[0] / 32 == 7 && b[0] % 32 == 31);
    }
    if count is None && !(b.len() > 0 && b[0] == BREAK) {
        lemma_item_bounds(b, strict, depth);
        if let Ok(k) = item_len(b, strict, depth) {
            let after_key = b.skip(k as int);
            if pairs {
                lemma_item_bounds(after_key, strict, depth);
            }
            let v = if pairs {
                item_len(after_key, strict, depth)
            } else {
                Ok(0nat)
            };
            if let Ok(vl) = v {
                if 0 < k <= b.len() && vl <= after_key.len() {
                    let tail = after_key.skip(vl as int);
                    lemma_break_ends_indefinite(tail, count, pairs, strict, depth);
                    lemma_elems_bounds(tail, count, pairs, strict, depth);
                    if let Ok(m) = elems_len(tail, count, pairs, strict, depth) {
                        assert(b[(k + vl + m - 1) as int] == tail[m - 1]);
                    }
                }
            }
        }
    }
}

} // verus!
