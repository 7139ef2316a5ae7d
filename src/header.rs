//! Wire constants and the header codec: the major type and argument at the
//! front of an encoded value, read and written in minimal width.

use crate::error::Error;
use vstd::arithmetic::div_mod::{lemma_div_denominator, lemma_fundamental_div_mod, lemma_multiply_divide_lt};
use vstd::prelude::*;

verus! {

pub const MAJOR_POSITIVE: u8 = 0;
pub const MAJOR_NEGATIVE: u8 = 1;
pub const MAJOR_BYTES: u8 = 2;
pub const MAJOR_STRING: u8 = 3;
pub const MAJOR_ARRAY: u8 = 4;
pub const MAJOR_MAP: u8 = 5;
pub const MAJOR_TAG: u8 = 6;
pub const MAJOR_SIMPLE: u8 = 7;

pub const MINOR_LEN1: u8 = 24;
pub const MINOR_LEN2: u8 = 25;
pub const MINOR_LEN4: u8 = 26;
pub const MINOR_LEN8: u8 = 27;
pub const MINOR_INDEFINITE: u8 = 31;

pub const SIMPLE_FALSE: u64 = 20;
pub const SIMPLE_TRUE: u64 = 21;
pub const SIMPLE_NULL: u64 = 22;
pub const SIMPLE_UNDEFINED: u64 = 23;

/// The byte that ends an indefinite-length array or map.
pub const BREAK: u8 = 0xff;

pub open spec fn pow256(w: nat) -> nat
    decreases w,
{
    if w == 0 {
        1
    } else {
        256 * pow256((w - 1) as nat)
    }
}

/// The unsigned integer that `s` spells in big-endian order.
pub open spec fn be_value(s: Seq<u8>) -> nat
    decreases s.len(),
{
    if s.len() == 0 {
        0
    } else {
        be_value(s.drop_last()) * 256 + s.last() as nat
    }
}

/// The `w` low-order bytes of `n`, most significant first.
pub open spec fn be_bytes(n: nat, w: nat) -> Seq<u8> {
    Seq::new(w, |i: int| ((n / pow256((w - 1 - i) as nat)) % 256) as u8)
}

proof fn lemma_be_bytes_index(n: nat, w: nat, i: int)
    requires
        0 <= i < w,
    ensures
        be_bytes(n, w)[i] == ((n / pow256((w - 1 - i) as nat)) % 256) as u8,
{
}

/// Length of the header whose first byte has low five bits `low`; 0 for the
/// reserved selectors.
pub open spec fn header_width(low: u8) -> nat {
    if low < 24 {
        1
    } else if low == MINOR_LEN1 {
        2
    } else if low == MINOR_LEN2 {
        3
    } else if low == MINOR_LEN4 {
        5
    } else if low == MINOR_LEN8 {
        9
    } else if low == MINOR_INDEFINITE {
        1
    } else {
        0
    }
}

/// The header at the front of `b`: major type, argument (`None` for the
/// indefinite marker) and header length.
pub open spec fn spec_header(b: Seq<u8>) -> Result<(u8, Option<u64>, nat), Error> {
    if b.len() == 0 {
        Err(Error::TooShort)
    } else {
        let major = b[0] / 32;
        let low = b[0] % 32;
        let w = header_width(low);
        if w == 0 {
            Err(Error::InvalidCode)
        } else if low == MINOR_INDEFINITE {
            Ok((major, None, 1))
        } else if low < 24 {
            Ok((major, Some(low as u64), 1))
        } else if b.len() < w {
            Err(Error::TooShort)
        } else {
            Ok((major, Some(be_value(b.subrange(1, w as int)) as u64), w))
        }
    }
}

/// The smallest header length that carries the argument `n`.
pub open spec fn min_width(n: nat) -> nat {
    if n < 24 {
        1
    } else if n < 0x100 {
        2
    } else if n < 0x10000 {
        3
    } else if n < 0x1_0000_0000 {
        5
    } else {
        9
    }
}

/// The low five bits that announce a header of length `w`.
pub open spec fn width_code(w: nat) -> nat {
    if w == 2 {
        24
    } else if w == 3 {
        25
    } else if w == 5 {
        26
    } else {
        27
    }
}

/// The minimal-width header for `major` and argument `n`.
pub open spec fn spec_encode_header(major: u8, n: u64) -> Seq<u8> {
    let w = min_width(n as nat);
    if w == 1 {
        seq![(major * 32 + n) as u8]
    } else {
        seq![(major * 32 + width_code(w)) as u8] + be_bytes(n as nat, (w - 1) as nat)
    }
}

pub proof fn lemma_pow256_values()
    ensures
        pow256(0) == 1,
        pow256(1) == 0x100,
        pow256(2) == 0x10000,
        pow256(4) == 0x1_0000_0000,
        pow256(8) == 0x1_0000_0000_0000_0000,
{
    reveal_with_fuel(pow256, 9);
}

pub proof fn lemma_pow256_positive(w: nat)
    ensures
        pow256(w) > 0,
    decreases w,
{
    if w > 0 {
        lemma_pow256_positive((w - 1) as nat);
    }
}

pub proof fn lemma_pow256_monotone(a: nat, b: nat)
    requires
        a <= b,
    ensures
        pow256(a) <= pow256(b),
    decreases b,
{
    if a < b {
        lemma_pow256_monotone(a, (b - 1) as nat);
        lemma_pow256_positive((b - 1) as nat);
    }
}

/// Each byte appended to a big-endian number shifts it by one byte.
proof fn lemma_be_value_push(s: Seq<u8>, x: u8)
    ensures
        be_value(s.push(x)) == be_value(s) * 256 + x,
{
    assert(s.push(x).drop_last() =~= s);
}

/// A big-endian number of `w` bytes is below `256^w`.
pub proof fn lemma_be_value_bound(s: Seq<u8>)
    ensures
        be_value(s) < pow256(s.len()),
    decreases s.len(),
{
    if s.len() > 0 {
        let p = be_value(s.drop_last());
        let q = pow256((s.len() - 1) as nat);
        lemma_be_value_bound(s.drop_last());
        let x = s.last() as nat;
        assert(p * 256 + x < q * 256) by (nonlinear_arith)
            requires
                p < q,
                x < 256,
        ;
    }
}

/// `be_bytes` and `be_value` undo each other on numbers that fit.
pub proof fn lemma_be_round_trip(n: nat, w: nat)
    requires
        n < pow256(w),
    ensures
        be_value(be_bytes(n, w)) == n,
    decreases w,
{
    if w == 0 {
        assert(n == 0);
    } else {
        let s = be_bytes(n, w);
        let t = be_bytes(n / 256, (w - 1) as nat);
        assert forall|i: int| 0 <= i < w - 1 implies #[trigger] s.drop_last()[i] == t[i] by {
            let k = (w - 2 - i) as nat;
            lemma_pow256_positive(k);
            lemma_div_denominator(n as int, 256, pow256(k) as int);
            assert(pow256(k + 1) == 256 * pow256(k));
            assert((k + 1) as nat == (w - 1 - i) as nat);
        }
        assert(s.drop_last() =~= t);
        assert(pow256(0) == 1);
        assert(n / 1 == n);
        lemma_multiply_divide_lt(n as int, 256, pow256((w - 1) as nat) as int);
        lemma_be_round_trip(n / 256, (w - 1) as nat);
        lemma_fundamental_div_mod(n as int, 256);
    }
}

/// Reads the header at the front of `b`, and returns the major type, the
/// argument (`None` for the indefinite marker) and the bytes after the header.
pub fn decode_header<'a>(b: &'a [u8]) -> (r: Result<(u8, Option<u64>, &'a [u8]), Error>)
    ensures
        match spec_header(b@) {
            Ok((major, arg, w)) => r matches Ok((m, a, rest)) && m == major && a == arg && rest@
                == b@.skip(w as int),
            Err(e) => r == Err::<(u8, Option<u64>, &[u8]), Error>(e),
        },
{
    if b.len() == 0 {
        return Err(Error::TooShort);
    }
    let major = b[0] / 32;
    let low = b[0] % 32;
    let w: usize = if low < 24 {
        1
    } else if low == MINOR_LEN1 {
        2
    } else if low == MINOR_LEN2 {
        3
    } else if low == MINOR_LEN4 {
        5
    } else if low == MINOR_LEN8 {
        9
    } else if low == MINOR_INDEFINITE {
        return Ok((major, None, vstd::slice::slice_subrange(b, 1, b.len())));
    } else {
        return Err(Error::InvalidCode);
    };
    if w == 1 {
        return Ok((major, Some(low as u64), vstd::slice::slice_subrange(b, 1, b.len())));
    }
    if b.len() < w {
        return Err(Error::TooShort);
    }
    let mut v: u64 = 0;
    let mut i: usize = 1;
    proof {
        lemma_pow256_values();
        assert(b@.subrange(1, 1) =~= Seq::<u8>::empty());
    }
    while i < w
        invariant
            1 <= i <= w <= 9,
            w <= b.len(),
            v == be_value(b@.subrange(1, i as int)),
            v < pow256((i - 1) as nat),
            pow256(8) == 0x1_0000_0000_0000_0000,
        decreases w - i,
    {
        proof {
            lemma_be_value_push(b@.subrange(1, i as int), b@[i as int]);
            assert(b@.subrange(1, i as int).push(b@[i as int]) =~= b@.subrange(1, i + 1));
            let p = pow256((i - 1) as nat);
            assert(pow256(i as nat) == 256 * p);
            lemma_pow256_monotone(i as nat, 8);
            let x = b@[i as int] as nat;
            assert(v * 256 + x < 256 * p) by (nonlinear_arith)
                requires
                    v < p,
                    x < 256,
            ;
        }
        v = v * 256 + b[i] as u64;
        i = i + 1;
    }
    Ok((major, Some(v), vstd::slice::slice_subrange(b, w, b.len())))
}

/// Length of the minimal header that carries `minor`.
pub fn header_size(minor: u64) -> (r: usize)
    ensures
        r == min_width(minor as nat),
        r == spec_encode_header(0, minor).len(),
{
    if minor < 24 {
        1
    } else if minor < 0x100 {
        2
    } else if minor < 0x10000 {
        3
    } else if minor < 0x1_0000_0000 {
        5
    } else {
        9
    }
}

/// Writes the `w` low-order bytes of `n`, most significant first, at
/// position `at` of `dest`.
pub fn write_be(dest: &mut [u8], at: usize, n: u64, w: usize)
    requires
        w <= 8,
        at + w <= old(dest)@.len(),
    ensures
        final(dest)@ == old(dest)@.take(at as int) + be_bytes(n as nat, w as nat) + old(dest)@.skip(
            at + w,
        ),
{
    let ghost bytes = be_bytes(n as nat, w as nat);
    let len = dest.len();
    let mut m: u64 = n;
    let mut k: usize = w;
    proof {
        lemma_pow256_values();
        assert(n as nat / pow256(0) == n as nat);
    }
    while k > 0
        invariant
            k <= w <= 8,
            at + w <= dest@.len(),
            dest@.len() == old(dest)@.len(),
            dest@.len() == len,
            m as nat == n as nat / pow256((w - k) as nat),
            bytes == be_bytes(n as nat, w as nat),
            forall|j: int| k <= j < w ==> dest@[at + j] == bytes[j],
            forall|j: int| 0 <= j < at ==> dest@[j] == old(dest)@[j],
            forall|j: int| at + w <= j < dest@.len() ==> dest@[j] == old(dest)@[j],
        decreases k,
    {
        k = k - 1;
        proof {
            lemma_pow256_positive((w - k - 1) as nat);
            lemma_div_denominator(n as int, pow256((w - k - 1) as nat) as int, 256);
            assert(pow256((w - k) as nat) == 256 * pow256((w - k - 1) as nat));
            assert(pow256((w - k - 1) as nat) * 256 == 256 * pow256((w - k - 1) as nat));
            lemma_be_bytes_index(n as nat, w as nat, k as int);
        }
        dest[at + k] = (m % 256) as u8;
        m = m / 256;
    }
    assert(dest@ =~= old(dest)@.take(at as int) + bytes + old(dest)@.skip(at + w));
}

/// Writes the minimal header for `major` and `minor` at position `at` of
/// `dest` and returns its length; fails with `TooShort` where the rest of
/// `dest` cannot hold it.
pub fn write_header(dest: &mut [u8], at: usize, major: u8, minor: u64) -> (r: Result<usize, Error>)
    requires
        major < 8,
        at <= old(dest)@.len(),
    ensures
        final(dest)@.len() == old(dest)@.len(),
        r is Err ==> final(dest)@ == old(dest)@,
        ({
            let h = spec_encode_header(major, minor);
            if old(dest)@.len() - at >= h.len() {
                r == Ok::<usize, Error>(h.len() as usize) && final(dest)@ == old(dest)@.take(
                    at as int,
                ) + h + old(dest)@.skip(at + h.len())
            } else {
                r == Err::<usize, Error>(Error::TooShort)
            }
        }),
{
    let w = header_size(minor);
    if dest.len() - at < w {
        return Err(Error::TooShort);
    }
    if w == 1 {
        dest[at] = major * 32 + minor as u8;
        proof {
            assert(final(dest)@ =~= old(dest)@.take(at as int) + spec_encode_header(major, minor)
                + old(dest)@.skip(at + 1));
        }
        return Ok(1);
    }
    let code: u8 = if w == 2 {
        MINOR_LEN1
    } else if w == 3 {
        MINOR_LEN2
    } else if w == 5 {
        MINOR_LEN4
    } else {
        MINOR_LEN8
    };
    dest[at] = major * 32 + code;
    write_be(dest, at + 1, minor, w - 1);
    proof {
        assert(final(dest)@ =~= old(dest)@.take(at as int) + spec_encode_header(major, minor)
            + old(dest)@.skip(at + w));
    }
    Ok(w)
}

/// Writes the minimal header for `major` and `minor` at the front of `dest`
/// and returns its length; fails with `TooShort` where `dest` cannot hold it.
pub fn encode_header(dest: &mut [u8], major: u8, minor: u64) -> (r: Result<usize, Error>)
    requires
        major < 8,
    ensures
        final(dest)@.len() == old(dest)@.len(),
        r is Err ==> final(dest)@ == old(dest)@,
        ({
            let h = spec_encode_header(major, minor);
            if old(dest)@.len() >= h.len() {
                r == Ok::<usize, Error>(h.len() as usize) && final(dest)@ == h + old(dest)@.skip(
                    h.len() as int,
                )
            } else {
                r == Err::<usize, Error>(Error::TooShort)
            }
        }),
{
    let r = write_header(dest, 0, major, minor);
    proof {
        assert(old(dest)@.take(0) =~= Seq::<u8>::empty());
        assert(Seq::<u8>::empty() + spec_encode_header(major, minor) =~= spec_encode_header(major, minor));
    }
    r
}

/// Encoding a header and reading it back gives the same major type and
/// argument, and the header has the minimal length for that argument.
pub proof fn lemma_header_round_trip(major: u8, n: u64, rest: Seq<u8>)
    requires
        major < 8,
    ensures
        spec_header(spec_encode_header(major, n) + rest) == Ok::<(u8, Option<u64>, nat), Error>(
            (major, Some(n), min_width(n as nat)),
        ),
{
    let h = spec_encode_header(major, n);
    let b = h + rest;
    let w = min_width(n as nat);
    lemma_pow256_values();
    if w == 1 {
        assert(b[0] == (major * 32 + n) as u8);
        assert((major * 32 + n) / 32 == major as int && (major * 32 + n) % 32 == n) by (nonlinear_arith)
            requires
                major < 8,
                n < 24,
        ;
    } else {
        let c = width_code(w);
        assert((major * 32 + c) / 32 == major as int && (major * 32 + c) % 32 == c) by (nonlinear_arith)
            requires
                major < 8,
                24 <= c < 28,
        ;
        assert(b.subrange(1, w as int) =~= be_bytes(n as nat, (w - 1) as nat));
        lemma_be_round_trip(n as nat, (w - 1) as nat);
    }
}

} // verus!
