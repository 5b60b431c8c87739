//! Byte-level model of the length-prefixed wire encoding.
//!
//! The discovery messages are serialized with a recursive length-prefixed
//! scheme: a byte string or a list of items is preceded by a header that
//! gives its payload length, short lengths directly in the header byte and
//! longer lengths as a big-endian integer following it.  This module defines
//! the mathematical encoding functions, the matching parsing functions, the
//! executable primitives, and the lemmas that connect them.

use vstd::arithmetic::div_mod::*;
use vstd::prelude::*;
use vstd::seq_lib::*;

verus! {

/// Why a decode attempt was rejected.
#[derive(Clone, Copy, Debug, PartialEq, Eq)]
pub enum DecodeError {
    /// An address field carried an empty byte string.
    EmptyAddress,
    /// An address field had a payload length other than 4 or 16.
    InvalidAddressLength(usize),
    /// A record held more fields than its shape allows; for Ping and Pong
    /// this is the trigger to retry the extended shape.
    FieldCountMismatch,
    /// A field was present but its content did not fit its type.
    MalformedField,
    /// The input ended before the announced payload did.
    TruncatedInput,
}

pub open spec fn pow256(k: nat) -> nat
    decreases k,
{
    if k == 0 {
        1
    } else {
        256 * pow256((k - 1) as nat)
    }
}

/// Minimal big-endian digits of `n`: empty for zero, no leading zero otherwise.
pub open spec fn be_bytes(n: nat) -> Seq<u8>
    decreases n,
{
    if n == 0 {
        Seq::empty()
    } else {
        be_bytes(n / 256) + seq![(n % 256) as u8]
    }
}

/// The value read back from big-endian digits.
pub open spec fn be_val(s: Seq<u8>) -> nat
    decreases s.len(),
{
    if s.len() == 0 {
        0
    } else {
        256 * be_val(s.drop_last()) + s.last() as nat
    }
}

pub proof fn lemma_be_val_be_bytes(n: nat)
    ensures
        be_val(be_bytes(n)) == n,
    decreases n,
{
    if n > 0 {
        lemma_be_val_be_bytes(n / 256);
        assert(be_bytes(n).drop_last() =~= be_bytes(n / 256));
        lemma_fundamental_div_mod(n as int, 256);
    }
}

pub proof fn lemma_be_bytes_len(n: nat, k: nat)
    requires
        n < pow256(k),
    ensures
        be_bytes(n).len() <= k,
    decreases k,
{
    if n > 0 {
        if k == 0 {
        } else {
            assert(n / 256 < pow256((k - 1) as nat)) by {
                lemma_multiply_divide_lt(n as int, 256, pow256((k - 1) as nat) as int);
            }
            lemma_be_bytes_len(n / 256, (k - 1) as nat);
        }
    }
}

pub proof fn lemma_be_bytes_first(n: nat)
    requires
        n > 0,
    ensures
        be_bytes(n).len() > 0,
        be_bytes(n)[0] != 0,
    decreases n,
{
    if n < 256 {
        reveal_with_fuel(be_bytes, 2);
        assert(be_bytes(n) =~= seq![(n % 256) as u8]);
    } else {
        lemma_be_bytes_first(n / 256);
        assert(be_bytes(n)[0] == be_bytes(n / 256)[0]);
    }
}

pub proof fn lemma_be_val_bound(s: Seq<u8>)
    ensures
        be_val(s) < pow256(s.len()),
    decreases s.len(),
{
    if s.len() > 0 {
        lemma_be_val_bound(s.drop_last());
    }
}

pub proof fn lemma_pow256_8()
    ensures
        pow256(2) == 0x10000,
        pow256(8) == 0x10000000000000000,
{
    reveal_with_fuel(pow256, 9);
}

/// A value below 256 has exactly one big-endian digit.
pub proof fn lemma_be_bytes_single(n: nat)
    requires
        0 < n < 256,
    ensures
        be_bytes(n).len() == 1,
{
    reveal_with_fuel(be_bytes, 2);
}

/// A small nonzero value is encoded as the single byte it is.
pub proof fn lemma_enc_uint_single(n: u64)
    requires
        0 < n < 0x80,
    ensures
        enc_uint(n) == seq![n as u8],
{
    reveal_with_fuel(be_bytes, 2);
    assert(be_bytes(n as nat) =~= seq![n as u8]);
}

/// Header of a byte-string item whose payload has length `len`.
pub open spec fn str_header(len: nat) -> Seq<u8> {
    if len <= 55 {
        seq![(0x80 + len) as u8]
    } else {
        seq![(0xb7 + be_bytes(len).len()) as u8] + be_bytes(len)
    }
}

/// Header of a list item whose payload has length `len`.
pub open spec fn list_header(len: nat) -> Seq<u8> {
    if len <= 55 {
        seq![(0xc0 + len) as u8]
    } else {
        seq![(0xf7 + be_bytes(len).len()) as u8] + be_bytes(len)
    }
}

/// A byte string as a wire item: a single small byte stands for itself,
/// anything else is a header followed by the payload.
pub open spec fn enc_bytes(s: Seq<u8>) -> Seq<u8> {
    if s.len() == 1 && s[0] < 0x80 {
        s
    } else {
        str_header(s.len()) + s
    }
}

/// An unsigned integer as a wire item: its minimal big-endian digits as a
/// byte string.
pub open spec fn enc_uint(n: u64) -> Seq<u8> {
    enc_bytes(be_bytes(n as nat))
}

/// Reads a byte-string header at `i`, looking no further than `limit`.
/// On success, returns the bounds `(start, end)` of the payload; a single
/// byte below 0x80 is its own payload.  Rejects the non-minimal header
/// forms, so every byte string has exactly one accepted spelling.
pub open spec fn parse_str_header(s: Seq<u8>, i: int, limit: int) -> Result<(int, int), DecodeError>
    recommends
        0 <= i,
        limit <= s.len(),
{
    if i >= limit {
        Err(DecodeError::TruncatedInput)
    } else {
        let b = s[i];
        if b < 0x80 {
            Ok((i, i + 1))
        } else if b <= 0xb7 {
            let l = b - 0x80;
            if i + 1 + l > limit {
                Err(DecodeError::TruncatedInput)
            } else if l == 1 && s[i + 1] < 0x80 {
                Err(DecodeError::MalformedField)
            } else {
                Ok((i + 1, i + 1 + l))
            }
        } else if b <= 0xbf {
            let ll = b - 0xb7;
            if i + 1 + ll > limit {
                Err(DecodeError::TruncatedInput)
            } else if s[i + 1] == 0 {
                Err(DecodeError::MalformedField)
            } else {
                let l = be_val(s.subrange(i + 1, i + 1 + ll)) as int;
                if l <= 55 {
                    Err(DecodeError::MalformedField)
                } else if i + 1 + ll + l > limit {
                    Err(DecodeError::TruncatedInput)
                } else {
                    Ok((i + 1 + ll, i + 1 + ll + l))
                }
            }
        } else {
            Err(DecodeError::MalformedField)
        }
    }
}

/// Reads a list header at `i`; a byte-string header here is malformed.
pub open spec fn parse_list_header(s: Seq<u8>, i: int, limit: int) -> Result<
    (int, int),
    DecodeError,
>
    recommends
        0 <= i,
        limit <= s.len(),
{
    if i >= limit {
        Err(DecodeError::TruncatedInput)
    } else {
        let b = s[i];
        if b < 0xc0 {
            Err(DecodeError::MalformedField)
        } else if b <= 0xf7 {
            let l = b - 0xc0;
            if i + 1 + l > limit {
                Err(DecodeError::TruncatedInput)
            } else {
                Ok((i + 1, i + 1 + l))
            }
        } else {
            let ll = b - 0xf7;
            if i + 1 + ll > limit {
                Err(DecodeError::TruncatedInput)
            } else if s[i + 1] == 0 {
                Err(DecodeError::MalformedField)
            } else {
                let l = be_val(s.subrange(i + 1, i + 1 + ll)) as int;
                if l <= 55 {
                    Err(DecodeError::MalformedField)
                } else if i + 1 + ll + l > limit {
                    Err(DecodeError::TruncatedInput)
                } else {
                    Ok((i + 1 + ll, i + 1 + ll + l))
                }
            }
        }
    }
}

/// Reads an unsigned integer item: a byte string of at most eight digits
/// with no leading zero, valued big-endian.
pub open spec fn parse_uint(s: Seq<u8>, i: int, limit: int) -> Result<(u64, int), DecodeError>
    recommends
        0 <= i,
        limit <= s.len(),
{
    match parse_str_header(s, i, limit) {
        Ok((ps, pe)) => {
            if pe - ps > 8 {
                Err(DecodeError::MalformedField)
            } else if pe - ps >= 1 && s[ps] == 0 {
                Err(DecodeError::MalformedField)
            } else {
                Ok((be_val(s.subrange(ps, pe)) as u64, pe))
            }
        },
        Err(e) => Err(e),
    }
}

/// Reads a byte-string item whose payload must be exactly `n` bytes long.
pub open spec fn parse_fixed(s: Seq<u8>, i: int, limit: int, n: int) -> Result<
    (Seq<u8>, int),
    DecodeError,
>
    recommends
        0 <= i,
        limit <= s.len(),
{
    match parse_str_header(s, i, limit) {
        Ok((ps, pe)) => {
            if pe - ps == n {
                Ok((s.subrange(ps, pe), pe))
            } else {
                Err(DecodeError::MalformedField)
            }
        },
        Err(e) => Err(e),
    }
}

/// A slice that equals a concatenation splits into slices of the two parts.
pub proof fn lemma_subrange_split(s: Seq<u8>, i: int, a: Seq<u8>, b: Seq<u8>)
    requires
        0 <= i,
        i + a.len() + b.len() <= s.len(),
        s.subrange(i, i + a.len() + b.len()) == a + b,
    ensures
        s.subrange(i, i + a.len()) == a,
        s.subrange(i + a.len(), i + a.len() + b.len()) == b,
{
    let w = s.subrange(i, i + a.len() + b.len());
    assert(s.subrange(i, i + a.len()) =~= a) by {
        assert forall|k: int| 0 <= k < a.len() implies s.subrange(i, i + a.len())[k] == a[k] by {
            assert(w[k] == (a + b)[k]);
        }
    }
    assert(s.subrange(i + a.len(), i + a.len() + b.len()) =~= b) by {
        assert forall|k: int|
            0 <= k < b.len() implies s.subrange(i + a.len(), i + a.len() + b.len())[k] == b[k] by {
            assert(w[a.len() + k] == (a + b)[a.len() + k]);
        }
    }
}

/// Parsing recovers a byte-string item laid down at position `i`.
pub proof fn lemma_parse_str_header_at(s: Seq<u8>, i: int, limit: int, p: Seq<u8>)
    requires
        0 <= i,
        i + enc_bytes(p).len() <= limit,
        limit <= s.len(),
        p.len() < pow256(8),
        s.subrange(i, i + enc_bytes(p).len()) == enc_bytes(p),
    ensures
        parse_str_header(s, i, limit) == Ok::<(int, int), DecodeError>(
            (i + enc_bytes(p).len() - p.len(), i + enc_bytes(p).len()),
        ),
        s.subrange(i + enc_bytes(p).len() - p.len(), i + enc_bytes(p).len()) == p,
{
    let e = enc_bytes(p);
    let l = p.len() as int;
    assert(forall|k: int| 0 <= k < e.len() ==> s[i + k] == e[k]) by {
        assert(forall|k: int|
            0 <= k < e.len() ==> s.subrange(i, i + e.len())[k] == s[i + k] && s.subrange(
                i,
                i + e.len(),
            )[k] == e[k]);
    }
    if p.len() == 1 && p[0] < 0x80 {
        assert(s[i] == p[0]);
        assert(s.subrange(i, i + 1) == p);
    } else if p.len() <= 55 {
        assert(e == str_header(p.len()) + p);
        assert(s[i + 0] == e[0]);
        assert(s[i] == 0x80 + l);
        lemma_subrange_split(s, i, str_header(p.len()), p);
        if l == 1 {
            assert(s[i + 1] == p[0]);
            assert(p[0] >= 0x80);
        }
    } else {
        let d = be_bytes(p.len());
        lemma_be_bytes_first(p.len());
        lemma_be_bytes_len(p.len(), 8);
        lemma_be_val_be_bytes(p.len());
        assert(e == (seq![(0xb7 + d.len()) as u8] + d) + p);
        assert(s[i + 0] == e[0]);
        assert(s[i] == 0xb7 + d.len());
        lemma_subrange_split(s, i, seq![(0xb7 + d.len()) as u8] + d, p);
        lemma_subrange_split(s, i, seq![(0xb7 + d.len()) as u8], d);
        assert(s[i + 1] == d[0]);
        assert(s.subrange(i + 1, i + 1 + d.len()) == d);
    }
}

/// Parsing recovers a list header laid down at position `i`, and sees the
/// list's payload bytes.
pub proof fn lemma_parse_list_header_at(s: Seq<u8>, i: int, limit: int, p: Seq<u8>)
    requires
        0 <= i,
        i + list_header(p.len()).len() + p.len() <= limit,
        limit <= s.len(),
        p.len() < pow256(8),
        s.subrange(i, i + list_header(p.len()).len() + p.len()) == list_header(p.len()) + p,
    ensures
        parse_list_header(s, i, limit) == Ok::<(int, int), DecodeError>(
            (i + list_header(p.len()).len(), i + list_header(p.len()).len() + p.len()),
        ),
        s.subrange(i + list_header(p.len()).len(), i + list_header(p.len()).len() + p.len()) == p,
{
    let h = list_header(p.len());
    let l = p.len() as int;
    assert(forall|k: int| 0 <= k < h.len() + p.len() ==> s[i + k] == (h + p)[k]) by {
        assert(forall|k: int|
            0 <= k < h.len() + p.len() ==> s.subrange(i, i + h.len() + p.len())[k] == s[i + k]
                && s.subrange(i, i + h.len() + p.len())[k] == (h + p)[k]);
    }
    lemma_subrange_split(s, i, h, p);
    if p.len() <= 55 {
        assert(s[i + 0] == (h + p)[0]);
        assert(s[i] == 0xc0 + l);
    } else {
        let d = be_bytes(p.len());
        lemma_be_bytes_first(p.len());
        lemma_be_bytes_len(p.len(), 8);
        lemma_be_val_be_bytes(p.len());
        assert(s[i + 0] == (h + p)[0]);
        assert(s[i] == 0xf7 + d.len());
        lemma_subrange_split(s, i, seq![(0xf7 + d.len()) as u8], d);
        assert(s[i + 1] == d[0]);
        assert(s.subrange(i + 1, i + 1 + d.len()) == d);
    }
}

/// An encoded integer item is never empty and at most nine bytes.
pub proof fn lemma_enc_uint_len(n: u64)
    ensures
        1 <= enc_uint(n).len() <= 9,
        enc_uint(n).len() - 1 <= be_bytes(n as nat).len() <= enc_uint(n).len(),
{
    lemma_pow256_8();
    lemma_be_bytes_len(n as nat, 8);
}

/// Parsing recovers an integer item laid down at position `i`.
pub proof fn lemma_parse_uint_at(s: Seq<u8>, i: int, limit: int, n: u64)
    requires
        0 <= i,
        i + enc_uint(n).len() <= limit,
        limit <= s.len(),
        s.subrange(i, i + enc_uint(n).len()) == enc_uint(n),
    ensures
        parse_uint(s, i, limit) == Ok::<(u64, int), DecodeError>((n, i + enc_uint(n).len())),
{
    lemma_pow256_8();
    lemma_be_bytes_len(n as nat, 8);
    lemma_be_val_be_bytes(n as nat);
    if n > 0 {
        lemma_be_bytes_first(n as nat);
    }
    lemma_parse_str_header_at(s, i, limit, be_bytes(n as nat));
}

/// Parsing recovers a fixed-width byte-string item laid down at position `i`.
pub proof fn lemma_parse_fixed_at(s: Seq<u8>, i: int, limit: int, p: Seq<u8>)
    requires
        0 <= i,
        i + enc_bytes(p).len() <= limit,
        limit <= s.len(),
        2 <= p.len() < pow256(8),
        s.subrange(i, i + enc_bytes(p).len()) == enc_bytes(p),
    ensures
        parse_fixed(s, i, limit, p.len() as int) == Ok::<(Seq<u8>, int), DecodeError>(
            (p, i + enc_bytes(p).len()),
        ),
{
    lemma_parse_str_header_at(s, i, limit, p);
}

broadcast use vstd::array::group_array_axioms;

/// Big-endian value of `count` bytes starting at `start`.
pub(crate) fn read_be(s: &[u8], start: usize, count: usize) -> (v: u64)
    requires
        start + count <= s@.len(),
        count <= 8,
    ensures
        v == be_val(s@.subrange(start as int, start as int + count as int)),
{
    proof {
        assert(s@.len() <= usize::MAX) by {
            assert(vstd::slice::spec_slice_len(s) <= usize::MAX);
        }
    }
    let mut v: u64 = 0;
    let mut k: usize = 0;
    while k < count
        invariant
            s@.len() <= usize::MAX,
            start + count <= s@.len(),
            count <= 8,
            k <= count,
            v == be_val(s@.subrange(start as int, start as int + k as int)),
        decreases count - k,
    {
        proof {
            let pre = s@.subrange(start as int, start as int + k as int);
            lemma_be_val_bound(pre);
            lemma_pow256_8();
            lemma_pow256_mono(k as nat, 7);
            assert(s@.subrange(start as int, start as int + k as int + 1).drop_last() =~= pre);
        }
        v = v * 256 + (s[start + k] as u64);
        k = k + 1;
    }
    v
}

pub proof fn lemma_pow256_mono(a: nat, b: nat)
    requires
        a <= b,
    ensures
        pow256(a) <= pow256(b),
    decreases b,
{
    if a < b {
        lemma_pow256_mono(a, (b - 1) as nat);
        assert(pow256(b) == 256 * pow256((b - 1) as nat));
    }
}

/// Reads a byte-string header; the executable twin of `parse_str_header`.
pub(crate) fn read_str_header(s: &[u8], i: usize, limit: usize) -> (r: Result<
    (usize, usize),
    DecodeError,
>)
    requires
        i <= limit <= s@.len(),
    ensures
        match r {
            Ok(p) => parse_str_header(s@, i as int, limit as int) == Ok::<(int, int), DecodeError>(
                (p.0 as int, p.1 as int),
            ) && i <= p.0 <= p.1 <= limit,
            Err(e) => parse_str_header(s@, i as int, limit as int) == Err::<
                (int, int),
                DecodeError,
            >(e),
        },
{
    if i >= limit {
        return Err(DecodeError::TruncatedInput);
    }
    let b = s[i];
    if b < 0x80 {
        Ok((i, i + 1))
    } else if b <= 0xb7 {
        let l = (b - 0x80) as usize;
        if l > limit - (i + 1) {
            Err(DecodeError::TruncatedInput)
        } else if l == 1 && s[i + 1] < 0x80 {
            Err(DecodeError::MalformedField)
        } else {
            Ok((i + 1, i + 1 + l))
        }
    } else if b <= 0xbf {
        let ll = (b - 0xb7) as usize;
        if ll > limit - (i + 1) {
            return Err(DecodeError::TruncatedInput);
        }
        if s[i + 1] == 0 {
            return Err(DecodeError::MalformedField);
        }
        let l = read_be(s, i + 1, ll);
        proof {
            lemma_be_val_bound(s@.subrange(i + 1, i + 1 + ll as int));
            lemma_pow256_mono(ll as nat, 8);
            lemma_pow256_8();
        }
        if l <= 55 {
            Err(DecodeError::MalformedField)
        } else if l > (limit - (i + 1 + ll)) as u64 {
            Err(DecodeError::TruncatedInput)
        } else {
            Ok((i + 1 + ll, i + 1 + ll + (l as usize)))
        }
    } else {
        Err(DecodeError::MalformedField)
    }
}

/// Reads a list header; the executable twin of `parse_list_header`.
pub(crate) fn read_list_header(s: &[u8], i: usize, limit: usize) -> (r: Result<
    (usize, usize),
    DecodeError,
>)
    requires
        i <= limit <= s@.len(),
    ensures
        match r {
            Ok(p) => parse_list_header(s@, i as int, limit as int) == Ok::<(int, int), DecodeError>(
                (p.0 as int, p.1 as int),
            ) && i <= p.0 <= p.1 <= limit,
            Err(e) => parse_list_header(s@, i as int, limit as int) == Err::<
                (int, int),
                DecodeError,
            >(e),
        },
{
    if i >= limit {
        return Err(DecodeError::TruncatedInput);
    }
    let b = s[i];
    if b < 0xc0 {
        Err(DecodeError::MalformedField)
    } else if b <= 0xf7 {
        let l = (b - 0xc0) as usize;
        if l > limit - (i + 1) {
            Err(DecodeError::TruncatedInput)
        } else {
            Ok((i + 1, i + 1 + l))
        }
    } else {
        let ll = (b - 0xf7) as usize;
        if ll > limit - (i + 1) {
            return Err(DecodeError::TruncatedInput);
        }
        if s[i + 1] == 0 {
            return Err(DecodeError::MalformedField);
        }
        let l = read_be(s, i + 1, ll);
        proof {
            lemma_be_val_bound(s@.subrange(i + 1, i + 1 + ll as int));
            lemma_pow256_mono(ll as nat, 8);
            lemma_pow256_8();
        }
        if l <= 55 {
            Err(DecodeError::MalformedField)
        } else if l > (limit - (i + 1 + ll)) as u64 {
            Err(DecodeError::TruncatedInput)
        } else {
            Ok((i + 1 + ll, i + 1 + ll + (l as usize)))
        }
    }
}

/// Reads an integer item; the executable twin of `parse_uint`.
pub(crate) fn read_uint(s: &[u8], i: usize, limit: usize) -> (r: Result<(u64, usize), DecodeError>)
    requires
        i <= limit <= s@.len(),
    ensures
        match r {
            Ok(p) => parse_uint(s@, i as int, limit as int) == Ok::<(u64, int), DecodeError>(
                (p.0, p.1 as int),
            ) && i < p.1 <= limit,
            Err(e) => parse_uint(s@, i as int, limit as int) == Err::<(u64, int), DecodeError>(e),
        },
{
    match read_str_header(s, i, limit) {
        Err(e) => Err(e),
        Ok((ps, pe)) => {
            let l = pe - ps;
            if l > 8 {
                Err(DecodeError::MalformedField)
            } else if l >= 1 && s[ps] == 0 {
                Err(DecodeError::MalformedField)
            } else {
                let v = read_be(s, ps, l);
                Ok((v, pe))
            }
        },
    }
}

/// Copies `N` bytes starting at `i` out of the input.
pub(crate) fn read_array<const N: usize>(s: &[u8], i: usize) -> (a: [u8; N])
    requires
        i + N <= s@.len(),
    ensures
        a@ == s@.subrange(i as int, i as int + N as int),
{
    proof {
        assert(s@.len() <= usize::MAX) by {
            assert(vstd::slice::spec_slice_len(s) <= usize::MAX);
        }
    }
    let mut a: [u8; N] = [0u8; N];
    let mut k: usize = 0;
    while k < N
        invariant
            s@.len() <= usize::MAX,
            i + N <= s@.len(),
            k <= N,
            a@.len() == N,
            forall|t: int| 0 <= t < k ==> a@[t] == s@[i + t],
        decreases N - k,
    {
        a[k] = s[i + k];
        k = k + 1;
    }
    proof {
        assert(a@ =~= s@.subrange(i as int, i as int + N as int));
    }
    a
}

/// Reads a byte-string item of exactly `N` payload bytes; the executable
/// twin of `parse_fixed`.
pub(crate) fn read_fixed_array<const N: usize>(s: &[u8], i: usize, limit: usize) -> (r: Result<
    ([u8; N], usize),
    DecodeError,
>)
    requires
        i <= limit <= s@.len(),
    ensures
        match r {
            Ok(p) => parse_fixed(s@, i as int, limit as int, N as int) == Ok::<
                (Seq<u8>, int),
                DecodeError,
            >((p.0@, p.1 as int)) && i < p.1 <= limit,
            Err(e) => parse_fixed(s@, i as int, limit as int, N as int) == Err::<
                (Seq<u8>, int),
                DecodeError,
            >(e),
        },
{
    match read_str_header(s, i, limit) {
        Err(e) => Err(e),
        Ok((ps, pe)) => {
            if pe - ps == N {
                let a: [u8; N] = read_array::<N>(s, ps);
                Ok((a, pe))
            } else {
                Err(DecodeError::MalformedField)
            }
        },
    }
}

/// The number of bytes an encoded integer item occupies.
pub(crate) fn uint_len(n: u64) -> (r: usize)
    ensures
        r == enc_uint(n).len(),
        1 <= r <= 9,
{
    proof {
        lemma_enc_uint_len(n);
    }
    if n == 0 {
        proof {
            assert(enc_uint(0) =~= seq![0x80u8]);
        }
        1
    } else if n < 0x80 {
        proof {
            reveal_with_fuel(be_bytes, 2);
            assert(be_bytes(n as nat) =~= seq![n as u8]);
        }
        1
    } else {
        let l = be_len(n);
        proof {
            let d = be_bytes(n as nat);
            lemma_be_bytes_first(n as nat);
            if d.len() == 1 {
                reveal_with_fuel(be_bytes, 2);
                assert(d =~= seq![(n as nat % 256) as u8]);
                assert(d[0] >= 0x80);
            }
            assert(enc_uint(n) == str_header(d.len()) + d);
        }
        1 + l
    }
}

/// Appends the big-endian digits of `n`.
pub(crate) fn push_be(n: u64, out: &mut Vec<u8>)
    ensures
        final(out)@ == old(out)@ + be_bytes(n as nat),
    decreases n,
{
    if n == 0 {
        proof {
            assert(out@ =~= out@ + be_bytes(0));
        }
    } else {
        push_be(n / 256, out);
        out.push((n % 256) as u8);
        proof {
            assert((n / 256) as nat == n as nat / 256);
            assert((n % 256) as u8 == (n as nat % 256) as u8);
            assert(out@ =~= old(out)@ + be_bytes(n as nat));
        }
    }
}

/// The number of big-endian digits of `n`.
pub(crate) fn be_len(n: u64) -> (r: usize)
    ensures
        r == be_bytes(n as nat).len(),
        r <= 8,
    decreases n,
{
    proof {
        lemma_pow256_8();
        lemma_be_bytes_len(n as nat, 8);
    }
    if n == 0 {
        0
    } else {
        proof {
            assert((n / 256) as nat == n as nat / 256);
        }
        1 + be_len(n / 256)
    }
}

/// Appends an integer item.
pub(crate) fn push_uint(n: u64, out: &mut Vec<u8>)
    ensures
        final(out)@ == old(out)@ + enc_uint(n),
{
    if n == 0 {
        out.push(0x80);
        proof {
            assert(be_bytes(0).len() == 0);
            assert(enc_uint(0) =~= seq![0x80u8]);
            assert(out@ =~= old(out)@ + enc_uint(0));
        }
    } else if n < 0x80 {
        out.push(n as u8);
        proof {
            reveal_with_fuel(be_bytes, 2);
            assert(be_bytes(n as nat) =~= seq![n as u8]);
            assert(out@ =~= old(out)@ + enc_uint(n));
        }
    } else {
        let l = be_len(n);
        out.push(0x80 + l as u8);
        push_be(n, out);
        proof {
            let d = be_bytes(n as nat);
            lemma_be_bytes_first(n as nat);
            if d.len() == 1 {
                reveal_with_fuel(be_bytes, 2);
                assert(d =~= seq![(n as nat % 256) as u8]);
                assert(d[0] >= 0x80);
            }
            assert(enc_uint(n) == str_header(d.len()) + d);
            assert(out@ =~= old(out)@ + enc_uint(n));
        }
    }
}

/// Appends the input bytes unchanged.
pub(crate) fn push_slice(s: &[u8], out: &mut Vec<u8>)
    ensures
        final(out)@ == old(out)@ + s@,
{
    let mut k: usize = 0;
    while k < s.len()
        invariant
            k <= s@.len(),
            out@ == old(out)@ + s@.subrange(0, k as int),
        decreases s@.len() - k,
    {
        out.push(s[k]);
        proof {
            assert(old(out)@ + s@.subrange(0, k as int + 1) =~= (old(out)@ + s@.subrange(
                0,
                k as int,
            )).push(s@[k as int]));
        }
        k = k + 1;
    }
    proof {
        assert(s@.subrange(0, s@.len() as int) =~= s@);
    }
}

/// Appends a byte-string item with at least a two-byte payload.
pub(crate) fn push_bytes(s: &[u8], out: &mut Vec<u8>)
    requires
        s@.len() >= 2,
    ensures
        final(out)@ == old(out)@ + enc_bytes(s@),
{
    let len = s.len();
    if len <= 55 {
        out.push(0x80 + len as u8);
    } else {
        proof {
            lemma_pow256_8();
            lemma_be_bytes_len(len as nat, 8);
        }
        let l = be_len(len as u64);
        out.push(0xb7 + l as u8);
        push_be(len as u64, out);
    }
    let ghost mid = out@;
    push_slice(s, out);
    proof {
        assert((len as u64) as nat == len as nat);
        assert(mid =~= old(out)@ + str_header(s@.len()));
        assert(out@ =~= old(out)@ + enc_bytes(s@));
    }
}

/// Appends a list header for a payload of `len` bytes.
pub(crate) fn push_list_header(len: usize, out: &mut Vec<u8>)
    ensures
        final(out)@ == old(out)@ + list_header(len as nat),
{
    if len <= 55 {
        out.push(0xc0 + len as u8);
        proof {
            assert(out@ =~= old(out)@ + list_header(len as nat));
        }
    } else {
        proof {
            lemma_pow256_8();
            lemma_be_bytes_len(len as nat, 8);
        }
        let l = be_len(len as u64);
        out.push(0xf7 + l as u8);
        push_be(len as u64, out);
        proof {
            assert((len as u64) as nat == len as nat);
            assert(out@ =~= old(out)@ + list_header(len as nat));
        }
    }
}

} // verus!
