//! Unsigned LEB128 variable-length integers: seven data bits per byte, least
//! significant group first, the top bit set on every byte but the last.
use integer_encoding::VarInt;
use vstd::prelude::*;

verus! {

/// The encoding of `n`.
pub open spec fn varint(n: nat) -> Seq<u8>
    decreases n,
{
    if n < 128 {
        seq![n as u8]
    } else {
        seq![(128 + n % 128) as u8] + varint(n / 128)
    }
}

/// Reads one varint from the front of `s`, whatever its size: the value and
/// the number of bytes it took, or `None` where `s` ends before a byte with
/// a clear top bit.
pub open spec fn parse_varint(s: Seq<u8>) -> Option<(nat, nat)>
    decreases s.len(),
{
    if s.len() == 0 {
        None
    } else if s[0] < 128 {
        Some((s[0] as nat, 1nat))
    } else {
        match parse_varint(s.skip(1)) {
            Some((v, k)) => Some(((s[0] - 128) as nat + 128 * v, k + 1)),
            None => None,
        }
    }
}

/// Reads one varint that fits a `usize` from the front of `s`. An encoding
/// longer than ten bytes, or one whose value overflows, is rejected.
pub open spec fn read_varint(s: Seq<u8>) -> Option<(usize, usize)> {
    match parse_varint(s) {
        Some((v, k)) => if k <= 10 && v <= u64::MAX && v <= usize::MAX {
            Some((v as usize, k as usize))
        } else {
            None
        },
        None => None,
    }
}

/// An encoding is never empty, and a 64-bit value takes at most ten bytes.
pub proof fn lemma_varint_len(n: nat)
    ensures
        1 <= varint(n).len(),
        n <= u64::MAX ==> varint(n).len() <= 10,
        n < 128 <==> varint(n).len() == 1,
{
    lemma_varint_len_bound(n, 10);
    assert(pow128(10) > u64::MAX) by {
        reveal_with_fuel(pow128, 11);
    }
}

/// `varint(n)` has at most `k` bytes where `n` is below `128^k`.
proof fn lemma_varint_len_bound(n: nat, k: nat)
    ensures
        1 <= varint(n).len(),
        n < 128 <==> varint(n).len() == 1,
        k >= 1 && n < pow128(k) ==> varint(n).len() <= k,
    decreases n,
{
    reveal_with_fuel(pow128, 2);
    if n >= 128 {
        lemma_varint_len_bound(n / 128, (k - 1) as nat);
        if k >= 1 && n < pow128(k) {
            assert(k >= 2) by {
                if k == 1 {
                    assert(pow128(1) == 128);
                }
            }
            assert(n / 128 < pow128((k - 1) as nat));
        }
    }
}

/// 128 to the power `k`.
pub open spec fn pow128(k: nat) -> nat
    decreases k,
{
    if k == 0 {
        1
    } else {
        128 * pow128((k - 1) as nat)
    }
}

/// Reading back what was encoded gives the value and the encoding's length,
/// whatever follows it.
pub proof fn lemma_parse_varint(n: nat, rest: Seq<u8>)
    ensures
        parse_varint(varint(n) + rest) == Some((n, varint(n).len())),
    decreases n,
{
    let s = varint(n) + rest;
    if n < 128 {
        assert(s[0] == n as u8);
    } else {
        let tail = varint(n / 128);
        assert(s[0] == (128 + n % 128) as u8);
        assert(s.skip(1) =~= tail + rest);
        lemma_parse_varint(n / 128, rest);
        assert(varint(n).len() == tail.len() + 1);
    }
}

/// The same for a value that fits a `usize`.
pub proof fn lemma_read_varint(n: usize, rest: Seq<u8>)
    ensures
        read_varint(varint(n as nat) + rest) == Some((n, varint(n as nat).len() as usize)),
{
    lemma_parse_varint(n as nat, rest);
    lemma_varint_len(n as nat);
}

/// What `parse_varint` accepts lies within its input, and depends on no byte
/// behind what it took.
pub proof fn lemma_parse_varint_prefix(s: Seq<u8>, t: Seq<u8>)
    requires
        parse_varint(s) is Some,
    ensures
        1 <= parse_varint(s).unwrap().1 <= s.len(),
        parse_varint(s + t) == parse_varint(s),
    decreases s.len(),
{
    if s[0] < 128 {
        assert((s + t)[0] == s[0]);
    } else {
        assert((s + t)[0] == s[0]);
        assert((s + t).skip(1) =~= s.skip(1) + t);
        lemma_parse_varint_prefix(s.skip(1), t);
    }
}

/// What `read_varint` accepts lies within its input.
pub proof fn lemma_read_varint_within(s: Seq<u8>)
    ensures
        read_varint(s) matches Some((_, k)) ==> 1 <= k <= s.len(),
{
    if parse_varint(s) is Some {
        lemma_parse_varint_prefix(s, Seq::<u8>::empty());
    }
}

/// The number of bytes that `n` takes when encoded.
///
/// Trusted: calls `integer_encoding::VarInt::required_space` for `usize`,
/// which counts the seven-bit groups of `n`, one for zero. The contract
/// states that count as the length of `varint(n)`.
#[verifier::external_body]
pub(crate) fn required_space(n: usize) -> (len: usize)
    ensures
        len == varint(n as nat).len(),
{
    n.required_space()
}

/// The encoding of `n` in a fresh vector.
///
/// Trusted: calls `integer_encoding::VarInt::encode_var_vec` for `usize`,
/// which writes the low seven bits of the value with the top bit set while
/// 128 or more remains, and the rest in a last byte. The contract states
/// that output as `varint(n)`.
#[verifier::external_body]
pub(crate) fn encode_var_vec(n: usize) -> (bytes: Vec<u8>)
    ensures
        bytes@ == varint(n as nat),
{
    n.encode_var_vec()
}

/// Decodes one varint from the front of `src`: the value and the number of
/// bytes read.
///
/// Trusted: calls `integer_encoding::VarInt::decode_var` for `usize`, which
/// adds up the seven-bit groups until a byte with a clear top bit, gives up
/// at the tenth byte unless that byte is 0 or 1, returns `None` where `src`
/// ends first, and `None` where the value does not fit a `usize`. The
/// contract states this as `read_varint`.
#[verifier::external_body]
pub(crate) fn decode_var(src: &[u8]) -> (r: Option<(usize, usize)>)
    ensures
        r == read_varint(src@),
{
    usize::decode_var(src)
}

} // verus!
