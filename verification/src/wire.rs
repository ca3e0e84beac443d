//! The postcard encoding of the plain values that messages are made of.
//!
//! Integers are little-endian base-128 numbers; byte strings and text are preceded by their
//! length; a token is its bytes. The encoding of a message is the encodings of its parts, one
//! after the other, so each part can be written and read on its own.

use vstd::arithmetic::power2::{lemma_pow2_strictly_increases, pow2};
use vstd::prelude::*;
use vstd::utf8::{decode_utf8, encode_utf8, valid_utf8};

verus! {

/// The number of bytes in an authentication token.
pub const TOKEN_LEN: usize = 32;

/// `v` in base 128, lowest digit first; every byte but the last has its top bit set.
pub open spec fn varint(v: nat) -> Seq<u8>
    decreases v,
{
    if v < 128 {
        seq![v as u8]
    } else {
        seq![(v % 128 + 128) as u8] + varint(v / 128)
    }
}

/// How many bytes at the front of `s` have their top bit set.
pub open spec fn continuation_run(s: Seq<u8>) -> nat
    decreases s.len(),
{
    if s.len() == 0 || s[0] < 128 {
        0
    } else {
        1 + continuation_run(s.skip(1))
    }
}

/// The number whose base-128 digits, lowest first, are the low seven bits of the bytes of `s`.
pub open spec fn base128(s: Seq<u8>) -> nat
    decreases s.len(),
{
    if s.len() == 0 {
        0
    } else {
        (s[0] % 128) as nat + 128 * base128(s.skip(1))
    }
}

/// Reads a base-128 number of at most `bits` bits off the front of `s`: its value and what is
/// left of `s`. `None` if `s` ends before the number does, if the number takes more bytes than
/// `bits` bits need, or if its value needs more than `bits` bits.
pub open spec fn take_varint(s: Seq<u8>, bits: nat) -> Option<(nat, Seq<u8>)> {
    let used = continuation_run(s) + 1;
    if used <= s.len() && used <= (bits + 6) / 7 && base128(s.take(used as int)) < pow2(bits) {
        Some((base128(s.take(used as int)), s.skip(used as int)))
    } else {
        None
    }
}

/// `data` preceded by its length.
pub open spec fn block(data: Seq<u8>) -> Seq<u8> {
    varint(data.len()) + data
}

/// Reads a length and that many bytes off the front of `s`: the bytes and what is left of `s`.
pub open spec fn take_block(s: Seq<u8>) -> Option<(Seq<u8>, Seq<u8>)> {
    match take_varint(s, usize::BITS as nat) {
        Some((n, rest)) => if n <= rest.len() {
            Some((rest.take(n as int), rest.skip(n as int)))
        } else {
            None
        },
        None => None,
    }
}

/// Text as its UTF-8 bytes, preceded by their number.
pub open spec fn text(chars: Seq<char>) -> Seq<u8> {
    block(encode_utf8(chars))
}

/// Reads text off the front of `s`: the characters and what is left of `s`.
pub open spec fn take_text(s: Seq<u8>) -> Option<(Seq<char>, Seq<u8>)> {
    match take_block(s) {
        Some((bytes, rest)) => if valid_utf8(bytes) {
            Some((decode_utf8(bytes), rest))
        } else {
            None
        },
        None => None,
    }
}

/// Reads the bytes of a token off the front of `s`: the token and what is left of `s`.
pub open spec fn take_token(s: Seq<u8>) -> Option<(Seq<u8>, Seq<u8>)> {
    if s.len() < TOKEN_LEN {
        None
    } else {
        Some((s.take(TOKEN_LEN as int), s.skip(TOKEN_LEN as int)))
    }
}

/// The error that postcard gives; it is carried, never looked into.
#[verifier::external_type_specification]
#[verifier::external_body]
pub struct ExPostcardError(postcard::Error);

/// Calls `postcard::to_allocvec` on a `u64`: it succeeds, with the number in base 128.
#[verifier::external_body]
pub(crate) fn put_varint(v: u64) -> (res: Result<Vec<u8>, postcard::Error>)
    ensures
        res is Ok,
        res->Ok_0@ == varint(v as nat),
{
    postcard::to_allocvec(&v)
}

/// Calls `postcard::to_allocvec` on a byte slice: it succeeds, with the length and the bytes.
#[verifier::external_body]
pub(crate) fn put_block(data: &[u8]) -> (res: Result<Vec<u8>, postcard::Error>)
    ensures
        res is Ok,
        res->Ok_0@ == block(data@),
{
    postcard::to_allocvec(data)
}

/// Calls `postcard::to_allocvec` on a string slice: it succeeds, with the length and the UTF-8
/// bytes.
#[verifier::external_body]
pub(crate) fn put_text(chars: &str) -> (res: Result<Vec<u8>, postcard::Error>)
    ensures
        res is Ok,
        res->Ok_0@ == text(chars@),
{
    postcard::to_allocvec(chars)
}

/// Calls `postcard::to_allocvec` on an array of bytes: it succeeds, with the bytes alone, since
/// an array's length is not written.
#[verifier::external_body]
pub(crate) fn put_token(token: &[u8; 32]) -> (res: Result<Vec<u8>, postcard::Error>)
    ensures
        res is Ok,
        res->Ok_0@ == token@,
{
    postcard::to_allocvec(token)
}

/// Calls `postcard::take_from_bytes` for a `u32`: it succeeds exactly where a base-128 number of
/// at most 32 bits stands at the front, and gives that number and the bytes behind it.
#[verifier::external_body]
pub(crate) fn get_u32(s: &[u8]) -> (res: Result<(u32, &[u8]), postcard::Error>)
    ensures
        match res {
            Ok((v, rest)) => take_varint(s@, 32) == Some((v as nat, rest@)),
            Err(_) => take_varint(s@, 32) is None,
        },
{
    postcard::take_from_bytes(s)
}

/// Calls `postcard::take_from_bytes` for a `u64`: it succeeds exactly where a base-128 number of
/// at most 64 bits stands at the front, and gives that number and the bytes behind it.
#[verifier::external_body]
pub(crate) fn get_u64(s: &[u8]) -> (res: Result<(u64, &[u8]), postcard::Error>)
    ensures
        match res {
            Ok((v, rest)) => take_varint(s@, 64) == Some((v as nat, rest@)),
            Err(_) => take_varint(s@, 64) is None,
        },
{
    postcard::take_from_bytes(s)
}

/// Calls `postcard::take_from_bytes` for a `Vec<u8>`: it succeeds exactly where a length that fits
/// in a `usize` and that many bytes stand at the front, and gives those bytes and the ones behind
/// them.
#[verifier::external_body]
pub(crate) fn get_block(s: &[u8]) -> (res: Result<(Vec<u8>, &[u8]), postcard::Error>)
    ensures
        match res {
            Ok((data, rest)) => take_block(s@) == Some((data@, rest@)),
            Err(_) => take_block(s@) is None,
        },
{
    postcard::take_from_bytes(s)
}

/// Calls `postcard::take_from_bytes` for a `String`: it succeeds exactly where a length that fits
/// in a `usize` and that many bytes of valid UTF-8 stand at the front, and gives the characters
/// and the bytes behind them.
#[verifier::external_body]
pub(crate) fn get_text(s: &[u8]) -> (res: Result<(String, &[u8]), postcard::Error>)
    ensures
        match res {
            Ok((chars, rest)) => take_text(s@) == Some((chars@, rest@)),
            Err(_) => take_text(s@) is None,
        },
{
    postcard::take_from_bytes(s)
}

/// Calls `postcard::take_from_bytes` for an array of bytes: it succeeds exactly where that many
/// bytes are there, and gives them and the bytes behind them.
#[verifier::external_body]
pub(crate) fn get_token(s: &[u8]) -> (res: Result<([u8; 32], &[u8]), postcard::Error>)
    ensures
        match res {
            Ok((token, rest)) => take_token(s@) == Some((token@, rest@)),
            Err(_) => take_token(s@) is None,
        },
{
    postcard::take_from_bytes(s)
}

/// What a number's base-128 bytes look like to a reader: how many of them there are, and what
/// they add up to.
proof fn lemma_varint_shape(v: nat, rest: Seq<u8>)
    ensures
        varint(v).len() >= 1,
        continuation_run(varint(v) + rest) + 1 == varint(v).len(),
        base128(varint(v)) == v,
    decreases v,
{
    let whole = varint(v) + rest;
    if v < 128 {
        assert(varint(v).skip(1) =~= Seq::<u8>::empty());
        assert(base128(varint(v).skip(1)) == 0);
        assert(whole[0] == v as u8);
    } else {
        let head = (v % 128 + 128) as u8;
        lemma_varint_shape(v / 128, rest);
        assert(varint(v).skip(1) =~= varint(v / 128));
        assert(whole.skip(1) =~= varint(v / 128) + rest);
        assert(whole[0] == head);
        assert(head % 128 == v % 128);
    }
}

/// A number of at most `bits` bits takes one byte for every seven bits, rounded up.
pub proof fn lemma_varint_len(v: nat, bits: nat)
    requires
        v < pow2(bits),
        bits >= 1,
    ensures
        1 <= varint(v).len() <= (bits + 6) / 7,
    decreases v,
{
    if v >= 128 {
        if bits <= 7 {
            assert(pow2(7) == 128) by {
                vstd::arithmetic::power2::lemma2_to64();
            }
            if bits < 7 {
                lemma_pow2_strictly_increases(bits, 7);
            }
            assert(false);
        }
        let fewer = (bits - 7) as nat;
        assert(pow2(bits) == 128 * pow2(fewer)) by {
            vstd::arithmetic::power2::lemma_pow2_adds(7, fewer);
            vstd::arithmetic::power2::lemma2_to64();
        }
        assert(v / 128 < pow2(fewer)) by (nonlinear_arith)
            requires
                v < 128 * pow2(fewer),
        ;
        lemma_varint_len(v / 128, fewer);
    }
}

/// A number that was written is read back, whatever follows it.
pub proof fn lemma_varint_read_back(v: nat, bits: nat, rest: Seq<u8>)
    requires
        v < pow2(bits),
        bits >= 1,
    ensures
        take_varint(varint(v) + rest, bits) == Some((v, rest)),
{
    lemma_varint_shape(v, rest);
    lemma_varint_len(v, bits);
    let whole = varint(v) + rest;
    let used = varint(v).len() as int;
    assert(whole.take(used) =~= varint(v));
    assert(whole.skip(used) =~= rest);
}

/// Bytes that were written with their length are read back, whatever follows them.
pub proof fn lemma_block_read_back(data: Seq<u8>, rest: Seq<u8>)
    requires
        data.len() <= usize::MAX,
    ensures
        take_block(block(data) + rest) == Some((data, rest)),
{
    assert(data.len() < pow2(usize::BITS as nat)) by {
        vstd::arithmetic::power2::lemma2_to64();
        vstd::layout::unsigned_int_max_values();
    }
    assert(block(data) + rest =~= varint(data.len()) + (data + rest));
    lemma_varint_read_back(data.len(), usize::BITS as nat, data + rest);
    assert((data + rest).take(data.len() as int) =~= data);
    assert((data + rest).skip(data.len() as int) =~= rest);
}

/// Text that was written is read back, whatever follows it.
pub proof fn lemma_text_read_back(chars: Seq<char>, rest: Seq<u8>)
    requires
        encode_utf8(chars).len() <= usize::MAX,
    ensures
        take_text(text(chars) + rest) == Some((chars, rest)),
{
    lemma_block_read_back(encode_utf8(chars), rest);
    vstd::utf8::encode_utf8_valid_utf8(chars);
    vstd::utf8::encode_utf8_decode_utf8(chars);
}

/// A token that was written is read back, whatever follows it.
pub proof fn lemma_token_read_back(token: Seq<u8>, rest: Seq<u8>)
    requires
        token.len() == TOKEN_LEN,
    ensures
        take_token(token + rest) == Some((token, rest)),
{
    assert((token + rest).take(TOKEN_LEN as int) =~= token);
    assert((token + rest).skip(TOKEN_LEN as int) =~= rest);
}

/// `e` spells `v` as a number of at most `bits` bits: every byte but the last has its top bit set,
/// the low seven bits are the digits in base 128, lowest first, and there are no more digits than
/// `bits` bits need.
pub open spec fn spells(e: Seq<u8>, v: nat, bits: nat) -> bool {
    &&& 1 <= e.len() <= (bits + 6) / 7
    &&& forall|i: int| 0 <= i < e.len() - 1 ==> #[trigger] e[i] >= 128
    &&& e.last() < 128
    &&& base128(e) == v
    &&& v < pow2(bits)
}

/// The bytes before the last of a number are those that have their top bit set.
proof fn lemma_run_ends_at_last(e: Seq<u8>, rest: Seq<u8>)
    requires
        e.len() >= 1,
        forall|i: int| 0 <= i < e.len() - 1 ==> #[trigger] e[i] >= 128,
        e.last() < 128,
    ensures
        continuation_run(e + rest) + 1 == e.len(),
    decreases e.len(),
{
    let whole = e + rest;
    assert(whole[0] == e[0]);
    if e.len() > 1 {
        let later = e.skip(1);
        assert(whole.skip(1) =~= later + rest);
        assert forall|i: int| 0 <= i < later.len() - 1 implies #[trigger] later[i] >= 128 by {
            assert(later[i] == e[i + 1]);
        }
        assert(later.last() == e.last());
        lemma_run_ends_at_last(later, rest);
    } else {
        assert(e.last() == e[0]);
    }
}

/// The bytes up to the end of a run all have their top bit set, and the next has not.
proof fn lemma_run(s: Seq<u8>)
    ensures
        continuation_run(s) <= s.len(),
        forall|i: int| 0 <= i < continuation_run(s) ==> #[trigger] s[i] >= 128,
        continuation_run(s) < s.len() ==> s[continuation_run(s) as int] < 128,
    decreases s.len(),
{
    if s.len() > 0 && s[0] >= 128 {
        let later = s.skip(1);
        lemma_run(later);
        assert forall|i: int| 0 <= i < continuation_run(s) implies #[trigger] s[i] >= 128 by {
            if i > 0 {
                assert(later[i - 1] == s[i]);
            }
        }
        if continuation_run(s) < s.len() {
            assert(later[continuation_run(later) as int] == s[continuation_run(s) as int]);
        }
    }
}

/// A number is read from any bytes that spell it, and from no others: what is read is spelled by
/// the bytes in front of what is left.
pub proof fn law_numbers_are_read_as_spelled(e: Seq<u8>, v: nat, bits: nat, rest: Seq<u8>)
    ensures
        spells(e, v, bits) ==> take_varint(e + rest, bits) == Some((v, rest)),
        take_varint(e, bits) matches Some((n, left)) ==> left.len() < e.len() && spells(
            e.take(e.len() - left.len()),
            n,
            bits,
        ) && left == e.skip(e.len() - left.len()),
{
    if spells(e, v, bits) {
        lemma_run_ends_at_last(e, rest);
        assert((e + rest).take(e.len() as int) =~= e);
        assert((e + rest).skip(e.len() as int) =~= rest);
    }
    if take_varint(e, bits) is Some {
        lemma_run(e);
        let used = (continuation_run(e) + 1) as int;
        let front = e.take(used);
        assert(front.last() == e[used - 1]);
        assert forall|i: int| 0 <= i < front.len() - 1 implies #[trigger] front[i] >= 128 by {
            assert(front[i] == e[i]);
        }
    }
}

/// Numbers are written in a spelling of theirs, and no spelling is shorter.
pub proof fn law_numbers_are_written_shortest(v: nat, bits: nat, other: Seq<u8>)
    requires
        v < pow2(bits),
        bits >= 1,
    ensures
        spells(varint(v), v, bits),
        spells(other, v, bits) ==> varint(v).len() <= other.len(),
{
    lemma_varint_read_back(v, bits, Seq::empty());
    assert(varint(v) + Seq::<u8>::empty() =~= varint(v));
    law_numbers_are_read_as_spelled(varint(v), v, bits, Seq::empty());
    assert(varint(v).take(varint(v).len() as int) =~= varint(v));
    if spells(other, v, bits) {
        lemma_digits_needed(other);
    }
}

/// A number of `e.len()` digits is written in no more.
proof fn lemma_digits_needed(e: Seq<u8>)
    requires
        e.len() >= 1,
    ensures
        varint(base128(e)).len() <= e.len(),
    decreases e.len(),
{
    let later = e.skip(1);
    let v = base128(e);
    if later.len() == 0 {
        assert(base128(later) == 0);
    } else {
        lemma_digits_needed(later);
        if v >= 128 {
            assert(v / 128 == base128(later));
        }
    }
}

} // verus!
