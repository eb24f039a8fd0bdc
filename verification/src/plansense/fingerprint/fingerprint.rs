//! The hash under which a query plan is cached: the MD5 digest of the
//! plan's text, written in lower-case hexadecimal.
use vstd::prelude::*;
use vstd::string::StringSliceAdditionalSpecFns;
use crate::text::push_char;

verus! {

/// The MD5 digest of `data`, as computed by the `md5` crate.
pub uninterp spec fn md5_digest(data: Seq<u8>) -> Seq<u8>;

/// Calls `md5::compute`; the contract claims that the result is the
/// digest of `data`, which the crate's documentation gives as 16 bytes.
#[verifier::external_body]
fn md5_compute(data: &[u8]) -> (digest: [u8; 16])
    ensures
        digest@ == md5_digest(data@),
        digest@.len() == 16,
{
    md5::compute(data).0
}

/// The lower-case hexadecimal digit for `v` (below 16).
pub open spec fn hex_digit(v: u8) -> char
    recommends
        v < 16,
{
    if v < 10 {
        (v + 48) as char
    } else {
        (v + 87) as char
    }
}

/// Two lower-case hexadecimal digits per byte, high nibble first.
pub open spec fn lower_hex(bytes: Seq<u8>) -> Seq<char>
    decreases bytes.len(),
{
    if bytes.len() == 0 {
        Seq::empty()
    } else {
        let b = bytes.last();
        lower_hex(bytes.drop_last()).push(hex_digit(b / 16)).push(hex_digit(b % 16))
    }
}

fn hex_digit_exec(v: u8) -> (c: char)
    requires
        v < 16,
    ensures
        c == hex_digit(v),
{
    if v < 10 {
        (v + 48) as char
    } else {
        (v + 87) as char
    }
}

/// Two characters per byte.
pub proof fn lemma_lower_hex_len(bytes: Seq<u8>)
    ensures
        lower_hex(bytes).len() == 2 * bytes.len(),
    decreases bytes.len(),
{
    if bytes.len() > 0 {
        lemma_lower_hex_len(bytes.drop_last());
    }
}

/// A hexadecimal digit is a digit or a lower-case letter from 'a' to 'f'.
pub open spec fn is_lower_hex_char(ch: char) -> bool {
    ('0' <= ch <= '9') || ('a' <= ch <= 'f')
}

proof fn lemma_hex_digit(v: u8)
    requires
        v < 16,
    ensures
        is_lower_hex_char(hex_digit(v)),
{
}

/// Every character of the encoding is a hexadecimal digit.
pub proof fn lemma_lower_hex_digits(bytes: Seq<u8>)
    ensures
        forall|i: int|
            0 <= i < lower_hex(bytes).len() ==> is_lower_hex_char(#[trigger] lower_hex(bytes)[i]),
    decreases bytes.len(),
{
    if bytes.len() > 0 {
        let rest = bytes.drop_last();
        lemma_lower_hex_digits(rest);
        let b = bytes.last();
        lemma_hex_digit(b / 16);
        lemma_hex_digit(b % 16);
        let out = lower_hex(bytes);
        let prefix = lower_hex(rest);
        assert forall|i: int| 0 <= i < out.len() implies is_lower_hex_char(#[trigger] out[i]) by {
            if i < prefix.len() {
                assert(out[i] == prefix[i]);
            }
        }
    }
}

/// The value of a hexadecimal digit.
pub open spec fn hex_value(ch: char) -> int {
    if ch <= '9' {
        (ch as int) - ('0' as int)
    } else {
        (ch as int) - ('a' as int) + 10
    }
}

/// The encoding reads back: characters `2k` and `2k + 1` are the high and
/// low hexadecimal digits of byte `k`.
pub proof fn lemma_lower_hex_reads_back(bytes: Seq<u8>)
    ensures
        forall|k: int|
            0 <= k < bytes.len() ==> hex_value(#[trigger] lower_hex(bytes)[2 * k]) * 16 + hex_value(
                lower_hex(bytes)[2 * k + 1],
            ) == bytes[k],
    decreases bytes.len(),
{
    if bytes.len() > 0 {
        let rest = bytes.drop_last();
        lemma_lower_hex_reads_back(rest);
        lemma_lower_hex_len(rest);
        let out = lower_hex(bytes);
        let prefix = lower_hex(rest);
        let b = bytes.last();
        let n = rest.len() as int;
        assert((hex_digit(b / 16) as int) == if b / 16 < 10 { b / 16 + 48 } else { b / 16 + 87 });
        assert((hex_digit(b % 16) as int) == if b % 16 < 10 { b % 16 + 48 } else { b % 16 + 87 });
        assert(hex_value(out[2 * n]) == b / 16);
        assert(hex_value(out[2 * n + 1]) == b % 16);
        assert forall|k: int| 0 <= k < bytes.len() implies hex_value(#[trigger] out[2 * k]) * 16
            + hex_value(out[2 * k + 1]) == bytes[k] by {
            if k < n {
                assert(out[2 * k] == prefix[2 * k]);
                assert(out[2 * k + 1] == prefix[2 * k + 1]);
                assert(bytes[k] == rest[k]);
            } else {
                assert(b / 16 * 16 + b % 16 == b);
            }
        }
    }
}

/// Writes `bytes` in lower-case hexadecimal.
pub fn to_lower_hex(bytes: &[u8]) -> (hex: String)
    ensures
        hex@ == lower_hex(bytes@),
{
    let mut hex = String::new();
    let mut i: usize = 0;
    while i < bytes.len()
        invariant
            i <= bytes@.len(),
            hex@ == lower_hex(bytes@.subrange(0, i as int)),
        decreases bytes@.len() - i,
    {
        let b = bytes[i];
        push_char(&mut hex, hex_digit_exec(b / 16));
        push_char(&mut hex, hex_digit_exec(b % 16));
        assert(bytes@.subrange(0, i + 1).drop_last() =~= bytes@.subrange(0, i as int));
        i = i + 1;
    }
    assert(bytes@.subrange(0, bytes@.len() as int) =~= bytes@);
    hex
}

/// The hash of a plan whose text is `plan_text`: the lower-case hex of its
/// MD5 digest.
pub fn plan_hash(plan_text: &str) -> (hash: String)
    ensures
        hash@ == lower_hex(md5_digest(plan_text.spec_bytes())),
        hash@.len() == 32,
{
    let digest = md5_compute(plan_text.as_bytes());
    proof {
        lemma_lower_hex_len(digest@);
    }
    to_lower_hex(&digest)
}

} // verus!
