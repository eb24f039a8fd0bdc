//! Building text one character at a time, and decimal numerals.
use vstd::prelude::*;

verus! {

/// Calls `String::push`; the contract claims what std documents: `c` is
/// appended at the end.
#[verifier::external_body]
pub(crate) fn push_char(s: &mut String, c: char)
    ensures
        final(s)@ == old(s)@.push(c),
{
    s.push(c)
}

/// The decimal digit for `d` (below 10).
pub open spec fn decimal_digit(d: nat) -> char
    recommends
        d < 10,
{
    (d + 48) as char
}

/// The decimal numeral of `n`, without leading zeros.
pub open spec fn decimal(n: nat) -> Seq<char>
    decreases n,
{
    if n < 10 {
        seq![decimal_digit(n)]
    } else {
        decimal(n / 10).push(decimal_digit(n % 10))
    }
}

/// A character from '0' to '9'.
pub open spec fn is_decimal_digit(c: char) -> bool {
    '0' <= c <= '9'
}

/// The number a string of decimal digits denotes, read left to right.
pub open spec fn numeral_value(s: Seq<char>) -> int
    decreases s.len(),
{
    if s.len() == 0 {
        0
    } else {
        numeral_value(s.drop_last()) * 10 + ((s.last() as int) - ('0' as int))
    }
}

/// The numeral of `n` is the standard base-10 numeral: it is made of
/// decimal digits, reads back as `n`, and has no leading zero.
pub proof fn lemma_decimal_reads_back(n: nat)
    ensures
        decimal(n).len() >= 1,
        forall|i: int| 0 <= i < decimal(n).len() ==> is_decimal_digit(#[trigger] decimal(n)[i]),
        numeral_value(decimal(n)) == n,
        decimal(n)[0] == '0' ==> n == 0,
    decreases n,
{
    if n >= 10 {
        let q = n / 10;
        let r = n % 10;
        lemma_decimal_reads_back(q);
        let d = decimal(n);
        let prefix = decimal(q);
        assert(d.drop_last() =~= prefix);
        assert forall|i: int| 0 <= i < d.len() implies is_decimal_digit(#[trigger] d[i]) by {
            if i < prefix.len() {
                assert(d[i] == prefix[i]);
            }
        }
        assert(d[0] == prefix[0]);
        assert(d.last() == decimal_digit(r));
        assert((decimal_digit(r) as int) == r + 48);
        assert(numeral_value(d) == numeral_value(prefix) * 10 + r);
        assert(q * 10 + r == n);
        assert(numeral_value(d) == n);
    } else {
        let d = decimal(n);
        assert(d.drop_last() =~= Seq::<char>::empty());
        assert(numeral_value(d.drop_last()) == 0);
        assert(d.last() == decimal_digit(n));
        assert((decimal_digit(n) as int) == n + 48);
        assert(numeral_value(d) == n);
    }
}

/// Appends the decimal numeral of `n` to `s`.
fn push_decimal(s: &mut String, n: u64)
    ensures
        final(s)@ == old(s)@ + decimal(n as nat),
    decreases n,
{
    if n >= 10 {
        push_decimal(s, n / 10);
    }
    let digit = (n % 10) as u8;
    push_char(s, (digit + 48) as char);
    assert(s@ =~= old(s)@ + decimal(n as nat));
}

/// The decimal numeral of `n`, as `n.to_string()` writes it.
pub fn to_decimal(n: u64) -> (numeral: String)
    ensures
        numeral@ == decimal(n as nat),
        numeral_value(numeral@) == n,
        forall|i: int| 0 <= i < numeral@.len() ==> is_decimal_digit(#[trigger] numeral@[i]),
{
    proof {
        lemma_decimal_reads_back(n as nat);
    }
    let mut numeral = String::new();
    push_decimal(&mut numeral, n);
    assert(numeral@ =~= decimal(n as nat));
    numeral
}

} // verus!
