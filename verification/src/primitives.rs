//! Byte strings of fixed width, and the two ways in which values are written as text.

use vstd::prelude::*;

verus! {

/// An account address.
pub type Address = [u8; 20];

/// A 256-bit word: a hash, a state root or a log topic.
pub type B256 = [u8; 32];

/// The lower-case hexadecimal digit for `n`, where `n` is below 16.
pub open spec fn hex_digit(n: int) -> char {
    if n < 10 {
        ('0' as int + n) as char
    } else {
        ('a' as int + n - 10) as char
    }
}

/// `0x`, then two hexadecimal digits for each byte, the high half first.
pub open spec fn hex_text(bytes: Seq<u8>) -> Seq<char> {
    Seq::new(
        2 + 2 * bytes.len(),
        |i: int|
            if i == 0 {
                '0'
            } else if i == 1 {
                'x'
            } else if i % 2 == 0 {
                hex_digit(bytes[(i - 2) / 2] as int / 16)
            } else {
                hex_digit(bytes[(i - 2) / 2] as int % 16)
            },
    )
}

/// The decimal digits of `n`, without leading zeros.
pub open spec fn decimal_text(n: nat) -> Seq<char>
    decreases n,
{
    if n < 10 {
        seq![hex_digit(n as int)]
    } else {
        decimal_text(n / 10).push(hex_digit(n as int % 10))
    }
}

/// Writes a word as text, through `Display` of `alloy_primitives::B256` without the alternate
/// flag: `0x` and 64 lower-case hexadecimal digits.
#[verifier::external_body]
pub(crate) fn word_to_string(word: &B256) -> (text: String)
    ensures
        text@ == hex_text(word@),
{
    alloy_primitives::B256::from(*word).to_string()
}

/// The digit `n` as text.
fn digit(n: usize) -> (text: &'static str)
    requires
        n < 10,
    ensures
        text@ == seq![hex_digit(n as int)],
{
    proof {
        reveal_strlit("0");
        reveal_strlit("1");
        reveal_strlit("2");
        reveal_strlit("3");
        reveal_strlit("4");
        reveal_strlit("5");
        reveal_strlit("6");
        reveal_strlit("7");
        reveal_strlit("8");
        reveal_strlit("9");
    }
    match n {
        0 => "0",
        1 => "1",
        2 => "2",
        3 => "3",
        4 => "4",
        5 => "5",
        6 => "6",
        7 => "7",
        8 => "8",
        _ => "9",
    }
}

/// Writes a count in decimal.
pub fn count_to_string(count: usize) -> (text: String)
    ensures
        text@ == decimal_text(count as nat),
    decreases count,
{
    if count < 10 {
        digit(count).to_string()
    } else {
        let mut text = count_to_string(count / 10);
        text.append(digit(count % 10));
        assert(text@ =~= decimal_text(count as nat));
        text
    }
}

/// Whether two byte strings are equal.
pub fn bytes_equal(left: &[u8], right: &[u8]) -> (equal: bool)
    ensures
        equal == (left@ == right@),
{
    if left.len() != right.len() {
        return false;
    }
    let mut i: usize = 0;
    while i < left.len()
        invariant
            i <= left@.len(),
            left@.len() == right@.len(),
            forall|j: int| 0 <= j < i ==> left@[j] == right@[j],
        decreases left@.len() - i,
    {
        if left[i] != right[i] {
            assert(left@[i as int] != right@[i as int]);
            return false;
        }
        i += 1;
    }
    assert(left@ =~= right@);
    true
}

} // verus!
