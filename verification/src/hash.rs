//! Deriving a poll's hash from its creator and title.
//!
//! The hash is the decimal form of the 64-bit digest that the standard
//! hasher gives for the creator's textual identity followed by the title. It
//! depends on creator and title alone: the same pair always names the same
//! poll.

use crate::identity::{principal_text, Identity};
use std::collections::hash_map::DefaultHasher;
use std::hash::Hasher;
use vstd::prelude::*;
use vstd::std_specs::hash::DefaultHasherAdditionalSpecFns;
use vstd::string::StringExecFns;
use vstd::utf8::encode_utf8;

verus! {

/// The character of a decimal digit.
pub open spec fn digit_char(d: nat) -> char {
    if d == 0 {
        '0'
    } else if d == 1 {
        '1'
    } else if d == 2 {
        '2'
    } else if d == 3 {
        '3'
    } else if d == 4 {
        '4'
    } else if d == 5 {
        '5'
    } else if d == 6 {
        '6'
    } else if d == 7 {
        '7'
    } else if d == 8 {
        '8'
    } else {
        '9'
    }
}

/// The decimal digits of `n`, most significant first, without leading zeros.
pub open spec fn decimal(n: nat) -> Seq<char>
    decreases n,
{
    if n < 10 {
        seq![digit_char(n)]
    } else {
        decimal(n / 10).push(digit_char(n % 10))
    }
}

/// The text of one decimal digit.
fn digit_text(d: u64) -> (text: &'static str)
    requires
        d < 10,
    ensures
        text@ == seq![digit_char(d as nat)],
{
    let text = if d == 0 {
        "0"
    } else if d == 1 {
        "1"
    } else if d == 2 {
        "2"
    } else if d == 3 {
        "3"
    } else if d == 4 {
        "4"
    } else if d == 5 {
        "5"
    } else if d == 6 {
        "6"
    } else if d == 7 {
        "7"
    } else if d == 8 {
        "8"
    } else {
        "9"
    };
    proof {
        reveal_strlit("0");
        reveal_strlit("1");
        reveal_strlit("2");
        reveal_strlit("3");
        reveal_strlit("4");
        reveal_strlit("5");
        reveal_strlit("6");
        reveal_strlit("7");
        reveal_strlit("8");
        reveal_strlit("9");
        assert(text@ =~= seq![digit_char(d as nat)]);
    }
    text
}

/// The decimal form of `n`.
pub fn decimal_string(n: u64) -> (text: String)
    ensures
        text@ == decimal(n as nat),
{
    let mut rest: u64 = n / 10;
    let mut text = String::from_str(digit_text(n % 10));
    while rest > 0
        invariant
            rest > 0 ==> decimal(n as nat) == decimal(rest as nat) + text@,
            rest == 0 ==> decimal(n as nat) == text@,
        decreases rest,
    {
        let ghost tail = text@;
        text = String::from_str(digit_text(rest % 10)).concat(text.as_str());
        proof {
            let digit = seq![digit_char((rest % 10) as nat)];
            assert(text@ == digit + tail);
            if rest >= 10 {
                assert(decimal(rest as nat) == decimal((rest / 10) as nat).push(
                    digit_char((rest % 10) as nat),
                ));
                assert(decimal(rest as nat) + tail =~= decimal((rest / 10) as nat) + (digit
                    + tail));
            } else {
                assert(decimal(rest as nat) =~= digit);
            }
        }
        rest = rest / 10;
    }
    text
}

/// The hash of the poll that `creator` made under `title`.
pub open spec fn spec_poll_hash(creator: Seq<u8>, title: Seq<char>) -> Seq<char> {
    decimal(
        DefaultHasher::spec_finish(seq![encode_utf8(principal_text(creator) + title)]) as nat,
    )
}

/// Derives the hash of the poll that `creator` made under `title`.
pub fn poll_hash(creator: &Identity, title: &String) -> (hash: String)
    requires
        creator.wf(),
    ensures
        hash@ == spec_poll_hash(creator@, title@),
{
    let joined = creator.to_text().concat(title.as_str());
    let mut hasher = DefaultHasher::new();
    hasher.write(joined.as_str().as_bytes());
    let digest = hasher.finish();
    decimal_string(digest)
}

} // verus!
