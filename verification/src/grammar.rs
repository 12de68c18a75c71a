//! The shapes a command-line token can have.
//!
//! A token is classified by its first characters alone:
//!
//!  * `--` is the terminator;
//!  * `--` followed by a character other than `-` is a long option, whose
//!    name runs up to the first `=` and whose value, if any, follows it;
//!  * `-` followed by a character other than space and `-` is a series of
//!    short options;
//!  * anything else is an ordinary argument.
//!
//! Each question is stated once as a `spec` function on `Seq<char>` and
//! answered by an executable function with the same meaning.

use vstd::prelude::*;
use vstd::std_specs::iter::IteratorSpec;
use crate::text::{lemma_offset_of, offset_of, position_of};

verus! {

/// The token `--`, which ends option parsing.
pub open spec fn is_terminator(t: Seq<char>) -> bool {
    t.len() == 2 && t[0] == '-' && t[1] == '-'
}

/// A token that is written as a long option: `--` and then a character
/// that is not `-`.
pub open spec fn is_long_form(t: Seq<char>) -> bool {
    t.len() >= 3 && t[0] == '-' && t[1] == '-' && t[2] != '-'
}

/// A token that is written as a series of short options: `-` and then a
/// character that may name a short option.
pub open spec fn is_short_form(t: Seq<char>) -> bool {
    t.len() >= 2 && t[0] == '-' && t[1] != ' ' && t[1] != '-'
}

/// What follows the `--` of a long option.
pub open spec fn long_body(t: Seq<char>) -> Seq<char> {
    t.skip(2)
}

/// The name in a long option: its body up to the first `=`.
pub open spec fn long_name(t: Seq<char>) -> Seq<char> {
    long_body(t).take(offset_of(long_body(t), '='))
}

/// Whether a long option carries a value after `=`. The `=` counts only
/// behind at least two characters, the shortest long name.
pub open spec fn long_has_equal_sign(t: Seq<char>) -> bool {
    exists|i: int| 2 <= i < long_body(t).len() && long_body(t)[i] == '='
}

/// The value in a long option: what follows the first `=` of its body,
/// and the empty text where the body has no `=`.
pub open spec fn long_equal_value(t: Seq<char>) -> Seq<char> {
    let body = long_body(t);
    let at = offset_of(body, '=');
    if at < body.len() {
        body.skip(at + 1)
    } else {
        Seq::empty()
    }
}

/// A name that a long option may have: two characters or more, the first
/// not `-`, none of them a space or `=`.
pub open spec fn is_long_name(n: Seq<char>) -> bool {
    &&& n.len() >= 2
    &&& n[0] != '-'
    &&& forall|i: int| 0 <= i < n.len() ==> n[i] != ' ' && n[i] != '='
}

/// A character that may name a short option.
pub open spec fn is_short_char(c: char) -> bool {
    c != ' ' && c != '-'
}

/// A name that a short option may have: one character, neither space
/// nor `-`.
pub open spec fn is_short_name(n: Seq<char>) -> bool {
    n.len() == 1 && is_short_char(n[0])
}

/// What follows the `-` of a series of short options.
pub open spec fn short_series(t: Seq<char>) -> Seq<char> {
    if t.len() >= 1 {
        t.skip(1)
    } else {
        Seq::empty()
    }
}

/// Whether `s` is the token `--`.
pub fn is_option_terminator(s: &str) -> (yes: bool)
    ensures
        yes == is_terminator(s@),
{
    let mut it = s.chars();
    let first = it.next();
    let second = it.next();
    let third = it.next();
    match (first, second, third) {
        (Some(a), Some(b), None) => a == '-' && b == '-',
        _ => false,
    }
}

/// Whether `s` is written as a long option.
pub fn is_long_option_prefix(s: &str) -> (yes: bool)
    ensures
        yes == is_long_form(s@),
{
    let mut it = s.chars();
    let first = it.next();
    let second = it.next();
    let third = it.next();
    match (first, second, third) {
        (Some(a), Some(b), Some(c)) => a == '-' && b == '-' && c != '-',
        _ => false,
    }
}

/// Whether `s` is written as a series of short options.
pub fn is_short_option_prefix(s: &str) -> (yes: bool)
    ensures
        yes == is_short_form(s@),
{
    let mut it = s.chars();
    let first = it.next();
    let second = it.next();
    match (first, second) {
        (Some(a), Some(b)) => a == '-' && b != ' ' && b != '-',
        _ => false,
    }
}

/// The body of the long option `s` as a borrowed piece of it.
fn long_option_body(s: &str) -> (body: &str)
    requires
        is_long_form(s@),
    ensures
        body@ == long_body(s@),
{
    let len = s.unicode_len();
    s.substring_char(2, len)
}

/// What follows the `--` of the long option `s`.
pub fn get_long_option(s: &str) -> (body: String)
    requires
        is_long_form(s@),
    ensures
        body@ == long_body(s@),
{
    long_option_body(s).to_owned()
}

/// The name in the long option `s`: what stands between `--` and the
/// first `=`.
pub fn get_long_option_name(s: &str) -> (name: String)
    requires
        is_long_form(s@),
    ensures
        name@ == long_name(s@),
{
    let body = long_option_body(s);
    let at = position_of(body, '=');
    proof {
        lemma_offset_of(body@, '=');
    }
    body.substring_char(0, at).to_owned()
}

/// Whether the long option `s` has an `=` behind a name of two characters
/// or more.
pub fn is_long_option_equal_sign(s: &str) -> (yes: bool)
    requires
        is_long_form(s@),
    ensures
        yes == long_has_equal_sign(s@),
{
    let body = long_option_body(s);
    let len = body.unicode_len();
    if len < 2 {
        return false;
    }
    let tail = body.substring_char(2, len);
    let at = position_of(tail, '=');
    proof {
        lemma_offset_of(tail@, '=');
        if at < len - 2 {
            assert(body@[at + 2] == tail@[at as int]);
        } else {
            assert forall|i: int| 2 <= i < body@.len() implies body@[i] != '=' by {
                assert(body@[i] == tail@[i - 2]);
            }
        }
    }
    at < len - 2
}

/// The value in the long option `s`: what follows its first `=`, and the
/// empty string where it has none.
pub fn get_long_option_equal_value(s: &str) -> (value: String)
    requires
        is_long_form(s@),
    ensures
        value@ == long_equal_value(s@),
{
    let body = long_option_body(s);
    let len = body.unicode_len();
    let at = position_of(body, '=');
    proof {
        lemma_offset_of(body@, '=');
    }
    if at < len {
        body.substring_char(at + 1, len).to_owned()
    } else {
        String::new()
    }
}

/// Whether `s` may be the name of a long option.
pub fn is_valid_long_option_name(s: &str) -> (yes: bool)
    ensures
        yes == is_long_name(s@),
{
    let mut it = s.chars();
    let ghost mut n: int = 0;
    let mut seen_one = false;
    let mut seen_two = false;
    loop
        invariant
            0 <= n <= s@.len(),
            it.remaining() == s@.skip(n),
            n >= 1 ==> s@[0] != '-',
            forall|j: int| 0 <= j < n ==> s@[j] != ' ' && s@[j] != '=',
            seen_one == (n >= 1),
            seen_two == (n >= 2),
            it.decrease() is Some,
        decreases it.decrease()->0,
    {
        match it.next() {
            None => {
                return seen_two;
            },
            Some(c) => {
                assert(c == s@[n]);
                if c == ' ' || c == '=' || (!seen_one && c == '-') {
                    return false;
                }
                proof {
                    assert(s@.skip(n).drop_first() =~= s@.skip(n + 1));
                    n = n + 1;
                }
                if seen_one {
                    seen_two = true;
                }
                seen_one = true;
            },
        }
    }
}

/// Whether `s` may be the name of a short option.
pub fn is_valid_short_option_name(s: &str) -> (yes: bool)
    ensures
        yes == is_short_name(s@),
{
    let mut it = s.chars();
    let first = it.next();
    let second = it.next();
    match (first, second) {
        (Some(c), None) => c != ' ' && c != '-',
        _ => false,
    }
}

/// What follows the first character of `s`: the short options of a token
/// that is written as a series of them.
pub fn get_short_option_series(s: &str) -> (series: String)
    ensures
        series@ == short_series(s@),
{
    let len = s.unicode_len();
    if len >= 1 {
        s.substring_char(1, len).to_owned()
    } else {
        String::new()
    }
}

} // verus!
