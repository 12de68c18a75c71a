//! Text as sequences of characters.
//!
//! Everything in this crate reads a string through its view, a `Seq<char>`
//! of Unicode scalar values, so positions and lengths never refer to bytes.
//! This module holds the few general questions the parser asks of a string.

use vstd::prelude::*;
use vstd::std_specs::iter::IteratorSpec;

verus! {

/// The strings of `v`, each taken as its sequence of characters.
pub open spec fn texts(v: Seq<String>) -> Seq<Seq<char>> {
    Seq::new(v.len(), |i: int| v[i]@)
}

/// The number of characters of `s` that stand before the first `c`;
/// the length of `s` where `c` does not occur.
pub open spec fn offset_of(s: Seq<char>, c: char) -> int
    decreases s.len(),
{
    if s.len() == 0 || s[0] == c {
        0
    } else {
        1 + offset_of(s.skip(1), c)
    }
}

/// `offset_of` is the least position that holds `c`.
pub proof fn lemma_offset_of(s: Seq<char>, c: char)
    ensures
        0 <= offset_of(s, c) <= s.len(),
        forall|j: int| 0 <= j < offset_of(s, c) ==> s[j] != c,
        offset_of(s, c) < s.len() ==> s[offset_of(s, c)] == c,
        offset_of(s, c) == s.len() <==> !s.contains(c),
    decreases s.len(),
{
    if s.len() == 0 || s[0] == c {
        if s.len() > 0 {
            assert(s.contains(c));
        }
    } else {
        let t = s.skip(1);
        lemma_offset_of(t, c);
        assert forall|j: int| 0 <= j < offset_of(s, c) implies s[j] != c by {
            if j > 0 {
                assert(t[j - 1] == s[j]);
            }
        }
        if offset_of(t, c) < t.len() {
            assert(s[offset_of(s, c)] == t[offset_of(t, c)]);
            assert(s.contains(c));
        } else {
            assert forall|j: int| 0 <= j < s.len() implies s[j] != c by {
                if j > 0 {
                    assert(t[j - 1] == s[j]);
                }
            }
        }
    }
}

/// A position that holds `c` with no `c` before it is `offset_of`.
pub proof fn lemma_offset_of_unique(s: Seq<char>, c: char, k: int)
    requires
        0 <= k <= s.len(),
        forall|j: int| 0 <= j < k ==> s[j] != c,
        k < s.len() ==> s[k] == c,
    ensures
        offset_of(s, c) == k,
{
    lemma_offset_of(s, c);
    let o = offset_of(s, c);
    if o < k {
        assert(s[o] == c);
    }
}

/// Whether two strings hold the same characters.
pub fn text_eq(a: &str, b: &str) -> (same: bool)
    ensures
        same == (a@ == b@),
{
    let mut ia = a.chars();
    let mut ib = b.chars();
    let ghost mut n: int = 0;
    loop
        invariant
            0 <= n <= a@.len(),
            n <= b@.len(),
            ia.remaining() == a@.skip(n),
            ib.remaining() == b@.skip(n),
            a@.take(n) == b@.take(n),
            ia.decrease() is Some,
        decreases ia.decrease()->0,
    {
        let x = ia.next();
        let y = ib.next();
        match (x, y) {
            (None, None) => {
                proof {
                    assert(a@ =~= a@.take(n));
                    assert(b@ =~= b@.take(n));
                }
                return true;
            },
            (Some(p), Some(q)) => {
                if p != q {
                    proof {
                        assert(a@[n] != b@[n]);
                    }
                    return false;
                }
                proof {
                    assert(a@.take(n + 1) =~= a@.take(n).push(a@[n]));
                    assert(b@.take(n + 1) =~= b@.take(n).push(b@[n]));
                    assert(a@.skip(n).drop_first() =~= a@.skip(n + 1));
                    assert(b@.skip(n).drop_first() =~= b@.skip(n + 1));
                    n = n + 1;
                }
            },
            _ => {
                proof {
                    assert(a@.len() != b@.len());
                }
                return false;
            },
        }
    }
}

/// Whether `full` begins with the characters of `head`.
pub fn text_starts_with(full: &str, head: &str) -> (yes: bool)
    ensures
        yes == head@.is_prefix_of(full@),
{
    let mut it_full = full.chars();
    let mut it_head = head.chars();
    let ghost mut n: int = 0;
    loop
        invariant
            0 <= n <= full@.len(),
            n <= head@.len(),
            it_full.remaining() == full@.skip(n),
            it_head.remaining() == head@.skip(n),
            full@.take(n) == head@.take(n),
            it_head.decrease() is Some,
        decreases it_head.decrease()->0,
    {
        match it_head.next() {
            None => {
                proof {
                    assert(head@ =~= head@.take(n));
                    assert(full@.subrange(0, head@.len() as int) =~= full@.take(n));
                }
                return true;
            },
            Some(q) => {
                match it_full.next() {
                    None => {
                        return false;
                    },
                    Some(p) => {
                        if p != q {
                            proof {
                                assert(full@[n] != head@[n]);
                                if head@.len() <= full@.len() {
                                    assert(full@.subrange(0, head@.len() as int)[n] == full@[n]);
                                }
                            }
                            return false;
                        }
                        proof {
                            assert(full@.take(n + 1) =~= full@.take(n).push(full@[n]));
                            assert(head@.take(n + 1) =~= head@.take(n).push(head@[n]));
                            assert(full@.skip(n).drop_first() =~= full@.skip(n + 1));
                            assert(head@.skip(n).drop_first() =~= head@.skip(n + 1));
                            n = n + 1;
                        }
                    },
                }
            },
        }
    }
}

/// The position of the first `c` in `s`, counted in characters; the length
/// of `s` where there is none.
pub fn position_of(s: &str, c: char) -> (at: usize)
    ensures
        at == offset_of(s@, c),
{
    let len = s.unicode_len();
    let mut it = s.chars();
    let mut at: usize = 0;
    loop
        invariant
            0 <= at <= len == s@.len(),
            it.remaining() == s@.skip(at as int),
            forall|j: int| 0 <= j < at ==> s@[j] != c,
            it.decrease() is Some,
        decreases it.decrease()->0,
    {
        match it.next() {
            None => {
                proof {
                    lemma_offset_of_unique(s@, c, at as int);
                }
                return at;
            },
            Some(x) => {
                if x == c {
                    proof {
                        lemma_offset_of_unique(s@, c, at as int);
                    }
                    return at;
                }
                proof {
                    assert(s@.skip(at as int).drop_first() =~= s@.skip(at + 1));
                }
                at = at + 1;
            },
        }
    }
}

/// Whether `needle` is one of the strings of `list`.
pub fn contains_text(list: &Vec<String>, needle: &str) -> (found: bool)
    ensures
        found == texts(list@).contains(needle@),
{
    let mut i: usize = 0;
    while i < list.len()
        invariant
            0 <= i <= list.len(),
            forall|j: int| 0 <= j < i ==> texts(list@)[j] != needle@,
        decreases list.len() - i,
    {
        if text_eq(list[i].as_str(), needle) {
            assert(texts(list@)[i as int] == needle@);
            return true;
        }
        i = i + 1;
    }
    false
}

/// Appending a string to a vector appends its characters to the view.
pub proof fn lemma_texts_push(v: Seq<String>, s: String)
    ensures
        texts(v.push(s)) == texts(v).push(s@),
{
    assert(texts(v.push(s)) =~= texts(v).push(s@));
}

} // verus!
