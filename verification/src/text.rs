//! Small verified string helpers.

use vstd::prelude::*;
use vstd::string::*;

verus! {

/// Whether two strings have the same characters.
pub fn str_eq(a: &str, b: &str) -> (r: bool)
    ensures
        r == (a@ == b@),
{
    let n = a.unicode_len();
    if n != b.unicode_len() {
        return false;
    }
    let mut k: usize = 0;
    while k < n
        invariant
            n == a@.len(),
            n == b@.len(),
            k <= n,
            forall|m: int| 0 <= m < k ==> a@[m] == b@[m],
        decreases n - k,
    {
        if a.get_char(k) != b.get_char(k) {
            return false;
        }
        k = k + 1;
    }
    assert(a@ =~= b@);
    true
}

/// Lexicographic order on character sequences, character by character by
/// code point, a proper prefix first. This is the order of `str`'s `Ord`:
/// byte-wise comparison of UTF-8 orders text as its code points do.
pub open spec fn char_seq_lt(a: Seq<char>, b: Seq<char>) -> bool
    decreases a.len(),
{
    if a.len() == 0 {
        b.len() > 0
    } else if b.len() == 0 {
        false
    } else if a[0] != b[0] {
        (a[0] as int) < (b[0] as int)
    } else {
        char_seq_lt(a.drop_first(), b.drop_first())
    }
}

/// No sequence precedes itself.
pub proof fn lemma_char_seq_lt_irreflexive(a: Seq<char>)
    ensures
        !char_seq_lt(a, a),
    decreases a.len(),
{
    if a.len() > 0 {
        lemma_char_seq_lt_irreflexive(a.drop_first());
    }
}

/// The order is transitive.
pub proof fn lemma_char_seq_lt_transitive(a: Seq<char>, b: Seq<char>, c: Seq<char>)
    requires
        char_seq_lt(a, b),
        char_seq_lt(b, c),
    ensures
        char_seq_lt(a, c),
    decreases a.len(),
{
    if a.len() > 0 && b.len() > 0 && c.len() > 0 && a[0] == b[0] && b[0] == c[0] {
        lemma_char_seq_lt_transitive(a.drop_first(), b.drop_first(), c.drop_first());
    }
}

/// Two different sequences are ordered one way or the other.
pub proof fn lemma_char_seq_lt_total(a: Seq<char>, b: Seq<char>)
    requires
        a != b,
    ensures
        char_seq_lt(a, b) || char_seq_lt(b, a),
    decreases a.len(),
{
    if a.len() == 0 {
        assert(b.len() > 0) by {
            if b.len() == 0 {
                assert(a =~= b);
            }
        }
    } else if b.len() > 0 {
        if a[0] == b[0] {
            assert(a.drop_first() != b.drop_first()) by {
                if a.drop_first() == b.drop_first() {
                    assert(a =~= seq![a[0]] + a.drop_first());
                    assert(b =~= seq![b[0]] + b.drop_first());
                }
            }
            lemma_char_seq_lt_total(a.drop_first(), b.drop_first());
        } else {
            assert((a[0] as int) != (b[0] as int));
        }
    }
}

/// Whether `a` comes before `b` in the order of [`char_seq_lt`].
pub fn str_lt(a: &str, b: &str) -> (r: bool)
    ensures
        r == char_seq_lt(a@, b@),
{
    let n = a.unicode_len();
    let m = b.unicode_len();
    let mut k: usize = 0;
    assert(a@.skip(0) =~= a@);
    assert(b@.skip(0) =~= b@);
    while k < n && k < m
        invariant
            n == a@.len(),
            m == b@.len(),
            k <= n,
            k <= m,
            char_seq_lt(a@, b@) == char_seq_lt(a@.skip(k as int), b@.skip(k as int)),
        decreases n - k,
    {
        let x = a.get_char(k);
        let y = b.get_char(k);
        proof {
            assert(a@.skip(k as int)[0] == x);
            assert(b@.skip(k as int)[0] == y);
            assert(a@.skip(k as int).drop_first() =~= a@.skip(k + 1));
            assert(b@.skip(k as int).drop_first() =~= b@.skip(k + 1));
        }
        if x != y {
            return (x as u32) < (y as u32);
        }
        k = k + 1;
    }
    k < m
}

/// The character of decimal digit `d`.
pub open spec fn digit_text(d: nat) -> Seq<char> {
    if d == 0 {
        "0"@
    } else if d == 1 {
        "1"@
    } else if d == 2 {
        "2"@
    } else if d == 3 {
        "3"@
    } else if d == 4 {
        "4"@
    } else if d == 5 {
        "5"@
    } else if d == 6 {
        "6"@
    } else if d == 7 {
        "7"@
    } else if d == 8 {
        "8"@
    } else {
        "9"@
    }
}

/// The decimal digits of `n`, most significant first, without leading
/// zeros (`"0"` for zero): how `usize`'s `Display` writes it.
pub open spec fn decimal_text(n: usize) -> Seq<char>
    decreases n,
{
    if n < 10 {
        digit_text(n as nat)
    } else {
        decimal_text(n / 10) + digit_text((n % 10) as nat)
    }
}

fn digit(d: usize) -> (s: &'static str)
    requires
        d < 10,
    ensures
        s@ == digit_text(d as nat),
{
    if d == 0 {
        "0"
    } else if d == 1 {
        "1"
    } else if d == 2 {
        "2"
    } else if d == 3 {
        "3"
    } else if d == 4 {
        "4"
    } else if d == 5 {
        "5"
    } else if d == 6 {
        "6"
    } else if d == 7 {
        "7"
    } else if d == 8 {
        "8"
    } else {
        "9"
    }
}

/// Writes `n` in decimal, as `usize`'s `Display` does.
pub fn decimal(n: usize) -> (s: String)
    ensures
        s@ == decimal_text(n),
    decreases n,
{
    if n < 10 {
        String::from_str(digit(n))
    } else {
        let high = decimal(n / 10);
        high.concat(digit(n % 10))
    }
}

} // verus!
