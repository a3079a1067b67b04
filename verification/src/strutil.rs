//! Character-level string utilities: equality, prefix test, lexicographic
//! order, and decimal rendering of integers, each proved against a spec
//! function over the string's view (a `Seq<char>`).

use vstd::prelude::*;

verus! {

/// True iff `pre` is a prefix of `s`.
pub open spec fn is_prefix(pre: Seq<char>, s: Seq<char>) -> bool {
    pre.len() <= s.len() && pre == s.subrange(0, pre.len() as int)
}

/// True iff `s` contains the character `c`.
pub open spec fn contains_char(s: Seq<char>, c: char) -> bool {
    exists|i: int| 0 <= i < s.len() && s[i] == c
}

/// The character sequences that a sequence of strings holds.
pub open spec fn views(ss: Seq<String>) -> Seq<Seq<char>> {
    ss.map_values(|s: String| s@)
}

/// Strict lexicographic order on character sequences, by code point.
pub open spec fn lex_lt(a: Seq<char>, b: Seq<char>) -> bool
    decreases a.len(),
{
    if b.len() == 0 {
        false
    } else if a.len() == 0 {
        true
    } else if a[0] == b[0] {
        lex_lt(a.drop_first(), b.drop_first())
    } else {
        (a[0] as u32) < (b[0] as u32)
    }
}

/// Two sequences that neither order strictly below the other are equal.
pub proof fn lemma_lex_lt_total(a: Seq<char>, b: Seq<char>)
    requires
        !lex_lt(a, b),
        !lex_lt(b, a),
    ensures
        a == b,
    decreases a.len(),
{
    if a.len() == 0 || b.len() == 0 {
        assert(a =~= b);
    } else {
        assert(a[0] as u32 == b[0] as u32);
        vstd::utf8::char_u32_cast(a[0], a[0] as u32);
        vstd::utf8::char_u32_cast(b[0], a[0] as u32);
        assert(a[0] == b[0]);
        lemma_lex_lt_total(a.drop_first(), b.drop_first());
        assert(a =~= seq![a[0]] + a.drop_first());
        assert(b =~= seq![b[0]] + b.drop_first());
    }
}

/// Nothing orders strictly below itself.
pub proof fn lemma_lex_lt_irrefl(a: Seq<char>)
    ensures
        !lex_lt(a, a),
    decreases a.len(),
{
    if a.len() > 0 {
        lemma_lex_lt_irrefl(a.drop_first());
    }
}

/// Lexicographic order is transitive.
pub proof fn lemma_lex_lt_trans(a: Seq<char>, b: Seq<char>, c: Seq<char>)
    requires
        lex_lt(a, b),
        lex_lt(b, c),
    ensures
        lex_lt(a, c),
    decreases a.len() + b.len() + c.len(),
{
    if a.len() == 0 {
        assert(c.len() > 0);
    } else {
        assert(b.len() > 0 && c.len() > 0);
        if a[0] == b[0] && b[0] == c[0] {
            lemma_lex_lt_trans(a.drop_first(), b.drop_first(), c.drop_first());
        }
    }
}

/// True iff the view of `s` contains the character `c`.
pub fn str_contains_char(s: &str, c: char) -> (r: bool)
    ensures
        r == contains_char(s@, c),
{
    let len = s.unicode_len();
    let mut i: usize = 0;
    while i < len
        invariant
            len == s@.len(),
            i <= len,
            forall|j: int| 0 <= j < i ==> s@[j] != c,
        decreases len - i,
    {
        if s.get_char(i) == c {
            return true;
        }
        i += 1;
    }
    false
}

/// True iff the view of `a` orders strictly below the view of `b`.
pub fn str_lt(a: &str, b: &str) -> (r: bool)
    ensures
        r == lex_lt(a@, b@),
{
    let alen = a.unicode_len();
    let blen = b.unicode_len();
    let mut i: usize = 0;
    proof {
        assert(a@.skip(0) =~= a@);
        assert(b@.skip(0) =~= b@);
    }
    loop
        invariant
            alen == a@.len(),
            blen == b@.len(),
            i <= alen,
            i <= blen,
            lex_lt(a@, b@) == lex_lt(a@.skip(i as int), b@.skip(i as int)),
        decreases alen - i,
    {
        if i == blen {
            assert(b@.skip(i as int).len() == 0);
            return false;
        }
        if i == alen {
            assert(a@.skip(i as int).len() == 0);
            return true;
        }
        let ca = a.get_char(i);
        let cb = b.get_char(i);
        if ca != cb {
            proof {
                let sa = a@.skip(i as int);
                let sb = b@.skip(i as int);
                assert(sa[0] == a@[i as int] && sb[0] == b@[i as int]);
            }
            return (ca as u32) < (cb as u32);
        }
        proof {
            let sa = a@.skip(i as int);
            let sb = b@.skip(i as int);
            assert(sa[0] == a@[i as int] && sb[0] == b@[i as int]);
            assert(sa.drop_first() =~= a@.skip(i + 1));
            assert(sb.drop_first() =~= b@.skip(i + 1));
        }
        i += 1;
    }
}

/// Compare the views of two strings character by character.
pub fn str_eq(a: &str, b: &str) -> (r: bool)
    ensures
        r == (a@ == b@),
{
    let alen = a.unicode_len();
    let blen = b.unicode_len();
    if alen != blen {
        assert(a@ != b@) by {
            assert(a@.len() != b@.len());
        }
        return false;
    }
    let mut i: usize = 0;
    while i < alen
        invariant
            alen == a@.len(),
            alen == b@.len(),
            i <= alen,
            forall|j: int| 0 <= j < i ==> a@[j] == b@[j],
        decreases alen - i,
    {
        if a.get_char(i) != b.get_char(i) {
            assert(a@ != b@);
            return false;
        }
        i += 1;
    }
    assert(a@ =~= b@);
    true
}

/// True iff the view of `pre` is a prefix of the view of `s`.
pub fn str_starts_with(s: &str, pre: &str) -> (r: bool)
    ensures
        r == is_prefix(pre@, s@),
{
    let slen = s.unicode_len();
    let plen = pre.unicode_len();
    if plen > slen {
        return false;
    }
    let mut i: usize = 0;
    while i < plen
        invariant
            slen == s@.len(),
            plen == pre@.len(),
            plen <= slen,
            i <= plen,
            forall|j: int| 0 <= j < i ==> s@[j] == pre@[j],
        decreases plen - i,
    {
        if s.get_char(i) != pre.get_char(i) {
            assert(pre@ != s@.subrange(0, plen as int)) by {
                assert(s@.subrange(0, plen as int)[i as int] == s@[i as int]);
            }
            return false;
        }
        i += 1;
    }
    assert(pre@ =~= s@.subrange(0, plen as int));
    true
}

} // verus!
