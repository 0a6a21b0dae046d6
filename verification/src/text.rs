//! Character-level helpers shared by the parser and the report builder.
use vstd::prelude::*;

verus! {

/// Appends one character to a string.
///
/// Trusted: wraps `String::push`, which, as std documents, appends the given
/// `char` to the end of the string.
#[verifier::external_body]
pub(crate) fn push_char(s: &mut String, c: char)
    ensures
        final(s)@ == old(s)@.push(c),
{
    s.push(c);
}

/// Whether two strings hold the same characters.
///
/// Trusted: wraps `<str as PartialEq>::eq`, which std documents as comparing
/// the two strings' contents.
#[verifier::external_body]
pub(crate) fn str_eq(a: &str, b: &str) -> (res: bool)
    ensures
        res == (a@ == b@),
{
    a == b
}

/// The characters of `s`, in order.
pub fn chars_of(s: &str) -> (res: Vec<char>)
    ensures
        res@ == s@,
{
    let mut out: Vec<char> = Vec::new();
    for c in it: s.chars()
        invariant
            it.seq() == s@,
            out@ == it.seq().take(it.index() as int),
    {
        out.push(c);
    }
    out
}

/// Lexicographic order on character sequences, comparing characters by code
/// point. For strings this is the order of `String`'s `Ord` (UTF-8 preserves
/// code-point order byte by byte).
pub open spec fn lex_less(a: Seq<char>, b: Seq<char>) -> bool
    decreases a.len(),
{
    if a.len() == 0 {
        b.len() > 0
    } else if b.len() == 0 {
        false
    } else if a[0] != b[0] {
        (a[0] as int) < (b[0] as int)
    } else {
        lex_less(a.drop_first(), b.drop_first())
    }
}

/// `a` comes before `b` exactly when `a` is a proper prefix of `b`, or at the
/// first position where they differ `a` has the smaller character.
pub proof fn lemma_lex_first_difference(a: Seq<char>, b: Seq<char>)
    ensures
        lex_less(a, b) <==> ((a.len() < b.len() && b.take(a.len() as int) == a) || exists|i: int|
            0 <= i < a.len() && i < b.len() && a.take(i) == b.take(i) && (a[i] as int) < (b[i] as int)),
    decreases a.len(),
{
    if a.len() > 0 && b.len() > 0 {
        lemma_lex_first_difference(a.drop_first(), b.drop_first());
        let (a1, b1) = (a.drop_first(), b.drop_first());
        if a[0] == b[0] {
            if a1.len() < b1.len() && b1.take(a1.len() as int) == a1 {
                assert(b.take(a.len() as int) =~= seq![b[0]] + b1.take(a1.len() as int));
                assert(a =~= seq![a[0]] + a1);
            }
            if a.len() < b.len() && b.take(a.len() as int) == a {
                assert(b1.take(a1.len() as int) =~= b.take(a.len() as int).drop_first());
                assert(a1 =~= a.drop_first());
            }
            if exists|i: int| 0 <= i < a1.len() && i < b1.len() && a1.take(i) == b1.take(i) && (a1[i] as int) < (b1[i] as int) {
                let i = choose|i: int| 0 <= i < a1.len() && i < b1.len() && a1.take(i) == b1.take(i) && (a1[i] as int) < (b1[i] as int);
                assert(a.take(i + 1) =~= seq![a[0]] + a1.take(i));
                assert(b.take(i + 1) =~= seq![b[0]] + b1.take(i));
                assert(a[i + 1] == a1[i] && b[i + 1] == b1[i]);
            }
            if exists|i: int| 0 <= i < a.len() && i < b.len() && a.take(i) == b.take(i) && (a[i] as int) < (b[i] as int) {
                let i = choose|i: int| 0 <= i < a.len() && i < b.len() && a.take(i) == b.take(i) && (a[i] as int) < (b[i] as int);
                assert(i > 0);
                assert(a1.take(i - 1) =~= a.take(i).drop_first());
                assert(b1.take(i - 1) =~= b.take(i).drop_first());
                assert(a1[i - 1] == a[i] && b1[i - 1] == b[i]);
            }
        } else {
            if (a[0] as int) < (b[0] as int) {
                assert(a.take(0) =~= b.take(0));
            }
            if a.len() < b.len() && b.take(a.len() as int) == a {
                assert(b.take(a.len() as int)[0] == b[0]);
            }
            if exists|i: int| 0 <= i < a.len() && i < b.len() && a.take(i) == b.take(i) && (a[i] as int) < (b[i] as int) {
                let i = choose|i: int| 0 <= i < a.len() && i < b.len() && a.take(i) == b.take(i) && (a[i] as int) < (b[i] as int);
                if i > 0 {
                    assert(a.take(i)[0] == b.take(i)[0]);
                }
            }
        }
    } else if a.len() == 0 && b.len() > 0 {
        assert(b.take(0) =~= a);
    }
}

/// `lex_less` is transitive.
pub proof fn lemma_lex_transitive(a: Seq<char>, b: Seq<char>, c: Seq<char>)
    requires
        lex_less(a, b),
        lex_less(b, c),
    ensures
        lex_less(a, c),
    decreases a.len(),
{
    if a.len() > 0 && b.len() > 0 && c.len() > 0 && a[0] == b[0] && b[0] == c[0] {
        lemma_lex_transitive(a.drop_first(), b.drop_first(), c.drop_first());
    }
}

/// Two different sequences are ordered one way or the other.
pub proof fn lemma_lex_total(a: Seq<char>, b: Seq<char>)
    requires
        a != b,
    ensures
        lex_less(a, b) || lex_less(b, a),
    decreases a.len(),
{
    if a.len() > 0 && b.len() > 0 && a[0] == b[0] {
        if a.drop_first() == b.drop_first() {
            assert(a =~= seq![a[0]] + a.drop_first());
            assert(b =~= seq![b[0]] + b.drop_first());
        }
        lemma_lex_total(a.drop_first(), b.drop_first());
    } else if a.len() == 0 && b.len() == 0 {
        assert(a =~= b);
    } else if a.len() > 0 && b.len() > 0 {
        assert((a[0] as int) != (b[0] as int));
    }
}

proof fn lemma_lex_skip(a: Seq<char>, b: Seq<char>, i: int)
    requires
        0 <= i < a.len(),
        i < b.len(),
        a.take(i) == b.take(i),
        a[i] == b[i],
    ensures
        lex_less(a.skip(i), b.skip(i)) == lex_less(a.skip(i + 1), b.skip(i + 1)),
{
    assert(a.skip(i).drop_first() =~= a.skip(i + 1));
    assert(b.skip(i).drop_first() =~= b.skip(i + 1));
}

/// Whether `a` comes strictly before `b` in code-point lexicographic order.
pub fn seq_less(a: &Vec<char>, b: &Vec<char>) -> (res: bool)
    ensures
        res == lex_less(a@, b@),
{
    let mut i: usize = 0;
    assert(a@.skip(0) =~= a@);
    assert(b@.skip(0) =~= b@);
    while i < a.len() && i < b.len()
        invariant
            i <= a.len(),
            i <= b.len(),
            a@.take(i as int) == b@.take(i as int),
            lex_less(a@, b@) == lex_less(a@.skip(i as int), b@.skip(i as int)),
        decreases a.len() - i,
    {
        if a[i] != b[i] {
            return a[i] < b[i];
        }
        proof {
            lemma_lex_skip(a@, b@, i as int);
            assert(a@.take(i + 1) =~= a@.take(i as int).push(a@[i as int]));
            assert(b@.take(i + 1) =~= b@.take(i as int).push(b@[i as int]));
        }
        i = i + 1;
    }
    i < b.len()
}

/// Whether `a` comes strictly before `b` in the order of `String`'s `Ord`.
pub fn str_less(a: &str, b: &str) -> (res: bool)
    ensures
        res == lex_less(a@, b@),
{
    let ca = chars_of(a);
    let cb = chars_of(b);
    seq_less(&ca, &cb)
}

} // verus!
