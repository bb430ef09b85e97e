//! Plain-text helpers: character/string conversions, display width, and
//! the byte-lexicographic order used to sort rows.

use vstd::prelude::*;

verus! {

/// The terminal display width (in columns) of a piece of text. It depends
/// on the characters alone.
pub uninterp spec fn display_width(s: Seq<char>) -> nat;

/// Relies on unicode_width's `UnicodeWidthStr::width`: the displayed width
/// of a string in columns, determined by its characters alone; the empty
/// string occupies no columns.
#[verifier::external_body]
pub fn text_width(s: &str) -> (r: usize)
    ensures
        r as nat == display_width(s@),
        s@.len() == 0 ==> r == 0,
{
    unicode_width::UnicodeWidthStr::width(s)
}

/// Relies on alloc's `FromIterator for String`: collecting characters
/// yields the string of exactly those characters.
#[verifier::external_body]
pub fn chars_to_string(v: &Vec<char>) -> (r: String)
    ensures
        r@ == v@,
{
    v.iter().collect()
}

/// The characters of a string slice, one vector element per `char`.
pub fn str_to_chars(s: &str) -> (r: Vec<char>)
    ensures
        r@ == s@,
{
    let n = s.unicode_len();
    let mut r: Vec<char> = Vec::new();
    let mut i: usize = 0;
    while i < n
        invariant
            n == s@.len(),
            i <= n,
            r@ == s@.subrange(0, i as int),
        decreases n - i,
    {
        r.push(s.get_char(i));
        assert(r@ =~= s@.subrange(0, i + 1 as int));
        i = i + 1;
    }
    assert(r@ =~= s@);
    r
}

/// Byte-lexicographic "less or equal" on text, starting from position `i`:
/// the order of the code points decides at the first difference, and a
/// prefix sorts before every extension of it.
pub open spec fn lex_le_from(a: Seq<char>, b: Seq<char>, i: int) -> bool
    decreases a.len() - i,
{
    if i >= a.len() {
        true
    } else if i >= b.len() {
        false
    } else if a[i] == b[i] {
        lex_le_from(a, b, i + 1)
    } else {
        a[i] < b[i]
    }
}

/// Byte-lexicographic "less or equal" on text.
pub open spec fn lex_le(a: Seq<char>, b: Seq<char>) -> bool {
    lex_le_from(a, b, 0)
}

/// Compares two strings in byte-lexicographic order.
pub fn str_le(a: &str, b: &str) -> (r: bool)
    ensures
        r == lex_le(a@, b@),
{
    let na = a.unicode_len();
    let nb = b.unicode_len();
    let mut i: usize = 0;
    loop
        invariant
            na == a@.len(),
            nb == b@.len(),
            i <= na,
            i <= nb,
            lex_le(a@, b@) == lex_le_from(a@, b@, i as int),
        decreases na - i,
    {
        if i >= na {
            return true;
        }
        if i >= nb {
            return false;
        }
        let ca = a.get_char(i);
        let cb = b.get_char(i);
        if ca != cb {
            return ca < cb;
        }
        i = i + 1;
    }
}

/// The order is total: of any two texts, one sorts at or before the other.
pub proof fn lemma_lex_le_total(a: Seq<char>, b: Seq<char>)
    ensures
        lex_le(a, b) || lex_le(b, a),
{
    lemma_lex_le_from_total(a, b, 0);
}

proof fn lemma_lex_le_from_total(a: Seq<char>, b: Seq<char>, i: int)
    requires
        0 <= i,
    ensures
        lex_le_from(a, b, i) || lex_le_from(b, a, i),
    decreases a.len() - i,
{
    if i >= a.len() {
        assert(lex_le_from(a, b, i));
    } else if i >= b.len() {
        assert(lex_le_from(b, a, i));
    } else if a[i] == b[i] {
        lemma_lex_le_from_total(a, b, i + 1);
        assert(lex_le_from(a, b, i) == lex_le_from(a, b, i + 1));
        assert(lex_le_from(b, a, i) == lex_le_from(b, a, i + 1));
    } else {
        if a[i] < b[i] {
            assert(lex_le_from(a, b, i));
        } else {
            assert(b[i] < a[i]);
            assert(lex_le_from(b, a, i));
        }
    }
}

/// The order is antisymmetric: two texts that each sort at or before the
/// other are equal.
pub proof fn lemma_lex_le_antisymmetric(a: Seq<char>, b: Seq<char>)
    requires
        lex_le(a, b),
        lex_le(b, a),
    ensures
        a =~= b,
{
    lemma_lex_le_from_antisymmetric(a, b, 0);
}

proof fn lemma_lex_le_from_antisymmetric(a: Seq<char>, b: Seq<char>, i: int)
    requires
        0 <= i <= a.len(),
        0 <= i <= b.len(),
        a.subrange(0, i) =~= b.subrange(0, i),
        lex_le_from(a, b, i),
        lex_le_from(b, a, i),
    ensures
        a =~= b,
    decreases a.len() - i,
{
    if i >= a.len() {
        assert(lex_le_from(b, a, i) ==> i >= b.len());
        assert(a.len() == b.len());
        assert(a =~= a.subrange(0, i));
        assert(b =~= b.subrange(0, i));
    } else if i >= b.len() {
        assert(!lex_le_from(a, b, i));
        assert(false);
    } else if a[i] == b[i] {
        assert(a.subrange(0, i + 1) =~= b.subrange(0, i + 1));
        lemma_lex_le_from_antisymmetric(a, b, i + 1);
    } else {
        assert(lex_le_from(a, b, i) == (a[i] < b[i]));
        assert(lex_le_from(b, a, i) == (b[i] < a[i]));
        assert(false);
    }
}

/// The order is transitive.
pub proof fn lemma_lex_le_transitive(a: Seq<char>, b: Seq<char>, c: Seq<char>)
    requires
        lex_le(a, b),
        lex_le(b, c),
    ensures
        lex_le(a, c),
{
    lemma_lex_le_from_transitive(a, b, c, 0);
}

proof fn lemma_lex_le_from_transitive(a: Seq<char>, b: Seq<char>, c: Seq<char>, i: int)
    requires
        0 <= i,
        lex_le_from(a, b, i),
        lex_le_from(b, c, i),
    ensures
        lex_le_from(a, c, i),
    decreases a.len() - i,
{
    if i >= a.len() {
    } else if i < b.len() && i < c.len() && a[i] == b[i] && b[i] == c[i] {
        lemma_lex_le_from_transitive(a, b, c, i + 1);
    }
}

} // verus!
