//! Character classification: the predicates the lexer dispatches on, and
//! the length of the run of characters a class admits.

use vstd::prelude::*;

verus! {

/// Whether a character beyond ASCII belongs to a Unicode numeric general
/// category; left abstract.
pub uninterp spec fn nonascii_numeric(c: char) -> bool;

/// Whether a character beyond ASCII has the Unicode White_Space property;
/// left abstract.
pub uninterp spec fn nonascii_whitespace(c: char) -> bool;

/// A numeric character: an ASCII digit, or a non-ASCII character of a
/// Unicode numeric general category.
pub open spec fn unicode_numeric(c: char) -> bool {
    if (c as u32) < 128 {
        48 <= c as u32 && c as u32 <= 57
    } else {
        nonascii_numeric(c)
    }
}

/// A whitespace character: within ASCII, space and the controls
/// U+0009..U+000D; beyond ASCII, whatever has the White_Space property.
pub open spec fn unicode_whitespace(c: char) -> bool {
    if (c as u32) < 128 {
        c as u32 == 32 || (9 <= c as u32 && c as u32 <= 13)
    } else {
        nonascii_whitespace(c)
    }
}

/// Relies on char::is_numeric: true exactly on characters of the Unicode
/// numeric general categories (Nd, Nl, No); within ASCII those are the
/// digits 0 to 9. The result depends on the character alone.
#[verifier::external_body]
pub fn char_is_numeric(c: char) -> (r: bool)
    ensures
        r == unicode_numeric(c),
        (c as u32) >= 128 ==> r == nonascii_numeric(c),
{
    c.is_numeric()
}

/// Relies on char::is_whitespace: true exactly on characters with the
/// Unicode White_Space property; within ASCII those are space and
/// U+0009..U+000D. The result depends on the character alone.
#[verifier::external_body]
pub fn char_is_whitespace(c: char) -> (r: bool)
    ensures
        r == unicode_whitespace(c),
        (c as u32) >= 128 ==> r == nonascii_whitespace(c),
{
    c.is_whitespace()
}

/// The classes of characters the lexer asks about.
#[derive(Clone, Copy, Debug)]
pub enum CharClass {
    /// Exactly the given character.
    Exactly(char),
    /// A character a numeric run may contain: numeric, `.`, `e` or `-`.
    NumericRun,
    /// A whitespace character.
    Whitespace,
    /// A character a symbol may contain: neither whitespace nor a bracket.
    SymbolChar,
    /// An ASCII digit.
    Digit,
}

/// An ASCII digit.
pub open spec fn ascii_digit(c: char) -> bool {
    48 <= c as u32 && c as u32 <= 57
}

/// A character a numeric run may contain.
pub open spec fn numeric_run_char(c: char) -> bool {
    unicode_numeric(c) || c == '.' || c == 'e' || c == '-'
}

/// A character a symbol may contain.
pub open spec fn symbol_char(c: char) -> bool {
    !unicode_whitespace(c) && c != '(' && c != ')'
}

/// What it means for a character to fall in a class.
pub open spec fn class_holds(cls: CharClass, c: char) -> bool {
    match cls {
        CharClass::Exactly(d) => c == d,
        CharClass::NumericRun => numeric_run_char(c),
        CharClass::Whitespace => unicode_whitespace(c),
        CharClass::SymbolChar => symbol_char(c),
        CharClass::Digit => ascii_digit(c),
    }
}

/// Decides membership in a class.
pub fn class_matches(cls: &CharClass, c: char) -> (r: bool)
    ensures
        r == class_holds(*cls, c),
{
    match cls {
        CharClass::Exactly(d) => c == *d,
        CharClass::NumericRun => char_is_numeric(c) || c == '.' || c == 'e' || c == '-',
        CharClass::Whitespace => char_is_whitespace(c),
        CharClass::SymbolChar => !char_is_whitespace(c) && c != '(' && c != ')',
        CharClass::Digit => {
            let u = c as u32;
            48 <= u && u <= 57
        },
    }
}

/// The length of the longest prefix of `s` whose characters all fall in `cls`.
pub open spec fn run_len(s: Seq<char>, cls: CharClass) -> nat
    decreases s.len(),
{
    if s.len() > 0 && class_holds(cls, s[0]) {
        1 + run_len(s.skip(1), cls)
    } else {
        0
    }
}

/// A run never reaches past the end of the sequence, every character within
/// it falls in the class, and the character after it (if any) does not.
pub proof fn lemma_run_len_bounds(s: Seq<char>, cls: CharClass)
    ensures
        run_len(s, cls) <= s.len(),
        forall|i: int| 0 <= i < run_len(s, cls) ==> class_holds(cls, s[i]),
        run_len(s, cls) < s.len() ==> !class_holds(cls, s[run_len(s, cls) as int]),
    decreases s.len(),
{
    if s.len() > 0 && class_holds(cls, s[0]) {
        lemma_run_len_bounds(s.skip(1), cls);
        assert forall|i: int| 0 <= i < run_len(s, cls) implies class_holds(cls, s[i]) by {
            if i > 0 {
                assert(class_holds(cls, s.skip(1)[i - 1]));
            }
        }
    }
}

/// What follows a sequence cannot lengthen its run when it starts outside
/// the class.
pub proof fn lemma_run_len_concat(a: Seq<char>, b: Seq<char>, cls: CharClass)
    requires
        b.len() == 0 || !class_holds(cls, b[0]),
    ensures
        run_len(a + b, cls) == run_len(a, cls),
{
    lemma_run_len_bounds(a, cls);
    let r = run_len(a, cls);
    assert forall|i: int| 0 <= i < r implies class_holds(cls, (a + b)[i]) by {
        assert((a + b)[i] == a[i]);
    }
    if r < a.len() {
        assert((a + b)[r as int] == a[r as int]);
    } else if b.len() > 0 {
        assert((a + b)[r as int] == b[0]);
    }
    lemma_run_len_exact(a + b, cls, r);
}

/// A prefix whose characters all fall in the class, and whose end is the end
/// of the sequence or a character outside the class, is the run.
pub proof fn lemma_run_len_exact(s: Seq<char>, cls: CharClass, n: nat)
    requires
        n <= s.len(),
        forall|i: int| 0 <= i < n ==> class_holds(cls, s[i]),
        n < s.len() ==> !class_holds(cls, s[n as int]),
    ensures
        run_len(s, cls) == n,
    decreases s.len(),
{
    if s.len() > 0 && class_holds(cls, s[0]) {
        assert(n > 0);
        lemma_run_len_exact(s.skip(1), cls, (n - 1) as nat);
    }
}

} // verus!
