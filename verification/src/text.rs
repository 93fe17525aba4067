//! Character-level helpers: the whitespace test, `String::push`, and a
//! comparison of a string with a literal.
use vstd::prelude::*;

verus! {

/// The characters with the Unicode `White_Space` property, which
/// `char::is_whitespace` tests for: the controls U+0009 to U+000D, the space,
/// U+0085, the no-break space U+00A0, U+1680, the spaces U+2000 to U+200A,
/// the line and paragraph separators U+2028 and U+2029, U+202F, U+205F and the
/// ideographic space U+3000.
pub open spec fn char_is_whitespace(c: char) -> bool {
    ||| '\u{9}' <= c <= '\u{d}'
    ||| c == ' '
    ||| c == '\u{85}'
    ||| c == '\u{a0}'
    ||| c == '\u{1680}'
    ||| '\u{2000}' <= c <= '\u{200a}'
    ||| c == '\u{2028}'
    ||| c == '\u{2029}'
    ||| c == '\u{202f}'
    ||| c == '\u{205f}'
    ||| c == '\u{3000}'
}

/// Whether a character is whitespace, as `char::is_whitespace` says.
pub fn is_whitespace(c: char) -> (r: bool)
    ensures
        r == char_is_whitespace(c),
{
    ('\u{9}' <= c && c <= '\u{d}') || c == ' ' || c == '\u{85}' || c == '\u{a0}' || c == '\u{1680}'
        || ('\u{2000}' <= c && c <= '\u{200a}') || c == '\u{2028}' || c == '\u{2029}' || c
        == '\u{202f}' || c == '\u{205f}' || c == '\u{3000}'
}

/// Calls `String::push`, which appends a character to the end of a string.
#[verifier::external_body]
pub(crate) fn push_char(s: &mut String, c: char)
    ensures
        final(s)@ == old(s)@.push(c),
{
    s.push(c)
}

/// Whether a string holds exactly the characters of another.
pub fn str_equals(s: &str, other: &str) -> (r: bool)
    ensures
        r == (s@ == other@),
{
    let n = s.unicode_len();
    if n != other.unicode_len() {
        return false;
    }
    let mut i: usize = 0;
    while i < n
        invariant
            n == s@.len(),
            n == other@.len(),
            i <= n,
            forall|j: int| 0 <= j < i ==> s@[j] == other@[j],
        decreases n - i,
    {
        if s.get_char(i) != other.get_char(i) {
            return false;
        }
        i = i + 1;
    }
    assert(s@ =~= other@);
    true
}

} // verus!
