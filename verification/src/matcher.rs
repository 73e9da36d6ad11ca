//! Decides whether one character is accepted by a character transition.
use vstd::prelude::*;
use crate::types::nfa_types::{CharToMatch, MatchView};
use crate::types::token_types::{CharClassType, CharSetType};

verus! {

/// `char::is_ascii_digit`: '0' to '9'.
pub open spec fn spec_is_ascii_digit(c: char) -> bool {
    '0' <= c <= '9'
}

/// `char::is_ascii_alphabetic`: 'a' to 'z' and 'A' to 'Z'.
pub open spec fn spec_is_ascii_alphabetic(c: char) -> bool {
    ('a' <= c <= 'z') || ('A' <= c <= 'Z')
}

/// `char::is_ascii_alphanumeric`: an ASCII letter or digit.
pub open spec fn spec_is_ascii_alphanumeric(c: char) -> bool {
    spec_is_ascii_alphabetic(c) || spec_is_ascii_digit(c)
}

/// `char::is_ascii_whitespace`: space, tab, line feed, form feed, carriage return.
pub open spec fn spec_is_ascii_whitespace(c: char) -> bool {
    c == ' ' || c == '\t' || c == '\n' || c == '\x0C' || c == '\r'
}

/// Whether `c` belongs to the class `class`.
pub open spec fn class_matches(c: char, class: CharClassType) -> bool {
    match class {
        CharClassType::Any => true,
        CharClassType::Literal(ch) => c == ch,
        CharClassType::Word => spec_is_ascii_alphanumeric(c) || c == '_',
        CharClassType::NonWord => !spec_is_ascii_alphanumeric(c) && c != '_',
        CharClassType::Digit => spec_is_ascii_digit(c),
        CharClassType::NonDigit => !spec_is_ascii_digit(c),
        CharClassType::Whitespace => spec_is_ascii_whitespace(c),
        CharClassType::NonWhitespace => !spec_is_ascii_whitespace(c),
        CharClassType::Range(first, second) => first <= c && c <= second,
    }
}

/// Whether some member of `members` accepts `c`.
pub open spec fn set_contains(c: char, members: Seq<CharClassType>) -> bool {
    exists|i: int| 0 <= i < members.len() && class_matches(c, #[trigger] members[i])
}

/// Whether a transition labelled `m` accepts `c`.
pub open spec fn char_matches(c: char, m: MatchView) -> bool {
    match m {
        MatchView::Literal(ch) => c == ch,
        MatchView::Any => true,
        MatchView::CharacterClass(class) => class_matches(c, class),
        MatchView::CharacterSet(negated, members) => match negated {
            CharSetType::Negated => !set_contains(c, members),
            CharSetType::NonNegated => set_contains(c, members),
        },
    }
}

pub(crate) fn is_ascii_digit(c: char) -> (res: bool)
    ensures
        res == spec_is_ascii_digit(c),
{
    '0' <= c && c <= '9'
}

pub(crate) fn is_ascii_alphabetic(c: char) -> (res: bool)
    ensures
        res == spec_is_ascii_alphabetic(c),
{
    ('a' <= c && c <= 'z') || ('A' <= c && c <= 'Z')
}

pub(crate) fn is_ascii_alphanumeric(c: char) -> (res: bool)
    ensures
        res == spec_is_ascii_alphanumeric(c),
{
    is_ascii_alphabetic(c) || is_ascii_digit(c)
}

pub(crate) fn is_ascii_whitespace(c: char) -> (res: bool)
    ensures
        res == spec_is_ascii_whitespace(c),
{
    c == ' ' || c == '\t' || c == '\n' || c == '\x0C' || c == '\r'
}

/// Whether the character `c` is accepted by `m`.
pub fn matcher(c: char, m: &CharToMatch) -> (res: bool)
    ensures
        res == char_matches(c, m@),
{
    match m {
        CharToMatch::Literal(ch) => c == *ch,
        CharToMatch::Any => true,
        CharToMatch::CharacterClass(char_class) => match_character_class(c, char_class),
        CharToMatch::CharacterSet(negated, char_set) => {
            let mut result: bool = false;
            let mut i: usize = 0;
            while !result && i < char_set.len()
                invariant
                    i <= char_set@.len(),
                    result ==> set_contains(c, char_set@),
                    !result ==> forall|k: int| 0 <= k < i ==> !class_matches(c, #[trigger] char_set@[k]),
                decreases char_set@.len() - i,
            {
                if match_character_class(c, &char_set[i]) {
                    result = true;
                }
                i = i + 1;
            }
            assert(result == set_contains(c, char_set@));
            if let CharSetType::Negated = negated {
                return !result;
            }
            result
        },
    }
}

/// Whether the character `c` belongs to `char_class`.
pub fn match_character_class(c: char, char_class: &CharClassType) -> (res: bool)
    ensures
        res == class_matches(c, *char_class),
{
    match char_class {
        CharClassType::Any => true,
        CharClassType::Literal(ch) => c == *ch,
        CharClassType::Word => is_ascii_alphanumeric(c) || c == '_',
        CharClassType::NonWord => !is_ascii_alphanumeric(c) && c != '_',
        CharClassType::Digit => is_ascii_digit(c),
        CharClassType::NonDigit => !is_ascii_digit(c),
        CharClassType::Whitespace => is_ascii_whitespace(c),
        CharClassType::NonWhitespace => !is_ascii_whitespace(c),
        CharClassType::Range(first, second) => c >= *first && c <= *second,
    }
}

/// A negated bracket expression accepts exactly the characters that the same
/// bracket expression without negation rejects.
pub proof fn lemma_negated_set_complements(c: char, members: Seq<CharClassType>)
    ensures
        char_matches(c, MatchView::CharacterSet(CharSetType::Negated, members))
            == !char_matches(c, MatchView::CharacterSet(CharSetType::NonNegated, members)),
{
}

/// What each character class accepts: `\w` the ASCII letters of either case,
/// the ASCII digits and `_`; `\d` the ASCII digits; `\s` space, tab, line
/// feed, form feed and carriage return; the upper-case classes accept exactly
/// what the lower-case ones reject; a range accepts the characters between its
/// ends, both included; a literal only itself; and the wildcard everything.
pub proof fn lemma_class_meaning(c: char, class: CharClassType)
    ensures
        class_matches(c, CharClassType::Word) == (('a' <= c && c <= 'z') || ('A' <= c && c <= 'Z') || ('0' <= c
            && c <= '9') || c == '_'),
        class_matches(c, CharClassType::Digit) == ('0' <= c && c <= '9'),
        class_matches(c, CharClassType::Whitespace) == (c == ' ' || c == '\t' || c == '\n' || c == '\x0C' || c
            == '\r'),
        class_matches(c, CharClassType::NonWord) == !class_matches(c, CharClassType::Word),
        class_matches(c, CharClassType::NonDigit) == !class_matches(c, CharClassType::Digit),
        class_matches(c, CharClassType::NonWhitespace) == !class_matches(c, CharClassType::Whitespace),
        class_matches(c, CharClassType::Any),
        class matches CharClassType::Range(a, b) ==> (class_matches(c, class) == (a <= c && c <= b)),
        class matches CharClassType::Literal(x) ==> (class_matches(c, class) == (c == x)),
{
}

/// A bracket expression accepts a character exactly when one of its members
/// does: a set of one member accepts what that member accepts, the empty set
/// accepts nothing, and joining two sets accepts what either accepts.
pub proof fn lemma_set_members(c: char, k: CharClassType, m1: Seq<CharClassType>, m2: Seq<CharClassType>)
    ensures
        char_matches(c, MatchView::CharacterSet(CharSetType::NonNegated, seq![k])) == class_matches(c, k),
        !char_matches(c, MatchView::CharacterSet(CharSetType::NonNegated, Seq::empty())),
        char_matches(c, MatchView::CharacterSet(CharSetType::NonNegated, m1 + m2)) == (char_matches(
            c,
            MatchView::CharacterSet(CharSetType::NonNegated, m1),
        ) || char_matches(c, MatchView::CharacterSet(CharSetType::NonNegated, m2))),
{
    let one = seq![k];
    if class_matches(c, k) {
        assert(class_matches(c, one[0]));
    }
    let m = m1 + m2;
    if set_contains(c, m) {
        let i = choose|i: int| 0 <= i < m.len() && class_matches(c, #[trigger] m[i]);
        if i < m1.len() {
            assert(m[i] == m1[i]);
        } else {
            assert(m[i] == m2[i - m1.len()]);
        }
    }
    if set_contains(c, m1) {
        let i = choose|i: int| 0 <= i < m1.len() && class_matches(c, #[trigger] m1[i]);
        assert(m[i] == m1[i]);
    }
    if set_contains(c, m2) {
        let i = choose|i: int| 0 <= i < m2.len() && class_matches(c, #[trigger] m2[i]);
        assert(m[i + m1.len()] == m2[i]);
    }
}

} // verus!
