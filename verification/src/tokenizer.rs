//! Turns a pattern into a sequence of tokens; the parser reads them later.
//!
//! Supported: capturing groups, character escapes, octal, hex and Unicode
//! escapes, the anchors `^` and `$`, the operators `*`, `+`, `?` and `|`, the
//! classes `\s \S \w \W \d \D`, word boundaries `\b \B`, bracket expressions
//! `[abc]` and counted repetitions `{1, 3}`.
use vstd::prelude::*;
use vstd::string::*;
use vstd::utf8::is_ascii_chars;
use std::collections::HashSet;
use crate::text::{chars_of, decimal_string, parse_usize_range, trim_bounds};
use crate::types::token_types::{CharClassType, CharSetType, Token, TokenView};

verus! {

// ---------------------------------------------------------------------------
// Counted repetitions `{m}`, `{m,}` and `{m,n}`
// ---------------------------------------------------------------------------

/// `k` is the position of the first comma of `s`.
pub open spec fn first_comma_at(s: Seq<char>, k: int) -> bool {
    &&& 0 <= k < s.len()
    &&& s[k] == ','
    &&& forall|j: int| 0 <= j < k ==> s[j] != ','
}

/// The message for a quantifier that is not a number.
pub open spec fn msg_invalid_quantifier(q: Seq<char>) -> Seq<char> {
    "Error: invalid quantifier value! '"@ + q + "'"@
}

/// The message for a lower bound that is not a number.
pub open spec fn msg_first_value(a: Seq<char>) -> Seq<char> {
    "Error: error parsing first quantifier value '"@ + a + "'"@
}

/// The message for an upper bound that is not a number; it quotes the text
/// before the comma.
pub open spec fn msg_second_value(a: Seq<char>) -> Seq<char> {
    "Error: error parsing second quantifier value '"@ + a + "'"@
}

/// What `parse_quantifier` gives for the text `q` between `{` and `}`.
pub open spec fn spec_parse_quantifier(q: Seq<char>) -> Result<TokenView, Seq<char>> {
    if q.len() == 0 {
        Err("Error: empty quantifier!"@)
    } else if !(exists|k: int| first_comma_at(q, k)) {
        match crate::text::parse_usize(q) {
            Some(v) => Ok(TokenView::Repetition(v, Some(v))),
            None => Err(msg_invalid_quantifier(q)),
        }
    } else {
        let k = choose|k: int| first_comma_at(q, k);
        let a = q.take(k);
        let b = q.skip(k + 1);
        match crate::text::parse_usize(crate::text::trim(a)) {
            None => Err(msg_first_value(a)),
            Some(v1) => if crate::text::trim(b).len() == 0 {
                Ok(TokenView::Repetition(v1, None))
            } else {
                match crate::text::parse_usize(crate::text::trim(b)) {
                    None => Err(msg_second_value(a)),
                    Some(v2) => if v1 >= v2 {
                        Err(
                            "Error: invalid quantifier value! First value must be less than the second value!"@,
                        )
                    } else {
                        Ok(TokenView::Repetition(v1, Some(v2)))
                    },
                }
            },
        }
    }
}

/// The message `prefix` + `middle` + `suffix`.
fn quoted(prefix: &str, middle: &str, suffix: &str) -> (res: String)
    ensures
        res@ == prefix@ + middle@ + suffix@,
{
    let mut res = String::from_str(prefix);
    res.append(middle);
    res.append(suffix);
    res
}

/// Reads a counted repetition from the text between `{` and `}`: `m`, `m,` or
/// `m,n` (spaces around the numbers are allowed; `m` must be below `n`).
pub fn parse_quantifier(q_string: String) -> (res: Result<Token, String>)
    ensures
        match (res, spec_parse_quantifier(q_string@)) {
            (Ok(t), Ok(tv)) => t@ == tv,
            (Err(e), Err(ev)) => e@ == ev,
            _ => false,
        },
{
    let q = chars_of(q_string.as_str());
    let n = q.len();
    if n == 0 {
        return Err(String::from_str("Error: empty quantifier!"));
    }
    let mut k: usize = 0;
    while k < n && q[k] != ','
        invariant
            k <= n == q@.len(),
            forall|j: int| 0 <= j < k ==> q@[j] != ',',
        decreases n - k,
    {
        k = k + 1;
    }
    if k == n {
        assert(!(exists|j: int| first_comma_at(q_string@, j)));
        assert(q@.subrange(0, n as int) =~= q@);
        return match parse_usize_range(&q, 0, n) {
            Some(value) => Ok(Token::Repetition(value, Some(value))),
            None => Err(quoted("Error: invalid quantifier value! '", q_string.as_str(), "'")),
        };
    }
    assert(first_comma_at(q_string@, k as int));
    assert(forall|j: int| first_comma_at(q_string@, j) ==> j == k);
    let ghost a = q@.take(k as int);
    let ghost b = q@.skip(k + 1);
    assert(q@.subrange(0, k as int) =~= a);
    assert(q@.subrange(k + 1, n as int) =~= b);
    let first = q_string.as_str().substring_char(0, k);
    let (a_lo, a_hi) = trim_bounds(&q, 0, k);
    let value_1 = match parse_usize_range(&q, a_lo, a_hi) {
        Some(value) => value,
        None => {
            return Err(quoted("Error: error parsing first quantifier value '", first, "'"));
        },
    };
    let (b_lo, b_hi) = trim_bounds(&q, k + 1, n);
    if b_lo == b_hi {
        assert(crate::text::trim(b) =~= Seq::<char>::empty());
        return Ok(Token::Repetition(value_1, None));
    }
    let value_2 = match parse_usize_range(&q, b_lo, b_hi) {
        Some(value) => value,
        None => {
            return Err(quoted("Error: error parsing second quantifier value '", first, "'"));
        },
    };
    if value_1 >= value_2 {
        return Err(
            String::from_str(
                "Error: invalid quantifier value! First value must be less than the second value!",
            ),
        );
    }
    Ok(Token::Repetition(value_1, Some(value_2)))
}

// ---------------------------------------------------------------------------
// Bracket expressions `[...]`
// ---------------------------------------------------------------------------

/// The result of a step of the tokenizer: a value, an error message, or a
/// panic of the code (an index out of bounds or an arithmetic overflow).
pub enum Outcome<T> {
    Value(T),
    Fail(Seq<char>),
    Panic,
}

/// `o` with `p` put in front of the sequence it holds.
pub open spec fn prefix_with<T>(p: Seq<T>, o: Outcome<Seq<T>>) -> Outcome<Seq<T>> {
    match o {
        Outcome::Value(r) => Outcome::Value(p + r),
        Outcome::Fail(e) => Outcome::Fail(e),
        Outcome::Panic => Outcome::Panic,
    }
}

/// The message for a range written with an escaped character.
pub open spec fn msg_malformed_set() -> Seq<char> {
    "Error: malformed character set! Cannot range with escaped character!"@
}

/// The message for a range whose first character comes after its second.
pub open spec fn msg_invalid_range(lower: char, upper: char) -> Seq<char> {
    "Invalid range! "@ + seq![lower] + " - "@ + seq![upper]
}

/// The ranges `x-y` of the bracket text `t` from position `i` on, as the
/// positions of `x` and `y`; a `-` right after a backslash is not a range.
pub open spec fn scan_ranges(t: Seq<char>, i: int) -> Outcome<Seq<(usize, usize)>>
    decreases t.len() - i,
{
    if i < 0 || i >= t.len() {
        Outcome::Value(seq![])
    } else if t[i] != '-' {
        scan_ranges(t, i + 1)
    } else if i == 0 {
        Outcome::Panic
    } else if t[i - 1] == '\\' {
        scan_ranges(t, i + 1)
    } else if i > 1 && t[i - 2] == '\\' {
        Outcome::Fail(msg_malformed_set())
    } else if i + 1 >= t.len() {
        Outcome::Panic
    } else if t[i + 1] == '\\' {
        Outcome::Fail(msg_malformed_set())
    } else {
        prefix_with(seq![((i - 1) as usize, (i + 1) as usize)], scan_ranges(t, i + 1))
    }
}

/// The classes of the ranges `rs` of `t`, or the message for the first
/// range that runs backwards.
pub open spec fn range_classes(t: Seq<char>, rs: Seq<(usize, usize)>) -> Outcome<
    Seq<CharClassType>,
>
    decreases rs.len(),
{
    if rs.len() == 0 {
        Outcome::Value(seq![])
    } else {
        let lower = t[rs[0].0 as int];
        let upper = t[rs[0].1 as int];
        if lower > upper {
            Outcome::Fail(msg_invalid_range(lower, upper))
        } else {
            prefix_with(seq![CharClassType::Range(lower, upper)], range_classes(t, rs.drop_first()))
        }
    }
}

/// Whether position `j` belongs to one of the ranges `rs`.
pub open spec fn in_range(rs: Seq<(usize, usize)>, j: int) -> bool {
    exists|k: int| 0 <= k < rs.len() && (#[trigger] rs[k]).0 <= j <= rs[k].1
}

/// The characters of `t` from position `j` on that belong to no range.
pub open spec fn outside_ranges(t: Seq<char>, rs: Seq<(usize, usize)>, j: int) -> Seq<char>
    decreases t.len() - j,
{
    if j < 0 || j >= t.len() {
        seq![]
    } else if in_range(rs, j) {
        outside_ranges(t, rs, j + 1)
    } else {
        seq![t[j]] + outside_ranges(t, rs, j + 1)
    }
}

/// The class that a backslash followed by `c` stands for inside brackets.
pub open spec fn escaped_class(c: char) -> CharClassType {
    if c == 'w' {
        CharClassType::Word
    } else if c == 'W' {
        CharClassType::NonWord
    } else if c == 'd' {
        CharClassType::Digit
    } else if c == 'D' {
        CharClassType::NonDigit
    } else if c == 's' {
        CharClassType::Whitespace
    } else if c == 'S' {
        CharClassType::NonWhitespace
    } else {
        CharClassType::Literal(c)
    }
}

/// The classes of the characters `r`, a backslash escaping the next one.
pub open spec fn member_classes(r: Seq<char>) -> Outcome<Seq<CharClassType>>
    decreases r.len(),
{
    if r.len() == 0 {
        Outcome::Value(seq![])
    } else if r[0] == '\\' {
        if r.len() < 2 {
            Outcome::Panic
        } else {
            prefix_with(seq![escaped_class(r[1])], member_classes(r.skip(2)))
        }
    } else {
        prefix_with(seq![CharClassType::Literal(r[0])], member_classes(r.drop_first()))
    }
}

/// The members of a bracket expression whose text, without a leading `^` and
/// without a `-` at either end, is `t`: its ranges, then its other characters.
pub open spec fn set_members(t: Seq<char>) -> Outcome<Seq<CharClassType>> {
    match scan_ranges(t, 0) {
        Outcome::Panic => Outcome::Panic,
        Outcome::Fail(e) => Outcome::Fail(e),
        Outcome::Value(rs) => match range_classes(t, rs) {
            Outcome::Panic => Outcome::Panic,
            Outcome::Fail(e) => Outcome::Fail(e),
            Outcome::Value(rc) => prefix_with(rc, member_classes(outside_ranges(t, rs, 0))),
        },
    }
}

/// Whether the bracket text `cs` is negated by a leading `^`.
pub open spec fn set_negated(cs: Seq<char>) -> bool {
    cs[0] == '^'
}

/// Where the members of the bracket text `cs` start: after a leading `^`,
/// and after a `-` that comes first.
pub open spec fn set_from(cs: Seq<char>) -> int {
    let sp: int = if set_negated(cs) { 1 } else { 0 };
    if cs[sp] == '-' { sp + 1 } else { sp }
}

/// Where the members of the bracket text `cs` end: before a `-` that comes last.
pub open spec fn set_to(cs: Seq<char>) -> int {
    if cs[cs.len() - 1] == '-' { cs.len() - 1 } else { cs.len() as int }
}

/// Whether the bracket text `cs` holds a literal `-` at one of its ends.
pub open spec fn set_has_dash(cs: Seq<char>) -> bool {
    let sp: int = if set_negated(cs) { 1 } else { 0 };
    cs[sp] == '-' || cs[cs.len() - 1] == '-'
}

/// What `parse_character_set` gives for the text `cs` between `[` and `]`.
pub open spec fn spec_parse_character_set(cs: Seq<char>) -> Outcome<TokenView> {
    if cs.len() == 0 {
        Outcome::Fail("Error: empty character set!"@)
    } else if cs.len() == 1 && cs[0] == '^' {
        Outcome::Value(TokenView::CharacterSet(CharSetType::NonNegated, seq![CharClassType::Any]))
    } else if !is_ascii_chars(cs) || set_from(cs) > set_to(cs) {
        Outcome::Panic
    } else {
        let kind = if set_negated(cs) { CharSetType::Negated } else { CharSetType::NonNegated };
        let dash: Seq<CharClassType> = if set_has_dash(cs) {
            seq![CharClassType::Literal('-')]
        } else {
            seq![]
        };
        match set_members(cs.subrange(set_from(cs), set_to(cs))) {
            Outcome::Panic => Outcome::Panic,
            Outcome::Fail(e) => Outcome::Fail(e),
            Outcome::Value(m) => Outcome::Value(TokenView::CharacterSet(kind, dash + m)),
        }
    }
}

/// Whether every range among `cs` runs forwards: its first character is not
/// after its last.
pub open spec fn ranges_ordered(cs: Seq<CharClassType>) -> bool {
    forall|k: int| 0 <= k < cs.len() ==> (#[trigger] cs[k] matches CharClassType::Range(a, b) ==> a <= b)
}

proof fn lemma_prefix_ordered(p: Seq<CharClassType>, o: Outcome<Seq<CharClassType>>)
    requires
        ranges_ordered(p),
        o matches Outcome::Value(v) ==> ranges_ordered(v),
    ensures
        prefix_with(p, o) matches Outcome::Value(v) ==> ranges_ordered(v),
{
    if let Outcome::Value(v) = o {
        assert forall|k: int| 0 <= k < (p + v).len() implies (#[trigger] (p + v)[k] matches CharClassType::Range(a, b) ==> a <= b) by {
            if k < p.len() {
                assert((p + v)[k] == p[k]);
            } else {
                assert((p + v)[k] == v[k - p.len()]);
            }
        }
    }
}

proof fn lemma_single_ordered(x: CharClassType)
    requires
        x matches CharClassType::Range(a, b) ==> a <= b,
    ensures
        ranges_ordered(seq![x]),
{
    let p = seq![x];
    assert forall|k: int| 0 <= k < p.len() implies (#[trigger] p[k] matches CharClassType::Range(a, b) ==> a <= b) by {
        assert(p[k] == x);
    }
    assert(ranges_ordered(p));
}

proof fn lemma_cons_ordered(x: CharClassType, o: Outcome<Seq<CharClassType>>)
    requires
        x matches CharClassType::Range(a, b) ==> a <= b,
        o matches Outcome::Value(v) ==> ranges_ordered(v),
    ensures
        prefix_with(seq![x], o) matches Outcome::Value(v) ==> ranges_ordered(v),
{
    lemma_single_ordered(x);
    lemma_prefix_ordered(seq![x], o);
}

proof fn lemma_range_classes_ordered(t: Seq<char>, rs: Seq<(usize, usize)>)
    ensures
        range_classes(t, rs) matches Outcome::Value(v) ==> ranges_ordered(v),
    decreases rs.len(),
{
    if rs.len() > 0 {
        lemma_range_classes_ordered(t, rs.drop_first());
        let lower = t[rs[0].0 as int];
        let upper = t[rs[0].1 as int];
        if lower <= upper {
            lemma_cons_ordered(CharClassType::Range(lower, upper), range_classes(t, rs.drop_first()));
        }
    }
}

proof fn lemma_member_classes_ordered(r: Seq<char>)
    ensures
        member_classes(r) matches Outcome::Value(v) ==> ranges_ordered(v),
    decreases r.len(),
{
    if r.len() > 0 {
        if r[0] == '\\' {
            if r.len() >= 2 {
                lemma_member_classes_ordered(r.skip(2));
                lemma_cons_ordered(escaped_class(r[1]), member_classes(r.skip(2)));
            }
        } else {
            lemma_member_classes_ordered(r.drop_first());
            lemma_cons_ordered(CharClassType::Literal(r[0]), member_classes(r.drop_first()));
        }
    }
}

/// Every range of a bracket expression that is accepted runs forwards: a
/// range such as `z-a` is refused with "Invalid range!".
pub proof fn lemma_character_set_ranges_ordered(cs: Seq<char>)
    ensures
        spec_parse_character_set(cs) matches Outcome::Value(TokenView::CharacterSet(_, v)) ==> ranges_ordered(v),
{
    if cs.len() > 0 && !(cs.len() == 1 && cs[0] == '^') && is_ascii_chars(cs) && set_from(cs) <= set_to(cs) {
        let t = cs.subrange(set_from(cs), set_to(cs));
        if let Outcome::Value(rs) = scan_ranges(t, 0) {
            lemma_range_classes_ordered(t, rs);
            if let Outcome::Value(rc) = range_classes(t, rs) {
                lemma_member_classes_ordered(outside_ranges(t, rs, 0));
                lemma_prefix_ordered(rc, member_classes(outside_ranges(t, rs, 0)));
                if let Outcome::Value(m) = prefix_with(rc, member_classes(outside_ranges(t, rs, 0))) {
                    let dash: Seq<CharClassType> = if set_has_dash(cs) {
                        seq![CharClassType::Literal('-')]
                    } else {
                        seq![]
                    };
                    if set_has_dash(cs) {
                        lemma_single_ordered(CharClassType::Literal('-'));
                    }
                    lemma_prefix_ordered(dash, Outcome::Value(m));
                }
            }
        }
    } else if cs.len() == 1 && cs[0] == '^' {
        lemma_single_ordered(CharClassType::Any);
    }
}

/// A bounded repetition that is accepted never has its lower bound above its
/// upper bound.
pub proof fn lemma_quantifier_bounds_ordered(q: Seq<char>)
    ensures
        spec_parse_quantifier(q) matches Ok(TokenView::Repetition(m, Some(n))) ==> m <= n,
{
}

/// Whether `res` is what the specification `o` says, where `o` holds no panic.
pub open spec fn agrees<T: View>(res: Result<T, String>, o: Outcome<T::V>) -> bool {
    match (res, o) {
        (Ok(t), Outcome::Value(v)) => t@ == v,
        (Err(e), Outcome::Fail(m)) => e@ == m,
        _ => false,
    }
}

/// Whether `res` holds the sequence that `o` says, where `o` holds no panic.
pub open spec fn agrees_seq<T>(res: Result<Vec<T>, String>, o: Outcome<Seq<T>>) -> bool {
    match (res, o) {
        (Ok(v), Outcome::Value(s)) => v@ == s,
        (Err(e), Outcome::Fail(m)) => e@ == m,
        _ => false,
    }
}

proof fn lemma_prefix_with_empty<T>(o: Outcome<Seq<T>>)
    ensures
        prefix_with(Seq::<T>::empty(), o) == o,
{
    if let Outcome::Value(r) = o {
        assert(Seq::<T>::empty() + r =~= r);
    }
}

proof fn lemma_prefix_with_push<T>(p: Seq<T>, x: T, o: Outcome<Seq<T>>)
    ensures
        prefix_with(p, prefix_with(seq![x], o)) == prefix_with(p.push(x), o),
{
    if let Outcome::Value(r) = o {
        assert(p + (seq![x] + r) =~= p.push(x) + r);
    }
}

/// The ranges of `cs[from..to]`, and the set of the positions they cover.
fn find_ranges(cs: &Vec<char>, from: usize, to: usize) -> (res: Result<
    (Vec<(usize, usize)>, HashSet<usize>),
    String,
>)
    requires
        from <= to <= cs@.len(),
        !(scan_ranges(cs@.subrange(from as int, to as int), 0) is Panic),
    ensures
        match (res, scan_ranges(cs@.subrange(from as int, to as int), 0)) {
            (Ok((rs, covered)), Outcome::Value(srs)) => {
                &&& rs@ == srs
                &&& forall|j: usize| covered@.contains(j) <==> in_range(rs@, j as int)
                &&& forall|k: int| 0 <= k < rs@.len() ==> #[trigger] rs@[k].1 < to - from && rs@[k].0 + 2 == rs@[k].1
            },
            (Err(e), Outcome::Fail(m)) => e@ == m,
            _ => false,
        },
{
    broadcast use vstd::std_specs::hash::group_hash_axioms;

    let ghost t = cs@.subrange(from as int, to as int);
    let tlen = to - from;
    let mut ranges: Vec<(usize, usize)> = Vec::new();
    let mut indices_to_remove: HashSet<usize> = HashSet::new();
    let mut i: usize = 0;
    proof {
        lemma_prefix_with_empty(scan_ranges(t, 0));
    }
    while i < tlen
        invariant
            from <= to <= cs@.len(),
            tlen == to - from,
            t == cs@.subrange(from as int, to as int),
            i <= tlen,
            scan_ranges(t, 0) == prefix_with(ranges@, scan_ranges(t, i as int)),
            !(scan_ranges(t, i as int) is Panic),
            forall|k: int| 0 <= k < ranges@.len() ==> #[trigger] ranges@[k].1 < tlen && ranges@[k].0 + 2 == ranges@[k].1,
            forall|j: usize| indices_to_remove@.contains(j) <==> in_range(ranges@, j as int),
        decreases tlen - i,
    {
        let c = cs[from + i];
        assert(t[i as int] == c);
        if c == '-' {
            assert(t[i - 1] == cs@[from + i - 1]);
            if cs[from + i - 1] == '\\' {
                i = i + 1;
                continue;
            }
            if i > 1 {
                assert(t[i - 2] == cs@[from + i - 2]);
                if cs[from + i - 2] == '\\' {
                    return Err(
                        String::from_str(
                            "Error: malformed character set! Cannot range with escaped character!",
                        ),
                    );
                }
            }
            assert(t[i + 1] == cs@[from + i + 1]);
            if cs[from + i + 1] == '\\' {
                return Err(
                    String::from_str(
                        "Error: malformed character set! Cannot range with escaped character!",
                    ),
                );
            }
            let ghost old_ranges = ranges@;
            ranges.push((i - 1, i + 1));
            indices_to_remove.insert(i - 1);
            indices_to_remove.insert(i);
            indices_to_remove.insert(i + 1);
            proof {
                assert forall|j: usize| indices_to_remove@.contains(j) <==> in_range(ranges@, j as int) by {
                    if in_range(ranges@, j as int) {
                        let k = choose|k: int| 0 <= k < ranges@.len() && (#[trigger] ranges@[k]).0 <= j <= ranges@[k].1;
                        if k < old_ranges.len() {
                            assert(ranges@[k] == old_ranges[k]);
                            assert(in_range(old_ranges, j as int));
                        }
                    }
                    if in_range(old_ranges, j as int) {
                        let k = choose|k: int| 0 <= k < old_ranges.len() && (#[trigger] old_ranges[k]).0 <= j <= old_ranges[k].1;
                        assert(ranges@[k] == old_ranges[k]);
                    }
                    if i - 1 <= j <= i + 1 {
                        assert(ranges@[old_ranges.len() as int] == ((i - 1) as usize, (i + 1) as usize));
                    }
                }
                lemma_prefix_with_push(old_ranges, ((i - 1) as usize, (i + 1) as usize), scan_ranges(t, i + 1));
            }
        }
        i = i + 1;
    }
    assert(ranges@ + Seq::<(usize, usize)>::empty() =~= ranges@);
    Ok((ranges, indices_to_remove))
}

/// The classes of the ranges `rs` of `cs[from..to]`.
fn ranges_to_classes(cs_string: &String, cs: &Vec<char>, from: usize, to: usize, rs: &Vec<(usize, usize)>) -> (res: Result<Vec<CharClassType>, String>)
    requires
        cs@ == cs_string@,
        is_ascii_chars(cs@),
        from <= to <= cs@.len(),
        forall|k: int| 0 <= k < rs@.len() ==> #[trigger] rs@[k].1 < to - from && rs@[k].0 + 2 == rs@[k].1,
    ensures
        agrees_seq(res, range_classes(cs@.subrange(from as int, to as int), rs@)),
{
    let ghost t = cs@.subrange(from as int, to as int);
    let mut out: Vec<CharClassType> = Vec::new();
    let mut r: usize = 0;
    proof {
        lemma_prefix_with_empty(range_classes(t, rs@));
        assert(rs@.skip(0) =~= rs@);
    }
    while r < rs.len()
        invariant
            cs@ == cs_string@,
            from <= to <= cs@.len(),
            t == cs@.subrange(from as int, to as int),
            forall|k: int| 0 <= k < rs@.len() ==> #[trigger] rs@[k].1 < to - from && rs@[k].0 + 2 == rs@[k].1,
            r <= rs@.len(),
            range_classes(t, rs@) == prefix_with(out@, range_classes(t, rs@.skip(r as int))),
        decreases rs@.len() - r,
    {
        let (a, b) = rs[r];
        assert(rs@.skip(r as int)[0] == rs@[r as int]);
        let lower = cs[from + a];
        let upper = cs[from + b];
        assert(t[a as int] == lower && t[b as int] == upper);
        assert(rs@.skip(r as int).drop_first() =~= rs@.skip(r + 1));
        if lower > upper {
            let lo = cs_string.as_str().substring_char(from + a, from + a + 1);
            let up = cs_string.as_str().substring_char(from + b, from + b + 1);
            let mut msg = String::from_str("Invalid range! ");
            msg.append(lo);
            msg.append(" - ");
            msg.append(up);
            assert(lo@ =~= seq![lower]);
            assert(up@ =~= seq![upper]);
            return Err(msg);
        }
        proof {
            lemma_prefix_with_push(out@, CharClassType::Range(lower, upper), range_classes(t, rs@.skip(r + 1)));
        }
        out.push(CharClassType::Range(lower, upper));
        r = r + 1;
    }
    assert(rs@.skip(rs@.len() as int) =~= Seq::<(usize, usize)>::empty());
    assert(out@ + Seq::<CharClassType>::empty() =~= out@);
    Ok(out)
}

/// The characters of `cs[from..to]` at the positions outside `covered`.
fn chars_outside(cs: &Vec<char>, from: usize, to: usize, rs: &Vec<(usize, usize)>, covered: &HashSet<usize>) -> (res: Vec<char>)
    requires
        from <= to <= cs@.len(),
        forall|j: usize| covered@.contains(j) <==> in_range(rs@, j as int),
    ensures
        res@ == outside_ranges(cs@.subrange(from as int, to as int), rs@, 0),
{
    broadcast use vstd::std_specs::hash::group_hash_axioms;

    let ghost t = cs@.subrange(from as int, to as int);
    let tlen = to - from;
    let mut remaining_vals: Vec<char> = Vec::new();
    let mut j: usize = 0;
    assert(outside_ranges(t, rs@, 0) =~= remaining_vals@ + outside_ranges(t, rs@, 0));
    while j < tlen
        invariant
            from <= to <= cs@.len(),
            tlen == to - from,
            t == cs@.subrange(from as int, to as int),
            j <= tlen,
            forall|x: usize| covered@.contains(x) <==> in_range(rs@, x as int),
            outside_ranges(t, rs@, 0) == remaining_vals@ + outside_ranges(t, rs@, j as int),
        decreases tlen - j,
    {
        let ghost before = remaining_vals@;
        if !covered.contains(&j) {
            assert(t[j as int] == cs@[from + j]);
            remaining_vals.push(cs[from + j]);
            assert(before + outside_ranges(t, rs@, j as int) =~= remaining_vals@ + outside_ranges(t, rs@, j + 1));
        }
        j = j + 1;
    }
    assert(remaining_vals@ + outside_ranges(t, rs@, tlen as int) =~= remaining_vals@);
    remaining_vals
}

/// The classes of the characters `r`, a backslash escaping the next one.
fn chars_to_classes(r: &Vec<char>) -> (res: Vec<CharClassType>)
    requires
        !(member_classes(r@) is Panic),
    ensures
        member_classes(r@) == Outcome::Value(res@),
{
    let mut out: Vec<CharClassType> = Vec::new();
    let mut k: usize = 0;
    let nr = r.len();
    proof {
        lemma_prefix_with_empty(member_classes(r@));
        assert(r@.skip(0) =~= r@);
    }
    while k < nr
        invariant
            nr == r@.len(),
            k <= nr,
            !(member_classes(r@.skip(k as int)) is Panic),
            member_classes(r@) == prefix_with(out@, member_classes(r@.skip(k as int))),
        decreases nr - k,
    {
        let ghost rest = r@.skip(k as int);
        let c = r[k];
        assert(rest[0] == c);
        if c == '\\' {
            let next_val = r[k + 1];
            assert(rest[1] == next_val);
            let class = if next_val == 'w' {
                CharClassType::Word
            } else if next_val == 'W' {
                CharClassType::NonWord
            } else if next_val == 'd' {
                CharClassType::Digit
            } else if next_val == 'D' {
                CharClassType::NonDigit
            } else if next_val == 's' {
                CharClassType::Whitespace
            } else if next_val == 'S' {
                CharClassType::NonWhitespace
            } else {
                CharClassType::Literal(next_val)
            };
            assert(rest.skip(2) =~= r@.skip(k + 2));
            proof {
                lemma_prefix_with_push(out@, class, member_classes(r@.skip(k + 2)));
            }
            out.push(class);
            k = k + 2;
        } else {
            assert(rest.drop_first() =~= r@.skip(k + 1));
            proof {
                lemma_prefix_with_push(out@, CharClassType::Literal(c), member_classes(r@.skip(k + 1)));
            }
            out.push(CharClassType::Literal(c));
            k = k + 1;
        }
    }
    assert(r@.skip(nr as int) =~= Seq::<char>::empty());
    assert(out@ + Seq::<CharClassType>::empty() =~= out@);
    out
}

/// Reads a bracket expression from the text between `[` and `]`: a leading
/// `^` negates it, `x-y` is a range, a `-` at either end is literal, and a
/// backslash escapes the next character or names a class such as `\d`.
pub fn parse_character_set(cs_string: String) -> (res: Result<Token, String>)
    requires
        !(spec_parse_character_set(cs_string@) is Panic),
    ensures
        agrees(res, spec_parse_character_set(cs_string@)),
{
    let cs = chars_of(cs_string.as_str());
    let mut char_class_vec: Vec<CharClassType> = Vec::new();
    let n = cs.len();
    if n == 0 {
        return Err(String::from_str("Error: empty character set!"));
    }
    let mut negate_class = CharSetType::NonNegated;
    let mut str_pos: usize = 0;
    if cs[str_pos] == '^' {
        if n == 1 {
            let mut any: Vec<CharClassType> = Vec::new();
            any.push(CharClassType::Any);
            assert(any@ =~= seq![CharClassType::Any]);
            return Ok(Token::CharacterSet(negate_class, any));
        }
        negate_class = CharSetType::Negated;
        str_pos = str_pos + 1;
    }
    let mut len = n;
    if cs[str_pos] == '-' || cs[len - 1] == '-' {
        char_class_vec.push(CharClassType::Literal('-'));
        if cs[str_pos] == '-' {
            str_pos = str_pos + 1;
        }
        if cs[len - 1] == '-' {
            len = len - 1;
        }
    }
    assert(str_pos == set_from(cs@) && len == set_to(cs@));
    let ghost t = cs@.subrange(str_pos as int, len as int);
    let (ranges, covered) = match find_ranges(&cs, str_pos, len) {
        Ok(found) => found,
        Err(e) => {
            return Err(e);
        },
    };
    let mut range_vec = match ranges_to_classes(&cs_string, &cs, str_pos, len, &ranges) {
        Ok(v) => v,
        Err(e) => {
            return Err(e);
        },
    };
    let remaining_vals = chars_outside(&cs, str_pos, len, &ranges, &covered);
    let mut member_vec = chars_to_classes(&remaining_vals);
    let ghost dash = char_class_vec@;
    let ghost rc = range_vec@;
    let ghost mc = member_vec@;
    char_class_vec.append(&mut range_vec);
    char_class_vec.append(&mut member_vec);
    assert(char_class_vec@ =~= dash + (rc + mc));
    Ok(Token::CharacterSet(negate_class, char_class_vec))
}

// ---------------------------------------------------------------------------
// The tokenizer
// ---------------------------------------------------------------------------

/// `char::is_digit(8)`.
pub open spec fn is_octal_digit(c: char) -> bool {
    '0' <= c <= '7'
}

/// `char::is_digit(16)`.
pub open spec fn is_hex_digit(c: char) -> bool {
    ('0' <= c <= '9') || ('a' <= c <= 'f') || ('A' <= c <= 'F')
}

/// The value of a hexadecimal (or octal) digit.
pub open spec fn digit_value(c: char) -> int {
    if '0' <= c <= '9' {
        c as int - 48
    } else if 'a' <= c <= 'f' {
        c as int - 87
    } else {
        c as int - 55
    }
}

/// Whether `v` is a Unicode scalar value, that is, a valid `char`.
pub open spec fn is_scalar(v: int) -> bool {
    (0 <= v < 0xD800) || (0xE000 <= v <= 0x10FFFF)
}

/// `char::from_u32`: the character with code `v`, if `v` is a scalar value.
#[verifier::external_body]
fn char_from_u32(v: u32) -> (res: Option<char>)
    ensures
        res == (if is_scalar(v as int) { Some(v as char) } else { None::<char> }),
{
    char::from_u32(v)
}

fn is_octal(c: char) -> (res: bool)
    ensures
        res == is_octal_digit(c),
{
    '0' <= c && c <= '7'
}

fn is_hex(c: char) -> (res: bool)
    ensures
        res == is_hex_digit(c),
{
    ('0' <= c && c <= '9') || ('a' <= c && c <= 'f') || ('A' <= c && c <= 'F')
}

fn hex_value(c: char) -> (res: u32)
    requires
        is_hex_digit(c),
    ensures
        res == digit_value(c),
        res < 16,
{
    if '0' <= c && c <= '9' {
        c as u32 - 48
    } else if 'a' <= c && c <= 'f' {
        c as u32 - 87
    } else {
        c as u32 - 55
    }
}

/// The message for a backslash at the end of the pattern.
pub open spec fn msg_dangling() -> Seq<char> {
    "Error: Dangling backslash!"@
}

/// The message for a `{` at `pos` that is never closed.
pub open spec fn msg_quantifier_unclosed(pos: nat) -> Seq<char> {
    "Error at Quantifier! Position "@ + crate::text::decimal(pos) + ": No closing }!"@
}

/// The message for a malformed quantifier at `pos`.
pub open spec fn msg_quantifier(pos: nat, e: Seq<char>) -> Seq<char> {
    "Error at Quantifier position "@ + crate::text::decimal(pos) + ", "@ + e
}

/// The message for a `[` at `pos` that is never closed.
pub open spec fn msg_set_unclosed(pos: nat) -> Seq<char> {
    "Error at Character Class at Position "@ + crate::text::decimal(pos) + ", no closing ']'"@
}

/// The message for a malformed bracket expression at `pos`.
pub open spec fn msg_set(pos: nat, e: Seq<char>) -> Seq<char> {
    "Error at Character Class at Position "@ + crate::text::decimal(pos) + ", "@ + e
}

/// The tokens (none or one) and the next position after a backslash, where
/// `j` is the position of the escaped character; `len` is the length of the
/// pattern in bytes.
pub open spec fn escape_step(s: Seq<char>, len: int, j: int) -> Outcome<(Seq<TokenView>, int)> {
    if j < 0 || j >= s.len() {
        Outcome::Panic
    } else {
        let c = s[j];
        if c == 't' {
            Outcome::Value((seq![TokenView::Literal('\t')], j + 1))
        } else if c == 'n' {
            Outcome::Value((seq![TokenView::Literal('\n')], j + 1))
        } else if c == 'v' {
            Outcome::Value((seq![TokenView::Literal('\x0B')], j + 1))
        } else if c == 'f' {
            Outcome::Value((seq![TokenView::Literal('\x0C')], j + 1))
        } else if c == 'r' {
            Outcome::Value((seq![TokenView::Literal('\r')], j + 1))
        } else if c == 'w' {
            Outcome::Value((seq![TokenView::CharacterClass(CharClassType::Word)], j + 1))
        } else if c == 'W' {
            Outcome::Value((seq![TokenView::CharacterClass(CharClassType::NonWord)], j + 1))
        } else if c == 'd' {
            Outcome::Value((seq![TokenView::CharacterClass(CharClassType::Digit)], j + 1))
        } else if c == 'D' {
            Outcome::Value((seq![TokenView::CharacterClass(CharClassType::NonDigit)], j + 1))
        } else if c == 's' {
            Outcome::Value((seq![TokenView::CharacterClass(CharClassType::Whitespace)], j + 1))
        } else if c == 'S' {
            Outcome::Value((seq![TokenView::CharacterClass(CharClassType::NonWhitespace)], j + 1))
        } else if c == 'b' {
            Outcome::Value((seq![TokenView::WordBoundary], j + 1))
        } else if c == 'B' {
            Outcome::Value((seq![TokenView::NonWordBoundary], j + 1))
        } else if '0' <= c <= '9' {
            if j + 2 < len && j + 2 >= s.len() {
                Outcome::Panic
            } else if j + 2 < len && is_octal_digit(c) && is_octal_digit(s[j + 1])
                && is_octal_digit(s[j + 2]) {
                let v = 64 * digit_value(c) + 8 * digit_value(s[j + 1]) + digit_value(s[j + 2]);
                let code = if v < 255 { v } else { 255 };
                Outcome::Value((seq![TokenView::Literal(code as char)], j + 3))
            } else if c == '0' {
                Outcome::Value((seq![TokenView::Literal('\0')], j + 1))
            } else {
                Outcome::Value((seq![TokenView::Literal(c)], j + 1))
            }
        } else if c == 'x' {
            if j + 2 < len {
                if j + 2 >= s.len() {
                    Outcome::Panic
                } else if is_hex_digit(s[j + 1]) && is_hex_digit(s[j + 2]) {
                    let v = 16 * digit_value(s[j + 1]) + digit_value(s[j + 2]);
                    Outcome::Value((seq![TokenView::Literal(v as char)], j + 3))
                } else {
                    Outcome::Value((seq![], j + 3))
                }
            } else {
                Outcome::Value((seq![TokenView::Literal('x')], j + 1))
            }
        } else if c == 'u' {
            if j + 4 < len {
                if j + 4 >= s.len() {
                    Outcome::Panic
                } else if is_hex_digit(s[j + 1]) && is_hex_digit(s[j + 2]) && is_hex_digit(s[j + 3])
                    && is_hex_digit(s[j + 4]) {
                    let v = 4096 * digit_value(s[j + 1]) + 256 * digit_value(s[j + 2]) + 16
                        * digit_value(s[j + 3]) + digit_value(s[j + 4]);
                    if is_scalar(v) {
                        Outcome::Value((seq![TokenView::Literal(v as char)], j + 5))
                    } else {
                        Outcome::Panic
                    }
                } else {
                    Outcome::Value((seq![], j + 1))
                }
            } else {
                Outcome::Value((seq![TokenView::Literal('u')], j + 1))
            }
        } else {
            Outcome::Value((seq![TokenView::Literal(c)], j + 1))
        }
    }
}

/// The position of the `}` that closes the `{` at `pos`, scanning from `i`.
pub open spec fn brace_close(s: Seq<char>, len: int, pos: int, i: int) -> Outcome<int>
    decreases s.len() - i,
{
    if i < 0 || i >= s.len() {
        Outcome::Panic
    } else if s[i] == '}' {
        Outcome::Value(i)
    } else if i == len - 1 {
        Outcome::Fail(msg_quantifier_unclosed(pos as nat))
    } else {
        brace_close(s, len, pos, i + 1)
    }
}

/// The token and the next position for the `{` at `pos`.
pub open spec fn brace_step(s: Seq<char>, len: int, pos: int) -> Outcome<(Seq<TokenView>, int)> {
    match brace_close(s, len, pos, pos + 1) {
        Outcome::Panic => Outcome::Panic,
        Outcome::Fail(e) => Outcome::Fail(e),
        Outcome::Value(close) => match spec_parse_quantifier(s.subrange(pos + 1, close)) {
            Ok(tv) => Outcome::Value((seq![tv], close + 1)),
            Err(e) => Outcome::Fail(msg_quantifier(pos as nat, e)),
        },
    }
}

/// The position of the `]` that closes the `[` at `pos`, scanning from `i`,
/// with the text read so far after `acc` (an escaped `]` reads as `]`).
pub open spec fn bracket_close(s: Seq<char>, len: int, pos: int, i: int, acc: Seq<char>) -> Outcome<
    (int, Seq<char>),
>
    decreases s.len() - i,
{
    if i < 0 || i >= s.len() {
        Outcome::Panic
    } else if s[i] == ']' {
        Outcome::Value((i, acc))
    } else if i == len - 1 {
        Outcome::Fail(msg_set_unclosed(pos as nat))
    } else if s[i] == '\\' {
        if i + 1 >= s.len() {
            Outcome::Panic
        } else if s[i + 1] == ']' {
            bracket_close(s, len, pos, i + 2, acc.push(']'))
        } else {
            bracket_close(s, len, pos, i + 1, acc.push('\\'))
        }
    } else {
        bracket_close(s, len, pos, i + 1, acc.push(s[i]))
    }
}

/// The closing `]` and the text of the bracket expression opened at `pos`:
/// a `]` right after `[` or `[^` belongs to the text.
pub open spec fn bracket_text(s: Seq<char>, len: int, pos: int) -> Outcome<(int, Seq<char>)> {
    let i = pos + 1;
    if i < 0 || i >= s.len() {
        Outcome::Panic
    } else if s[i] == '^' {
        if i + 1 >= s.len() {
            Outcome::Panic
        } else if s[i + 1] == ']' {
            bracket_close(s, len, pos, i + 2, seq!['^', ']'])
        } else {
            bracket_close(s, len, pos, i, seq![])
        }
    } else if s[i] == ']' {
        bracket_close(s, len, pos, i + 1, seq![']'])
    } else {
        bracket_close(s, len, pos, i, seq![])
    }
}

/// The token and the next position for the `[` at `pos`.
pub open spec fn bracket_step(s: Seq<char>, len: int, pos: int) -> Outcome<(Seq<TokenView>, int)> {
    match bracket_text(s, len, pos) {
        Outcome::Panic => Outcome::Panic,
        Outcome::Fail(e) => Outcome::Fail(e),
        Outcome::Value((close, cs)) => match spec_parse_character_set(cs) {
            Outcome::Panic => Outcome::Panic,
            Outcome::Fail(e) => Outcome::Fail(msg_set(pos as nat, e)),
            Outcome::Value(tv) => Outcome::Value((seq![tv], close + 1)),
        },
    }
}

/// The tokens (none or one) read at position `i` and the position after them.
pub open spec fn tok_step(s: Seq<char>, len: int, i: int) -> Outcome<(Seq<TokenView>, int)> {
    if i < 0 || i >= s.len() {
        Outcome::Panic
    } else {
        let ch = s[i];
        if i == len - 1 && ch == '\\' {
            Outcome::Fail(msg_dangling())
        } else if ch == '.' {
            Outcome::Value((seq![TokenView::WildCard], i + 1))
        } else if ch == '*' {
            Outcome::Value((seq![TokenView::ZeroOrMore], i + 1))
        } else if ch == '+' {
            Outcome::Value((seq![TokenView::OneOrMore], i + 1))
        } else if ch == '?' {
            Outcome::Value((seq![TokenView::ZeroOrOne], i + 1))
        } else if ch == '|' {
            Outcome::Value((seq![TokenView::Alternation], i + 1))
        } else if ch == '(' {
            Outcome::Value((seq![TokenView::LeftParen], i + 1))
        } else if ch == ')' {
            Outcome::Value((seq![TokenView::RightParen], i + 1))
        } else if ch == '^' {
            Outcome::Value((seq![TokenView::StartAnchor], i + 1))
        } else if ch == '$' {
            Outcome::Value((seq![TokenView::EndAnchor], i + 1))
        } else if ch == '\\' {
            escape_step(s, len, i + 1)
        } else if ch == '{' {
            brace_step(s, len, i)
        } else if ch == '[' {
            bracket_step(s, len, i)
        } else {
            Outcome::Value((seq![TokenView::Literal(ch)], i + 1))
        }
    }
}

/// The tokens of the pattern `s` (of `len` bytes) from position `i` on,
/// after the tokens `acc` read before it.
pub open spec fn tok_from(s: Seq<char>, len: int, i: int, acc: Seq<TokenView>) -> Outcome<
    Seq<TokenView>,
>
    decreases (if i < len { len - i } else { 0 }),
{
    if i >= len {
        Outcome::Value(acc)
    } else {
        match tok_step(s, len, i) {
            Outcome::Panic => Outcome::Panic,
            Outcome::Fail(e) => Outcome::Fail(e),
            Outcome::Value((t, j)) => if i < j {
                tok_from(s, len, j, acc + t)
            } else {
                Outcome::Panic
            },
        }
    }
}

/// What `tokenize` gives for the pattern `s` of `len` bytes.
pub open spec fn spec_tokenize(s: Seq<char>, len: int) -> Outcome<Seq<TokenView>> {
    if len == 0 {
        Outcome::Value(seq![TokenView::Epsilon])
    } else {
        tok_from(s, len, 0, seq![])
    }
}

proof fn lemma_brace_close_bound(s: Seq<char>, len: int, pos: int, i: int)
    ensures
        brace_close(s, len, pos, i) matches Outcome::Value(c) ==> i <= c < s.len(),
    decreases s.len() - i,
{
    if 0 <= i < s.len() && s[i] != '}' && i != len - 1 {
        lemma_brace_close_bound(s, len, pos, i + 1);
    }
}

proof fn lemma_bracket_close_bound(s: Seq<char>, len: int, pos: int, i: int, acc: Seq<char>)
    ensures
        bracket_close(s, len, pos, i, acc) matches Outcome::Value((c, _)) ==> i <= c < s.len(),
    decreases s.len() - i,
{
    if 0 <= i < s.len() && s[i] != ']' && i != len - 1 {
        if s[i] == '\\' {
            if i + 1 < s.len() {
                if s[i + 1] == ']' {
                    lemma_bracket_close_bound(s, len, pos, i + 2, acc.push(']'));
                } else {
                    lemma_bracket_close_bound(s, len, pos, i + 1, acc.push('\\'));
                }
            }
        } else {
            lemma_bracket_close_bound(s, len, pos, i + 1, acc.push(s[i]));
        }
    }
}

/// A step of the tokenizer moves forward and stays within the pattern.
proof fn lemma_step_bounds(s: Seq<char>, len: int, i: int)
    requires
        s.len() <= len,
    ensures
        tok_step(s, len, i) matches Outcome::Value((_, j)) ==> i < j <= len,
{
    if 0 <= i < s.len() {
        lemma_brace_close_bound(s, len, i, i + 1);
        let k = i + 1;
        if 0 <= k < s.len() {
            if s[k] == '^' && k + 1 < s.len() && s[k + 1] == ']' {
                lemma_bracket_close_bound(s, len, i, k + 2, seq!['^', ']']);
            } else if s[k] == ']' {
                lemma_bracket_close_bound(s, len, i, k + 1, seq![']']);
            } else {
                lemma_bracket_close_bound(s, len, i, k, seq![]);
            }
        }
    }
}

/// The tokens of a sequence that holds none or one.
pub open spec fn opt_view(t: Option<Token>) -> Seq<TokenView> {
    match t {
        Some(t) => seq![t@],
        None => seq![],
    }
}

fn escape_token(input: &str, len: usize, j: usize) -> (res: (Option<Token>, usize))
    requires
        len == input.spec_bytes().len(),
        input@.len() <= len <= isize::MAX,
        !(escape_step(input@, len as int, j as int) is Panic),
    ensures
        escape_step(input@, len as int, j as int) == Outcome::Value((opt_view(res.0), res.1 as int)),
{
    let c = input.get_char(j);
    if c == 't' {
        (Some(Token::Literal('\t')), j + 1)
    } else if c == 'n' {
        (Some(Token::Literal('\n')), j + 1)
    } else if c == 'v' {
        (Some(Token::Literal('\x0B')), j + 1)
    } else if c == 'f' {
        (Some(Token::Literal('\x0C')), j + 1)
    } else if c == 'r' {
        (Some(Token::Literal('\r')), j + 1)
    } else if c == 'w' {
        (Some(Token::CharacterClass(CharClassType::Word)), j + 1)
    } else if c == 'W' {
        (Some(Token::CharacterClass(CharClassType::NonWord)), j + 1)
    } else if c == 'd' {
        (Some(Token::CharacterClass(CharClassType::Digit)), j + 1)
    } else if c == 'D' {
        (Some(Token::CharacterClass(CharClassType::NonDigit)), j + 1)
    } else if c == 's' {
        (Some(Token::CharacterClass(CharClassType::Whitespace)), j + 1)
    } else if c == 'S' {
        (Some(Token::CharacterClass(CharClassType::NonWhitespace)), j + 1)
    } else if c == 'b' {
        (Some(Token::WordBoundary), j + 1)
    } else if c == 'B' {
        (Some(Token::NonWordBoundary), j + 1)
    } else if '0' <= c && c <= '9' {
        // an octal escape has exactly three octal digits
        if j + 2 < len {
            let sec_digi = input.get_char(j + 1);
            let third_digi = input.get_char(j + 2);
            if is_octal(c) && is_octal(sec_digi) && is_octal(third_digi) {
                let octal = 64 * (c as u32 - 48) + 8 * (sec_digi as u32 - 48) + (third_digi as u32 - 48);
                // most engines stop at 255, so larger values become 255
                let mut octal_char: u32 = 255;
                if octal < 255 {
                    octal_char = octal;
                }
                let ch = char_from_u32(octal_char).unwrap();
                return (Some(Token::Literal(ch)), j + 3);
            }
        }
        if c == '0' {
            (Some(Token::Literal('\0')), j + 1)
        } else {
            (Some(Token::Literal(c)), j + 1)
        }
    } else if c == 'x' {
        if j + 2 < len {
            let first_digi = input.get_char(j + 1);
            let sec_digi = input.get_char(j + 2);
            if is_hex(first_digi) && is_hex(sec_digi) {
                let hex_val = 16 * hex_value(first_digi) + hex_value(sec_digi);
                let ch = char_from_u32(hex_val).unwrap();
                return (Some(Token::Literal(ch)), j + 3);
            }
            (None, j + 3)
        } else {
            (Some(Token::Literal(c)), j + 1)
        }
    } else if c == 'u' {
        if j + 4 < len {
            let first_digi = input.get_char(j + 1);
            let sec_digi = input.get_char(j + 2);
            let third_digi = input.get_char(j + 3);
            let four_digi = input.get_char(j + 4);
            if is_hex(first_digi) && is_hex(sec_digi) && is_hex(third_digi) && is_hex(four_digi) {
                let digits = 4096 * hex_value(first_digi) + 256 * hex_value(sec_digi) + 16 * hex_value(
                    third_digi,
                ) + hex_value(four_digi);
                let unicode_val = char_from_u32(digits).unwrap();
                return (Some(Token::Literal(unicode_val)), j + 5);
            }
            (None, j + 1)
        } else {
            (Some(Token::Literal(c)), j + 1)
        }
    } else {
        (Some(Token::Literal(c)), j + 1)
    }
}

/// The `{m,n}` token whose `{` is at `q_pos`, and the position after its `}`.
fn brace_token(input: &str, len: usize, q_pos: usize) -> (res: Result<(Token, usize), String>)
    requires
        len == input.spec_bytes().len(),
        input@.len() <= len <= isize::MAX,
        !(brace_step(input@, len as int, q_pos as int) is Panic),
    ensures
        match (res, brace_step(input@, len as int, q_pos as int)) {
            (Ok((t, j)), Outcome::Value((ts, sj))) => ts == seq![t@] && sj == j,
            (Err(e), Outcome::Fail(m)) => e@ == m,
            _ => false,
        },
{
    let mut i = q_pos + 1;
    let mut c = input.get_char(i);
    while c != '}'
        invariant
            len == input.spec_bytes().len(),
            input@.len() <= len <= isize::MAX,
            q_pos < i < input@.len(),
            c == input@[i as int],
            brace_close(input@, len as int, q_pos as int, q_pos + 1) == brace_close(
                input@,
                len as int,
                q_pos as int,
                i as int,
            ),
            !(brace_close(input@, len as int, q_pos as int, i as int) is Panic),
        decreases input@.len() - i,
    {
        if i == len - 1 {
            let mut msg = String::from_str("Error at Quantifier! Position ");
            msg.append(decimal_string(q_pos).as_str());
            msg.append(": No closing }!");
            return Err(msg);
        }
        i = i + 1;
        c = input.get_char(i);
    }
    let quantifier_str = String::from_str(input.substring_char(q_pos + 1, i));
    match parse_quantifier(quantifier_str) {
        Ok(token) => Ok((token, i + 1)),
        Err(e) => {
            let mut msg = String::from_str("Error at Quantifier position ");
            msg.append(decimal_string(q_pos).as_str());
            msg.append(", ");
            msg.append(e.as_str());
            Err(msg)
        },
    }
}

/// The bracket-expression token whose `[` is at `cc_pos`, and the position
/// after its `]`.
fn bracket_token(input: &str, len: usize, cc_pos: usize) -> (res: Result<(Token, usize), String>)
    requires
        len == input.spec_bytes().len(),
        input@.len() <= len <= isize::MAX,
        !(bracket_step(input@, len as int, cc_pos as int) is Panic),
    ensures
        match (res, bracket_step(input@, len as int, cc_pos as int)) {
            (Ok((t, j)), Outcome::Value((ts, sj))) => ts == seq![t@] && sj == j,
            (Err(e), Outcome::Fail(m)) => e@ == m,
            _ => false,
        },
{
    let mut cc_string = String::new();
    let mut i = cc_pos + 1;
    let mut c = input.get_char(i);
    if c == ']' || c == '^' {
        // a `]` right after the opening bracket is literal
        if c == '^' {
            if input.get_char(i + 1) == ']' {
                cc_string.append(input.substring_char(i, i + 2));
                assert(cc_string@ =~= seq!['^', ']']);
                i = i + 2;
                c = input.get_char(i);
            }
        } else {
            cc_string.append(input.substring_char(i, i + 1));
            assert(cc_string@ =~= seq![']']);
            i = i + 1;
            c = input.get_char(i);
        }
    }
    assert(bracket_text(input@, len as int, cc_pos as int) == bracket_close(
        input@,
        len as int,
        cc_pos as int,
        i as int,
        cc_string@,
    ));
    while c != ']'
        invariant
            len == input.spec_bytes().len(),
            input@.len() <= len <= isize::MAX,
            cc_pos < i < input@.len(),
            c == input@[i as int],
            bracket_text(input@, len as int, cc_pos as int) == bracket_close(
                input@,
                len as int,
                cc_pos as int,
                i as int,
                cc_string@,
            ),
            !(bracket_close(input@, len as int, cc_pos as int, i as int, cc_string@) is Panic),
        decreases input@.len() - i,
    {
        if i == len - 1 {
            let mut msg = String::from_str("Error at Character Class at Position ");
            msg.append(decimal_string(cc_pos).as_str());
            msg.append(", no closing ']'");
            return Err(msg);
        }
        if c == '\\' {
            if input.get_char(i + 1) == ']' {
                // an escaped `]`
                let ghost before = cc_string@;
                cc_string.append(input.substring_char(i + 1, i + 2));
                assert(cc_string@ =~= before.push(']'));
                i = i + 2;
                c = input.get_char(i);
                continue;
            }
        }
        let ghost before = cc_string@;
        cc_string.append(input.substring_char(i, i + 1));
        assert(cc_string@ =~= before.push(c));
        i = i + 1;
        c = input.get_char(i);
    }
    let ghost text = cc_string@;
    match parse_character_set(cc_string) {
        Ok(token) => Ok((token, i + 1)),
        Err(e) => {
            let mut msg = String::from_str("Error at Character Class at Position ");
            msg.append(decimal_string(cc_pos).as_str());
            msg.append(", ");
            msg.append(e.as_str());
            Err(msg)
        },
    }
}

/// Splits a pattern into tokens. An empty pattern gives the single token
/// `Epsilon`; a character without a special meaning is a literal.
pub fn tokenize(input: &str) -> (res: Result<Vec<Token>, String>)
    requires
        input.spec_bytes().len() <= isize::MAX,
        !(spec_tokenize(input@, input.spec_bytes().len() as int) is Panic),
    ensures
        match (res, spec_tokenize(input@, input.spec_bytes().len() as int)) {
            (Ok(ts), Outcome::Value(tv)) => crate::types::token_types::tokens_view(ts@) == tv,
            (Err(e), Outcome::Fail(m)) => e@ == m,
            _ => false,
        },
{
    let mut tokens: Vec<Token> = Vec::new();
    let len = input.len();
    proof {
        crate::text::lemma_utf8_len_bound(input@);
    }
    if len == 0 {
        tokens.push(Token::Epsilon);
        assert(crate::types::token_types::tokens_view(tokens@) =~= seq![TokenView::Epsilon]);
        return Ok(tokens);
    }
    let mut i: usize = 0;
    assert(crate::types::token_types::tokens_view(tokens@) =~= Seq::<TokenView>::empty());
    while i < len
        invariant
            len == input.spec_bytes().len(),
            input@.len() <= len <= isize::MAX,
            len > 0,
            i <= len,
            spec_tokenize(input@, len as int) == tok_from(input@, len as int, i as int, crate::types::token_types::tokens_view(tokens@)),
            !(tok_from(input@, len as int, i as int, crate::types::token_types::tokens_view(tokens@)) is Panic),
        decreases len - i,
    {
        let ghost before = crate::types::token_types::tokens_view(tokens@);
        let ch = input.get_char(i);
        if i == len - 1 {
            // a backslash cannot end the pattern
            if ch == '\\' {
                return Err(String::from_str("Error: Dangling backslash!"));
            }
        }
        let (next, j): (Option<Token>, usize) = if ch == '.' {
            (Some(Token::WildCard), i + 1)
        } else if ch == '*' {
            (Some(Token::ZeroOrMore), i + 1)
        } else if ch == '+' {
            (Some(Token::OneOrMore), i + 1)
        } else if ch == '?' {
            (Some(Token::ZeroOrOne), i + 1)
        } else if ch == '|' {
            (Some(Token::Alternation), i + 1)
        } else if ch == '(' {
            (Some(Token::LeftParen), i + 1)
        } else if ch == ')' {
            (Some(Token::RightParen), i + 1)
        } else if ch == '^' {
            (Some(Token::StartAnchor), i + 1)
        } else if ch == '$' {
            (Some(Token::EndAnchor), i + 1)
        } else if ch == '\\' {
            escape_token(input, len, i + 1)
        } else if ch == '{' {
            match brace_token(input, len, i) {
                Ok((token, j)) => (Some(token), j),
                Err(e) => {
                    return Err(e);
                },
            }
        } else if ch == '[' {
            match bracket_token(input, len, i) {
                Ok((token, j)) => (Some(token), j),
                Err(e) => {
                    return Err(e);
                },
            }
        } else {
            // any other character stands for itself
            (Some(Token::Literal(ch)), i + 1)
        };
        assert(tok_step(input@, len as int, i as int) == Outcome::Value((opt_view(next), j as int)));
        proof {
            lemma_step_bounds(input@, len as int, i as int);
        }
        if let Some(token) = next {
            tokens.push(token);
        }
        assert(crate::types::token_types::tokens_view(tokens@) =~= before + opt_view(next));
        i = j;
    }
    proof {
        assert(tok_from(input@, len as int, i as int, crate::types::token_types::tokens_view(tokens@)) == Outcome::Value(crate::types::token_types::tokens_view(tokens@)));
    }
    Ok(tokens)
}

/// Whether a token, if it is a repetition `{m,n}`, has `m <= n`.
pub open spec fn token_ordered(t: TokenView) -> bool {
    t matches TokenView::Repetition(m, Some(n)) ==> m <= n
}

/// Whether every repetition among `ts` has its bounds in order.
pub open spec fn tokens_ordered(ts: Seq<TokenView>) -> bool {
    forall|k: int| 0 <= k < ts.len() ==> token_ordered(#[trigger] ts[k])
}

proof fn lemma_one_token_ordered(t: TokenView)
    requires
        token_ordered(t),
    ensures
        tokens_ordered(seq![t]),
{
    assert forall|k: int| 0 <= k < 1 implies token_ordered(#[trigger] seq![t][k]) by {
        assert(seq![t][k] == t);
    }
}

/// Whether `t` is empty or one token that is no repetition.
spec fn at_most_one_plain(t: Seq<TokenView>) -> bool {
    t.len() == 0 || (t.len() == 1 && !(t[0] is Repetition))
}

proof fn lemma_plain_ordered(t: Seq<TokenView>)
    requires
        at_most_one_plain(t),
    ensures
        tokens_ordered(t),
{
    assert forall|k: int| 0 <= k < t.len() implies token_ordered(#[trigger] t[k]) by {
        assert(k == 0);
    }
}

proof fn lemma_literal_plain(c: char)
    ensures
        at_most_one_plain(seq![TokenView::Literal(c)]),
{
}

proof fn lemma_escape_plain(s: Seq<char>, len: int, j: int)
    ensures
        escape_step(s, len, j) matches Outcome::Value((t, _)) ==> at_most_one_plain(t),
{
    if 0 <= j < s.len() {
        let c = s[j];
        if '0' <= c <= '9' {
            if j + 2 < len && j + 2 >= s.len() {
            } else if j + 2 < len && is_octal_digit(c) && is_octal_digit(s[j + 1]) && is_octal_digit(s[j + 2]) {
                let v = 64 * digit_value(c) + 8 * digit_value(s[j + 1]) + digit_value(s[j + 2]);
                let code = if v < 255 { v } else { 255 };
                assert(at_most_one_plain(seq![TokenView::Literal(code as char)]));
            } else if c == '0' {
                assert(at_most_one_plain(seq![TokenView::Literal('\0')]));
            } else {
                assert(at_most_one_plain(seq![TokenView::Literal(c)]));
            }
        } else if c == 'x' {
            if j + 2 < len && j + 2 < s.len() && is_hex_digit(s[j + 1]) && is_hex_digit(s[j + 2]) {
                let v = 16 * digit_value(s[j + 1]) + digit_value(s[j + 2]);
                assert(at_most_one_plain(seq![TokenView::Literal(v as char)]));
            } else {
                assert(at_most_one_plain(seq![]));
                assert(at_most_one_plain(seq![TokenView::Literal('x')]));
            }
        } else if c == 'u' {
            if j + 4 < len && j + 4 < s.len() && is_hex_digit(s[j + 1]) && is_hex_digit(s[j + 2])
                && is_hex_digit(s[j + 3]) && is_hex_digit(s[j + 4]) {
                let v = 4096 * digit_value(s[j + 1]) + 256 * digit_value(s[j + 2]) + 16 * digit_value(s[j + 3])
                    + digit_value(s[j + 4]);
                assert(at_most_one_plain(seq![TokenView::Literal(v as char)]));
            } else {
                assert(at_most_one_plain(seq![]));
                assert(at_most_one_plain(seq![TokenView::Literal('u')]));
            }
        } else if let Outcome::Value((t, _)) = escape_step(s, len, j) {
            if c == 't' {
                assert(t == seq![TokenView::Literal('\t')]);
            } else if c == 'n' {
                assert(t == seq![TokenView::Literal('\n')]);
            } else if c == 'v' {
                assert(t == seq![TokenView::Literal('\x0B')]);
            } else if c == 'f' {
                assert(t == seq![TokenView::Literal('\x0C')]);
            } else if c == 'r' {
                assert(t == seq![TokenView::Literal('\r')]);
            } else if c == 'w' {
                assert(t == seq![TokenView::CharacterClass(CharClassType::Word)]);
            } else if c == 'W' {
                assert(t == seq![TokenView::CharacterClass(CharClassType::NonWord)]);
            } else if c == 'd' {
                assert(t == seq![TokenView::CharacterClass(CharClassType::Digit)]);
            } else if c == 'D' {
                assert(t == seq![TokenView::CharacterClass(CharClassType::NonDigit)]);
            } else if c == 's' {
                assert(t == seq![TokenView::CharacterClass(CharClassType::Whitespace)]);
            } else if c == 'S' {
                assert(t == seq![TokenView::CharacterClass(CharClassType::NonWhitespace)]);
            } else if c == 'b' {
                assert(t == seq![TokenView::WordBoundary]);
            } else if c == 'B' {
                assert(t == seq![TokenView::NonWordBoundary]);
            } else {
                assert(t == seq![TokenView::Literal(c)]);
                lemma_literal_plain(c);
            }
            assert(at_most_one_plain(t));
        }
    }
}

proof fn lemma_tok_step_ordered(s: Seq<char>, len: int, i: int)
    ensures
        tok_step(s, len, i) matches Outcome::Value((t, _)) ==> tokens_ordered(t),
{
    if 0 <= i < s.len() {
        let ch = s[i];
        if i == len - 1 && ch == '\\' {
        } else if ch == '{' {
            if let Outcome::Value(close) = brace_close(s, len, i, i + 1) {
                lemma_quantifier_bounds_ordered(s.subrange(i + 1, close));
                if let Ok(tv) = spec_parse_quantifier(s.subrange(i + 1, close)) {
                    lemma_one_token_ordered(tv);
                }
            }
        } else if ch == '[' {
            if let Outcome::Value((close, cs)) = bracket_text(s, len, i) {
                if let Outcome::Value(tv) = spec_parse_character_set(cs) {
                    assert(tv is CharacterSet);
                    lemma_one_token_ordered(tv);
                }
            }
        } else if ch == '\\' {
            lemma_escape_plain(s, len, i + 1);
            if let Outcome::Value((t, _)) = escape_step(s, len, i + 1) {
                lemma_plain_ordered(t);
            }
        } else if let Outcome::Value((t, _)) = tok_step(s, len, i) {
            if ch == '.' {
                assert(t == seq![TokenView::WildCard]);
            } else if ch == '*' {
                assert(t == seq![TokenView::ZeroOrMore]);
            } else if ch == '+' {
                assert(t == seq![TokenView::OneOrMore]);
            } else if ch == '?' {
                assert(t == seq![TokenView::ZeroOrOne]);
            } else if ch == '|' {
                assert(t == seq![TokenView::Alternation]);
            } else if ch == '(' {
                assert(t == seq![TokenView::LeftParen]);
            } else if ch == ')' {
                assert(t == seq![TokenView::RightParen]);
            } else if ch == '^' {
                assert(t == seq![TokenView::StartAnchor]);
            } else if ch == '$' {
                assert(t == seq![TokenView::EndAnchor]);
            } else {
                assert(t == seq![TokenView::Literal(ch)]);
                lemma_literal_plain(ch);
            }
            assert(at_most_one_plain(t));
            lemma_plain_ordered(t);
        }
    }
}

proof fn lemma_tok_from_ordered(s: Seq<char>, len: int, i: int, acc: Seq<TokenView>)
    requires
        tokens_ordered(acc),
    ensures
        tok_from(s, len, i, acc) matches Outcome::Value(ts) ==> tokens_ordered(ts),
    decreases (if i < len { len - i } else { 0 }),
{
    if i < len {
        lemma_tok_step_ordered(s, len, i);
        if let Outcome::Value((t, j)) = tok_step(s, len, i) {
            if i < j {
                assert forall|k: int| 0 <= k < (acc + t).len() implies token_ordered(#[trigger] (acc + t)[k]) by {
                    if k < acc.len() {
                        assert((acc + t)[k] == acc[k]);
                    } else {
                        assert((acc + t)[k] == t[k - acc.len()]);
                    }
                }
                lemma_tok_from_ordered(s, len, j, acc + t);
            }
        }
    }
}

/// Every repetition `{m,n}` that the tokenizer gives has `m <= n`.
pub proof fn lemma_tokens_ordered(s: Seq<char>, len: int)
    ensures
        spec_tokenize(s, len) matches Outcome::Value(ts) ==> tokens_ordered(ts),
{
    if len == 0 {
        lemma_one_token_ordered(TokenView::Epsilon);
    } else {
        lemma_tok_from_ordered(s, len, 0, seq![]);
    }
}

/// The value of `c` as a digit: `0`-`9` count from zero, and a letter of
/// either case counts from ten at `a`.
pub open spec fn radix_digit(c: char) -> int {
    if '0' <= c <= '9' {
        c as int - '0' as int
    } else if 'a' <= c <= 'z' {
        c as int - 'a' as int + 10
    } else {
        c as int - 'A' as int + 10
    }
}

/// The number that the digits `ds` denote in base `base`, most significant first.
pub open spec fn numeral(ds: Seq<char>, base: int) -> int
    decreases ds.len(),
{
    if ds.len() == 0 {
        0
    } else {
        numeral(ds.drop_last(), base) * base + radix_digit(ds.last())
    }
}

proof fn lemma_numeral_step(s: Seq<char>, a: int, b: int, base: int)
    requires
        0 <= a < b <= s.len(),
    ensures
        numeral(s.subrange(a, b), base) == numeral(s.subrange(a, b - 1), base) * base + radix_digit(s[b - 1]),
{
    assert(s.subrange(a, b).drop_last() =~= s.subrange(a, b - 1));
}

proof fn lemma_numeral_empty(s: Seq<char>, a: int, base: int)
    requires
        0 <= a <= s.len(),
    ensures
        numeral(s.subrange(a, a), base) == 0,
{
    assert(s.subrange(a, a).len() == 0);
}

/// The numeric escapes give the character whose code their digits denote:
/// `\uHHHH` the four hexadecimal digits, `\xHH` the two, and `\OOO` (three
/// octal digits) their octal value, where any value above 255 gives 255. A
/// `\u` escape whose value is no character panics.
pub proof fn lemma_numeric_escapes(s: Seq<char>, len: int, j: int)
    requires
        0 <= j,
    ensures
        (s[j] == 'u' && j + 4 < len && j + 4 < s.len() && is_hex_digit(s[j + 1]) && is_hex_digit(s[j + 2])
            && is_hex_digit(s[j + 3]) && is_hex_digit(s[j + 4])) ==> escape_step(s, len, j) == if is_scalar(
            numeral(s.subrange(j + 1, j + 5), 16),
        ) {
            Outcome::Value((seq![TokenView::Literal(numeral(s.subrange(j + 1, j + 5), 16) as char)], j + 5))
        } else {
            Outcome::Panic
        },
        (s[j] == 'x' && j + 2 < len && j + 2 < s.len() && is_hex_digit(s[j + 1]) && is_hex_digit(s[j + 2]))
            ==> escape_step(s, len, j) == Outcome::Value(
            (seq![TokenView::Literal(numeral(s.subrange(j + 1, j + 3), 16) as char)], j + 3),
        ),
        (is_octal_digit(s[j]) && j + 2 < len && j + 2 < s.len() && is_octal_digit(s[j + 1]) && is_octal_digit(
            s[j + 2],
        )) ==> escape_step(s, len, j) == Outcome::Value(
            (
                seq![
                    TokenView::Literal(
                        (if numeral(s.subrange(j, j + 3), 8) < 255 {
                            numeral(s.subrange(j, j + 3), 8)
                        } else {
                            255
                        }) as char,
                    ),
                ],
                j + 3,
            ),
        ),
{
    if j + 4 < s.len() {
        lemma_numeral_empty(s, j + 1, 16);
        lemma_numeral_step(s, j + 1, j + 2, 16);
        lemma_numeral_step(s, j + 1, j + 3, 16);
        lemma_numeral_step(s, j + 1, j + 4, 16);
        lemma_numeral_step(s, j + 1, j + 5, 16);
    }
    if j + 2 < s.len() {
        lemma_numeral_empty(s, j + 1, 16);
        lemma_numeral_step(s, j + 1, j + 2, 16);
        lemma_numeral_step(s, j + 1, j + 3, 16);
        lemma_numeral_empty(s, j, 8);
        lemma_numeral_step(s, j, j + 1, 8);
        lemma_numeral_step(s, j, j + 2, 8);
        lemma_numeral_step(s, j, j + 3, 8);
    }
}

/// Whether `c` names a class after a backslash: `w`, `W`, `d`, `D`, `s` or `S`.
pub open spec fn is_class_letter(c: char) -> bool {
    c == 'w' || c == 'W' || c == 'd' || c == 'D' || c == 's' || c == 'S'
}

proof fn lemma_bracket_escape_set(c: char)
    requires
        is_class_letter(c),
    ensures
        spec_parse_character_set(seq!['\\', c]) == Outcome::Value(
            TokenView::CharacterSet(CharSetType::NonNegated, seq![escaped_class(c)]),
        ),
{
    let cs = seq!['\\', c];
    assert(is_ascii_chars(cs));
    assert(set_from(cs) == 0);
    assert(set_to(cs) == 2);
    assert(!set_has_dash(cs));
    let t = cs.subrange(0, 2);
    assert(t =~= cs);
    assert(scan_ranges(t, 2) == Outcome::<Seq<(usize, usize)>>::Value(seq![]));
    assert(scan_ranges(t, 1) == Outcome::<Seq<(usize, usize)>>::Value(seq![]));
    assert(scan_ranges(t, 0) == Outcome::<Seq<(usize, usize)>>::Value(seq![]));
    let rs = Seq::<(usize, usize)>::empty();
    assert(range_classes(t, rs) == Outcome::<Seq<CharClassType>>::Value(seq![]));
    assert(!in_range(rs, 0));
    assert(!in_range(rs, 1));
    assert(outside_ranges(t, rs, 2) == Seq::<char>::empty());
    assert(outside_ranges(t, rs, 1) =~= seq![c]);
    assert(outside_ranges(t, rs, 0) =~= cs);
    assert(cs.skip(2) =~= Seq::<char>::empty());
    assert(member_classes(cs.skip(2)) == Outcome::<Seq<CharClassType>>::Value(seq![]));
    assert(seq![escaped_class(c)] + Seq::<CharClassType>::empty() =~= seq![escaped_class(c)]);
    assert(member_classes(cs) == Outcome::Value(seq![escaped_class(c)]));
    assert(Seq::<CharClassType>::empty() + seq![escaped_class(c)] =~= seq![escaped_class(c)]);
    assert(set_members(t) == Outcome::Value(seq![escaped_class(c)]));
}

/// Inside brackets, a backslash before `w`, `W`, `d`, `D`, `s` or `S` denotes
/// the same class as that escape does outside brackets: the bracket text `\c`
/// is the set of just the class that the escape `\c` gives: `\w` the word
/// characters, `\d` the digits, `\s` white space, and the upper-case letters
/// their complements.
pub proof fn lemma_bracket_escapes_match_escapes(s: Seq<char>, len: int, j: int)
    requires
        0 <= j < s.len(),
        is_class_letter(s[j]),
    ensures
        escape_step(s, len, j) matches Outcome::Value((t, next)) && next == j + 1 && t.len() == 1 && (
        t[0] matches TokenView::CharacterClass(k) && spec_parse_character_set(seq!['\\', s[j]])
            == Outcome::Value(TokenView::CharacterSet(CharSetType::NonNegated, seq![k])) && (s[j] == 'w' ==> k
            == CharClassType::Word) && (s[j] == 'W' ==> k == CharClassType::NonWord) && (s[j] == 'd' ==> k
            == CharClassType::Digit) && (s[j] == 'D' ==> k == CharClassType::NonDigit) && (s[j] == 's' ==> k
            == CharClassType::Whitespace) && (s[j] == 'S' ==> k == CharClassType::NonWhitespace)),
{
    lemma_bracket_escape_set(s[j]);
}

/// Whether every character of `s` is one of `0`-`9`, and there is one.
pub open spec fn decimal_digits(s: Seq<char>) -> bool {
    s.len() > 0 && forall|i: int| 0 <= i < s.len() ==> '0' <= #[trigger] s[i] && s[i] <= '9'
}

proof fn lemma_digits_numeral(s: Seq<char>)
    requires
        forall|i: int| 0 <= i < s.len() ==> '0' <= #[trigger] s[i] && s[i] <= '9',
    ensures
        crate::text::digits_value(s) == numeral(s, 10),
    decreases s.len(),
{
    if s.len() > 0 {
        assert forall|i: int| 0 <= i < s.drop_last().len() implies '0' <= #[trigger] s.drop_last()[i]
            && s.drop_last()[i] <= '9' by {
            assert(s.drop_last()[i] == s[i]);
        }
        lemma_digits_numeral(s.drop_last());
        assert('0' <= s.last() <= '9');
    }
}

proof fn lemma_digits_trim(s: Seq<char>)
    requires
        forall|i: int| 0 <= i < s.len() ==> '0' <= #[trigger] s[i] && s[i] <= '9',
    ensures
        crate::text::trim(s) == s,
{
    if s.len() > 0 {
        assert('0' <= s[0] <= '9');
        assert('0' <= s.last() <= '9');
    }
}

proof fn lemma_digits_parse(s: Seq<char>)
    requires
        decimal_digits(s),
        numeral(s, 10) <= usize::MAX,
    ensures
        crate::text::parse_usize(s) == Some(numeral(s, 10) as usize),
{
    lemma_digits_numeral(s);
    assert(s[0] != '+');
    assert(crate::text::all_digits(s));
}

/// A bounded repetition denotes the decimal numbers written in it: `{n}`
/// gives `n` to `n`, `{m,}` gives `m` without a bound, and `{m,n}` gives `m`
/// to `n`, refused unless `m` is below `n`.
pub proof fn lemma_quantifier_numbers(a: Seq<char>, b: Seq<char>)
    requires
        decimal_digits(a),
        decimal_digits(b),
        numeral(a, 10) <= usize::MAX,
        numeral(b, 10) <= usize::MAX,
    ensures
        spec_parse_quantifier(a) == Ok::<TokenView, Seq<char>>(
            TokenView::Repetition(numeral(a, 10) as usize, Some(numeral(a, 10) as usize)),
        ),
        spec_parse_quantifier(a + seq![',']) == Ok::<TokenView, Seq<char>>(
            TokenView::Repetition(numeral(a, 10) as usize, None),
        ),
        spec_parse_quantifier(a + seq![','] + b) is Ok <==> numeral(a, 10) < numeral(b, 10),
        numeral(a, 10) < numeral(b, 10) ==> spec_parse_quantifier(a + seq![','] + b) == Ok::<TokenView, Seq<char>>(
            TokenView::Repetition(numeral(a, 10) as usize, Some(numeral(b, 10) as usize)),
        ),
{
    lemma_digits_parse(a);
    lemma_digits_parse(b);
    lemma_digits_trim(a);
    lemma_digits_trim(b);
    // `a` has no comma
    assert forall|k: int| !first_comma_at(a, k) by {
        if 0 <= k < a.len() {
            assert('0' <= a[k] <= '9');
        }
    }
    let k = a.len() as int;
    let q1 = a + seq![','];
    let q2 = a + seq![','] + b;
    assert forall|j: int| 0 <= j < k implies q1[j] != ',' && q2[j] != ',' by {
        assert(q1[j] == a[j]);
        assert(q2[j] == a[j]);
        assert('0' <= a[j] <= '9');
    }
    assert(first_comma_at(q1, k));
    assert(first_comma_at(q2, k));
    assert forall|k2: int| first_comma_at(q1, k2) implies k2 == k by {
        if k2 < k {
            assert(q1[k2] == a[k2]);
            assert('0' <= a[k2] <= '9');
        }
    }
    assert forall|k2: int| first_comma_at(q2, k2) implies k2 == k by {
        if k2 < k {
            assert(q2[k2] == a[k2]);
            assert('0' <= a[k2] <= '9');
        }
    }
    assert(q1.take(k) =~= a);
    assert(q1.skip(k + 1) =~= Seq::<char>::empty());
    assert(crate::text::trim(Seq::<char>::empty()) =~= Seq::<char>::empty());
    assert(q2.take(k) =~= a);
    assert(q2.skip(k + 1) =~= b);
    let kk = choose|k2: int| first_comma_at(q2, k2);
    assert(kk == k);
    assert(crate::text::trim(q2.skip(kk + 1)) == b);
    assert(crate::text::trim(q2.take(kk)) == a);
    assert(crate::text::trim(b).len() != 0);
    lemma_digits_numeral(a);
    lemma_digits_numeral(b);
    let va = numeral(a, 10) as usize;
    let vb = numeral(b, 10) as usize;
    assert(crate::text::parse_usize(crate::text::trim(q2.take(kk))) == Some(va));
    assert(crate::text::parse_usize(crate::text::trim(q2.skip(kk + 1))) == Some(vb));
    assert(va as int == numeral(a, 10) && vb as int == numeral(b, 10));
    assert(spec_parse_quantifier(q2) == if va >= vb {
        Err::<TokenView, Seq<char>>(
            "Error: invalid quantifier value! First value must be less than the second value!"@,
        )
    } else {
        Ok(TokenView::Repetition(va, Some(vb)))
    });
}

/// The letter escapes stand for control characters: `\t` tab (9), `\n` line
/// feed (10), `\v` vertical tab (11), `\f` form feed (12), `\r` carriage
/// return (13); `\b` and `\B` are the word boundary and its negation; and a
/// backslash before any other character that is no digit and none of `x`,
/// `u`, `w`, `W`, `d`, `D`, `s`, `S` stands for that character itself.
pub proof fn lemma_plain_escapes(s: Seq<char>, len: int, j: int)
    requires
        0 <= j < s.len(),
    ensures
        s[j] == 't' ==> escape_step(s, len, j) == Outcome::Value((seq![TokenView::Literal(9u8 as char)], j + 1)),
        s[j] == 'n' ==> escape_step(s, len, j) == Outcome::Value((seq![TokenView::Literal(10u8 as char)], j + 1)),
        s[j] == 'v' ==> escape_step(s, len, j) == Outcome::Value((seq![TokenView::Literal(11u8 as char)], j + 1)),
        s[j] == 'f' ==> escape_step(s, len, j) == Outcome::Value((seq![TokenView::Literal(12u8 as char)], j + 1)),
        s[j] == 'r' ==> escape_step(s, len, j) == Outcome::Value((seq![TokenView::Literal(13u8 as char)], j + 1)),
        s[j] == 'b' ==> escape_step(s, len, j) == Outcome::Value((seq![TokenView::WordBoundary], j + 1)),
        s[j] == 'B' ==> escape_step(s, len, j) == Outcome::Value((seq![TokenView::NonWordBoundary], j + 1)),
        !('0' <= s[j] && s[j] <= '9') && !is_class_letter(s[j]) && s[j] != 'x' && s[j] != 'u' && s[j] != 't'
            && s[j] != 'n' && s[j] != 'v' && s[j] != 'f' && s[j] != 'r' && s[j] != 'b' && s[j] != 'B' ==> escape_step(
            s,
            len,
            j,
        ) == Outcome::Value((seq![TokenView::Literal(s[j])], j + 1)),
{
    assert(9u8 as char == '\t');
    assert(10u8 as char == '\n');
    assert(11u8 as char == '\x0B');
    assert(12u8 as char == '\x0C');
    assert(13u8 as char == '\r');
}

} // verus!