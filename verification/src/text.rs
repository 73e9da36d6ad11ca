//! Character and string helpers: decimal rendering, whitespace trimming and
//! unsigned decimal parsing, each with the meaning that std gives it.
use vstd::prelude::*;
use vstd::string::*;

verus! {

/// The character of the decimal digit `d`.
pub open spec fn digit_char(d: int) -> char {
    (d + 48) as char
}

/// The decimal representation of `n`, without leading zeros (as `{}` formats a `usize`).
pub open spec fn decimal(n: nat) -> Seq<char>
    decreases n,
{
    if n < 10 {
        seq![digit_char(n as int)]
    } else {
        decimal(n / 10) + seq![digit_char((n % 10) as int)]
    }
}

/// The one-character string of the decimal digit `d`.
fn digit_str(d: usize) -> (s: &'static str)
    requires
        d < 10,
    ensures
        s@ == seq![digit_char(d as int)],
{
    let digits = "0123456789";
    proof {
        reveal_strlit("0123456789");
    }
    let s = digits.substring_char(d, d + 1);
    assert(s@ =~= seq![digit_char(d as int)]);
    s
}

/// Renders `n` in decimal.
pub fn decimal_string(n: usize) -> (s: String)
    ensures
        s@ == decimal(n as nat),
    decreases n,
{
    if n < 10 {
        String::from_str(digit_str(n))
    } else {
        let mut s = decimal_string(n / 10);
        s.append(digit_str(n % 10));
        s
    }
}

/// `char::is_whitespace`: the characters with the Unicode `White_Space` property.
pub open spec fn is_unicode_whitespace(c: char) -> bool {
    ||| ('\t' <= c <= '\r')
    ||| c == ' '
    ||| c == '\u{85}'
    ||| c == '\u{A0}'
    ||| c == '\u{1680}'
    ||| ('\u{2000}' <= c <= '\u{200A}')
    ||| c == '\u{2028}'
    ||| c == '\u{2029}'
    ||| c == '\u{202F}'
    ||| c == '\u{205F}'
    ||| c == '\u{3000}'
}

fn is_whitespace(c: char) -> (res: bool)
    ensures
        res == is_unicode_whitespace(c),
{
    ('\t' <= c && c <= '\r') || c == ' ' || c == '\u{85}' || c == '\u{A0}' || c == '\u{1680}'
        || ('\u{2000}' <= c && c <= '\u{200A}') || c == '\u{2028}' || c == '\u{2029}' || c
        == '\u{202F}' || c == '\u{205F}' || c == '\u{3000}'
}

/// `s` without its leading whitespace.
pub open spec fn trim_start(s: Seq<char>) -> Seq<char>
    decreases s.len(),
{
    if s.len() > 0 && is_unicode_whitespace(s[0]) {
        trim_start(s.drop_first())
    } else {
        s
    }
}

/// `s` without its trailing whitespace.
pub open spec fn trim_end(s: Seq<char>) -> Seq<char>
    decreases s.len(),
{
    if s.len() > 0 && is_unicode_whitespace(s.last()) {
        trim_end(s.drop_last())
    } else {
        s
    }
}

/// `str::trim`: `s` without leading and trailing whitespace.
pub open spec fn trim(s: Seq<char>) -> Seq<char> {
    trim_end(trim_start(s))
}

/// Whether every character of `s` is an ASCII digit.
pub open spec fn all_digits(s: Seq<char>) -> bool {
    forall|i: int| 0 <= i < s.len() ==> '0' <= #[trigger] s[i] <= '9'
}

/// The number that the decimal digits `s` denote.
pub open spec fn digits_value(s: Seq<char>) -> nat
    decreases s.len(),
{
    if s.len() == 0 {
        0
    } else {
        digits_value(s.drop_last()) * 10 + ((s.last() as int - 48) as nat)
    }
}

/// `usize::from_str`: an optional `+` followed by at least one decimal digit,
/// whose value fits in a `usize`.
pub open spec fn parse_usize(s: Seq<char>) -> Option<usize> {
    let t = if s.len() > 0 && s[0] == '+' {
        s.drop_first()
    } else {
        s
    };
    if t.len() > 0 && all_digits(t) && digits_value(t) <= usize::MAX {
        Some(digits_value(t) as usize)
    } else {
        None
    }
}

proof fn lemma_digits_value_prefix(s: Seq<char>, k: int)
    requires
        0 <= k <= s.len(),
        all_digits(s),
    ensures
        digits_value(s.take(k)) <= digits_value(s),
    decreases s.len() - k,
{
    if k < s.len() {
        lemma_digits_value_prefix(s, k + 1);
        assert(s.take(k + 1).drop_last() =~= s.take(k));
    } else {
        assert(s.take(k) =~= s);
    }
}

/// A text has at least as many bytes in UTF-8 as it has characters.
pub proof fn lemma_utf8_len_bound(s: Seq<char>)
    ensures
        s.len() <= vstd::utf8::encode_utf8(s).len(),
    decreases s.len(),
{
    if s.len() > 0 {
        lemma_utf8_len_bound(s.drop_first());
    }
}

/// The characters of `s`, one by one.
pub fn chars_of(s: &str) -> (v: Vec<char>)
    ensures
        v@ == s@,
{
    let n = s.unicode_len();
    let mut v: Vec<char> = Vec::new();
    let mut i: usize = 0;
    while i < n
        invariant
            n == s@.len(),
            i <= n,
            v@ =~= s@.take(i as int),
        decreases n - i,
    {
        v.push(s.get_char(i));
        i = i + 1;
    }
    assert(s@.take(n as int) =~= s@);
    v
}

/// The bounds `[lo, hi)` of `s[from..to]` once trimmed of whitespace.
pub fn trim_bounds(s: &Vec<char>, from: usize, to: usize) -> (res: (usize, usize))
    requires
        from <= to <= s@.len(),
    ensures
        from <= res.0 <= res.1 <= to,
        s@.subrange(res.0 as int, res.1 as int) == trim(s@.subrange(from as int, to as int)),
{
    let mut lo = from;
    while lo < to && is_whitespace(s[lo])
        invariant
            from <= lo <= to <= s@.len(),
            trim_start(s@.subrange(lo as int, to as int)) == trim_start(s@.subrange(from as int, to as int)),
        decreases to - lo,
    {
        assert(s@.subrange(lo as int, to as int).drop_first() =~= s@.subrange(lo + 1, to as int));
        lo = lo + 1;
    }
    let ghost ts = s@.subrange(lo as int, to as int);
    assert(trim_start(ts) == ts);
    let mut hi = to;
    while hi > lo && is_whitespace(s[hi - 1])
        invariant
            from <= lo <= hi <= to <= s@.len(),
            trim_end(s@.subrange(lo as int, hi as int)) == trim_end(ts),
        decreases hi - lo,
    {
        assert(s@.subrange(lo as int, hi as int).drop_last() =~= s@.subrange(lo as int, hi - 1));
        hi = hi - 1;
    }
    (lo, hi)
}

/// `usize::from_str` on `s[from..to]`.
pub fn parse_usize_range(s: &Vec<char>, from: usize, to: usize) -> (res: Option<usize>)
    requires
        from <= to <= s@.len(),
    ensures
        res == parse_usize(s@.subrange(from as int, to as int)),
{
    let ghost whole = s@.subrange(from as int, to as int);
    let mut start = from;
    if from < to && s[from] == '+' {
        start = from + 1;
        assert(whole.drop_first() =~= s@.subrange(start as int, to as int));
    }
    let ghost t = s@.subrange(start as int, to as int);
    assert(from < to ==> whole[0] == s@[from as int]);
    assert(start == from ==> t =~= whole);
    assert(t == (if whole.len() > 0 && whole[0] == '+' { whole.drop_first() } else { whole }));
    if start == to {
        return None;
    }
    let mut k = start;
    while k < to
        invariant
            start <= k <= to <= s@.len(),
            t == s@.subrange(start as int, to as int),
            whole == s@.subrange(from as int, to as int),
            t == (if whole.len() > 0 && whole[0] == '+' { whole.drop_first() } else { whole }),
            forall|j: int| start <= j < k ==> '0' <= #[trigger] s@[j] <= '9',
        decreases to - k,
    {
        if !('0' <= s[k] && s[k] <= '9') {
            assert(t[k - start] == s@[k as int]);
            assert(!all_digits(t));
            return None;
        }
        k = k + 1;
    }
    assert(all_digits(t)) by {
        assert forall|j: int| 0 <= j < t.len() implies '0' <= #[trigger] t[j] <= '9' by {
            assert(t[j] == s@[start + j]);
        }
    }
    let mut value: usize = 0;
    let mut k = start;
    while k < to
        invariant
            start <= k <= to <= s@.len(),
            t == s@.subrange(start as int, to as int),
            whole == s@.subrange(from as int, to as int),
            t == (if whole.len() > 0 && whole[0] == '+' { whole.drop_first() } else { whole }),
            all_digits(t),
            value as nat == digits_value(t.take(k - start)),
        decreases to - k,
    {
        assert(t[k - start] == s@[k as int]);
        assert('0' <= s@[k as int] <= '9');
        let c = s[k];
        let d = (c as u32 - 48) as usize;
        assert(t.take(k - start + 1).drop_last() =~= t.take(k - start));
        assert(t.take(k - start + 1).last() == c);
        assert(digits_value(t.take(k - start + 1)) == digits_value(t.take(k - start)) * 10 + d);
        match value.checked_mul(10) {
            Some(v10) => match v10.checked_add(d) {
                Some(v) => {
                    value = v;
                },
                None => {
                    proof {
                        lemma_digits_value_prefix(t, k - start + 1);
                    }
                    assert(digits_value(t) > usize::MAX);
                    return None;
                },
            },
            None => {
                proof {
                    lemma_digits_value_prefix(t, k - start + 1);
                }
                return None;
            },
        }
        k = k + 1;
    }
    assert(t.take(to - start) =~= t);
    Some(value)
}

} // verus!
