//! Character-level operations on names and fields: substring search,
//! trimming, decimal numbers.

use vstd::prelude::*;
use vstd::string::{StrSliceExecFns, StringExecFns};

verus! {

/// `pattern` occurs in `text` starting at position `at`.
pub open spec fn occurs_at(text: Seq<char>, pattern: Seq<char>, at: int) -> bool {
    &&& 0 <= at
    &&& at + pattern.len() <= text.len()
    &&& text.subrange(at, at + pattern.len()) == pattern
}

/// `pattern` occurs somewhere in `text`; the empty pattern occurs in every text.
pub open spec fn contains(text: Seq<char>, pattern: Seq<char>) -> bool {
    exists|at: int| occurs_at(text, pattern, at)
}

/// The characters of a string slice, in order.
pub fn chars_of(s: &str) -> (out: Vec<char>)
    ensures
        out@ == s@,
{
    let mut out: Vec<char> = Vec::new();
    for c in it: s.chars()
        invariant
            out@ == it.seq().take(it.index()),
            it.seq() == s@,
    {
        out.push(c);
    }
    out
}

/// Whether `pattern` occurs in `text` at position `at`.
fn matches_at(text: &Vec<char>, pattern: &Vec<char>, at: usize) -> (r: bool)
    requires
        at + pattern@.len() <= text@.len(),
    ensures
        r == occurs_at(text@, pattern@, at as int),
{
    let mut k: usize = 0;
    while k < pattern.len()
        invariant
            k <= pattern.len(),
            at + pattern.len() <= text.len(),
            forall|j: int| 0 <= j < k ==> text@[at + j] == pattern@[j],
        decreases pattern.len() - k,
    {
        if text[at + k] != pattern[k] {
            proof {
                assert(text@.subrange(at as int, at + pattern@.len())[k as int] == text@[at + k]);
            }
            return false;
        }
        k += 1;
    }
    proof {
        assert(text@.subrange(at as int, at + pattern@.len()) =~= pattern@);
    }
    true
}

/// Whether `pattern` occurs in `text`.
pub fn contains_chars(text: &Vec<char>, pattern: &Vec<char>) -> (r: bool)
    ensures
        r == contains(text@, pattern@),
{
    if pattern.len() > text.len() {
        return false;
    }
    let last: usize = text.len() - pattern.len();
    let mut at: usize = 0;
    loop
        invariant
            last == text.len() - pattern.len(),
            at <= last,
            forall|j: int| 0 <= j < at ==> !occurs_at(text@, pattern@, j),
        decreases last - at,
    {
        if matches_at(text, pattern, at) {
            return true;
        }
        if at == last {
            return false;
        }
        at += 1;
    }
}

/// Unicode white space: the characters that carry the property `White_Space`.
pub open spec fn is_whitespace(c: char) -> bool {
    ||| '\u{0009}' <= c <= '\u{000D}'
    ||| c == '\u{0020}'
    ||| c == '\u{0085}'
    ||| c == '\u{00A0}'
    ||| c == '\u{1680}'
    ||| '\u{2000}' <= c <= '\u{200A}'
    ||| c == '\u{2028}'
    ||| c == '\u{2029}'
    ||| c == '\u{202F}'
    ||| c == '\u{205F}'
    ||| c == '\u{3000}'
}

/// `s` without its leading white space.
pub open spec fn trim_front(s: Seq<char>) -> Seq<char>
    decreases s.len(),
{
    if s.len() > 0 && is_whitespace(s[0]) {
        trim_front(s.drop_first())
    } else {
        s
    }
}

/// `s` without its trailing white space.
pub open spec fn trim_back(s: Seq<char>) -> Seq<char>
    decreases s.len(),
{
    if s.len() > 0 && is_whitespace(s.last()) {
        trim_back(s.drop_last())
    } else {
        s
    }
}

/// `s` without the white space around it.
pub open spec fn trimmed(s: Seq<char>) -> Seq<char> {
    trim_back(trim_front(s))
}

/// `c` is one of the ten decimal digits.
pub open spec fn is_digit(c: char) -> bool {
    '0' <= c <= '9'
}

/// The number a decimal digit stands for; 0 for any other character.
pub open spec fn digit_value(c: char) -> nat {
    if is_digit(c) {
        (c as u32 - '0' as u32) as nat
    } else {
        0
    }
}

/// The number that a sequence of decimal digits writes.
pub open spec fn digits_value(s: Seq<char>) -> nat
    decreases s.len(),
{
    if s.len() == 0 {
        0
    } else {
        digits_value(s.drop_last()) * 10 + digit_value(s.last())
    }
}

/// Every character of `s` is a decimal digit.
pub open spec fn all_digits(s: Seq<char>) -> bool {
    forall|i: int| 0 <= i < s.len() ==> is_digit(#[trigger] s[i])
}

/// `s` after an optional leading plus sign.
pub open spec fn unsigned_part(s: Seq<char>) -> Seq<char> {
    if s.len() > 0 && s[0] == '+' {
        s.drop_first()
    } else {
        s
    }
}

/// The id that `s` writes: an optional `+`, then one or more decimal digits
/// and nothing else, with a value that fits the id type.
pub open spec fn parsed_id(s: Seq<char>) -> Option<usize> {
    let body = unsigned_part(s);
    if body.len() > 0 && all_digits(body) && digits_value(body) <= usize::MAX {
        Some(digits_value(body) as usize)
    } else {
        None
    }
}

/// The character for a digit below ten.
pub open spec fn digit_char(d: nat) -> char {
    if d == 0 {
        '0'
    } else if d == 1 {
        '1'
    } else if d == 2 {
        '2'
    } else if d == 3 {
        '3'
    } else if d == 4 {
        '4'
    } else if d == 5 {
        '5'
    } else if d == 6 {
        '6'
    } else if d == 7 {
        '7'
    } else if d == 8 {
        '8'
    } else {
        '9'
    }
}

/// `n` written in decimal, without leading zeros.
pub open spec fn decimal(n: nat) -> Seq<char>
    decreases n,
{
    if n < 10 {
        seq![digit_char(n)]
    } else {
        decimal(n / 10).push(digit_char(n % 10))
    }
}

/// A number's decimal form is made of digits only and is never empty.
pub proof fn lemma_decimal_digits(n: nat)
    ensures
        decimal(n).len() >= 1,
        all_digits(decimal(n)),
    decreases n,
{
    if n >= 10 {
        lemma_decimal_digits(n / 10);
    }
}

/// Different numbers have different decimal forms.
pub proof fn lemma_decimal_injective(a: nat, b: nat)
    requires
        decimal(a) == decimal(b),
    ensures
        a == b,
    decreases a,
{
    lemma_decimal_digits(a / 10);
    lemma_decimal_digits(b / 10);
    if a < 10 && b < 10 {
        assert(decimal(a)[0] == digit_char(a));
        assert(decimal(b)[0] == digit_char(b));
    } else if a >= 10 && b >= 10 {
        assert(decimal(a).last() == digit_char(a % 10));
        assert(decimal(b).last() == digit_char(b % 10));
        assert(decimal(a).drop_last() =~= decimal(a / 10));
        assert(decimal(b).drop_last() =~= decimal(b / 10));
        lemma_decimal_injective(a / 10, b / 10);
        assert(a % 10 == b % 10);
    } else if a < 10 {
        assert(decimal(a).len() == 1);
        assert(decimal(b).len() == decimal(b / 10).len() + 1);
    } else {
        assert(decimal(b).len() == 1);
        assert(decimal(a).len() == decimal(a / 10).len() + 1);
    }
}

proof fn lemma_digits_value_prefix(s: Seq<char>, k: int)
    requires
        0 <= k <= s.len(),
    ensures
        digits_value(s.take(k)) <= digits_value(s),
    decreases s.len(),
{
    if k == s.len() {
        assert(s.take(k) =~= s);
    } else {
        lemma_digits_value_prefix(s.drop_last(), k);
        assert(s.drop_last().take(k) =~= s.take(k));
    }
}

/// Whether `c` is Unicode white space.
pub fn is_whitespace_char(c: char) -> (r: bool)
    ensures
        r == is_whitespace(c),
{
    ('\u{0009}' <= c && c <= '\u{000D}') || c == '\u{0020}' || c == '\u{0085}' || c == '\u{00A0}'
        || c == '\u{1680}' || ('\u{2000}' <= c && c <= '\u{200A}') || c == '\u{2028}' || c
        == '\u{2029}' || c == '\u{202F}' || c == '\u{205F}' || c == '\u{3000}'
}

/// Removes the white space around `s`.
pub fn trim(s: &str) -> (r: String)
    ensures
        r@ == trimmed(s@),
{
    let chars = chars_of(s);
    let mut begin: usize = 0;
    proof {
        assert(chars@.skip(0) =~= chars@);
    }
    while begin < chars.len() && is_whitespace_char(chars[begin])
        invariant
            begin <= chars.len(),
            trim_front(chars@) == trim_front(chars@.skip(begin as int)),
        decreases chars.len() - begin,
    {
        proof {
            assert(chars@.skip(begin as int).drop_first() =~= chars@.skip(begin + 1));
        }
        begin += 1;
    }
    let mut end: usize = chars.len();
    proof {
        assert(chars@.skip(begin as int) =~= chars@.subrange(begin as int, end as int));
    }
    while end > begin && is_whitespace_char(chars[end - 1])
        invariant
            begin <= end <= chars.len(),
            trimmed(chars@) == trim_back(chars@.subrange(begin as int, end as int)),
        decreases end - begin,
    {
        proof {
            assert(chars@.subrange(begin as int, end as int).drop_last() =~= chars@.subrange(
                begin as int,
                end - 1,
            ));
        }
        end -= 1;
    }
    String::from_str(s.substring_char(begin, end))
}

/// The number that the digit `c` stands for.
fn digit_of(c: char) -> (r: Option<usize>)
    ensures
        r is Some == is_digit(c),
        r is Some ==> r.unwrap() == digit_value(c) && r.unwrap() < 10,
{
    if '0' <= c && c <= '9' {
        Some((c as u32 - '0' as u32) as usize)
    } else {
        None
    }
}

/// Reads an id: an optional `+`, then decimal digits only. Gives `None` for
/// anything else, and for a number that does not fit.
pub fn parse_id(s: &str) -> (r: Option<usize>)
    ensures
        r == parsed_id(s@),
{
    let chars = chars_of(s);
    let first: usize = if chars.len() > 0 && chars[0] == '+' {
        1
    } else {
        0
    };
    let ghost body = unsigned_part(s@);
    proof {
        assert(body =~= chars@.skip(first as int));
    }
    if first == chars.len() {
        return None;
    }
    let mut at: usize = first;
    let mut value: usize = 0;
    while at < chars.len()
        invariant
            first <= at <= chars.len(),
            body == unsigned_part(s@),
            body == chars@.skip(first as int),
            all_digits(body.take(at - first)),
            value == digits_value(body.take(at - first)),
        decreases chars.len() - at,
    {
        proof {
            assert(body.take(at - first + 1).drop_last() =~= body.take(at - first));
            assert(body.take(at - first + 1).last() == chars@[at as int]);
            lemma_digits_value_prefix(body, at - first + 1);
        }
        match digit_of(chars[at]) {
            None => {
                proof {
                    assert(body[at - first] == chars@[at as int]);
                }
                return None;
            },
            Some(d) => {
                if value > (usize::MAX - d) / 10 {
                    return None;
                }
                value = value * 10 + d;
            },
        }
        at += 1;
    }
    proof {
        assert(body.take(at - first) =~= body);
    }
    Some(value)
}

/// The one-character string for a digit below ten.
fn digit_str(d: usize) -> (r: &'static str)
    requires
        d < 10,
    ensures
        r@ == seq![digit_char(d as nat)],
{
    proof {
        reveal_strlit("0");
        reveal_strlit("1");
        reveal_strlit("2");
        reveal_strlit("3");
        reveal_strlit("4");
        reveal_strlit("5");
        reveal_strlit("6");
        reveal_strlit("7");
        reveal_strlit("8");
        reveal_strlit("9");
    }
    let r = if d == 0 {
        "0"
    } else if d == 1 {
        "1"
    } else if d == 2 {
        "2"
    } else if d == 3 {
        "3"
    } else if d == 4 {
        "4"
    } else if d == 5 {
        "5"
    } else if d == 6 {
        "6"
    } else if d == 7 {
        "7"
    } else if d == 8 {
        "8"
    } else {
        "9"
    };
    proof {
        assert(r@ =~= seq![digit_char(d as nat)]);
    }
    r
}

/// Appends `n` in decimal to `out`.
pub fn push_decimal(out: &mut String, n: usize)
    ensures
        final(out)@ == old(out)@ + decimal(n as nat),
    decreases n,
{
    if n >= 10 {
        push_decimal(out, n / 10);
    }
    out.append(digit_str(n % 10));
    proof {
        if n >= 10 {
            assert(old(out)@ + decimal((n / 10) as nat) + seq![digit_char((n % 10) as nat)] =~= old(
                out,
            )@ + decimal(n as nat));
        }
    }
}


} // verus!
