//! Characters and strings: the Unicode character classes that the lexer reads,
//! and conversions between strings and character sequences.
use vstd::prelude::*;

verus! {

/// Whether `c` has the Unicode `Alphabetic` property (the table lives in std).
pub uninterp spec fn unicode_alphabetic(c: char) -> bool;

/// Whether `c` is in one of the Unicode general categories for numbers.
pub uninterp spec fn unicode_numeric(c: char) -> bool;

/// Whether `c` has the Unicode `White_Space` property.
pub uninterp spec fn unicode_whitespace(c: char) -> bool;

/// An ASCII letter.
pub open spec fn ascii_letter(c: char) -> bool {
    ('a' <= c && c <= 'z') || ('A' <= c && c <= 'Z')
}

/// An ASCII decimal digit.
pub open spec fn ascii_digit(c: char) -> bool {
    '0' <= c && c <= '9'
}

/// `char::is_alphabetic`. The contract names the result, and states what std's
/// documentation gives for ASCII characters: exactly the ASCII letters.
#[verifier::external_body]
pub fn is_alphabetic(c: char) -> (r: bool)
    ensures
        r == unicode_alphabetic(c),
        (c as u32) < 128 ==> (r <==> ascii_letter(c)),
{
    c.is_alphabetic()
}

/// `char::is_numeric`. The contract names the result, and states what std's
/// documentation gives for ASCII characters: exactly the decimal digits.
#[verifier::external_body]
pub fn is_numeric(c: char) -> (r: bool)
    ensures
        r == unicode_numeric(c),
        (c as u32) < 128 ==> (r <==> ascii_digit(c)),
{
    c.is_numeric()
}

/// `char::is_whitespace`. The contract names the result, and states what std's
/// documentation gives for ASCII characters: space, tab, line feed, vertical
/// tab, form feed and carriage return.
#[verifier::external_body]
pub fn is_whitespace(c: char) -> (r: bool)
    ensures
        r == unicode_whitespace(c),
        (c as u32) < 128 ==> (r <==> (c == ' ' || c == '\t' || c == '\n' || c == '\x0B'
            || c == '\x0C' || c == '\r')),
{
    c.is_whitespace()
}

/// `char::is_alphanumeric`, which std documents as `is_alphabetic() || is_numeric()`.
pub fn is_alphanumeric(c: char) -> (r: bool)
    ensures
        r == (unicode_alphabetic(c) || unicode_numeric(c)),
        (c as u32) < 128 ==> (r <==> (ascii_letter(c) || ascii_digit(c))),
{
    is_alphabetic(c) || is_numeric(c)
}

/// `str::chars`, collected: the characters of `s` in order.
#[verifier::external_body]
pub fn chars_of(s: &str) -> (r: Vec<char>)
    ensures
        r@ == s@,
{
    s.chars().collect()
}

/// Collects characters into a `String`: its characters are exactly `cs`.
#[verifier::external_body]
pub fn string_from_chars(cs: &[char]) -> (r: String)
    ensures
        r@ == cs@,
{
    cs.iter().collect()
}

/// A fresh `String` holding the characters of `s`.
pub fn owned(s: &str) -> (r: String)
    ensures
        r@ == s@,
{
    String::from_str(s)
}

/// The characters of `s` in a vector.
pub fn string_chars(s: &String) -> (r: Vec<char>)
    ensures
        r@ == s@,
{
    chars_of(s.as_str())
}


/// The character of a decimal digit.
pub open spec fn digit_char(d: nat) -> char {
    if d == 0 { '0' } else if d == 1 { '1' } else if d == 2 { '2' } else if d == 3 { '3' }
    else if d == 4 { '4' } else if d == 5 { '5' } else if d == 6 { '6' } else if d == 7 { '7' }
    else if d == 8 { '8' } else { '9' }
}

/// The decimal digits of `n`, most significant first, without leading zeros.
pub open spec fn spec_decimal(n: nat) -> Seq<char>
    decreases n,
{
    if n < 10 {
        seq![digit_char(n)]
    } else {
        spec_decimal(n / 10).push(digit_char(n % 10))
    }
}

fn digit(d: usize) -> (c: char)
    requires
        d < 10,
    ensures
        c == digit_char(d as nat),
{
    if d == 0 { '0' } else if d == 1 { '1' } else if d == 2 { '2' } else if d == 3 { '3' }
    else if d == 4 { '4' } else if d == 5 { '5' } else if d == 6 { '6' } else if d == 7 { '7' }
    else if d == 8 { '8' } else { '9' }
}

/// Appends the decimal digits of `n`.
fn push_decimal(n: usize, out: &mut Vec<char>)
    ensures
        final(out)@ == old(out)@ + spec_decimal(n as nat),
    decreases n,
{
    if n >= 10 {
        push_decimal(n / 10, out);
    }
    out.push(digit(n % 10));
}

/// The decimal text of `n`, as `usize`'s `to_string` gives it.
pub fn decimal_string(n: usize) -> (r: String)
    ensures
        r@ == spec_decimal(n as nat),
{
    let mut out: Vec<char> = Vec::new();
    push_decimal(n, &mut out);
    assert(out@ =~= spec_decimal(n as nat));
    string_from_chars(out.as_slice())
}

/// `s` followed by `t`.
pub fn join2(s: &str, t: &str) -> (r: String)
    ensures
        r@ == s@ + t@,
{
    String::from_str(s).concat(t)
}

/// `a`, `b` and `c` one after the other.
pub fn join3(a: &str, b: &str, c: &str) -> (r: String)
    ensures
        r@ == a@ + b@ + c@,
{
    String::from_str(a).concat(b).concat(c)
}


/// Whether two strings hold the same characters.
pub fn str_eq(a: &str, b: &str) -> (r: bool)
    ensures
        r == (a@ == b@),
{
    let x = chars_of(a);
    let y = chars_of(b);
    if x.len() != y.len() {
        return false;
    }
    let mut i: usize = 0;
    while i < x.len()
        invariant
            x@ == a@,
            y@ == b@,
            x@.len() == y@.len(),
            i <= x@.len(),
            forall|j: int| 0 <= j < i ==> x@[j] == y@[j],
        decreases x@.len() - i,
    {
        if x[i] != y[i] {
            return false;
        }
        i += 1;
    }
    assert(x@ =~= y@);
    true
}

/// The value of a run of ASCII digits.
pub open spec fn digits_value(d: Seq<char>) -> nat
    decreases d.len(),
{
    if d.len() == 0 {
        0
    } else {
        digits_value(d.drop_last()) * 10 + ((d.last() as u32 - '0' as u32) as nat)
    }
}

/// Text that reads as a decimal number: ASCII digits with at most one `.`,
/// and at least one digit.
pub open spec fn decimal_text(s: Seq<char>) -> bool {
    &&& forall|i: int| 0 <= i < s.len() ==> ascii_digit(s[i]) || s[i] == '.'
    &&& forall|i: int, j: int| 0 <= i < j < s.len() && s[i] == '.' ==> s[j] != '.'
    &&& exists|i: int| 0 <= i < s.len() && ascii_digit(s[i])
}

/// The digits before the `.`, if any.
pub open spec fn integer_part(s: Seq<char>) -> Seq<char>
    decreases s.len(),
{
    if s.len() == 0 || s[0] == '.' {
        Seq::empty()
    } else {
        seq![s[0]] + integer_part(s.drop_first())
    }
}

/// The whole number that a number's text stands for, truncated toward zero
/// and capped at the largest `usize`; 0 for text that is not a decimal
/// number.
pub open spec fn literal_index(s: Seq<char>) -> nat {
    if decimal_text(s) {
        let v = digits_value(integer_part(s));
        if v > usize::MAX { usize::MAX as nat } else { v }
    } else {
        0
    }
}

/// The whole-number value of a number's text (see `literal_index`).
pub fn number_text_index(text: &String) -> (r: usize)
    ensures
        r as nat == literal_index(text@),
{
    let cs = string_chars(text);
    let mut i: usize = 0;
    let mut dots: usize = 0;
    let mut digits: usize = 0;
    while i < cs.len()
        invariant
            cs@ == text@,
            i <= cs@.len(),
            dots <= 1,
            digits <= i,
            (forall|k: int| 0 <= k < i ==> ascii_digit(cs@[k]) || cs@[k] == '.'),
            (forall|k: int, j: int| 0 <= k < j < i && cs@[k] == '.' ==> cs@[j] != '.'),
            dots == 0 ==> (forall|k: int| 0 <= k < i ==> cs@[k] != '.'),
            dots == 1 ==> (exists|k: int| 0 <= k < i && cs@[k] == '.'),
            digits > 0 ==> (exists|k: int| 0 <= k < i && ascii_digit(cs@[k])),
            digits == 0 ==> (forall|k: int| 0 <= k < i ==> !ascii_digit(cs@[k])),
        decreases cs@.len() - i,
    {
        let c = cs[i];
        if c == '.' {
            if dots == 1 {
                proof {
                    assert(!decimal_text(text@)) by {
                        let k = choose|k: int| 0 <= k < i && cs@[k] == '.';
                        assert(cs@[k] == '.' && cs@[i as int] == '.');
                    }
                }
                return 0;
            }
            dots = 1;
        } else if '0' <= c && c <= '9' {
            digits += 1;
        } else {
            proof { assert(!decimal_text(text@)); }
            return 0;
        }
        i += 1;
    }
    if digits == 0 {
        return 0;
    }
    let mut value: usize = 0;
    let mut saturated = false;
    let mut j: usize = 0;
    while j < cs.len() && cs[j] != '.'
        invariant
            cs@ == text@,
            decimal_text(text@),
            j <= cs@.len(),
            forall|k: int| 0 <= k < j ==> cs@[k] != '.',
            !saturated ==> value as nat == digits_value(cs@.take(j as int)),
            saturated ==> digits_value(cs@.take(j as int)) > usize::MAX,
        decreases cs@.len() - j,
    {
        let d = (cs[j] as u32 - '0' as u32) as usize;
        proof {
            assert(cs@.take(j as int + 1).drop_last() =~= cs@.take(j as int));
            assert(ascii_digit(cs@[j as int]));
        }
        if !saturated {
            match value.checked_mul(10) {
                Some(v10) => match v10.checked_add(d) {
                    Some(v) => { value = v; },
                    None => { saturated = true; },
                },
                None => { saturated = true; },
            }
        }
        j += 1;
    }
    proof { lemma_integer_part(cs@, j as int); }
    if saturated { usize::MAX } else { value }
}


/// The integer part is everything before the first `.`.
pub proof fn lemma_integer_part(s: Seq<char>, k: int)
    requires
        0 <= k <= s.len(),
        forall|i: int| 0 <= i < k ==> s[i] != '.',
        k == s.len() || s[k] == '.',
    ensures
        integer_part(s) == s.take(k),
    decreases s.len(),
{
    if s.len() == 0 || s[0] == '.' {
        assert(s.take(k) =~= Seq::<char>::empty());
    } else {
        lemma_integer_part(s.drop_first(), k - 1);
        assert(seq![s[0]] + s.drop_first().take(k - 1) =~= s.take(k));
    }
}


/// `s` without its leading white space.
pub open spec fn trim_start_chars(s: Seq<char>) -> Seq<char>
    decreases s.len(),
{
    if s.len() > 0 && unicode_whitespace(s[0]) { trim_start_chars(s.drop_first()) } else { s }
}

/// `s` without its trailing white space.
pub open spec fn trim_end_chars(s: Seq<char>) -> Seq<char>
    decreases s.len(),
{
    if s.len() > 0 && unicode_whitespace(s.last()) { trim_end_chars(s.drop_last()) } else { s }
}

/// The text without leading and trailing white space (the characters with
/// the Unicode `White_Space` property), as `str::trim` gives it.
pub fn trim_text(s: &str) -> (r: String)
    ensures
        r@ == trim_end_chars(trim_start_chars(s@)),
{
    let cs = chars_of(s);
    let mut lo: usize = 0;
    assert(cs@.skip(0) =~= cs@);
    while lo < cs.len() && is_whitespace(cs[lo])
        invariant
            lo <= cs@.len(),
            trim_start_chars(cs@) == trim_start_chars(cs@.skip(lo as int)),
        decreases cs@.len() - lo,
    {
        assert(cs@.skip(lo as int).drop_first() =~= cs@.skip(lo + 1));
        lo += 1;
    }
    proof {
        if lo == cs@.len() {
            assert(cs@.skip(lo as int).len() == 0);
        }
    }
    let mut hi: usize = cs.len();
    assert(cs@.subrange(lo as int, hi as int) =~= cs@.skip(lo as int));
    while hi > lo && is_whitespace(cs[hi - 1])
        invariant
            lo <= hi <= cs@.len(),
            trim_end_chars(cs@.skip(lo as int)) == trim_end_chars(cs@.subrange(lo as int, hi as int)),
        decreases hi,
    {
        assert(cs@.subrange(lo as int, hi as int).drop_last() =~= cs@.subrange(lo as int, hi - 1));
        hi -= 1;
    }
    let mut out: Vec<char> = Vec::new();
    let mut i: usize = lo;
    while i < hi
        invariant
            lo <= i <= hi <= cs@.len(),
            out@ =~= cs@.subrange(lo as int, i as int),
        decreases hi - i,
    {
        out.push(cs[i]);
        i += 1;
    }
    string_from_chars(out.as_slice())
}

/// What `str::to_uppercase` gives for a text (Unicode case mapping).
pub uninterp spec fn upper_of(s: Seq<char>) -> Seq<char>;

/// What `str::to_lowercase` gives for a text (Unicode case mapping).
pub uninterp spec fn lower_of(s: Seq<char>) -> Seq<char>;

/// The pieces that `str::split` cuts a text into at a separator: with an
/// empty separator, an empty piece, each character, and an empty piece;
/// otherwise the texts between the leftmost non-overlapping occurrences of
/// the separator.
pub open spec fn split_of(s: Seq<char>, sep: Seq<char>) -> Seq<Seq<char>> {
    if sep.len() == 0 {
        seq![seq![]] + s.map_values(|c: char| seq![c]) + seq![seq![]]
    } else {
        split_at_each(s, sep)
    }
}

/// The texts of `s` between the leftmost non-overlapping occurrences of the
/// non-empty `sep`, found from the left.
pub open spec fn split_at_each(s: Seq<char>, sep: Seq<char>) -> Seq<Seq<char>>
    decreases s.len(),
{
    if sep.len() == 0 || s.len() < sep.len() {
        seq![s]
    } else if s.take(sep.len() as int) == sep {
        seq![seq![]] + split_at_each(s.skip(sep.len() as int), sep)
    } else {
        let rest = split_at_each(s.drop_first(), sep);
        rest.update(0, seq![s[0]] + rest[0])
    }
}

/// `str::to_uppercase`. The contract names the result.
#[verifier::external_body]
pub fn to_upper_text(s: &str) -> (r: String)
    ensures
        r@ == upper_of(s@),
{
    s.to_uppercase()
}

/// `str::to_lowercase`. The contract names the result.
#[verifier::external_body]
pub fn to_lower_text(s: &str) -> (r: String)
    ensures
        r@ == lower_of(s@),
{
    s.to_lowercase()
}

/// `str::split` at a text separator, each piece copied. Claimed: the pieces
/// are those that `split_of` describes, in order.
#[verifier::external_body]
pub fn split_text(s: &str, sep: &str) -> (r: Vec<String>)
    ensures
        r@.len() == split_of(s@, sep@).len(),
        forall|i: int| 0 <= i < r@.len() ==> #[trigger] r@[i]@ == split_of(s@, sep@)[i],
{
    s.split(sep).map(|p| p.to_string()).collect()
}

} // verus!
