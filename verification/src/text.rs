//! Characters, trimming, decimal numbers and plain string building.
//!
//! Strings are modelled as sequences of characters (`s@`).

use vstd::prelude::*;
use vstd::string::*;
use vstd::utf8::*;

verus! {

// ---------------------------------------------------------------------
// Trusted items over std
// ---------------------------------------------------------------------

/// `String::push` appends the character to the end of the string.
pub assume_specification[ String::push ](s: &mut String, c: char)
    ensures
        final(s)@ == old(s)@.push(c),
;

/// The text that `{:?}` prints for a string: quoted, with escapes.
pub uninterp spec fn debug_text(s: Seq<char>) -> Seq<char>;

/// Formats a string with std's `Debug` for `str`. The escaping itself is left
/// to the name `debug_text`.
#[verifier::external_body]
pub(crate) fn quoted(s: &str) -> (r: String)
    ensures
        r@ == debug_text(s@),
{
    format!("{:?}", s)
}

/// The text that std's lossy UTF-8 decoding gives for a byte string.
pub uninterp spec fn lossy_text(bytes: Seq<u8>) -> Seq<char>;

/// `String::from_utf8_lossy`: valid UTF-8 decodes to its own characters.
/// Where the replacement characters go otherwise is left to the name
/// `lossy_text`.
#[verifier::external_body]
pub(crate) fn decode_lossy(bytes: &[u8]) -> (r: String)
    ensures
        r@ == lossy_text(bytes@),
        valid_utf8(bytes@) ==> r@ == decode_utf8(bytes@),
{
    String::from_utf8_lossy(bytes).into_owned()
}

// ---------------------------------------------------------------------
// Character classes
// ---------------------------------------------------------------------

/// Characters with the Unicode `White_Space` property.
pub open spec fn is_space(c: char) -> bool {
    ||| '\u{9}' <= c <= '\u{d}'
    ||| c == ' '
    ||| c == '\u{85}'
    ||| c == '\u{a0}'
    ||| c == '\u{1680}'
    ||| '\u{2000}' <= c <= '\u{200a}'
    ||| c == '\u{2028}'
    ||| c == '\u{2029}'
    ||| c == '\u{202f}'
    ||| c == '\u{205f}'
    ||| c == '\u{3000}'
}

/// Whether a character is white space.
pub fn is_whitespace(c: char) -> (r: bool)
    ensures
        r == is_space(c),
{
    ('\u{9}' <= c && c <= '\u{d}') || c == ' ' || c == '\u{85}' || c == '\u{a0}' || c == '\u{1680}'
        || ('\u{2000}' <= c && c <= '\u{200a}') || c == '\u{2028}' || c == '\u{2029}'
        || c == '\u{202f}' || c == '\u{205f}' || c == '\u{3000}'
}

/// ASCII digits.
pub open spec fn is_digit(c: char) -> bool {
    '0' <= c <= '9'
}

/// The value of an ASCII digit.
pub open spec fn digit_value(c: char) -> nat {
    (c as u32 - '0' as u32) as nat
}

/// The ASCII digit for a value below ten.
pub open spec fn digit_char(d: nat) -> char {
    (d + '0' as u32) as char
}

/// A character with ASCII lower case letters made upper case.
pub open spec fn upper_char(c: char) -> char {
    if 'a' <= c <= 'z' {
        (c as u32 - 32) as char
    } else {
        c
    }
}

/// A text with ASCII lower case letters made upper case.
pub open spec fn upper(s: Seq<char>) -> Seq<char> {
    s.map_values(|c: char| upper_char(c))
}

// ---------------------------------------------------------------------
// Conversions
// ---------------------------------------------------------------------

/// The characters of a string.
pub fn chars_of(s: &str) -> (r: Vec<char>)
    ensures
        r@ == s@,
{
    let mut out: Vec<char> = Vec::new();
    for c in it: s.chars()
        invariant
            it.seq() == s@,
            out@ == s@.take(it.index()),
    {
        out.push(c);
        assert(s@.take(it.index() + 1) =~= s@.take(it.index()).push(c));
    }
    assert(s@.take(s@.len() as int) =~= s@);
    out
}

/// Whether two strings hold the same characters.
pub fn same_text(a: &str, b: &str) -> (r: bool)
    ensures
        r == (a@ == b@),
{
    a.to_owned() == b.to_owned()
}

/// Two strings one after the other.
pub fn concat2(a: &str, b: &str) -> (r: String)
    ensures
        r@ == a@ + b@,
{
    let mut out = a.to_owned();
    out.append(b);
    out
}

/// Three strings one after the other.
pub fn concat3(a: &str, b: &str, c: &str) -> (r: String)
    ensures
        r@ == a@ + b@ + c@,
{
    let mut out = a.to_owned();
    out.append(b);
    out.append(c);
    out
}

/// A text with ASCII lower case letters made upper case.
pub fn to_upper(s: &str) -> (r: String)
    ensures
        r@ == upper(s@),
{
    let chars = chars_of(s);
    let mut out = String::new();
    let mut i: usize = 0;
    while i < chars.len()
        invariant
            i <= chars.len(),
            chars@ == s@,
            out@ == upper(s@.take(i as int)),
        decreases chars.len() - i,
    {
        let c = chars[i];
        if 'a' <= c && c <= 'z' {
            out.push((c as u8 - 32) as char);
        } else {
            out.push(c);
        }
        assert(upper(s@.take(i + 1)) =~= upper(s@.take(i as int)).push(upper_char(c)));
        i += 1;
    }
    assert(s@.take(s@.len() as int) =~= s@);
    out
}

// ---------------------------------------------------------------------
// Trimming
// ---------------------------------------------------------------------

/// A text without its leading white space.
pub open spec fn trim_front(s: Seq<char>) -> Seq<char>
    decreases s.len(),
{
    if s.len() > 0 && is_space(s[0]) {
        trim_front(s.drop_first())
    } else {
        s
    }
}

/// A text without its trailing white space.
pub open spec fn trim_back(s: Seq<char>) -> Seq<char>
    decreases s.len(),
{
    if s.len() > 0 && is_space(s.last()) {
        trim_back(s.drop_last())
    } else {
        s
    }
}

/// A text without the white space at both ends.
pub open spec fn trimmed(s: Seq<char>) -> Seq<char> {
    trim_back(trim_front(s))
}

/// Removes the white space at both ends.
pub fn trim<'a>(s: &'a str) -> (r: &'a str)
    ensures
        r@ == trimmed(s@),
{
    let chars = chars_of(s);
    let n: usize = chars.len();
    let mut from: usize = 0;
    assert(s@.skip(0) =~= s@);
    while from < n && is_whitespace(chars[from])
        invariant
            from <= n,
            n == chars.len(),
            chars@ == s@,
            trim_front(s@) == trim_front(s@.skip(from as int)),
        decreases n - from,
    {
        assert(s@.skip(from as int).drop_first() =~= s@.skip(from + 1));
        from += 1;
    }
    assert(trim_front(s@) == s@.skip(from as int));
    let mut to: usize = n;
    assert(s@.subrange(from as int, n as int) =~= s@.skip(from as int));
    while to > from && is_whitespace(chars[to - 1])
        invariant
            from <= to <= n,
            n == chars.len(),
            chars@ == s@,
            trimmed(s@) == trim_back(s@.subrange(from as int, to as int)),
        decreases to,
    {
        assert(s@.subrange(from as int, to as int).drop_last() =~= s@.subrange(from as int, to - 1));
        to -= 1;
    }
    s.substring_char(from, to)
}

/// Whether `s` starts with `p`.
pub open spec fn starts_with(s: Seq<char>, p: Seq<char>) -> bool {
    s.len() >= p.len() && s.take(p.len() as int) == p
}

/// Whether `s` ends with `p`.
pub open spec fn ends_with(s: Seq<char>, p: Seq<char>) -> bool {
    s.len() >= p.len() && s.skip(s.len() - p.len()) == p
}

/// A text with every trailing copy of `p` removed.
pub open spec fn strip_all_suffix(s: Seq<char>, p: Seq<char>) -> Seq<char>
    decreases s.len(),
{
    if p.len() > 0 && ends_with(s, p) {
        strip_all_suffix(s.take(s.len() - p.len()), p)
    } else {
        s
    }
}

/// The rest of `s` after the prefix `p`, if it has that prefix.
pub fn strip_prefix<'a>(s: &'a str, p: &str) -> (r: Option<&'a str>)
    ensures
        r is Some <==> starts_with(s@, p@),
        r matches Some(rest) ==> rest@ == s@.skip(p@.len() as int),
{
    let n: usize = s.unicode_len();
    let k: usize = p.unicode_len();
    if n < k {
        return None;
    }
    let head = s.substring_char(0, k);
    assert(head@ == s@.take(k as int));
    if same_text(head, p) {
        let rest = s.substring_char(k, n);
        assert(rest@ == s@.skip(k as int));
        Some(rest)
    } else {
        None
    }
}

/// The front of `s` before the suffix `p`, if it has that suffix.
pub fn strip_suffix<'a>(s: &'a str, p: &str) -> (r: Option<&'a str>)
    ensures
        r is Some <==> ends_with(s@, p@),
        r matches Some(front) ==> front@ == s@.take(s@.len() - p@.len()),
{
    let n: usize = s.unicode_len();
    let k: usize = p.unicode_len();
    if n < k {
        return None;
    }
    let tail = s.substring_char(n - k, n);
    assert(tail@ == s@.skip(n - k));
    if same_text(tail, p) {
        let front = s.substring_char(0, n - k);
        assert(front@ == s@.take(n - k));
        Some(front)
    } else {
        None
    }
}

/// Removes every trailing copy of `p`.
pub fn trim_end_matches<'a>(s: &'a str, p: &str) -> (r: &'a str)
    ensures
        r@ == strip_all_suffix(s@, p@),
{
    if p.is_empty() {
        return s;
    }
    let mut cur: &'a str = s;
    loop
        invariant
            p@.len() > 0,
            strip_all_suffix(cur@, p@) == strip_all_suffix(s@, p@),
        decreases cur@.len(),
    {
        match strip_suffix(cur, p) {
            Some(front) => {
                cur = front;
            },
            None => {
                return cur;
            },
        }
    }
}

/// Whether `c` occurs in `s`.
pub fn has_char(s: &str, c: char) -> (r: bool)
    ensures
        r == s@.contains(c),
{
    let chars = chars_of(s);
    let mut i: usize = 0;
    while i < chars.len()
        invariant
            i <= chars.len(),
            chars@ == s@,
            forall|j: int| 0 <= j < i ==> s@[j] != c,
        decreases chars.len() - i,
    {
        if chars[i] == c {
            assert(s@[i as int] == c);
            return true;
        }
        i += 1;
    }
    false
}

/// Whether `needle` stands at position `i` of `s`.
pub open spec fn stands_at(s: Seq<char>, needle: Seq<char>, i: int) -> bool {
    0 <= i && i + needle.len() <= s.len() && s.subrange(i, i + needle.len()) == needle
}

/// Whether `needle` occurs in `s`.
pub open spec fn occurs(s: Seq<char>, needle: Seq<char>) -> bool {
    exists|i: int| stands_at(s, needle, i)
}

/// Whether `needle` occurs in `s`.
pub fn contains_text(s: &str, needle: &str) -> (r: bool)
    ensures
        r == occurs(s@, needle@),
{
    let n: usize = s.unicode_len();
    let k: usize = needle.unicode_len();
    if k > n {
        return false;
    }
    let mut i: usize = 0;
    while i <= n - k
        invariant
            k <= n,
            n == s@.len(),
            k == needle@.len(),
            i <= n - k + 1,
            forall|j: int| 0 <= j < i ==> !stands_at(s@, needle@, j),
        decreases n - k + 1 - i,
    {
        let part = s.substring_char(i, i + k);
        if same_text(part, needle) {
            assert(stands_at(s@, needle@, i as int));
            return true;
        }
        if i == n - k {
            assert forall|j: int| !stands_at(s@, needle@, j) by {
                if j == i {
                }
            }
            return false;
        }
        i += 1;
    }
    false
}

/// The position of the first `c`, or the length of the text.
pub open spec fn first_index(s: Seq<char>, c: char) -> int
    decreases s.len(),
{
    if s.len() == 0 || s[0] == c {
        0
    } else {
        1 + first_index(s.drop_first(), c)
    }
}

/// The first position of a character lies in the text, nothing before it is
/// that character, and it is missing exactly when the position is the length.
pub proof fn first_index_is_first(s: Seq<char>, c: char)
    ensures
        0 <= first_index(s, c) <= s.len(),
        forall|j: int| 0 <= j < first_index(s, c) ==> s[j] != c,
        first_index(s, c) < s.len() ==> s[first_index(s, c)] == c,
        first_index(s, c) < s.len() <==> s.contains(c),
    decreases s.len(),
{
    if s.len() > 0 && s[0] != c {
        first_index_is_first(s.drop_first(), c);
        assert forall|j: int| 0 <= j < first_index(s, c) implies s[j] != c by {
            if j > 0 {
                assert(s[j] == s.drop_first()[j - 1]);
            }
        }
        if s.contains(c) {
            let k = s.index_of(c);
            assert(s.drop_first()[k - 1] == c);
        }
    }
}

/// The position of the first `c`, or the length of the text.
pub fn index_of_char(chars: &Vec<char>, c: char) -> (r: usize)
    ensures
        r == first_index(chars@, c),
{
    let mut i: usize = 0;
    assert(chars@.skip(0) =~= chars@);
    while i < chars.len()
        invariant
            i <= chars.len(),
            first_index(chars@, c) == i + first_index(chars@.skip(i as int), c),
        decreases chars.len() - i,
    {
        if chars[i] == c {
            return i;
        }
        assert(chars@.skip(i as int).drop_first() =~= chars@.skip(i + 1));
        i += 1;
    }
    i
}

// ---------------------------------------------------------------------
// Decimal numbers
// ---------------------------------------------------------------------

/// How many ASCII digits a text starts with.
pub open spec fn digits_len(s: Seq<char>) -> nat
    decreases s.len(),
{
    if s.len() > 0 && is_digit(s[0]) {
        1 + digits_len(s.drop_first())
    } else {
        0
    }
}

/// The value of a string of digits, most significant first.
pub open spec fn dec_value(s: Seq<char>) -> nat
    decreases s.len(),
{
    if s.len() == 0 {
        0
    } else {
        dec_value(s.drop_last()) * 10 + digit_value(s.last())
    }
}

/// Whether every character is an ASCII digit.
pub open spec fn all_digits(s: Seq<char>) -> bool {
    forall|i: int| 0 <= i < s.len() ==> is_digit(#[trigger] s[i])
}

/// The shortest decimal text of a number.
pub open spec fn decimal(n: nat) -> Seq<char>
    decreases n,
{
    if n < 10 {
        seq![digit_char(n)]
    } else {
        decimal(n / 10).push(digit_char(n % 10))
    }
}

/// What reading an unsigned number of at most `max` gives: an optional `+`,
/// then one or more digits.
pub open spec fn unsigned_text(s: Seq<char>, max: nat) -> Option<nat> {
    let digits = if s.len() > 0 && s[0] == '+' {
        s.drop_first()
    } else {
        s
    };
    if digits.len() > 0 && all_digits(digits) && dec_value(digits) <= max {
        Some(dec_value(digits))
    } else {
        None
    }
}

proof fn lemma_dec_value_grows(s: Seq<char>, k: int)
    requires
        0 <= k <= s.len(),
    ensures
        dec_value(s.take(k)) <= dec_value(s),
    decreases s.len(),
{
    if k < s.len() {
        lemma_dec_value_grows(s.drop_last(), k);
        assert(s.drop_last().take(k) =~= s.take(k));
    } else {
        assert(s.take(k) =~= s);
    }
}

/// The leading digits are digits, and the character after them is not.
pub proof fn digits_len_is_maximal(s: Seq<char>)
    ensures
        digits_len(s) <= s.len(),
        all_digits(s.take(digits_len(s) as int)),
        digits_len(s) < s.len() ==> !is_digit(s[digits_len(s) as int]),
    decreases s.len(),
{
    if s.len() > 0 && is_digit(s[0]) {
        digits_len_is_maximal(s.drop_first());
        let k = digits_len(s) as int;
        assert forall|i: int| 0 <= i < k implies is_digit(#[trigger] s.take(k)[i]) by {
            if i > 0 {
                assert(s.take(k)[i] == s.drop_first().take(k - 1)[i - 1]);
            }
        }
    }
}

/// Counts the leading digits.
pub fn count_digits(chars: &Vec<char>) -> (r: usize)
    ensures
        r == digits_len(chars@),
        r <= chars.len(),
{
    let mut i: usize = 0;
    assert(chars@.skip(0) =~= chars@);
    while i < chars.len() && '0' <= chars[i] && chars[i] <= '9'
        invariant
            i <= chars.len(),
            digits_len(chars@) == i + digits_len(chars@.skip(i as int)),
        decreases chars.len() - i,
    {
        assert(chars@.skip(i as int).drop_first() =~= chars@.skip(i + 1));
        i += 1;
    }
    i
}

/// The value of `chars[from..to]` as a decimal number of at most `max`, if
/// these are all digits.
pub fn digits_value(chars: &Vec<char>, from: usize, to: usize, max: u64) -> (r: Option<u64>)
    requires
        from <= to <= chars.len(),
    ensures
        r is Some <==> all_digits(chars@.subrange(from as int, to as int)) && dec_value(
            chars@.subrange(from as int, to as int),
        ) <= max,
        r matches Some(v) ==> v == dec_value(chars@.subrange(from as int, to as int)),
{
    let ghost whole = chars@.subrange(from as int, to as int);
    let mut v: u64 = 0;
    let mut i: usize = from;
    while i < to
        invariant
            from <= i <= to <= chars.len(),
            whole == chars@.subrange(from as int, to as int),
            all_digits(whole.take(i - from)),
            v == dec_value(whole.take(i - from)),
            v <= max,
        decreases to - i,
    {
        let c = chars[i];
        assert(whole[i - from] == c);
        if !('0' <= c && c <= '9') {
            return None;
        }
        let d: u64 = (c as u32 - '0' as u32) as u64;
        let ghost next = whole.take(i + 1 - from);
        assert(next.drop_last() =~= whole.take(i - from));
        assert(next.last() == c);
        assert(dec_value(next) == v * 10 + d);
        proof {
            lemma_dec_value_grows(whole, i + 1 - from);
        }
        if v > max / 10 || d > max || v * 10 > max - d {
            return None;
        }
        v = v * 10 + d;
        assert forall|j: int| 0 <= j < next.len() implies is_digit(#[trigger] next[j]) by {
            if j < i - from {
                assert(next[j] == whole.take(i - from)[j]);
            }
        }
        i += 1;
    }
    assert(whole.take(to - from) =~= whole);
    Some(v)
}

/// Reads an unsigned decimal number of at most `max`.
pub fn parse_unsigned(s: &str, max: u64) -> (r: Option<u64>)
    ensures
        match unsigned_text(s@, max as nat) {
            Some(v) => r == Some(v as u64),
            None => r is None,
        },
{
    let chars = chars_of(s);
    let n: usize = chars.len();
    let from: usize = if n > 0 && chars[0] == '+' {
        1
    } else {
        0
    };
    assert(chars@.subrange(from as int, n as int) == (if s@.len() > 0 && s@[0] == '+' {
        s@.drop_first()
    } else {
        s@
    }));
    if from == n {
        return None;
    }
    digits_value(&chars, from, n, max)
}

/// Decimal text has one digit or more, and only digits.
pub proof fn decimal_is_digits(n: nat)
    ensures
        decimal(n).len() > 0,
        all_digits(decimal(n)),
    decreases n,
{
    if n >= 10 {
        decimal_is_digits(n / 10);
    }
}

/// Reading the decimal text of a number gives the number back.
pub proof fn decimal_reads_back(n: nat)
    ensures
        dec_value(decimal(n)) == n,
    decreases n,
{
    if n < 10 {
        let s = decimal(n);
        assert(s.drop_last() =~= Seq::<char>::empty());
        assert(dec_value(s.drop_last()) == 0);
    } else {
        decimal_reads_back(n / 10);
        let s = decimal(n);
        assert(s.drop_last() =~= decimal(n / 10));
    }
}

/// The decimal text of a number.
pub fn decimal_text(n: u64) -> (r: String)
    ensures
        r@ == decimal(n as nat),
    decreases n,
{
    if n < 10 {
        let mut out = String::new();
        out.push((n as u8 + '0' as u8) as char);
        assert(out@ =~= decimal(n as nat));
        out
    } else {
        let mut out = decimal_text(n / 10);
        out.push(((n % 10) as u8 + '0' as u8) as char);
        out
    }
}

/// The decimal text of an integer, with a sign where it is negative.
pub open spec fn signed(n: int) -> Seq<char> {
    if n < 0 {
        seq!['-'] + decimal((-n) as nat)
    } else {
        decimal(n as nat)
    }
}

/// The decimal text of an integer.
pub fn signed_text(n: i64) -> (r: String)
    ensures
        r@ == signed(n as int),
{
    if n < 0 {
        let mut out = String::new();
        out.push('-');
        let m: u64 = if n == i64::MIN {
            0x8000_0000_0000_0000
        } else {
            (-n) as u64
        };
        out.append(decimal_text(m).as_str());
        assert(out@ =~= signed(n as int));
        out
    } else {
        decimal_text(n as u64)
    }
}

/// `n` copies of a character.
pub open spec fn repeat(c: char, n: nat) -> Seq<char> {
    Seq::new(n, |i: int| c)
}

/// A decimal text with zeros in front, up to `width` characters.
pub open spec fn zero_padded(n: nat, width: nat) -> Seq<char> {
    let d = decimal(n);
    if d.len() < width {
        repeat('0', (width - d.len()) as nat) + d
    } else {
        d
    }
}

/// `n` copies of a character.
pub fn repeated(c: char, n: usize) -> (r: String)
    ensures
        r@ == repeat(c, n as nat),
{
    let mut out = String::new();
    let mut i: usize = 0;
    while i < n
        invariant
            i <= n,
            out@ =~= repeat(c, i as nat),
        decreases n - i,
    {
        out.push(c);
        i += 1;
    }
    out
}

/// A decimal text with zeros in front, up to `width` characters.
pub fn zero_padded_text(n: u64, width: usize) -> (r: String)
    ensures
        r@ == zero_padded(n as nat, width as nat),
{
    let d = decimal_text(n);
    let k: usize = d.as_str().unicode_len();
    if k < width {
        concat2(repeated('0', width - k).as_str(), d.as_str())
    } else {
        d
    }
}

/// A text with blanks behind it, up to `width` characters.
pub open spec fn padded(s: Seq<char>, width: nat) -> Seq<char> {
    if s.len() < width {
        s + repeat(' ', (width - s.len()) as nat)
    } else {
        s
    }
}

/// A text with blanks behind it, up to `width` characters.
pub fn pad(s: &str, width: usize) -> (r: String)
    ensures
        r@ == padded(s@, width as nat),
{
    let k: usize = s.unicode_len();
    if k < width {
        concat2(s, repeated(' ', width - k).as_str())
    } else {
        s.to_owned()
    }
}

// ---------------------------------------------------------------------
// Order
// ---------------------------------------------------------------------

/// Whether `a` comes before `b` in the dictionary, or is the same.
pub open spec fn lex_le(a: Seq<char>, b: Seq<char>) -> bool
    decreases a.len(),
{
    if a.len() == 0 {
        true
    } else if b.len() == 0 {
        false
    } else if a[0] == b[0] {
        lex_le(a.drop_first(), b.drop_first())
    } else {
        a[0] < b[0]
    }
}

/// Of two texts at least one comes before the other, or they are the same.
pub proof fn lex_le_is_total(a: Seq<char>, b: Seq<char>)
    ensures
        lex_le(a, b) || lex_le(b, a),
        lex_le(a, b) && lex_le(b, a) ==> a == b,
    decreases a.len(),
{
    if a.len() > 0 && b.len() > 0 && a[0] == b[0] {
        lex_le_is_total(a.drop_first(), b.drop_first());
        if a.drop_first() == b.drop_first() {
            assert(a =~= seq![a[0]] + a.drop_first());
            assert(b =~= seq![b[0]] + b.drop_first());
        }
    } else if a.len() == 0 && b.len() == 0 {
        assert(a =~= b);
    }
}

/// The order of texts is transitive.
pub proof fn lex_le_is_transitive(a: Seq<char>, b: Seq<char>, c: Seq<char>)
    requires
        lex_le(a, b),
        lex_le(b, c),
    ensures
        lex_le(a, c),
    decreases a.len(),
{
    if a.len() > 0 && b.len() > 0 && c.len() > 0 && a[0] == b[0] && b[0] == c[0] {
        lex_le_is_transitive(a.drop_first(), b.drop_first(), c.drop_first());
    }
}

/// Whether `a` comes before `b` in the dictionary, or is the same.
pub fn text_le(a: &str, b: &str) -> (r: bool)
    ensures
        r == lex_le(a@, b@),
{
    let x = chars_of(a);
    let y = chars_of(b);
    let mut i: usize = 0;
    assert(x@.skip(0) =~= x@);
    assert(y@.skip(0) =~= y@);
    loop
        invariant
            i <= x.len(),
            i <= y.len(),
            x@ == a@,
            y@ == b@,
            lex_le(a@, b@) == lex_le(x@.skip(i as int), y@.skip(i as int)),
        decreases x.len() - i,
    {
        if i == x.len() {
            return true;
        }
        if i == y.len() {
            return false;
        }
        if x[i] != y[i] {
            return x[i] < y[i];
        }
        assert(x@.skip(i as int).drop_first() =~= x@.skip(i + 1));
        assert(y@.skip(i as int).drop_first() =~= y@.skip(i + 1));
        i += 1;
    }
}

// ---------------------------------------------------------------------
// Laws
// ---------------------------------------------------------------------

/// Trimming takes off all the white space at both ends and nothing else.
pub proof fn trimming_takes_the_blanks_off(a: Seq<char>, t: Seq<char>, b: Seq<char>)
    requires
        forall|i: int| 0 <= i < a.len() ==> is_space(#[trigger] a[i]),
        forall|i: int| 0 <= i < b.len() ==> is_space(#[trigger] b[i]),
        t.len() > 0 ==> !is_space(t[0]) && !is_space(t.last()),
    ensures
        trimmed(a + t + b) == t,
    decreases a.len() + b.len(),
{
    let s = a + t + b;
    if a.len() > 0 {
        assert(s[0] == a[0]);
        assert(s.drop_first() =~= a.drop_first() + t + b);
        assert forall|i: int| 0 <= i < a.drop_first().len() implies is_space(
            #[trigger] a.drop_first()[i],
        ) by {
            assert(a.drop_first()[i] == a[i + 1]);
        }
        trimming_takes_the_blanks_off(a.drop_first(), t, b);
    } else if t.len() > 0 {
        assert(s[0] == t[0]);
        assert(trim_front(s) == s);
        if b.len() > 0 {
            assert(s.last() == b.last());
            assert(b.last() == b[b.len() - 1]);
            assert(s.drop_last() =~= a + t + b.drop_last());
            assert forall|i: int| 0 <= i < b.drop_last().len() implies is_space(
                #[trigger] b.drop_last()[i],
            ) by {
                assert(b.drop_last()[i] == b[i]);
            }
            trimming_takes_the_blanks_off(a, t, b.drop_last());
            assert((a + t + b.drop_last())[0] == t[0]);
            assert(trim_front(a + t + b.drop_last()) == a + t + b.drop_last());
        } else {
            assert(s =~= t);
        }
    } else if b.len() > 0 {
        assert(s[0] == b[0]);
        assert(s.drop_first() =~= a + t + b.drop_first());
        assert forall|i: int| 0 <= i < b.drop_first().len() implies is_space(
            #[trigger] b.drop_first()[i],
        ) by {
            assert(b.drop_first()[i] == b[i + 1]);
        }
        trimming_takes_the_blanks_off(a, t, b.drop_first());
    } else {
        assert(s =~= t);
    }
}

/// Blanks, tabulators and line ends are white space; what can be seen in ASCII is
/// not, and neither is a digit or a letter of Latin script.
pub proof fn white_space_cannot_be_seen(c: char)
    ensures
        c == ' ' || c == '\t' || c == '\n' || c == '\r' || c == '\u{b}' || c == '\u{c}'
            ==> is_space(c),
        '!' <= c <= '~' ==> !is_space(c),
        '\u{a1}' <= c <= '\u{24f}' ==> !is_space(c),
        c == '\u{a0}' || c == '\u{2003}' || c == '\u{3000}' ==> is_space(c),
        c == '\0' || c == '\u{1b}' ==> !is_space(c),
{
}

/// Making a text upper case changes the letters `a` to `z` and nothing else.
pub proof fn upper_case_changes_small_letters(s: Seq<char>)
    ensures
        upper(s).len() == s.len(),
        forall|i: int|
            0 <= i < s.len() && !('a' <= s[i] <= 'z') ==> #[trigger] upper(s)[i] == s[i],
        forall|i: int|
            0 <= i < s.len() && 'a' <= s[i] <= 'z' ==> (#[trigger] upper(s)[i]) as int + 32
                == s[i] as int,
        upper(upper(s)) == upper(s),
{
    assert(upper(upper(s)) =~= upper(s));
}

/// A text that starts with another is that one and the rest.
pub proof fn prefixes_come_first(p: Seq<char>, t: Seq<char>)
    ensures
        starts_with(p + t, p),
        ends_with(t + p, p),
        starts_with(t, p) ==> t == p + t.skip(p.len() as int),
        ends_with(t, p) ==> t == t.take(t.len() - p.len()) + p,
{
    assert((p + t).take(p.len() as int) =~= p);
    assert((t + p).skip((t + p).len() - p.len()) =~= p);
    if starts_with(t, p) {
        assert(t =~= t.take(p.len() as int) + t.skip(p.len() as int));
    }
    if ends_with(t, p) {
        assert(t =~= t.take(t.len() - p.len()) + t.skip(t.len() - p.len()));
    }
}

/// Every copy of a text at the end comes off, and nothing else.
pub proof fn every_copy_comes_off(s: Seq<char>, p: Seq<char>)
    requires
        p.len() > 0,
    ensures
        strip_all_suffix(s + p, p) == strip_all_suffix(s, p),
        (forall|a: Seq<char>| s != #[trigger] (a + p)) ==> strip_all_suffix(s, p) == s,
{
    prefixes_come_first(p, s);
    assert((s + p).take((s + p).len() - p.len()) =~= s);
    if ends_with(s, p) {
        assert(s == s.take(s.len() - p.len()) + p);
    }
}

/// A text occurs in another where that one is something, the text, and something.
pub proof fn occurring_is_standing_inside(a: Seq<char>, needle: Seq<char>, b: Seq<char>)
    ensures
        occurs(a + needle + b, needle),
        occurs(a, needle) <==> exists|i: int|
            0 <= i <= a.len() - needle.len() && a == #[trigger] a.take(i) + needle + a.skip(
                i + needle.len(),
            ),
{
    let s = a + needle + b;
    assert(s.subrange(a.len() as int, (a.len() + needle.len()) as int) =~= needle);
    assert(stands_at(s, needle, a.len() as int));
    if occurs(a, needle) {
        let i = choose|i: int| stands_at(a, needle, i);
        assert(a =~= a.take(i) + needle + a.skip(i + needle.len())) by {
            assert(a =~= a.take(i) + a.subrange(i, i + needle.len()) + a.skip(i + needle.len()));
        }
    }
    if exists|i: int|
        0 <= i <= a.len() - needle.len() && a == #[trigger] a.take(i) + needle + a.skip(
            i + needle.len(),
        ) {
        let i = choose|i: int|
            0 <= i <= a.len() - needle.len() && a == #[trigger] a.take(i) + needle + a.skip(
                i + needle.len(),
            );
        let w = a.take(i) + needle + a.skip(i + needle.len());
        assert(w.subrange(i, i + needle.len()) =~= needle);
        assert(stands_at(a, needle, i));
    }
}

/// The value of digits: each further digit makes ten times as much of those before
/// it, and adds its own.
pub proof fn digits_have_their_value(s: Seq<char>, d: nat)
    requires
        d < 10,
    ensures
        dec_value(Seq::<char>::empty()) == 0,
        dec_value(s.push((48 + d) as char)) == 10 * dec_value(s) + d,
        is_digit((48 + d) as char),
        all_digits(s) ==> all_digits(s.push((48 + d) as char)),
{
    assert(s.push((48 + d) as char).drop_last() =~= s);
}

/// The digits at the start of a text are all that come before the first other
/// character.
pub proof fn leading_digits_end_at_another_character(d: Seq<char>, rest: Seq<char>)
    requires
        forall|i: int| 0 <= i < d.len() ==> '0' <= #[trigger] d[i] <= '9',
        rest.len() > 0 ==> !('0' <= rest[0] <= '9'),
    ensures
        digits_len(d + rest) == d.len(),
        (d + rest).take(d.len() as int) == d,
        (d + rest).skip(d.len() as int) == rest,
        all_digits(d),
    decreases d.len(),
{
    assert((d + rest).take(d.len() as int) =~= d);
    assert((d + rest).skip(d.len() as int) =~= rest);
    if d.len() > 0 {
        assert((d + rest)[0] == d[0]);
        assert((d + rest).drop_first() =~= d.drop_first() + rest);
        assert forall|i: int| 0 <= i < d.drop_first().len() implies '0' <= #[trigger] d.drop_first()[i]
            <= '9' by {
            assert(d.drop_first()[i] == d[i + 1]);
        }
        leading_digits_end_at_another_character(d.drop_first(), rest);
    } else {
        assert(d + rest =~= rest);
    }
}

/// The decimal text of a number is its shortest: it reads back, holds digits only,
/// and starts with a zero for zero alone.
pub proof fn decimal_is_the_shortest_text(n: nat)
    ensures
        dec_value(decimal(n)) == n,
        decimal(n).len() > 0,
        forall|i: int| 0 <= i < decimal(n).len() ==> '0' <= #[trigger] decimal(n)[i] <= '9',
        n > 0 ==> decimal(n)[0] != '0',
        n == 0 ==> decimal(n) == seq!['0'],
    decreases n,
{
    decimal_reads_back(n);
    decimal_is_digits(n);
    assert forall|i: int| 0 <= i < decimal(n).len() implies '0' <= #[trigger] decimal(n)[i]
        <= '9' by {
        assert(is_digit(decimal(n)[i]));
    }
    if n >= 10 {
        decimal_is_the_shortest_text(n / 10);
        assert(decimal(n)[0] == decimal(n / 10)[0]);
    } else if n == 0 {
        assert(decimal(n) =~= seq!['0']);
    }
}

/// Every number up to the limit is read, with or without a plus sign, and nothing
/// else is: no larger number, no text without a digit, and none with anything but
/// digits behind the sign.
pub proof fn numbers_are_read(n: nat, max: nat, s: Seq<char>)
    ensures
        n <= max ==> unsigned_text(decimal(n), max) == Some(n),
        n <= max ==> unsigned_text(seq!['+'] + decimal(n), max) == Some(n),
        n > max ==> unsigned_text(decimal(n), max) is None,
        unsigned_text(Seq::<char>::empty(), max) is None,
        unsigned_text(seq!['+'], max) is None,
        (exists|i: int| 0 < i < s.len() && !('0' <= #[trigger] s[i] <= '9')) ==> unsigned_text(
            s,
            max,
        ) is None,
        s.len() > 0 && s[0] != '+' && !('0' <= s[0] <= '9') ==> unsigned_text(s, max) is None,
        unsigned_text(s, max) matches Some(v) ==> v <= max && (v == dec_value(s) || v == dec_value(
            s.drop_first(),
        )),
{
    decimal_is_the_shortest_text(n);
    decimal_is_digits(n);
    assert((seq!['+'] + decimal(n)).drop_first() =~= decimal(n));
    assert(seq!['+'].drop_first() =~= Seq::<char>::empty());
    if exists|i: int| 0 < i < s.len() && !('0' <= #[trigger] s[i] <= '9') {
        let i = choose|i: int| 0 < i < s.len() && !('0' <= #[trigger] s[i] <= '9');
        if s[0] == '+' {
            assert(s.drop_first()[i - 1] == s[i]);
            assert(!is_digit(s.drop_first()[i - 1]));
        } else {
            assert(!is_digit(s[i]));
        }
    }
    if s.len() > 0 && s[0] != '+' && !('0' <= s[0] <= '9') {
        assert(!is_digit(s[0]));
    }
}

/// A number with a sign is the sign and the number without it.
pub proof fn signs_come_first(n: nat)
    ensures
        signed(n as int) == decimal(n),
        n > 0 ==> signed(-(n as int)) == seq!['-'] + decimal(n),
{
}

/// Zeros in front of a number change its width and not its value; blanks behind a
/// text change its width and not the text.
pub proof fn padding_only_fills_up(n: nat, s: Seq<char>, width: nat)
    ensures
        dec_value(zero_padded(n, width)) == n,
        all_digits(zero_padded(n, width)),
        zero_padded(n, width).len() == if decimal(n).len() < width {
            width
        } else {
            decimal(n).len()
        },
        padded(s, width).len() == if s.len() < width {
            width
        } else {
            s.len()
        },
        padded(s, width).take(s.len() as int) == s,
        forall|i: int| s.len() <= i < padded(s, width).len() ==> padded(s, width)[i] == ' ',
{
    assert(padded(s, width).take(s.len() as int) =~= s);
    decimal_reads_back(n);
    decimal_is_digits(n);
    let k = (width - decimal(n).len()) as nat;
    if decimal(n).len() < width {
        lemma_zeros_in_front(k, decimal(n));
        let z = zero_padded(n, width);
        assert forall|i: int| 0 <= i < z.len() implies is_digit(#[trigger] z[i]) by {
            if i >= k {
                assert(z[i] == decimal(n)[i - k]);
            }
        }
    }
}

proof fn lemma_zeros_in_front(k: nat, d: Seq<char>)
    ensures
        dec_value(repeat('0', k) + d) == dec_value(d),
    decreases k + d.len(),
{
    if d.len() > 0 {
        lemma_zeros_in_front(k, d.drop_last());
        assert((repeat('0', k) + d).drop_last() =~= repeat('0', k) + d.drop_last());
        assert((repeat('0', k) + d).last() == d.last());
    } else if k > 0 {
        lemma_zeros_in_front((k - 1) as nat, d);
        assert((repeat('0', k) + d).drop_last() =~= repeat('0', (k - 1) as nat) + d);
    } else {
        assert(repeat('0', k) + d =~= d);
    }
}

/// Dictionary order: a text comes before every longer one that starts with it, and
/// where two texts part, the smaller character decides.
pub proof fn dictionaries_order_by_the_first_difference(
    p: Seq<char>,
    a: Seq<char>,
    b: Seq<char>,
)
    ensures
        lex_le(p, p + a),
        a.len() > 0 ==> !lex_le(p + a, p),
        a.len() > 0 && b.len() > 0 && a[0] < b[0] ==> lex_le(p + a, p + b) && !lex_le(
            p + b,
            p + a,
        ),
    decreases p.len(),
{
    if p.len() > 0 {
        dictionaries_order_by_the_first_difference(p.drop_first(), a, b);
        assert((p + a).drop_first() =~= p.drop_first() + a);
        assert((p + b).drop_first() =~= p.drop_first() + b);
    } else {
        assert(p + a =~= a);
        assert(p + b =~= b);
    }
}

/// A number with a unit behind it comes apart again, with any white space around
/// it.
pub proof fn numbers_and_units_come_apart(a: Seq<char>, n: nat, unit: Seq<char>, b: Seq<char>)
    requires
        forall|i: int| 0 <= i < a.len() ==> is_space(#[trigger] a[i]),
        forall|i: int| 0 <= i < b.len() ==> is_space(#[trigger] b[i]),
        unit.len() > 0 ==> !is_space(unit[0]) && !is_space(unit.last()) && !('0' <= unit[0]
            <= '9'),
    ensures
        trimmed(a + (decimal(n) + unit) + b) == decimal(n) + unit,
        digits_len(decimal(n) + unit) == decimal(n).len(),
        (decimal(n) + unit).take(decimal(n).len() as int) == decimal(n),
        (decimal(n) + unit).skip(decimal(n).len() as int) == unit,
        dec_value(decimal(n)) == n,
        decimal(n).len() > 0,
        trimmed(unit) == unit,
{
    let t = decimal(n) + unit;
    decimal_is_the_shortest_text(n);
    leading_digits_end_at_another_character(decimal(n), unit);
    white_space_cannot_be_seen(decimal(n)[0]);
    assert(t[0] == decimal(n)[0]);
    if unit.len() > 0 {
        assert(t.last() == unit.last());
    } else {
        assert(t =~= decimal(n));
        white_space_cannot_be_seen(decimal(n)[decimal(n).len() - 1]);
    }
    trimming_takes_the_blanks_off(a, t, b);
    trimming_takes_the_blanks_off(Seq::empty(), unit, Seq::empty());
    assert(Seq::<char>::empty() + unit + Seq::<char>::empty() =~= unit);
}

/// What occurs in a text occurs in every text that this one is a part of.
pub proof fn occurring_in_a_part_is_occurring(
    a: Seq<char>,
    s: Seq<char>,
    b: Seq<char>,
    needle: Seq<char>,
)
    requires
        occurs(s, needle),
    ensures
        occurs(a + s, needle),
        occurs(s + b, needle),
        occurs(a + s + b, needle),
{
    let i = choose|i: int| stands_at(s, needle, i);
    let k = needle.len();
    assert((a + s).subrange(a.len() + i, a.len() + i + k) =~= s.subrange(i, i + k));
    assert((s + b).subrange(i, i + k) =~= s.subrange(i, i + k));
    assert((a + s + b).subrange(a.len() + i, a.len() + i + k) =~= s.subrange(i, i + k));
    assert(stands_at(a + s, needle, a.len() + i));
    assert(stands_at(s + b, needle, i));
    assert(stands_at(a + s + b, needle, a.len() + i));
}

/// A text occurs in itself, and in what starts or ends with it.
pub proof fn a_text_occurs_in_itself(a: Seq<char>, needle: Seq<char>)
    ensures
        occurs(needle, needle),
        occurs(a + needle, needle),
        occurs(needle + a, needle),
{
    let none = Seq::<char>::empty();
    occurring_is_standing_inside(none, needle, none);
    occurring_is_standing_inside(a, needle, none);
    occurring_is_standing_inside(none, needle, a);
    assert(none + needle + none =~= needle);
    assert(a + needle + none =~= a + needle);
    assert(none + needle + a =~= needle + a);
}

/// A text that goes on holds all that it held before.
pub proof fn longer_texts_hold_more(s: Seq<char>, b: Seq<char>)
    ensures
        forall|needle: Seq<char>| #[trigger] occurs(s, needle) ==> occurs(s + b, needle),
{
    assert forall|needle: Seq<char>| #[trigger] occurs(s, needle) implies occurs(s + b, needle) by {
        occurring_in_a_part_is_occurring(Seq::empty(), s, b, needle);
    }
}

/// A text with another in front of it holds all that it held before.
pub proof fn longer_texts_hold_more_behind(a: Seq<char>, s: Seq<char>)
    ensures
        forall|needle: Seq<char>| #[trigger] occurs(s, needle) ==> occurs(a + s, needle),
{
    assert forall|needle: Seq<char>| #[trigger] occurs(s, needle) implies occurs(a + s, needle) by {
        occurring_in_a_part_is_occurring(a, s, Seq::empty(), needle);
    }
}

/// Two texts that follow each other stand together.
pub proof fn two_parts_stand_together(a: Seq<char>, x: Seq<char>, y: Seq<char>)
    ensures
        occurs(a + x + y, x + y),
{
    let s = a + x + y;
    let k = a.len() as int;
    assert(s.subrange(k, k + (x + y).len()) =~= x + y);
    assert(stands_at(s, x + y, k));
}

/// The white space of texts, character by character.
pub proof fn these_characters_are_white_space(c: char)
    ensures
        is_space(c) <==> seq![
            '\t', '\n', '\u{b}', '\u{c}', '\r', ' ', '\u{85}', '\u{a0}', '\u{1680}',
            '\u{2000}', '\u{2001}', '\u{2002}', '\u{2003}', '\u{2004}', '\u{2005}', '\u{2006}',
            '\u{2007}', '\u{2008}', '\u{2009}', '\u{200a}', '\u{2028}', '\u{2029}', '\u{202f}',
            '\u{205f}', '\u{3000}',
        ].contains(c),
{
    let t = seq![
        '\t', '\n', '\u{b}', '\u{c}', '\r', ' ', '\u{85}', '\u{a0}', '\u{1680}', '\u{2000}',
        '\u{2001}', '\u{2002}', '\u{2003}', '\u{2004}', '\u{2005}', '\u{2006}', '\u{2007}',
        '\u{2008}', '\u{2009}', '\u{200a}', '\u{2028}', '\u{2029}', '\u{202f}', '\u{205f}',
        '\u{3000}',
    ];
    if is_space(c) {
        let i: int = if c <= '\r' {
            c as int - 9
        } else if c == ' ' {
            5
        } else if c == '\u{85}' {
            6
        } else if c == '\u{a0}' {
            7
        } else if c == '\u{1680}' {
            8
        } else if c <= '\u{200a}' {
            c as int - 0x2000 + 9
        } else if c == '\u{2028}' {
            20
        } else if c == '\u{2029}' {
            21
        } else if c == '\u{202f}' {
            22
        } else if c == '\u{205f}' {
            23
        } else {
            24
        };
        assert(t[i] == c);
    }
}

} // verus!
