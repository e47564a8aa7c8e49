//! Text as sequences of characters: the small operations that the converter is
//! built from, each with a specification over `Seq<char>`.

use vstd::prelude::*;

verus! {

/// `String::push`: the character is appended at the end.
pub assume_specification[ String::push ](s: &mut String, c: char)
    ensures
        final(s)@ == old(s)@.push(c),
;

/// `String::push_str`: the slice is appended at the end.
pub assume_specification[ String::push_str ](s: &mut String, t: &str)
    ensures
        final(s)@ == old(s)@ + t@,
;

/// `==` on string slices: equal exactly when the characters are the same.
pub assume_specification[ <str as PartialEq>::eq ](a: &str, b: &str) -> (r: bool)
    ensures
        r == (a@ == b@),
;

/// What `str::to_lowercase` makes of a text that is not all ASCII.
pub uninterp spec fn unicode_lowercase(s: Seq<char>) -> Seq<char>;

/// An ASCII capital becomes its small letter, any other character stays.
pub open spec fn ascii_lower(c: char) -> char {
    if 'A' <= c && c <= 'Z' {
        (c as u32 + 32) as char
    } else {
        c
    }
}

pub open spec fn is_ascii_text(s: Seq<char>) -> bool {
    forall|i: int| 0 <= i < s.len() ==> (#[trigger] s[i] as u32) < 128
}

/// A text in small letters.
pub open spec fn lowercase(s: Seq<char>) -> Seq<char> {
    if is_ascii_text(s) {
        s.map_values(|c: char| ascii_lower(c))
    } else {
        unicode_lowercase(s)
    }
}

/// `str::to_lowercase`. In a text that is all ASCII each capital letter is made
/// small and the rest stays; of any other text the result is a function of the
/// text.
#[verifier::external_body]
pub(crate) fn to_lowercase(s: &str) -> (r: String)
    ensures
        is_ascii_text(s@) ==> r@ == s@.map_values(|c: char| ascii_lower(c)),
        !is_ascii_text(s@) ==> r@ == unicode_lowercase(s@),
{
    s.to_lowercase()
}

/// Whether two slices hold the same characters.
pub fn same(a: &str, b: &str) -> (r: bool)
    ensures
        r == (a@ == b@),
{
    a.eq(b)
}

/// The characters of a slice.
pub fn chars_of(s: &str) -> (r: Vec<char>)
    ensures
        r@ == s@,
{
    let mut out: Vec<char> = Vec::new();
    for c in it: s.chars()
        invariant
            it.seq() == s@,
            out@ == it.seq().take(it.index() as int),
    {
        out.push(c);
    }
    out
}

/// The string made of `chars[from..to]`.
pub fn string_of(chars: &Vec<char>, from: usize, to: usize) -> (r: String)
    requires
        from <= to <= chars@.len(),
    ensures
        r@ == chars@.subrange(from as int, to as int),
{
    let mut out = String::new();
    let mut i: usize = from;
    while i < to
        invariant
            from <= i <= to <= chars@.len(),
            out@ == chars@.subrange(from as int, i as int),
        decreases to - i,
    {
        out.push(chars[i]);
        i += 1;
    }
    out
}

/// Appends the characters of `s` to `out`.
pub fn push_chars(out: &mut Vec<char>, s: &str)
    ensures
        final(out)@ == old(out)@ + s@,
{
    let ghost before = out@;
    for c in it: s.chars()
        invariant
            it.seq() == s@,
            out@ == before + it.seq().take(it.index() as int),
    {
        out.push(c);
    }
}

// ---------------------------------------------------------------------------
// White space
// ---------------------------------------------------------------------------

/// The Unicode property `White_Space`.
pub open spec fn white_space(c: char) -> bool {
    let u = c as u32;
    ||| 0x09 <= u <= 0x0d
    ||| u == 0x20
    ||| u == 0x85
    ||| u == 0xa0
    ||| u == 0x1680
    ||| 0x2000 <= u <= 0x200a
    ||| u == 0x2028
    ||| u == 0x2029
    ||| u == 0x202f
    ||| u == 0x205f
    ||| u == 0x3000
}

/// Whether a character is white space.
pub fn is_white_space(c: char) -> (r: bool)
    ensures
        r == white_space(c),
{
    let u: u32 = c as u32;
    (0x09 <= u && u <= 0x0d) || u == 0x20 || u == 0x85 || u == 0xa0 || u == 0x1680 || (0x2000 <= u
        && u <= 0x200a) || u == 0x2028 || u == 0x2029 || u == 0x202f || u == 0x205f || u == 0x3000
}

/// The text from its first character that is not white space.
pub open spec fn trimmed_start(s: Seq<char>) -> Seq<char>
    decreases s.len(),
{
    if s.len() > 0 && white_space(s[0]) {
        trimmed_start(s.drop_first())
    } else {
        s
    }
}

/// The text up to its last character that is not white space.
pub open spec fn trimmed_end(s: Seq<char>) -> Seq<char>
    decreases s.len(),
{
    if s.len() > 0 && white_space(s.last()) {
        trimmed_end(s.drop_last())
    } else {
        s
    }
}

/// The text without white space at either end.
pub open spec fn trimmed(s: Seq<char>) -> Seq<char> {
    trimmed_end(trimmed_start(s))
}

/// Copies a text without the white space at either end.
pub fn trim(chars: &Vec<char>) -> (r: String)
    ensures
        r@ == trimmed(chars@),
{
    let n: usize = chars.len();
    let mut from: usize = 0;
    assert(chars@.subrange(0, n as int) == chars@);
    while from < n && is_white_space(chars[from])
        invariant
            from <= n == chars@.len(),
            trimmed_start(chars@) == trimmed_start(chars@.subrange(from as int, n as int)),
        decreases n - from,
    {
        assert(chars@.subrange(from as int, n as int).drop_first() == chars@.subrange(
            from + 1,
            n as int,
        ));
        from += 1;
    }
    let mut to: usize = n;
    while from < to && is_white_space(chars[to - 1])
        invariant
            from <= to <= n == chars@.len(),
            trimmed(chars@) == trimmed_end(chars@.subrange(from as int, to as int)),
        decreases to,
    {
        assert(chars@.subrange(from as int, to as int).drop_last() == chars@.subrange(
            from as int,
            to - 1,
        ));
        to -= 1;
    }
    string_of(chars, from, to)
}

/// Trimming takes off nothing but white space, and all of it at both ends: the
/// text is the trimmed text between two runs of white space, and the trimmed
/// text neither starts nor ends with white space.
pub proof fn trimming_removes_exactly_outer_white_space(s: Seq<char>)
    ensures
        trimmed(s).len() > 0 ==> !white_space(trimmed(s)[0]) && !white_space(trimmed(s).last()),
        exists|before: Seq<char>, after: Seq<char>|
            #![trigger before + trimmed(s) + after]
            {
                &&& s == before + trimmed(s) + after
                &&& forall|i: int| 0 <= i < before.len() ==> white_space(#[trigger] before[i])
                &&& forall|i: int| 0 <= i < after.len() ==> white_space(#[trigger] after[i])
            },
{
    let before = trim_start_split(s);
    let mid = trimmed_start(s);
    let after = trim_end_split(mid);
    assert(s == before + trimmed(s) + after);
    if trimmed(s).len() > 0 {
        assert(trimmed(s)[0] == mid[0]);
    }
}

proof fn trim_start_split(s: Seq<char>) -> (before: Seq<char>)
    ensures
        s == before + trimmed_start(s),
        forall|i: int| 0 <= i < before.len() ==> white_space(#[trigger] before[i]),
        trimmed_start(s).len() > 0 ==> !white_space(trimmed_start(s)[0]),
    decreases s.len(),
{
    if s.len() > 0 && white_space(s[0]) {
        let rest = trim_start_split(s.drop_first());
        let before = seq![s[0]] + rest;
        assert(s == seq![s[0]] + s.drop_first());
        assert(s == before + trimmed_start(s));
        before
    } else {
        assert(s == Seq::<char>::empty() + s);
        Seq::empty()
    }
}

proof fn trim_end_split(s: Seq<char>) -> (after: Seq<char>)
    ensures
        s == trimmed_end(s) + after,
        forall|i: int| 0 <= i < after.len() ==> white_space(#[trigger] after[i]),
        trimmed_end(s).len() > 0 ==> !white_space(trimmed_end(s).last()),
    decreases s.len(),
{
    if s.len() > 0 && white_space(s.last()) {
        let rest = trim_end_split(s.drop_last());
        let after = rest.push(s.last());
        assert(s == s.drop_last().push(s.last()));
        assert(s == trimmed_end(s) + after);
        after
    } else {
        assert(s == s + Seq::<char>::empty());
        Seq::empty()
    }
}

// ---------------------------------------------------------------------------
// Numbers
// ---------------------------------------------------------------------------

/// The ASCII digit of a number below ten.
pub open spec fn digit_char(d: nat) -> char {
    (48 + d) as char
}

/// A number in decimal notation, without leading zeros.
pub open spec fn decimal(n: nat) -> Seq<char>
    decreases n,
{
    if n < 10 {
        seq![digit_char(n)]
    } else {
        decimal(n / 10).push(digit_char(n % 10))
    }
}

/// Appends a number in decimal notation.
pub fn push_decimal(out: &mut String, n: u32)
    ensures
        final(out)@ == old(out)@ + decimal(n as nat),
    decreases n,
{
    if n >= 10 {
        push_decimal(out, n / 10);
    }
    let c: char = (48u8 + (n % 10) as u8) as char;
    assert(c == digit_char((n % 10) as nat));
    out.push(c);
}

pub open spec fn is_digit(c: char) -> bool {
    '0' <= c && c <= '9'
}

/// The number that a run of ASCII digits denotes.
pub open spec fn digits_value(s: Seq<char>) -> nat
    decreases s.len(),
{
    if s.len() == 0 {
        0
    } else {
        digits_value(s.drop_last()) * 10 + (s.last() as u32 - 48) as nat
    }
}

/// The number that one or more ASCII digits denote, where it fits in `u32`.
pub open spec fn numeral_value(digits: Seq<char>) -> Option<u32> {
    if digits.len() > 0 && (forall|i: int| 0 <= i < digits.len() ==> is_digit(#[trigger] digits[i]))
        && digits_value(digits) <= u32::MAX {
        Some(digits_value(digits) as u32)
    } else {
        None
    }
}

/// A text without the plus sign that it may start with.
pub open spec fn without_plus(s: Seq<char>) -> Seq<char> {
    if s.len() > 0 && s[0] == '+' {
        s.drop_first()
    } else {
        s
    }
}

/// The number that a text denotes: an optional `+` and then one or more ASCII
/// digits, with a value that fits in `u32`. Any other text denotes none.
pub open spec fn parsed_u32(s: Seq<char>) -> Option<u32> {
    numeral_value(without_plus(s))
}

proof fn digits_value_grows(s: Seq<char>, i: int)
    requires
        0 <= i <= s.len(),
    ensures
        digits_value(s.take(i)) <= digits_value(s),
    decreases s.len() - i,
{
    if i < s.len() {
        digits_value_grows(s, i + 1);
        assert(s.take(i + 1).drop_last() == s.take(i));
    } else {
        assert(s.take(i) == s);
    }
}

/// Reads a decimal number.
pub fn parse_u32(s: &str) -> (r: Option<u32>)
    ensures
        r == parsed_u32(s@),
{
    let chars = chars_of(s);
    let n: usize = chars.len();
    let start: usize = if n > 0 && chars[0] == '+' {
        1
    } else {
        0
    };
    let ghost digits = without_plus(s@);
    assert(forall|i: int| 0 <= i < digits.len() ==> #[trigger] digits[i] == chars@[start + i]);
    if start == n {
        return None;
    }
    let mut value: u64 = 0;
    let mut i: usize = start;
    assert(digits.take(0) == Seq::<char>::empty());
    while i < n
        invariant
            start <= i <= n == chars@.len(),
            start == 0 || start == 1,
            digits.len() == n - start,
            digits == without_plus(s@),
            forall|k: int| 0 <= k < digits.len() ==> #[trigger] digits[k] == chars@[start + k],
            forall|k: int| 0 <= k < i - start ==> is_digit(#[trigger] digits[k]),
            value == digits_value(digits.take(i - start)),
            value <= u32::MAX,
        decreases n - i,
    {
        let c: char = chars[i];
        assert(digits[i - start] == c);
        if c < '0' || '9' < c {
            return None;
        }
        value = value * 10 + (c as u32 - 48) as u64;
        assert(digits.take(i + 1 - start).drop_last() == digits.take(i - start));
        if value > u32::MAX as u64 {
            proof {
                digits_value_grows(digits, i + 1 - start);
            }
            return None;
        }
        i += 1;
    }
    assert(digits.take(n - start) == digits);
    Some(value as u32)
}

// ---------------------------------------------------------------------------
// Composition
// ---------------------------------------------------------------------------

/// The text with every occurrence of `pat` replaced, found from left to right
/// and without overlap.
pub open spec fn replaced(s: Seq<char>, pat: Seq<char>, with: Seq<char>) -> Seq<char>
    decreases s.len(),
{
    if pat.len() == 0 || s.len() < pat.len() {
        s
    } else if s.take(pat.len() as int) == pat {
        with + replaced(s.skip(pat.len() as int), pat, with)
    } else {
        seq![s[0]] + replaced(s.skip(1), pat, with)
    }
}

/// Whether `pat` stands in `s` at `at`.
fn occurs_at(s: &Vec<char>, pat: &Vec<char>, at: usize) -> (r: bool)
    requires
        at <= s@.len(),
    ensures
        r == (pat@.len() <= s@.len() - at && s@.subrange(at as int, at + pat@.len()) == pat@),
{
    let n: usize = s.len();
    if n - at < pat.len() {
        return false;
    }
    let mut k: usize = 0;
    while k < pat.len()
        invariant
            n == s@.len(),
            k <= pat@.len() <= n - at,
            forall|i: int| 0 <= i < k ==> s@[at + i] == #[trigger] pat@[i],
        decreases pat@.len() - k,
    {
        if s[at + k] != pat[k] {
            assert(s@.subrange(at as int, at + pat@.len())[k as int] != pat@[k as int]);
            return false;
        }
        k += 1;
    }
    assert(s@.subrange(at as int, at + pat@.len()) == pat@);
    true
}

/// Replaces every occurrence of a pattern.
pub fn replace(s: &Vec<char>, pat: &Vec<char>, with: &str) -> (r: Vec<char>)
    requires
        pat@.len() > 0,
    ensures
        r@ == replaced(s@, pat@, with@),
{
    let n: usize = s.len();
    let mut out: Vec<char> = Vec::new();
    let mut i: usize = 0;
    assert(s@.skip(0) == s@);
    while i < n
        invariant
            i <= n == s@.len(),
            pat@.len() > 0,
            replaced(s@, pat@, with@) == out@ + replaced(s@.skip(i as int), pat@, with@),
        decreases n - i,
    {
        let ghost rest = s@.skip(i as int);
        let ghost before = out@;
        if occurs_at(s, pat, i) {
            assert(rest.take(pat@.len() as int) == pat@);
            assert(rest.skip(pat@.len() as int) == s@.skip(i + pat@.len()));
            push_chars(&mut out, with);
            i += pat.len();
            assert(replaced(s@, pat@, with@) == out@ + replaced(s@.skip(i as int), pat@, with@));
        } else {
            assert(rest.len() >= pat@.len() ==> rest.take(pat@.len() as int) == s@.subrange(
                i as int,
                i + pat@.len(),
            ));
            assert(rest.skip(1) == s@.skip(i + 1));
            assert(rest == seq![rest[0]] + rest.skip(1));
            assert(rest.len() < pat@.len() ==> replaced(rest.skip(1), pat@, with@) == rest.skip(1));
            out.push(s[i]);
            i += 1;
            assert(out@ == before + seq![rest[0]]);
            assert(replaced(s@, pat@, with@) == out@ + replaced(s@.skip(i as int), pat@, with@));
        }
    }
    assert(s@.skip(n as int) == Seq::<char>::empty());
    assert(replaced(s@, pat@, with@) == out@);
    out
}

/// A text repeated `n` times.
pub open spec fn repeated(s: Seq<char>, n: nat) -> Seq<char>
    decreases n,
{
    if n == 0 {
        Seq::empty()
    } else {
        repeated(s, (n - 1) as nat) + s
    }
}

/// Appends a text `n` times.
pub fn push_repeated(out: &mut String, s: &str, n: usize)
    ensures
        final(out)@ == old(out)@ + repeated(s@, n as nat),
{
    let ghost before = out@;
    let mut i: usize = 0;
    assert(out@ == before + repeated(s@, 0));
    while i < n
        invariant
            i <= n,
            out@ == before + repeated(s@, i as nat),
        decreases n - i,
    {
        out.push_str(s);
        i += 1;
        assert(out@ == before + repeated(s@, i as nat));
    }
}

/// Each text with the separator before it.
pub open spec fn prefixed(parts: Seq<Seq<char>>, sep: Seq<char>) -> Seq<char>
    decreases parts.len(),
{
    if parts.len() == 0 {
        Seq::empty()
    } else {
        prefixed(parts.drop_last(), sep) + sep + parts.last()
    }
}

/// The texts in order, with the separator between neighbours.
pub open spec fn joined(parts: Seq<Seq<char>>, sep: Seq<char>) -> Seq<char> {
    if parts.len() == 0 {
        Seq::empty()
    } else {
        parts[0] + prefixed(parts.drop_first(), sep)
    }
}

pub proof fn joined_push(parts: Seq<Seq<char>>, part: Seq<char>, sep: Seq<char>)
    ensures
        joined(parts.push(part), sep) == (if parts.len() == 0 {
            part
        } else {
            joined(parts, sep) + sep + part
        }),
{
    let all = parts.push(part);
    if parts.len() == 0 {
        assert(all.drop_first() == Seq::<Seq<char>>::empty());
        assert(part + Seq::<char>::empty() == part);
    } else {
        assert(all.drop_first() == parts.drop_first().push(part));
        assert(all.drop_first().drop_last() == parts.drop_first());
        assert(joined(all, sep) == joined(parts, sep) + sep + part);
    }
}

/// A number in decimal notation is made of digits, at least one, and they denote
/// that number. It has no leading zeros.
pub proof fn decimal_reads_back(n: nat)
    ensures
        decimal(n).len() > 0,
        digits_value(decimal(n)) == n,
        forall|i: int| 0 <= i < decimal(n).len() ==> is_digit(#[trigger] decimal(n)[i]),
        n == 0 ==> decimal(n) == seq!['0'],
        n > 0 ==> decimal(n)[0] != '0',
    decreases n,
{
    if n >= 10 {
        decimal_reads_back(n / 10);
        assert(decimal(n).drop_last() == decimal(n / 10));
        assert(decimal(n)[0] == decimal(n / 10)[0]);
    } else {
        assert(decimal(n).drop_last() == Seq::<char>::empty());
        assert(digits_value(Seq::<char>::empty()) == 0);
    }
    assert(decimal(n).last() as u32 == 48 + n % 10);
}

/// A number written in decimal notation reads back as that number.
pub proof fn decimal_parses(n: u32)
    ensures
        parsed_u32(decimal(n as nat)) == Some(n),
{
    decimal_reads_back(n as nat);
    assert(is_digit(decimal(n as nat)[0]));
}

/// A character repeated `n` times.
pub proof fn repeated_char(c: char, n: nat)
    ensures
        repeated(seq![c], n) == Seq::new(n, |i: int| c),
    decreases n,
{
    if n > 0 {
        repeated_char(c, (n - 1) as nat);
        assert(repeated(seq![c], n) == Seq::new(n, |i: int| c));
    } else {
        assert(repeated(seq![c], n) == Seq::new(n, |i: int| c));
    }
}

// ---------------------------------------------------------------------------
// What the operations on text mean
// ---------------------------------------------------------------------------

/// White space is exactly this: the tab, the line ends, the space and the other
/// spaces of Unicode.
pub proof fn white_space_characters(c: char)
    ensures
        white_space(c) <==> seq![
            '\t',
            '\n',
            '\u{b}',
            '\u{c}',
            '\r',
            ' ',
            '\u{85}',
            '\u{a0}',
            '\u{1680}',
            '\u{2000}',
            '\u{2001}',
            '\u{2002}',
            '\u{2003}',
            '\u{2004}',
            '\u{2005}',
            '\u{2006}',
            '\u{2007}',
            '\u{2008}',
            '\u{2009}',
            '\u{200a}',
            '\u{2028}',
            '\u{2029}',
            '\u{202f}',
            '\u{205f}',
            '\u{3000}',
        ].contains(c),
{
    let all = seq![
        '\t',
        '\n',
        '\u{b}',
        '\u{c}',
        '\r',
        ' ',
        '\u{85}',
        '\u{a0}',
        '\u{1680}',
        '\u{2000}',
        '\u{2001}',
        '\u{2002}',
        '\u{2003}',
        '\u{2004}',
        '\u{2005}',
        '\u{2006}',
        '\u{2007}',
        '\u{2008}',
        '\u{2009}',
        '\u{200a}',
        '\u{2028}',
        '\u{2029}',
        '\u{202f}',
        '\u{205f}',
        '\u{3000}',
    ];
    assert(all[0] == '\t');
    assert(all[1] == '\n');
    assert(all[2] == '\u{b}');
    assert(all[3] == '\u{c}');
    assert(all[4] == '\r');
    assert(all[5] == ' ');
    assert(all[6] == '\u{85}');
    assert(all[7] == '\u{a0}');
    assert(all[8] == '\u{1680}');
    assert(all[9] == '\u{2000}');
    assert(all[10] == '\u{2001}');
    assert(all[11] == '\u{2002}');
    assert(all[12] == '\u{2003}');
    assert(all[13] == '\u{2004}');
    assert(all[14] == '\u{2005}');
    assert(all[15] == '\u{2006}');
    assert(all[16] == '\u{2007}');
    assert(all[17] == '\u{2008}');
    assert(all[18] == '\u{2009}');
    assert(all[19] == '\u{200a}');
    assert(all[20] == '\u{2028}');
    assert(all[21] == '\u{2029}');
    assert(all[22] == '\u{202f}');
    assert(all[23] == '\u{205f}');
    assert(all[24] == '\u{3000}');
}

/// A capital letter becomes the small letter at the same place of the alphabet, and
/// every other ASCII character stays; a text of ASCII characters keeps its length.
pub proof fn lowering_keeps_the_place_in_the_alphabet(s: Seq<char>, i: int)
    requires
        forall|k: int| 0 <= k < s.len() ==> (#[trigger] s[k] as u32) < 128,
        0 <= i < s.len(),
    ensures
        lowercase(s).len() == s.len(),
        'A' <= s[i] && s[i] <= 'Z' ==> lowercase(s)[i] as u32 - 'a' as u32 == s[i] as u32
            - 'A' as u32,
        !('A' <= s[i] && s[i] <= 'Z') ==> lowercase(s)[i] == s[i],
{
}

/// Of a text that has any other character the small letters are those of Unicode.
pub proof fn lowering_of_other_text(s: Seq<char>, i: int)
    requires
        0 <= i < s.len(),
        s[i] as u32 >= 128,
    ensures
        lowercase(s) == unicode_lowercase(s),
{
}

/// The digits, in the order of their values.
pub proof fn digits_in_order(d: nat)
    requires
        d < 10,
    ensures
        digit_char(d) == seq!['0', '1', '2', '3', '4', '5', '6', '7', '8', '9'][d as int],
        is_digit(digit_char(d)),
{
}

/// A digit is one of the ten.
pub proof fn only_ten_digits(c: char)
    ensures
        is_digit(c) <==> exists|d: nat| d < 10 && c == #[trigger] digit_char(d),
{
    if is_digit(c) {
        let d = (c as u32 - 48) as nat;
        assert(c == digit_char(d));
    }
}

/// Digits are read by place: one more digit makes ten times the number and adds its
/// own value.
pub proof fn digits_are_read_by_place(s: Seq<char>, d: nat)
    requires
        d < 10,
    ensures
        digits_value(Seq::empty()) == 0,
        digits_value(
            s.push(seq!['0', '1', '2', '3', '4', '5', '6', '7', '8', '9'][d as int]),
        ) == 10 * digits_value(s) + d,
{
    let more = s.push(seq!['0', '1', '2', '3', '4', '5', '6', '7', '8', '9'][d as int]);
    assert(more.drop_last() == s);
}

/// A text denotes a number exactly where it is made of digits, at least one, and their
/// number fits in 32 bits; it denotes that number.
pub proof fn numbers_are_digits(s: Seq<char>)
    requires
        s.len() == 0 || s[0] != '+',
    ensures
        parsed_u32(s) is Some <==> s.len() > 0 && (forall|i: int|
            0 <= i < s.len() ==> is_digit(#[trigger] s[i])) && digits_value(s) <= 0xffff_ffff,
        parsed_u32(s) matches Some(n) ==> n == digits_value(s),
{
}

/// One plus sign before a number makes no difference, and two denote none.
pub proof fn plus_sign_is_optional(s: Seq<char>)
    ensures
        s.len() == 0 || s[0] != '+' ==> parsed_u32(seq!['+'] + s) == parsed_u32(s),
        s.len() > 0 && s[0] == '+' ==> parsed_u32(seq!['+'] + s) is None,
{
    let all = seq!['+'] + s;
    assert(all.drop_first() == s);
    if s.len() > 0 && s[0] == '+' {
        assert(!is_digit(s[0]));
    }
}

/// A text without the pattern stays as it is.
pub proof fn nothing_to_replace(s: Seq<char>, pat: Seq<char>, with: Seq<char>)
    requires
        forall|i: int|
            0 <= i <= s.len() - pat.len() ==> #[trigger] s.subrange(i, i + pat.len()) != pat,
    ensures
        replaced(s, pat, with) == s,
    decreases s.len(),
{
    if pat.len() > 0 && s.len() >= pat.len() {
        let rest = s.skip(1);
        assert(s.subrange(0, 0int + pat.len()) == s.take(pat.len() as int));
        assert forall|i: int| 0 <= i <= rest.len() - pat.len() implies #[trigger] rest.subrange(
            i,
            i + pat.len(),
        ) != pat by {
            assert(rest.subrange(i, i + pat.len()) == s.subrange(i + 1, i + 1 + pat.len()));
        }
        nothing_to_replace(rest, pat, with);
        assert(s == seq![s[0]] + rest);
    }
}

/// The first occurrence of the pattern is replaced, what stands before it stays, and
/// the search goes on behind it.
pub proof fn first_occurrence_is_replaced(
    before: Seq<char>,
    pat: Seq<char>,
    after: Seq<char>,
    with: Seq<char>,
)
    requires
        pat.len() > 0,
        forall|i: int|
            0 <= i < before.len() ==> #[trigger] (before + pat + after).subrange(i, i + pat.len())
                != pat,
    ensures
        replaced(before + pat + after, pat, with) == before + with + replaced(after, pat, with),
    decreases before.len(),
{
    let s = before + pat + after;
    let n = pat.len() as int;
    if before.len() == 0 {
        assert(s.take(n) == pat);
        assert(s.skip(n) == after);
        assert(before + with == with);
    } else {
        let rest = before.skip(1);
        assert(s.subrange(0, 0int + pat.len()) == s.take(n));
        assert(s.skip(1) == rest + pat + after);
        assert forall|i: int| 0 <= i < rest.len() implies #[trigger] (rest + pat + after).subrange(
            i,
            i + pat.len(),
        ) != pat by {
            assert((rest + pat + after).subrange(i, i + pat.len()) == s.subrange(i + 1, i + 1 + pat.len()));
        }
        first_occurrence_is_replaced(rest, pat, after, with);
        assert(before == seq![s[0]] + rest);
        assert(seq![s[0]] + (rest + with + replaced(after, pat, with)) == before + with + replaced(
            after,
            pat,
            with,
        ));
    }
}

/// To repeat a text once is the text itself, and repetitions add up.
pub proof fn repetitions_add_up(s: Seq<char>, m: nat, n: nat)
    ensures
        repeated(s, 1) == s,
        repeated(s, m + n) == repeated(s, m) + repeated(s, n),
    decreases n,
{
    assert(repeated(s, 0) == Seq::<char>::empty());
    assert(repeated(s, 1) == repeated(s, 0) + s);
    if n > 0 {
        repetitions_add_up(s, m, (n - 1) as nat);
        assert(repeated(s, m + n) == repeated(s, (m + n - 1) as nat) + s);
    }
    assert(repeated(s, m + n) == repeated(s, m) + repeated(s, n));
}

proof fn prefixed_add(a: Seq<Seq<char>>, b: Seq<Seq<char>>, sep: Seq<char>)
    ensures
        prefixed(a + b, sep) == prefixed(a, sep) + prefixed(b, sep),
    decreases b.len(),
{
    if b.len() == 0 {
        assert(a + b == a);
    } else {
        prefixed_add(a, b.drop_last(), sep);
        assert((a + b).drop_last() == a + b.drop_last());
    }
    assert(prefixed(a + b, sep) == prefixed(a, sep) + prefixed(b, sep));
}

/// Texts joined are the first of them joined, the separator, and the others joined,
/// wherever the cut is made; a single text is itself.
pub proof fn joined_parts_stand_side_by_side(a: Seq<Seq<char>>, b: Seq<Seq<char>>, sep: Seq<char>)
    requires
        a.len() > 0,
        b.len() > 0,
    ensures
        joined(a + b, sep) == joined(a, sep) + sep + joined(b, sep),
        a.len() == 1 ==> joined(a, sep) == a[0],
{
    let first = seq![b[0]];
    assert((a + b).drop_first() == a.drop_first() + b);
    prefixed_add(a.drop_first(), b, sep);
    assert(b == first + b.drop_first());
    prefixed_add(first, b.drop_first(), sep);
    assert(first.drop_last() == Seq::<Seq<char>>::empty());
    assert(prefixed(first.drop_last(), sep) == Seq::<char>::empty());
    assert(prefixed(first, sep) == sep + b[0]);
    assert(joined(a + b, sep) == joined(a, sep) + sep + joined(b, sep));
    if a.len() == 1 {
        assert(a.drop_first() == Seq::<Seq<char>>::empty());
        assert(joined(a, sep) == a[0]);
    }
}

/// The lengths of some texts together.
pub open spec fn total_len(parts: Seq<Seq<char>>) -> nat
    decreases parts.len(),
{
    if parts.len() == 0 {
        0
    } else {
        total_len(parts.drop_last()) + parts.last().len()
    }
}

/// Joined texts are as long as the texts together and a separator between each two,
/// and each text stands whole behind those before it.
pub proof fn joined_parts_stand_in_place(parts: Seq<Seq<char>>, sep: Seq<char>, j: int)
    requires
        0 <= j < parts.len(),
    ensures
        joined(parts, sep).len() == total_len(parts) + sep.len() * (parts.len() - 1),
        ({
            let at = total_len(parts.take(j)) + sep.len() * j;
            &&& 0 <= at <= at + parts[j].len() <= joined(parts, sep).len()
            &&& joined(parts, sep).subrange(at, at + parts[j].len()) == parts[j]
            &&& j > 0 ==> joined(parts, sep).subrange(at - sep.len(), at) == sep
        }),
    decreases parts.len(),
{
    let some = parts.drop_last();
    let last = parts.last();
    let whole = joined(parts, sep);
    assert(parts == some.push(last));
    joined_push(some, last, sep);
    assert(parts.take(parts.len() - 1) == some);
    let k = sep.len() as int;
    let m = parts.len() as int;
    if some.len() == 0 {
        assert(total_len(some) == 0);
        assert(parts.take(0) == some);
        assert(whole.subrange(0, parts[0].len() as int) == parts[0]);
        assert(k * 0 == 0);
    } else {
        joined_parts_stand_in_place(some, sep, if j < m - 1 {
            j
        } else {
            0
        });
        assert(k * (m - 1) == k * (m - 2) + k) by (nonlinear_arith);
        let head = joined(some, sep);
        assert(head.len() == total_len(some) + k * (m - 2));
        if j < m - 1 {
            assert(some.take(j) == parts.take(j));
            assert(some[j] == parts[j]);
            let at = total_len(parts.take(j)) + k * j;
            assert(whole.subrange(at, at + parts[j].len()) == head.subrange(
                at,
                at + parts[j].len(),
            ));
            if j > 0 {
                assert(at >= k) by {
                    assert(k * j >= k) by (nonlinear_arith)
                        requires
                            j >= 1,
                            k >= 0,
                    ;
                }
                assert(whole.subrange(at - k, at) == head.subrange(at - k, at));
            }
        } else {
            let at = total_len(some) + k * j;
            assert(at == head.len() + k);
            assert(whole.subrange(at, at + last.len()) == last);
            assert(whole.subrange(at - k, at) == sep);
        }
    }
}

} // verus!
