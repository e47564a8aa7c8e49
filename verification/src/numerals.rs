//! Counter values as text, in the number formats of `numFmt`.

use crate::text;
use vstd::prelude::*;

verus! {

/// The largest value of the Roman notation that is not above `n`, and how it is
/// written. Each of the thirteen values is a single letter or a pair of letters.
pub open spec fn roman_step(n: nat) -> (nat, Seq<char>) {
    if n >= 1000 {
        (1000, seq!['M'])
    } else if n >= 900 {
        (900, seq!['C', 'M'])
    } else if n >= 500 {
        (500, seq!['D'])
    } else if n >= 400 {
        (400, seq!['C', 'D'])
    } else if n >= 100 {
        (100, seq!['C'])
    } else if n >= 90 {
        (90, seq!['X', 'C'])
    } else if n >= 50 {
        (50, seq!['L'])
    } else if n >= 40 {
        (40, seq!['X', 'L'])
    } else if n >= 10 {
        (10, seq!['X'])
    } else if n >= 9 {
        (9, seq!['I', 'X'])
    } else if n >= 5 {
        (5, seq!['V'])
    } else if n >= 4 {
        (4, seq!['I', 'V'])
    } else {
        (1, seq!['I'])
    }
}

/// A number in Roman notation: always the largest value that still fits. Zero is
/// the empty text.
pub open spec fn roman(n: nat) -> Seq<char>
    decreases n,
{
    if n == 0 {
        Seq::empty()
    } else {
        roman_step(n).1 + roman((n - roman_step(n).0) as nat)
    }
}

/// The Roman numeral of a counter; zero, which has none, is shown as `I`.
pub open spec fn roman_numeral(n: nat) -> Seq<char> {
    if n == 0 {
        seq!['I']
    } else {
        roman(n)
    }
}

/// The largest Roman value that is not above `n`.
fn largest_roman(n: u32) -> (r: (u32, &'static str))
    requires
        n > 0,
    ensures
        r.0 == roman_step(n as nat).0,
        r.1@ == roman_step(n as nat).1,
        0 < r.0 <= n,
{
    proof {
        reveal_strlit("M");
        reveal_strlit("CM");
        reveal_strlit("D");
        reveal_strlit("CD");
        reveal_strlit("C");
        reveal_strlit("XC");
        reveal_strlit("L");
        reveal_strlit("XL");
        reveal_strlit("X");
        reveal_strlit("IX");
        reveal_strlit("V");
        reveal_strlit("IV");
        reveal_strlit("I");
    }
    if n >= 1000 {
        (1000, "M")
    } else if n >= 900 {
        (900, "CM")
    } else if n >= 500 {
        (500, "D")
    } else if n >= 400 {
        (400, "CD")
    } else if n >= 100 {
        (100, "C")
    } else if n >= 90 {
        (90, "XC")
    } else if n >= 50 {
        (50, "L")
    } else if n >= 40 {
        (40, "XL")
    } else if n >= 10 {
        (10, "X")
    } else if n >= 9 {
        (9, "IX")
    } else if n >= 5 {
        (5, "V")
    } else if n >= 4 {
        (4, "IV")
    } else {
        (1, "I")
    }
}

/// A number in Roman notation, in capital letters.
pub fn to_roman(n: u32) -> (r: String)
    ensures
        r@ == roman_numeral(n as nat),
{
    let mut out = String::new();
    if n == 0 {
        out.push('I');
        assert(out@ == seq!['I']);
        return out;
    }
    let mut rest: u32 = n;
    assert(out@ + roman(rest as nat) == roman(n as nat));
    while rest > 0
        invariant
            out@ + roman(rest as nat) == roman(n as nat),
        decreases rest,
    {
        let (value, letters) = largest_roman(rest);
        let ghost before = out@;
        let ghost tail = roman((rest - value) as nat);
        assert(before + (letters@ + tail) == (before + letters@) + tail);
        out.push_str(letters);
        rest -= value;
    }
    assert(out@ + roman(0) == out@);
    out
}

/// The circled numbers from one to twenty.
pub open spec fn circled() -> Seq<char> {
    seq![
        '①', '②', '③', '④', '⑤', '⑥', '⑦', '⑧', '⑨', '⑩',
        '⑪', '⑫', '⑬', '⑭', '⑮', '⑯', '⑰', '⑱', '⑲', '⑳',
    ]
}

/// The Chinese digits from zero to nine.
pub open spec fn chinese_digits() -> Seq<char> {
    seq!['零', '一', '二', '三', '四', '五', '六', '七', '八', '九']
}

/// A counter value in a number format. A value that the format has no sign for
/// is written in decimal notation, and so is any value in a format that is not
/// known.
pub open spec fn counter_text(fmt: Seq<char>, n: u32) -> Seq<char> {
    if fmt == "lowerLetter"@ && 1 <= n <= 26 {
        seq![('a' as u32 + n - 1) as char]
    } else if fmt == "upperLetter"@ && 1 <= n <= 26 {
        seq![('A' as u32 + n - 1) as char]
    } else if fmt == "lowerRoman"@ {
        roman_numeral(n as nat).map_values(|c: char| text::ascii_lower(c))
    } else if fmt == "upperRoman"@ {
        roman_numeral(n as nat)
    } else if (fmt == "decimalEnclosedCircleChinese"@ || fmt == "decimalEnclosedCircle"@) && 1 <= n
        <= 20 {
        seq![circled()[n - 1]]
    } else if (fmt == "chineseCounting"@ || fmt == "chineseCountingThousand"@ || fmt
        == "chineseLegalSimplified"@) && n <= 9 {
        seq![chinese_digits()[n as int]]
    } else {
        text::decimal(n as nat)
    }
}

proof fn roman_is_ascii(n: nat)
    ensures
        text::is_ascii_text(roman(n)),
    decreases n,
{
    if n > 0 {
        roman_is_ascii((n - roman_step(n).0) as nat);
    }
}

/// Renders a counter value in a number format.
pub fn format_counter(fmt: &str, n: u32) -> (r: String)
    ensures
        r@ == counter_text(fmt@, n),
{
    let mut out = String::new();
    if text::same(fmt, "lowerLetter") && 1 <= n && n <= 26 {
        out.push((97u8 + (n - 1) as u8) as char);
    } else if text::same(fmt, "upperLetter") && 1 <= n && n <= 26 {
        out.push((65u8 + (n - 1) as u8) as char);
    } else if text::same(fmt, "lowerRoman") {
        proof {
            roman_is_ascii(n as nat);
        }
        out = text::to_lowercase(to_roman(n).as_str());
    } else if text::same(fmt, "upperRoman") {
        out = to_roman(n);
    } else if (text::same(fmt, "decimalEnclosedCircleChinese") || text::same(
        fmt,
        "decimalEnclosedCircle",
    )) && 1 <= n && n <= 20 {
        let signs: [char; 20] = [
            '①', '②', '③', '④', '⑤', '⑥', '⑦', '⑧', '⑨', '⑩',
            '⑪', '⑫', '⑬', '⑭', '⑮', '⑯', '⑰', '⑱', '⑲', '⑳',
        ];
        assert(signs@ == circled());
        out.push(signs[(n - 1) as usize]);
    } else if (text::same(fmt, "chineseCounting") || text::same(fmt, "chineseCountingThousand")
        || text::same(fmt, "chineseLegalSimplified")) && n <= 9 {
        let signs: [char; 10] = ['零', '一', '二', '三', '四', '五', '六', '七', '八', '九'];
        assert(signs@ == chinese_digits());
        out.push(signs[n as usize]);
    } else {
        text::push_decimal(&mut out, n);
    }
    assert(out@ == counter_text(fmt@, n));
    out
}

/// What a letter counts for in Roman notation.
pub open spec fn letter_value(c: char) -> int {
    if c == 'I' {
        1
    } else if c == 'V' {
        5
    } else if c == 'X' {
        10
    } else if c == 'L' {
        50
    } else if c == 'C' {
        100
    } else if c == 'D' {
        500
    } else if c == 'M' {
        1000
    } else {
        0
    }
}

/// The value of a Roman numeral: its letters added up, where a letter before a
/// larger one is subtracted.
pub open spec fn roman_value(s: Seq<char>) -> int
    decreases s.len(),
{
    if s.len() == 0 {
        0
    } else if s.len() > 1 && letter_value(s[0]) < letter_value(s[1]) {
        roman_value(s.drop_first()) - letter_value(s[0])
    } else {
        roman_value(s.drop_first()) + letter_value(s[0])
    }
}

/// A counter from one on in Roman notation reads back as its value.
pub proof fn roman_numeral_has_its_value(n: nat)
    requires
        n > 0,
    ensures
        roman_value(roman_numeral(n)) == n,
{
    roman_has_its_value(n);
}

proof fn roman_has_its_value(n: nat)
    ensures
        roman_value(roman(n)) == n,
    decreases n,
{
    if n > 0 {
        let (value, letters) = roman_step(n);
        let rest = (n - value) as nat;
        roman_has_its_value(rest);
        let s = roman(n);
        assert(rest > 0 ==> roman(rest)[0] == roman_step(rest).1[0]);
        if letters.len() == 1 {
            assert(s.drop_first() == roman(rest));
        } else {
            let tail = s.drop_first();
            assert(tail.drop_first() == roman(rest));
            assert(tail[0] == letters[1]);
            assert(roman_value(tail) == rest + letter_value(letters[1]));
        }
    }
}

/// A rendered counter is never empty and never holds a percent sign.
pub proof fn counter_text_is_proper(fmt: Seq<char>, n: u32)
    ensures
        counter_text(fmt, n).len() > 0,
        !counter_text(fmt, n).contains('%'),
{
    roman_is_in_letters(n as nat);
    text::decimal_reads_back(n as nat);
    let s = counter_text(fmt, n);
    assert forall|i: int| 0 <= i < s.len() implies s[i] != '%' by {
        if fmt == "lowerRoman"@ {
            assert(roman_numeral(n as nat)[i] != '%');
        }
    }
}

proof fn roman_is_in_letters(n: nat)
    ensures
        n > 0 ==> roman(n).len() > 0,
        forall|i: int| 0 <= i < roman(n).len() ==> 'A' <= #[trigger] roman(n)[i],
    decreases n,
{
    if n > 0 {
        let (value, letters) = roman_step(n);
        let rest = (n - value) as nat;
        roman_is_in_letters(rest);
        assert forall|i: int| 0 <= i < roman(n).len() implies 'A' <= #[trigger] roman(n)[i] by {
            if i < letters.len() {
                assert(roman(n)[i] == letters[i]);
            } else {
                assert(roman(n)[i] == roman(rest)[i - letters.len()]);
            }
        }
    }
}

// ---------------------------------------------------------------------------
// What the number formats mean
// ---------------------------------------------------------------------------

proof fn formats_differ()
    ensures
        "lowerLetter"@ != "upperLetter"@,
        "lowerLetter"@ != "lowerRoman"@,
        "lowerLetter"@ != "upperRoman"@,
        "upperLetter"@ != "lowerRoman"@,
        "upperLetter"@ != "upperRoman"@,
        "lowerRoman"@ != "upperRoman"@,
        "lowerLetter"@ != "decimalEnclosedCircleChinese"@,
        "lowerLetter"@ != "decimalEnclosedCircle"@,
        "lowerLetter"@ != "chineseCounting"@,
        "lowerLetter"@ != "chineseCountingThousand"@,
        "lowerLetter"@ != "chineseLegalSimplified"@,
        "upperLetter"@ != "decimalEnclosedCircleChinese"@,
        "upperLetter"@ != "decimalEnclosedCircle"@,
        "upperLetter"@ != "chineseCounting"@,
        "upperLetter"@ != "chineseCountingThousand"@,
        "upperLetter"@ != "chineseLegalSimplified"@,
        "lowerRoman"@ != "decimalEnclosedCircleChinese"@,
        "lowerRoman"@ != "decimalEnclosedCircle"@,
        "lowerRoman"@ != "chineseCounting"@,
        "lowerRoman"@ != "chineseCountingThousand"@,
        "lowerRoman"@ != "chineseLegalSimplified"@,
        "upperRoman"@ != "decimalEnclosedCircleChinese"@,
        "upperRoman"@ != "decimalEnclosedCircle"@,
        "upperRoman"@ != "chineseCounting"@,
        "upperRoman"@ != "chineseCountingThousand"@,
        "upperRoman"@ != "chineseLegalSimplified"@,
        "decimalEnclosedCircleChinese"@ != "chineseCounting"@,
        "decimalEnclosedCircleChinese"@ != "chineseCountingThousand"@,
        "decimalEnclosedCircleChinese"@ != "chineseLegalSimplified"@,
        "decimalEnclosedCircle"@ != "chineseCounting"@,
        "decimalEnclosedCircle"@ != "chineseCountingThousand"@,
        "decimalEnclosedCircle"@ != "chineseLegalSimplified"@,
        "decimal"@ != "lowerLetter"@,
        "decimal"@ != "upperLetter"@,
        "decimal"@ != "lowerRoman"@,
        "decimal"@ != "upperRoman"@,
        "decimal"@ != "decimalEnclosedCircleChinese"@,
        "decimal"@ != "decimalEnclosedCircle"@,
        "decimal"@ != "chineseCounting"@,
        "decimal"@ != "chineseCountingThousand"@,
        "decimal"@ != "chineseLegalSimplified"@,
        "decimalZero"@ != "lowerLetter"@,
        "decimalZero"@ != "upperLetter"@,
        "decimalZero"@ != "lowerRoman"@,
        "decimalZero"@ != "upperRoman"@,
        "decimalZero"@ != "decimalEnclosedCircleChinese"@,
        "decimalZero"@ != "decimalEnclosedCircle"@,
        "decimalZero"@ != "chineseCounting"@,
        "decimalZero"@ != "chineseCountingThousand"@,
        "decimalZero"@ != "chineseLegalSimplified"@,
{
    reveal_strlit("lowerLetter");
    assert("lowerLetter"@.len() == 11);
    reveal_strlit("upperLetter");
    assert("upperLetter"@.len() == 11);
    reveal_strlit("lowerRoman");
    assert("lowerRoman"@.len() == 10);
    reveal_strlit("upperRoman");
    assert("upperRoman"@.len() == 10);
    reveal_strlit("decimalEnclosedCircleChinese");
    assert("decimalEnclosedCircleChinese"@.len() == 28);
    reveal_strlit("decimalEnclosedCircle");
    assert("decimalEnclosedCircle"@.len() == 21);
    reveal_strlit("chineseCounting");
    assert("chineseCounting"@.len() == 15);
    reveal_strlit("chineseCountingThousand");
    assert("chineseCountingThousand"@.len() == 23);
    reveal_strlit("chineseLegalSimplified");
    assert("chineseLegalSimplified"@.len() == 22);
    reveal_strlit("decimal");
    assert("decimal"@.len() == 7);
    reveal_strlit("decimalZero");
    assert("decimalZero"@.len() == 11);
    assert("lowerLetter"@[0] != "upperLetter"@[0]);
    assert("lowerRoman"@[0] != "upperRoman"@[0]);
    assert("decimalZero"@[0] != "lowerLetter"@[0]);
    assert("decimalZero"@[0] != "upperLetter"@[0]);
}

/// The letter formats go through the alphabet in its order.
pub proof fn letters_go_through_the_alphabet(n: u32)
    requires
        1 <= n <= 26,
    ensures
        counter_text("lowerLetter"@, n) == seq![seq![
            'a', 'b', 'c', 'd', 'e', 'f', 'g', 'h', 'i', 'j', 'k', 'l', 'm',
            'n', 'o', 'p', 'q', 'r', 's', 't', 'u', 'v', 'w', 'x', 'y', 'z',
        ][n - 1]],
        counter_text("upperLetter"@, n) == seq![seq![
            'A', 'B', 'C', 'D', 'E', 'F', 'G', 'H', 'I', 'J', 'K', 'L', 'M',
            'N', 'O', 'P', 'Q', 'R', 'S', 'T', 'U', 'V', 'W', 'X', 'Y', 'Z',
        ][n - 1]],
{
    formats_differ();
}

/// The circled formats show the circled numbers from one to twenty in their order.
pub proof fn circled_numbers_go_to_twenty(n: u32)
    requires
        1 <= n <= 20,
    ensures
        ({
            let signs = seq![
                '①', '②', '③', '④', '⑤', '⑥', '⑦', '⑧', '⑨', '⑩',
                '⑪', '⑫', '⑬', '⑭', '⑮', '⑯', '⑰', '⑱', '⑲', '⑳',
            ];
            &&& counter_text("decimalEnclosedCircle"@, n) == seq![signs[n - 1]]
            &&& counter_text("decimalEnclosedCircleChinese"@, n) == seq![signs[n - 1]]
        }),
{
    formats_differ();
}

/// The Chinese formats show the Chinese digits from zero to nine in their order.
pub proof fn chinese_digits_go_to_nine(n: u32)
    requires
        n <= 9,
    ensures
        ({
            let signs = seq!['零', '一', '二', '三', '四', '五', '六', '七', '八', '九'];
            &&& counter_text("chineseCounting"@, n) == seq![signs[n as int]]
            &&& counter_text("chineseCountingThousand"@, n) == seq![signs[n as int]]
            &&& counter_text("chineseLegalSimplified"@, n) == seq![signs[n as int]]
        }),
{
    formats_differ();
}

/// The decimal formats show every value in decimal notation, and so do the formats that
/// have signs for some values where they have none, and formats that are not known.
pub proof fn other_values_are_decimal(fmt: Seq<char>, n: u32)
    requires
        fmt != "lowerRoman"@,
        fmt != "upperRoman"@,
        fmt == "lowerLetter"@ || fmt == "upperLetter"@ ==> n == 0 || n > 26,
        fmt == "decimalEnclosedCircle"@ || fmt == "decimalEnclosedCircleChinese"@ ==> n == 0 || n
            > 20,
        fmt == "chineseCounting"@ || fmt == "chineseCountingThousand"@ || fmt
            == "chineseLegalSimplified"@ ==> n > 9,
    ensures
        counter_text(fmt, n) == text::decimal(n as nat),
        counter_text("decimal"@, n) == text::decimal(n as nat),
        counter_text("decimalZero"@, n) == text::decimal(n as nat),
{
    formats_differ();
}

/// The hundreds of a Roman numeral.
#[verifier::opaque]
spec fn roman_hundreds(d: int) -> Seq<char> {
    seq![
        Seq::<char>::empty(),
        seq!['C'],
        seq!['C', 'C'],
        seq!['C', 'C', 'C'],
        seq!['C', 'D'],
        seq!['D'],
        seq!['D', 'C'],
        seq!['D', 'C', 'C'],
        seq!['D', 'C', 'C', 'C'],
        seq!['C', 'M'],
    ][d]
}

/// The tens of a Roman numeral.
#[verifier::opaque]
spec fn roman_tens(d: int) -> Seq<char> {
    seq![
        Seq::<char>::empty(),
        seq!['X'],
        seq!['X', 'X'],
        seq!['X', 'X', 'X'],
        seq!['X', 'L'],
        seq!['L'],
        seq!['L', 'X'],
        seq!['L', 'X', 'X'],
        seq!['L', 'X', 'X', 'X'],
        seq!['X', 'C'],
    ][d]
}

/// The units of a Roman numeral.
#[verifier::opaque]
spec fn roman_units(d: int) -> Seq<char> {
    seq![
        Seq::<char>::empty(),
        seq!['I'],
        seq!['I', 'I'],
        seq!['I', 'I', 'I'],
        seq!['I', 'V'],
        seq!['V'],
        seq!['V', 'I'],
        seq!['V', 'I', 'I'],
        seq!['V', 'I', 'I', 'I'],
        seq!['I', 'X'],
    ][d]
}

/// A number below a thousand starts with its hundreds.
#[verifier::rlimit(40)]
#[verifier::spinoff_prover]
proof fn hundreds(n: nat)
    requires
        n < 1000,
    ensures
        roman(n) == roman_hundreds((n / 100) as int) + roman(n % 100),
    decreases n,
{
    reveal(roman_hundreds);
    let d = (n / 100) as int;
    let rest = roman(n % 100);
    if n >= 900 {
        assert(roman(n) == seq!['C', 'M'] + rest);
    } else if n >= 500 {
        hundreds((n - 500) as nat);
        assert(roman(n) == seq!['D'] + roman((n - 500) as nat));
        assert(seq!['D'] + (roman_hundreds(d - 5) + rest) == roman_hundreds(d) + rest);
    } else if n >= 400 {
        assert(roman(n) == seq!['C', 'D'] + rest);
    } else if n >= 100 {
        hundreds((n - 100) as nat);
        assert(roman(n) == seq!['C'] + roman((n - 100) as nat));
        assert(seq!['C'] + (roman_hundreds(d - 1) + rest) == roman_hundreds(d) + rest);
    } else {
        assert(roman_hundreds(0) + rest == rest);
    }
}

/// A number below a hundred starts with its tens.
#[verifier::rlimit(40)]
#[verifier::spinoff_prover]
proof fn tens(n: nat)
    requires
        n < 100,
    ensures
        roman(n) == roman_tens((n / 10) as int) + roman(n % 10),
    decreases n,
{
    reveal(roman_tens);
    let d = (n / 10) as int;
    let rest = roman(n % 10);
    if n >= 90 {
        assert(roman(n) == seq!['X', 'C'] + rest);
    } else if n >= 50 {
        tens((n - 50) as nat);
        assert(roman(n) == seq!['L'] + roman((n - 50) as nat));
        assert(seq!['L'] + (roman_tens(d - 5) + rest) == roman_tens(d) + rest);
    } else if n >= 40 {
        assert(roman(n) == seq!['X', 'L'] + rest);
    } else if n >= 10 {
        tens((n - 10) as nat);
        assert(roman(n) == seq!['X'] + roman((n - 10) as nat));
        assert(seq!['X'] + (roman_tens(d - 1) + rest) == roman_tens(d) + rest);
    } else {
        assert(roman_tens(0) + rest == rest);
    }
}

/// A number below ten is its units.
#[verifier::rlimit(40)]
#[verifier::spinoff_prover]
proof fn units(n: nat)
    requires
        n < 10,
    ensures
        roman(n) == roman_units((n / 1) as int) + roman(n % 1),
    decreases n,
{
    reveal(roman_units);
    let d = (n / 1) as int;
    let rest = roman(n % 1);
    if n >= 9 {
        assert(roman(n) == seq!['I', 'X'] + rest);
    } else if n >= 5 {
        units((n - 5) as nat);
        assert(roman(n) == seq!['V'] + roman((n - 5) as nat));
        assert(seq!['V'] + (roman_units(d - 5) + rest) == roman_units(d) + rest);
    } else if n >= 4 {
        assert(roman(n) == seq!['I', 'V'] + rest);
    } else if n >= 1 {
        units((n - 1) as nat);
        assert(roman(n) == seq!['I'] + roman((n - 1) as nat));
        assert(seq!['I'] + (roman_units(d - 1) + rest) == roman_units(d) + rest);
    } else {
        assert(roman_units(0) + rest == rest);
    }
}

proof fn thousand_less(n: nat)
    requires
        n >= 1000,
    ensures
        n / 1000 == (n - 1000) / 1000 + 1,
        n / 100 % 10 == (n - 1000) / 100 % 10,
        n / 10 % 10 == (n - 1000) / 10 % 10,
        n % 10 == (n - 1000) % 10,
{
    assert(n / 100 == (n - 1000) / 100 + 10);
    assert(n / 10 == (n - 1000) / 10 + 100);
}

proof fn three_places(many: Seq<char>, h: Seq<char>, t: Seq<char>, u: Seq<char>)
    ensures
        h + (t + (u + Seq::<char>::empty())) == h + t + u,
        seq!['M'] + (many + h + t + u) == (seq!['M'] + many) + h + t + u,
        many.len() == 0 ==> many + h + t + u == h + t + u,
{
    assert(h + (t + (u + Seq::<char>::empty())) == h + t + u);
    assert(seq!['M'] + (many + h + t + u) == (seq!['M'] + many) + h + t + u);
    if many.len() == 0 {
        assert(many + h == h);
    }
}

#[verifier::rlimit(60)]
#[verifier::spinoff_prover]
proof fn below_a_thousand(n: nat)
    requires
        n < 1000,
    ensures
        roman(n) == roman_hundreds((n / 100) as int) + (roman_tens((n / 10 % 10) as int) + (
        roman_units((n % 10) as int) + Seq::<char>::empty())),
{
    hundreds(n);
    tens(n % 100);
    units(n % 10);
    assert(n % 100 / 10 == n / 10 % 10);
    assert(n % 100 % 10 == n % 10);
    assert(n % 10 / 1 == n % 10);
    assert((n % 10) % 1 == 0);
}

#[verifier::rlimit(60)]
#[verifier::spinoff_prover]
proof fn roman_by_place(n: nat)
    ensures
        roman(n) == Seq::new(n / 1000, |k: int| 'M') + roman_hundreds((n / 100 % 10) as int)
            + roman_tens((n / 10 % 10) as int) + roman_units((n % 10) as int),
    decreases n,
{
    let h = roman_hundreds((n / 100 % 10) as int);
    let t = roman_tens((n / 10 % 10) as int);
    let u = roman_units((n % 10) as int);
    let many = Seq::new(n / 1000, |k: int| 'M');
    if n >= 1000 {
        let m = (n - 1000) as nat;
        roman_by_place(m);
        thousand_less(n);
        let fewer = Seq::new(m / 1000, |k: int| 'M');
        three_places(fewer, h, t, u);
        assert(many =~= seq!['M'] + fewer);
    } else {
        below_a_thousand(n);
        assert(n / 100 % 10 == n / 100);
        three_places(many, h, t, u);
    }
}

/// A counter in capital Roman numerals: an `M` for each thousand, and then the hundreds,
/// the tens and the units as they are always written. Zero is shown as `I`.
#[verifier::spinoff_prover]
pub proof fn capital_roman_numerals_by_place(n: u32)
    ensures
        ({
            let hundreds =
                seq![
                    Seq::<char>::empty(),
                    seq!['C'],
                    seq!['C', 'C'],
                    seq!['C', 'C', 'C'],
                    seq!['C', 'D'],
                    seq!['D'],
                    seq!['D', 'C'],
                    seq!['D', 'C', 'C'],
                    seq!['D', 'C', 'C', 'C'],
                    seq!['C', 'M'],
                ];
            let tens =
                seq![
                    Seq::<char>::empty(),
                    seq!['X'],
                    seq!['X', 'X'],
                    seq!['X', 'X', 'X'],
                    seq!['X', 'L'],
                    seq!['L'],
                    seq!['L', 'X'],
                    seq!['L', 'X', 'X'],
                    seq!['L', 'X', 'X', 'X'],
                    seq!['X', 'C'],
                ];
            let units =
                seq![
                    Seq::<char>::empty(),
                    seq!['I'],
                    seq!['I', 'I'],
                    seq!['I', 'I', 'I'],
                    seq!['I', 'V'],
                    seq!['V'],
                    seq!['V', 'I'],
                    seq!['V', 'I', 'I'],
                    seq!['V', 'I', 'I', 'I'],
                    seq!['I', 'X'],
                ];
            let shown = counter_text("upperRoman"@, n);
            if n == 0 {
                shown == seq!['I']
            } else {
                shown == Seq::new((n / 1000) as nat, |k: int| 'M') + hundreds[(n / 100 % 10) as int]
                    + tens[(n / 10 % 10) as int] + units[(n % 10) as int]
            }
        }),
{
    reveal(roman_hundreds);
    reveal(roman_tens);
    reveal(roman_units);
    formats_differ();
    roman_by_place(n as nat);
}

/// A text with each ASCII capital made small.
spec fn small(s: Seq<char>) -> Seq<char> {
    s.map_values(|c: char| text::ascii_lower(c))
}

proof fn small_add(a: Seq<char>, b: Seq<char>)
    ensures
        small(a + b) == small(a) + small(b),
{
    assert(small(a + b) == small(a) + small(b));
}

#[verifier::spinoff_prover]
proof fn small_hundreds(d: int)
    requires
        0 <= d < 10,
    ensures
        small(roman_hundreds(d)) ==
            seq![
                Seq::<char>::empty(),
                seq!['c'],
                seq!['c', 'c'],
                seq!['c', 'c', 'c'],
                seq!['c', 'd'],
                seq!['d'],
                seq!['d', 'c'],
                seq!['d', 'c', 'c'],
                seq!['d', 'c', 'c', 'c'],
                seq!['c', 'm'],
            ][d],
{
    reveal(roman_hundreds);
    let capital = roman_hundreds(d);
    let table =
        seq![
            Seq::<char>::empty(),
            seq!['c'],
            seq!['c', 'c'],
            seq!['c', 'c', 'c'],
            seq!['c', 'd'],
            seq!['d'],
            seq!['d', 'c'],
            seq!['d', 'c', 'c'],
            seq!['d', 'c', 'c', 'c'],
            seq!['c', 'm'],
        ];
    assert(small(capital).len() == table[d].len());
    assert(small(capital) =~= table[d]);
}

#[verifier::spinoff_prover]
proof fn small_tens(d: int)
    requires
        0 <= d < 10,
    ensures
        small(roman_tens(d)) ==
            seq![
                Seq::<char>::empty(),
                seq!['x'],
                seq!['x', 'x'],
                seq!['x', 'x', 'x'],
                seq!['x', 'l'],
                seq!['l'],
                seq!['l', 'x'],
                seq!['l', 'x', 'x'],
                seq!['l', 'x', 'x', 'x'],
                seq!['x', 'c'],
            ][d],
{
    reveal(roman_tens);
    let capital = roman_tens(d);
    let table =
        seq![
            Seq::<char>::empty(),
            seq!['x'],
            seq!['x', 'x'],
            seq!['x', 'x', 'x'],
            seq!['x', 'l'],
            seq!['l'],
            seq!['l', 'x'],
            seq!['l', 'x', 'x'],
            seq!['l', 'x', 'x', 'x'],
            seq!['x', 'c'],
        ];
    assert(small(capital).len() == table[d].len());
    assert(small(capital) =~= table[d]);
}

#[verifier::spinoff_prover]
proof fn small_units(d: int)
    requires
        0 <= d < 10,
    ensures
        small(roman_units(d)) ==
            seq![
                Seq::<char>::empty(),
                seq!['i'],
                seq!['i', 'i'],
                seq!['i', 'i', 'i'],
                seq!['i', 'v'],
                seq!['v'],
                seq!['v', 'i'],
                seq!['v', 'i', 'i'],
                seq!['v', 'i', 'i', 'i'],
                seq!['i', 'x'],
            ][d],
{
    reveal(roman_units);
    let capital = roman_units(d);
    let table =
        seq![
            Seq::<char>::empty(),
            seq!['i'],
            seq!['i', 'i'],
            seq!['i', 'i', 'i'],
            seq!['i', 'v'],
            seq!['v'],
            seq!['v', 'i'],
            seq!['v', 'i', 'i'],
            seq!['v', 'i', 'i', 'i'],
            seq!['i', 'x'],
        ];
    assert(small(capital).len() == table[d].len());
    assert(small(capital) =~= table[d]);
}

proof fn small_thousands(n: nat)
    ensures
        small(Seq::new(n, |k: int| 'M')) == Seq::new(n, |k: int| 'm'),
{
    assert(small(Seq::new(n, |k: int| 'M')) =~= Seq::new(n, |k: int| 'm'));
}

proof fn small_roman(n: u32)
    ensures
        counter_text("lowerRoman"@, n) == small(roman_numeral(n as nat)),
{
    formats_differ();
}

/// A counter in small Roman numerals: the same in small letters.
#[verifier::spinoff_prover]
pub proof fn small_roman_numerals_by_place(n: u32)
    ensures
        ({
            let hundreds =
                seq![
                    Seq::<char>::empty(),
                    seq!['c'],
                    seq!['c', 'c'],
                    seq!['c', 'c', 'c'],
                    seq!['c', 'd'],
                    seq!['d'],
                    seq!['d', 'c'],
                    seq!['d', 'c', 'c'],
                    seq!['d', 'c', 'c', 'c'],
                    seq!['c', 'm'],
                ];
            let tens =
                seq![
                    Seq::<char>::empty(),
                    seq!['x'],
                    seq!['x', 'x'],
                    seq!['x', 'x', 'x'],
                    seq!['x', 'l'],
                    seq!['l'],
                    seq!['l', 'x'],
                    seq!['l', 'x', 'x'],
                    seq!['l', 'x', 'x', 'x'],
                    seq!['x', 'c'],
                ];
            let units =
                seq![
                    Seq::<char>::empty(),
                    seq!['i'],
                    seq!['i', 'i'],
                    seq!['i', 'i', 'i'],
                    seq!['i', 'v'],
                    seq!['v'],
                    seq!['v', 'i'],
                    seq!['v', 'i', 'i'],
                    seq!['v', 'i', 'i', 'i'],
                    seq!['i', 'x'],
                ];
            let shown = counter_text("lowerRoman"@, n);
            if n == 0 {
                shown == seq!['i']
            } else {
                shown == Seq::new((n / 1000) as nat, |k: int| 'm') + hundreds[(n / 100 % 10) as int]
                    + tens[(n / 10 % 10) as int] + units[(n % 10) as int]
            }
        }),
{
    small_roman(n);
    if n > 0 {
        let h = (n / 100 % 10) as int;
        let t = (n / 10 % 10) as int;
        let u = (n % 10) as int;
        let many = Seq::new((n / 1000) as nat, |k: int| 'M');
        roman_by_place(n as nat);
        small_add(many + roman_hundreds(h) + roman_tens(t), roman_units(u));
        small_add(many + roman_hundreds(h), roman_tens(t));
        small_add(many, roman_hundreds(h));
        small_thousands((n / 1000) as nat);
        small_hundreds(h);
        small_tens(t);
        small_units(u);
    } else {
        assert(small(seq!['I']) =~= seq!['i']);
    }
}

} // verus!
