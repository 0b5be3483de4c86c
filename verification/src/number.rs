//! Numbers as text: decimal and hexadecimal out, decimal in.

use crate::text;
use crate::text::chars_of;
use vstd::prelude::*;

verus! {

// ------------------------------------------------------------------------------------------
//  Writing
// ------------------------------------------------------------------------------------------

/// The decimal digit for `d`, where `0 <= d < 10`.
pub open spec fn digit(d: int) -> char {
    ((48 + d) as u8) as char
}

/// `n` in decimal, without leading zeros.
pub open spec fn decimal(n: nat) -> Seq<char>
    decreases n,
{
    if n < 10 {
        seq![digit(n as int)]
    } else {
        decimal(n / 10).push(digit((n % 10) as int))
    }
}

/// `n` in decimal, with a leading minus where it is negative.
pub open spec fn signed_decimal(n: int) -> Seq<char> {
    if n < 0 {
        seq!['-'] + decimal((-n) as nat)
    } else {
        decimal(n as nat)
    }
}

/// Appends `n` in decimal.
pub fn push_decimal(out: &mut String, n: u64)
    ensures
        final(out)@ == old(out)@ + decimal(n as nat),
    decreases n,
{
    let ghost start = out@;
    if n >= 10 {
        push_decimal(out, n / 10);
    }
    let d: u8 = 48 + (n % 10) as u8;
    out.push(d as char);
    assert(out@ =~= start + decimal(n as nat));
}

/// `n` in decimal.
pub fn decimal_text(n: u64) -> (s: String)
    ensures
        s@ == decimal(n as nat),
{
    let mut s = String::new();
    push_decimal(&mut s, n);
    assert(s@ =~= decimal(n as nat));
    s
}

/// `before`, then `n` in decimal, then `after`.
pub fn number_between(before: &str, n: u64, after: &str) -> (s: String)
    ensures
        s@ == before@ + decimal(n as nat) + after@,
{
    let mut s = before.to_owned();
    push_decimal(&mut s, n);
    s.append(after);
    s
}

/// A number that may be missing, as a report shows it.
pub open spec fn optional(n: Option<nat>) -> Seq<char> {
    match n {
        None => "None"@,
        Some(n) => "Some("@ + decimal(n) + ")"@,
    }
}

/// Appends a number that may be missing.
pub fn push_optional(out: &mut String, n: Option<u64>)
    ensures
        final(out)@ == old(out)@ + optional(
            match n {
                None => None,
                Some(n) => Some(n as nat),
            },
        ),
{
    let ghost start = out@;
    match n {
        None => {
            out.append("None");
        },
        Some(n) => {
            out.append("Some(");
            push_decimal(out, n);
            out.append(")");
            assert(out@ =~= start + optional(Some(n as nat)));
        },
    }
}

/// `n` in decimal behind some words.
pub fn number_behind(before: &str, n: u64) -> (s: String)
    ensures
        s@ == before@ + decimal(n as nat),
{
    let mut s = before.to_owned();
    push_decimal(&mut s, n);
    s
}

/// `n` in decimal, with a leading minus where it is negative.
pub fn signed_text(n: i64) -> (s: String)
    ensures
        s@ == signed_decimal(n as int),
{
    let mut s = String::new();
    if n < 0 {
        s.push('-');
        let m: u64 = (-(n + 1)) as u64 + 1;
        push_decimal(&mut s, m);
        assert(s@ =~= seq!['-'] + decimal((-n) as nat));
    } else {
        push_decimal(&mut s, n as u64);
        assert(s@ =~= decimal(n as nat));
    }
    s
}

/// The hexadecimal digit for `d`, where `0 <= d < 16`, in capitals or small letters.
pub open spec fn hex_digit(d: int, capital: bool) -> char {
    if d < 10 {
        ((48 + d) as u8) as char
    } else if capital {
        ((55 + d) as u8) as char
    } else {
        ((87 + d) as u8) as char
    }
}

/// The last `width` hexadecimal digits of `n`, zeros included.
pub open spec fn hex_fixed(n: nat, width: nat, capital: bool) -> Seq<char>
    decreases width,
{
    if width == 0 {
        seq![]
    } else {
        hex_fixed(n / 16, (width - 1) as nat, capital).push(hex_digit((n % 16) as int, capital))
    }
}

/// `n` in hexadecimal, without leading zeros.
pub open spec fn hex(n: nat, capital: bool) -> Seq<char>
    decreases n,
{
    if n < 16 {
        seq![hex_digit(n as int, capital)]
    } else {
        hex(n / 16, capital).push(hex_digit((n % 16) as int, capital))
    }
}

fn hex_char(d: u8, capital: bool) -> (c: char)
    requires
        d < 16,
    ensures
        c == hex_digit(d as int, capital),
{
    if d < 10 {
        (48 + d) as char
    } else if capital {
        (55 + d) as char
    } else {
        (87 + d) as char
    }
}

/// Appends the last `width` hexadecimal digits of `n`.
pub fn push_hex_fixed(out: &mut String, n: u64, width: u8, capital: bool)
    ensures
        final(out)@ == old(out)@ + hex_fixed(n as nat, width as nat, capital),
    decreases width,
{
    let ghost start = out@;
    if width > 0 {
        push_hex_fixed(out, n / 16, width - 1, capital);
        let c = hex_char((n % 16) as u8, capital);
        out.push(c);
    }
    assert(out@ =~= start + hex_fixed(n as nat, width as nat, capital));
}

/// Appends `n` in hexadecimal.
pub fn push_hex(out: &mut String, n: u64, capital: bool)
    ensures
        final(out)@ == old(out)@ + hex(n as nat, capital),
    decreases n,
{
    let ghost start = out@;
    if n >= 16 {
        push_hex(out, n / 16, capital);
    }
    let c = hex_char((n % 16) as u8, capital);
    out.push(c);
    assert(out@ =~= start + hex(n as nat, capital));
}

// ------------------------------------------------------------------------------------------
//  Reading
// ------------------------------------------------------------------------------------------

/// An ASCII decimal digit.
pub open spec fn is_digit(c: char) -> bool {
    '0' <= c <= '9'
}

/// Every character is an ASCII decimal digit.
pub open spec fn all_digits(s: Seq<char>) -> bool {
    forall|i: int| 0 <= i < s.len() ==> is_digit(#[trigger] s[i])
}

/// The number that a row of decimal digits denotes.
pub open spec fn value(s: Seq<char>) -> nat
    decreases s.len(),
{
    if s.len() == 0 {
        0
    } else {
        value(s.drop_last()) * 10 + (s.last() as nat - 48) as nat
    }
}

/// The number that `s` denotes: one or more decimal digits whose value is at most `max`.
pub open spec fn digits_value(s: Seq<char>, max: nat) -> Option<nat> {
    if s.len() > 0 && all_digits(s) && value(s) <= max {
        Some(value(s))
    } else {
        None
    }
}

/// An unsigned number as text: decimal digits after at most one plus sign.
pub open spec fn unsigned_value(s: Seq<char>, max: nat) -> Option<nat> {
    if s.len() > 0 && s[0] == '+' {
        digits_value(s.skip(1), max)
    } else {
        digits_value(s, max)
    }
}

/// A signed 64-bit number as text: decimal digits after at most one sign.
pub open spec fn signed_value(s: Seq<char>) -> Option<int> {
    if s.len() > 0 && s[0] == '-' {
        match digits_value(s.skip(1), 0x8000_0000_0000_0000) {
            Some(m) => Some(-(m as int)),
            None => None,
        }
    } else {
        match unsigned_value(s, i64::MAX as nat) {
            Some(m) => Some(m as int),
            None => None,
        }
    }
}

proof fn lemma_value_grows(s: Seq<char>, k: int)
    requires
        0 <= k <= s.len(),
    ensures
        value(s.take(k)) <= value(s),
    decreases s.len() - k,
{
    if k == s.len() {
        assert(s.take(k) =~= s);
    } else {
        lemma_value_grows(s, k + 1);
        assert(s.take(k + 1).drop_last() =~= s.take(k));
    }
}

fn read_digits(v: &Vec<char>, from: usize, max: u64) -> (n: Option<u64>)
    requires
        from <= v@.len(),
    ensures
        match n {
            Some(x) => digits_value(v@.skip(from as int), max as nat) == Some(x as nat),
            None => digits_value(v@.skip(from as int), max as nat) is None,
        },
{
    let ghost d = v@.skip(from as int);
    if from == v.len() {
        return None;
    }
    let mut i: usize = from;
    let mut acc: u64 = 0;
    while i < v.len()
        invariant
            from <= i <= v@.len(),
            d == v@.skip(from as int),
            d.len() > 0,
            acc == value(d.take(i - from)),
            acc <= max,
            forall|k: int| 0 <= k < i - from ==> is_digit(#[trigger] d[k]),
        decreases v.len() - i,
    {
        let c = v[i];
        assert(d[i - from] == c);
        if c < '0' || c > '9' {
            assert(!is_digit(d[i - from]));
            return None;
        }
        let x: u64 = (c as u32 - 48) as u64;
        assert(d.take(i - from + 1).drop_last() =~= d.take(i - from));
        assert(value(d.take(i - from + 1)) == acc * 10 + x);
        if x > max || acc > max / 10 || acc * 10 > max - x {
            proof {
                lemma_value_grows(d, i - from + 1);
                assert(value(d.take(i - from + 1)) > max);
            }
            return None;
        }
        acc = acc * 10 + x;
        i = i + 1;
    }
    assert(d.take(d.len() as int) =~= d);
    Some(acc)
}

/// Reads an unsigned number of at most `max`.
pub fn parse_unsigned(s: &str, max: u64) -> (n: Option<u64>)
    ensures
        match n {
            Some(x) => unsigned_value(s@, max as nat) == Some(x as nat),
            None => unsigned_value(s@, max as nat) is None,
        },
{
    let v = chars_of(s);
    if v.len() > 0 && v[0] == '+' {
        read_digits(&v, 1, max)
    } else {
        assert(v@.skip(0) =~= v@);
        read_digits(&v, 0, max)
    }
}

/// Reads a signed 64-bit number.
pub fn parse_signed(s: &str) -> (n: Option<i64>)
    ensures
        match n {
            Some(x) => signed_value(s@) == Some(x as int),
            None => signed_value(s@) is None,
        },
{
    let v = chars_of(s);
    if v.len() > 0 && v[0] == '-' {
        match read_digits(&v, 1, 0x8000_0000_0000_0000) {
            Some(m) => {
                if m == 0x8000_0000_0000_0000 {
                    Some(i64::MIN)
                } else {
                    Some(-(m as i64))
                }
            },
            None => None,
        }
    } else {
        match parse_unsigned(s, i64::MAX as u64) {
            Some(m) => Some(m as i64),
            None => None,
        }
    }
}

/// The first thing wrong with a row of digits from a position on: `true` where the digits so far
/// are more than `max`, `false` where a character is no digit.
pub open spec fn first_fault(d: Seq<char>, max: nat, from: int) -> Option<bool>
    decreases d.len() - from,
{
    if from < 0 || from >= d.len() {
        None
    } else if !is_digit(d[from]) {
        Some(false)
    } else if value(d.take(from + 1)) > max {
        Some(true)
    } else {
        first_fault(d, max, from + 1)
    }
}

/// Said of a text that is no unsigned number of at most `max`.
pub open spec fn unsigned_fault(s: Seq<char>, max: nat) -> Seq<char> {
    let d = if s.len() > 0 && s[0] == '+' {
        s.skip(1)
    } else {
        s
    };
    if s.len() == 0 {
        "cannot parse integer from empty string"@
    } else if first_fault(d, max, 0) == Some(true) {
        "number too large to fit in target type"@
    } else {
        "invalid digit found in string"@
    }
}

/// Said of a text that is no signed 64-bit number.
pub open spec fn signed_fault(s: Seq<char>) -> Seq<char> {
    if s.len() > 0 && s[0] == '-' {
        if first_fault(s.skip(1), 0x8000_0000_0000_0000, 0) == Some(true) {
            "number too small to fit in target type"@
        } else {
            "invalid digit found in string"@
        }
    } else {
        unsigned_fault(s, i64::MAX as nat)
    }
}

fn too_much(v: &Vec<char>, from: usize, max: u64) -> (yes: bool)
    requires
        from <= v@.len(),
    ensures
        yes == (first_fault(v@.skip(from as int), max as nat, 0) == Some(true)),
{
    let ghost d = v@.skip(from as int);
    let mut i: usize = from;
    let mut acc: u64 = 0;
    assert(d.take(0) =~= Seq::<char>::empty());
    while i < v.len()
        invariant
            from <= i <= v@.len(),
            d == v@.skip(from as int),
            acc == value(d.take(i - from)),
            acc <= max,
            first_fault(d, max as nat, i - from) == first_fault(d, max as nat, 0),
        decreases v.len() - i,
    {
        let c = v[i];
        assert(d[i - from] == c);
        if c < '0' || c > '9' {
            return false;
        }
        let x: u64 = (c as u32 - 48) as u64;
        assert(d.take(i - from + 1).drop_last() =~= d.take(i - from));
        assert(value(d.take(i - from + 1)) == acc * 10 + x);
        if x > max || acc > max / 10 || acc * 10 > max - x {
            return true;
        }
        acc = acc * 10 + x;
        i = i + 1;
    }
    false
}

/// Says why a text is no unsigned number of at most `max`.
pub fn explain_unsigned(s: &str, max: u64) -> (words: String)
    ensures
        words@ == unsigned_fault(s@, max as nat),
{
    let v = chars_of(s);
    if v.len() == 0 {
        return "cannot parse integer from empty string".to_owned();
    }
    let from: usize = if v[0] == '+' {
        1
    } else {
        0
    };
    assert(v@.skip(0) =~= v@);
    if too_much(&v, from, max) {
        "number too large to fit in target type".to_owned()
    } else {
        "invalid digit found in string".to_owned()
    }
}

/// Says why a text is no signed 64-bit number.
pub fn explain_signed(s: &str) -> (words: String)
    ensures
        words@ == signed_fault(s@),
{
    let v = chars_of(s);
    if v.len() > 0 && v[0] == '-' {
        if too_much(&v, 1, 0x8000_0000_0000_0000) {
            "number too small to fit in target type".to_owned()
        } else {
            "invalid digit found in string".to_owned()
        }
    } else {
        explain_unsigned(s, i64::MAX as u64)
    }
}

// ------------------------------------------------------------------------------------------
//  Which texts are real numbers
// ------------------------------------------------------------------------------------------

/// A text without one sign at its beginning.
pub open spec fn without_sign(s: Seq<char>) -> Seq<char> {
    if s.len() > 0 && (s[0] == '+' || s[0] == '-') {
        s.skip(1)
    } else {
        s
    }
}

/// Decimal digits with at most one point among them, and at least one digit.
pub open spec fn is_mantissa(m: Seq<char>) -> bool {
    let p = text::first_index(m, '.');
    let behind = if p < m.len() {
        m.skip(p + 1)
    } else {
        Seq::empty()
    };
    all_digits(m.take(p)) && all_digits(behind) && p + behind.len() > 0
}

/// Decimal digits after at most one sign, and at least one digit.
pub open spec fn is_exponent(x: Seq<char>) -> bool {
    without_sign(x).len() > 0 && all_digits(without_sign(x))
}

/// A decimal number in small letters, with or without an exponent.
pub open spec fn is_scientific(t: Seq<char>) -> bool {
    let e = text::first_index(t, 'e');
    is_mantissa(t.take(e)) && (e == t.len() || is_exponent(t.skip(e + 1)))
}

/// A text that reads as a floating-point number: after at most one sign a decimal number, an
/// infinity or not a number, in letters of any case.
pub open spec fn is_real(s: Seq<char>) -> bool {
    let t = without_sign(text::lowered(s));
    t == "inf"@ || t == "infinity"@ || t == "nan"@ || is_scientific(t)
}

fn digits_between(v: &Vec<char>, from: usize, to: usize) -> (yes: bool)
    requires
        from <= to <= v@.len(),
    ensures
        yes == all_digits(v@.subrange(from as int, to as int)),
{
    let ghost d = v@.subrange(from as int, to as int);
    for i in from..to
        invariant
            from <= to <= v@.len(),
            d == v@.subrange(from as int, to as int),
            forall|k: int| 0 <= k < i - from ==> is_digit(#[trigger] d[k]),
    {
        let c: char = v[i];
        assert(d[i - from] == c);
        if c < '0' || c > '9' {
            return false;
        }
    }
    true
}

fn mantissa_to(v: &Vec<char>, from: usize, to: usize) -> (yes: bool)
    requires
        from <= to <= v@.len(),
    ensures
        yes == is_mantissa(v@.subrange(from as int, to as int)),
{
    let ghost m = v@.subrange(from as int, to as int);
    let mut p: usize = from;
    while p < to && v[p] != '.'
        invariant
            from <= p <= to <= v@.len(),
            m == v@.subrange(from as int, to as int),
            forall|k: int| 0 <= k < p - from ==> m[k] != '.',
        decreases to - p,
    {
        assert(m[p - from] == v@[p as int]);
        p = p + 1;
    }
    proof {
        text::lemma_first_index(m, '.');
        let f = text::first_index(m, '.');
        if p < to {
            assert(m[p - from] == '.');
        }
        if f < p - from {
            assert(m[f] == '.');
        }
        assert(f == p - from);
        assert(m.take(f) =~= v@.subrange(from as int, p as int));
    }
    if !digits_between(v, from, p) {
        return false;
    }
    if p < to {
        assert(m.skip(p - from + 1) =~= v@.subrange(p + 1, to as int));
        digits_between(v, p + 1, to) && (p > from || p + 1 < to)
    } else {
        p > from
    }
}

fn exponent_from(v: &Vec<char>, from: usize) -> (yes: bool)
    requires
        from <= v@.len(),
    ensures
        yes == is_exponent(v@.skip(from as int)),
{
    let n: usize = v.len();
    let ghost x = v@.skip(from as int);
    let start: usize = if from < n && (v[from] == '+' || v[from] == '-') {
        from + 1
    } else {
        from
    };
    proof {
        if from < n {
            assert(x[0] == v@[from as int]);
        }
        assert(without_sign(x) =~= v@.subrange(start as int, n as int));
    }
    start < n && digits_between(v, start, n)
}

/// Whether a text reads as a floating-point number.
pub fn reads_as_real(s: &str) -> (yes: bool)
    ensures
        yes == is_real(s@),
{
    let l: String = text::to_ascii_lowercase(s);
    let v: Vec<char> = chars_of(l.as_str());
    let n: usize = v.len();
    let from: usize = if n > 0 && (v[0] == '+' || v[0] == '-') {
        1
    } else {
        0
    };
    let t: String = text::string_of(&v, from, n);
    let ghost w = without_sign(text::lowered(s@));
    assert(t@ =~= w);
    if text::same_text(t.as_str(), "inf") || text::same_text(t.as_str(), "infinity")
        || text::same_text(t.as_str(), "nan") {
        return true;
    }
    let e: usize = text::index_of(&v, 'e', from);
    proof {
        assert(v@.subrange(from as int, n as int) =~= w);
        text::lemma_first_index(w, 'e');
        assert(w.take(e - from) =~= v@.subrange(from as int, e as int));
    }
    if !mantissa_to(&v, from, e) {
        return false;
    }
    if e == n {
        true
    } else {
        assert(w.skip(e - from + 1) =~= v@.skip(e + 1));
        exponent_from(&v, e + 1)
    }
}

/// Said of a text that is no floating-point number.
pub open spec fn real_fault(s: Seq<char>) -> Seq<char> {
    if s.len() == 0 {
        "cannot parse float from empty string"@
    } else {
        "invalid float literal"@
    }
}

/// Says why a text is no floating-point number.
pub fn explain_real(s: &str) -> (words: String)
    ensures
        words@ == real_fault(s@),
{
    if chars_of(s).len() == 0 {
        "cannot parse float from empty string".to_owned()
    } else {
        "invalid float literal".to_owned()
    }
}

/// Reading what was written gives the number back.
pub proof fn decimal_reads_back(n: nat)
    ensures
        all_digits(decimal(n)),
        decimal(n).len() > 0,
        value(decimal(n)) == n,
    decreases n,
{
    if n < 10 {
        assert(decimal(n).drop_last() =~= Seq::<char>::empty());
        assert(value(decimal(n).drop_last()) == 0);
    } else {
        decimal_reads_back(n / 10);
        assert(decimal(n).drop_last() =~= decimal(n / 10));
    }
}

/// A number as it is written reads back, with or without a plus sign before it or zeros, as long as
/// it is small enough; a larger one is refused.
pub proof fn a_written_number_reads_back(n: nat, max: nat)
    ensures
        unsigned_value(decimal(n), max) == if n <= max {
            Some(n)
        } else {
            None
        },
        unsigned_value(seq!['+'] + decimal(n), max) == unsigned_value(decimal(n), max),
        unsigned_value(seq!['-'] + decimal(n), max) is None,
        unsigned_value(Seq::empty(), max) is None,
{
    decimal_reads_back(n);
    let s = decimal(n);
    assert(is_digit(s[0]));
    assert((seq!['+'] + s).skip(1) =~= s);
    let minus = seq!['-'] + s;
    assert(minus[0] == '-');
    assert(!is_digit(minus[0]));
}

/// A signed number as it is written reads back.
pub proof fn a_written_signed_number_reads_back(n: int)
    ensures
        signed_value(signed_decimal(n)) == if i64::MIN <= n <= i64::MAX {
            Some(n)
        } else {
            None
        },
{
    if n < 0 {
        decimal_reads_back((-n) as nat);
        assert((seq!['-'] + decimal((-n) as nat)).skip(1) =~= decimal((-n) as nat));
    } else {
        decimal_reads_back(n as nat);
        assert(is_digit(decimal(n as nat)[0]));
    }
}

/// Nothing but digits is a number: a character that is none, other than a plus sign at the
/// beginning, makes it none.
pub proof fn only_digits_make_a_number(s: Seq<char>, max: nat, i: int)
    requires
        0 <= i < s.len(),
        !('0' <= s[i] <= '9'),
        i > 0 || s[i] != '+',
    ensures
        unsigned_value(s, max) is None,
        i > 0 || s[i] != '-' ==> signed_value(s) is None,
{
    assert(!is_digit(s[i]));
    if i > 0 {
        assert(s.skip(1)[i - 1] == s[i]);
    }
}

/// A number grows tenfold by a zero behind it, and by a digit's worth for the digit.
pub proof fn a_digit_behind_a_number_counts_once(n: nat, d: nat)
    requires
        d < 10,
        n > 0,
    ensures
        decimal(10 * n + d) == decimal(n).push(((48 + d) as u8) as char),
        decimal(d) == seq![((48 + d) as u8) as char],
        decimal(n)[0] != '0',
    decreases n,
{
    if n >= 10 {
        a_digit_behind_a_number_counts_once(n / 10, n % 10);
        assert(decimal(n)[0] == decimal(n / 10)[0]);
    }
}

/// The value of a hexadecimal digit.
pub open spec fn hex_digit_value(c: char) -> int {
    if '0' <= c <= '9' {
        c as int - '0' as int
    } else if 'a' <= c <= 'f' {
        c as int - 'a' as int + 10
    } else if 'A' <= c <= 'F' {
        c as int - 'A' as int + 10
    } else {
        -1
    }
}

/// The number that hexadecimal digits denote.
pub open spec fn hex_value(s: Seq<char>) -> int
    decreases s.len(),
{
    if s.len() == 0 {
        0
    } else {
        16 * hex_value(s.drop_last()) + hex_digit_value(s.last())
    }
}

/// A number in hexadecimal reads back, in capitals as in small letters, and has no zero before it.
pub proof fn hexadecimal_reads_back(n: nat, capital: bool)
    ensures
        hex_value(hex(n, capital)) == n,
        hex(n, capital).len() > 0,
        n > 0 ==> hex(n, capital)[0] != '0',
        forall|i: int|
            0 <= i < hex(n, capital).len() ==> {
                let c = #[trigger] hex(n, capital)[i];
                '0' <= c <= '9' || (capital && 'A' <= c <= 'F') || (!capital && 'a' <= c <= 'f')
            },
    decreases n,
{
    if n < 16 {
        assert(hex(n, capital).drop_last() =~= Seq::<char>::empty());
        assert(hex_value(hex(n, capital).drop_last()) == 0);
    } else {
        hexadecimal_reads_back(n / 16, capital);
        assert(hex(n, capital).drop_last() =~= hex(n / 16, capital));
        assert(forall|i: int|
            0 <= i < hex(n / 16, capital).len() ==> hex(n, capital)[i] == hex(n / 16, capital)[i]);
    }
}

/// So many hexadecimal digits of a number read back as what is left of it.
pub proof fn hexadecimal_digits_read_back(n: nat, width: nat, capital: bool)
    ensures
        hex_fixed(n, width, capital).len() == width,
        hex_value(hex_fixed(n, width, capital)) == n % vstd::arithmetic::power::pow(16, width) as nat,
    decreases width,
{
    vstd::arithmetic::power::lemma_pow_positive(16, width);
    if width == 0 {
        vstd::arithmetic::power::lemma_pow0(16);
    } else {
        let w = (width - 1) as nat;
        hexadecimal_digits_read_back(n / 16, w, capital);
        let s = hex_fixed(n, width, capital);
        assert(s.drop_last() =~= hex_fixed(n / 16, w, capital));
        vstd::arithmetic::power::lemma_pow_positive(16, w);
        reveal(vstd::arithmetic::power::pow);
        let p = vstd::arithmetic::power::pow(16, w);
        assert(vstd::arithmetic::power::pow(16, width) == 16 * p);
        vstd::arithmetic::div_mod::lemma_mod_breakdown(n as int, 16, p);
        assert(n as int % (16 * p) == 16 * ((n as int / 16) % p) + n as int % 16);
    }
}

} // verus!
