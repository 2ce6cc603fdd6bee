//! Names and messages: the little text handling the engine needs.
//!
//! A string is read as the sequence of its characters, so every function here says what it does in
//! terms of those.

use vstd::prelude::*;

verus! {

/// `String::push` appends one character and changes nothing else.
pub assume_specification[ String::push ](s: &mut String, c: char)
    ensures
        final(s)@ == old(s)@.push(c),
;

/// A text as it is written in source code, between double quotes and with escapes where needed.
pub uninterp spec fn quoted(text: Seq<char>) -> Seq<char>;

/// A text in double quotes, through `format!` with the `Debug` form of `str`.
///
/// Claimed of it: the result depends on the text alone. How characters are escaped is left unsaid.
#[verifier::external_body]
pub(crate) fn quote(text: &str) -> (r: String)
    ensures
        r@ == quoted(text@),
{
    format!("{:?}", text)
}

/// The characters of a text.
pub fn chars_of(text: &str) -> (v: Vec<char>)
    ensures
        v@ == text@,
{
    let mut v: Vec<char> = Vec::new();
    for c in it: text.chars()
        invariant
            it.seq() == text@,
            v@ == text@.take(it.index()),
    {
        assert(text@.take(it.index() + 1) =~= text@.take(it.index()).push(c));
        v.push(c);
    }
    assert(text@.take(text@.len() as int) =~= text@);
    v
}

/// A text made of a run of characters.
pub fn text_of(chars: &Vec<char>, from: usize, to: usize) -> (r: String)
    requires
        from <= to <= chars@.len(),
    ensures
        r@ == chars@.subrange(from as int, to as int),
{
    let mut r = String::new();
    let mut i: usize = from;
    while i < to
        invariant
            from <= i <= to <= chars@.len(),
            r@ == chars@.subrange(from as int, i as int),
        decreases to - i,
    {
        assert(chars@.subrange(from as int, i + 1) =~= chars@.subrange(from as int, i as int).push(
            chars@[i as int],
        ));
        r.push(chars[i]);
        i += 1;
    }
    r
}

/// One text after another.
pub fn joined(a: &str, b: &str) -> (r: String)
    ensures
        r@ == a@ + b@,
{
    let mut r: String = a.to_owned();
    let tail = chars_of(b);
    let mut i: usize = 0;
    while i < tail.len()
        invariant
            tail@ == b@,
            i <= tail@.len(),
            r@ == a@ + b@.take(i as int),
        decreases tail@.len() - i,
    {
        assert(a@ + b@.take(i + 1) =~= (a@ + b@.take(i as int)).push(b@[i as int]));
        r.push(tail[i]);
        i += 1;
    }
    assert(b@.take(i as int) =~= b@);
    r
}

// ------------------------------------------------------------------------------------ numbers

/// The value of a decimal digit.
pub open spec fn is_digit(c: char) -> bool {
    '0' <= c <= '9'
}

/// The digit that stands for a value below ten.
pub open spec fn digit(n: nat) -> char {
    ('0' as u32 + n) as char
}

/// A number in decimal, without leading zeros.
pub open spec fn decimal(n: nat) -> Seq<char>
    decreases n,
{
    if n < 10 {
        seq![digit(n)]
    } else {
        decimal(n / 10).push(digit(n % 10))
    }
}

/// The number that a run of decimal digits stands for.
pub open spec fn value(digits: Seq<char>) -> nat
    decreases digits.len(),
{
    if digits.len() == 0 {
        0
    } else {
        value(digits.drop_last()) * 10 + (digits.last() as u32 - '0' as u32) as nat
    }
}

/// Whether a text is a run of decimal digits, at least one.
pub open spec fn all_digits(text: Seq<char>) -> bool {
    text.len() > 0 && forall|i: int| 0 <= i < text.len() ==> is_digit(#[trigger] text[i])
}

/// A text without the sign in front of a positive number.
pub open spec fn unsigned_part(text: Seq<char>) -> Seq<char> {
    if text.len() > 0 && text[0] == '+' {
        text.skip(1)
    } else {
        text
    }
}

/// The number below 2^32 that a text stands for, if it stands for one.
pub open spec fn number(text: Seq<char>) -> Option<nat> {
    let digits = unsigned_part(text);
    if all_digits(digits) && value(digits) <= u32::MAX {
        Some(value(digits))
    } else {
        None
    }
}

/// The digit that stands for a value below ten.
fn digit_char(n: u64) -> (c: char)
    requires
        n < 10,
    ensures
        c == digit(n as nat),
{
    match n {
        0 => '0',
        1 => '1',
        2 => '2',
        3 => '3',
        4 => '4',
        5 => '5',
        6 => '6',
        7 => '7',
        8 => '8',
        _ => '9',
    }
}

/// A number in decimal.
pub fn decimal_text(n: u64) -> (r: String)
    ensures
        r@ == decimal(n as nat),
    decreases n,
{
    if n < 10 {
        let mut r = String::new();
        r.push(digit_char(n));
        assert(r@ =~= seq![digit(n as nat)]);
        r
    } else {
        let mut r = decimal_text(n / 10);
        r.push(digit_char(n % 10));
        r
    }
}

/// A longer run of digits stands for no smaller a number.
proof fn lemma_value_grows(digits: Seq<char>, k: int)
    requires
        0 <= k <= digits.len(),
        forall|i: int| 0 <= i < digits.len() ==> is_digit(#[trigger] digits[i]),
    ensures
        value(digits.take(k)) <= value(digits),
    decreases digits.len() - k,
{
    if k < digits.len() {
        lemma_value_grows(digits, k + 1);
        assert(digits.take(k + 1).drop_last() =~= digits.take(k));
        assert(is_digit(digits[k]));
    } else {
        assert(digits.take(k) =~= digits);
    }
}

/// The number below 2^32 that a run of characters stands for, if it stands for one. A `+` in front
/// is allowed.
pub fn parse_number(chars: &Vec<char>, from: usize) -> (r: Option<u32>)
    requires
        from <= chars@.len(),
    ensures
        match r {
            Some(n) => number(chars@.skip(from as int)) == Some(n as nat),
            None => number(chars@.skip(from as int)) is None,
        },
{
    let ghost text = chars@.skip(from as int);
    let ghost digits = unsigned_part(text);
    let mut i: usize = from;
    if i < chars.len() && chars[i] == '+' {
        i += 1;
    }
    assert(digits =~= chars@.skip(i as int));
    if i >= chars.len() {
        return None;
    }
    let start: usize = i;
    let mut n: u32 = 0;
    while i < chars.len()
        invariant
            start <= i <= chars@.len(),
            start < chars@.len(),
            digits == chars@.skip(start as int),
            text == chars@.skip(from as int),
            digits == unsigned_part(text),
            forall|j: int| 0 <= j < i - start ==> is_digit(#[trigger] digits[j]),
            n == value(digits.take(i - start)),
        decreases chars@.len() - i,
    {
        let c = chars[i];
        assert(c == digits[i - start]);
        if c < '0' || c > '9' {
            assert(!is_digit(digits[i - start]));
            return None;
        }
        let d: u32 = c as u32 - '0' as u32;
        assert(digits.take(i - start + 1).drop_last() =~= digits.take(i - start));
        if n > 429_496_729 || (n == 429_496_729 && d > 5) {
            proof {
                if all_digits(digits) {
                    lemma_value_grows(digits, i - start + 1);
                }
            }
            return None;
        }
        n = n * 10 + d;
        i += 1;
    }
    assert(digits.take(i - start) =~= digits);
    Some(n)
}

/// Reading back a number in decimal gives the number.
pub proof fn law_decimal_reads_back(n: nat)
    requires
        n <= u32::MAX,
    ensures
        number(decimal(n)) == Some(n),
{
    lemma_decimal(n);
    assert(decimal(n)[0] != '+');
}

/// The decimal form of a number, however large, stands for that number and no other.
pub proof fn lemma_decimal_is_a_number(n: nat)
    ensures
        all_digits(unsigned_part(decimal(n))),
        value(unsigned_part(decimal(n))) == n,
{
    lemma_decimal(n);
    assert(is_digit(decimal(n)[0]));
}

/// The digits of a number are digits and stand for it.
proof fn lemma_decimal(n: nat)
    ensures
        all_digits(decimal(n)),
        value(decimal(n)) == n,
    decreases n,
{
    if n < 10 {
        let d = decimal(n);
        assert(d.drop_last() =~= Seq::<char>::empty());
        assert(value(d.drop_last()) == 0);
        assert(d.last() == digit(n));
    } else {
        lemma_decimal(n / 10);
        let d = decimal(n);
        assert(d.drop_last() =~= decimal(n / 10));
        assert forall|i: int| 0 <= i < d.len() implies is_digit(#[trigger] d[i]) by {
            if i < d.len() - 1 {
                assert(d[i] == decimal(n / 10)[i]);
            }
        }
    }
}

// ------------------------------------------------------------------------------------ matching

/// Whether a text has another in it, at a place.
pub open spec fn found_at(text: Seq<char>, pattern: Seq<char>, at: int) -> bool {
    0 <= at && at + pattern.len() <= text.len() && text.subrange(at, at + pattern.len()) == pattern
}

/// Whether a text has another in it, at a place.
pub fn matches_at(text: &Vec<char>, pattern: &Vec<char>, at: usize) -> (r: bool)
    ensures
        r == found_at(text@, pattern@, at as int),
{
    if at > text.len() || pattern.len() > text.len() - at {
        return false;
    }
    let mut i: usize = 0;
    while i < pattern.len()
        invariant
            at + pattern@.len() <= text@.len(),
            i <= pattern@.len(),
            forall|j: int| 0 <= j < i ==> text@[at + j] == #[trigger] pattern@[j],
        decreases pattern@.len() - i,
    {
        assert(text.len() == text@.len());
        if text[at + i] != pattern[i] {
            assert(text@.subrange(at as int, at + pattern@.len())[i as int] != pattern@[i as int]);
            return false;
        }
        i += 1;
    }
    assert(text@.subrange(at as int, at + pattern@.len()) =~= pattern@);
    true
}

/// The last place where a text has another in it.
pub open spec fn last_found(text: Seq<char>, pattern: Seq<char>, at: int) -> bool {
    &&& found_at(text, pattern, at)
    &&& forall|later: int| later > at ==> !#[trigger] found_at(text, pattern, later)
}

/// The last place where a text has another in it.
pub fn find_last(text: &Vec<char>, pattern: &Vec<char>) -> (r: Option<usize>)
    ensures
        match r {
            Some(at) => last_found(text@, pattern@, at as int),
            None => forall|at: int| !#[trigger] found_at(text@, pattern@, at),
        },
{
    let mut at: usize = text.len();
    while at > 0
        invariant
            at <= text@.len(),
            forall|later: int| later > at ==> !#[trigger] found_at(text@, pattern@, later),
        decreases at,
    {
        if matches_at(text, pattern, at) {
            return Some(at);
        }
        at -= 1;
    }
    if matches_at(text, pattern, at) {
        return Some(at);
    }
    None
}

/// Whether two texts are the same.
pub fn same_text(a: &str, b: &str) -> (r: bool)
    ensures
        r == (a@ == b@),
{
    let x = chars_of(a);
    let y = chars_of(b);
    if x.len() != y.len() {
        return false;
    }
    let r = matches_at(&x, &y, 0);
    assert(a@.subrange(0, b@.len() as int) =~= a@);
    r
}

// -------------------------------------------------------------------------------------- letters

/// A character with an ASCII capital made small.
pub open spec fn small(c: char) -> char {
    if 'A' <= c <= 'Z' {
        (c as u32 + 32) as char
    } else {
        c
    }
}

/// Whether two texts are the same when ASCII capitals are made small.
pub open spec fn same_letters(a: Seq<char>, b: Seq<char>) -> bool {
    a.len() == b.len() && forall|i: int| 0 <= i < a.len() ==> small(#[trigger] a[i]) == small(b[i])
}

/// Whether two characters are the same when ASCII capitals are made small.
fn same_letter(a: char, b: char) -> (r: bool)
    ensures
        r == (small(a) == small(b)),
{
    let x: u32 = if 'A' <= a && a <= 'Z' {
        a as u32 + 32
    } else {
        a as u32
    };
    let y: u32 = if 'A' <= b && b <= 'Z' {
        b as u32 + 32
    } else {
        b as u32
    };
    x == y
}

/// Whether two texts are the same when ASCII capitals are made small.
pub fn equal_ignoring_case(a: &str, b: &str) -> (r: bool)
    ensures
        r == same_letters(a@, b@),
{
    let x = chars_of(a);
    let y = chars_of(b);
    if x.len() != y.len() {
        return false;
    }
    let mut i: usize = 0;
    while i < x.len()
        invariant
            x@ == a@,
            y@ == b@,
            x@.len() == y@.len(),
            i <= x@.len(),
            forall|j: int| 0 <= j < i ==> small(#[trigger] a@[j]) == small(b@[j]),
        decreases x@.len() - i,
    {
        if !same_letter(x[i], y[i]) {
            return false;
        }
        i += 1;
    }
    true
}

// ------------------------------------------------------------------------------------ white space

/// Whether a character is white space, as Unicode has it.
pub open spec fn white(c: char) -> bool {
    ||| '\u{9}' <= c <= '\u{d}'
    ||| c == ' '
    ||| c == '\u{85}'
    ||| c == '\u{a0}'
    ||| c == '\u{1680}'
    ||| '\u{2000}' <= c <= '\u{200a}'
    ||| c == '\u{2028}'
    ||| c == '\u{2029}'
    ||| c == '\u{202f}'
    ||| c == '\u{205f}'
    ||| c == '\u{3000}'
}

/// Whether a character is white space.
pub fn is_white(c: char) -> (r: bool)
    ensures
        r == white(c),
{
    ('\u{9}' <= c && c <= '\u{d}') || c == ' ' || c == '\u{85}' || c == '\u{a0}' || c == '\u{1680}'
        || ('\u{2000}' <= c && c <= '\u{200a}') || c == '\u{2028}' || c == '\u{2029}' || c
        == '\u{202f}' || c == '\u{205f}' || c == '\u{3000}'
}

/// Whether a text is nothing but white space.
pub open spec fn all_white(text: Seq<char>) -> bool {
    forall|i: int| 0 <= i < text.len() ==> white(#[trigger] text[i])
}

/// Whether a text is nothing but white space.
pub fn is_all_white(text: &str) -> (r: bool)
    ensures
        r == all_white(text@),
{
    let chars = chars_of(text);
    let mut i: usize = 0;
    while i < chars.len()
        invariant
            chars@ == text@,
            i <= chars@.len(),
            forall|j: int| 0 <= j < i ==> white(#[trigger] text@[j]),
        decreases chars@.len() - i,
    {
        if !is_white(chars[i]) {
            return false;
        }
        i += 1;
    }
    true
}

/// A text without the white space at its two ends.
pub open spec fn trimmed(text: Seq<char>) -> Seq<char>
    decreases text.len(),
{
    if text.len() > 0 && white(text.first()) {
        trimmed(text.drop_first())
    } else if text.len() > 0 && white(text.last()) {
        trimmed(text.drop_last())
    } else {
        text
    }
}

/// Whether all that stands outside a range of a text is white space, and the range neither begins
/// nor ends with any.
spec fn trims_to(text: Seq<char>, from: int, to: int) -> bool {
    &&& 0 <= from <= to <= text.len()
    &&& forall|i: int| 0 <= i < from ==> white(#[trigger] text[i])
    &&& forall|i: int| to <= i < text.len() ==> white(#[trigger] text[i])
    &&& from < to ==> !white(text[from]) && !white(text[to - 1])
}

/// Such a range is the text without the white space at its two ends.
proof fn lemma_trimmed(text: Seq<char>, from: int, to: int)
    requires
        trims_to(text, from, to),
    ensures
        trimmed(text) == text.subrange(from, to),
    decreases text.len(),
{
    if text.len() == 0 {
        assert(text.subrange(from, to) =~= text);
    } else if white(text.first()) {
        let rest = text.drop_first();
        assert forall|i: int| 0 <= i < rest.len() implies rest[i] == text[i + 1] by {}
        if from > 0 {
            assert(trims_to(rest, from - 1, to - 1));
            lemma_trimmed(rest, from - 1, to - 1);
            assert(rest.subrange(from - 1, to - 1) =~= text.subrange(from, to));
        } else {
            assert(trims_to(rest, 0, 0));
            lemma_trimmed(rest, 0, 0);
            assert(rest.subrange(0, 0) =~= text.subrange(from, to));
        }
    } else if white(text.last()) {
        let rest = text.drop_last();
        assert(from == 0 && 0 < to < text.len());
        assert(trims_to(rest, from, to));
        lemma_trimmed(rest, from, to);
        assert(rest.subrange(from, to) =~= text.subrange(from, to));
    } else {
        assert(from == 0 && to == text.len());
        assert(text.subrange(from, to) =~= text);
    }
}

/// The range of a run of characters that is left when the white space at its two ends is taken off.
pub fn trim_range(chars: &Vec<char>, end: usize) -> (r: (usize, usize))
    requires
        end <= chars@.len(),
    ensures
        r.0 <= r.1 <= end,
        chars@.subrange(r.0 as int, r.1 as int) == trimmed(chars@.take(end as int)),
{
    let ghost text = chars@.take(end as int);
    let mut from: usize = 0;
    while from < end && is_white(chars[from])
        invariant
            from <= end <= chars@.len(),
            text == chars@.take(end as int),
            forall|i: int| 0 <= i < from ==> white(#[trigger] text[i]),
        decreases end - from,
    {
        assert(white(text[from as int]));
        from += 1;
    }
    let mut to: usize = end;
    while to > from && is_white(chars[to - 1])
        invariant
            from <= to <= end <= chars@.len(),
            text == chars@.take(end as int),
            forall|i: int| to <= i < text.len() ==> white(#[trigger] text[i]),
        decreases to - from,
    {
        assert(white(text[to - 1]));
        to -= 1;
    }
    proof {
        lemma_trimmed(text, from as int, to as int);
        assert(text.subrange(from as int, to as int) =~= chars@.subrange(from as int, to as int));
    }
    (from, to)
}

/// The first line of a text: up to its first line break, which may be a carriage return and a line
/// feed.
pub open spec fn first_line(text: Seq<char>) -> Seq<char> {
    text.take(line_end(text))
}

/// Where the first line of a text ends.
pub open spec fn line_end(text: Seq<char>) -> int {
    let n = text.index_of_first('\n');
    match n {
        None => text.len() as int,
        Some(i) => if i > 0 && text[i - 1] == '\r' {
            i - 1
        } else {
            i
        },
    }
}

/// Where the first line of a run of characters ends.
pub fn find_line_end(chars: &Vec<char>) -> (r: usize)
    ensures
        r == line_end(chars@),
        r <= chars@.len(),
{
    let mut i: usize = 0;
    while i < chars.len() && chars[i] != '\n'
        invariant
            i <= chars@.len(),
            forall|j: int| 0 <= j < i ==> chars@[j] != '\n',
        decreases chars@.len() - i,
    {
        i += 1;
    }
    proof {
        chars@.index_of_first_ensures('\n');
        if i < chars@.len() {
            assert(chars@.contains('\n')) by {
                assert(chars@[i as int] == '\n');
            }
        } else {
            assert(!chars@.contains('\n'));
        }
    }
    if i < chars.len() && i > 0 && chars[i - 1] == '\r' {
        i - 1
    } else {
        i
    }
}

/// A number in decimal is written as it is read: digits only, no leading zero, and a further digit at
/// the end is ten times the number and that digit. So no two numbers are written alike.
pub proof fn law_decimal_is_written_digit_by_digit(n: nat, d: nat)
    requires
        d < 10,
    ensures
        decimal(n).len() > 0,
        n > 0 ==> decimal(n)[0] != '0',
        n == 0 ==> decimal(n) == seq!['0'],
        forall|i: int| 0 <= i < decimal(n).len() ==> '0' <= #[trigger] decimal(n)[i] <= '9',
        n > 0 ==> decimal(10 * n + d) == decimal(n).push((48 + d) as char),
        n == 0 ==> decimal(10 * n + d) == seq![(48 + d) as char],
    decreases n,
{
    lemma_decimal(n);
    assert forall|i: int| 0 <= i < decimal(n).len() implies '0' <= #[trigger] decimal(n)[i]
        <= '9' by {
        assert(is_digit(decimal(n)[i]));
    }
    if n >= 10 {
        law_decimal_is_written_digit_by_digit(n / 10, 0);
        assert(decimal(n)[0] == decimal(n / 10)[0]);
    }
    assert((10 * n + d) / 10 == n && (10 * n + d) % 10 == d);
}

/// What a text stands for as a number, character by character: nothing is no number, a digit is its own
/// value, a further digit makes ten times the number and that digit so long as that is below 2^32, any
/// other character at the end makes it no number, and a plus sign in front makes no difference.
pub proof fn law_numbers_are_read_digit_by_digit(text: Seq<char>, c: char)
    ensures
        number(Seq::empty()) is None,
        '0' <= c <= '9' ==> number(seq![c]) == Some((c as u32 - 48) as nat),
        text.len() > 0 && text[0] != '+' && '0' <= c <= '9' ==> (number(text.push(c)) == match number(
            text,
        ) {
            Some(n) => if 10 * n + (c as u32 - 48) < 0x1_0000_0000 {
                Some((10 * n + (c as u32 - 48)) as nat)
            } else {
                None
            },
            None => None,
        }),
        !('0' <= c <= '9') && c != '+' ==> number(text.push(c)) is None,
        text.len() > 0 && text[0] != '+' ==> number(seq!['+'] + text) == number(text),
{
    assert(!all_digits(unsigned_part(Seq::<char>::empty())));
    let alone = seq![c];
    assert(alone.drop_last() =~= Seq::<char>::empty());
    assert(value(Seq::<char>::empty()) == 0);
    assert(alone.last() == c);
    if '0' <= c <= '9' {
        assert(unsigned_part(alone) == alone);
        assert(all_digits(alone));
    }
    let longer = text.push(c);
    assert(longer.drop_last() =~= text);
    if text.len() > 0 && text[0] != '+' {
        assert(longer[0] == text[0]);
        assert(unsigned_part(longer) == longer && unsigned_part(text) == text);
        if '0' <= c <= '9' {
            assert(all_digits(longer) == all_digits(text)) by {
                if all_digits(text) {
                    assert forall|i: int| 0 <= i < longer.len() implies is_digit(
                        #[trigger] longer[i],
                    ) by {
                        if i < text.len() {
                            assert(is_digit(text[i]));
                        }
                    }
                }
                if all_digits(longer) {
                    assert forall|i: int| 0 <= i < text.len() implies is_digit(
                        #[trigger] text[i],
                    ) by {
                        assert(is_digit(longer[i]));
                    }
                }
            }
        }
        let signed = seq!['+'] + text;
        assert(signed[0] == '+');
        assert(signed.skip(1) =~= text);
    }
    if !('0' <= c <= '9') && c != '+' {
        let digits = unsigned_part(longer);
        assert(longer.last() == c);
        if digits.len() > 0 {
            assert(digits[digits.len() - 1] == c);
        }
    }
}

/// Trimming takes the white space off both ends and nothing else: what is left begins and ends with
/// something else, or is nothing, and all that was taken is white.
pub proof fn law_trimming_takes_only_white_ends(text: Seq<char>, from: int, to: int)
    requires
        0 <= from <= to <= text.len(),
        forall|i: int| 0 <= i < from ==> white(#[trigger] text[i]),
        forall|i: int| to <= i < text.len() ==> white(#[trigger] text[i]),
        from < to ==> !white(text[from]) && !white(text[to - 1]),
    ensures
        trimmed(text) == text.subrange(from, to),
{
    lemma_trimmed(text, from, to);
}

/// White space is the characters of these code points and no others.
pub proof fn law_white_space_is_what_unicode_says(c: char)
    ensures
        white(c) <==> ({
            let n = c as u32;
            ||| 9 <= n <= 13
            ||| n == 32
            ||| n == 133
            ||| n == 160
            ||| n == 5760
            ||| 8192 <= n <= 8202
            ||| n == 8232
            ||| n == 8233
            ||| n == 8239
            ||| n == 8287
            ||| n == 12288
        }),
{
}

/// The first line of a text is all that stands before its first line break, whatever comes after, and
/// all of it where there is none. A carriage return before the break belongs to the break.
pub proof fn law_the_first_line_ends_at_the_first_break(line: Seq<char>, rest: Seq<char>)
    requires
        forall|i: int| 0 <= i < line.len() ==> #[trigger] line[i] != '\n',
    ensures
        first_line(line) == line,
        line.len() == 0 || line[line.len() - 1] != '\r' ==> first_line(line.push('\n') + rest) == line,
        first_line(line.push('\r').push('\n') + rest) == line,
{
    if line.contains('\n') {
        let i = choose|i: int| 0 <= i < line.len() && line[i] == '\n';
        assert(line[i] != '\n');
    }
    line.index_of_first_ensures('\n');
    assert(first_line(line) =~= line);
    let plain = line.push('\n') + rest;
    assert(plain[line.len() as int] == '\n');
    assert(plain.contains('\n'));
    plain.index_of_first_ensures('\n');
    let i = plain.index_of_first('\n')->0;
    if i < line.len() {
        assert(plain[i] == line[i]);
    }
    assert(i == line.len());
    if line.len() > 0 {
        assert(plain[i - 1] == line[i - 1]);
    }
    if line.len() == 0 || line[line.len() - 1] != '\r' {
        assert(first_line(plain) =~= line);
    }
    let full = line.push('\r').push('\n') + rest;
    assert(full[line.len() as int] == '\r' && full[line.len() as int + 1] == '\n');
    assert(full.contains('\n'));
    full.index_of_first_ensures('\n');
    let k = full.index_of_first('\n')->0;
    if k < line.len() {
        assert(full[k] == line[k]);
    }
    assert(k == line.len() + 1);
    assert(first_line(full) =~= line);
}

/// Two texts are the same but for case exactly when they are as long as each other and differ nowhere,
/// or only where one has a letter from A to Z and the other the small letter of the same name.
pub proof fn law_only_case_is_overlooked(a: Seq<char>, b: Seq<char>)
    ensures
        same_letters(a, b) <==> a.len() == b.len() && forall|i: int|
            0 <= i < a.len() ==> {
                ||| #[trigger] a[i] == b[i]
                ||| 'A' <= a[i] <= 'Z' && b[i] as u32 == a[i] as u32 + 32
                ||| 'A' <= b[i] <= 'Z' && a[i] as u32 == b[i] as u32 + 32
            },
{
    if a.len() == b.len() {
        assert forall|i: int| 0 <= i < a.len() implies (small(#[trigger] a[i]) == small(b[i])) == ({
            ||| a[i] == b[i]
            ||| 'A' <= a[i] <= 'Z' && b[i] as u32 == a[i] as u32 + 32
            ||| 'A' <= b[i] <= 'Z' && a[i] as u32 == b[i] as u32 + 32
        }) by {
            let (c, d) = (a[i], b[i]);
        }
    }
}

/// A text is found in another at a place exactly when it stands there character by character.
pub proof fn law_finding_is_character_by_character(text: Seq<char>, pattern: Seq<char>, at: int)
    ensures
        found_at(text, pattern, at) <==> 0 <= at && at + pattern.len() <= text.len() && forall|i: int|
            0 <= i < pattern.len() ==> text[at + i] == #[trigger] pattern[i],
{
    if 0 <= at && at + pattern.len() <= text.len() {
        let here = text.subrange(at, at + pattern.len());
        if here == pattern {
            assert forall|i: int| 0 <= i < pattern.len() implies text[at + i]
                == #[trigger] pattern[i] by {
                assert(here[i] == text[at + i]);
            }
        } else if forall|i: int| 0 <= i < pattern.len() ==> text[at + i] == #[trigger] pattern[i] {
            assert(here =~= pattern);
        }
    }
}

} // verus!
