//! The file of best scores: three lines, one decimal number each.

use crate::text::{decimal, digit_char, push_decimal};
use vstd::prelude::*;

verus! {

/// Whether a character is white space, as Unicode has it.
pub open spec fn is_white(c: char) -> bool {
    let n = c as int;
    ||| 0x9 <= n <= 0xd
    ||| n == 0x20
    ||| n == 0x85
    ||| n == 0xa0
    ||| n == 0x1680
    ||| 0x2000 <= n <= 0x200a
    ||| n == 0x2028
    ||| n == 0x2029
    ||| n == 0x202f
    ||| n == 0x205f
    ||| n == 0x3000
}

/// Whether a character is a decimal digit.
pub open spec fn is_digit(c: char) -> bool {
    '0' <= c <= '9'
}

/// The text without the white space at its end.
pub open spec fn trimmed_end(s: Seq<char>) -> Seq<char>
    decreases s.len(),
{
    if s.len() > 0 && is_white(s.last()) {
        trimmed_end(s.drop_last())
    } else {
        s
    }
}

/// The text without the white space around it.
pub open spec fn trimmed(s: Seq<char>) -> Seq<char>
    decreases s.len(),
{
    if s.len() > 0 && is_white(s.first()) {
        trimmed(s.drop_first())
    } else {
        trimmed_end(s)
    }
}

/// The number that a row of digits denotes.
pub open spec fn value_of(digits: Seq<char>) -> nat
    decreases digits.len(),
{
    if digits.len() == 0 {
        0
    } else {
        (10 * value_of(digits.drop_last()) + (digits.last() as int - '0' as int)) as nat
    }
}

/// The digits of a number that may have a plus sign.
pub open spec fn unsigned(s: Seq<char>) -> Seq<char> {
    if s.len() > 0 && s[0] == '+' {
        s.skip(1)
    } else {
        s
    }
}

/// Whether there are digits, nothing else, and the number fits 64 bits.
pub open spec fn is_number(digits: Seq<char>) -> bool {
    &&& digits.len() > 0
    &&& forall|i: int| #![trigger digits[i]] 0 <= i < digits.len() ==> is_digit(digits[i])
    &&& value_of(digits) <= u64::MAX
}

/// The score on a line: zero where the line is no number.
pub open spec fn score_on(line: Seq<char>) -> int {
    let digits = unsigned(trimmed(line));
    if is_number(digits) {
        value_of(digits) as int
    } else {
        0
    }
}

/// Where the first line ends.
pub open spec fn line_end(s: Seq<char>) -> nat
    decreases s.len(),
{
    if s.len() == 0 || s[0] == '\n' {
        0
    } else {
        line_end(s.skip(1)) + 1
    }
}

/// What comes after the first line.
pub open spec fn after_line(s: Seq<char>) -> Seq<char> {
    let end = line_end(s) as int;
    if end < s.len() {
        s.skip(end + 1)
    } else {
        Seq::empty()
    }
}

/// The score on line `n` of a text, zero where there is no such line.
pub open spec fn score_at(s: Seq<char>, n: nat) -> int
    decreases n,
{
    if s.len() == 0 {
        0
    } else if n == 0 {
        score_on(s.take(line_end(s) as int))
    } else {
        score_at(after_line(s), (n - 1) as nat)
    }
}

/// The text of the file for these scores.
pub open spec fn score_text(hi: Seq<u64>) -> Seq<char> {
    decimal(hi[0] as nat).push('\n') + decimal(hi[1] as nat).push('\n') + decimal(hi[2] as nat).push('\n')
}

/// Whether a character is white space.
fn white(c: char) -> (r: bool)
    ensures
        r == is_white(c),
{
    let n: u32 = c as u32;
    (0x9 <= n && n <= 0xd) || n == 0x20 || n == 0x85 || n == 0xa0 || n == 0x1680 || (0x2000 <= n && n
        <= 0x200a) || n == 0x2028 || n == 0x2029 || n == 0x202f || n == 0x205f || n == 0x3000
}

/// The value of the decimal digit `c`, if it is one.
fn digit_value(c: char) -> (r: Option<u64>)
    ensures
        r is Some <==> is_digit(c),
        r matches Some(d) ==> d == c as int - '0' as int && d < 10,
{
    let n: u32 = c as u32;
    if 0x30 <= n && n <= 0x39 {
        Some((n - 0x30) as u64)
    } else {
        None
    }
}

/// The number that the characters from `lo` up to `hi` denote, if they are one.
fn parse_digits(s: &Vec<char>, lo: usize, hi: usize) -> (r: Option<u64>)
    requires
        lo <= hi <= s@.len(),
    ensures
        r is Some <==> is_number(s@.subrange(lo as int, hi as int)),
        r matches Some(n) ==> n == value_of(s@.subrange(lo as int, hi as int)),
{
    let ghost all = s@.subrange(lo as int, hi as int);
    if lo == hi {
        return None;
    }
    let mut value: u64 = 0;
    let mut i: usize = lo;
    assert(all.take(0) =~= Seq::<char>::empty());
    while i < hi
        invariant
            lo <= i <= hi <= s@.len(),
            all == s@.subrange(lo as int, hi as int),
            value == value_of(all.take(i - lo)),
            forall|k: int| #![trigger all[k]] 0 <= k < i - lo ==> is_digit(all[k]),
        decreases hi - i,
    {
        let c: char = s[i];
        let ghost k = i - lo;
        proof {
            assert(all[k] == c);
            assert(all.take(k + 1).drop_last() =~= all.take(k));
            assert(all.take(k + 1).last() == c);
        }
        match digit_value(c) {
            None => {
                return None;
            },
            Some(d) => {
                if value > (0xffff_ffff_ffff_ffff - d) / 10 {
                    proof {
                        assert(value_of(all.take(k + 1)) > u64::MAX);
                        if is_number(all) {
                            lemma_value_grows(all, k + 1);
                        }
                    }
                    return None;
                }
                value = value * 10 + d;
            },
        }
        i = i + 1;
    }
    assert(all.take(hi - lo) =~= all);
    Some(value)
}

/// A longer row of digits denotes no smaller number.
proof fn lemma_value_grows(s: Seq<char>, n: int)
    requires
        0 <= n <= s.len(),
        forall|i: int| #![trigger s[i]] 0 <= i < s.len() ==> is_digit(s[i]),
    ensures
        value_of(s.take(n)) <= value_of(s),
    decreases s.len() - n,
{
    if n < s.len() {
        lemma_value_grows(s, n + 1);
        assert(s.take(n + 1).drop_last() =~= s.take(n));
        assert(is_digit(s[n]));
    } else {
        assert(s.take(n) =~= s);
    }
}

/// The score on the line from `lo` up to `hi`.
fn read_score(s: &Vec<char>, lo: usize, hi: usize) -> (r: u64)
    requires
        lo <= hi <= s@.len(),
    ensures
        r == score_on(s@.subrange(lo as int, hi as int)),
{
    let ghost line = s@.subrange(lo as int, hi as int);
    let mut a: usize = lo;
    while a < hi && white(s[a])
        invariant
            lo <= a <= hi <= s@.len(),
            trimmed(line) == trimmed(s@.subrange(a as int, hi as int)),
        decreases hi - a,
    {
        proof {
            let here = s@.subrange(a as int, hi as int);
            assert(here.first() == s@[a as int]);
            assert(here.drop_first() =~= s@.subrange(a + 1, hi as int));
        }
        a = a + 1;
    }
    let mut b: usize = hi;
    proof {
        let here = s@.subrange(a as int, hi as int);
        if a < hi {
            assert(here.first() == s@[a as int]);
        }
        assert(trimmed(line) == trimmed_end(here));
    }
    while b > a && white(s[b - 1])
        invariant
            lo <= a <= b <= hi <= s@.len(),
            trimmed(line) == trimmed_end(s@.subrange(a as int, b as int)),
        decreases b,
    {
        proof {
            let here = s@.subrange(a as int, b as int);
            assert(here.last() == s@[b - 1]);
            assert(here.drop_last() =~= s@.subrange(a as int, b - 1));
        }
        b = b - 1;
    }
    let ghost core = s@.subrange(a as int, b as int);
    proof {
        if a < b {
            assert(core.last() == s@[b - 1]);
        }
        assert(trimmed(line) == core);
    }
    let mut first: usize = a;
    if a < b && s[a] == '+' {
        first = a + 1;
        assert(core.skip(1) =~= s@.subrange(first as int, b as int));
    }
    proof {
        if a < b {
            assert(core[0] == s@[a as int]);
        }
        assert(unsigned(trimmed(line)) == s@.subrange(first as int, b as int));
    }
    match parse_digits(s, first, b) {
        Some(n) => n,
        None => 0,
    }
}

/// The characters of a text.
fn characters(text: &str) -> (r: Vec<char>)
    ensures
        r@ == text@,
{
    let mut r: Vec<char> = Vec::new();
    for c in it: text.chars()
        invariant
            r@ == it.seq().take(it.index()),
    {
        r.push(c);
        assert(r@ =~= it.seq().take(it.index() + 1));
    }
    assert(r@ =~= text@);
    r
}

/// Reads best scores from the text of the file; a line that is missing or no number
/// counts as zero, and further lines are ignored.
pub fn decode_hi(text: &str) -> (hi: [u64; 3])
    ensures
        hi[0] == score_at(text@, 0),
        hi[1] == score_at(text@, 1),
        hi[2] == score_at(text@, 2),
{
    let s: Vec<char> = characters(text);
    let (a, i): (u64, usize) = next_score(&s, 0);
    let (b, j): (u64, usize) = next_score(&s, i);
    let (c, k): (u64, usize) = next_score(&s, j);
    proof {
        assert(s@.skip(0) =~= s@);
        reveal_with_fuel(score_at, 3);
    }
    [a, b, c]
}

/// The score on the line that begins at `from`, and where the next line begins.
fn next_score(s: &Vec<char>, from: usize) -> (r: (u64, usize))
    requires
        from <= s@.len(),
    ensures
        r.0 == score_at(s@.skip(from as int), 0),
        r.1 <= s@.len(),
        s@.skip(from as int).len() > 0 ==> s@.skip(r.1 as int) == after_line(s@.skip(from as int)),
        s@.skip(from as int).len() == 0 ==> r.1 == from,
{
    if from == s.len() {
        return (0, from);
    }
    let ghost rest = s@.skip(from as int);
    let mut end: usize = from;
    while end < s.len() && s[end] != '\n'
        invariant
            from <= end <= s@.len(),
            rest == s@.skip(from as int),
            line_end(rest) == (end - from) + line_end(s@.skip(end as int)),
        decreases s@.len() - end,
    {
        proof {
            let here = s@.skip(end as int);
            assert(here[0] == s@[end as int]);
            assert(here.skip(1) =~= s@.skip(end + 1));
        }
        end = end + 1;
    }
    proof {
        let here = s@.skip(end as int);
        if end < s@.len() {
            assert(here[0] == s@[end as int]);
        }
        assert(line_end(rest) == end - from);
        assert(rest.take(end - from) =~= s@.subrange(from as int, end as int));
    }
    let score: u64 = read_score(s, from, end);
    if end < s.len() {
        assert(rest.skip(end - from + 1) =~= s@.skip(end + 1));
        (score, end + 1)
    } else {
        assert(s@.skip(end as int) =~= Seq::<char>::empty());
        (score, end)
    }
}

/// Writes best scores as the text of the file.
pub fn encode_hi(hi: &[u64; 3]) -> (r: String)
    ensures
        r@ == score_text(hi@),
{
    let mut r: String = String::new();
    push_decimal(&mut r, hi[0]);
    r.push('\n');
    push_decimal(&mut r, hi[1]);
    r.push('\n');
    push_decimal(&mut r, hi[2]);
    r.push('\n');
    assert(r@ =~= score_text(hi@));
    r
}

/// A number in decimal is a row of digits that denotes it.
pub(crate) proof fn lemma_decimal(n: nat)
    ensures
        decimal(n).len() > 0,
        forall|i: int| #![trigger decimal(n)[i]] 0 <= i < decimal(n).len() ==> is_digit(decimal(n)[i]),
        value_of(decimal(n)) == n,
    decreases n,
{
    if n < 10 {
        let s = decimal(n);
        assert(s.drop_last() =~= Seq::<char>::empty());
        reveal_with_fuel(value_of, 2);
    } else {
        lemma_decimal(n / 10);
        let s = decimal(n);
        assert(s.drop_last() =~= decimal(n / 10));
        assert(s.last() == digit_char((n % 10) as int));
    }
}

/// A row of digits has no white space around it and no sign.
proof fn lemma_digits_stay(s: Seq<char>)
    requires
        s.len() > 0,
        forall|i: int| #![trigger s[i]] 0 <= i < s.len() ==> is_digit(s[i]),
    ensures
        unsigned(trimmed(s)) == s,
{
    assert(is_digit(s[0]));
    assert(is_digit(s[s.len() - 1]));
}

/// A line ends at its line feed.
proof fn lemma_line_end(line: Seq<char>, rest: Seq<char>)
    requires
        forall|i: int| #![trigger line[i]] 0 <= i < line.len() ==> line[i] != '\n',
    ensures
        line_end(line.push('\n') + rest) == line.len(),
    decreases line.len(),
{
    let s = line.push('\n') + rest;
    if line.len() > 0 {
        let shorter = line.skip(1);
        assert forall|i: int| #![trigger shorter[i]] 0 <= i < shorter.len() implies shorter[i] != '\n' by {
            assert(shorter[i] == line[i + 1]);
        }
        lemma_line_end(shorter, rest);
        assert(s.skip(1) =~= shorter.push('\n') + rest);
        assert(s[0] == line[0]);
    }
}

/// The first line of a text is read, and the rest is what comes after it.
proof fn lemma_first_line(n: u64, rest: Seq<char>)
    ensures
        score_at(decimal(n as nat).push('\n') + rest, 0) == n,
        after_line(decimal(n as nat).push('\n') + rest) == rest,
        (decimal(n as nat).push('\n') + rest).len() > 0,
{
    let line = decimal(n as nat);
    let s = line.push('\n') + rest;
    lemma_decimal(n as nat);
    assert forall|i: int| #![trigger line[i]] 0 <= i < line.len() implies line[i] != '\n' by {
        assert(is_digit(line[i]));
    }
    lemma_line_end(line, rest);
    assert(s.take(line.len() as int) =~= line);
    assert(s.skip(line.len() as int + 1) =~= rest);
    lemma_digits_stay(line);
}

/// What was written is what is read: best scores survive the file.
pub proof fn scores_survive_the_file(hi: Seq<u64>)
    requires
        hi.len() == 3,
    ensures
        score_at(score_text(hi), 0) == hi[0],
        score_at(score_text(hi), 1) == hi[1],
        score_at(score_text(hi), 2) == hi[2],
{
    let a = decimal(hi[0] as nat).push('\n');
    let b = decimal(hi[1] as nat).push('\n');
    let c = decimal(hi[2] as nat).push('\n');
    let none = Seq::<char>::empty();
    assert(score_text(hi) =~= a + (b + (c + none)));
    lemma_first_line(hi[0], b + (c + none));
    lemma_first_line(hi[1], c + none);
    lemma_first_line(hi[2], none);
    reveal_with_fuel(score_at, 3);
}

/// An empty file has no best scores.
pub proof fn no_file_no_scores(n: nat)
    ensures
        score_at(Seq::empty(), n) == 0,
{
}

/// Whether a text is all white space and stays on its line.
pub open spec fn is_blank(s: Seq<char>) -> bool {
    forall|i: int| #![trigger s[i]] 0 <= i < s.len() ==> is_white(s[i]) && s[i] != '\n'
}

/// Each line of the file counts for itself: the first one is read alone, and the others are
/// read as if it were not there.
pub proof fn lines_count_for_themselves(line: Seq<char>, rest: Seq<char>, n: nat)
    requires
        forall|i: int| #![trigger line[i]] 0 <= i < line.len() ==> line[i] != '\n',
    ensures
        score_at(line.push('\n') + rest, 0) == score_on(line),
        score_at(line.push('\n') + rest, n + 1) == score_at(rest, n),
{
    let all = line.push('\n') + rest;
    lemma_line_end(line, rest);
    assert(all.take(line.len() as int) =~= line);
    assert(all.skip(line.len() as int + 1) =~= rest);
}

proof fn lemma_trim_end(s: Seq<char>, blank: Seq<char>)
    requires
        is_blank(blank),
        s.len() > 0 ==> !is_white(s.last()),
    ensures
        trimmed_end(s + blank) == s,
    decreases blank.len(),
{
    let all = s + blank;
    if blank.len() == 0 {
        assert(all =~= s);
    } else {
        let less = blank.drop_last();
        assert(all.last() == blank[blank.len() - 1]);
        assert forall|i: int| #![trigger less[i]] 0 <= i < less.len() implies is_white(less[i]) && less[i] != '\n' by {
            assert(less[i] == blank[i]);
        }
        lemma_trim_end(s, less);
        assert(all.drop_last() =~= s + less);
    }
}

proof fn lemma_trim(front: Seq<char>, s: Seq<char>, back: Seq<char>)
    requires
        is_blank(front),
        is_blank(back),
        s.len() > 0,
        !is_white(s.first()),
        !is_white(s.last()),
    ensures
        trimmed(front + s + back) == s,
    decreases front.len(),
{
    let all = front + s + back;
    if front.len() == 0 {
        assert(all =~= s + back);
        assert(all.first() == s.first());
        lemma_trim_end(s, back);
    } else {
        let less = front.drop_first();
        assert(all.first() == front[0]);
        assert forall|i: int| #![trigger less[i]] 0 <= i < less.len() implies is_white(less[i]) && less[i] != '\n' by {
            assert(less[i] == front[i + 1]);
        }
        lemma_trim(less, s, back);
        assert(all.drop_first() =~= less + s + back);
    }
}

/// A number on a line counts, with blanks around it and with a plus sign before it or without.
pub proof fn numbers_count(front: Seq<char>, digits: Seq<char>, back: Seq<char>)
    requires
        is_blank(front),
        is_blank(back),
        is_number(digits),
    ensures
        score_on(front + digits + back) == value_of(digits),
        score_on(front + (seq!['+'] + digits) + back) == value_of(digits),
{
    let signed = seq!['+'] + digits;
    let last = digits.len() - 1;
    assert(is_digit(digits[0]) && is_digit(digits[last]));
    lemma_trim(front, digits, back);
    assert(signed.last() == digits[last] && signed.first() == '+');
    lemma_trim(front, signed, back);
    assert(unsigned(signed) =~= digits);
    assert(unsigned(digits) == digits);
}

proof fn lemma_trim_keeps(s: Seq<char>, c: char)
    requires
        s.contains(c),
        !is_white(c),
    ensures
        trimmed_end(s).contains(c),
        trimmed(s).contains(c),
    decreases s.len(),
{
    let i = choose|i: int| 0 <= i < s.len() && s[i] == c;
    if is_white(s.last()) {
        assert(s.drop_last()[i] == c);
        lemma_trim_keeps(s.drop_last(), c);
    }
    if is_white(s.first()) {
        assert(s.drop_first()[i - 1] == c);
        lemma_trim_keeps(s.drop_first(), c);
    }
}

/// A line with anything in it but digits, blanks and plus signs counts nothing.
pub proof fn other_lines_count_nothing(line: Seq<char>, i: int)
    requires
        0 <= i < line.len(),
        !is_white(line[i]),
        !is_digit(line[i]),
        line[i] != '+',
    ensures
        score_on(line) == 0,
{
    let c = line[i];
    let core = trimmed(line);
    assert(line.contains(c));
    lemma_trim_keeps(line, c);
    let j = choose|j: int| 0 <= j < core.len() && core[j] == c;
    let digits = unsigned(core);
    if core[0] == '+' {
        assert(digits[j - 1] == c);
    } else {
        assert(digits[j] == c);
    }
}

} // verus!
