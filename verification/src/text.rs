//! Styled text and the writing of numbers.

use crate::style::Style;
use vstd::prelude::*;
use vstd::string::StringExecFns;

verus! {

/// `String::push`: the character is appended to the string.
pub assume_specification[ String::push ](s: &mut String, c: char)
    ensures
        final(s)@ == old(s)@.push(c),
;

/// A run of text in one style, as the contracts see it.
pub struct Piece {
    pub text: Seq<char>,
    pub style: Style,
}

/// A run of text in one style.
pub struct Span {
    pub text: String,
    pub style: Style,
}

impl View for Span {
    type V = Piece;

    open spec fn view(&self) -> Piece {
        Piece { text: self.text@, style: self.style }
    }
}

/// One line of styled text.
pub struct Line {
    pub spans: Vec<Span>,
}

impl View for Line {
    type V = Seq<Piece>;

    open spec fn view(&self) -> Seq<Piece> {
        self.spans@.map_values(|s: Span| s@)
    }
}

impl Line {
    /// A line without text.
    pub fn new() -> (r: Line)
        ensures
            r@ == Seq::<Piece>::empty(),
    {
        let r: Line = Line { spans: Vec::new() };
        assert(r@ =~= Seq::<Piece>::empty());
        r
    }

    /// Appends a run of text.
    pub fn push(&mut self, text: &str, style: Style)
        ensures
            final(self)@ == old(self)@.push(Piece { text: text@, style }),
    {
        self.spans.push(Span { text: text.to_owned(), style });
        assert(self@ =~= old(self)@.push(Piece { text: text@, style }));
    }

    /// Appends a run of text that was put together elsewhere.
    pub fn push_string(&mut self, text: String, style: Style)
        ensures
            final(self)@ == old(self)@.push(Piece { text: text@, style }),
    {
        let ghost piece = Piece { text: text@, style };
        self.spans.push(Span { text, style });
        assert(self@ =~= old(self)@.push(piece));
    }

    /// A line of a single run.
    pub fn of(text: &str, style: Style) -> (r: Line)
        ensures
            r@ == seq![Piece { text: text@, style }],
    {
        let mut r: Line = Line::new();
        r.push(text, style);
        r
    }
}

/// Lines of styled text, from top to bottom.
pub struct Page {
    pub lines: Vec<Line>,
}

impl View for Page {
    type V = Seq<Seq<Piece>>;

    open spec fn view(&self) -> Seq<Seq<Piece>> {
        self.lines@.map_values(|l: Line| l@)
    }
}

impl Page {
    /// A page without lines.
    pub fn new() -> (r: Page)
        ensures
            r@ == Seq::<Seq<Piece>>::empty(),
    {
        let r: Page = Page { lines: Vec::new() };
        assert(r@ =~= Seq::<Seq<Piece>>::empty());
        r
    }

    /// Appends a line.
    pub fn push(&mut self, line: Line)
        ensures
            final(self)@ == old(self)@.push(line@),
    {
        let ghost view = line@;
        self.lines.push(line);
        assert(self@ =~= old(self)@.push(view));
    }

    /// A page of a single line.
    pub fn of(line: Line) -> (r: Page)
        ensures
            r@ == seq![line@],
    {
        let mut r: Page = Page::new();
        r.push(line);
        r
    }
}

/// The character of a decimal digit.
pub open spec fn digit_char(d: int) -> char {
    ('0' as int + d) as char
}

/// `n` written in decimal, without leading zeros.
pub open spec fn decimal(n: nat) -> Seq<char>
    decreases n,
{
    if n < 10 {
        seq![digit_char(n as int)]
    } else {
        decimal(n / 10).push(digit_char((n % 10) as int))
    }
}

/// `count` times the character `c`.
pub open spec fn repeated(c: char, count: int) -> Seq<char> {
    Seq::new(
        if count > 0 {
            count as nat
        } else {
            0
        },
        |i: int| c,
    )
}

/// `text` padded on the left with `c` to at least `width` characters.
pub open spec fn padded(text: Seq<char>, c: char, width: int) -> Seq<char> {
    repeated(c, width - text.len()) + text
}

/// The character of a decimal digit.
pub fn digit(d: u64) -> (c: char)
    requires
        d < 10,
    ensures
        c == digit_char(d as int),
{
    match d {
        0 => '0',
        1 => '1',
        2 => '2',
        3 => '3',
        4 => '4',
        5 => '5',
        6 => '6',
        7 => '7',
        8 => '8',
        _ => '9',
    }
}

/// Appends `n` in decimal.
pub fn push_decimal(s: &mut String, n: u64)
    ensures
        final(s)@ == old(s)@ + decimal(n as nat),
    decreases n,
{
    if n >= 10 {
        push_decimal(s, n / 10);
    }
    s.push(digit(n % 10));
    assert(s@ =~= old(s)@ + decimal(n as nat));
}

/// `n` in decimal.
pub fn number(n: u64) -> (r: String)
    ensures
        r@ == decimal(n as nat),
{
    let mut r: String = String::new();
    push_decimal(&mut r, n);
    assert(r@ =~= decimal(n as nat));
    r
}

/// Appends `count` times the character `c`.
pub fn push_repeated(s: &mut String, c: char, count: usize)
    ensures
        final(s)@ == old(s)@ + repeated(c, count as int),
{
    let mut i: usize = 0;
    assert(s@ =~= old(s)@ + repeated(c, 0));
    while i < count
        invariant
            i <= count,
            s@ == old(s)@ + repeated(c, i as int),
        decreases count - i,
    {
        s.push(c);
        i = i + 1;
        assert(s@ =~= old(s)@ + repeated(c, i as int));
    }
}

/// `count` times the character `c`.
pub fn repeat(c: char, count: usize) -> (r: String)
    ensures
        r@ == repeated(c, count as int),
{
    let mut r: String = String::new();
    push_repeated(&mut r, c, count);
    assert(r@ =~= repeated(c, count as int));
    r
}

/// `text` padded on the left with `c` to at least `width` characters.
pub fn pad_left(text: &str, c: char, width: usize) -> (r: String)
    ensures
        r@ == padded(text@, c, width as int),
{
    let len: usize = vstd::string::StrSliceExecFns::unicode_len(text);
    let mut r: String = String::new();
    if len < width {
        push_repeated(&mut r, c, width - len);
    }
    assert(r@ =~= repeated(c, width - len));
    r.append(text);
    r
}

/// A number below a power of ten has as many digits at most.
pub(crate) proof fn lemma_decimal_length(n: nat, k: nat, limit: nat)
    requires
        n < limit,
        k >= 1,
        limit == vstd::arithmetic::power::pow(10, k),
    ensures
        1 <= decimal(n).len() <= k,
    decreases k,
{
    if n >= 10 {
        vstd::arithmetic::power::lemma_pow1(10);
        assert(k > 1);
        reveal(vstd::arithmetic::power::pow);
        let less = vstd::arithmetic::power::pow(10, (k - 1) as nat);
        assert(limit == 10 * less);
        lemma_decimal_length(n / 10, (k - 1) as nat, less as nat);
    }
}

} // verus!
