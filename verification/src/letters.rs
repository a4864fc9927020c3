//! Block letters, three rows high.

use vstd::prelude::*;
use vstd::string::{StrSliceExecFns, StringExecFns};

verus! {

/// Row `row` of the block letter for `c`.
pub open spec fn letter(c: char, row: int) -> Seq<char> {
    match c {
        'R' => if row == 0 { "█▀▀█"@ } else if row == 1 { "█▄▄▀"@ } else { "▀ ▀▀"@ },
        'A' => if row == 0 { "▄▀▀▄"@ } else if row == 1 { "█▄▄█"@ } else { "▀  ▀"@ },
        'T' => if row == 0 { "▄█▄"@ } else if row == 1 { " █ "@ } else { " ▀ "@ },
        'C' => if row == 0 { "▄▀▀▀"@ } else if row == 1 { "█░░ "@ } else { "▀▀▀▀"@ },
        'E' => if row == 0 { "█▀▀▀"@ } else if row == 1 { "█▄▄ "@ } else { "▀▀▀▀"@ },
        'G' => if row == 0 { "▄▀▀▀"@ } else if row == 1 { "█░░█"@ } else { "▀▀▀█"@ },
        'O' => if row == 0 { "▄▀▀▄"@ } else if row == 1 { "█░░█"@ } else { "▀▀▀▀"@ },
        'W' => if row == 0 { "█   █"@ } else if row == 1 { "█▄█▄█"@ } else { " ▀ ▀ "@ },
        'K' => if row == 0 { "█ ▄▀"@ } else if row == 1 { "█▄▄ "@ } else { "▀ ▀▀"@ },
        'D' => if row == 0 { "█▀▀▄"@ } else if row == 1 { "█░░█"@ } else { "▀▀▀▀"@ },
        'P' => if row == 0 { "█▀▀█"@ } else if row == 1 { "█▄▄▀"@ } else { "▀   "@ },
        'U' => if row == 0 { "█  █"@ } else if row == 1 { "█  █"@ } else { "▀▀▀▀"@ },
        'S' => if row == 0 { "▄▀▀▀"@ } else if row == 1 { "▀▀▀▄"@ } else { "▀▀▀▀"@ },
        '1' => if row == 0 { "▄█ "@ } else if row == 1 { " █ "@ } else { "▀▀▀"@ },
        '2' => if row == 0 { "▄▀▀▄"@ } else if row == 1 { "░▄▀░"@ } else { "▀▀▀▀"@ },
        '3' => if row == 0 { "▄▀▀▀"@ } else if row == 1 { "░▄▄▀"@ } else { "▀▀▀▀"@ },
        '!' => if row == 0 { "█"@ } else if row == 1 { " "@ } else { "▀"@ },
        _ => if row == 0 { " "@ } else if row == 1 { " "@ } else { " "@ },
    }
}

/// Row `row` of a word in block letters, one column apart.
pub open spec fn word_row(word: Seq<char>, row: int) -> Seq<char>
    decreases word.len(),
{
    if word.len() == 0 {
        Seq::empty()
    } else if word.len() == 1 {
        letter(word[0], row)
    } else {
        word_row(word.drop_last(), row).push(' ') + letter(word.last(), row)
    }
}

/// The block letter for `c`; a character without one is a blank column.
pub fn glyph(c: char) -> (r: [&'static str; 3])
    ensures
        r[0]@ == letter(c, 0),
        r[1]@ == letter(c, 1),
        r[2]@ == letter(c, 2),
{
    match c {
        'R' => ["█▀▀█", "█▄▄▀", "▀ ▀▀"],
        'A' => ["▄▀▀▄", "█▄▄█", "▀  ▀"],
        'T' => ["▄█▄", " █ ", " ▀ "],
        'C' => ["▄▀▀▀", "█░░ ", "▀▀▀▀"],
        'E' => ["█▀▀▀", "█▄▄ ", "▀▀▀▀"],
        'G' => ["▄▀▀▀", "█░░█", "▀▀▀█"],
        'O' => ["▄▀▀▄", "█░░█", "▀▀▀▀"],
        'W' => ["█   █", "█▄█▄█", " ▀ ▀ "],
        'K' => ["█ ▄▀", "█▄▄ ", "▀ ▀▀"],
        'D' => ["█▀▀▄", "█░░█", "▀▀▀▀"],
        'P' => ["█▀▀█", "█▄▄▀", "▀   "],
        'U' => ["█  █", "█  █", "▀▀▀▀"],
        'S' => ["▄▀▀▀", "▀▀▀▄", "▀▀▀▀"],
        '1' => ["▄█ ", " █ ", "▀▀▀"],
        '2' => ["▄▀▀▄", "░▄▀░", "▀▀▀▀"],
        '3' => ["▄▀▀▀", "░▄▄▀", "▀▀▀▀"],
        '!' => ["█", " ", "▀"],
        _ => [" ", " ", " "],
    }
}

/// Writes a text in block letters.
pub fn big_text(s: &str) -> (rows: [String; 3])
    ensures
        rows[0]@ == word_row(s@, 0),
        rows[1]@ == word_row(s@, 1),
        rows[2]@ == word_row(s@, 2),
{
    let mut top: String = String::new();
    let mut mid: String = String::new();
    let mut low: String = String::new();
    let n: usize = s.unicode_len();
    let mut i: usize = 0;
    while i < n
        invariant
            i <= n == s@.len(),
            top@ == word_row(s@.take(i as int), 0),
            mid@ == word_row(s@.take(i as int), 1),
            low@ == word_row(s@.take(i as int), 2),
        decreases n - i,
    {
        proof {
            assert(s@.take(i + 1).drop_last() =~= s@.take(i as int));
            assert(s@.take(i + 1).last() == s@[i as int]);
        }
        if i > 0 {
            top.push(' ');
            mid.push(' ');
            low.push(' ');
        }
        let rows: [&'static str; 3] = glyph(s.get_char(i));
        top.append(rows[0]);
        mid.append(rows[1]);
        low.append(rows[2]);
        i = i + 1;
        proof {
            let word = s@.take(i as int);
            assert(top@ =~= word_row(word, 0));
            assert(mid@ =~= word_row(word, 1));
            assert(low@ =~= word_row(word, 2));
        }
    }
    assert(s@.take(n as int) =~= s@);
    [top, mid, low]
}

proof fn lemma_letter_widths(c: char)
    ensures
        letter(c, 0).len() == letter(c, 1).len() == letter(c, 2).len(),
        letter(c, 0).len() <= 5,
{
    reveal_strlit("█▀▀█");
    reveal_strlit("█▄▄▀");
    reveal_strlit("▀ ▀▀");
    reveal_strlit("▄▀▀▄");
    reveal_strlit("█▄▄█");
    reveal_strlit("▀  ▀");
    reveal_strlit("▄█▄");
    reveal_strlit(" █ ");
    reveal_strlit(" ▀ ");
    reveal_strlit("▄▀▀▀");
    reveal_strlit("█░░ ");
    reveal_strlit("▀▀▀▀");
    reveal_strlit("█▀▀▀");
    reveal_strlit("█▄▄ ");
    reveal_strlit("█░░█");
    reveal_strlit("▀▀▀█");
    reveal_strlit("█   █");
    reveal_strlit("█▄█▄█");
    reveal_strlit(" ▀ ▀ ");
    reveal_strlit("█ ▄▀");
    reveal_strlit("█▀▀▄");
    reveal_strlit("▀   ");
    reveal_strlit("█  █");
    reveal_strlit("▀▀▀▄");
    reveal_strlit("▄█ ");
    reveal_strlit("▀▀▀");
    reveal_strlit("░▄▀░");
    reveal_strlit("░▄▄▀");
    reveal_strlit("█");
    reveal_strlit(" ");
    reveal_strlit("▀");
}

/// The three rows of a text in block letters are equally wide, and a letter takes at
/// most six columns.
pub proof fn block_letters_line_up(word: Seq<char>)
    ensures
        word_row(word, 0).len() == word_row(word, 1).len() == word_row(word, 2).len(),
        word_row(word, 0).len() <= 6 * word.len(),
    decreases word.len(),
{
    if word.len() > 0 {
        lemma_letter_widths(word.last());
        if word.len() > 1 {
            block_letters_line_up(word.drop_last());
        }
    }
}

} // verus!
