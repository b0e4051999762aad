//! The text form of a map: lines of characters, one character for a cell.

use vstd::prelude::*;
use crate::node::{NodeState, Pos, OPEN};

verus! {

/// The lines of a text, each as the sequence of its characters.
pub open spec fn text_of(lines: Seq<String>) -> Seq<Seq<char>> {
    Seq::new(lines.len(), |i: int| lines[i]@)
}

/// The rows of a table of characters, each as a sequence.
pub open spec fn rows_of(table: Seq<Vec<char>>) -> Seq<Seq<char>> {
    Seq::new(table.len(), |i: int| table[i]@)
}

/// The text holds `symbol` in line `c.0` at place `c.1`.
pub open spec fn holds(text: Seq<Seq<char>>, c: (int, int), symbol: char) -> bool {
    &&& 0 <= c.0 < text.len()
    &&& 0 <= c.1 < text[c.0].len()
    &&& text[c.0][c.1] == symbol
}

/// The text holds `symbol` somewhere.
pub open spec fn occurs(text: Seq<Seq<char>>, symbol: char) -> bool {
    exists|c: (int, int)| holds(text, c, symbol)
}

/// The text holds `symbol` at two places or more.
pub open spec fn occurs_twice(text: Seq<Seq<char>>, symbol: char) -> bool {
    exists|a: (int, int), b: (int, int)| a != b && holds(text, a, symbol) && holds(text, b, symbol)
}

/// The character that the text gives for the cell `c`: where the text has no
/// character for it, the cell is open.
pub open spec fn symbol_at(text: Seq<Seq<char>>, c: (int, int)) -> char {
    if 0 <= c.0 < text.len() && 0 <= c.1 < text[c.0].len() {
        text[c.0][c.1]
    } else {
        OPEN
    }
}

/// The text has at most `x_size` lines of at most `y_size` characters.
pub open spec fn fits(text: Seq<Seq<char>>, x_size: usize, y_size: usize) -> bool {
    &&& text.len() <= x_size
    &&& forall|i: int| 0 <= i < text.len() ==> (#[trigger] text[i]).len() <= y_size
}

/// The characters of a line.
pub fn chars_of(line: &str) -> (chars: Vec<char>)
    ensures
        chars@ == line@,
{
    let n = line.unicode_len();
    let mut chars: Vec<char> = Vec::new();
    let mut i: usize = 0;
    while i < n
        invariant
            i <= n,
            n == line@.len(),
            chars@ == line@.take(i as int),
        decreases n - i,
    {
        chars.push(line.get_char(i));
        i = i + 1;
        assert(chars@ =~= line@.take(i as int));
    }
    assert(line@.take(n as int) =~= line@);
    chars
}

/// The characters of each line of a text.
pub fn table_of(lines: &Vec<String>) -> (table: Vec<Vec<char>>)
    ensures
        rows_of(table@) == text_of(lines@),
{
    let mut table: Vec<Vec<char>> = Vec::new();
    let mut i: usize = 0;
    while i < lines.len()
        invariant
            i <= lines.len(),
            table@.len() == i,
            forall|r: int| 0 <= r < i ==> (#[trigger] table@[r])@ == lines@[r]@,
        decreases lines.len() - i,
    {
        let chars = chars_of(lines[i].as_str());
        table.push(chars);
        i = i + 1;
    }
    assert(rows_of(table@) =~= text_of(lines@));
    table
}

/// Whether the text has at most `x_size` lines of at most `y_size` characters.
pub fn check_fits(table: &Vec<Vec<char>>, x_size: usize, y_size: usize) -> (ok: bool)
    ensures
        ok == fits(rows_of(table@), x_size, y_size),
{
    if table.len() > x_size {
        return false;
    }
    let mut i: usize = 0;
    while i < table.len()
        invariant
            i <= table.len(),
            table.len() <= x_size,
            forall|r: int| 0 <= r < i ==> (#[trigger] rows_of(table@)[r]).len() <= y_size,
        decreases table.len() - i,
    {
        if table[i].len() > y_size {
            assert(rows_of(table@)[i as int].len() > y_size);
            return false;
        }
        i = i + 1;
    }
    true
}

/// `a` comes before `b` where a text is read line by line.
pub open spec fn comes_before(a: (int, int), b: (int, int)) -> bool {
    a.0 < b.0 || (a.0 == b.0 && a.1 < b.1)
}

/// Looks for `symbol` in the text: the first place that holds it, if any
/// does, and whether a second place holds it too.
pub fn find_symbol(table: &Vec<Vec<char>>, symbol: char) -> (found: (Option<Pos>, bool))
    ensures
        found.0 is None <==> !occurs(rows_of(table@), symbol),
        found.1 <==> occurs_twice(rows_of(table@), symbol),
        found.0 matches Some(p) ==> holds(rows_of(table@), p@, symbol),
        found.0 matches Some(p) ==> forall|c: (int, int)|
            comes_before(c, p@) ==> !holds(rows_of(table@), c, symbol),
        found.0 matches Some(p) ==> !found.1 ==> forall|c: (int, int)|
            holds(rows_of(table@), c, symbol) ==> c == p@,
{
    let ghost text = rows_of(table@);
    let mut first: Option<Pos> = None;
    let mut again = false;
    let mut i: usize = 0;
    while i < table.len()
        invariant
            i <= table.len(),
            text == rows_of(table@),
            first is None ==> forall|c: (int, int)| c.0 < i ==> !holds(text, c, symbol),
            first matches Some(p) ==> holds(text, p@, symbol) && p@.0 < i,
            first matches Some(p) ==> forall|c: (int, int)|
                comes_before(c, p@) ==> !holds(text, c, symbol),
            first matches Some(p) ==> !again ==> forall|c: (int, int)|
                c.0 < i && holds(text, c, symbol) ==> c == p@,
            again ==> occurs_twice(text, symbol),
            again ==> first is Some,
        decreases table.len() - i,
    {
        let mut j: usize = 0;
        while j < table[i].len()
            invariant
                i < table.len(),
                j <= table@[i as int]@.len(),
                text == rows_of(table@),
                first is None ==> forall|c: (int, int)|
                    (c.0 < i || (c.0 == i && c.1 < j)) ==> !holds(text, c, symbol),
                first matches Some(p) ==> holds(text, p@, symbol) && (p@.0 < i || (p@.0 == i
                    && p@.1 < j)),
                first matches Some(p) ==> forall|c: (int, int)|
                    comes_before(c, p@) ==> !holds(text, c, symbol),
                first matches Some(p) ==> !again ==> forall|c: (int, int)|
                    (c.0 < i || (c.0 == i && c.1 < j)) && holds(text, c, symbol) ==> c == p@,
                again ==> occurs_twice(text, symbol),
                again ==> first is Some,
            decreases table@[i as int]@.len() - j,
        {
            if table[i][j] == symbol {
                assert(holds(text, (i as int, j as int), symbol));
                match first {
                    None => {
                        first = Some(Pos { x: i, y: j });
                    },
                    Some(p) => {
                        assert(p@ != (i as int, j as int));
                        again = true;
                    },
                }
            }
            j = j + 1;
        }
        i = i + 1;
    }
    proof {
        if again {
        } else if occurs_twice(text, symbol) {
            let (a, b) = choose|a: (int, int), b: (int, int)|
                a != b && holds(text, a, symbol) && holds(text, b, symbol);
            assert(first is Some);
            assert(a == first->0@ && b == first->0@);
        }
        if first is None && occurs(text, symbol) {
            let c = choose|c: (int, int)| holds(text, c, symbol);
            assert(c.0 < i);
        }
    }
    (first, again)
}

/// The terrain of every cell of a grid of `x_size` rows and `y_size` columns
/// that the text describes.
pub fn terrain_from_text(table: &Vec<Vec<char>>, x_size: usize, y_size: usize) -> (terrain: Vec<
    Vec<NodeState>,
>)
    ensures
        terrain@.len() == x_size,
        forall|i: int| 0 <= i < x_size ==> (#[trigger] terrain@[i])@.len() == y_size,
        forall|i: int, j: int|
            0 <= i < x_size && 0 <= j < y_size ==> #[trigger] terrain@[i]@[j] == NodeState::of_symbol(
                symbol_at(rows_of(table@), (i, j)),
            ),
{
    let ghost text = rows_of(table@);
    let mut terrain: Vec<Vec<NodeState>> = Vec::new();
    let mut i: usize = 0;
    while i < x_size
        invariant
            i <= x_size,
            text == rows_of(table@),
            terrain@.len() == i,
            forall|r: int| 0 <= r < i ==> (#[trigger] terrain@[r])@.len() == y_size,
            forall|r: int, c: int|
                0 <= r < i && 0 <= c < y_size ==> #[trigger] terrain@[r]@[c] == NodeState::of_symbol(
                    symbol_at(text, (r, c)),
                ),
        decreases x_size - i,
    {
        let mut row: Vec<NodeState> = Vec::new();
        let mut j: usize = 0;
        while j < y_size
            invariant
                i < x_size,
                j <= y_size,
                text == rows_of(table@),
                row@.len() == j,
                forall|c: int|
                    0 <= c < j ==> #[trigger] row@[c] == NodeState::of_symbol(
                        symbol_at(text, (i as int, c)),
                    ),
            decreases y_size - j,
        {
            let state = if i < table.len() && j < table[i].len() {
                NodeState::from_symbol(table[i][j])
            } else {
                NodeState::Open
            };
            row.push(state);
            j = j + 1;
        }
        terrain.push(row);
        i = i + 1;
    }
    terrain
}

} // verus!
