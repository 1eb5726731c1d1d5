pub mod display;
pub mod score;
pub mod search;
pub mod top;
pub mod trie;

use vstd::prelude::*;

pub use crate::display::{char_picked_replaced_index, word_to_string};
pub use crate::score::find_score;
pub use crate::search::search;
use crate::trie::is_lower;

verus! {

/// Columns of the board.
pub const WIDTH: usize = 5;

/// Rows of the board.
pub const HEIGHT: usize = 5;

/// Tiles on the board.
pub const CELLS: usize = WIDTH * HEIGHT;

/// A score modifier fixed to a board position.
#[derive(Clone, Copy, Debug, PartialEq, Eq)]
pub enum Modifier {
    DoubleLetter,
    TripleLetter,
    DoubleWord,
}

/// One tile of the board: its own letter and its modifier, if any.
#[derive(Clone, Copy, Debug, PartialEq, Eq)]
pub struct Letter {
    pub character: char,
    pub modifier: Option<Modifier>,
}

/// The board, indexed `[row][column]`.
pub type Grid = [[Letter; WIDTH]; HEIGHT];

/// One step of a path: a position `(column, row)` and, for a swapped tile,
/// the letter it is played as.
pub type Step = ((usize, usize), Option<char>);

/// A path through the board.
pub type Word = Vec<Step>;

impl Letter {
    pub fn new(character: char, modifier: Option<Modifier>) -> (r: Self)
        ensures
            r.character == character,
            r.modifier == modifier,
    {
        Letter { character, modifier }
    }
}

/// The tile at position `p = (column, row)`.
pub open spec fn tile(grid: &Grid, p: (usize, usize)) -> Letter {
    grid@[p.1 as int]@[p.0 as int]
}

/// True iff `p` lies on the board.
pub open spec fn on_board(p: (usize, usize)) -> bool {
    p.0 < WIDTH && p.1 < HEIGHT
}

/// The letter a step is played as: its override, else the tile's own letter.
pub open spec fn played(step: Step, grid: &Grid) -> char {
    match step.1 {
        Some(c) => c,
        None => tile(grid, step.0).character,
    }
}

/// The letters a path spells.
pub open spec fn spell(w: Seq<Step>, grid: &Grid) -> Seq<char> {
    Seq::new(w.len(), |i: int| played(w[i], grid))
}

/// Whether every tile of the board carries a lowercase letter, as `search`'s
/// callers must see to.
pub fn grid_is_valid(grid: &Grid) -> (r: bool)
    ensures
        r == forall|x: usize, y: usize| x < WIDTH && y < HEIGHT ==> is_lower(#[trigger] tile(grid, (x, y)).character),
{
    let mut y: usize = 0;
    while y < HEIGHT
        invariant
            y <= HEIGHT,
            forall|a: usize, b: usize| a < WIDTH && b < y ==> is_lower(#[trigger] tile(grid, (a, b)).character),
        decreases HEIGHT - y,
    {
        let mut x: usize = 0;
        while x < WIDTH
            invariant
                y < HEIGHT,
                x <= WIDTH,
                forall|a: usize, b: usize| a < WIDTH && b < y ==> is_lower(#[trigger] tile(grid, (a, b)).character),
                forall|a: usize| a < x ==> is_lower(#[trigger] tile(grid, (a, y)).character),
            decreases WIDTH - x,
        {
            let c = grid[y][x].character;
            if !('a' <= c && c <= 'z') {
                assert(!is_lower(tile(grid, (x, y)).character));
                return false;
            }
            x = x + 1;
        }
        y = y + 1;
    }
    true
}

/// Relies on String::push: appends one character to the string.
#[verifier::external_body]
pub(crate) fn push_char(s: &mut String, c: char)
    ensures
        final(s)@ == old(s)@.push(c),
{
    s.push(c)
}

} // verus!
