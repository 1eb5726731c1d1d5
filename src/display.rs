use vstd::prelude::*;

use crate::push_char;
use crate::trie::is_lower;
use crate::{on_board, played, tile, Grid, Step, Word, HEIGHT, WIDTH};

verus! {

/// The capital form of a lowercase letter; any other character as it is.
pub open spec fn upper(c: char) -> char {
    if is_lower(c) {
        (c as int - 32) as char
    } else {
        c
    }
}

/// How a step is shown: a swapped letter in capitals, a tile's own letter as
/// it is.
pub open spec fn shown(step: Step, grid: &Grid) -> char {
    match step.1 {
        Some(c) => upper(c),
        None => tile(grid, step.0).character,
    }
}

/// The capital form of a lowercase letter; any other character as it is.
fn to_upper(c: char) -> (r: char)
    ensures
        r == upper(c),
{
    if 'a' <= c && c <= 'z' {
        ((c as u32 - 32) as u8) as char
    } else {
        c
    }
}

/// The path written out, swapped letters in capitals.
pub fn word_to_string(word: &Word, grid: &Grid) -> (r: String)
    requires
        forall|i: int| 0 <= i < word@.len() ==> on_board((#[trigger] word@[i]).0),
    ensures
        r@ == Seq::new(word@.len(), |i: int| shown(word@[i], grid)),
{
    let mut r = String::new();
    let mut i: usize = 0;
    while i < word.len()
        invariant
            i <= word@.len(),
            forall|j: int| 0 <= j < word@.len() ==> on_board((#[trigger] word@[j]).0),
            r@ == Seq::new(i as nat, |j: int| shown(word@[j], grid)),
        decreases word@.len() - i,
    {
        let ((x, y), c) = word[i];
        assert(on_board(word@[i as int].0));
        let shown_char = match c {
            Some(c) => to_upper(c),
            None => grid[y][x].character,
        };
        push_char(&mut r, shown_char);
        assert(r@ =~= Seq::new((i + 1) as nat, |j: int| shown(word@[j], grid)));
        i = i + 1;
    }
    r
}

/// For the board cell numbered `index` (row by row): the letter shown there,
/// whether the path uses it, whether it is swapped, and its place in the path
/// (0 where the path does not use it).
pub fn char_picked_replaced_index(grid: &Grid, word: &Word, index: usize) -> (r: (
    char,
    bool,
    bool,
    usize,
))
    requires
        index < WIDTH * HEIGHT,
    ensures
        ({
            let p = ((index % WIDTH) as usize, (index / WIDTH) as usize);
            if r.1 {
                &&& r.3 < word@.len()
                &&& word@[r.3 as int].0 == p
                &&& forall|j: int| 0 <= j < r.3 ==> (#[trigger] word@[j]).0 != p
                &&& r.0 == played(word@[r.3 as int], grid)
                &&& r.2 == word@[r.3 as int].1 is Some
            } else {
                &&& forall|j: int| 0 <= j < word@.len() ==> (#[trigger] word@[j]).0 != p
                &&& r.0 == tile(grid, p).character
                &&& !r.2
                &&& r.3 == 0
            }
        }),
{
    let x = index % WIDTH;
    let y = index / WIDTH;
    let mut i: usize = 0;
    while i < word.len()
        invariant
            x == index % WIDTH,
            y == index / WIDTH,
            x < WIDTH,
            y < HEIGHT,
            i <= word@.len(),
            forall|j: int| 0 <= j < i ==> (#[trigger] word@[j]).0 != (x, y),
        decreases word@.len() - i,
    {
        let (q, c) = word[i];
        if q.0 == x && q.1 == y {
            return match c {
                Some(c) => (c, true, true, i),
                None => (grid[y][x].character, true, false, i),
            };
        }
        i = i + 1;
    }
    (grid[y][x].character, false, false, 0)
}

} // verus!
