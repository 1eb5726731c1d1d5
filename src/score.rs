use vstd::prelude::*;

use crate::trie::is_lower;
use crate::{on_board, played, tile, Grid, Modifier, Step, Word, HEIGHT, WIDTH};

verus! {

/// Points of a lowercase letter.
pub open spec fn letter_value(c: char) -> nat {
    seq![1nat, 4, 5, 3, 1, 5, 3, 4, 1, 7, 6, 3, 4, 2, 1, 4, 8, 2, 2, 2, 4, 5, 5, 7, 4, 8][c as int
        - 'a' as int]
}

/// What one step adds to the letter total: the played letter's points, twice
/// or three times over on a letter modifier.
pub open spec fn step_value(step: Step, grid: &Grid) -> nat {
    let v = letter_value(played(step, grid));
    match tile(grid, step.0).modifier {
        Some(Modifier::DoubleLetter) => 2 * v,
        Some(Modifier::TripleLetter) => 3 * v,
        _ => v,
    }
}

/// The sum of the step values of a path.
pub open spec fn letter_total(w: Seq<Step>, grid: &Grid) -> nat
    decreases w.len(),
{
    if w.len() == 0 {
        0
    } else {
        letter_total(w.drop_last(), grid) + step_value(w.last(), grid)
    }
}

/// The sum of the plain points of the letters a path spells.
pub open spec fn plain_total(w: Seq<Step>, grid: &Grid) -> nat
    decreases w.len(),
{
    if w.len() == 0 {
        0
    } else {
        plain_total(w.drop_last(), grid) + letter_value(played(w.last(), grid))
    }
}

/// True iff some step of the path stands on a double-word tile.
pub open spec fn doubles(w: Seq<Step>, grid: &Grid) -> bool {
    exists|i: int| 0 <= i < w.len() && tile(grid, (#[trigger] w[i]).0).modifier == Some(Modifier::DoubleWord)
}

/// Bonus for a path of six or more steps.
pub open spec fn length_bonus(w: Seq<Step>) -> nat {
    if w.len() >= 6 {
        10
    } else {
        0
    }
}

/// The score of a path.
pub open spec fn score_of(w: Seq<Step>, grid: &Grid) -> nat {
    letter_total(w, grid) * (if doubles(w, grid) {
        2nat
    } else {
        1nat
    }) + length_bonus(w)
}

/// A path that can be scored: on the board, spelled in lowercase letters, and
/// no longer than the board has tiles.
pub open spec fn scorable(w: Seq<Step>, grid: &Grid) -> bool {
    &&& w.len() <= WIDTH * HEIGHT
    &&& forall|i: int| 0 <= i < w.len() ==> on_board((#[trigger] w[i]).0)
    &&& forall|i: int| 0 <= i < w.len() ==> is_lower(#[trigger] played(w[i], grid))
}

/// Points of a lowercase letter.
fn letter_score(c: char) -> (r: u32)
    requires
        is_lower(c),
    ensures
        r as nat == letter_value(c),
        r <= 8,
{
    let table: [u32; 26] = [1, 4, 5, 3, 1, 5, 3, 4, 1, 7, 6, 3, 4, 2, 1, 4, 8, 2, 2, 2, 4, 5, 5, 7, 4, 8];
    let i = (c as u32 - 'a' as u32) as usize;
    assert(table@ =~= seq![1u32, 4, 5, 3, 1, 5, 3, 4, 1, 7, 6, 3, 4, 2, 1, 4, 8, 2, 2, 2, 4, 5, 5, 7, 4, 8]);
    table[i]
}

/// The score of a path on the board.
pub fn find_score(word: &Word, grid: &Grid) -> (r: u32)
    requires
        scorable(word@, grid),
    ensures
        r as nat == score_of(word@, grid),
{
    let mut score: u32 = 0;
    let mut multiplier: u32 = 1;
    let mut i: usize = 0;
    while i < word.len()
        invariant
            scorable(word@, grid),
            i <= word@.len(),
            score as nat == letter_total(word@.take(i as int), grid),
            score <= 24 * i,
            multiplier == (if doubles(word@.take(i as int), grid) {
                2u32
            } else {
                1u32
            }),
        decreases word@.len() - i,
    {
        let ((x, y), c) = word[i];
        assert(on_board(word@[i as int].0));
        let letter = grid[y][x];
        let character = match c {
            Some(c) => c,
            None => letter.character,
        };
        assert(is_lower(played(word@[i as int], grid)));
        let character_score = letter_score(character);
        let add: u32 = match letter.modifier {
            Some(Modifier::DoubleLetter) => character_score * 2,
            Some(Modifier::TripleLetter) => character_score * 3,
            Some(Modifier::DoubleWord) => {
                multiplier = 2;
                character_score
            },
            None => character_score,
        };
        let ghost prefix = word@.take(i as int);
        let ghost next = word@.take(i + 1);
        assert(next.drop_last() =~= prefix);
        assert(next.last() == word@[i as int]);
        assert(doubles(next, grid) == (doubles(prefix, grid) || tile(grid, word@[i as int].0).modifier
            == Some(Modifier::DoubleWord))) by {
            if doubles(prefix, grid) {
                let k = choose|k: int| 0 <= k < prefix.len() && tile(grid, (#[trigger] prefix[k]).0).modifier
                    == Some(Modifier::DoubleWord);
                assert(next[k] == prefix[k]);
            }
            if doubles(next, grid) {
                let k = choose|k: int| 0 <= k < next.len() && tile(grid, (#[trigger] next[k]).0).modifier
                    == Some(Modifier::DoubleWord);
                if k < i {
                    assert(next[k] == prefix[k]);
                }
            }
            if tile(grid, word@[i as int].0).modifier == Some(Modifier::DoubleWord) {
                assert(next[i as int] == word@[i as int]);
            }
        }
        score = score + add;
        i = i + 1;
    }
    assert(word@.take(i as int) =~= word@);
    let bonus: u32 = if word.len() >= 6 {
        10
    } else {
        0
    };
    score * multiplier + bonus
}

/// On tiles without modifiers every step is worth its letter's points.
proof fn lemma_unmodified_total(w: Seq<Step>, grid: &Grid)
    requires
        forall|i: int| 0 <= i < w.len() ==> tile(grid, (#[trigger] w[i]).0).modifier is None,
    ensures
        letter_total(w, grid) == plain_total(w, grid),
    decreases w.len(),
{
    if w.len() > 0 {
        let u = w.drop_last();
        assert forall|i: int| 0 <= i < u.len() implies tile(grid, (#[trigger] u[i]).0).modifier is None by {
            assert(u[i] == w[i]);
        }
        lemma_unmodified_total(u, grid);
        assert(tile(grid, w[w.len() - 1].0).modifier is None);
    }
}

/// A path of fewer than six steps over tiles without modifiers scores the sum
/// of its letters' points.
pub proof fn lemma_plain_score(w: Seq<Step>, grid: &Grid)
    requires
        w.len() < 6,
        forall|i: int| 0 <= i < w.len() ==> tile(grid, (#[trigger] w[i]).0).modifier is None,
    ensures
        score_of(w, grid) == plain_total(w, grid),
{
    lemma_unmodified_total(w, grid);
    assert(!doubles(w, grid));
}

/// A path of six or more steps scores exactly ten more than its (possibly
/// doubled) letter total.
pub proof fn lemma_long_word_bonus(w: Seq<Step>, grid: &Grid)
    requires
        w.len() >= 6,
    ensures
        score_of(w, grid) == letter_total(w, grid) * (if doubles(w, grid) {
            2nat
        } else {
            1nat
        }) + 10,
{
}

/// A double-word tile anywhere on the path doubles its letter total; the
/// length bonus is added after, undoubled.
pub proof fn lemma_double_word(w: Seq<Step>, grid: &Grid, i: int)
    requires
        0 <= i < w.len(),
        tile(grid, w[i].0).modifier == Some(Modifier::DoubleWord),
    ensures
        score_of(w, grid) == 2 * letter_total(w, grid) + length_bonus(w),
{
    assert(doubles(w, grid));
}

} // verus!
