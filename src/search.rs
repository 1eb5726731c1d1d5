use vstd::prelude::*;
use vstd::set_lib::{lemma_int_range, lemma_len_subset, lemma_map_size, set_int_range};

use arrayvec::ArrayVec;

use crate::score::{find_score, scorable, score_of};
use crate::top::{lemma_placed_distinct, lemma_placed_keeps, lemma_placed_retains, placed, retained, Top};
use crate::trie::{is_lower, TrieNode};
use crate::{on_board, played, spell, tile, Grid, Step, Word, CELLS, HEIGHT, WIDTH};

verus! {

/// True iff `p` and `q` are distinct positions that touch, side or corner.
pub open spec fn adjacent(p: (usize, usize), q: (usize, usize)) -> bool {
    &&& p != q
    &&& -1 <= p.0 - q.0 <= 1
    &&& -1 <= p.1 - q.1 <= 1
}

/// The number of swapped steps in a path.
pub open spec fn swaps(w: Seq<Step>) -> nat
    decreases w.len(),
{
    if w.len() == 0 {
        0
    } else {
        swaps(w.drop_last()) + if w.last().1 is Some {
            1nat
        } else {
            0nat
        }
    }
}

/// A path that never revisits a tile and moves between touching tiles only.
pub open spec fn well_formed(w: Seq<Step>, grid: &Grid) -> bool {
    &&& scorable(w, grid)
    &&& forall|i: int, j: int| 0 <= i < j < w.len() ==> (#[trigger] w[i]).0 != (#[trigger] w[j]).0
    &&& forall|i: int| 0 <= i < w.len() - 1 ==> adjacent((#[trigger] w[i]).0, w[i + 1].0)
}

/// A non-empty path within the swap budget that spells a dictionary word.
pub open spec fn playable(w: Seq<Step>, grid: &Grid, budget: nat, dictionary: TrieNode) -> bool {
    &&& well_formed(w, grid)
    &&& w.len() > 0
    &&& swaps(w) <= budget
    &&& dictionary.contains(spell(w, grid))
}

/// The retained results are distinct candidate paths, each with its own
/// score and ranked by its score negated.
pub open spec fn sound(
    found: Top<(Word, u32)>,
    grid: &Grid,
    budget: nat,
    dictionary: TrieNode,
) -> bool {
    &&& found.wf()
    &&& forall|a: int, b: int| 0 <= a < b < found.items().len() ==> found.items()[a].0@ != found.items()[b].0@
    &&& forall|j: int|
        0 <= j < found.pairs().len() ==> {
            let (item, rank) = #[trigger] found.pairs()[j];
            &&& candidate(item.0@, grid, budget, dictionary)
            &&& item.1 as nat == score_of(item.0@, grid)
            &&& rank == -(item.1 as int)
        }
}

/// True iff every swapped step changes its tile's letter.
pub open spec fn honest(w: Seq<Step>, grid: &Grid) -> bool {
    forall|i: int|
        0 <= i < w.len() ==> ((#[trigger] w[i]).1 matches Some(d) ==> d != tile(grid, w[i].0).character)
}

/// A path the search has to weigh: playable, and swapping no tile for its own
/// letter.
pub open spec fn candidate(w: Seq<Step>, grid: &Grid, budget: nat, dictionary: TrieNode) -> bool {
    playable(w, grid, budget, dictionary) && honest(w, grid)
}

/// `found` holds the path `w`, or is full of results ranked at least as well
/// as `w`'s score would be.
pub open spec fn accounted(found: Top<(Word, u32)>, w: Seq<Step>, grid: &Grid) -> bool {
    ||| exists|j: int| 0 <= j < found.items().len() && (#[trigger] found.items()[j]).0@ == w
    ||| found.items().len() == found.capacity() && forall|j: int|
        0 <= j < found.ranks().len() ==> #[trigger] found.ranks()[j] <= -(score_of(w, grid) as int)
}

/// Swaps in a prefix never outnumber those in the whole path.
proof fn lemma_swaps_prefix(w: Seq<Step>, i: int)
    requires
        0 <= i <= w.len(),
    ensures
        swaps(w.take(i)) <= swaps(w),
    decreases w.len(),
{
    if i < w.len() {
        assert(w.take(i) =~= w.drop_last().take(i));
        lemma_swaps_prefix(w.drop_last(), i);
    } else {
        assert(w.take(i) =~= w);
    }
}

/// What a candidate path that goes on past `start` says of its next step.
proof fn lemma_next_step(
    w: Seq<Step>,
    start: Seq<Step>,
    grid: &Grid,
    budget: nat,
    dictionary: TrieNode,
    node: TrieNode,
)
    requires
        candidate(w, grid, budget, dictionary),
        w.len() > start.len(),
        w.take(start.len() as int) == start,
        dictionary.descend(spell(start, grid)) == Some(node),
    ensures
        extends(start, w[start.len() as int].0),
        node.child_spec(played(w[start.len() as int], grid)) is Some,
        w[start.len() as int].1 is Some ==> swaps(start) < budget,
        w[start.len() as int].1 matches Some(d) ==> d != tile(grid, w[start.len() as int].0).character,
        w.take(start.len() + 1 as int) == start.push(w[start.len() as int]),
{
    let l = start.len() as int;
    let s = w[l];
    let u = w.take(l + 1);
    assert(u =~= start.push(s));
    assert forall|i: int| 0 <= i < l implies (#[trigger] start[i]).0 != s.0 by {
        assert(start[i] == w[i]);
    }
    if l > 0 {
        assert(start.last() == w[l - 1]);
    }
    assert(spell(w, grid).take(l + 1) =~= spell(start, grid).push(played(s, grid)));
    dictionary.lemma_descend_prefix(spell(w, grid), l + 1);
    dictionary.lemma_descend_push(spell(start, grid), played(s, grid));
    lemma_swaps_prefix(w, l + 1);
    assert(u.drop_last() =~= start);
}

/// Putting a sound result into the collection keeps every path accounted for.
proof fn lemma_insert_keeps_accounted(
    before: Top<(Word, u32)>,
    after: Top<(Word, u32)>,
    e: (Word, u32),
    k: i64,
    grid: &Grid,
    budget: nat,
    dictionary: TrieNode,
    w: Seq<Step>,
)
    requires
        sound(before, grid, budget, dictionary),
        after.capacity() == before.capacity(),
        placed(before.items(), before.ranks(), after.items(), after.ranks(), e, k, before.capacity()),
        accounted(before, w, grid),
    ensures
        accounted(after, w, grid),
{
    let r = -(score_of(w, grid) as int);
    lemma_placed_keeps(before.items(), before.ranks(), after.items(), after.ranks(), e, k, before.capacity(), r);
    if exists|j: int| 0 <= j < before.items().len() && (#[trigger] before.items()[j]).0@ == w {
        let j = choose|j: int| 0 <= j < before.items().len() && (#[trigger] before.items()[j]).0@ == w;
        assert(before.pairs()[j] == (before.items()[j], before.ranks()[j]));
        assert(retained(after.items(), after.ranks(), before.capacity(), before.items()[j], before.ranks()[j] as int));
        if exists|m: int| 0 <= m < after.items().len() && after.items()[m] == before.items()[j] && after.ranks()[m] == before.ranks()[j] {
            let m = choose|m: int| 0 <= m < after.items().len() && after.items()[m] == before.items()[j] && after.ranks()[m] == before.ranks()[j];
            assert(after.items()[m].0@ == w);
        }
    }
}

/// Whether a path may go on to `p`: any tile starts a path; after that `p`
/// must touch the last tile and not be used yet.
fn can_extend(word: &Word, p: (usize, usize)) -> (r: bool)
    ensures
        r == ((word@.len() == 0 || adjacent(word@.last().0, p)) && forall|i: int|
            0 <= i < word@.len() ==> (#[trigger] word@[i]).0 != p),
{
    let n = word.len();
    if n > 0 {
        let (lx, ly) = word[n - 1].0;
        let dx = if lx > p.0 {
            lx - p.0
        } else {
            p.0 - lx
        };
        let dy = if ly > p.1 {
            ly - p.1
        } else {
            p.1 - ly
        };
        if dx > 1 || dy > 1 || (dx == 0 && dy == 0) {
            return false;
        }
    }
    let mut i: usize = 0;
    while i < n
        invariant
            n == word@.len(),
            i <= n,
            forall|j: int| 0 <= j < i ==> (#[trigger] word@[j]).0 != p,
        decreases n - i,
    {
        let (q, _) = word[i];
        if q.0 == p.0 && q.1 == p.1 {
            return false;
        }
        i = i + 1;
    }
    true
}

#[verifier::external_type_specification]
#[verifier::external_body]
#[verifier::reject_recursive_types(T)]
pub struct ExArrayVec<T, const CAP: usize>(ArrayVec<T, CAP>);

/// The positions held by a fixed-capacity buffer of positions, in order.
pub uninterp spec fn positions_in(v: ArrayVec<(usize, usize), CELLS>) -> Seq<(usize, usize)>;

/// Relies on ArrayVec::new: the new buffer holds nothing.
#[verifier::external_body]
fn new_positions() -> (r: ArrayVec<(usize, usize), CELLS>)
    ensures
        positions_in(r) == Seq::<(usize, usize)>::empty(),
{
    ArrayVec::new()
}

/// Relies on ArrayVec::push: appends one position; it panics only when the
/// buffer is full, which `requires` rules out.
#[verifier::external_body]
fn push_position(v: &mut ArrayVec<(usize, usize), CELLS>, p: (usize, usize))
    requires
        positions_in(*old(v)).len() < CELLS,
    ensures
        positions_in(*final(v)) == positions_in(*old(v)).push(p),
{
    v.push(p)
}

/// Relies on ArrayVec::len: the number of positions held.
#[verifier::external_body]
fn position_count(v: &ArrayVec<(usize, usize), CELLS>) -> (r: usize)
    ensures
        r == positions_in(*v).len(),
{
    v.len()
}

/// Relies on ArrayVec::as_slice: the position held at index `i`.
#[verifier::external_body]
fn position_at(v: &ArrayVec<(usize, usize), CELLS>, i: usize) -> (r: (usize, usize))
    requires
        i < positions_in(*v).len(),
    ensures
        r == positions_in(*v)[i as int],
{
    v.as_slice()[i]
}

/// True iff a path may go on to `p`.
pub open spec fn extends(w: Seq<Step>, p: (usize, usize)) -> bool {
    &&& on_board(p)
    &&& w.len() == 0 || adjacent(w.last().0, p)
    &&& forall|i: int| 0 <= i < w.len() ==> (#[trigger] w[i]).0 != p
}

/// Every position the path may go on to, row by row.
fn next_positions(word: &Word) -> (r: ArrayVec<(usize, usize), CELLS>)
    ensures
        forall|m: int| 0 <= m < positions_in(r).len() ==> extends(word@, #[trigger] positions_in(r)[m]),
        forall|p: (usize, usize)| extends(word@, p) ==> positions_in(r).contains(p),
        forall|a: int, b: int| 0 <= a < b < positions_in(r).len() ==> positions_in(r)[a] != positions_in(r)[b],
{
    let mut next = new_positions();
    let mut y: usize = 0;
    while y < HEIGHT
        invariant
            y <= HEIGHT,
            positions_in(next).len() <= y * WIDTH,
            forall|m: int| 0 <= m < positions_in(next).len() ==> extends(word@, #[trigger] positions_in(next)[m]),
            forall|p: (usize, usize)| extends(word@, p) && p.1 < y ==> positions_in(next).contains(p),
            forall|a: int, b: int| 0 <= a < b < positions_in(next).len() ==> positions_in(next)[a] != positions_in(next)[b],
            forall|m: int| 0 <= m < positions_in(next).len() ==> (#[trigger] positions_in(next)[m]).1 < y,
        decreases HEIGHT - y,
    {
        let mut x: usize = 0;
        while x < WIDTH
            invariant
                y < HEIGHT,
                x <= WIDTH,
                positions_in(next).len() <= y * WIDTH + x,
                forall|m: int| 0 <= m < positions_in(next).len() ==> extends(word@, #[trigger] positions_in(next)[m]),
                forall|p: (usize, usize)|
                    extends(word@, p) && (p.1 < y || (p.1 == y && p.0 < x)) ==> positions_in(next).contains(p),
                forall|a: int, b: int| 0 <= a < b < positions_in(next).len() ==> positions_in(next)[a] != positions_in(next)[b],
                forall|m: int|
                    0 <= m < positions_in(next).len() ==> (#[trigger] positions_in(next)[m]).1 < y || (
                    positions_in(next)[m].1 == y && positions_in(next)[m].0 < x),
            decreases WIDTH - x,
        {
            let ghost before = positions_in(next);
            if can_extend(word, (x, y)) {
                push_position(&mut next, (x, y));
                assert(positions_in(next)[before.len() as int] == (x, y));
                assert forall|m: int| 0 <= m < before.len() implies positions_in(next)[m] == before[m] by {}

                assert forall|p: (usize, usize)| extends(word@, p) && (p.1 < y || (p.1 == y && p.0 < x + 1))
                    implies positions_in(next).contains(p) by {
                    if p != (x, y) {
                        let m = choose|m: int| 0 <= m < before.len() && before[m] == p;
                        assert(positions_in(next)[m] == p);
                    }
                }
            }
            x = x + 1;
        }
        y = y + 1;
    }
    next
}

/// A copy of a path.
fn copy_word(word: &Word) -> (r: Word)
    ensures
        r@ == word@,
{
    let mut r: Word = Vec::new();
    let mut i: usize = 0;
    while i < word.len()
        invariant
            i <= word@.len(),
            r@ == word@.take(i as int),
        decreases word@.len() - i,
    {
        r.push(word[i]);
        assert(word@.take(i + 1) =~= word@.take(i as int).push(word@[i as int]));
        i = i + 1;
    }
    assert(word@.take(i as int) =~= word@);
    r
}

/// Extending a path by one step keeps it well formed and spells one more
/// letter.
proof fn lemma_extend(w: Seq<Step>, step: Step, grid: &Grid)
    requires
        well_formed(w, grid),
        w.len() < WIDTH * HEIGHT,
        on_board(step.0),
        is_lower(played(step, grid)),
        w.len() == 0 || adjacent(w.last().0, step.0),
        forall|i: int| 0 <= i < w.len() ==> (#[trigger] w[i]).0 != step.0,
        honest(w, grid),
        step.1 matches Some(d) ==> d != tile(grid, step.0).character,
    ensures
        well_formed(w.push(step), grid),
        honest(w.push(step), grid),
        spell(w.push(step), grid) == spell(w, grid).push(played(step, grid)),
        swaps(w.push(step)) == swaps(w) + if step.1 is Some {
            1nat
        } else {
            0nat
        },
{
    let v = w.push(step);
    assert(v.drop_last() =~= w);
    assert(spell(v, grid) =~= spell(w, grid).push(played(step, grid)));
    assert forall|i: int| 0 <= i < v.len() implies is_lower(#[trigger] played(v[i], grid)) by {
        if i < w.len() {
            assert(v[i] == w[i]);
        }
    }
    assert forall|i: int| 0 <= i < v.len() implies ((#[trigger] v[i]).1 matches Some(d) ==> d != tile(
        grid,
        v[i].0,
    ).character) by {
        if i < w.len() {
            assert(v[i] == w[i]);
        }
    }
    assert forall|i: int| 0 <= i < v.len() implies on_board((#[trigger] v[i]).0) by {
        if i < w.len() {
            assert(v[i] == w[i]);
        }
    }
    assert forall|i: int, j: int| 0 <= i < j < v.len() implies (#[trigger] v[i]).0 != (
    #[trigger] v[j]).0 by {
        assert(v[i] == w[i]);
        if j < w.len() {
            assert(v[j] == w[j]);
        }
    }
    assert forall|i: int| 0 <= i < v.len() - 1 implies adjacent((#[trigger] v[i]).0, v[i + 1].0) by {
        assert(v[i] == w[i]);
        if i + 1 < w.len() {
            assert(v[i + 1] == w[i + 1]);
        }
    }
}

/// `p` begins with the steps of `start`.
pub open spec fn begins_with(p: Seq<Step>, start: Seq<Step>) -> bool {
    p.len() >= start.len() && p.take(start.len() as int) == start
}

/// `p` is the path of a result held in `entry`.
spec fn held_in(entry: Top<(Word, u32)>, p: Seq<Step>) -> bool {
    exists|m: int| 0 <= m < entry.items().len() && (#[trigger] entry.items()[m]).0@ == p
}

/// No result held in `found` begins with `start`.
spec fn fresh(found: Top<(Word, u32)>, start: Seq<Step>) -> bool {
    forall|j: int| 0 <= j < found.items().len() ==> !begins_with(#[trigger] found.items()[j].0@, start)
}

/// Each result of `found` was held in `entry`, is `start` itself, or goes on
/// from `start` by a step that `done` admits.
spec fn traced(found: Top<(Word, u32)>, entry: Top<(Word, u32)>, start: Seq<Step>, done: spec_fn(Step) -> bool) -> bool {
    forall|j: int|
        0 <= j < found.items().len() ==> {
            let p = #[trigger] found.items()[j].0@;
            held_in(entry, p) || p == start || (p.len() > start.len() && p.take(start.len() as int) == start
                && done(p[start.len() as int]))
        }
}

/// A step not yet taken from `start` leads where no held result begins.
proof fn lemma_fresh_step(
    found: Top<(Word, u32)>,
    entry: Top<(Word, u32)>,
    start: Seq<Step>,
    done: spec_fn(Step) -> bool,
    step: Step,
)
    requires
        traced(found, entry, start, done),
        fresh(entry, start),
        !done(step),
    ensures
        fresh(found, start.push(step)),
{
    let l = start.len() as int;
    assert forall|j: int| 0 <= j < found.items().len() implies !begins_with(
        #[trigger] found.items()[j].0@,
        start.push(step),
    ) by {
        let p = found.items()[j].0@;
        if begins_with(p, start.push(step)) {
            assert(p.take(l) =~= p.take(l + 1).take(l));
            assert(start.push(step).take(l) =~= start);
            assert(p[l] == p.take(l + 1)[l]);
            if held_in(entry, p) {
                let m = choose|m: int| 0 <= m < entry.items().len() && (#[trigger] entry.items()[m]).0@ == p;
                assert(!begins_with(entry.items()[m].0@, start));
            }
        }
    }
}

/// After the walk from `start.push(step)`, each result is traced with `step`
/// now taken too.
proof fn lemma_traced_after(
    pre: Top<(Word, u32)>,
    post: Top<(Word, u32)>,
    entry: Top<(Word, u32)>,
    start: Seq<Step>,
    done: spec_fn(Step) -> bool,
    later: spec_fn(Step) -> bool,
    step: Step,
)
    requires
        traced(pre, entry, start, done),
        forall|j: int|
            0 <= j < post.items().len() ==> begins_with(#[trigger] post.items()[j].0@, start.push(step))
                || held_in(pre, post.items()[j].0@),
        forall|s: Step| done(s) ==> #[trigger] later(s),
        later(step),
    ensures
        traced(post, entry, start, later),
{
    let l = start.len() as int;
    assert forall|j: int| 0 <= j < post.items().len() implies {
        let p = #[trigger] post.items()[j].0@;
        held_in(entry, p) || p == start || (p.len() > l && p.take(l) == start && later(p[l]))
    } by {
        let p = post.items()[j].0@;
        if begins_with(p, start.push(step)) {
            assert(p.take(l) =~= p.take(l + 1).take(l));
            assert(start.push(step).take(l) =~= start);
            assert(p[l] == p.take(l + 1)[l]);
        } else {
            let m = choose|m: int| 0 <= m < pre.items().len() && (#[trigger] pre.items()[m]).0@ == p;
            assert(pre.items()[m].0@ == p);
        }
    }
}

/// A result traced by `done` is traced by any wider `later`.
proof fn lemma_traced_wider(
    found: Top<(Word, u32)>,
    entry: Top<(Word, u32)>,
    start: Seq<Step>,
    done: spec_fn(Step) -> bool,
    later: spec_fn(Step) -> bool,
)
    requires
        traced(found, entry, start, done),
        forall|s: Step| done(s) ==> #[trigger] later(s),
    ensures
        traced(found, entry, start, later),
{
    assert forall|j: int| 0 <= j < found.items().len() implies {
        let p = #[trigger] found.items()[j].0@;
        held_in(entry, p) || p == start || (p.len() > start.len() && p.take(start.len() as int) == start
            && later(p[start.len() as int]))
    } by {
        let p = found.items()[j].0@;
        if p.len() > start.len() && p.take(start.len() as int) == start && done(p[start.len() as int]) {
            assert(later(p[start.len() as int]));
        }
    }
}

/// Every candidate that goes on from `start`, and past it by a step that
/// `done` admits, is accounted for in `found`.
spec fn covered(
    found: Top<(Word, u32)>,
    start: Seq<Step>,
    done: spec_fn(Step) -> bool,
    grid: &Grid,
    budget: nat,
    dictionary: TrieNode,
) -> bool {
    forall|w: Seq<Step>|
        candidate(w, grid, budget, dictionary) && w.len() >= start.len() && w.take(start.len() as int)
            == start && (w.len() == start.len() || done(w[start.len() as int])) ==> #[trigger] accounted(
            found,
            w,
            grid,
        )
}

/// Once the candidates going on by `step` are accounted for, `step` joins
/// the steps done.
proof fn lemma_covered_after(
    pre: Top<(Word, u32)>,
    post: Top<(Word, u32)>,
    start: Seq<Step>,
    done: spec_fn(Step) -> bool,
    later: spec_fn(Step) -> bool,
    step: Step,
    grid: &Grid,
    budget: nat,
    dictionary: TrieNode,
)
    requires
        covered(pre, start, done, grid, budget, dictionary),
        forall|w: Seq<Step>| accounted(pre, w, grid) ==> #[trigger] accounted(post, w, grid),
        forall|s: Step| #[trigger] later(s) ==> done(s) || s == step,
        forall|w: Seq<Step>|
            candidate(w, grid, budget, dictionary) && w.len() > start.len() && w.take(start.len() as int)
                == start && w[start.len() as int] == step ==> #[trigger] accounted(post, w, grid),
    ensures
        covered(post, start, later, grid, budget, dictionary),
{
    assert forall|w: Seq<Step>|
        candidate(w, grid, budget, dictionary) && w.len() >= start.len() && w.take(start.len() as int)
            == start && (w.len() == start.len() || later(w[start.len() as int])) implies #[trigger] accounted(
        post,
        w,
        grid,
    ) by {
        if !(w.len() > start.len() && w[start.len() as int] == step) {
            assert(accounted(pre, w, grid));
        }
    }
}

/// The next step `s` swaps in a letter of `ks` before index `k`, or at index
/// `k`, on a position of `nx` before index `n`.
spec fn swap_done(s: Step, ks: Seq<(char, &TrieNode)>, nx: Seq<(usize, usize)>, k: int, n: int) -> bool {
    &&& s.1 is Some
    &&& exists|a: int, b: int|
        0 <= a < ks.len() && 0 <= b < nx.len() && (a < k || (a == k && b < n)) && (#[trigger] ks[a]).0
            == s.1.unwrap() && #[trigger] nx[b] == s.0
}

/// The next step `s` keeps its tile's letter, on a position of `nx` before
/// index `n`.
spec fn natural_done(s: Step, nx: Seq<(usize, usize)>, n: int) -> bool {
    &&& s.1 is None
    &&& exists|b: int| 0 <= b < n && b < nx.len() && #[trigger] nx[b] == s.0
}

/// Walks the board and the dictionary together from the path so far, adding
/// each completed word to `found`. `node` is where the path's letters lead in
/// the dictionary; `swap` is the number of swaps still allowed. Afterwards
/// every candidate path that goes on from the path so far is accounted for.
#[verifier::rlimit(100)]
#[verifier::spinoff_prover]
fn find_words(
    found: &mut Top<(Word, u32)>,
    node: &TrieNode,
    word: &mut Word,
    swap: usize,
    grid: &Grid,
    Ghost(dictionary): Ghost<TrieNode>,
    Ghost(budget): Ghost<nat>,
)
    requires
        sound(*old(found), grid, budget, dictionary),
        well_formed(old(word)@, grid),
        honest(old(word)@, grid),
        swaps(old(word)@) + swap == budget,
        dictionary.descend(spell(old(word)@, grid)) == Some(*node),
        fresh(*old(found), old(word)@),
    ensures
        sound(*final(found), grid, budget, dictionary),
        forall|j: int|
            0 <= j < final(found).items().len() ==> begins_with(#[trigger] final(found).items()[j].0@, old(word)@)
                || held_in(*old(found), final(found).items()[j].0@),
        final(found).capacity() == old(found).capacity(),
        final(word)@ == old(word)@,
        forall|w: Seq<Step>|
            accounted(*old(found), w, grid) ==> #[trigger] accounted(*final(found), w, grid),
        forall|w: Seq<Step>|
            candidate(w, grid, budget, dictionary) && w.len() >= old(word)@.len() && w.take(
                old(word)@.len() as int,
            ) == old(word)@ ==> #[trigger] accounted(*final(found), w, grid),
    decreases WIDTH * HEIGHT - old(word)@.len(),
{
    let ghost start = word@;
    let ghost l = start.len() as int;
    let ghost entry = *found;
    if node.is_complete() && word.len() > 0 {
        let score = find_score(word, grid);
        let ghost before = *found;
        let keep = match found.worst() {
            Some(worst) => score > worst.1,
            None => true,
        };
        if keep {
            let entry_item = (copy_word(word), score);
            let rank: i64 = -(score as i64);
            let ghost g = entry_item;
            found.insert_by_key(entry_item, rank);
            proof {
                assert forall|j: int| 0 <= j < found.pairs().len() implies {
                    let (item, rank) = #[trigger] found.pairs()[j];
                    &&& candidate(item.0@, grid, budget, dictionary)
                    &&& item.1 as nat == score_of(item.0@, grid)
                    &&& rank == -(item.1 as int)
                } by {
                    if found.pairs()[j] != (g, rank) {
                        let k = choose|k: int| 0 <= k < before.pairs().len() && before.pairs()[k]
                            == found.pairs()[j];
                        assert(before.pairs()[k] == found.pairs()[j]);
                    }
                }
                assert forall|j: int| 0 <= j < before.items().len() implies before.items()[j].0@ != g.0@ by {
                    assert(!begins_with(before.items()[j].0@, start));
                    assert(start.take(start.len() as int) =~= start);
                }
                lemma_placed_distinct(before.items(), before.ranks(), found.items(), found.ranks(), g, rank,
                    before.capacity(), |x: (Word, u32)| x.0@);
                assert forall|j: int| 0 <= j < found.items().len() implies held_in(entry, #[trigger] found.items()[j].0@)
                    || found.items()[j].0@ == start by {
                    assert(found.pairs()[j] == (found.items()[j], found.ranks()[j]));
                    if found.pairs()[j] != (g, rank) {
                        let m = choose|m: int| 0 <= m < before.pairs().len() && before.pairs()[m]
                            == found.pairs()[j];
                        assert(before.items()[m] == found.items()[j]);
                    }
                }
                assert forall|w: Seq<Step>| accounted(before, w, grid) implies #[trigger] accounted(
                    *found,
                    w,
                    grid,
                ) by {
                    lemma_insert_keeps_accounted(before, *found, g, rank, grid, budget, dictionary, w);
                }
                if before.items().len() < before.capacity() {
                    lemma_placed_retains(before.items(), before.ranks(), found.items(), found.ranks(), g, rank, before.capacity());
                } else if before.items().len() == 0 {
                    assert(found.items().len() == 0);
                } else {
                    let last = before.items().len() - 1;
                    assert(before.pairs()[last] == (before.items()[last], before.ranks()[last]));
                    lemma_placed_retains(before.items(), before.ranks(), found.items(), found.ranks(), g, rank, before.capacity());
                }
                if found.items().len() > 0 || found.items().len() != found.capacity() {
                    let m = choose|m: int| 0 <= m < found.items().len() && found.items()[m] == g && found.ranks()[m] == rank;
                    assert(found.items()[m].0@ == start);
                }
            }
        } else {
            proof {
                let last = before.items().len() - 1;
                assert(before.pairs()[last] == (before.items()[last], before.ranks()[last]));
                assert forall|j: int| 0 <= j < found.ranks().len() implies #[trigger] found.ranks()[j]
                    <= -(score_of(start, grid) as int) by {
                    assert(found.ranks()[j] <= found.ranks()[last]);
                }
            }
        }
    }
    assert(candidate(start, grid, budget, dictionary) ==> accounted(*found, start, grid));
    let ghost nothing = |s: Step| false;
    assert forall|j: int| 0 <= j < found.items().len() implies {
        let p = #[trigger] found.items()[j].0@;
        held_in(entry, p) || p == start || (p.len() > start.len() && p.take(start.len() as int) == start
            && nothing(p[start.len() as int]))
    } by {
        if *found == entry {
            assert(entry.items()[j].0@ == found.items()[j].0@);
        }
    }
    assert(traced(*found, entry, start, nothing));
    assert(start.take(l) =~= start);
    if node.is_leaf() || word.len() >= WIDTH * HEIGHT {
        proof {
            assert forall|w: Seq<Step>|
                candidate(w, grid, budget, dictionary) && w.len() >= l && w.take(l) == start implies #[trigger] accounted(
                *found,
                w,
                grid,
            ) by {
                if w.len() > l {
                    lemma_next_step(w, start, grid, budget, dictionary, *node);
                    if node.leaf_spec() {
                        node.lemma_leaf_has_no_child(played(w[l], grid));
                    }
                } else {
                    assert(w =~= start);
                }
            }
        }
        return;
    }
    let next = next_positions(word);
    let count = position_count(&next);
    let ghost nx = positions_in(next);
    if swap > 0 {
        let kids = node.children();
        let ghost ks = kids@;
        proof {
            lemma_traced_wider(*found, entry, start, nothing, |s: Step| swap_done(s, ks, nx, 0, 0));
        }
        assert forall|w: Seq<Step>|
            candidate(w, grid, budget, dictionary) && w.len() >= l && w.take(l) == start && (w.len()
                == l || swap_done(w[l], ks, nx, 0, 0)) implies #[trigger] accounted(*found, w, grid) by {
            if w.len() == l {
                assert(w =~= start);
            }
        }
        let mut k: usize = 0;
        while k < kids.len()
            invariant
                swap > 0,
                k <= kids@.len(),
                ks == kids@,
                nx == positions_in(next),
                count == nx.len(),
                forall|m: int| 0 <= m < nx.len() ==> extends(start, #[trigger] nx[m]),
                sound(*found, grid, budget, dictionary),
                found.capacity() == old(found).capacity(),
                word@ == start,
                start == old(word)@,
                l == start.len(),
                entry == *old(found),
                well_formed(start, grid),
                honest(start, grid),
                start.len() < WIDTH * HEIGHT,
                swaps(start) + swap == budget,
                dictionary.descend(spell(start, grid)) == Some(*node),
                forall|m: int|
                    0 <= m < kids@.len() ==> is_lower(#[trigger] kids@[m].0)
                        && node.child_spec(kids@[m].0) == Some(*kids@[m].1),
                forall|w: Seq<Step>| accounted(entry, w, grid) ==> #[trigger] accounted(*found, w, grid),
                fresh(entry, start),
                traced(*found, entry, start, |s: Step| swap_done(s, ks, nx, k as int, 0)),
                forall|a: int, b: int| 0 <= a < b < ks.len() ==> ks[a].0 < ks[b].0,
                forall|a: int, b: int| 0 <= a < b < nx.len() ==> nx[a] != nx[b],
                forall|w: Seq<Step>|
                    candidate(w, grid, budget, dictionary) && w.len() >= l && w.take(l) == start && (
                    w.len() == l || swap_done(w[l], ks, nx, k as int, 0)) ==> #[trigger] accounted(
                        *found,
                        w,
                        grid,
                    ),
            decreases kids@.len() - k,
        {
            let (d, child) = kids[k];
            let mut n: usize = 0;
            while n < count
                invariant
                    swap > 0,
                    k < kids@.len(),
                    ks == kids@,
                    kids@[k as int] == (d, child),
                    is_lower(d),
                    node.child_spec(d) == Some(*child),
                    n <= count,
                    nx == positions_in(next),
                    count == nx.len(),
                    forall|m: int| 0 <= m < nx.len() ==> extends(start, #[trigger] nx[m]),
                    sound(*found, grid, budget, dictionary),
                    found.capacity() == old(found).capacity(),
                    word@ == start,
                    start == old(word)@,
                    l == start.len(),
                    entry == *old(found),
                    well_formed(start, grid),
                    honest(start, grid),
                    start.len() < WIDTH * HEIGHT,
                    swaps(start) + swap == budget,
                    dictionary.descend(spell(start, grid)) == Some(*node),
                    forall|w: Seq<Step>| accounted(entry, w, grid) ==> #[trigger] accounted(*found, w, grid),
                    fresh(entry, start),
                    traced(*found, entry, start, |s: Step| swap_done(s, ks, nx, k as int, n as int)),
                    forall|a: int, b: int| 0 <= a < b < ks.len() ==> ks[a].0 < ks[b].0,
                    forall|a: int, b: int| 0 <= a < b < nx.len() ==> nx[a] != nx[b],
                    forall|w: Seq<Step>|
                        candidate(w, grid, budget, dictionary) && w.len() >= l && w.take(l) == start
                            && (w.len() == l || swap_done(w[l], ks, nx, k as int, n as int))
                            ==> #[trigger] accounted(*found, w, grid),
                decreases count - n,
            {
                let (x, y) = position_at(&next, n);
                assert(extends(start, nx[n as int]));
                let ghost pre = *found;
                let step: Step = ((x, y), Some(d));
                let ghost done_before = |s: Step| swap_done(s, ks, nx, k as int, n as int);
                let ghost done_after = |s: Step| swap_done(s, ks, nx, k as int, n + 1);
                assert forall|s: Step| done_before(s) implies #[trigger] done_after(s) by {
                    let (a, b) = choose|a: int, b: int|
                        0 <= a < ks.len() && 0 <= b < nx.len() && (a < k || (a == k && b < n)) && (#[trigger] ks[a]).0
                            == s.1.unwrap() && #[trigger] nx[b] == s.0;
                    assert(ks[a].0 == s.1.unwrap() && nx[b] == s.0);
                }
                assert(done_after(step)) by {
                    assert(ks[k as int].0 == d && nx[n as int] == (x, y));
                }
                assert forall|s: Step| #[trigger] done_after(s) implies done_before(s) || s == step by {
                    let (a, b) = choose|a: int, b: int|
                        0 <= a < ks.len() && 0 <= b < nx.len() && (a < k || (a == k && b < n + 1)) && (#[trigger] ks[a]).0
                            == s.1.unwrap() && #[trigger] nx[b] == s.0;
                    if !(a == k && b == n) {
                        assert(ks[a].0 == s.1.unwrap() && nx[b] == s.0);
                    }
                }
                if grid[y][x].character != d {
                    proof {
                        lemma_extend(start, step, grid);
                        dictionary.lemma_descend_push(spell(start, grid), d);
                        assert(!done_before(step)) by {
                            if done_before(step) {
                                let (a, b) = choose|a: int, b: int|
                                    0 <= a < ks.len() && 0 <= b < nx.len() && (a < k || (a == k && b < n))
                                        && (#[trigger] ks[a]).0 == d && #[trigger] nx[b] == (x, y);
                                if a < k {
                                    assert(ks[a].0 < ks[k as int].0);
                                } else {
                                    assert(nx[b] != nx[n as int]);
                                }
                            }
                        }
                        lemma_fresh_step(*found, entry, start, done_before, step);
                    }
                    word.push(step);
                    find_words(found, child, word, swap - 1, grid, Ghost(dictionary), Ghost(budget));
                    word.pop();
                    assert(word@ =~= start);
                    proof {
                        lemma_traced_after(pre, *found, entry, start, done_before, done_after, step);
                        assert forall|w: Seq<Step>|
                            candidate(w, grid, budget, dictionary) && w.len() > l && w.take(l) == start && w[l]
                                == step implies #[trigger] accounted(*found, w, grid) by {
                            lemma_next_step(w, start, grid, budget, dictionary, *node);
                        }
                        lemma_covered_after(pre, *found, start, done_before, done_after, step, grid, budget, dictionary);
                    }
                } else {
                    proof {
                        lemma_traced_wider(*found, entry, start, done_before, done_after);
                        assert forall|w: Seq<Step>|
                            candidate(w, grid, budget, dictionary) && w.len() > l && w.take(l) == start && w[l]
                                == step implies #[trigger] accounted(*found, w, grid) by {
                            lemma_next_step(w, start, grid, budget, dictionary, *node);
                        }
                        lemma_covered_after(pre, *found, start, done_before, done_after, step, grid, budget, dictionary);
                    }
                }
                n = n + 1;
            }
            proof {
                let done_row = |s: Step| swap_done(s, ks, nx, k as int, n as int);
                let done_next = |s: Step| swap_done(s, ks, nx, k + 1, 0);
                assert forall|s: Step| done_row(s) implies #[trigger] done_next(s) by {
                    let (a, b) = choose|a: int, b: int|
                        0 <= a < ks.len() && 0 <= b < nx.len() && (a < k || (a == k && b < n)) && (#[trigger] ks[a]).0
                            == s.1.unwrap() && #[trigger] nx[b] == s.0;
                    assert(ks[a].0 == s.1.unwrap() && nx[b] == s.0);
                }
                lemma_traced_wider(*found, entry, start, done_row, done_next);
                assert forall|w: Seq<Step>|
                    candidate(w, grid, budget, dictionary) && w.len() >= l && w.take(l) == start && (
                    w.len() == l || swap_done(w[l], ks, nx, k + 1, 0)) implies #[trigger] accounted(
                    *found,
                    w,
                    grid,
                ) by {
                    if w.len() > l {
                        let (a, b) = choose|a: int, b: int|
                            0 <= a < ks.len() && 0 <= b < nx.len() && (a < k + 1 || (a == k + 1 && b < 0))
                                && (#[trigger] ks[a]).0 == w[l].1.unwrap() && #[trigger] nx[b] == w[l].0;
                        assert(swap_done(w[l], ks, nx, k as int, n as int));
                    }
                }
            }
            k = k + 1;
        }
        proof {
            assert forall|w: Seq<Step>|
                candidate(w, grid, budget, dictionary) && w.len() > l && w.take(l) == start && w[l].1 is Some
                    implies swap_done(w[l], ks, nx, ks.len() as int, 0) by {
                lemma_next_step(w, start, grid, budget, dictionary, *node);
                let d = w[l].1.unwrap();
                assert(node.child_spec(d) is Some);
                let a = choose|a: int| 0 <= a < ks.len() && (#[trigger] ks[a]).0 == d;
                assert(nx.contains(w[l].0));
                let b = choose|b: int| 0 <= b < nx.len() && nx[b] == w[l].0;
                assert(ks[a].0 == d && nx[b] == w[l].0);
            }
            lemma_traced_wider(*found, entry, start, |s: Step| swap_done(s, ks, nx, ks.len() as int, 0),
                |s: Step| s.1 is Some || natural_done(s, nx, 0));
        }
    } else {
        proof {
            lemma_traced_wider(*found, entry, start, nothing, |s: Step| s.1 is Some || natural_done(s, nx, 0));
        }
    }
    assert forall|w: Seq<Step>|
        candidate(w, grid, budget, dictionary) && w.len() >= l && w.take(l) == start && (w.len() == l
            || w[l].1 is Some) implies #[trigger] accounted(*found, w, grid) by {
        if w.len() > l {
            lemma_next_step(w, start, grid, budget, dictionary, *node);
        } else {
            assert(w =~= start);
        }
    }
    let mut n: usize = 0;
    while n < count
        invariant
            n <= count,
            nx == positions_in(next),
            count == nx.len(),
            forall|m: int| 0 <= m < nx.len() ==> extends(start, #[trigger] nx[m]),
            forall|p: (usize, usize)| extends(start, p) ==> nx.contains(p),
            sound(*found, grid, budget, dictionary),
            found.capacity() == old(found).capacity(),
            word@ == start,
            start == old(word)@,
            l == start.len(),
            entry == *old(found),
            well_formed(start, grid),
            honest(start, grid),
            start.len() < WIDTH * HEIGHT,
            swaps(start) + swap == budget,
            dictionary.descend(spell(start, grid)) == Some(*node),
            forall|w: Seq<Step>| accounted(entry, w, grid) ==> #[trigger] accounted(*found, w, grid),
            fresh(entry, start),
            traced(*found, entry, start, |s: Step| s.1 is Some || natural_done(s, nx, n as int)),
            forall|a: int, b: int| 0 <= a < b < nx.len() ==> nx[a] != nx[b],
            forall|w: Seq<Step>|
                candidate(w, grid, budget, dictionary) && w.len() >= l && w.take(l) == start && (w.len()
                    == l || w[l].1 is Some || natural_done(w[l], nx, n as int)) ==> #[trigger] accounted(
                    *found,
                    w,
                    grid,
                ),
        decreases count - n,
    {
        let (x, y) = position_at(&next, n);
        assert(extends(start, nx[n as int]));
        let c = grid[y][x].character;
        let ghost pre = *found;
        let step: Step = ((x, y), None);
        let ghost done_before = |s: Step| s.1 is Some || natural_done(s, nx, n as int);
        let ghost done_after = |s: Step| s.1 is Some || natural_done(s, nx, n + 1);
        assert forall|s: Step| done_before(s) implies #[trigger] done_after(s) by {
            if s.1 is None {
                let b = choose|b: int| 0 <= b < n && b < nx.len() && #[trigger] nx[b] == s.0;
                assert(nx[b] == s.0);
            }
        }
        assert(done_after(step)) by {
            assert(nx[n as int] == (x, y));
        }
        assert forall|s: Step| #[trigger] done_after(s) implies done_before(s) || s == step by {
            if s.1 is None {
                let b = choose|b: int| 0 <= b < n + 1 && b < nx.len() && #[trigger] nx[b] == s.0;
                if b < n {
                    assert(nx[b] == s.0);
                }
            }
        }
        match node.child(c) {
            Some(child) => {
                proof {
                    assert(played(step, grid) == c);
                    lemma_extend(start, step, grid);
                    dictionary.lemma_descend_push(spell(start, grid), c);
                    assert(!done_before(step)) by {
                        if done_before(step) {
                            let b = choose|b: int| 0 <= b < n && b < nx.len() && #[trigger] nx[b] == (x, y);
                            assert(nx[b] != nx[n as int]);
                        }
                    }
                    lemma_fresh_step(*found, entry, start, done_before, step);
                }
                word.push(step);
                find_words(found, child, word, swap, grid, Ghost(dictionary), Ghost(budget));
                word.pop();
                assert(word@ =~= start);
                proof {
                    lemma_traced_after(pre, *found, entry, start, done_before, done_after, step);
                    assert forall|w: Seq<Step>|
                        candidate(w, grid, budget, dictionary) && w.len() > l && w.take(l) == start && w[l]
                            == step implies #[trigger] accounted(*found, w, grid) by {
                        lemma_next_step(w, start, grid, budget, dictionary, *node);
                    }
                    lemma_covered_after(pre, *found, start, done_before, done_after, step, grid, budget, dictionary);
                }
            },
            None => {
                proof {
                    lemma_traced_wider(*found, entry, start, done_before, done_after);
                    assert forall|w: Seq<Step>|
                        candidate(w, grid, budget, dictionary) && w.len() > l && w.take(l) == start && w[l]
                            == step implies #[trigger] accounted(*found, w, grid) by {
                        lemma_next_step(w, start, grid, budget, dictionary, *node);
                        assert(played(w[l], grid) == c);
                    }
                    lemma_covered_after(pre, *found, start, done_before, done_after, step, grid, budget, dictionary);
                }
            },
        }
        n = n + 1;
    }
    proof {
        assert forall|w: Seq<Step>|
            candidate(w, grid, budget, dictionary) && w.len() >= l && w.take(l) == start implies #[trigger] accounted(
            *found,
            w,
            grid,
        ) by {
            if w.len() > l && w[l].1 is None {
                lemma_next_step(w, start, grid, budget, dictionary, *node);
                assert(nx.contains(w[l].0));
                let b = choose|b: int| 0 <= b < nx.len() && nx[b] == w[l].0;
                assert(natural_done(w[l], nx, n as int));
            }
        }
    }
}

/// `r` is a ranking of the best paths: at most `top` results, best first,
/// each a distinct candidate path with its own score; and every candidate
/// path is among them, or they are `top` results that all score at least as
/// much.
pub open spec fn ranked(r: Seq<(Word, u32)>, grid: &Grid, budget: nat, top: nat, dictionary: TrieNode) -> bool {
    &&& r.len() <= top
    &&& forall|j: int|
        0 <= j < r.len() ==> candidate((#[trigger] r[j]).0@, grid, budget, dictionary) && r[j].1 as nat
            == score_of(r[j].0@, grid)
    &&& forall|a: int, b: int| 0 <= a < b < r.len() ==> r[a].1 >= r[b].1
    &&& forall|a: int, b: int| 0 <= a < b < r.len() ==> r[a].0@ != r[b].0@
    &&& forall|w: Seq<Step>|
        candidate(w, grid, budget, dictionary) ==> (exists|j: int| 0 <= j < r.len() && (#[trigger] r[j]).0@ == w)
            || (r.len() == top && forall|j: int| 0 <= j < r.len() ==> (#[trigger] r[j]).1 >= score_of(w, grid))
}

/// The path `p` stands among the first `bound` results of `r`.
spec fn listed_before(r: Seq<(Word, u32)>, p: Seq<Step>, bound: int) -> bool {
    exists|m: int| 0 <= m < bound && (#[trigger] r[m]).0@ == p
}

/// An injection from the first `n` naturals into the first `m` needs `n <= m`.
proof fn lemma_pigeonhole(f: spec_fn(int) -> int, n: int, m: int)
    requires
        0 <= n,
        0 <= m,
        forall|i: int| 0 <= i < n ==> 0 <= #[trigger] f(i) < m,
        forall|i: int, j: int| 0 <= i < n && 0 <= j < n && #[trigger] f(i) == #[trigger] f(j) ==> i == j,
    ensures
        n <= m,
{
    let x = set_int_range(0, n);
    let y = x.map(f);
    lemma_int_range(0, n);
    lemma_int_range(0, m);
    lemma_map_size(x, y, f);
    lemma_len_subset(y, set_int_range(0, m));
}

/// At each place both rankings fill, the first scores no more than the
/// second.
proof fn lemma_score_at_most(
    r1: Seq<(Word, u32)>,
    r2: Seq<(Word, u32)>,
    grid: &Grid,
    budget: nat,
    top: nat,
    dictionary: TrieNode,
    i: int,
)
    requires
        ranked(r1, grid, budget, top, dictionary),
        ranked(r2, grid, budget, top, dictionary),
        0 <= i < r1.len(),
        i < r2.len(),
    ensures
        r1[i].1 <= r2[i].1,
{
    if r1[i].1 > r2[i].1 {
        assert forall|j: int| 0 <= j <= i implies #[trigger] listed_before(r2, r1[j].0@, i) by {
            let w = r1[j].0@;
            if j < i {
                assert(r1[j].1 >= r1[i].1);
            }
            assert(candidate(w, grid, budget, dictionary));
            if exists|m: int| 0 <= m < r2.len() && (#[trigger] r2[m]).0@ == w {
                let m = choose|m: int| 0 <= m < r2.len() && (#[trigger] r2[m]).0@ == w;
                if m >= i {
                    if m > i {
                        assert(r2[i].1 >= r2[m].1);
                    }
                }
            } else {
                assert(r2[i].1 >= score_of(w, grid));
            }
        }
        let f = |j: int| choose|m: int| 0 <= m < i && (#[trigger] r2[m]).0@ == r1[j].0@;
        assert forall|j: int| 0 <= j < i + 1 implies 0 <= #[trigger] f(j) < i && r2[f(j)].0@ == r1[j].0@ by {
            assert(listed_before(r2, r1[j].0@, i));
        }
        assert forall|j1: int, j2: int| 0 <= j1 < i + 1 && 0 <= j2 < i + 1 && #[trigger] f(j1) == #[trigger] f(j2)
            implies j1 == j2 by {
            assert(r1[j1].0@ == r1[j2].0@);
        }
        lemma_pigeonhole(f, i + 1, i);
    }
}

/// A ranking holds at least as many results as any other.
proof fn lemma_length_at_most(
    r1: Seq<(Word, u32)>,
    r2: Seq<(Word, u32)>,
    grid: &Grid,
    budget: nat,
    top: nat,
    dictionary: TrieNode,
)
    requires
        ranked(r1, grid, budget, top, dictionary),
        ranked(r2, grid, budget, top, dictionary),
    ensures
        r1.len() <= r2.len(),
{
    if r1.len() > r2.len() {
        assert forall|j: int| 0 <= j < r1.len() implies #[trigger] listed_before(r2, r1[j].0@, r2.len() as int) by {
            assert(candidate(r1[j].0@, grid, budget, dictionary));
        }
        let f = |j: int| choose|m: int| 0 <= m < r2.len() && (#[trigger] r2[m]).0@ == r1[j].0@;
        assert forall|j: int| 0 <= j < r1.len() implies 0 <= #[trigger] f(j) < r2.len() && r2[f(j)].0@ == r1[j].0@ by {
            assert(listed_before(r2, r1[j].0@, r2.len() as int));
        }
        assert forall|j1: int, j2: int| 0 <= j1 < r1.len() && 0 <= j2 < r1.len() && #[trigger] f(j1) == #[trigger] f(j2)
            implies j1 == j2 by {
            assert(r1[j1].0@ == r1[j2].0@);
        }
        lemma_pigeonhole(f, r1.len() as int, r2.len() as int);
    }
}

/// Any two rankings of the same board, budget, size and dictionary hold the
/// same number of results with the same score at each place; only paths of
/// equal score may stand in another order or be others of that score.
pub proof fn lemma_rankings_agree(
    r1: Seq<(Word, u32)>,
    r2: Seq<(Word, u32)>,
    grid: &Grid,
    budget: nat,
    top: nat,
    dictionary: TrieNode,
)
    requires
        ranked(r1, grid, budget, top, dictionary),
        ranked(r2, grid, budget, top, dictionary),
    ensures
        r1.len() == r2.len(),
        forall|i: int| 0 <= i < r1.len() ==> #[trigger] r1[i].1 == r2[i].1,
{
    lemma_length_at_most(r1, r2, grid, budget, top, dictionary);
    lemma_length_at_most(r2, r1, grid, budget, top, dictionary);
    assert forall|i: int| 0 <= i < r1.len() implies #[trigger] r1[i].1 == r2[i].1 by {
        lemma_score_at_most(r1, r2, grid, budget, top, dictionary, i);
        lemma_score_at_most(r2, r1, grid, budget, top, dictionary, i);
    }
}

/// The `top` best-scoring paths on the board that spell words of
/// `dictionary`, best first, each with its score. A path may swap at most
/// `swap` tiles for other letters.
pub fn search(grid: &Grid, swap: usize, top: usize, dictionary: &TrieNode) -> (r: Vec<(Word, u32)>)
    ensures
        ranked(r@, grid, swap as nat, top as nat, *dictionary),
{
    let mut found: Top<(Word, u32)> = Top::new(top);
    let mut word: Word = Vec::new();
    proof {
        assert(spell(word@, grid) =~= Seq::<char>::empty());
        assert(dictionary.descend(Seq::<char>::empty()) == Some(*dictionary));
    }
    find_words(&mut found, dictionary, &mut word, swap, grid, Ghost(*dictionary), Ghost(swap as nat));
    let ghost pairs = found.pairs();
    let ghost last = found;
    let r = found.into_inner();
    proof {
        assert forall|w: Seq<Step>| candidate(w, grid, swap as nat, *dictionary) implies (exists|j: int|
            0 <= j < r@.len() && (#[trigger] r@[j]).0@ == w) || (r@.len() == top && forall|j: int|
            0 <= j < r@.len() ==> (#[trigger] r@[j]).1 >= score_of(w, grid)) by {
            assert(w.take(0) =~= Seq::<Step>::empty());
            assert(accounted(last, w, grid));
            if !(exists|j: int| 0 <= j < last.items().len() && (#[trigger] last.items()[j]).0@ == w) {
                assert forall|j: int| 0 <= j < r@.len() implies (#[trigger] r@[j]).1 >= score_of(w, grid) by {
                    assert(pairs[j] == (last.items()[j], last.ranks()[j]));
                    assert(last.ranks()[j] <= -(score_of(w, grid) as int));
                }
            } else {
                let j = choose|j: int| 0 <= j < last.items().len() && (#[trigger] last.items()[j]).0@ == w;
                assert(r@[j].0@ == w);
            }
        }
        assert forall|j: int| 0 <= j < r@.len() implies candidate((#[trigger] r@[j]).0@, grid, swap as nat, *dictionary)
            && r@[j].1 as nat == score_of(r@[j].0@, grid) by {
            assert(pairs[j].0 == r@[j]);
        }
        assert forall|a: int, b: int| 0 <= a < b < r@.len() implies r@[a].1 >= r@[b].1 && r@[a].0@
            != r@[b].0@ by {
            assert(pairs[a].0 == r@[a]);
            assert(pairs[b].0 == r@[b]);
        }
    }
    r
}

} // verus!
