use spellcast::trie::TrieNode;
use spellcast::{
    char_picked_replaced_index, find_score, grid_is_valid, search, word_to_string, Grid, Letter,
    Modifier, Word,
};

/// A board from 25 letters, row by row, without modifiers.
fn board(letters: &str) -> Grid {
    let cs: Vec<char> = letters.chars().collect();
    assert_eq!(cs.len(), 25);
    std::array::from_fn(|y| std::array::from_fn(|x| Letter::new(cs[y * 5 + x], None)))
}

/// c a at the top left, t r below them, the rest filled with z.
fn small_board() -> Grid {
    board("cazzztrzzzzzzzzzzzzzzzzzz")
}

#[test]
fn letter_new_keeps_fields() {
    let l = Letter::new('q', Some(Modifier::TripleLetter));
    assert_eq!(l.character, 'q');
    assert_eq!(l.modifier, Some(Modifier::TripleLetter));
}

#[test]
fn plain_score_is_letter_sum() {
    let g = small_board();
    let w: Word = vec![((0, 0), None), ((1, 0), None), ((0, 1), None)];
    assert_eq!(find_score(&w, &g), 5 + 1 + 2);
}

#[test]
fn long_word_gets_bonus() {
    let g = board("abcdefghijklmnopqrstuvwxy");
    let w: Word = vec![
        ((0, 0), None),
        ((1, 0), None),
        ((2, 0), None),
        ((3, 0), None),
        ((4, 0), None),
        ((4, 1), None),
    ];
    // a b c d e j
    assert_eq!(find_score(&w, &g), 1 + 4 + 5 + 3 + 1 + 7 + 10);
    let short: Word = w[..5].to_vec();
    assert_eq!(find_score(&short, &g), 1 + 4 + 5 + 3 + 1);
}

#[test]
fn modifiers_apply_per_tile() {
    let mut g = small_board();
    g[0][0].modifier = Some(Modifier::DoubleLetter);
    g[0][1].modifier = Some(Modifier::TripleLetter);
    let w: Word = vec![((0, 0), None), ((1, 0), None), ((0, 1), None)];
    assert_eq!(find_score(&w, &g), 10 + 3 + 2);
    g[1][0].modifier = Some(Modifier::DoubleWord);
    assert_eq!(find_score(&w, &g), (10 + 3 + 2) * 2);
}

#[test]
fn double_word_does_not_double_bonus() {
    let mut g = board("abcdefghijklmnopqrstuvwxy");
    g[0][0].modifier = Some(Modifier::DoubleWord);
    g[0][4].modifier = Some(Modifier::DoubleWord);
    let w: Word = vec![
        ((0, 0), None),
        ((1, 0), None),
        ((2, 0), None),
        ((3, 0), None),
        ((4, 0), None),
        ((4, 1), None),
    ];
    assert_eq!(find_score(&w, &g), (1 + 4 + 5 + 3 + 1 + 7) * 2 + 10);
}

#[test]
fn swapped_letter_keeps_tile_modifier() {
    let mut g = small_board();
    g[0][1].modifier = Some(Modifier::TripleLetter);
    let w: Word = vec![((0, 0), None), ((1, 0), Some('q')), ((0, 1), None)];
    assert_eq!(find_score(&w, &g), 5 + 24 + 2);
}

#[test]
fn finds_cat_and_car() {
    let dict = TrieNode::build(&["cat", "car", "care"]);
    let g = small_board();
    let r = search(&g, 0, 3, &dict);
    let mut words: Vec<(String, u32)> =
        r.iter().map(|(w, s)| (word_to_string(w, &g), *s)).collect();
    words.sort();
    assert_eq!(words, vec![("car".to_string(), 8), ("cat".to_string(), 8)]);
}

#[test]
fn finds_care_when_e_is_near() {
    let dict = TrieNode::build(&["cat", "car", "care"]);
    let g = board("cazzztrezzzzzzzzzzzzzzzzz");
    let r = search(&g, 0, 3, &dict);
    assert_eq!(r.len(), 3);
    assert_eq!(word_to_string(&r[0].0, &g), "care");
    assert_eq!(r[0].1, 9);
    assert_eq!(r[1].1, 8);
    assert_eq!(r[2].1, 8);
}

#[test]
fn swap_reaches_cot() {
    let dict = TrieNode::build(&["cot"]);
    let g = small_board();
    assert!(search(&g, 0, 5, &dict).is_empty());
    let r = search(&g, 1, 5, &dict);
    assert!(!r.is_empty());
    let through_a: Word = vec![((0, 0), None), ((1, 0), Some('o')), ((0, 1), None)];
    assert!(r.iter().any(|(w, s)| *w == through_a && *s == 8));
    for (w, s) in &r {
        assert_eq!(word_to_string(w, &g).to_lowercase(), "cot");
        assert_eq!(w.iter().filter(|(_, o)| o.is_some()).count(), 1);
        assert_eq!(*s, 8);
    }
}

#[test]
fn results_are_well_formed_paths() {
    let dict = TrieNode::build(&["ate", "tea", "eat", "tear", "rate", "art", "rat", "tar"]);
    let g = board("ratezeartztearzzzzzzzzzzz");
    for swap in 0..2 {
        let r = search(&g, swap, 10, &dict);
        assert!(!r.is_empty());
        for (w, s) in &r {
            for i in 0..w.len() {
                for j in i + 1..w.len() {
                    assert_ne!(w[i].0, w[j].0);
                }
            }
            for pair in w.windows(2) {
                let (a, b) = (pair[0].0, pair[1].0);
                assert!(a != b);
                assert!(a.0.abs_diff(b.0) <= 1 && a.1.abs_diff(b.1) <= 1);
            }
            assert!(w.iter().filter(|(_, o)| o.is_some()).count() <= swap);
            let spelled: String = word_to_string(w, &g).to_lowercase();
            assert!(["ate", "tea", "eat", "tear", "rate", "art", "rat", "tar"]
                .contains(&spelled.as_str()));
            assert_eq!(*s, find_score(w, &g));
        }
        for pair in r.windows(2) {
            assert!(pair[0].1 >= pair[1].1);
        }
    }
}

#[test]
fn search_is_repeatable() {
    let dict = TrieNode::build(&["ate", "tea", "eat", "tear", "rate", "art", "rat", "tar"]);
    let g = board("ratezeartztearzzzzzzzzzzz");
    let a = search(&g, 1, 6, &dict);
    let b = search(&g, 1, 6, &dict);
    let sa: Vec<u32> = a.iter().map(|(_, s)| *s).collect();
    let sb: Vec<u32> = b.iter().map(|(_, s)| *s).collect();
    assert_eq!(sa, sb);
    assert_eq!(a, b);
}

#[test]
fn top_result_is_best_of_all() {
    let dict = TrieNode::build(&["ate", "tea", "eat", "tear", "rate", "art", "rat", "tar"]);
    let mut g = board("ratezeartztearzzzzzzzzzzz");
    g[1][1].modifier = Some(Modifier::DoubleWord);
    let all = search(&g, 1, 100000, &dict);
    let best = all.iter().map(|(_, s)| *s).max().unwrap();
    let top = search(&g, 1, 3, &dict);
    assert_eq!(top.len(), 3);
    assert_eq!(top[0].1, best);
    let mut scores: Vec<u32> = all.iter().map(|(_, s)| *s).collect();
    scores.sort_by(|a, b| b.cmp(a));
    let top_scores: Vec<u32> = top.iter().map(|(_, s)| *s).collect();
    assert_eq!(top_scores, scores[..3].to_vec());
}

#[test]
fn zero_top_gives_nothing() {
    let dict = TrieNode::build(&["cat"]);
    assert!(search(&small_board(), 0, 0, &dict).is_empty());
}

#[test]
fn display_marks_swaps_in_capitals() {
    let g = small_board();
    let w: Word = vec![((0, 0), None), ((1, 0), Some('o')), ((0, 1), None)];
    assert_eq!(word_to_string(&w, &g), "cOt");
    assert_eq!(word_to_string(&Vec::new(), &g), "");
}

#[test]
fn cell_lookup_reports_use_and_swap() {
    let g = small_board();
    let w: Word = vec![((0, 0), None), ((1, 0), Some('o')), ((0, 1), None)];
    assert_eq!(char_picked_replaced_index(&g, &w, 0), ('c', true, false, 0));
    assert_eq!(char_picked_replaced_index(&g, &w, 1), ('o', true, true, 1));
    assert_eq!(char_picked_replaced_index(&g, &w, 5), ('t', true, false, 2));
    assert_eq!(char_picked_replaced_index(&g, &w, 6), ('r', false, false, 0));
}

#[test]
fn grid_validity() {
    let mut g = small_board();
    assert!(grid_is_valid(&g));
    g[4][4].character = 'Q';
    assert!(!grid_is_valid(&g));
    g[4][4].character = ' ';
    assert!(!grid_is_valid(&g));
}

#[test]
fn results_are_distinct_and_as_many_as_allowed() {
    let dict = TrieNode::build(&["cot"]);
    let g = small_board();
    let r = search(&g, 1, 3, &dict);
    assert_eq!(r.len(), 2);
    assert_ne!(r[0].0, r[1].0);
    let through_r: Word = vec![((0, 0), None), ((1, 1), Some('o')), ((0, 1), None)];
    assert!(r.iter().any(|(w, _)| *w == through_r));
}
