use std::collections::VecDeque;
use tapevm::itertools::{combine, replace_sized_pattern, stateful};

#[test]
fn stateful_yields_one_output_per_item_and_the_final_one() {
    let out = stateful(
        vec![1u32, 2, 3, 4],
        0u32,
        |sum: u32, x: u32| (sum + x, sum + x),
        |sum: u32| Some(sum * 100),
    );
    assert_eq!(out, vec![1, 3, 6, 10, 1000]);
}

#[test]
fn stateful_without_a_final_item() {
    let out = stateful(vec![5u8, 6], 0u8, |prev: u8, x: u8| (x, prev), |_last: u8| None);
    assert_eq!(out, vec![0, 5]);
}

#[test]
fn stateful_on_an_empty_stream_only_finishes() {
    let out = stateful(Vec::<u8>::new(), 7u8, |s: u8, x: u8| (s, x), |s: u8| Some(s));
    assert_eq!(out, vec![7]);
    let none = stateful(Vec::<u8>::new(), 7u8, |s: u8, x: u8| (s, x), |_s: u8| None);
    assert_eq!(none, Vec::<u8>::new());
}

#[test]
fn stateful_hands_the_state_on_in_order() {
    let out = stateful(
        vec!['a', 'b', 'c'],
        String::new(),
        |mut seen: String, c: char| {
            seen.push(c);
            let copy = seen.clone();
            (seen, copy)
        },
        |seen: String| Some(seen + "!"),
    );
    assert_eq!(out, vec!["a", "ab", "abc", "abc!"]);
}

fn sum_when_same_sign(a: &i32, b: &i32) -> Option<i32> {
    if (*a >= 0) == (*b >= 0) {
        Some(*a + *b)
    } else {
        None
    }
}

#[test]
fn combine_merges_runs_of_neighbours() {
    let out = combine(vec![1, 2, 3, -1, -2, 5], 0, sum_when_same_sign);
    assert_eq!(out, vec![6, -3, 5]);
}

#[test]
fn combine_yields_the_seed_where_it_does_not_merge() {
    let out = combine(vec![-4, -5], 0, sum_when_same_sign);
    assert_eq!(out, vec![0, -9]);
}

#[test]
fn combine_on_an_empty_stream_yields_the_seed() {
    let out = combine(Vec::<i32>::new(), 42, sum_when_same_sign);
    assert_eq!(out, vec![42]);
}

#[test]
fn combine_that_never_merges_keeps_every_item_behind_the_seed() {
    let out = combine(vec![3, 1, 2], 9, |_a: &i32, _b: &i32| None);
    assert_eq!(out, vec![9, 3, 1, 2]);
}

#[test]
fn combine_that_always_merges_yields_one_item() {
    let out = combine(vec![3, 1, 2], 10, |a: &i32, b: &i32| Some(*a * *b));
    assert_eq!(out, vec![60]);
}

#[test]
fn combine_merges_only_neighbours() {
    // 1 and 3 would merge, but 2 stands between them.
    let out = combine(vec![1, 2, 3], 0, |a: &i32, b: &i32| {
        if *a % 2 == 1 && *b % 2 == 1 {
            Some(*a + *b)
        } else {
            None
        }
    });
    assert_eq!(out, vec![0, 1, 2, 3]);
}

fn pair_of_equals(window: &VecDeque<u8>) -> Option<u8> {
    if window[0] == window[1] {
        Some(window[0] + 100)
    } else {
        None
    }
}

#[test]
fn replace_sized_pattern_replaces_a_matching_window() {
    let out = replace_sized_pattern(vec![1u8, 2, 2, 3], 2, pair_of_equals);
    assert_eq!(out, vec![1, 102, 3]);
}

#[test]
fn replace_sized_pattern_consumes_the_whole_window() {
    // After the first two 7s are replaced the third has no partner left.
    let out = replace_sized_pattern(vec![7u8, 7, 7], 2, pair_of_equals);
    assert_eq!(out, vec![107, 7]);
    let four = replace_sized_pattern(vec![7u8, 7, 7, 7], 2, pair_of_equals);
    assert_eq!(four, vec![107, 107]);
}

#[test]
fn replace_sized_pattern_does_not_match_its_own_output() {
    // 1 1 gives 101; the 101 that follows is not paired with it.
    let out = replace_sized_pattern(vec![1u8, 1, 101], 2, pair_of_equals);
    assert_eq!(out, vec![101, 101]);
}

#[test]
fn replace_sized_pattern_passes_a_short_stream_unchanged() {
    let out = replace_sized_pattern(vec![4u8, 4], 3, |_w: &VecDeque<u8>| Some(0));
    assert_eq!(out, vec![4, 4]);
    let empty = replace_sized_pattern(Vec::<u8>::new(), 1, |_w: &VecDeque<u8>| Some(0));
    assert_eq!(empty, Vec::<u8>::new());
}

#[test]
fn replace_sized_pattern_drains_what_is_pending_at_the_end() {
    let out = replace_sized_pattern(vec![1u8, 2, 3, 4, 5], 3, |_w: &VecDeque<u8>| None);
    assert_eq!(out, vec![1, 2, 3, 4, 5]);
}

#[test]
fn replace_sized_pattern_shows_the_matcher_full_windows_only() {
    let out = replace_sized_pattern(vec![1u8, 2, 3, 4], 3, |w: &VecDeque<u8>| {
        assert_eq!(w.len(), 3);
        if w[0] == 2 {
            Some(w[0] + w[1] + w[2])
        } else {
            None
        }
    });
    assert_eq!(out, vec![1, 9]);
}

#[test]
fn replace_sized_pattern_of_width_one_maps_or_keeps() {
    let out = replace_sized_pattern(vec![1u8, 2, 3], 1, |w: &VecDeque<u8>| {
        if w[0] == 2 {
            Some(20)
        } else {
            None
        }
    });
    assert_eq!(out, vec![1, 20, 3]);
}

#[test]
fn replace_sized_pattern_does_not_pair_a_consumed_item() {
    let out = replace_sized_pattern(vec![1u8, 1, 1], 2, |w: &VecDeque<u8>| {
        if w[0] == 1 && w[1] == 1 {
            Some(2)
        } else {
            None
        }
    });
    assert_eq!(out, vec![2, 1]);
}

#[test]
fn replace_sized_pattern_does_not_put_a_replacement_back() {
    let out = replace_sized_pattern(vec![1u8, 1, 2], 2, |w: &VecDeque<u8>| {
        if w[0] == w[1] {
            Some(w[0] + w[1])
        } else {
            None
        }
    });
    assert_eq!(out, vec![2, 2]);
}

#[test]
fn stateful_calls_its_closures_on_what_it_hands_on_only() {
    // The sum stays small along this stream; the closures would overflow on
    // other arguments and are never shown any.
    let out = stateful(
        vec![100u8, 100, 50],
        0u8,
        |sum: u8, x: u8| (sum + x, sum + x),
        |sum: u8| Some(sum + 5),
    );
    assert_eq!(out, vec![100, 200, 250, 255]);
}

#[test]
fn combine_shows_its_combinator_the_pending_item_and_the_next_only() {
    let out = combine(vec![100u8, 100, 50, 7], 0u8, |a: &u8, b: &u8| {
        if *b >= 50 {
            Some(*a + *b)
        } else {
            None
        }
    });
    assert_eq!(out, vec![250, 7]);
}
