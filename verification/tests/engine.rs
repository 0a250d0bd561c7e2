use sre_engine::constants::SreFlag;
use sre_engine::engine::State;
use sre_engine::engine::StrDrive;
use sre_engine::MAXREPEAT;

const MAX: u32 = MAXREPEAT as u32;

fn state<'a>(s: &'a str, codes: &'a [u32]) -> State<'a> {
    State::new(StrDrive::Str(s), 0, usize::MAX, SreFlag::empty(), codes)
}

#[test]
fn new_clamps_start_and_end() {
    let codes = [1u32];
    let st = State::new(StrDrive::Str("héllo"), 9, 20, SreFlag::empty(), &codes);
    assert_eq!(st.end, 5);
    assert_eq!(st.start, 5);
    assert_eq!(st.string_position, 5);
    let st = State::new(StrDrive::Bytes(b"abcdef"), 2, 4, SreFlag::empty(), &codes);
    assert_eq!(st.start, 2);
    assert_eq!(st.end, 4);
    assert_eq!(st.lastindex, -1);
    assert!(!st.has_matched);
    assert!(st.marks.is_empty());
}

#[test]
fn literal_matches_at_start() {
    let codes = [16, 97, 1];
    let st = state("abc", &codes).pymatch();
    assert!(st.has_matched);
    assert_eq!(st.string_position, 1);
}

#[test]
fn literal_fails_at_start_but_is_found_by_search() {
    let codes = [16, 98, 1];
    let st = state("abc", &codes).pymatch();
    assert!(!st.has_matched);
    let st = state("abc", &codes).search();
    assert!(st.has_matched);
    assert_eq!(st.start, 1);
    assert_eq!(st.string_position, 2);
}

#[test]
fn search_without_match_reaches_end() {
    let codes = [16, 122, 1];
    let st = state("abc", &codes).search();
    assert!(!st.has_matched);
    assert_eq!(st.start, st.end);
    assert_eq!(st.start, 3);
}

#[test]
fn search_with_start_after_end_returns_state_unchanged() {
    let codes = [16, 97, 1];
    let mut st = state("abc", &codes);
    st.start = 3;
    st.end = 1;
    let st = st.search();
    assert!(!st.has_matched);
    assert_eq!(st.start, 3);
    assert_eq!(st.end, 1);
}

#[test]
fn info_block_is_skipped() {
    let codes = [14, 3, 0, 0, 16, 97, 1];
    let st = state("ab", &codes).pymatch();
    assert!(st.has_matched);
    assert_eq!(st.string_position, 1);
}

#[test]
fn empty_pattern_fails() {
    let codes: [u32; 0] = [];
    let st = state("ab", &codes).pymatch();
    assert!(!st.has_matched);
}

#[test]
fn failure_op_fails() {
    let codes = [0u32];
    let st = state("ab", &codes).pymatch();
    assert!(!st.has_matched);
}

#[test]
fn branch_takes_second_alternative() {
    // a|b
    let codes = [7, 5, 16, 97, 15, 7, 5, 16, 98, 15, 2, 0, 1];
    let st = state("b", &codes).pymatch();
    assert!(st.has_matched);
    assert_eq!(st.string_position, 1);
    let st = state("a", &codes).pymatch();
    assert!(st.has_matched);
    let st = state("c", &codes).pymatch();
    assert!(!st.has_matched);
}

#[test]
fn greedy_repeat_of_any_all() {
    // (?s).*
    let codes = [24, 5, 0, MAX, 3, 1, 1];
    let st = state("abc", &codes).pymatch();
    assert!(st.has_matched);
    assert_eq!(st.string_position, 3);
}

#[test]
fn greedy_repeat_followed_by_literal() {
    // a*b
    let codes = [24, 6, 0, MAX, 16, 97, 1, 16, 98, 1];
    let st = state("aaab", &codes).pymatch();
    assert!(st.has_matched);
    assert_eq!(st.string_position, 4);
}

#[test]
fn greedy_repeat_seek_tests_the_count_from_before_the_seek() {
    // (?s).{2,}b: the repeat takes all four chars, then gives chars back until a 'b'
    // follows; the test against the minimum reads the count from before it gave any back,
    // so it finds the 'b' at the start and the tail matches there
    let codes = [24, 5, 2, MAX, 3, 1, 16, 98, 1];
    let st = state("bxyz", &codes).pymatch();
    assert!(st.has_matched);
    assert_eq!(st.string_position, 1);
}

#[test]
fn greedy_repeat_below_minimum_fails() {
    // a{2,}
    let codes = [24, 5, 2, MAX, 16, 97, 1, 1];
    let st = state("ab", &codes).pymatch();
    assert!(!st.has_matched);
    let st = state("aab", &codes).pymatch();
    assert!(st.has_matched);
    assert_eq!(st.string_position, 2);
}

#[test]
fn greedy_repeat_backtracks_into_tail() {
    // a*ab : the repeat gives back one 'a'
    let codes = [24, 6, 0, MAX, 16, 97, 1, 16, 97, 16, 98, 1];
    let st = state("aaab", &codes).pymatch();
    assert!(st.has_matched);
    assert_eq!(st.string_position, 4);
}

#[test]
fn lazy_repeat_stops_early() {
    // a*?b
    let codes = [26, 6, 0, MAX, 16, 97, 1, 16, 98, 1];
    let st = state("aab", &codes).pymatch();
    assert!(st.has_matched);
    assert_eq!(st.string_position, 3);
    // a*? alone matches the empty string
    let codes = [26, 6, 0, MAX, 16, 97, 1, 1];
    let st = state("aab", &codes).pymatch();
    assert!(st.has_matched);
    assert_eq!(st.string_position, 0);
}

#[test]
fn mark_and_group_reference() {
    // (a)\1
    let codes = [17, 0, 16, 97, 17, 1, 11, 0, 1];
    let st = state("aa", &codes).pymatch();
    assert!(st.has_matched);
    assert_eq!(st.string_position, 2);
    assert_eq!(st.marks, vec![Some(0), Some(1)]);
    assert_eq!(st.lastindex, 1);
    let st = state("ab", &codes).pymatch();
    assert!(!st.has_matched);
}

#[test]
fn group_reference_ignoring_case() {
    // (a)(?i:\1)
    let codes = [17, 0, 16, 97, 17, 1, 30, 0, 1];
    let st = state("aA", &codes).pymatch();
    assert!(st.has_matched);
    assert_eq!(st.string_position, 2);
}

#[test]
fn group_exists_chooses_branch() {
    // <GROUPREF_EXISTS> <group 0> <skip>: group 0 was never set, so it jumps
    let codes = [12, 0, 4, 16, 97, 1];
    let st = state("b", &codes).pymatch();
    assert!(st.has_matched);
    assert_eq!(st.string_position, 0);
    // after (a), group 0 exists: the literal after the operation must match
    let codes = [17, 0, 16, 97, 17, 1, 12, 0, 3, 16, 98, 1];
    let st = state("ab", &codes).pymatch();
    assert!(st.has_matched);
    assert_eq!(st.string_position, 2);
}

#[test]
fn category_digit_and_word() {
    let codes = [8, 0, 1];
    assert!(state("5", &codes).pymatch().has_matched);
    assert!(!state("x", &codes).pymatch().has_matched);
    let codes = [8, 14, 1];
    assert!(state("é", &codes).pymatch().has_matched);
    assert!(!state("!", &codes).pymatch().has_matched);
}

#[test]
fn in_range_set() {
    // [a-z]
    let codes = [13, 5, 22, 97, 122, 0, 1];
    let st = state("q", &codes).pymatch();
    assert!(st.has_matched);
    assert_eq!(st.string_position, 1);
    assert!(!state("Q", &codes).pymatch().has_matched);
    // (?i)[a-z]
    let codes = [31, 5, 22, 97, 122, 0, 1];
    assert!(state("Q", &codes).pymatch().has_matched);
}

#[test]
fn negated_literal_set() {
    // [^x]
    let codes = [13, 5, 21, 16, 120, 0, 1];
    assert!(state("y", &codes).pymatch().has_matched);
    assert!(!state("x", &codes).pymatch().has_matched);
}

#[test]
fn at_beginning_and_end() {
    // ^b searched in "ab" never matches
    let codes = [6, 0, 16, 98, 1];
    let st = state("ab", &codes).search();
    assert!(!st.has_matched);
    // b$ searched in "ab"
    let codes = [16, 98, 6, 7, 1];
    let st = state("ab", &codes).search();
    assert!(st.has_matched);
    assert_eq!(st.start, 1);
}

#[test]
fn word_boundary() {
    // \bb
    let codes = [6, 3, 16, 98, 1];
    let st = state("a b", &codes).search();
    assert!(st.has_matched);
    assert_eq!(st.start, 2);
    let st = state("ab", &codes).search();
    assert!(!st.has_matched);
}

#[test]
fn lookahead_at_start() {
    // (?=a)a
    let codes = [4, 5, 0, 16, 97, 1, 16, 97, 1];
    let st = state("ab", &codes).pymatch();
    assert!(st.has_matched);
    assert_eq!(st.string_position, 1);
    // (?!a)b at start of "ab" fails
    let codes = [5, 5, 0, 16, 97, 1, 16, 98, 1];
    assert!(!state("ab", &codes).pymatch().has_matched);
    assert!(state("b", &codes).pymatch().has_matched);
}

#[test]
fn lazy_repeat_with_min_until() {
    // (?:a)*?b
    let codes = [23, 5, 0, MAX, 16, 97, 19, 16, 98, 1];
    let st = state("aab", &codes).pymatch();
    assert!(st.has_matched);
    assert_eq!(st.string_position, 3);
}

#[test]
fn search_over_multibyte_text() {
    let codes = [16, 97, 1];
    let st = state("éa", &codes).search();
    assert!(st.has_matched);
    assert_eq!(st.start, 1);
    assert_eq!(st.string_position, 2);
}

#[test]
fn search_over_bytes() {
    let codes = [16, 122, 1];
    let st = State::new(StrDrive::Bytes(b"xyz"), 0, 3, SreFlag::empty(), &codes).search();
    assert!(st.has_matched);
    assert_eq!(st.start, 2);
    assert_eq!(st.string_position, 3);
}

#[test]
fn match_all_requires_the_end() {
    let codes = [16, 97, 1];
    let mut st = state("ab", &codes);
    st.match_all = true;
    assert!(!st.pymatch().has_matched);
    let mut st = state("a", &codes);
    st.match_all = true;
    assert!(st.pymatch().has_matched);
}

#[test]
fn must_advance_rejects_empty_match_at_start() {
    let codes = [1u32];
    let mut st = state("ab", &codes);
    st.must_advance = true;
    assert!(!st.pymatch().has_matched);
}

#[test]
fn reset_restores_the_start() {
    let codes = [17, 0, 16, 97, 17, 1, 1];
    let mut st = state("ab", &codes).pymatch();
    assert!(st.has_matched);
    assert_eq!(st.string_position, 1);
    st.reset();
    assert!(!st.has_matched);
    assert_eq!(st.string_position, 0);
    assert_eq!(st.lastindex, -1);
    assert!(st.marks.is_empty());
}
