use sre_engine::chars::{
    category, is_digit, is_linebreak, is_loc_alnum, is_loc_word, is_space, is_uni_digit,
    is_uni_linebreak, is_uni_space, is_word, lower_ascii, upper_locate,
};
use sre_engine::charset::charset;
use sre_engine::constants::{SreCatCode, SreFlag};
use sre_engine::state::State;
use sre_engine::strdrive::StrDrive;

fn state<'a>(s: &'a str, codes: &'a [u32]) -> State<'a> {
    State::new(StrDrive::Str(s), 0, usize::MAX, SreFlag::empty(), codes)
}

#[test]
fn lower_ascii_twice_is_once() {
    for ch in [0u32, 'A' as u32, 'Z' as u32, 'a' as u32, '[' as u32, 0xC4, 0x1F600] {
        assert_eq!(lower_ascii(lower_ascii(ch)), lower_ascii(ch));
    }
}

#[test]
fn ascii_case_mappings_undo_each_other() {
    for ch in 'A' as u32..='Z' as u32 {
        assert_eq!(upper_locate(lower_ascii(ch)), ch);
    }
    for ch in 'a' as u32..='z' as u32 {
        assert_eq!(lower_ascii(upper_locate(ch)), ch);
    }
    assert_eq!(upper_locate(0xE4), 0xE4);
}

#[test]
fn negated_categories_complement_their_positives() {
    let pairs = [
        (SreCatCode::DIGIT, SreCatCode::NOT_DIGIT),
        (SreCatCode::SPACE, SreCatCode::NOT_SPACE),
        (SreCatCode::WORD, SreCatCode::NOT_WORD),
        (SreCatCode::LINEBREAK, SreCatCode::NOT_LINEBREAK),
        (SreCatCode::LOC_WORD, SreCatCode::LOC_NOT_WORD),
        (SreCatCode::UNI_DIGIT, SreCatCode::UNI_NOT_DIGIT),
        (SreCatCode::UNI_SPACE, SreCatCode::UNI_NOT_SPACE),
        (SreCatCode::UNI_WORD, SreCatCode::UNI_NOT_WORD),
        (SreCatCode::UNI_LINEBREAK, SreCatCode::UNI_NOT_LINEBREAK),
    ];
    for (pos, neg) in pairs {
        for ch in [' ' as u32, '\n' as u32, '7' as u32, 'q' as u32, '_' as u32, 0xE9, 0x2028] {
            assert_eq!(category(neg, ch), !category(pos, ch));
        }
    }
}

#[test]
fn locale_classes_are_the_ascii_ones() {
    for ch in [0u32, '_' as u32, '0' as u32, 'x' as u32, 'X' as u32, '-' as u32, 0xE9, 0x100] {
        assert_eq!(is_loc_word(ch), is_word(ch));
        assert_eq!(is_loc_alnum(ch), is_word(ch) && ch != '_' as u32);
    }
}

#[test]
fn unicode_classes_extend_the_ascii_ones() {
    for ch in 0u32..0x3001 {
        if is_space(ch) {
            assert!(is_uni_space(ch));
        }
        if is_linebreak(ch) {
            assert!(is_uni_linebreak(ch));
        }
        assert_eq!(is_uni_digit(ch), is_digit(ch));
    }
    assert!(is_uni_space(0x2028));
    assert!(!is_space(0x2028));
}

#[test]
fn negate_flips_membership() {
    // [a] and [^a]
    assert!(charset(&[16, 97, 0], 'a' as u32));
    assert!(!charset(&[21, 16, 97, 0], 'a' as u32));
    assert!(!charset(&[16, 97, 0], 'b' as u32));
    assert!(charset(&[21, 16, 97, 0], 'b' as u32));
    // two NEGATEs cancel out
    assert!(charset(&[21, 21, 16, 97, 0], 'a' as u32));
}

#[test]
fn range_set_holds_its_bounds() {
    let set = [22, 'b' as u32, 'd' as u32, 0];
    let negated = [21, 22, 'b' as u32, 'd' as u32, 0];
    for ch in 'a' as u32..='e' as u32 {
        let inside = 'b' as u32 <= ch && ch <= 'd' as u32;
        assert_eq!(charset(&set, ch), inside);
        assert_eq!(charset(&negated, ch), !inside);
    }
}

#[test]
fn unknown_set_instruction_rejects() {
    // an operation that is no set instruction ends the set program without a match
    assert!(!charset(&[2, 16, 97, 0], 'a' as u32));
    assert!(!charset(&[21, 2, 0], 'a' as u32));
    // a code that names no operation does the same
    assert!(!charset(&[99, 0], 'a' as u32));
}

#[test]
fn failed_branch_gives_back_its_marks() {
    // (?:(a)x|ay)
    let codes = [7, 11, 17, 0, 16, 97, 17, 1, 16, 120, 15, 9, 7, 16, 97, 16, 121, 15, 2, 0, 1];
    let st = state("ay", &codes).pymatch();
    assert!(st.has_matched);
    assert_eq!(st.string_position, 2);
    assert!(st.marks.is_empty());
    assert_eq!(st.lastindex, -1);
    let st = state("ax", &codes).pymatch();
    assert!(st.has_matched);
    assert_eq!(st.marks, vec![Some(0), Some(1)]);
    assert_eq!(st.lastindex, 1);
}

#[test]
fn boundary_and_non_boundary_complement() {
    let boundary = [6, 3, 1];
    let non_boundary = [6, 4, 1];
    let text = "ab c";
    for start in 0..=4 {
        let b = State::new(StrDrive::Str(text), start, 4, SreFlag::empty(), &boundary).pymatch();
        let n = State::new(StrDrive::Str(text), start, 4, SreFlag::empty(), &non_boundary)
            .pymatch();
        assert_ne!(b.has_matched, n.has_matched);
    }
    // in an empty subject neither holds
    assert!(!state("", &boundary).pymatch().has_matched);
    assert!(!state("", &non_boundary).pymatch().has_matched);
}

#[test]
fn reset_twice_is_reset_once() {
    let codes = [17, 0, 16, 97, 17, 1, 1];
    let mut st = state("ab", &codes).pymatch();
    st.reset();
    let (p, l, m) = (st.string_position, st.lastindex, st.marks.clone());
    st.reset();
    assert_eq!(st.string_position, p);
    assert_eq!(st.lastindex, l);
    assert_eq!(st.marks, m);
    assert!(!st.has_matched);
}

#[test]
fn reset_of_a_new_state_changes_nothing() {
    let codes = [16, 97, 1];
    let mut st = State::new(StrDrive::Str("xyz"), 1, 3, SreFlag::empty(), &codes);
    st.reset();
    assert_eq!(st.start, 1);
    assert_eq!(st.end, 3);
    assert_eq!(st.string_position, 1);
    assert_eq!(st.lastindex, -1);
    assert!(st.marks.is_empty());
    assert!(!st.has_matched);
}

#[test]
fn search_stays_between_start_and_end() {
    let codes = [16, 'c' as u32, 1];
    let st = State::new(StrDrive::Str("abcabc"), 1, 5, SreFlag::empty(), &codes).search();
    assert!(st.has_matched);
    assert_eq!(st.start, 2);
    assert_eq!(st.end, 5);
    let st = State::new(StrDrive::Str("abcabc"), 3, 5, SreFlag::empty(), &codes).search();
    assert!(!st.has_matched);
    assert_eq!(st.start, 5);
}

#[test]
fn offsets_follow_char_positions() {
    let s = StrDrive::Str("héllo");
    // 'h' takes one byte and 'é' two
    assert_eq!(s.offset(0, 0), 0);
    assert_eq!(s.offset(0, 1), 1);
    assert_eq!(s.offset(0, 2), 3);
    assert_eq!(s.offset(1, 2), 4);
    // moving past the end stops at the end
    assert_eq!(s.offset(3, 10), 6);
    assert_eq!(s.back_offset(3, 2), 0);
    assert_eq!(s.back_offset(3, 1), 1);
    assert_eq!(s.back_offset(6, 5), 0);
    assert_eq!(s.peek(1), 0xE9);
    assert_eq!(s.peek(3), 'l' as u32);
    let b = StrDrive::Bytes("héllo".as_bytes());
    assert_eq!(b.offset(1, 2), 3);
    assert_eq!(b.back_offset(3, 2), 1);
    assert_eq!(b.peek(1), 0xC3);
}

#[test]
fn back_peek_reads_the_raw_bytes_before() {
    let s = StrDrive::Str("héllo");
    // the two UTF-8 bytes of 'é', read as one big-endian number
    assert_eq!(s.back_peek(3), 0xC3A9);
    assert_eq!(s.back_peek(1), 'h' as u32);
    let b = StrDrive::Bytes(b"xyz");
    assert_eq!(b.back_peek(2), 'y' as u32);
}

fn byte_offset(text: &str, position: usize) -> usize {
    text.char_indices().map(|(i, _)| i).chain(std::iter::once(text.len())).nth(position).unwrap()
}

#[test]
fn finished_context_stays_in_step_with_the_text() {
    // (?s).*a over two-byte chars: the repeat moves forward, then back to the 'a'
    let max = sre_engine::MAXREPEAT as u32;
    let codes = [24, 5, 0, max, 3, 1, 16, 97, 1];
    let text = "ééaé";
    let st = state(text, &codes).pymatch();
    assert!(st.has_matched);
    assert_eq!(st.string_position, 3);
    let last = st.popped_context.unwrap();
    assert_eq!(last.string_offset, byte_offset(text, last.string_position));
    // a group reference moves both the context and the group in step
    let codes = [17, 0, 3, 17, 1, 11, 0, 1];
    let text = "éé";
    let st = state(text, &codes).pymatch();
    assert!(st.has_matched);
    assert_eq!(st.string_position, 2);
    let last = st.popped_context.unwrap();
    assert_eq!(last.string_offset, byte_offset(text, last.string_position));
}

#[test]
fn lookahead_after_the_start_reads_at_the_offset_difference() {
    // (?=a)a: the look-ahead's context starts at byte offset 0 wherever it stands, so after
    // the start it reads the first char of the text
    let codes = [4, 5, 0, 16, 97, 1, 16, 97, 1];
    assert!(!state("ba", &codes).search().has_matched);
    assert!(state("ab", &codes).search().has_matched);
}

#[test]
fn literal_matches_exactly_where_its_char_stands() {
    let text = "héllo";
    let codes = [16, 'l' as u32, 1];
    for start in 0..=5 {
        let st = State::new(StrDrive::Str(text), start, 5, SreFlag::empty(), &codes).pymatch();
        let expected = text.chars().nth(start) == Some('l');
        assert_eq!(st.has_matched, expected);
    }
}

#[test]
fn literal_variants_test_the_char_at_the_start() {
    let text = "hÉLlo";
    for start in 0..=5 {
        let ch = text.chars().nth(start);
        let not_l = [20, 'l' as u32, 1];
        let st = State::new(StrDrive::Str(text), start, 5, SreFlag::empty(), &not_l).pymatch();
        assert_eq!(st.has_matched, ch.is_some() && ch != Some('l'));
        let ignore_l = [32, 'l' as u32, 1];
        let st = State::new(StrDrive::Str(text), start, 5, SreFlag::empty(), &ignore_l).pymatch();
        assert_eq!(st.has_matched, ch == Some('l') || ch == Some('L'));
    }
}

#[test]
fn matches_end_within_the_range() {
    let max = sre_engine::MAXREPEAT as u32;
    // (?s).* stops at the end of the range, not of the text
    let codes = [24, 5, 0, max, 3, 1, 1];
    let st = State::new(StrDrive::Str("abcdef"), 1, 4, SreFlag::empty(), &codes).pymatch();
    assert!(st.has_matched);
    assert_eq!(st.string_position, 4);
    assert!(st.string_position <= st.end);
    // a search that finds nothing leaves every position at or before the end
    let codes = [16, 'z' as u32, 1];
    let st = State::new(StrDrive::Str("abcdef"), 0, 3, SreFlag::empty(), &codes).search();
    assert!(!st.has_matched);
    assert!(st.string_position <= st.end);
    // a look-behind still stays within the range
    let codes = [4, 5, 1, 16, 'c' as u32, 1, 16, 'd' as u32, 1];
    let st = State::new(StrDrive::Bytes(b"abcd"), 0, 4, SreFlag::empty(), &codes).search();
    assert!(st.string_position <= st.end);
}

#[test]
fn moving_back_undoes_moving_forward() {
    let text = "héllo wörld";
    let s = StrDrive::Str(text);
    let n = text.chars().count();
    for (p, (o, _)) in text.char_indices().chain(std::iter::once((text.len(), ' '))).enumerate() {
        for k in 0..=(n - p) {
            assert_eq!(s.back_offset(s.offset(o, k), k), o);
        }
    }
    let b = StrDrive::Bytes(text.as_bytes());
    for o in 0..=text.len() {
        for k in 0..=(text.len() - o) {
            assert_eq!(b.back_offset(b.offset(o, k), k), o);
        }
    }
}

#[test]
fn matching_after_reset_is_matching_afresh() {
    let max = sre_engine::MAXREPEAT as u32;
    // (a)(?:a){1,}?b: the lazy repeat leaves an entry on its stack, which reset keeps
    let codes = [17, 0, 16, 97, 17, 1, 23, 5, 1, max, 16, 97, 19, 16, 98, 1];
    for text in ["aaab", "aab", "ab", "ba"] {
        let mut st = state(text, &codes).pymatch();
        st.reset();
        let again = st.pymatch();
        let fresh = state(text, &codes).pymatch();
        assert_eq!(again.has_matched, fresh.has_matched);
        assert_eq!(again.string_position, fresh.string_position);
        assert_eq!(again.marks, fresh.marks);
        assert_eq!(again.lastindex, fresh.lastindex);
    }
    let mut st = state("aaab", &codes).pymatch();
    assert!(st.has_matched);
    assert_eq!(st.string_position, 4);
    assert!(!st.min_until_stack.is_empty());
    st.reset();
    assert!(!st.min_until_stack.is_empty());
}

#[test]
fn set_membership_is_some_item_holding() {
    // [a x-z \d] and its negation
    let set = [16, 'a' as u32, 22, 'x' as u32, 'z' as u32, 8, 0, 0];
    let negated = [21, 16, 'a' as u32, 22, 'x' as u32, 'z' as u32, 8, 0, 0];
    for ch in ['a', 'b', 'x', 'y', 'z', '5', '_', 'é'] {
        let holds = ch == 'a' || ('x'..='z').contains(&ch) || ch.is_ascii_digit();
        assert_eq!(charset(&set, ch as u32), holds);
        assert_eq!(charset(&negated, ch as u32), !holds);
    }
    // a bitmap item holding 'A' (65 = word 2, bit 1)
    let bitmap = [9, 0, 0, 2, 0, 0, 0, 0, 0, 0];
    assert!(charset(&bitmap, 'A' as u32));
    assert!(!charset(&bitmap, 'B' as u32));
}

#[test]
fn literal_string_matches_where_the_text_goes_on_with_it() {
    let text = "abcabd";
    let codes = [16, 'a' as u32, 16, 'b' as u32, 16, 'd' as u32, 1];
    for start in 0..=6 {
        let st = State::new(StrDrive::Str(text), start, 6, SreFlag::empty(), &codes).pymatch();
        assert_eq!(st.has_matched, text[start..].starts_with("abd"));
        if st.has_matched {
            assert_eq!(st.string_position, start + 3);
        }
    }
    // the range ends before the string does
    let st = State::new(StrDrive::Str(text), 3, 5, SreFlag::empty(), &codes).pymatch();
    assert!(!st.has_matched);
}
