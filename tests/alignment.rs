use script_follow::alignment::{ScriptEngine, Segment};
use script_follow::local_alignment::run_smith_waterman;

fn chars(s: &str) -> Vec<char> {
    s.chars().collect()
}

fn two_lines() -> ScriptEngine {
    ScriptEngine::new("你好世界\n今天天气很好", "Hello world\nNice weather today")
}

fn all_segments(e: &ScriptEngine, len: usize) -> Vec<Segment> {
    let mut out = Vec::new();
    let mut x = 0;
    while x < len {
        let s = e.find_segment(x).expect("every offset is covered");
        x = s.end_idx;
        out.push(s);
    }
    out
}

#[test]
fn segments_partition_the_text() {
    let e = ScriptEngine::new("  first line \n\n   \nsecond\r\nthird  ", "a\nb");
    let segs = all_segments(&e, 19);
    assert_eq!(segs.len(), 3);
    let joined: String = segs.iter().map(|s| s.cn_text.clone()).collect();
    assert_eq!(joined, "first linesecondthird");
    assert_eq!(segs[0].start_idx, 0);
    for k in 1..segs.len() {
        assert_eq!(segs[k].start_idx, segs[k - 1].end_idx);
        assert!(segs[k].start_idx < segs[k].end_idx);
        assert_eq!(segs[k].id, k);
    }
    assert_eq!(segs[2].end_idx, 21);
    assert!(e.find_segment(21).is_none());
}

#[test]
fn translation_pairs_by_rank_and_defaults_to_empty() {
    let e = ScriptEngine::new("one\ntwo\nthree", "\n uno \n\ndos\n");
    assert_eq!(e.find_segment(0).unwrap().en_text, "uno");
    assert_eq!(e.find_segment(3).unwrap().en_text, "dos");
    let third = e.find_segment(6).unwrap();
    assert_eq!(third.cn_text, "three");
    assert_eq!(third.en_text, "");
    assert_eq!((third.start_idx, third.end_idx), (6, 11));
}

#[test]
fn unicode_spaces_are_trimmed() {
    let e = ScriptEngine::new("\u{3000}你好\u{a0}\n\u{2003}\n", "");
    let s = e.find_segment(0).unwrap();
    assert_eq!(s.cn_text, "你好");
    assert_eq!(s.end_idx, 2);
    assert!(e.find_segment(2).is_none());
}

#[test]
fn early_fragment_matches_first_line() {
    let mut e = two_lines();
    let s = e.align("你好").expect("a match");
    assert_eq!(s.id, 0);
    assert_eq!(s.cn_text, "你好世界");
    assert_eq!(s.en_text, "Hello world");
    assert_eq!(e.current_cursor, 1);
}

#[test]
fn second_line_matches_after_first() {
    let mut e = two_lines();
    e.current_cursor = 4;
    let s = e.align("今天天气很好").expect("a match");
    assert_eq!(s.id, 1);
    assert!(s.start_idx <= e.current_cursor && e.current_cursor < s.end_idx);
    assert_eq!(e.current_cursor, 9);
}

#[test]
fn exact_text_at_cursor_is_found() {
    let mut e = two_lines();
    e.current_cursor = 2;
    let s = e.align("世界今").expect("a match");
    assert_eq!(e.current_cursor, 4);
    assert_eq!(s.id, 1);
    assert_eq!(run_smith_waterman(&chars("你好世界今天天气很好"), &chars("世界今")), Some((4, 9)));
}

#[test]
fn cursor_never_moves_back() {
    let mut e = two_lines();
    e.current_cursor = 8;
    let s = e.align("你好").expect("the look-back window still matches");
    assert_eq!(e.current_cursor, 8);
    assert_eq!(s.id, 1);
}

#[test]
fn foreign_fragment_is_ignored() {
    let mut e = two_lines();
    e.current_cursor = 3;
    assert!(e.align("xyz").is_none());
    assert_eq!(e.current_cursor, 3);
}

#[test]
fn score_equal_to_length_is_rejected() {
    let mut e = two_lines();
    assert!(e.align("你xy").is_none());
    assert_eq!(e.current_cursor, 0);
    assert!(e.align("你x").is_some());
    assert_eq!(e.current_cursor, 0);
}

#[test]
fn empty_inputs_give_no_match() {
    let mut e = two_lines();
    assert!(e.align("").is_none());
    let mut empty = ScriptEngine::new("", "");
    assert!(empty.align("你好").is_none());
    assert_eq!(empty.current_cursor, 0);
    assert_eq!(run_smith_waterman(&[], &chars("ab")), None);
    assert_eq!(run_smith_waterman(&chars("ab"), &[]), None);
}

#[test]
fn exhausted_window_gives_no_match() {
    let mut e = two_lines();
    e.current_cursor = 40;
    assert!(e.align("你好").is_none());
    assert_eq!(e.current_cursor, 40);
}

#[test]
fn cursor_past_last_segment_gives_no_match() {
    let mut e = two_lines();
    e.current_cursor = 10;
    assert!(e.align("很好").is_none());
    assert_eq!(e.current_cursor, 10);
}

#[test]
fn reset_brings_cursor_home() {
    let mut e = two_lines();
    e.current_cursor = 7;
    e.reset_cursor();
    assert_eq!(e.current_cursor, 0);
    e.reset_cursor();
    assert_eq!(e.current_cursor, 0);
}

#[test]
fn smith_waterman_scores() {
    assert_eq!(run_smith_waterman(&chars("abc"), &chars("abc")), Some((2, 9)));
    assert_eq!(run_smith_waterman(&chars("xyz"), &chars("abc")), None);
    assert_eq!(run_smith_waterman(&chars("abxcd"), &chars("abcd")), Some((4, 10)));
    assert_eq!(run_smith_waterman(&chars("abab"), &chars("ab")), Some((1, 6)));
    assert_eq!(run_smith_waterman(&chars("abzd"), &chars("abcd")), Some((3, 8)));
    assert_eq!(run_smith_waterman(&chars("a"), &chars("a")), Some((0, 3)));
}
