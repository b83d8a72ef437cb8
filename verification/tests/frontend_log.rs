use keith_shareit::frontend::log::{layout_log, word_wrap, wrap_ends_exec, LogState};

fn wrap(text: &str, first: usize, cont: usize) -> Vec<String> {
    word_wrap(text, first, cont)
}

#[test]
fn word_wrap_two_words() {
    assert_eq!(wrap("hello world", 5, 5), vec!["hello", "world"]);
}

#[test]
fn word_wrap_empty_text_gives_one_empty_line() {
    assert_eq!(wrap("", 3, 3), vec![""]);
}

#[test]
fn word_wrap_only_whitespace_gives_no_line() {
    assert_eq!(wrap("   \t ", 3, 3), Vec::<String>::new());
}

#[test]
fn word_wrap_breaks_long_word_by_line_width() {
    assert_eq!(wrap("abcdefgh", 3, 2), vec!["abc", "de", "fg", "h"]);
}

#[test]
fn word_wrap_joins_words_with_single_spaces() {
    assert_eq!(wrap("a b c", 3, 3), vec!["a b", "c"]);
    assert_eq!(wrap("a\tb\n c", 10, 10), vec!["a b c"]);
}

#[test]
fn word_wrap_counts_characters_not_bytes() {
    assert_eq!(wrap("héllo wörld", 5, 5), vec!["héllo", "wörld"]);
}

#[test]
fn word_wrap_first_line_wider_than_the_rest() {
    assert_eq!(wrap("one two three four", 7, 5), vec!["one two", "three", "four"]);
}

#[test]
fn word_wrap_word_after_a_partly_filled_line() {
    assert_eq!(wrap("ab cdefg", 4, 4), vec!["ab", "cdef", "g"]);
}

#[test]
fn word_wrap_zero_continuation_width_when_everything_fits() {
    assert_eq!(wrap("fits here", 20, 0), vec!["fits here"]);
}

#[test]
fn word_wrap_law_lines_fit_and_text_kept() {
    let text = "the quick brown fox jumps over the extraordinarily lazy dog";
    let (fw, cw) = (9, 6);
    let lines = wrap(text, fw, cw);
    for (i, l) in lines.iter().enumerate() {
        let w = if i == 0 { fw } else { cw };
        assert!(l.chars().count() <= w && !l.is_empty());
    }
    let kept: String = lines.concat().chars().filter(|c| !c.is_whitespace()).collect();
    let orig: String = text.chars().filter(|c| !c.is_whitespace()).collect();
    assert_eq!(kept, orig);
}

#[test]
fn log_state_default_follows() {
    let s = LogState::default();
    assert_eq!(s, LogState { vertical_scroll: 0, tail: true, content_height: 0, viewport_height: 0 });
    assert!(s.is_at_bottom());
}

#[test]
fn log_state_scroll_up_stops_following_first() {
    let mut s = LogState { vertical_scroll: 5, tail: true, content_height: 10, viewport_height: 5 };
    s.scroll_up();
    assert_eq!(s, LogState { vertical_scroll: 5, tail: false, content_height: 10, viewport_height: 5 });
    s.scroll_up();
    assert_eq!(s.vertical_scroll, 4);
    let mut top = LogState { vertical_scroll: 0, tail: false, content_height: 10, viewport_height: 5 };
    top.scroll_up();
    assert_eq!(top.vertical_scroll, 0);
}

#[test]
fn log_state_scroll_down_resumes_following_at_bottom() {
    let mut s = LogState { vertical_scroll: 4, tail: false, content_height: 10, viewport_height: 5 };
    assert!(!s.is_at_bottom());
    s.scroll_down();
    assert_eq!(s.vertical_scroll, 5);
    assert!(!s.tail);
    s.scroll_down();
    assert_eq!(s.vertical_scroll, 5);
    assert!(s.tail);
}

#[test]
fn log_state_law_up_then_down_returns() {
    let start = LogState { vertical_scroll: 3, tail: false, content_height: 10, viewport_height: 5 };
    let mut s = start;
    s.scroll_up();
    s.scroll_down();
    assert_eq!(s, start);
    let follow = LogState { vertical_scroll: 5, tail: true, content_height: 10, viewport_height: 5 };
    let mut f = follow;
    f.scroll_up();
    f.scroll_down();
    assert_eq!(f, follow);
}

#[test]
fn layout_log_follows_the_end() {
    let logs = vec!["one two three".to_string(), "".to_string(), "four".to_string()];
    let mut state = LogState::default();
    let view = layout_log(&logs, 7, 2, &mut state);
    assert_eq!(state.content_height, 4);
    assert_eq!(state.viewport_height, 2);
    assert_eq!(state.vertical_scroll, 2);
    assert_eq!(view.scroll_range, 2);
    assert_eq!(view.lines, vec!["", "four"]);
}

#[test]
fn layout_log_keeps_position_when_not_following() {
    let logs = vec!["a".to_string(), "b".to_string(), "c".to_string(), "d".to_string()];
    let mut state = LogState { vertical_scroll: 1, tail: false, content_height: 0, viewport_height: 0 };
    let view = layout_log(&logs, 10, 2, &mut state);
    assert_eq!(state.vertical_scroll, 1);
    assert_eq!(view.lines, vec!["b", "c"]);
    let mut past = LogState { vertical_scroll: 9, tail: false, content_height: 0, viewport_height: 0 };
    let none = layout_log(&logs, 10, 2, &mut past);
    assert!(none.lines.is_empty());
}

#[test]
fn layout_log_draws_one_line_in_a_pane_without_rows() {
    let logs = vec!["x".to_string(), "y".to_string()];
    let mut state = LogState { vertical_scroll: 0, tail: false, content_height: 0, viewport_height: 0 };
    let view = layout_log(&logs, 10, 0, &mut state);
    assert_eq!(view.lines, vec!["x"]);
}

#[test]
fn layout_log_wraps_continuation_lines_two_columns_narrower() {
    let logs = vec!["aaaa bbbb".to_string()];
    let mut state = LogState { vertical_scroll: 0, tail: false, content_height: 0, viewport_height: 0 };
    let view = layout_log(&logs, 6, 5, &mut state);
    assert_eq!(view.lines, vec!["aaaa", "bbbb"]);
    let logs = vec!["abcdefghij".to_string()];
    let mut state = LogState { vertical_scroll: 0, tail: false, content_height: 0, viewport_height: 0 };
    let view = layout_log(&logs, 6, 5, &mut state);
    assert_eq!(view.lines, vec!["abcdef", "ghij"]);
}

#[test]
fn word_wrap_first_line_of_width_zero_stays_empty() {
    assert_eq!(wrap("ab", 0, 5), vec!["", "ab"]);
    assert_eq!(wrap("abc de", 0, 2), vec!["", "ab", "c", "de"]);
}

#[test]
fn law_tailing_resumes_after_the_lines_left() {
    let mut s = LogState { vertical_scroll: 2, tail: false, content_height: 10, viewport_height: 4 };
    for _ in 0..4 {
        s.scroll_down();
    }
    assert!(s.is_at_bottom());
    assert!(!s.tail);
    s.scroll_down();
    assert!(s.is_at_bottom());
    assert!(s.tail);
    assert_eq!(s.vertical_scroll, 6);
}

#[test]
fn law_word_wrap_breaks_are_forced_and_single_spaced() {
    let lines = wrap("aa bb cc dd ee", 5, 5);
    assert_eq!(lines, vec!["aa bb", "cc dd", "ee"]);
    for l in &lines {
        assert!(!l.starts_with(' ') && !l.ends_with(' ') && !l.contains("  "));
    }
}

#[test]
fn wrap_ends_exec_tells_when_wrapping_finishes() {
    assert!(wrap_ends_exec("", 0, 0));
    assert!(wrap_ends_exec("ab cd", 5, 0));
    assert!(!wrap_ends_exec("ab cd", 3, 0));
    assert!(wrap_ends_exec("ab", 0, 5));
    assert!(!wrap_ends_exec("abc", 2, 0));
    assert!(wrap_ends_exec("anything at all", 4, 2));
}

#[test]
fn law_word_wrap_keeps_words_and_bounds_lines() {
    let text = "the quick  brown\tfox";
    let lines = wrap(text, 9, 6);
    let words: Vec<&str> = lines.iter().flat_map(|l| l.split_whitespace()).collect();
    assert_eq!(words, text.split_whitespace().collect::<Vec<_>>());
    let visible = text.chars().filter(|c| !c.is_whitespace()).count();
    assert!(lines.len() <= visible + 1);
    assert!(wrap("abc", 0, 1).len() <= 4);
}
