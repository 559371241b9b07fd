use rust_writer::search::{find_matches, highlight_segments, Highlight, SearchState, Segment};

fn state(query: &str) -> SearchState {
    let mut s = SearchState::new();
    s.query = query.to_string();
    s
}

#[test]
fn finds_all_occurrences_in_order() {
    assert_eq!(find_matches("one two one", "one", true, false), vec![(0, 3), (8, 11)]);
}

#[test]
fn empty_query_finds_nothing() {
    assert!(find_matches("abc", "", true, false).is_empty());
}

#[test]
fn query_longer_than_text_finds_nothing() {
    assert!(find_matches("ab", "abc", false, false).is_empty());
}

#[test]
fn matches_do_not_overlap() {
    assert_eq!(find_matches("aaaa", "aa", true, false), vec![(0, 2), (2, 4)]);
    assert_eq!(find_matches("aaa", "aa", true, false), vec![(0, 2)]);
}

#[test]
fn case_insensitive_search_folds_case() {
    assert_eq!(find_matches("Hello HELLO hello", "hello", false, false), vec![(0, 5), (6, 11), (12, 17)]);
    assert_eq!(find_matches("Hello HELLO hello", "hello", true, false), vec![(12, 17)]);
}

#[test]
fn whole_word_skips_parts_of_words() {
    assert_eq!(find_matches("cat concat cat_x cat.", "cat", true, true), vec![(0, 3), (17, 20)]);
    assert_eq!(find_matches("cat concat cat_x cat.", "cat", true, false), vec![(0, 3), (7, 10), (11, 14), (17, 20)]);
}

#[test]
fn whole_word_treats_unicode_letters_as_word_characters() {
    assert_eq!(find_matches("écat cat", "cat", true, true), vec![(5, 8)]);
}

#[test]
fn indices_count_characters_not_bytes() {
    assert_eq!(find_matches("日本語のテキスト", "テキスト", true, false), vec![(4, 8)]);
}

#[test]
fn refresh_keeps_selection_in_range() {
    let mut s = state("a");
    s.current = Some(5);
    s.refresh_matches("a a a");
    assert_eq!(s.matches.len(), 3);
    assert_eq!(s.current, Some(0));
    s.current = Some(2);
    s.refresh_matches("a a a");
    assert_eq!(s.current, Some(2));
    s.refresh_matches("b");
    assert_eq!(s.current, None);
    assert!(s.status.is_none());
}

#[test]
fn find_next_wraps_around() {
    let mut s = state("x");
    assert_eq!(s.find_next("x.x.x", 1), Some((2, 3)));
    assert_eq!(s.current, Some(1));
    assert_eq!(s.find_next("x.x.x", 5), Some((0, 1)));
    assert_eq!(s.current, Some(0));
}

#[test]
fn find_prev_wraps_around() {
    let mut s = state("x");
    assert_eq!(s.find_prev("x.x.x", 4), Some((2, 3)));
    assert_eq!(s.find_prev("x.x.x", 0), Some((4, 5)));
    assert_eq!(s.current, Some(2));
}

#[test]
fn find_without_matches_reports_it() {
    let mut s = state("zzz");
    assert_eq!(s.find_next("abc", 0), None);
    assert_eq!(s.status.as_deref(), Some("No matches"));
    assert_eq!(s.find_prev("abc", 0), None);
    assert_eq!(s.current, None);
}

#[test]
fn open_and_close() {
    let mut s = state("a");
    s.open_find();
    assert!(s.open && !s.replace_mode && s.focus_query);
    s.open_replace();
    assert!(s.open && s.replace_mode);
    s.refresh_matches("a");
    s.close();
    assert!(!s.open);
    assert!(s.matches.is_empty());
    assert_eq!(s.current, None);
    assert_eq!(s.query, "a");
}

#[test]
fn replace_current_replaces_the_selected_match() {
    let mut s = state("cat");
    s.replace_text = "dog".to_string();
    let mut text = String::from("cat and cat");
    s.refresh_matches(&text);
    s.current = Some(1);
    assert_eq!(s.replace_current(&mut text), Some(11));
    assert_eq!(text, "cat and dog");
    assert_eq!(s.matches, vec![(0, 3)]);
    assert_eq!(s.current, Some(0));
}

#[test]
fn replace_current_moves_to_next_match() {
    let mut s = state("a");
    s.replace_text = "bb".to_string();
    let mut text = String::from("a a a");
    s.refresh_matches(&text);
    assert_eq!(s.replace_current(&mut text), Some(2));
    assert_eq!(text, "bb a a");
    assert_eq!(s.matches, vec![(3, 4), (5, 6)]);
    assert_eq!(s.current, Some(0));
    assert_eq!(s.current_match(), Some((3, 4)));
}

#[test]
fn replace_current_without_selection_does_nothing() {
    let mut s = state("q");
    let mut text = String::from("abc");
    assert_eq!(s.replace_current(&mut text), None);
    assert_eq!(text, "abc");
}

#[test]
fn replace_all_replaces_every_match() {
    let mut s = state("o");
    s.replace_text = "0".to_string();
    let mut text = String::from("foo boo");
    assert_eq!(s.replace_all(&mut text), 4);
    assert_eq!(text, "f00 b00");
    assert_eq!(s.status.as_deref(), Some("Replaced 4 occurrences"));
    assert!(s.matches.is_empty());
}

#[test]
fn replace_all_singular_status() {
    let mut s = state("x");
    s.replace_text = "yz".to_string();
    let mut text = String::from("axb");
    assert_eq!(s.replace_all(&mut text), 1);
    assert_eq!(text, "ayzb");
    assert_eq!(s.status.as_deref(), Some("Replaced 1 occurrence"));
}

#[test]
fn replace_all_without_matches() {
    let mut s = state("x");
    let mut text = String::from("abc");
    assert_eq!(s.replace_all(&mut text), 0);
    assert_eq!(text, "abc");
    assert_eq!(s.status.as_deref(), Some("No matches"));
}

#[test]
fn replace_all_case_insensitive_with_unicode() {
    let mut s = state("ÉTÉ");
    s.replace_text = "hiver".to_string();
    let mut text = String::from("été, Été");
    assert_eq!(s.replace_all(&mut text), 2);
    assert_eq!(text, "hiver, hiver");
    assert_eq!(s.status.as_deref(), Some("Replaced 2 occurrences"));
}

#[test]
fn replace_all_by_the_query_leaves_text_unchanged() {
    let mut s = state("ab");
    s.case_sensitive = true;
    s.replace_text = "ab".to_string();
    let mut text = String::from("abcabab");
    assert_eq!(s.replace_all(&mut text), 3);
    assert_eq!(text, "abcabab");
}

#[test]
fn replace_all_large_count_status() {
    let mut s = state("a");
    s.replace_text = "b".to_string();
    let mut text = "a".repeat(1234);
    assert_eq!(s.replace_all(&mut text), 1234);
    assert_eq!(text, "b".repeat(1234));
    assert_eq!(s.status.as_deref(), Some("Replaced 1234 occurrences"));
}

#[test]
fn counter_text_forms() {
    let mut s = SearchState::new();
    assert_eq!(s.counter_text(), "");
    s.query = "q".to_string();
    assert_eq!(s.counter_text(), "No results");
    s.refresh_matches("q q q q q q q q q q q q");
    s.current = Some(10);
    assert_eq!(s.counter_text(), "11/12");
    s.current = None;
    assert_eq!(s.counter_text(), "0/12");
}

#[test]
fn highlight_without_matches_is_one_plain_stretch() {
    assert_eq!(
        highlight_segments("abc", &vec![], None),
        vec![Segment { start: 0, end: 3, highlight: Highlight::Plain }]
    );
}

#[test]
fn highlight_marks_matches_and_the_current_one() {
    let segs = highlight_segments("xabyab", &vec![(1, 3), (4, 6)], Some(1));
    assert_eq!(
        segs,
        vec![
            Segment { start: 0, end: 1, highlight: Highlight::Plain },
            Segment { start: 1, end: 3, highlight: Highlight::Match },
            Segment { start: 3, end: 4, highlight: Highlight::Plain },
            Segment { start: 4, end: 6, highlight: Highlight::Current },
        ]
    );
}

#[test]
fn highlight_adds_trailing_plain_text() {
    let segs = highlight_segments("abcd", &vec![(0, 1)], Some(0));
    assert_eq!(
        segs,
        vec![
            Segment { start: 0, end: 1, highlight: Highlight::Current },
            Segment { start: 1, end: 4, highlight: Highlight::Plain },
        ]
    );
}

#[test]
fn search_starts_follow_the_active_match() {
    let mut s = state("b");
    assert_eq!(s.next_search_start(), 0);
    assert_eq!(s.prev_search_start(), usize::MAX);
    s.refresh_matches("abcb");
    assert_eq!(s.next_search_start(), 2);
    assert_eq!(s.prev_search_start(), 1);
}

#[test]
fn ignoring_case_ignores_ascii_case_changes() {
    let text = "Hello, HELLO and hello_world; hello.";
    for ww in [false, true] {
        let base = find_matches(text, "hello", false, ww);
        assert_eq!(find_matches(&text.to_ascii_uppercase(), &"hello".to_ascii_lowercase(), false, ww), base);
        assert_eq!(find_matches(&text.to_ascii_lowercase(), "HeLLo", false, ww), base);
    }
    assert_eq!(find_matches(text, "hello", false, true), vec![(0, 5), (7, 12), (30, 35)]);
}

#[test]
fn selection_stays_valid_through_the_methods() {
    let valid = |s: &SearchState| {
        s.current.is_some() == !s.matches.is_empty() && s.current.map_or(true, |c| c < s.matches.len())
    };
    let mut s = state("ab");
    assert!(valid(&s));
    s.open_replace();
    assert!(valid(&s));
    let mut text = String::from("ab ab ab");
    s.find_next(&text, 4);
    assert!(valid(&s));
    assert_eq!(s.current, Some(2));
    s.replace_text = "x".to_string();
    s.replace_current(&mut text);
    assert_eq!(text, "ab ab x");
    assert!(valid(&s));
    s.find_prev(&text, 0);
    assert!(valid(&s));
    assert_eq!(s.current, Some(1));
    s.replace_all(&mut text);
    assert_eq!(text, "x x x");
    assert!(valid(&s));
    assert_eq!(s.current, None);
    s.refresh_matches("ab");
    assert!(valid(&s));
    assert_eq!(s.current, Some(0));
    s.close();
    assert!(valid(&s));
}

#[test]
fn update_query_scrolls_to_the_active_match() {
    let mut s = state("cd");
    s.update_query("ab cd cd");
    assert_eq!(s.matches, vec![(3, 5), (6, 8)]);
    assert_eq!(s.current, Some(0));
    assert_eq!(s.pending_scroll, Some(3));
    s.update_query("none here");
    assert_eq!(s.current, None);
    assert_eq!(s.pending_scroll, None);
}

#[test]
fn follow_document_searches_again_only_on_a_switch() {
    let mut s = state("x");
    let mut last = 0usize;
    s.update_query("x.x");
    s.follow_document(&mut last, 0, "no match");
    assert_eq!(s.matches, vec![(0, 1), (2, 3)]);
    s.follow_document(&mut last, 1, "..x");
    assert_eq!(last, 1);
    assert_eq!(s.matches, vec![(2, 3)]);
    assert_eq!(s.pending_scroll, Some(2));
}

#[test]
fn ascii_folding_and_word_characters_agree_with_std() {
    for u in 0u8..128 {
        let c = u as char;
        let lower = c.to_ascii_lowercase().to_string();
        assert_eq!(find_matches(&c.to_string(), &lower, false, false), vec![(0, 1)], "{:?}", c);
        let word = c.is_alphanumeric() || c == '_';
        let hits = find_matches(&format!("{}z", c), "z", true, true);
        assert_eq!(hits.is_empty(), word, "{:?}", c);
    }
}

#[test]
fn case_sensitive_replace_all_agrees_with_str_replace() {
    let cases = [
        ("aaaa", "aa", "b"),
        ("aaa", "aa", "aab"),
        ("one two one", "one", ""),
        ("xyx", "x", "xx"),
        ("héllo héllo", "é", "e"),
        ("nothing", "q", "r"),
    ];
    for (text, q, r) in cases {
        let mut s = state(q);
        s.case_sensitive = true;
        s.replace_text = r.to_string();
        let mut t = text.to_string();
        let count = s.replace_all(&mut t);
        assert_eq!(t, text.replace(q, r));
        assert_eq!(count, text.matches(q).count());
    }
}
