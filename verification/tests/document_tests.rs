use rust_writer::document::{Document, DocumentManager};

fn doc_with(text: &str) -> Document {
    let mut d = Document::new();
    d.text = text.to_string();
    d
}

#[test]
fn new_document_is_untitled_and_empty() {
    let d = Document::new();
    assert_eq!(d.title(), "Untitled");
    assert!(d.text.is_empty());
    assert!(!d.is_modified());
    assert!(d.is_empty_untitled());
    assert!(d.path.is_none());
}

#[test]
fn from_path_names_document_after_file_stem() {
    let d = Document::from_path("/tmp/notes/chapter1.txt", "hello".to_string());
    assert_eq!(d.name, "chapter1");
    assert_eq!(d.title(), "chapter1.txt");
    assert_eq!(d.text, "hello");
    assert!(!d.is_modified());
    assert!(!d.is_empty_untitled());
}

#[test]
fn word_count_counts_whitespace_separated_words() {
    assert_eq!(doc_with("").word_count(), 0);
    assert_eq!(doc_with("   ").word_count(), 0);
    assert_eq!(doc_with("one two  three\nfour\tfive ").word_count(), 5);
    assert_eq!(doc_with("  lead and trail  ").word_count(), 3);
    assert_eq!(doc_with("a\u{3000}b").word_count(), 2);
}

#[test]
fn char_count_counts_characters() {
    assert_eq!(doc_with("héllo").char_count(), 5);
    assert_eq!(doc_with("日本").char_count(), 2);
}

#[test]
fn line_count_ignores_final_newline() {
    assert_eq!(doc_with("").line_count(), 0);
    assert_eq!(doc_with("a").line_count(), 1);
    assert_eq!(doc_with("a\n").line_count(), 1);
    assert_eq!(doc_with("a\nb").line_count(), 2);
    assert_eq!(doc_with("\n").line_count(), 1);
    assert_eq!(doc_with("a\n\nb\n").line_count(), 3);
}

#[test]
fn paragraphs_split_at_blank_lines() {
    assert_eq!(doc_with("a\n\nb\n\nc").paragraphs(), vec!["a", "b", "c"]);
    assert_eq!(doc_with("").paragraphs(), vec![""]);
    assert_eq!(doc_with("a\n\n\nb").paragraphs(), vec!["a", "\nb"]);
    assert_eq!(doc_with("a\n\n").paragraphs(), vec!["a", ""]);
}

#[test]
fn paragraphs_rejoin_to_the_text() {
    let text = "first\n\nsecond line\nstill second\n\n\nthird\n\n";
    assert_eq!(doc_with(text).paragraphs().join("\n\n"), text);
}

#[test]
fn marking_and_saving() {
    let mut d = doc_with("x");
    d.mark_modified();
    assert!(d.is_modified());
    assert!(!d.needs_save());
    d.mark_saved();
    assert!(d.is_modified());
    let mut p = Document::from_path("/tmp/a.txt", "x".to_string());
    p.mark_modified();
    assert!(p.needs_save());
    assert_eq!(p.save_path().map(|s| s.as_str()), Some("/tmp/a.txt"));
    p.mark_saved();
    assert!(!p.is_modified());
    assert!(!p.needs_save());
}

#[test]
fn manager_starts_with_one_untitled_document() {
    let m = DocumentManager::new();
    assert_eq!(m.document_count(), 1);
    assert_eq!(m.current_index(), 0);
    assert_eq!(m.document_title(0), "Untitled");
    assert_eq!(m.document_title(5), "Unknown");
}

#[test]
fn opening_replaces_the_lone_empty_untitled_document() {
    let mut m = DocumentManager::new();
    m.open_document(Document::from_path("/tmp/a.txt", "A".to_string()));
    assert_eq!(m.document_count(), 1);
    assert_eq!(m.document_title(0), "a.txt");
    m.open_document(Document::from_path("/tmp/b.txt", "B".to_string()));
    assert_eq!(m.document_count(), 2);
    assert_eq!(m.current_index(), 1);
}

#[test]
fn opening_keeps_a_modified_untitled_document() {
    let mut m = DocumentManager::new();
    m.mark_modified();
    m.open_document(Document::from_path("/tmp/a.txt", "A".to_string()));
    assert_eq!(m.document_count(), 2);
    assert_eq!(m.current_index(), 1);
}

#[test]
fn tabs_cycle_both_ways() {
    let mut m = DocumentManager::new();
    m.new_document();
    m.new_document();
    assert_eq!(m.current_index(), 2);
    m.next_document();
    assert_eq!(m.current_index(), 0);
    m.prev_document();
    assert_eq!(m.current_index(), 2);
    m.prev_document();
    assert_eq!(m.current_index(), 1);
    m.next_document();
    assert_eq!(m.current_index(), 2);
    m.set_current(0);
    assert_eq!(m.current_index(), 0);
    m.set_current(9);
    assert_eq!(m.current_index(), 0);
}

#[test]
fn closing_keeps_at_least_one_document() {
    let mut m = DocumentManager::new();
    m.close_document(0);
    assert_eq!(m.document_count(), 1);
    m.new_document();
    m.new_document();
    m.close_document(2);
    assert_eq!(m.document_count(), 2);
    assert_eq!(m.current_index(), 1);
    m.close_document(0);
    assert_eq!(m.document_count(), 1);
    assert_eq!(m.current_index(), 0);
}

#[test]
fn editing_the_current_text() {
    let mut m = DocumentManager::new();
    m.current_text_mut().push_str("hello world");
    m.mark_modified();
    let d = m.current_document().unwrap();
    assert_eq!(d.word_count(), 2);
    assert!(d.is_modified());
    if let Some(d) = m.current_document_mut() {
        d.name = "Draft".to_string();
    }
    assert_eq!(m.document_title(0), "Draft");
    assert_eq!(m.all_documents_mut().len(), 1);
}

#[test]
fn open_paths_lists_saved_documents_in_tab_order() {
    let mut m = DocumentManager::new();
    m.open_document(Document::from_path("/tmp/a.txt", String::new()));
    m.new_document();
    m.open_document(Document::from_path("/tmp/b.md", String::new()));
    assert_eq!(m.open_paths(), vec!["/tmp/a.txt".to_string(), "/tmp/b.md".to_string()]);
}

#[test]
fn word_count_knows_unicode_whitespace() {
    assert_eq!(doc_with("one\u{3000}two\u{85}three\u{A0}four\u{2029}five").word_count(), 5);
    assert_eq!(doc_with("a\u{200B}b").word_count(), 1);
    for c in ['\t', '\n', '\u{0B}', '\u{0C}', '\r', ' ', '\u{1680}', '\u{2000}', '\u{200A}', '\u{2028}', '\u{202F}', '\u{205F}'] {
        assert_eq!(doc_with(&format!("x{}y", c)).word_count(), 2, "{:?}", c);
    }
}

#[test]
fn word_count_whitespace_agrees_with_std() {
    for u in 0u32..=0x3100 {
        if let Some(c) = char::from_u32(u) {
            let expected = if c.is_whitespace() { 2 } else { 1 };
            assert_eq!(doc_with(&format!("x{}y", c)).word_count(), expected, "U+{:04X}", u);
        }
    }
}

#[test]
fn titles_and_names_of_plain_paths() {
    let cases = [
        ("notes.txt", "notes.txt", "notes"),
        ("dir/sub/chapter.md", "chapter.md", "chapter"),
        ("/abs/.bashrc", ".bashrc", ".bashrc"),
        ("a/b.tar.gz", "b.tar.gz", "b.tar"),
        ("x/..a", "..a", "."),
        ("x/name.", "name.", "name"),
        ("README", "README", "README"),
    ];
    for (path, title, stem) in cases {
        let d = Document::from_path(path, String::new());
        assert_eq!(d.title(), title, "{}", path);
        assert_eq!(d.name, stem, "{}", path);
        let mut m = DocumentManager::new();
        m.open_document(Document::from_path(path, String::new()));
        assert_eq!(m.document_title(m.current_index()), title, "{}", path);
    }
}
