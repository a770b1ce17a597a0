use aether::buffer::EditResult;
use aether::incremental_lexer::{IncrementalLexer, IncrementalLexerManager};
use aether::lexer::{Language, LexemeSpan};

#[test]
fn test_incremental_lexer_basic() {
    let mut lexer = IncrementalLexer::new(Language::Rust);
    let lines = vec![
        "fn main() {".to_string(),
        "    println!(\"hello\");".to_string(),
        "}".to_string(),
    ];

    lexer.analyze_all(&lines);
    assert_eq!(lexer.get_line_tokens(0).unwrap().len(), 7); // fn, ws, main, (, ), ws, {
    assert_eq!(lexer.get_line_tokens(1).unwrap().len(), 7); // indent, println, !, (, "hello", ), ;
    assert_eq!(lexer.get_line_tokens(2).unwrap().len(), 1); // }
}

#[test]
fn test_incremental_update_insert() {
    let mut lexer = IncrementalLexer::new(Language::Rust);
    let lines = vec!["fn main() {".to_string(), "}".to_string()];

    lexer.analyze_all(&lines);
    let v1 = lexer.version();

    let new_lines = vec![
        "fn main() {".to_string(),
        "    let x = 1;".to_string(),
        "}".to_string(),
    ];
    let edit = EditResult::new(1, 1, 1);
    lexer.update_for_edit(&edit, &new_lines);

    assert!(lexer.version() > v1);
    assert_eq!(lexer.get_line_tokens(1).unwrap().len(), 9); // indent, let, ws, x, ws, =, ws, 1, ;
}

#[test]
fn test_incremental_update_delete() {
    let mut lexer = IncrementalLexer::new(Language::Rust);
    let lines = vec![
        "fn main() {".to_string(),
        "    let x = 1;".to_string(),
        "    let y = 2;".to_string(),
        "}".to_string(),
    ];

    lexer.analyze_all(&lines);

    let new_lines = vec![
        "fn main() {".to_string(),
        "    let y = 2;".to_string(),
        "}".to_string(),
    ];
    let edit = EditResult::new(1, 2, -1);
    lexer.update_for_edit(&edit, &new_lines);

    assert_eq!(lexer.get_line_tokens(1).unwrap().len(), 9);
}

fn full_lex(lines: &[String]) -> Vec<Vec<LexemeSpan>> {
    let mut fresh = IncrementalLexer::new(Language::Rust);
    fresh.analyze_all(lines);
    (0..lines.len()).map(|i| fresh.get_line_tokens(i).unwrap().clone()).collect()
}

fn cached(lexer: &IncrementalLexer, n: usize) -> Vec<Vec<LexemeSpan>> {
    (0..n).map(|i| lexer.get_line_tokens(i).unwrap().clone()).collect()
}

fn owned(lines: &[&str]) -> Vec<String> {
    lines.iter().map(|s| s.to_string()).collect()
}

#[test]
fn update_after_insert_matches_full_lexing() {
    let old = owned(&["a = 1;", "b = 2;", "c = 3;", "d = 4;"]);
    let new = owned(&["a = 1;", "x", "y y", "b = 2;", "c = 3;", "d = 4;"]);
    let mut lexer = IncrementalLexer::new(Language::Rust);
    lexer.analyze_all(&old);
    lexer.update_for_edit(&EditResult::new(1, 2, 2), &new);
    assert_eq!(cached(&lexer, new.len()), full_lex(&new));
    assert_eq!(lexer.cache_stats(), (6, 6));
    assert!(lexer.get_line_tokens(6).is_none());
}

#[test]
fn update_after_delete_matches_full_lexing() {
    let old = owned(&["a", "b b", "c c c", "d", "e e"]);
    let new = owned(&["a", "d", "e e"]);
    let mut lexer = IncrementalLexer::new(Language::Rust);
    lexer.analyze_all(&old);
    lexer.update_for_edit(&EditResult::new(1, 1, -2), &new);
    assert_eq!(cached(&lexer, new.len()), full_lex(&new));
    assert_eq!(lexer.cache_stats(), (3, 3));
    assert!(lexer.get_line_tokens(3).is_none());
}

#[test]
fn update_in_place_relexes_the_edited_line() {
    let old = owned(&["let a = 1;", "let b = 2;"]);
    let new = owned(&["let a = 1;", "b"]);
    let mut lexer = IncrementalLexer::new(Language::Rust);
    lexer.analyze_all(&old);
    lexer.update_for_edit(&EditResult::new(1, 1, 0), &new);
    assert_eq!(lexer.get_line_tokens(1).unwrap().len(), 1);
    assert_eq!(cached(&lexer, 2), full_lex(&new));
}

#[test]
fn update_to_no_lines_empties_the_cache() {
    let mut lexer = IncrementalLexer::new(Language::Rust);
    lexer.analyze_all(&owned(&["a", "b"]));
    lexer.update_for_edit(&EditResult::new(0, 1, -2), &[]);
    assert_eq!(lexer.cache_stats(), (0, 0));
    assert_eq!(lexer.version(), 2);
    assert!(lexer.get_all_tokens().is_empty());
}

#[test]
fn clear_resets_cache_and_version() {
    let mut lexer = IncrementalLexer::new(Language::Rust);
    assert_eq!(lexer.version(), 0);
    lexer.analyze_all(&owned(&["x", "y"]));
    assert_eq!(lexer.version(), 1);
    assert_eq!(lexer.get_all_tokens().len(), 2);
    lexer.clear();
    assert_eq!(lexer.version(), 0);
    assert_eq!(lexer.cache_stats(), (0, 0));
    assert!(lexer.get_line_tokens(0).is_none());
}

#[test]
fn manager_opens_switches_and_closes_files() {
    let mut manager = IncrementalLexerManager::new();
    assert!(manager.current_lexer().is_none());
    {
        let lexer = manager.open_file("a.rs", Language::Rust);
        lexer.analyze_all(&owned(&["fn a() {}"]));
    }
    assert_eq!(manager.current_lexer().unwrap().version(), 1);
    {
        let other = manager.open_file("b.txt", Language::PlainText);
        assert_eq!(other.version(), 0);
    }
    // Opening a file again keeps its cache.
    assert_eq!(manager.open_file("a.rs", Language::PlainText).version(), 1);
    manager.switch_file("b.txt");
    assert_eq!(manager.current_lexer().unwrap().version(), 0);
    manager.switch_file("missing.rs");
    assert!(manager.current_lexer().is_none());
    manager.switch_file("a.rs");
    manager.close_file("a.rs");
    assert!(manager.current_lexer().is_none());
    manager.switch_file("b.txt");
    manager.close_file("a.rs");
    assert!(manager.current_lexer().is_some());
    manager.clear_all();
    assert!(manager.current_lexer().is_none());
    let mut fresh = IncrementalLexerManager::default();
    assert!(fresh.current_lexer().is_none());
}
