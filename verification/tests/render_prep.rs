use aether::lexer::{Language, LexemeSpan};
use aether::render_prep::{ParallelRenderPrep, RenderCache, RenderLine};

fn lines(n: usize) -> Vec<String> {
    (0..n).map(|i| format!("let v{} = {};", i, i)).collect()
}

#[test]
fn thread_count_is_capped() {
    let few = ParallelRenderPrep::new(Some(1));
    assert!(few.chunk_ranges(1000).is_empty());
    let unknown = ParallelRenderPrep::new(None);
    assert_eq!(unknown.chunk_ranges(1000).len(), 4);
    let many = ParallelRenderPrep::new(Some(64));
    assert_eq!(many.chunk_ranges(1000).len(), 8);
}

#[test]
fn chunks_split_the_lines_evenly() {
    let prep = ParallelRenderPrep::new(Some(4));
    assert!(prep.chunk_ranges(99).is_empty());
    assert_eq!(prep.chunk_ranges(100), vec![(0, 25), (25, 50), (50, 75), (75, 100)]);
    assert_eq!(prep.chunk_ranges(101), vec![(0, 26), (26, 52), (52, 78), (78, 101)]);
    let prep8 = ParallelRenderPrep::new(Some(8));
    // 8 chunks of 13 lines would overshoot 100: the eighth is empty and left out.
    assert_eq!(prep8.chunk_ranges(100).len(), 8);
    assert_eq!(prep8.chunk_ranges(100)[7], (91, 100));
}

#[test]
fn chunked_lexing_matches_single_thread() {
    let prep = ParallelRenderPrep::new(Some(3));
    let all = lines(250);
    let ranges = prep.chunk_ranges(all.len());
    let chunks: Vec<Vec<Vec<LexemeSpan>>> = ranges
        .iter()
        .map(|&(s, e)| prep.prepare_tokens_single(&all[s..e], Language::Rust))
        .collect();
    let assembled = ParallelRenderPrep::assemble_chunks(all.len(), &ranges, chunks);
    assert_eq!(assembled, prep.prepare_tokens_single(&all, Language::Rust));
    assert_eq!(assembled[0].len(), 8);
}

#[test]
fn assemble_leaves_uncovered_lines_empty() {
    let t = LexemeSpan { start: 0, end: 1, kind: aether::lexer::TokenKind::Punct };
    let out = ParallelRenderPrep::assemble_chunks(4, &vec![(1, 3)], vec![vec![vec![t], vec![t, t]]]);
    assert_eq!(out.len(), 4);
    assert!(out[0].is_empty());
    assert_eq!(out[1].len(), 1);
    assert_eq!(out[2].len(), 2);
    assert!(out[3].is_empty());
}

#[test]
fn render_cache_validity() {
    let mut cache = RenderCache::new();
    assert!(cache.is_valid(0, 0, 0));
    let text = vec!["a".to_string()];
    let tokens = vec![Vec::new()];
    cache.update(text.clone(), tokens, 10, 20, 3);
    assert!(cache.is_valid(10, 20, 3));
    assert!(!cache.is_valid(10, 20, 4));
    assert!(!cache.is_valid(11, 20, 3));
    assert_eq!(cache.lines, text);
    cache.clear();
    assert!(cache.is_valid(0, 0, 0));
    assert!(cache.lines.is_empty());
    assert!(RenderCache::default().is_valid(0, 0, 0));
    let line = RenderLine { text: "x".to_string(), tokens: Vec::new(), line_idx: 2 };
    assert_eq!(line.clone().line_idx, 2);
}
