//! Incremental lexing: a per-line token cache that an edit updates by
//! re-lexing only the lines it touched, shifting the cached lines after it.

use std::collections::HashMap;
use vstd::prelude::*;
use crate::buffer::EditResult;
use crate::lexer::{Language, LexemeSpan, line_tokens_spec};
use crate::text::same_text;

verus! {

broadcast use vstd::std_specs::hash::group_hash_axioms;

// ---------------------------------------------------------------------------
// Model of a token cache
// ---------------------------------------------------------------------------

/// The token sequences a map of token vectors holds.
pub open spec fn views(m: Map<usize, Vec<LexemeSpan>>) -> Map<usize, Seq<LexemeSpan>> {
    Map::new(|k: usize| m.contains_key(k), |k: usize| m[k]@)
}

/// The tokens of line `k` of `lines`.
pub open spec fn lexed(language: Language, lines: Seq<String>, k: int) -> Seq<LexemeSpan> {
    line_tokens_spec(language, lines[k]@)
}

/// The cache that lexing every line of `lines` gives.
pub open spec fn full_cache(language: Language, lines: Seq<String>) -> Map<usize, Seq<LexemeSpan>> {
    Map::new(|k: usize| k < lines.len(), |k: usize| lexed(language, lines, k as int))
}

/// The cache after lines from `start` on move by `delta`: entries before
/// `start` stay; an entry `k >= start` moves to `k + delta` when that lies in
/// `0 .. total`, and is dropped otherwise. Where a moved entry lands on an
/// entry that stayed, the one that stayed is kept.
pub open spec fn adjusted(
    m: Map<usize, Seq<LexemeSpan>>,
    start: usize,
    delta: isize,
    total: usize,
) -> Map<usize, Seq<LexemeSpan>> {
    Map::new(
        |k: usize|
            (k < start && m.contains_key(k)) || (k < total && k - delta >= start && k - delta
                <= usize::MAX && m.contains_key((k - delta) as usize)),
        |k: usize|
            if k < start && m.contains_key(k) {
                m[k]
            } else {
                m[(k - delta) as usize]
            },
    )
}

/// The cache with lines `from .. to` lexed again from `lines`.
pub open spec fn relexed(
    m: Map<usize, Seq<LexemeSpan>>,
    language: Language,
    lines: Seq<String>,
    from: int,
    to: int,
) -> Map<usize, Seq<LexemeSpan>> {
    Map::new(
        |k: usize| m.contains_key(k) || (from <= k < to),
        |k: usize|
            if from <= k < to {
                lexed(language, lines, k as int)
            } else {
                m[k]
            },
    )
}

/// The cache with the lines of `from .. to` that it lacks lexed from `lines`.
pub open spec fn filled(
    m: Map<usize, Seq<LexemeSpan>>,
    language: Language,
    lines: Seq<String>,
    from: int,
    to: int,
) -> Map<usize, Seq<LexemeSpan>> {
    Map::new(
        |k: usize| m.contains_key(k) || (from <= k < to),
        |k: usize|
            if m.contains_key(k) {
                m[k]
            } else {
                lexed(language, lines, k as int)
            },
    )
}

/// The entries of the cache below line `n`.
pub open spec fn truncated(m: Map<usize, Seq<LexemeSpan>>, n: int) -> Map<
    usize,
    Seq<LexemeSpan>,
> {
    Map::new(|k: usize| m.contains_key(k) && k < n, |k: usize| m[k])
}

/// Last line an edit re-lexes, given the new line count `n > 0`.
pub open spec fn last_dirty_line(e: EditResult, n: int) -> int {
    if e.end_line < n - 1 {
        e.end_line as int
    } else {
        n - 1
    }
}

/// The cache after `update_for_edit(e, lines)`.
pub open spec fn edited_cache(
    m: Map<usize, Seq<LexemeSpan>>,
    language: Language,
    e: EditResult,
    lines: Seq<String>,
) -> Map<usize, Seq<LexemeSpan>> {
    let n = lines.len() as int;
    if n == 0 {
        Map::empty()
    } else {
        let dirty_end = last_dirty_line(e, n) + 1;
        let m1 = if e.line_delta != 0 {
            adjusted(m, e.start_line, e.line_delta, n as usize)
        } else {
            m
        };
        let m2 = relexed(m1, language, lines, e.start_line as int, dirty_end);
        let m3 = if e.line_delta > 0 {
            filled(m2, language, lines, dirty_end, n)
        } else {
            m2
        };
        if e.line_delta < 0 {
            truncated(m3, n)
        } else {
            m3
        }
    }
}

/// `m` holds exactly the token sequences of `t`.
pub open spec fn represents(m: Map<usize, Vec<LexemeSpan>>, t: Map<usize, Seq<LexemeSpan>>) -> bool {
    &&& forall|k: usize| #[trigger] m.contains_key(k) <==> t.contains_key(k)
    &&& forall|k: usize| #[trigger] t.contains_key(k) ==> m[k]@ == t[k]
}

proof fn lemma_represents_views(m: Map<usize, Vec<LexemeSpan>>, t: Map<usize, Seq<LexemeSpan>>)
    requires
        represents(m, t),
    ensures
        views(m) == t,
{
    assert(views(m) =~= t);
}

/// `adjusted` restricted to the entries of `done` that have been moved so far.
spec fn adjusted_part(
    m: Map<usize, Seq<LexemeSpan>>,
    done: Set<usize>,
    start: usize,
    delta: isize,
    total: usize,
) -> Map<usize, Seq<LexemeSpan>> {
    Map::new(
        |k: usize|
            (k < start && done.contains(k)) || (k < total && k - delta >= start && k - delta
                <= usize::MAX && done.contains((k - delta) as usize) && !(k < start
                && m.contains_key(k))),
        |k: usize|
            if k < start && done.contains(k) {
                m[k]
            } else {
                m[(k - delta) as usize]
            },
    )
}

/// `k + delta`, when it is a `usize`.
fn shift_index(k: usize, delta: isize) -> (r: Option<usize>)
    ensures
        r == (if 0 <= k + delta <= usize::MAX {
            Some((k + delta) as usize)
        } else {
            None
        }),
{
    let sum: i128 = k as i128 + delta as i128;
    if sum >= 0 && sum <= usize::MAX as i128 {
        Some(sum as usize)
    } else {
        None
    }
}

/// Law: an incremental update keeps a complete cache complete. When the cache
/// holds the tokens of every line of `old_lines`, and `new_lines` is
/// `old_lines` edited so that the lines before the edit's first line are
/// unchanged and the lines after its last line are the old lines moved by the
/// line delta, then the updated cache holds the tokens of every line of
/// `new_lines`, exactly as lexing the whole buffer again would.
pub proof fn lemma_update_agrees_with_full_lexing(
    language: Language,
    old_lines: Seq<String>,
    new_lines: Seq<String>,
    e: EditResult,
)
    requires
        new_lines.len() == old_lines.len() + e.line_delta,
        new_lines.len() <= usize::MAX,
        old_lines.len() <= usize::MAX,
        e.start_line <= old_lines.len(),
        forall|k: int|
            0 <= k < e.start_line && k < new_lines.len() ==> #[trigger] new_lines[k]@
                == old_lines[k]@,
        forall|k: int|
            e.start_line <= k < new_lines.len() && k > last_dirty_line(e, new_lines.len() as int)
                && k - e.line_delta >= e.start_line ==> #[trigger] new_lines[k]@ == old_lines[k
                - e.line_delta]@,
    ensures
        edited_cache(full_cache(language, old_lines), language, e, new_lines) == full_cache(
            language,
            new_lines,
        ),
{
    let n = new_lines.len() as int;
    let old_full = full_cache(language, old_lines);
    let new_full = full_cache(language, new_lines);
    if n == 0 {
        assert(edited_cache(old_full, language, e, new_lines) =~= new_full);
    } else {
        let d = e.line_delta;
        let s = e.start_line;
        let dirty_end = last_dirty_line(e, n) + 1;
        let m1 = if d != 0 {
            adjusted(old_full, s, d, n as usize)
        } else {
            old_full
        };
        let m2 = relexed(m1, language, new_lines, s as int, dirty_end);
        let m3 = if d > 0 {
            filled(m2, language, new_lines, dirty_end, n)
        } else {
            m2
        };
        let m4 = if d < 0 {
            truncated(m3, n)
        } else {
            m3
        };
        assert forall|k: usize| #[trigger] m4.contains_key(k) <==> new_full.contains_key(k) by {
            if m4.contains_key(k) && d >= 0 {
                assert(m3.contains_key(k));
                if !(dirty_end <= k < n && d > 0) {
                    assert(m2.contains_key(k));
                    if !(s <= k < dirty_end) {
                        assert(m1.contains_key(k));
                    }
                }
            }
            if k < n {
                if k < s {
                    assert(old_full.contains_key(k));
                    assert(m1.contains_key(k));
                } else if s <= k < dirty_end {
                } else if d > 0 {
                } else {
                    assert(old_full.contains_key((k - d) as usize));
                    assert(m1.contains_key(k));
                }
                if !(d > 0 && k >= dirty_end && k >= s) {
                    assert(m2.contains_key(k));
                }
                assert(m3.contains_key(k));
            }
        }
        assert forall|k: usize| #[trigger] new_full.contains_key(k) implies m4[k]
            == new_full[k] by {
            assert(new_full[k] == lexed(language, new_lines, k as int));
            if k < s {
                assert(old_full.contains_key(k));
                assert(m1.contains_key(k));
                assert(m1[k] == old_full[k]);
                assert(new_lines[k as int]@ == old_lines[k as int]@);
                assert(m2[k] == m1[k]);
                assert(m3[k] == m2[k]);
            } else if s <= k < dirty_end {
                assert(m2[k] == lexed(language, new_lines, k as int));
                assert(m3[k] == m2[k]);
            } else if d > 0 {
                if k - d >= s {
                    assert(old_full.contains_key((k - d) as usize));
                    assert(m1.contains_key(k));
                    assert(m1[k] == old_full[(k - d) as usize]);
                    assert(new_lines[k as int]@ == old_lines[k - d]@);
                    assert(m2[k] == m1[k]);
                    assert(m3[k] == m2[k]);
                } else {
                    assert(!m1.contains_key(k));
                    assert(!m2.contains_key(k));
                }
            } else if d < 0 {
                assert(old_full.contains_key((k - d) as usize));
                assert(m1.contains_key(k));
                assert(m1[k] == old_full[(k - d) as usize]);
                assert(new_lines[k as int]@ == old_lines[k - d]@);
                assert(m2[k] == m1[k]);
            } else {
                assert(old_full.contains_key(k));
                assert(new_lines[k as int]@ == old_lines[k - d]@);
                assert(m2[k] == m1[k]);
            }
        }
        assert(m4 =~= new_full);
    }
}

// ---------------------------------------------------------------------------
// The incremental lexer
// ---------------------------------------------------------------------------

/// Caches the tokens of each line and re-lexes only the lines an edit
/// touched.
pub struct IncrementalLexer {
    language: Language,
    line_tokens: HashMap<usize, Vec<LexemeSpan>>,
    version: u64,
    last_line_count: usize,
    dirty_lines: Vec<bool>,
}

impl IncrementalLexer {
    /// The cached tokens, by line.
    pub closed spec fn cached(&self) -> Map<usize, Seq<LexemeSpan>> {
        views(self.line_tokens@)
    }

    /// The cache version; every analysis or update moves it forward.
    pub closed spec fn current_version(&self) -> u64 {
        self.version
    }

    pub closed spec fn lang(&self) -> Language {
        self.language
    }

    /// Number of lines at the last analysis or update.
    pub closed spec fn line_count(&self) -> usize {
        self.last_line_count
    }

    /// Lines marked for re-analysis.
    pub closed spec fn dirty(&self) -> Seq<bool> {
        self.dirty_lines@
    }

    pub fn new(language: Language) -> (r: Self)
        ensures
            r.lang() == language,
            r.cached() == Map::<usize, Seq<LexemeSpan>>::empty(),
            r.current_version() == 0,
            r.line_count() == 0,
            r.dirty() == Seq::<bool>::empty(),
    {
        let r = IncrementalLexer {
            language,
            line_tokens: HashMap::new(),
            version: 0,
            last_line_count: 0,
            dirty_lines: Vec::new(),
        };
        proof {
            assert(views(r.line_tokens@) =~= Map::<usize, Seq<LexemeSpan>>::empty());
        }
        r
    }

    /// Lexes every line (used when a file is opened).
    pub fn analyze_all(&mut self, lines: &[String])
        requires
            old(self).current_version() < u64::MAX,
        ensures
            final(self).lang() == old(self).lang(),
            final(self).cached() == full_cache(old(self).lang(), lines@),
            final(self).line_count() == lines@.len(),
            final(self).dirty() == Seq::new(lines@.len(), |i: int| false),
            final(self).current_version() == old(self).current_version() + 1,
    {
        self.line_tokens.clear();
        let lexer = self.language.create_lexer();
        let n = lines.len();
        let mut i: usize = 0;
        while i < n
            invariant
                n == lines@.len(),
                i <= n,
                lexer.language == self.language,
                self.language == old(self).language,
                self.version == old(self).version,
                views(self.line_tokens@) == Map::new(
                    |k: usize| k < i,
                    |k: usize| lexed(self.language, lines@, k as int),
                ),
            decreases n - i,
        {
            let ghost prev = self.line_tokens@;
            let tokens = lexer.lex_full(lines[i].as_str());
            self.line_tokens.insert(i, tokens);
            proof {
                assert(tokens@ == lexed(self.language, lines@, i as int));
                assert(self.line_tokens@ == prev.insert(i, tokens));
                assert(self.line_tokens@[i]@ == lexed(self.language, lines@, i as int));
                assert forall|k: usize| k < i implies prev.contains_key(k) && prev[k]@ == lexed(
                    self.language,
                    lines@,
                    k as int,
                ) by {
                    assert(views(prev).contains_key(k));
                    assert(views(prev)[k] == lexed(self.language, lines@, k as int));
                }
                assert forall|k: usize| prev.contains_key(k) implies k < i by {
                    assert(views(prev).contains_key(k));
                }
                assert(views(self.line_tokens@) =~= Map::new(
                    |k: usize| k < i + 1,
                    |k: usize| lexed(self.language, lines@, k as int),
                ));
            }
            i = i + 1;
        }
        proof {
            assert(views(self.line_tokens@) =~= full_cache(self.language, lines@));
        }
        self.last_line_count = n;
        self.dirty_lines = vec![false; n];
        proof {
            assert(self.dirty_lines@ =~= Seq::new(lines@.len(), |i: int| false));
        }
        self.version = self.version + 1;
    }

    /// Moves the cached lines from `start_line` on by `delta` lines, dropping
    /// those that leave `0 .. new_total` (see `adjusted`).
    fn adjust_line_numbers(&mut self, start_line: usize, delta: isize, new_total: usize)
        ensures
            final(self).cached() == (if delta == 0 {
                old(self).cached()
            } else {
                adjusted(old(self).cached(), start_line, delta, new_total)
            }),
            final(self).language == old(self).language,
            final(self).version == old(self).version,
            final(self).last_line_count == old(self).last_line_count,
            final(self).dirty_lines == old(self).dirty_lines,
    {
        if delta == 0 {
            return;
        }
        let mut new_tokens: HashMap<usize, Vec<LexemeSpan>> = HashMap::with_capacity(new_total);
        let ghost old_m = views(self.line_tokens@);
        let ghost mut done: Set<usize> = Set::empty();
        proof {
            assert(adjusted_part(old_m, done, start_line, delta, new_total) =~= Map::empty());
        }
        for kv in it: self.line_tokens.iter()
            invariant
                old_m == views(self.line_tokens@),
                forall|i: int| 0 <= i < it.index() ==> done.contains(*(#[trigger] it.seq()[i]).0),
                forall|k: usize| done.contains(k) ==> old_m.contains_key(k),
                forall|k: usize|
                    #[trigger] old_m.contains_key(k) ==> done.contains(k) || exists|i: int|
                        it.index() <= i < it.seq().len() && *it.seq()[i].0 == k,
                represents(new_tokens@, adjusted_part(old_m, done, start_line, delta, new_total)),
        {
            let (line_idx, tokens) = kv;
            let li = *line_idx;
            let ghost prev_done = done;
            let ghost prev = new_tokens@;
            proof {
                assert(old_m.contains_key(li));
                assert(old_m[li] == tokens@);
            }
            let copy = tokens.clone();
            proof {
                assert(copy@ =~= tokens@);
            }
            if li < start_line {
                new_tokens.insert(li, copy);
            } else {
                match shift_index(li, delta) {
                    Some(new_idx) => {
                        if new_idx < new_total && (new_idx >= start_line
                            || !self.line_tokens.contains_key(&new_idx)) {
                            new_tokens.insert(new_idx, copy);
                        }
                    },
                    None => {},
                }
            }
            proof {
                done = done.insert(li);
                let t = adjusted_part(old_m, done, start_line, delta, new_total);
                let pt = adjusted_part(old_m, prev_done, start_line, delta, new_total);
                assert forall|k: usize| #[trigger] new_tokens@.contains_key(k) <==> t.contains_key(k) by {
                    assert(pt.contains_key(k) ==> t.contains_key(k));
                }
                assert forall|k: usize| #[trigger] t.contains_key(k) implies new_tokens@[k]@ == t[k] by {
                    if k < start_line && done.contains(k) && k == li {
                    } else if !(k < start_line && done.contains(k)) && k - delta == li {
                    } else {
                        assert(pt.contains_key(k));
                        assert(pt[k] == t[k]);
                        assert(prev.contains_key(k));
                        assert(new_tokens@[k] == prev[k]);
                    }
                }
            }
        }
        proof {
            assert(forall|k: usize| old_m.contains_key(k) ==> done.contains(k));
            assert(adjusted_part(old_m, done, start_line, delta, new_total) =~= adjusted(
                old_m,
                start_line,
                delta,
                new_total,
            ));
            lemma_represents_views(new_tokens@, adjusted(old_m, start_line, delta, new_total));
        }
        self.line_tokens = new_tokens;
    }

    /// Drops the cached lines at or after `n`.
    fn drop_lines_from(&mut self, n: usize)
        ensures
            final(self).cached() == truncated(old(self).cached(), n as int),
            final(self).language == old(self).language,
            final(self).version == old(self).version,
            final(self).last_line_count == old(self).last_line_count,
            final(self).dirty_lines == old(self).dirty_lines,
    {
        let mut kept: HashMap<usize, Vec<LexemeSpan>> = HashMap::new();
        let ghost old_m = views(self.line_tokens@);
        let ghost mut done: Set<usize> = Set::empty();
        proof {
            assert(truncated(old_m.restrict(done), n as int) =~= Map::empty());
        }
        for kv in it: self.line_tokens.iter()
            invariant
                old_m == views(self.line_tokens@),
                forall|k: usize| done.contains(k) ==> old_m.contains_key(k),
                forall|k: usize|
                    #[trigger] old_m.contains_key(k) ==> done.contains(k) || exists|i: int|
                        it.index() <= i < it.seq().len() && *it.seq()[i].0 == k,
                represents(kept@, truncated(old_m.restrict(done), n as int)),
        {
            let (line_idx, tokens) = kv;
            let li = *line_idx;
            let ghost prev_done = done;
            let ghost prev = kept@;
            proof {
                assert(old_m.contains_key(li));
                assert(old_m[li] == tokens@);
            }
            if li < n {
                let copy = tokens.clone();
                proof {
                    assert(copy@ =~= tokens@);
                }
                kept.insert(li, copy);
            }
            proof {
                done = done.insert(li);
                let t = truncated(old_m.restrict(done), n as int);
                let pt = truncated(old_m.restrict(prev_done), n as int);
                assert forall|k: usize| #[trigger] kept@.contains_key(k) <==> t.contains_key(k) by {
                    assert(pt.contains_key(k) ==> t.contains_key(k));
                }
                assert forall|k: usize| #[trigger] t.contains_key(k) implies kept@[k]@ == t[k] by {
                    if k != li {
                        assert(pt.contains_key(k));
                    }
                }
            }
        }
        proof {
            assert(forall|k: usize| old_m.contains_key(k) ==> done.contains(k));
            assert(truncated(old_m.restrict(done), n as int) =~= truncated(old_m, n as int));
            lemma_represents_views(kept@, truncated(old_m, n as int));
        }
        self.line_tokens = kept;
    }

    /// Updates the cache after an edit, re-lexing only the lines it touched
    /// (see `edited_cache`): the lines from the edit's first line to its last
    /// line (clamped to the buffer) are lexed again; when the buffer changed
    /// size, the cached lines from the first line on move by the line delta;
    /// lines the cache lacks after growth are lexed; lines past the end after
    /// shrinking are dropped.
    pub fn update_for_edit(&mut self, edit_result: &EditResult, lines: &[String])
        requires
            old(self).current_version() < u64::MAX,
        ensures
            final(self).lang() == old(self).lang(),
            final(self).cached() == edited_cache(
                old(self).cached(),
                old(self).lang(),
                *edit_result,
                lines@,
            ),
            final(self).line_count() == lines@.len(),
            final(self).dirty() == Seq::new(lines@.len(), |i: int| false),
            final(self).current_version() == old(self).current_version() + 1,
    {
        if lines.len() == 0 {
            self.line_tokens.clear();
            self.last_line_count = 0;
            self.dirty_lines.clear();
            self.version = self.version + 1;
            proof {
                assert(views(self.line_tokens@) =~= Map::<usize, Seq<LexemeSpan>>::empty());
                assert(self.dirty_lines@ =~= Seq::new(lines@.len(), |i: int| false));
            }
            return;
        }
        let n = lines.len();
        let start_line = edit_result.start_line;
        let end_line = if edit_result.end_line < n - 1 {
            edit_result.end_line
        } else {
            n - 1
        };
        let line_delta = edit_result.line_delta;

        let dirty_start = start_line;
        let dirty_end = end_line + 1;

        if line_delta != 0 {
            self.adjust_line_numbers(start_line, line_delta, n);
        }
        let ghost m1 = views(self.line_tokens@);
        let ghost language = self.language;

        let lexer = self.language.create_lexer();
        let mut i = dirty_start;
        proof {
            assert(relexed(m1, language, lines@, dirty_start as int, i as int) =~= m1);
            assert(represents(self.line_tokens@, m1));
        }
        while i < dirty_end
            invariant
                n == lines@.len(),
                dirty_end <= n,
                dirty_start <= i,
                dirty_start <= dirty_end ==> i <= dirty_end,
                dirty_start > dirty_end ==> i == dirty_start,
                lexer.language == language,
                self.language == language,
                language == old(self).language,
                self.version == old(self).version,
                represents(
                    self.line_tokens@,
                    relexed(m1, language, lines@, dirty_start as int, i as int),
                ),
            decreases dirty_end - i,
        {
            let tokens = lexer.lex_full(lines[i].as_str());
            let ghost prev = self.line_tokens@;
            self.line_tokens.insert(i, tokens);
            proof {
                let t = relexed(m1, language, lines@, dirty_start as int, i + 1);
                let pt = relexed(m1, language, lines@, dirty_start as int, i as int);
                assert forall|k: usize| #[trigger] self.line_tokens@.contains_key(k) <==> t.contains_key(k) by {
                    assert(pt.contains_key(k) ==> t.contains_key(k));
                }
                assert forall|k: usize| #[trigger] t.contains_key(k) implies self.line_tokens@[k]@
                    == t[k] by {
                    if k != i {
                        assert(pt.contains_key(k));
                    }
                }
            }
            i = i + 1;
        }
        proof {
            assert(relexed(m1, language, lines@, dirty_start as int, i as int) =~= relexed(
                m1,
                language,
                lines@,
                dirty_start as int,
                dirty_end as int,
            ));
        }
        let ghost m2 = relexed(m1, language, lines@, dirty_start as int, dirty_end as int);

        if line_delta > 0 {
            let mut j = dirty_end;
            proof {
                assert(filled(m2, language, lines@, dirty_end as int, j as int) =~= m2);
            }
            while j < n
                invariant
                    n == lines@.len(),
                    dirty_end <= j <= n,
                    lexer.language == language,
                    self.language == language,
                    language == old(self).language,
                    self.version == old(self).version,
                    represents(
                        self.line_tokens@,
                        filled(m2, language, lines@, dirty_end as int, j as int),
                    ),
                decreases n - j,
            {
                let ghost prev = self.line_tokens@;
                if !self.line_tokens.contains_key(&j) {
                    let tokens = lexer.lex_full(lines[j].as_str());
                    self.line_tokens.insert(j, tokens);
                }
                proof {
                    let t = filled(m2, language, lines@, dirty_end as int, j + 1);
                    let pt = filled(m2, language, lines@, dirty_end as int, j as int);
                    assert forall|k: usize| #[trigger] self.line_tokens@.contains_key(k) <==> t.contains_key(k) by {
                        assert(pt.contains_key(k) ==> t.contains_key(k));
                    }
                    assert forall|k: usize| #[trigger] t.contains_key(k) implies self.line_tokens@[k]@
                        == t[k] by {
                        if k != j {
                            assert(pt.contains_key(k));
                        } else if pt.contains_key(k) {
                            assert(m2.contains_key(k));
                        }
                    }
                }
                j = j + 1;
            }
        }
        proof {
            lemma_represents_views(self.line_tokens@, if line_delta > 0 {
                filled(m2, language, lines@, dirty_end as int, n as int)
            } else {
                m2
            });
        }

        if line_delta < 0 {
            self.drop_lines_from(n);
        }

        self.last_line_count = n;
        self.dirty_lines = vec![false; n];
        proof {
            assert(self.dirty_lines@ =~= Seq::new(lines@.len(), |i: int| false));
        }
        self.version = self.version + 1;
    }

    /// The cached tokens of line `line_idx`.
    pub fn get_line_tokens(&self, line_idx: usize) -> (r: Option<&Vec<LexemeSpan>>)
        ensures
            match r {
                Some(v) => self.cached().contains_key(line_idx) && v@ == self.cached()[line_idx],
                None => !self.cached().contains_key(line_idx),
            },
    {
        self.line_tokens.get(&line_idx)
    }

    /// The whole cache.
    pub fn get_all_tokens(&self) -> (r: &HashMap<usize, Vec<LexemeSpan>>)
        ensures
            views(r@) == self.cached(),
    {
        &self.line_tokens
    }

    pub fn version(&self) -> (v: u64)
        ensures
            v == self.current_version(),
    {
        self.version
    }

    /// Empties the cache (used when switching files).
    pub fn clear(&mut self)
        ensures
            final(self).lang() == old(self).lang(),
            final(self).cached() == Map::<usize, Seq<LexemeSpan>>::empty(),
            final(self).current_version() == 0,
            final(self).line_count() == 0,
            final(self).dirty() == Seq::<bool>::empty(),
    {
        self.line_tokens.clear();
        self.version = 0;
        self.last_line_count = 0;
        self.dirty_lines.clear();
        proof {
            assert(views(self.line_tokens@) =~= Map::<usize, Seq<LexemeSpan>>::empty());
        }
    }

    /// Number of cached lines, and the line count at the last analysis.
    pub fn cache_stats(&self) -> (r: (usize, usize))
        ensures
            r.0 == self.cached().dom().len(),
            r.1 == self.line_count(),
    {
        proof {
            assert(views(self.line_tokens@).dom() =~= self.line_tokens@.dom());
        }
        (self.line_tokens.len(), self.last_line_count)
    }
}


// ---------------------------------------------------------------------------
// Counters over a history of calls
// ---------------------------------------------------------------------------

/// A call that changes the counters of an incremental lexer, with the number
/// of lines it was given.
pub enum CounterStep {
    Analyze(usize),
    Update(usize),
    Clear,
}

/// Number of `analyze_all` and `update_for_edit` calls since the last `clear`.
pub open spec fn calls_since_clear(steps: Seq<CounterStep>) -> nat
    decreases steps.len(),
{
    if steps.len() == 0 {
        0
    } else {
        match steps.last() {
            CounterStep::Clear => 0,
            _ => calls_since_clear(steps.drop_last()) + 1,
        }
    }
}

/// Line count of the last analysis or update, or 0 when there was none since
/// the last `clear`.
pub open spec fn last_line_count(steps: Seq<CounterStep>) -> usize {
    if steps.len() == 0 {
        0
    } else {
        match steps.last() {
            CounterStep::Clear => 0,
            CounterStep::Analyze(n) => n,
            CounterStep::Update(n) => n,
        }
    }
}

/// `after` is what the contracts of `analyze_all`, `update_for_edit` and
/// `clear` give from `before`.
pub open spec fn counters_step(before: IncrementalLexer, step: CounterStep, after: IncrementalLexer) -> bool {
    match step {
        CounterStep::Analyze(n) => after.current_version() == before.current_version() + 1
            && after.line_count() == n,
        CounterStep::Update(n) => after.current_version() == before.current_version() + 1
            && after.line_count() == n,
        CounterStep::Clear => after.current_version() == 0 && after.line_count() == 0,
    }
}

/// Law: starting from a new lexer, the version is the number of analyses and
/// updates since the last `clear` (or since `new`), and `cache_stats` reports
/// as line count the number of lines of the last of them (0 when there was
/// none).
pub proof fn lemma_counters_follow_history(steps: Seq<CounterStep>, states: Seq<IncrementalLexer>)
    requires
        states.len() == steps.len() + 1,
        states[0].current_version() == 0,
        states[0].line_count() == 0,
        forall|i: int| 0 <= i < steps.len() ==> counters_step(states[i], #[trigger] steps[i], states[i + 1]),
    ensures
        states.last().current_version() == calls_since_clear(steps),
        states.last().line_count() == last_line_count(steps),
    decreases steps.len(),
{
    if steps.len() > 0 {
        let k = steps.len() - 1;
        let ps = steps.drop_last();
        let pst = states.drop_last();
        assert forall|i: int| 0 <= i < ps.len() implies counters_step(pst[i], #[trigger] ps[i], pst[i + 1]) by {
            assert(ps[i] == steps[i]);
            assert(counters_step(states[i], steps[i], states[i + 1]));
        }
        lemma_counters_follow_history(ps, pst);
        assert(counters_step(states[k], steps[k], states[k + 1]));
        assert(pst.last() == states[k]);
    }
}

// ---------------------------------------------------------------------------
// Several files
// ---------------------------------------------------------------------------

/// The incremental lexer of one open file.
pub struct FileLexer {
    pub path: String,
    pub lexer: IncrementalLexer,
}

/// Holds an incremental lexer per open file and knows the current file.
/// The lexers are kept as a list of (path, lexer) entries with distinct
/// paths, so that `open_file` and `current_lexer` can hand one out by
/// mutable reference.
pub struct IncrementalLexerManager {
    lexers: Vec<FileLexer>,
    current_file: Option<String>,
}

/// No path occurs twice among the entries.
pub open spec fn distinct_paths(s: Seq<FileLexer>) -> bool {
    forall|i: int, j: int| 0 <= i < j < s.len() ==> #[trigger] s[i].path@ != #[trigger] s[j].path@
}

/// The lexer of each entry, by path.
pub open spec fn files_of(s: Seq<FileLexer>) -> Map<Seq<char>, IncrementalLexer> {
    Map::new(
        |p: Seq<char>| exists|i: int| 0 <= i < s.len() && s[i].path@ == p,
        |p: Seq<char>| s[choose|i: int| 0 <= i < s.len() && s[i].path@ == p].lexer,
    )
}

proof fn lemma_files_at(s: Seq<FileLexer>, i: int)
    requires
        distinct_paths(s),
        0 <= i < s.len(),
    ensures
        files_of(s).contains_key(s[i].path@),
        files_of(s)[s[i].path@] == s[i].lexer,
{
    let p = s[i].path@;
    assert(files_of(s).contains_key(p));
    let j = choose|j: int| 0 <= j < s.len() && s[j].path@ == p;
    if j != i {
        if i < j {
            assert(s[i].path@ != s[j].path@);
        } else {
            assert(s[j].path@ != s[i].path@);
        }
    }
}

proof fn lemma_files_update(s: Seq<FileLexer>, i: int, e: FileLexer)
    requires
        distinct_paths(s),
        0 <= i < s.len(),
        e.path@ == s[i].path@,
    ensures
        distinct_paths(s.update(i, e)),
        files_of(s.update(i, e)) == files_of(s).insert(e.path@, e.lexer),
{
    let t = s.update(i, e);
    assert forall|a: int, b: int| 0 <= a < b < t.len() implies #[trigger] t[a].path@
        != #[trigger] t[b].path@ by {
        assert(s[a].path@ != s[b].path@);
    }
    assert forall|p: Seq<char>| #[trigger] files_of(t).contains_key(p) <==> files_of(s).insert(
        e.path@,
        e.lexer,
    ).contains_key(p) by {
        if files_of(s).contains_key(p) {
            let j = choose|j: int| 0 <= j < s.len() && s[j].path@ == p;
            assert(t[j].path@ == p);
        }
        if files_of(t).contains_key(p) {
            let j = choose|j: int| 0 <= j < t.len() && t[j].path@ == p;
            assert(s[j].path@ == p || j == i);
        }
    }
    assert forall|p: Seq<char>| #[trigger] files_of(t).contains_key(p) implies files_of(t)[p]
        == files_of(s).insert(e.path@, e.lexer)[p] by {
        let j = choose|j: int| 0 <= j < t.len() && t[j].path@ == p;
        lemma_files_at(t, j);
        if j != i {
            lemma_files_at(s, j);
        }
    }
    assert(files_of(t) =~= files_of(s).insert(e.path@, e.lexer));
}

proof fn lemma_files_push(s: Seq<FileLexer>, e: FileLexer)
    requires
        distinct_paths(s),
        !files_of(s).contains_key(e.path@),
    ensures
        distinct_paths(s.push(e)),
        files_of(s.push(e)) == files_of(s).insert(e.path@, e.lexer),
{
    let t = s.push(e);
    assert forall|a: int, b: int| 0 <= a < b < t.len() implies #[trigger] t[a].path@
        != #[trigger] t[b].path@ by {
        if b == s.len() {
            assert(s[a].path@ == t[a].path@);
            if s[a].path@ == e.path@ {
                assert(files_of(s).contains_key(e.path@));
            }
        } else {
            assert(s[a].path@ != s[b].path@);
        }
    }
    assert forall|p: Seq<char>| #[trigger] files_of(t).contains_key(p) <==> files_of(s).insert(
        e.path@,
        e.lexer,
    ).contains_key(p) by {
        if files_of(s).contains_key(p) {
            let j = choose|j: int| 0 <= j < s.len() && s[j].path@ == p;
            assert(t[j].path@ == p);
        }
        if p == e.path@ {
            assert(t[s.len() as int].path@ == p);
        }
        if files_of(t).contains_key(p) {
            let j = choose|j: int| 0 <= j < t.len() && t[j].path@ == p;
            if j < s.len() {
                assert(s[j].path@ == p);
            }
        }
    }
    assert forall|p: Seq<char>| #[trigger] files_of(t).contains_key(p) implies files_of(t)[p]
        == files_of(s).insert(e.path@, e.lexer)[p] by {
        let j = choose|j: int| 0 <= j < t.len() && t[j].path@ == p;
        lemma_files_at(t, j);
        if j < s.len() {
            lemma_files_at(s, j);
        }
    }
    assert(files_of(t) =~= files_of(s).insert(e.path@, e.lexer));
}

proof fn lemma_files_remove(s: Seq<FileLexer>, i: int)
    requires
        distinct_paths(s),
        0 <= i < s.len(),
    ensures
        distinct_paths(s.remove(i)),
        files_of(s.remove(i)) == files_of(s).remove(s[i].path@),
{
    let t = s.remove(i);
    let q = s[i].path@;
    assert forall|a: int, b: int| 0 <= a < b < t.len() implies #[trigger] t[a].path@
        != #[trigger] t[b].path@ by {
        let a2 = if a < i { a } else { a + 1 };
        let b2 = if b < i { b } else { b + 1 };
        assert(t[a] == s[a2] && t[b] == s[b2]);
        assert(s[a2].path@ != s[b2].path@);
    }
    assert forall|p: Seq<char>| #[trigger] files_of(t).contains_key(p) <==> files_of(s).remove(
        q,
    ).contains_key(p) by {
        if files_of(s).contains_key(p) && p != q {
            let j = choose|j: int| 0 <= j < s.len() && s[j].path@ == p;
            assert(j != i);
            let j2 = if j < i { j } else { j - 1 };
            assert(t[j2] == s[j]);
        }
        if files_of(t).contains_key(p) {
            let j = choose|j: int| 0 <= j < t.len() && t[j].path@ == p;
            let j2 = if j < i { j } else { j + 1 };
            assert(t[j] == s[j2]);
            assert(j2 != i);
            if j2 < i {
                assert(s[j2].path@ != s[i].path@);
            } else {
                assert(s[i].path@ != s[j2].path@);
            }
        }
    }
    assert forall|p: Seq<char>| #[trigger] files_of(t).contains_key(p) implies files_of(t)[p]
        == files_of(s).remove(q)[p] by {
        let j = choose|j: int| 0 <= j < t.len() && t[j].path@ == p;
        let j2 = if j < i { j } else { j + 1 };
        assert(t[j] == s[j2]);
        lemma_files_at(t, j);
        lemma_files_at(s, j2);
    }
    assert(files_of(t) =~= files_of(s).remove(q));
}

impl IncrementalLexerManager {
    /// No path is held twice.
    pub closed spec fn wf(&self) -> bool {
        distinct_paths(self.lexers@)
    }

    /// The lexer of each open file, by path.
    pub closed spec fn files(&self) -> Map<Seq<char>, IncrementalLexer> {
        files_of(self.lexers@)
    }

    /// The path of the current file.
    pub closed spec fn current(&self) -> Option<Seq<char>> {
        match self.current_file {
            Some(p) => Some(p@),
            None => None,
        }
    }

    /// Index of the entry for `path`.
    fn find(&self, path: &str) -> (r: Option<usize>)
        requires
            self.wf(),
        ensures
            match r {
                Some(i) => i < self.lexers@.len() && self.lexers@[i as int].path@ == path@,
                None => !self.files().contains_key(path@),
            },
    {
        let mut i: usize = 0;
        while i < self.lexers.len()
            invariant
                i <= self.lexers@.len(),
                forall|j: int| 0 <= j < i ==> self.lexers@[j].path@ != path@,
            decreases self.lexers@.len() - i,
        {
            if same_text(self.lexers[i].path.as_str(), path) {
                return Some(i);
            }
            i = i + 1;
        }
        None
    }

    pub fn new() -> (r: Self)
        ensures
            r.wf(),
            r.files() == Map::<Seq<char>, IncrementalLexer>::empty(),
            r.current() == None::<Seq<char>>,
    {
        let r = IncrementalLexerManager { lexers: Vec::new(), current_file: None };
        proof {
            assert(r.files() =~= Map::<Seq<char>, IncrementalLexer>::empty());
        }
        r
    }

    /// Makes `path` the current file and returns its lexer, creating an empty
    /// one for `language` when the file has none yet.
    pub fn open_file(&mut self, path: &str, language: Language) -> (r: &mut IncrementalLexer)
        requires
            old(self).wf(),
        ensures
            final(self).wf(),
            final(self).current() == Some(path@),
            old(self).files().contains_key(path@) ==> *r == old(self).files()[path@],
            !old(self).files().contains_key(path@) ==> {
                &&& r.lang() == language
                &&& r.cached() == Map::<usize, Seq<LexemeSpan>>::empty()
                &&& r.current_version() == 0
                &&& r.line_count() == 0
                &&& r.dirty() == Seq::<bool>::empty()
            },
            final(self).files() == old(self).files().insert(path@, *final(r)),
    {
        self.current_file = Some(path.to_owned());
        let idx = match self.find(path) {
            Some(i) => {
                proof {
                    lemma_files_at(self.lexers@, i as int);
                }
                i
            },
            None => {
                let entry = FileLexer { path: path.to_owned(), lexer: IncrementalLexer::new(language) };
                proof {
                    lemma_files_push(self.lexers@, entry);
                    lemma_files_at(self.lexers@.push(entry), self.lexers@.len() as int);
                }
                self.lexers.push(entry);
                self.lexers.len() - 1
            },
        };
        let ghost mid = self.lexers@;
        let r = &mut self.lexers[idx].lexer;
        proof {
            lemma_files_update(
                mid,
                idx as int,
                FileLexer { path: mid[idx as int].path, lexer: *final(r) },
            );
        }
        r
    }

    /// The lexer of the current file, if there is a current file with one.
    pub fn current_lexer(&mut self) -> (r: Option<&mut IncrementalLexer>)
        requires
            old(self).wf(),
        ensures
            final(self).wf(),
            final(self).current() == old(self).current(),
            match r {
                Some(l) => {
                    &&& old(self).current() is Some
                    &&& old(self).files().contains_key(old(self).current()->0)
                    &&& *l == old(self).files()[old(self).current()->0]
                    &&& final(self).files() == old(self).files().insert(
                        old(self).current()->0,
                        *final(l),
                    )
                },
                None => {
                    &&& (old(self).current() is None || !old(self).files().contains_key(
                        old(self).current()->0,
                    ))
                    &&& final(self).files() == old(self).files()
                },
            },
    {
        let idx = match &self.current_file {
            Some(current) => self.find(current.as_str()),
            None => None,
        };
        match idx {
            Some(i) => {
                proof {
                    lemma_files_at(self.lexers@, i as int);
                }
                let ghost mid = self.lexers@;
                let r = &mut self.lexers[i].lexer;
                proof {
                    lemma_files_update(
                        mid,
                        i as int,
                        FileLexer { path: mid[i as int].path, lexer: *final(r) },
                    );
                }
                Some(r)
            },
            None => None,
        }
    }

    /// Drops the lexer of `path`; when it was the current file, there is no
    /// current file any more.
    pub fn close_file(&mut self, path: &str)
        requires
            old(self).wf(),
        ensures
            final(self).wf(),
            final(self).files() == old(self).files().remove(path@),
            final(self).current() == (if old(self).current() == Some(path@) {
                None
            } else {
                old(self).current()
            }),
    {
        if let Some(i) = self.find(path) {
            proof {
                lemma_files_remove(self.lexers@, i as int);
            }
            self.lexers.remove(i);
        } else {
            proof {
                assert(self.files().remove(path@) =~= self.files());
            }
        }
        let is_current = match &self.current_file {
            Some(current) => same_text(current.as_str(), path),
            None => false,
        };
        if is_current {
            self.current_file = None;
        }
    }

    /// Makes `path` the current file.
    pub fn switch_file(&mut self, path: &str)
        requires
            old(self).wf(),
        ensures
            final(self).wf(),
            final(self).files() == old(self).files(),
            final(self).current() == Some(path@),
    {
        self.current_file = Some(path.to_owned());
    }

    /// Drops every lexer; there is no current file any more.
    pub fn clear_all(&mut self)
        requires
            old(self).wf(),
        ensures
            final(self).wf(),
            final(self).files() == Map::<Seq<char>, IncrementalLexer>::empty(),
            final(self).current() == None::<Seq<char>>,
    {
        self.lexers.clear();
        self.current_file = None;
        proof {
            assert(self.files() =~= Map::<Seq<char>, IncrementalLexer>::empty());
        }
    }
}

impl Default for IncrementalLexerManager {
    fn default() -> (r: Self)
        ensures
            r.wf(),
            r.files() == Map::<Seq<char>, IncrementalLexer>::empty(),
            r.current() == None::<Seq<char>>,
    {
        Self::new()
    }
}

} // verus!
