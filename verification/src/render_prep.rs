//! Preparing visible lines for rendering: lexing them (split into chunks for
//! worker threads when there are many) and caching the result.

use vstd::prelude::*;
use crate::incremental_lexer::lexed;
use crate::lexer::{Language, LexemeSpan};

verus! {

/// A line prepared for rendering: its text, tokens and index.
#[derive(Clone, Debug)]
pub struct RenderLine {
    pub text: String,
    pub tokens: Vec<LexemeSpan>,
    pub line_idx: usize,
}

/// Splits token preparation into chunks, one per worker thread.
#[derive(Clone, Copy, Debug)]
pub struct ParallelRenderPrep {
    thread_count: usize,
}

/// Fewest lines worth splitting among threads.
pub const PARALLEL_MIN_LINES: usize = 100;

/// Most worker threads.
pub const MAX_THREADS: usize = 8;

/// Worker threads used for a machine that offers `available` hardware
/// threads (`None` when unknown).
pub open spec fn threads_for(available: Option<usize>) -> usize {
    let n = match available {
        Some(n) => n,
        None => 4,
    };
    if n < MAX_THREADS {
        n
    } else {
        MAX_THREADS
    }
}

/// Worker threads are the machine's hardware threads capped at eight, and
/// four when the machine does not say: the smaller of `n` and eight for a
/// machine with `n` threads.
pub proof fn lemma_threads_for_is_capped_count(n: usize)
    ensures
        threads_for(None) == 4,
        threads_for(Some(n)) <= n,
        threads_for(Some(n)) <= 8,
        threads_for(Some(n)) == n || threads_for(Some(n)) == 8,
        n <= 8 ==> threads_for(Some(n)) == n,
        n >= 8 ==> threads_for(Some(n)) == 8,
{
}

/// Lines per chunk: `line_count / threads`, rounded up.
pub open spec fn chunk_size(line_count: int, threads: int) -> int {
    (line_count + threads - 1) / threads
}

/// Whether `line_count` lines are lexed on one thread.
pub open spec fn single_threaded(line_count: int, threads: int) -> bool {
    line_count < PARALLEL_MIN_LINES || threads < 2
}

/// Chunks hold `line_count / threads` lines rounded up: enough chunks of that
/// size cover every line, and one line fewer per chunk would not.
pub proof fn lemma_chunk_size_rounds_up(line_count: int, threads: int)
    requires
        line_count >= 0,
        threads >= 1,
    ensures
        chunk_size(line_count, threads) * threads >= line_count,
        (chunk_size(line_count, threads) - 1) * threads < line_count || line_count == 0,
        line_count % threads == 0 ==> chunk_size(line_count, threads) == line_count / threads,
{
    let size = chunk_size(line_count, threads);
    assert(size * threads >= line_count && size * threads <= line_count + threads - 1) by (nonlinear_arith)
        requires
            size == (line_count + threads - 1) / threads,
            threads >= 1,
            line_count >= 0,
    ;
    assert((size - 1) * threads == size * threads - threads) by (nonlinear_arith);
    if line_count % threads == 0 {
        assert(size == line_count / threads) by (nonlinear_arith)
            requires
                size == (line_count + threads - 1) / threads,
                line_count % threads == 0,
                threads >= 1,
                line_count >= 0,
        ;
    }
}

/// Fewer than a hundred lines, or fewer than two workers, are lexed on one
/// thread; otherwise the work is split.
pub proof fn lemma_single_threaded_bounds(line_count: int, threads: int)
    ensures
        single_threaded(line_count, threads) <==> (line_count < 100 || threads < 2),
{
}

/// The chunk ranges tile `0 .. n`: non-empty, in order, each starting where
/// the one before ends.
pub open spec fn tiles_lines(ranges: Seq<(usize, usize)>, n: int) -> bool {
    &&& (ranges.len() == 0 <==> n == 0)
    &&& ranges.len() > 0 ==> ranges[0].0 == 0 && ranges.last().1 == n
    &&& forall|c: int| 0 <= c < ranges.len() ==> #[trigger] ranges[c].0 < ranges[c].1
    &&& forall|c: int| 0 <= c < ranges.len() - 1 ==> #[trigger] ranges[c].1 == ranges[c + 1].0
}

/// The tokens of every line of `lines`, in order.
pub open spec fn all_tokens(language: Language, lines: Seq<String>) -> Seq<Seq<LexemeSpan>> {
    Seq::new(lines.len(), |k: int| lexed(language, lines, k))
}

proof fn lemma_tiles_cover(ranges: Seq<(usize, usize)>, n: int, k: int)
    requires
        tiles_lines(ranges, n),
        0 <= k < n,
    ensures
        exists|c: int| #![trigger ranges[c]] 0 <= c < ranges.len() && ranges[c].0 <= k < ranges[c].1,
    decreases ranges.len(),
{
    let m = ranges.len() - 1;
    if k >= ranges[m].0 {
        assert(ranges[m].0 <= k < ranges[m].1);
    } else {
        let rest = ranges.drop_last();
        assert forall|c: int| 0 <= c < rest.len() - 1 implies #[trigger] rest[c].1 == rest[c
            + 1].0 by {
            assert(ranges[c].1 == ranges[c + 1].0);
        }
        assert(rest.last().1 == ranges[m].0) by {
            assert(ranges[m - 1].1 == ranges[m].0);
        }
        assert forall|c: int| 0 <= c < rest.len() implies #[trigger] rest[c].0 < rest[c].1 by {
            assert(ranges[c].0 < ranges[c].1);
        }
        lemma_tiles_cover(rest, ranges[m].0 as int, k);
        let c = choose|c: int| #![trigger rest[c]] 0 <= c < rest.len() && rest[c].0 <= k < rest[c].1;
        assert(ranges[c] == rest[c]);
    }
}

proof fn lemma_tiles_disjoint(ranges: Seq<(usize, usize)>, n: int, a: int, b: int)
    requires
        tiles_lines(ranges, n),
        0 <= a < b < ranges.len(),
    ensures
        ranges[a].1 <= ranges[b].0,
    decreases b - a,
{
    if b > a + 1 {
        lemma_tiles_disjoint(ranges, n, a, b - 1);
        assert(ranges[b - 1].1 == ranges[b].0);
    } else {
        assert(ranges[a].1 == ranges[a + 1].0);
    }
}

/// The lines of chunk `c` of size `size` among `n` lines.
pub open spec fn chunk_range(c: int, size: int, n: int) -> (usize, usize) {
    ((c * size) as usize, if (c + 1) * size < n {
        ((c + 1) * size) as usize
    } else {
        n as usize
    })
}

proof fn lemma_chunk_size(n: int, t: int, size: int)
    requires
        t >= 2,
        n >= 100,
        size == (n + (t - 1)) / t,
    ensures
        size == chunk_size(n, t),
        size * t <= n + t - 1,
        size * t >= n,
        size >= 1,
{
    assert(size * t <= n + t - 1) by (nonlinear_arith)
        requires
            size == (n + (t - 1)) / t,
            t >= 2,
    ;
    assert(size * t >= n) by (nonlinear_arith)
        requires
            size == (n + (t - 1)) / t,
            t >= 2,
    ;
    assert(size >= 1) by (nonlinear_arith)
        requires
            size * t >= n,
            n >= 100,
            t >= 2,
    ;
}

proof fn lemma_chunk_step(i: int, t: int, size: int)
    requires
        0 <= i < t,
        size >= 1,
    ensures
        i * size < (i + 1) * size,
        (i + 1) * size <= t * size,
        (i + 1) * size == i * size + size,
        0 <= i * size,
{
    assert((i + 1) * size <= t * size) by (nonlinear_arith)
        requires
            i < t,
            size >= 1,
    ;
    assert((i + 1) * size == i * size + size) by (nonlinear_arith);
    assert(0 <= i * size) by (nonlinear_arith)
        requires
            0 <= i,
            size >= 1,
    ;
}

impl ParallelRenderPrep {
    /// Number of worker threads.
    pub closed spec fn threads(&self) -> usize {
        self.thread_count
    }

    /// A preparer for a machine that offers `available_parallelism` hardware
    /// threads (`None` when unknown): at most eight workers, four when the
    /// number is unknown.
    pub fn new(available_parallelism: Option<usize>) -> (r: Self)
        ensures
            r.threads() == threads_for(available_parallelism),
    {
        let n = match available_parallelism {
            Some(n) => n,
            None => 4,
        };
        ParallelRenderPrep { thread_count: if n < MAX_THREADS { n } else { MAX_THREADS } }
    }

    /// Lexes every line on the calling thread.
    pub fn prepare_tokens_single(&self, lines: &[String], language: Language) -> (r: Vec<
        Vec<LexemeSpan>,
    >)
        ensures
            r@.len() == lines@.len(),
            forall|k: int| 0 <= k < lines@.len() ==> #[trigger] r@[k]@ == lexed(language, lines@, k),
    {
        let lexer = language.create_lexer();
        let mut r: Vec<Vec<LexemeSpan>> = Vec::new();
        let mut i: usize = 0;
        while i < lines.len()
            invariant
                i <= lines@.len(),
                lexer.language == language,
                r@.len() == i,
                forall|k: int| 0 <= k < i ==> #[trigger] r@[k]@ == lexed(language, lines@, k),
            decreases lines@.len() - i,
        {
            r.push(lexer.lex_full(lines[i].as_str()));
            i = i + 1;
        }
        r
    }

    /// The line ranges that the workers lex, one per worker, in order; empty
    /// when the lines are too few (under 100) or the threads too few (under
    /// two), in which case one thread lexes all lines. Worker `c` takes the
    /// lines `c * size .. min((c + 1) * size, line_count)` with `size` the
    /// line count divided by the thread count, rounded up.
    pub fn chunk_ranges(&self, line_count: usize) -> (r: Vec<(usize, usize)>)
        requires
            single_threaded(line_count as int, self.threads() as int) || line_count
                + self.threads() - 1 <= usize::MAX,
        ensures
            single_threaded(line_count as int, self.threads() as int) ==> r@.len() == 0,
            !single_threaded(line_count as int, self.threads() as int) ==> {
                let size = chunk_size(line_count as int, self.threads() as int);
                &&& r@.len() <= self.threads()
                &&& tiles_lines(r@, line_count as int)
                &&& forall|c: int|
                    0 <= c < r@.len() ==> #[trigger] r@[c] == chunk_range(c, size, line_count as int)
            },
    {
        let mut ranges: Vec<(usize, usize)> = Vec::new();
        if line_count < PARALLEL_MIN_LINES || self.thread_count < 2 {
            return ranges;
        }
        let t = self.thread_count;
        let n = line_count;
        let size = (n + (t - 1)) / t;
        proof {
            lemma_chunk_size(n as int, t as int, size as int);
        }
        let mut thread_idx: usize = 0;
        while thread_idx < t
            invariant
                n == line_count,
                t == self.thread_count,
                2 <= t,
                100 <= n,
                size == chunk_size(n as int, t as int),
                1 <= size,
                size * t <= n + t - 1,
                size * t >= n,
                n + t - 1 <= usize::MAX,
                thread_idx <= t,
                ranges@.len() == thread_idx,
                forall|c: int|
                    0 <= c < ranges@.len() ==> #[trigger] ranges@[c] == chunk_range(
                        c,
                        size as int,
                        n as int,
                    ),
                forall|c: int| 0 <= c < ranges@.len() ==> #[trigger] ranges@[c].0 < ranges@[c].1,
                forall|c: int|
                    0 <= c < ranges@.len() - 1 ==> #[trigger] ranges@[c].1 == ranges@[c + 1].0,
                ranges@.len() > 0 ==> ranges@[0].0 == 0,
                ranges@.len() > 0 ==> ranges@.last().1 == (if thread_idx * size < n {
                    thread_idx * size
                } else {
                    n as int
                }),
            ensures
                ranges@.len() <= t,
                ranges@.len() > 0,
                ranges@.last().1 == n,
                ranges@[0].0 == 0,
                forall|c: int|
                    0 <= c < ranges@.len() ==> #[trigger] ranges@[c] == chunk_range(
                        c,
                        size as int,
                        n as int,
                    ),
                forall|c: int| 0 <= c < ranges@.len() ==> #[trigger] ranges@[c].0 < ranges@[c].1,
                forall|c: int|
                    0 <= c < ranges@.len() - 1 ==> #[trigger] ranges@[c].1 == ranges@[c + 1].0,
            decreases t - thread_idx,
        {
            proof {
                lemma_chunk_step(thread_idx as int, t as int, size as int);
            }
            let start = thread_idx * size;
            let upper = (thread_idx + 1) * size;
            let end = if upper < n {
                upper
            } else {
                n
            };
            if start >= end {
                break;
            }
            ranges.push((start, end));
            thread_idx = thread_idx + 1;
        }
        ranges
    }

    /// Puts the chunk results of the workers in line order: line
    /// `ranges[c].0 + j` gets `chunk_results[c][j]`; a line no range covers
    /// gets no tokens.
    pub fn assemble_chunks(
        line_count: usize,
        ranges: &Vec<(usize, usize)>,
        chunk_results: Vec<Vec<Vec<LexemeSpan>>>,
    ) -> (r: Vec<Vec<LexemeSpan>>)
        requires
            ranges@.len() == chunk_results@.len(),
            forall|c: int|
                0 <= c < ranges@.len() ==> #[trigger] ranges@[c].0 <= ranges@[c].1 <= line_count,
            forall|a: int, b: int|
                0 <= a < b < ranges@.len() ==> #[trigger] ranges@[a].1 <= #[trigger] ranges@[b].0,
            forall|c: int|
                0 <= c < ranges@.len() ==> #[trigger] chunk_results@[c]@.len() == ranges@[c].1
                    - ranges@[c].0,
        ensures
            r@.len() == line_count,
            forall|c: int, j: int|
                0 <= c < ranges@.len() && 0 <= j < ranges@[c].1 - ranges@[c].0 ==> #[trigger] r@[ranges@[c].0
                    + j]@ == (#[trigger] chunk_results@[c]@[j])@,
            forall|k: int|
                0 <= k < line_count && (forall|c: int|
                    0 <= c < ranges@.len() ==> !(ranges@[c].0 <= k < #[trigger] ranges@[c].1))
                    ==> (#[trigger] r@[k])@.len() == 0,
    {
        let mut results: Vec<Vec<LexemeSpan>> = Vec::new();
        let mut k: usize = 0;
        while k < line_count
            invariant
                k <= line_count,
                results@.len() == k,
                forall|i: int| 0 <= i < k ==> (#[trigger] results@[i])@.len() == 0,
            decreases line_count - k,
        {
            results.push(Vec::new());
            k = k + 1;
        }
        let ghost all = chunk_results@;
        let mut chunks = chunk_results;
        let mut c = chunks.len();
        while c > 0
            invariant
                c == chunks@.len(),
                c <= all.len(),
                all.len() == ranges@.len(),
                forall|i: int| 0 <= i < c ==> #[trigger] chunks@[i] == all[i],
                forall|i: int|
                    0 <= i < ranges@.len() ==> #[trigger] ranges@[i].0 <= ranges@[i].1 <= line_count,
                forall|a: int, b: int|
                    0 <= a < b < ranges@.len() ==> #[trigger] ranges@[a].1 <= #[trigger] ranges@[b].0,
                forall|i: int|
                    0 <= i < ranges@.len() ==> #[trigger] all[i]@.len() == ranges@[i].1
                        - ranges@[i].0,
                results@.len() == line_count,
                forall|i: int, j: int|
                    c <= i < ranges@.len() && 0 <= j < ranges@[i].1 - ranges@[i].0
                        ==> #[trigger] results@[ranges@[i].0 + j]@ == (#[trigger] all[i]@[j])@,
                forall|q: int|
                    0 <= q < line_count && (forall|i: int|
                        c <= i < ranges@.len() ==> !(ranges@[i].0 <= q < #[trigger] ranges@[i].1))
                        ==> (#[trigger] results@[q])@.len() == 0,
            decreases c,
        {
            c = c - 1;
            let mut chunk = chunks.pop().unwrap();
            let start = ranges[c].0;
            let ghost before = results@;
            let mut j = chunk.len();
            while j > 0
                invariant
                    j == chunk@.len(),
                    j <= all[c as int]@.len(),
                    forall|x: int| 0 <= x < j ==> #[trigger] chunk@[x] == all[c as int]@[x],
                    start == ranges@[c as int].0,
                    all[c as int]@.len() == ranges@[c as int].1 - ranges@[c as int].0,
                    ranges@[c as int].1 <= line_count,
                    results@.len() == line_count,
                    forall|x: int|
                        j <= x < all[c as int]@.len() ==> #[trigger] results@[start + x]@
                            == all[c as int]@[x]@,
                    forall|q: int|
                        0 <= q < line_count && !(start + j <= q < ranges@[c as int].1)
                            ==> #[trigger] results@[q] == before[q],
                decreases j,
            {
                j = j - 1;
                let tokens = chunk.pop().unwrap();
                results.set(start + j, tokens);
            }
            proof {
                assert forall|i: int, jj: int|
                    c <= i < ranges@.len() && 0 <= jj < ranges@[i].1 - ranges@[i].0
                        implies #[trigger] results@[ranges@[i].0 + jj]@ == (#[trigger] all[i]@[jj])@ by {
                    if i > c {
                        assert(ranges@[c as int].1 <= ranges@[i].0);
                        assert(results@[ranges@[i].0 + jj] == before[ranges@[i].0 + jj]);
                    }
                }
                assert forall|q: int|
                    0 <= q < line_count && (forall|i: int|
                        c <= i < ranges@.len() ==> !(ranges@[i].0 <= q < #[trigger] ranges@[i].1))
                        implies (#[trigger] results@[q])@.len() == 0 by {
                    assert(!(ranges@[c as int].0 <= q < ranges@[c as int].1));
                    assert(results@[q] == before[q]);
                }
            }
        }
        results
    }
}

/// Law: lexing the chunks of `chunk_ranges` separately and assembling them
/// with `assemble_chunks` gives the same tokens as lexing every line on one
/// thread.
pub proof fn lemma_chunked_lexing_agrees(
    language: Language,
    lines: Seq<String>,
    ranges: Seq<(usize, usize)>,
    chunk_results: Seq<Seq<Seq<LexemeSpan>>>,
    assembled: Seq<Seq<LexemeSpan>>,
)
    requires
        tiles_lines(ranges, lines.len() as int),
        chunk_results.len() == ranges.len(),
        forall|c: int, j: int|
            0 <= c < ranges.len() && 0 <= j < ranges[c].1 - ranges[c].0 ==> #[trigger] chunk_results[c][j]
                == lexed(language, lines, ranges[c].0 + j),
        assembled.len() == lines.len(),
        forall|c: int, j: int|
            0 <= c < ranges.len() && 0 <= j < ranges[c].1 - ranges[c].0 ==> #[trigger] assembled[ranges[c].0
                + j] == #[trigger] chunk_results[c][j],
    ensures
        assembled == all_tokens(language, lines),
{
    assert forall|k: int| 0 <= k < lines.len() implies #[trigger] assembled[k] == all_tokens(
        language,
        lines,
    )[k] by {
        lemma_tiles_cover(ranges, lines.len() as int, k);
        let c = choose|c: int| #![trigger ranges[c]] 0 <= c < ranges.len() && ranges[c].0 <= k < ranges[c].1;
        let j = k - ranges[c].0;
        assert(assembled[ranges[c].0 + j] == chunk_results[c][j]);
    }
    assert(assembled =~= all_tokens(language, lines));
}

/// Law: the chunk ranges never overlap.
pub proof fn lemma_chunk_ranges_disjoint(ranges: Seq<(usize, usize)>, n: int, a: int, b: int)
    requires
        tiles_lines(ranges, n),
        0 <= a < b < ranges.len(),
    ensures
        ranges[a].1 <= ranges[b].0,
{
    lemma_tiles_disjoint(ranges, n, a, b);
}

/// Cached render data of the visible lines.
pub struct RenderCache {
    pub lines: Vec<String>,
    pub token_lines: Vec<Vec<LexemeSpan>>,
    pub start_line: usize,
    pub end_line: usize,
    pub version: u64,
}

impl RenderCache {
    pub fn new() -> (r: Self)
        ensures
            r.lines@.len() == 0,
            r.token_lines@.len() == 0,
            r.start_line == 0,
            r.end_line == 0,
            r.version == 0,
    {
        RenderCache { lines: Vec::new(), token_lines: Vec::new(), start_line: 0, end_line: 0, version: 0 }
    }

    /// The cache holds the lines `start_line .. end_line` of version `version`.
    pub open spec fn valid_for(&self, start_line: usize, end_line: usize, version: u64) -> bool {
        self.start_line == start_line && self.end_line == end_line && self.version == version
    }

    /// Whether the cache holds the lines `start_line .. end_line` of version
    /// `version`.
    pub fn is_valid(&self, start_line: usize, end_line: usize, version: u64) -> (r: bool)
        ensures
            r == self.valid_for(start_line, end_line, version),
    {
        self.start_line == start_line && self.end_line == end_line && self.version == version
    }

    /// Replaces the cached data.
    pub fn update(
        &mut self,
        lines: Vec<String>,
        token_lines: Vec<Vec<LexemeSpan>>,
        start_line: usize,
        end_line: usize,
        version: u64,
    )
        ensures
            final(self).lines == lines,
            final(self).token_lines == token_lines,
            final(self).start_line == start_line,
            final(self).end_line == end_line,
            final(self).version == version,
    {
        self.lines = lines;
        self.token_lines = token_lines;
        self.start_line = start_line;
        self.end_line = end_line;
        self.version = version;
    }

    /// Empties the cache.
    pub fn clear(&mut self)
        ensures
            final(self).lines@.len() == 0,
            final(self).token_lines@.len() == 0,
            final(self).start_line == 0,
            final(self).end_line == 0,
            final(self).version == 0,
    {
        self.lines.clear();
        self.token_lines.clear();
        self.start_line = 0;
        self.end_line = 0;
        self.version = 0;
    }
}

/// Law: after `update(lines, tokens, s, e, v)` the cache is valid for the
/// range `s .. e` of version `v` and for no other range or version.
pub proof fn lemma_update_makes_valid(
    after: RenderCache,
    s: usize,
    e: usize,
    v: u64,
    s2: usize,
    e2: usize,
    v2: u64,
)
    requires
        after.start_line == s,
        after.end_line == e,
        after.version == v,
    ensures
        after.valid_for(s, e, v),
        after.valid_for(s2, e2, v2) <==> (s2 == s && e2 == e && v2 == v),
{
}

impl Default for RenderCache {
    fn default() -> (r: Self)
        ensures
            r.lines@.len() == 0,
            r.token_lines@.len() == 0,
            r.start_line == 0,
            r.end_line == 0,
            r.version == 0,
    {
        Self::new()
    }
}

} // verus!
