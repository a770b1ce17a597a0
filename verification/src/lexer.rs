//! Line lexer: splits one line of source text into byte spans.
//!
//! Rust lines are split into runs of blanks, words (identifiers and
//! keywords), numbers, string literals, line comments and single-byte
//! punctuation. Plain text is one span per non-empty line. Offsets are byte
//! offsets into the line's UTF-8 encoding; bytes of multi-byte characters
//! count as word bytes, so no span ends inside a character.

use vstd::prelude::*;
use crate::simd_utils::{byte_class, classify_byte};

verus! {

/// Languages the lexer knows.
#[derive(Clone, Copy, Debug, PartialEq, Eq)]
pub enum Language {
    Rust,
    PlainText,
}

/// Kind of a lexeme.
#[derive(Clone, Copy, Debug, PartialEq, Eq)]
pub enum TokenKind {
    Whitespace,
    Word,
    Number,
    Str,
    Comment,
    Punct,
    Text,
}

/// A lexeme: the bytes `start .. end` of a line, and their kind.
#[derive(Clone, Copy, Debug, PartialEq, Eq)]
pub struct LexemeSpan {
    pub start: usize,
    pub end: usize,
    pub kind: TokenKind,
}

/// A lexer for one language.
#[derive(Clone, Copy, Debug)]
pub struct Lexer {
    pub language: Language,
}

// ---------------------------------------------------------------------------
// Specification of the token stream
// ---------------------------------------------------------------------------

pub open spec fn is_space_byte(b: u8) -> bool {
    byte_class(b) == 3
}

/// Bytes that continue a word or a number: letters, digits, `_` and every
/// byte of a multi-byte character.
pub open spec fn is_word_byte(b: u8) -> bool {
    byte_class(b) == 1 || byte_class(b) == 2 || b >= 0x80
}

/// Bytes that start a word.
pub open spec fn is_word_start(b: u8) -> bool {
    byte_class(b) == 1 || b >= 0x80
}

/// End of the run of blanks that starts at `k`.
pub open spec fn space_run_end(s: Seq<u8>, k: int) -> int
    decreases s.len() - k,
{
    if 0 <= k < s.len() && is_space_byte(s[k]) {
        space_run_end(s, k + 1)
    } else {
        k
    }
}

/// End of the run of word bytes that starts at `k`.
pub open spec fn word_run_end(s: Seq<u8>, k: int) -> int
    decreases s.len() - k,
{
    if 0 <= k < s.len() && is_word_byte(s[k]) {
        word_run_end(s, k + 1)
    } else {
        k
    }
}

/// End of a string literal whose body starts at `k` (just after the opening
/// quote): just past the closing quote, or the end of the line. A backslash
/// escapes the byte after it.
pub open spec fn string_end(s: Seq<u8>, k: int) -> int
    decreases s.len() - k,
{
    if k < 0 || k >= s.len() {
        s.len() as int
    } else if s[k] == 0x22 {
        k + 1
    } else if s[k] == 0x5c {
        if k + 1 >= s.len() {
            s.len() as int
        } else {
            string_end(s, k + 2)
        }
    } else {
        string_end(s, k + 1)
    }
}

/// End of the Rust token that starts at `pos`.
pub open spec fn rust_token_end(s: Seq<u8>, pos: int) -> int {
    let b = s[pos];
    if is_space_byte(b) {
        space_run_end(s, pos)
    } else if is_word_start(b) || byte_class(b) == 2 {
        word_run_end(s, pos)
    } else if b == 0x22 {
        string_end(s, pos + 1)
    } else if b == 0x2f && pos + 1 < s.len() && s[pos + 1] == 0x2f {
        s.len() as int
    } else {
        pos + 1
    }
}

/// Kind of the Rust token that starts at `pos`.
pub open spec fn rust_token_kind(s: Seq<u8>, pos: int) -> TokenKind {
    let b = s[pos];
    if is_space_byte(b) {
        TokenKind::Whitespace
    } else if is_word_start(b) {
        TokenKind::Word
    } else if byte_class(b) == 2 {
        TokenKind::Number
    } else if b == 0x22 {
        TokenKind::Str
    } else if b == 0x2f && pos + 1 < s.len() && s[pos + 1] == 0x2f {
        TokenKind::Comment
    } else {
        TokenKind::Punct
    }
}

/// The Rust tokens of `s` from position `pos` on.
pub open spec fn rust_tokens_from(s: Seq<u8>, pos: int) -> Seq<LexemeSpan>
    decreases s.len() - pos,
{
    if pos < 0 || pos >= s.len() {
        Seq::empty()
    } else {
        let end = rust_token_end(s, pos);
        if end <= pos || end > s.len() {
            Seq::empty()
        } else {
            seq![LexemeSpan { start: pos as usize, end: end as usize, kind: rust_token_kind(s, pos) }]
                + rust_tokens_from(s, end)
        }
    }
}

/// The tokens of a line, given as the bytes of its UTF-8 encoding.
pub open spec fn lex_spec(language: Language, s: Seq<u8>) -> Seq<LexemeSpan> {
    match language {
        Language::Rust => rust_tokens_from(s, 0),
        Language::PlainText => if s.len() == 0 {
            Seq::empty()
        } else {
            seq![LexemeSpan { start: 0, end: s.len() as usize, kind: TokenKind::Text }]
        },
    }
}

/// The tokens of a line of text.
pub open spec fn line_tokens_spec(language: Language, line: Seq<char>) -> Seq<LexemeSpan> {
    lex_spec(language, vstd::utf8::encode_utf8(line))
}

/// The spans cover `pos .. s.len()` in order, each non-empty, each starting
/// where the one before it ends.
pub open spec fn tiles(spans: Seq<LexemeSpan>, pos: int, len: int) -> bool {
    &&& (spans.len() == 0 <==> pos >= len)
    &&& spans.len() > 0 ==> spans[0].start == pos && spans.last().end == len
    &&& forall|k: int| 0 <= k < spans.len() ==> #[trigger] spans[k].start < spans[k].end
    &&& forall|k: int|
        0 <= k < spans.len() - 1 ==> #[trigger] spans[k].end == spans[k + 1].start
}

// ---------------------------------------------------------------------------
// Lemmas
// ---------------------------------------------------------------------------

proof fn lemma_space_run_end(s: Seq<u8>, k: int)
    requires
        0 <= k <= s.len(),
    ensures
        k <= space_run_end(s, k) <= s.len(),
    decreases s.len() - k,
{
    if 0 <= k < s.len() && is_space_byte(s[k]) {
        lemma_space_run_end(s, k + 1);
    }
}

proof fn lemma_word_run_end(s: Seq<u8>, k: int)
    requires
        0 <= k <= s.len(),
    ensures
        k <= word_run_end(s, k) <= s.len(),
    decreases s.len() - k,
{
    if 0 <= k < s.len() && is_word_byte(s[k]) {
        lemma_word_run_end(s, k + 1);
    }
}

proof fn lemma_string_end(s: Seq<u8>, k: int)
    requires
        0 <= k <= s.len(),
    ensures
        k <= string_end(s, k) <= s.len(),
    decreases s.len() - k,
{
    if k < s.len() && s[k] != 0x22 {
        if s[k] == 0x5c {
            if k + 1 < s.len() {
                lemma_string_end(s, k + 2);
            }
        } else {
            lemma_string_end(s, k + 1);
        }
    }
}

/// A Rust token ends after it starts and within the line.
proof fn lemma_rust_token_end(s: Seq<u8>, pos: int)
    requires
        0 <= pos < s.len(),
    ensures
        pos < rust_token_end(s, pos) <= s.len(),
{
    lemma_space_run_end(s, pos + 1);
    lemma_word_run_end(s, pos + 1);
    lemma_string_end(s, pos + 1);
    let b = s[pos];
    if is_space_byte(b) {
        assert(space_run_end(s, pos) == space_run_end(s, pos + 1));
    } else if is_word_start(b) || byte_class(b) == 2 {
        assert(word_run_end(s, pos) == word_run_end(s, pos + 1));
    }
}

/// The Rust tokens from `pos` on tile `pos .. s.len()`.
proof fn lemma_rust_tokens_tile(s: Seq<u8>, pos: int)
    requires
        0 <= pos <= s.len(),
        s.len() <= usize::MAX,
    ensures
        tiles(rust_tokens_from(s, pos), pos, s.len() as int),
    decreases s.len() - pos,
{
    if pos < s.len() {
        lemma_rust_token_end(s, pos);
        let end = rust_token_end(s, pos);
        lemma_rust_tokens_tile(s, end);
        let head = LexemeSpan { start: pos as usize, end: end as usize, kind: rust_token_kind(s, pos) };
        let rest = rust_tokens_from(s, end);
        let all = rust_tokens_from(s, pos);
        assert(all == seq![head] + rest);
        assert forall|k: int| 0 <= k < all.len() implies #[trigger] all[k].start < all[k].end by {
            if k > 0 {
                assert(all[k] == rest[k - 1]);
            }
        }
        assert forall|k: int| 0 <= k < all.len() - 1 implies #[trigger] all[k].end == all[k
            + 1].start by {
            if k > 0 {
                assert(all[k] == rest[k - 1]);
                assert(all[k + 1] == rest[k]);
            }
        }
        if rest.len() > 0 {
            assert(all.last() == rest.last());
        }
    }
}

/// Law: the tokens of a line cover it exactly, in order, with no gap, no
/// overlap and no empty token.
pub proof fn lemma_tokens_tile_line(language: Language, s: Seq<u8>)
    requires
        s.len() <= usize::MAX,
    ensures
        tiles(lex_spec(language, s), 0, s.len() as int),
{
    match language {
        Language::Rust => lemma_rust_tokens_tile(s, 0),
        Language::PlainText => {},
    }
}

/// Law: inside a string literal a backslash escapes whichever byte follows
/// it, so an escaped quote or an escaped backslash never closes the literal;
/// an unescaped quote closes it just after the quote; any other byte belongs
/// to the literal; a literal that is not closed runs to the end of the line.
pub proof fn lemma_string_end_steps(s: Seq<u8>, k: int)
    requires
        0 <= k,
    ensures
        k >= s.len() ==> string_end(s, k) == s.len(),
        k < s.len() && s[k] == ('"' as u8) ==> string_end(s, k) == k + 1,
        k + 1 < s.len() && s[k] == ('\\' as u8) ==> string_end(s, k) == string_end(s, k + 2),
        k + 1 == s.len() && s[k] == ('\\' as u8) ==> string_end(s, k) == s.len(),
        k < s.len() && s[k] != ('"' as u8) && s[k] != ('\\' as u8) ==> string_end(s, k)
            == string_end(s, k + 1),
{
}

/// Law: a string literal ends just past a closing quote, or at the end of the
/// line, and never before the byte it starts at.
pub proof fn lemma_string_end_at_quote(s: Seq<u8>, k: int)
    requires
        0 <= k <= s.len(),
    ensures
        k <= string_end(s, k) <= s.len(),
        string_end(s, k) == s.len() || (k < string_end(s, k) && s[string_end(s, k) - 1] == (
        '"' as u8)),
    decreases s.len() - k,
{
    lemma_string_end(s, k);
    if k < s.len() && s[k] != ('"' as u8) {
        if s[k] == ('\\' as u8) {
            if k + 1 < s.len() {
                lemma_string_end_at_quote(s, k + 2);
            }
        } else {
            lemma_string_end_at_quote(s, k + 1);
        }
    }
}

/// Law: a literal whose bytes from `k` up to a quote at `j` hold no quote and
/// no backslash ends just past that quote.
pub proof fn lemma_string_end_plain_body(s: Seq<u8>, k: int, j: int)
    requires
        0 <= k <= j < s.len(),
        s[j] == ('"' as u8),
        forall|i: int| k <= i < j ==> s[i] != ('"' as u8) && s[i] != ('\\' as u8),
    ensures
        string_end(s, k) == j + 1,
    decreases j - k,
{
    if k < j {
        lemma_string_end_plain_body(s, k + 1, j);
    }
}

/// Law: a quote, an escaped backslash and a closing quote (`"\\"`) make one
/// string token of four bytes, whatever follows on the line.
pub proof fn lemma_escaped_backslash_literal(s: Seq<u8>, pos: int)
    requires
        s.len() <= usize::MAX,
        0 <= pos,
        pos + 3 < s.len(),
        s[pos] == ('"' as u8),
        s[pos + 1] == ('\\' as u8),
        s[pos + 2] == ('\\' as u8),
        s[pos + 3] == ('"' as u8),
    ensures
        rust_tokens_from(s, pos).len() > 0,
        rust_tokens_from(s, pos)[0] == (LexemeSpan {
            start: pos as usize,
            end: (pos + 4) as usize,
            kind: TokenKind::Str,
        }),
{
    assert(string_end(s, pos + 3) == pos + 4);
    assert(string_end(s, pos + 1) == pos + 4);
    assert(rust_token_end(s, pos) == pos + 4);
    assert(rust_token_kind(s, pos) == TokenKind::Str);
}

/// Law: a run of ASCII letters and `_` that starts at `pos` and is followed by
/// a space or the end of the line is one word token.
pub proof fn lemma_letter_run_is_one_word(s: Seq<u8>, pos: int, e: int)
    requires
        s.len() <= usize::MAX,
        0 <= pos < e <= s.len(),
        forall|i: int|
            pos <= i < e ==> (('a' as u8) <= #[trigger] s[i] <= ('z' as u8) || ('A' as u8) <= s[i] <= (
            'Z' as u8) || s[i] == ('_' as u8)),
        e == s.len() || s[e] == (' ' as u8),
    ensures
        rust_tokens_from(s, pos).len() > 0,
        rust_tokens_from(s, pos)[0] == (LexemeSpan {
            start: pos as usize,
            end: e as usize,
            kind: TokenKind::Word,
        }),
{
    lemma_word_run_to(s, pos, e);
    assert(rust_token_end(s, pos) == e);
}

/// Law: two slashes start a line comment that runs to the end of the line.
pub proof fn lemma_line_comment(s: Seq<u8>, pos: int)
    requires
        s.len() <= usize::MAX,
        0 <= pos,
        pos + 1 < s.len(),
        s[pos] == ('/' as u8),
        s[pos + 1] == ('/' as u8),
    ensures
        rust_tokens_from(s, pos) == seq![
            LexemeSpan { start: pos as usize, end: s.len() as usize, kind: TokenKind::Comment },
        ],
{
    assert(rust_token_end(s, pos) == s.len());
    assert(rust_tokens_from(s, s.len() as int) == Seq::<LexemeSpan>::empty());
    assert(rust_tokens_from(s, pos) =~= seq![
        LexemeSpan { start: pos as usize, end: s.len() as usize, kind: TokenKind::Comment },
    ]);
}

/// Law: a run of decimal digits followed by a space or the end of the line is
/// one number token.
pub proof fn lemma_digit_run_is_one_number(s: Seq<u8>, pos: int, e: int)
    requires
        s.len() <= usize::MAX,
        0 <= pos < e <= s.len(),
        forall|i: int| pos <= i < e ==> ('0' as u8) <= #[trigger] s[i] <= ('9' as u8),
        e == s.len() || s[e] == (' ' as u8),
    ensures
        rust_tokens_from(s, pos).len() > 0,
        rust_tokens_from(s, pos)[0] == (LexemeSpan {
            start: pos as usize,
            end: e as usize,
            kind: TokenKind::Number,
        }),
{
    lemma_digit_run_to(s, pos, e);
    assert(rust_token_end(s, pos) == e);
}

proof fn lemma_digit_run_to(s: Seq<u8>, k: int, e: int)
    requires
        0 <= k <= e <= s.len(),
        forall|i: int| k <= i < e ==> ('0' as u8) <= #[trigger] s[i] <= ('9' as u8),
        e == s.len() || s[e] == (' ' as u8),
    ensures
        word_run_end(s, k) == e,
    decreases e - k,
{
    if k < e {
        lemma_digit_run_to(s, k + 1, e);
    }
}

/// Law: a run of spaces and tabs followed by a byte that is neither, or by
/// the end of the line, is one whitespace token.
pub proof fn lemma_blank_run_is_one_token(s: Seq<u8>, pos: int, e: int)
    requires
        s.len() <= usize::MAX,
        0 <= pos < e <= s.len(),
        forall|i: int| pos <= i < e ==> #[trigger] s[i] == (' ' as u8) || s[i] == ('\t' as u8),
        e == s.len() || ('!' as u8) <= s[e] <= ('~' as u8),
    ensures
        rust_tokens_from(s, pos).len() > 0,
        rust_tokens_from(s, pos)[0] == (LexemeSpan {
            start: pos as usize,
            end: e as usize,
            kind: TokenKind::Whitespace,
        }),
{
    lemma_blank_run_to(s, pos, e);
    assert(rust_token_end(s, pos) == e);
}

proof fn lemma_blank_run_to(s: Seq<u8>, k: int, e: int)
    requires
        0 <= k <= e <= s.len(),
        forall|i: int| k <= i < e ==> #[trigger] s[i] == (' ' as u8) || s[i] == ('\t' as u8),
        e == s.len() || ('!' as u8) <= s[e] <= ('~' as u8),
    ensures
        space_run_end(s, k) == e,
    decreases e - k,
{
    if k < e {
        lemma_blank_run_to(s, k + 1, e);
    }
}

proof fn lemma_word_run_to(s: Seq<u8>, k: int, e: int)
    requires
        0 <= k <= e <= s.len(),
        forall|i: int|
            k <= i < e ==> (('a' as u8) <= #[trigger] s[i] <= ('z' as u8) || ('A' as u8) <= s[i] <= (
            'Z' as u8) || s[i] == ('_' as u8)),
        e == s.len() || s[e] == (' ' as u8),
    ensures
        word_run_end(s, k) == e,
    decreases e - k,
{
    if k < e {
        lemma_word_run_to(s, k + 1, e);
    }
}

// ---------------------------------------------------------------------------
// Executable lexer
// ---------------------------------------------------------------------------

fn space_end(s: &[u8], k: usize) -> (e: usize)
    requires
        k <= s@.len(),
    ensures
        e == space_run_end(s@, k as int),
{
    let mut i = k;
    while i < s.len() && classify_byte(s[i]) == 3
        invariant
            k <= i <= s@.len(),
            space_run_end(s@, i as int) == space_run_end(s@, k as int),
        decreases s@.len() - i,
    {
        i = i + 1;
    }
    i
}

fn word_end(s: &[u8], k: usize) -> (e: usize)
    requires
        k <= s@.len(),
    ensures
        e == word_run_end(s@, k as int),
{
    let mut i = k;
    while i < s.len() && (classify_byte(s[i]) == 1 || classify_byte(s[i]) == 2 || s[i] >= 0x80)
        invariant
            k <= i <= s@.len(),
            word_run_end(s@, i as int) == word_run_end(s@, k as int),
        decreases s@.len() - i,
    {
        i = i + 1;
    }
    i
}

fn str_end(s: &[u8], k: usize) -> (e: usize)
    requires
        k <= s@.len(),
    ensures
        e == string_end(s@, k as int),
{
    let len = s.len();
    let mut i = k;
    while i < len
        invariant
            len == s@.len(),
            k <= i <= len,
            string_end(s@, i as int) == string_end(s@, k as int),
        decreases len - i,
    {
        if s[i] == 0x22 {
            return i + 1;
        }
        if s[i] == 0x5c {
            if len - i < 2 {
                return len;
            }
            i = i + 2;
        } else {
            i = i + 1;
        }
    }
    len
}

impl Language {
    /// A lexer for this language.
    pub fn create_lexer(&self) -> (lexer: Lexer)
        ensures
            lexer.language == *self,
    {
        Lexer { language: *self }
    }
}

impl Lexer {
    /// The tokens of one line.
    pub fn lex_full(&self, line: &str) -> (tokens: Vec<LexemeSpan>)
        ensures
            tokens@ == line_tokens_spec(self.language, line@),
    {
        let s = line.as_bytes();
        match self.language {
            Language::PlainText => {
                let mut tokens: Vec<LexemeSpan> = Vec::new();
                if s.len() > 0 {
                    tokens.push(LexemeSpan { start: 0, end: s.len(), kind: TokenKind::Text });
                }
                tokens
            },
            Language::Rust => lex_rust(s),
        }
    }
}

/// The Rust tokens of the bytes `s`.
fn lex_rust(s: &[u8]) -> (tokens: Vec<LexemeSpan>)
    ensures
        tokens@ == rust_tokens_from(s@, 0),
{
    let len = s.len();
    let mut tokens: Vec<LexemeSpan> = Vec::new();
    let mut pos: usize = 0;
    while pos < len
        invariant
            len == s@.len(),
            pos <= len,
            tokens@ + rust_tokens_from(s@, pos as int) == rust_tokens_from(s@, 0),
        decreases len - pos,
    {
        proof {
            lemma_rust_token_end(s@, pos as int);
        }
        let b = s[pos];
        let class = classify_byte(b);
        let (end, kind) = if class == 3 {
            (space_end(s, pos), TokenKind::Whitespace)
        } else if class == 1 || b >= 0x80 {
            (word_end(s, pos), TokenKind::Word)
        } else if class == 2 {
            (word_end(s, pos), TokenKind::Number)
        } else if b == 0x22 {
            (str_end(s, pos + 1), TokenKind::Str)
        } else if b == 0x2f && len - pos >= 2 && s[pos + 1] == 0x2f {
            (len, TokenKind::Comment)
        } else {
            (pos + 1, TokenKind::Punct)
        };
        let token = LexemeSpan { start: pos, end, kind };
        proof {
            assert(end == rust_token_end(s@, pos as int));
            assert(kind == rust_token_kind(s@, pos as int));
            assert(rust_tokens_from(s@, pos as int) == seq![token] + rust_tokens_from(
                s@,
                end as int,
            ));
            assert(tokens@.push(token) + rust_tokens_from(s@, end as int) =~= tokens@ + (seq![token]
                + rust_tokens_from(s@, end as int)));
        }
        tokens.push(token);
        pos = end;
    }
    proof {
        assert(tokens@ + rust_tokens_from(s@, pos as int) =~= tokens@);
    }
    tokens
}

} // verus!
