//! Git repository state for the editor: the branch named by `HEAD`, and the
//! status of each file as `git status --porcelain` reports it.
//!
//! Reading `.git/HEAD` and running `git` are the caller's part; this module
//! turns what they produced into a `GitRepository`.

use vstd::prelude::*;
use vstd::hash_map::StringHashMap;
use vstd::utf8::{decode_utf8, encode_utf8, is_char_boundary, is_continuation_byte};
use vstd::string::StrSliceExecFns;

verus! {

/// Status of a file in the working tree.
#[derive(Clone, Copy, Debug, PartialEq, Eq, Structural)]
pub enum GitFileStatus {
    Unmodified,
    Modified,
    Added,
    Deleted,
    Renamed,
    Copied,
    Untracked,
    Ignored,
    Conflict,
}

// ---------------------------------------------------------------------------
// Specifications
// ---------------------------------------------------------------------------

/// Characters with the Unicode `White_Space` property (what `str::trim`
/// removes).
pub open spec fn is_white_space(c: char) -> bool {
    let u = c as u32;
    (0x09 <= u && u <= 0x0d) || u == 0x20 || u == 0x85 || u == 0xa0 || u == 0x1680 || (0x2000
        <= u && u <= 0x200a) || u == 0x2028 || u == 0x2029 || u == 0x202f || u == 0x205f || u
        == 0x3000
}

pub open spec fn trim_start_chars(s: Seq<char>) -> Seq<char>
    decreases s.len(),
{
    if s.len() > 0 && is_white_space(s[0]) {
        trim_start_chars(s.drop_first())
    } else {
        s
    }
}

pub open spec fn trim_end_chars(s: Seq<char>) -> Seq<char>
    decreases s.len(),
{
    if s.len() > 0 && is_white_space(s.last()) {
        trim_end_chars(s.drop_last())
    } else {
        s
    }
}

/// `s` without leading and trailing white space.
pub open spec fn trim_chars(s: Seq<char>) -> Seq<char> {
    trim_end_chars(trim_start_chars(s))
}

/// `ref: refs/heads/`, the start of `HEAD` when a branch is checked out.
pub open spec fn head_ref_prefix() -> Seq<char> {
    seq!['r', 'e', 'f', ':', ' ', 'r', 'e', 'f', 's', '/', 'h', 'e', 'a', 'd', 's', '/']
}

/// Whether `HEAD` names a branch.
pub open spec fn names_branch(t: Seq<char>) -> bool {
    t.len() >= 16 && t.subrange(0, 16) == head_ref_prefix()
}

/// `HEAD` contents that can be read as a branch: a branch reference, or a
/// commit whose first seven bytes are whole characters.
pub open spec fn head_readable(head: Seq<char>) -> bool {
    let t = trim_chars(head);
    names_branch(t) || is_char_boundary(encode_utf8(t), 7)
}

/// The branch that `HEAD` names, or the first seven bytes of the commit it
/// holds when it is detached.
pub open spec fn branch_of_head(head: Seq<char>) -> Seq<char> {
    let t = trim_chars(head);
    if names_branch(t) {
        t.subrange(16, t.len() as int)
    } else {
        decode_utf8(encode_utf8(t).subrange(0, 7))
    }
}

/// The status that a two-byte porcelain status code stands for.
pub open spec fn status_code(x: u8, y: u8) -> GitFileStatus {
    if (x == 0x20 && y == 0x4d) || (x == 0x4d && y == 0x20) || (x == 0x4d && y == 0x4d) {
        GitFileStatus::Modified
    } else if (x == 0x41 && y == 0x20) || (x == 0x41 && y == 0x4d) || (x == 0x41 && y == 0x44) {
        GitFileStatus::Added
    } else if (x == 0x44 && y == 0x20) || (x == 0x20 && y == 0x44) || (x == 0x44 && y == 0x44) {
        GitFileStatus::Deleted
    } else if (x == 0x52 && y == 0x20) || (x == 0x52 && y == 0x4d) || (x == 0x52 && y == 0x44) {
        GitFileStatus::Renamed
    } else if (x == 0x43 && y == 0x20) || (x == 0x43 && y == 0x4d) || (x == 0x43 && y == 0x44) {
        GitFileStatus::Copied
    } else if x == 0x3f && y == 0x3f {
        GitFileStatus::Untracked
    } else if x == 0x21 && y == 0x21 {
        GitFileStatus::Ignored
    } else if (x == 0x55 && y == 0x55) || (x == 0x41 && y == 0x41) || (x == 0x41 && y == 0x55) || (x
        == 0x55 && y == 0x41) || (x == 0x44 && y == 0x55) || (x == 0x55 && y == 0x44) {
        GitFileStatus::Conflict
    } else {
        GitFileStatus::Unmodified
    }
}

/// Position of the first newline at or after `pos`, or the length of `s`.
pub open spec fn next_newline(s: Seq<u8>, pos: int) -> int
    decreases s.len() - pos,
{
    if pos < 0 || pos >= s.len() {
        s.len() as int
    } else if s[pos] == 0x0a {
        pos
    } else {
        next_newline(s, pos + 1)
    }
}

/// End of the text of the line that starts at `pos`: its newline, or the
/// carriage return before that newline, or the end of `s`.
pub open spec fn line_text_end(s: Seq<u8>, pos: int) -> int {
    let nl = next_newline(s, pos);
    if nl < s.len() && nl > pos && s[nl - 1] == 0x0d {
        nl - 1
    } else {
        nl
    }
}

/// A line starts at `p`.
pub open spec fn is_line_start(s: Seq<u8>, p: int) -> bool {
    p == 0 || (0 < p <= s.len() && s[p - 1] == 0x0a)
}

/// Every status line of three bytes or more splits into whole characters
/// after its second and third byte.
pub open spec fn status_readable(s: Seq<u8>) -> bool {
    forall|p: int|
        0 <= p < s.len() && #[trigger] is_line_start(s, p) && line_text_end(s, p) - p >= 3 ==> {
            &&& !is_continuation_byte(s[p + 2])
            &&& (p + 3 >= s.len() || !is_continuation_byte(s[p + 3]))
        }
}

/// The file statuses of the porcelain lines from `pos` on, added to `acc`;
/// a later line for the same file wins.
pub open spec fn porcelain_from(s: Seq<u8>, pos: int, acc: Map<Seq<char>, GitFileStatus>) -> Map<
    Seq<char>,
    GitFileStatus,
>
    decreases s.len() - pos,
{
    if pos < 0 || pos >= s.len() {
        acc
    } else {
        let nl = next_newline(s, pos);
        let e = line_text_end(s, pos);
        let acc2 = if e - pos >= 3 {
            acc.insert(decode_utf8(s.subrange(pos + 3, e)), status_code(s[pos], s[pos + 1]))
        } else {
            acc
        };
        if nl >= s.len() {
            acc2
        } else {
            proof {
                lemma_next_newline(s, pos);
            }
            porcelain_from(s, nl + 1, acc2)
        }
    }
}

/// The file statuses that `git status --porcelain` output reports.
pub open spec fn porcelain_status(s: Seq<u8>) -> Map<Seq<char>, GitFileStatus> {
    porcelain_from(s, 0, Map::empty())
}

/// A status that counts as a change.
pub open spec fn is_change(st: GitFileStatus) -> bool {
    st != GitFileStatus::Unmodified && st != GitFileStatus::Ignored
}

/// Some file has a status that counts as a change.
pub open spec fn any_change(m: Map<Seq<char>, GitFileStatus>) -> bool {
    exists|k: Seq<char>| m.contains_key(k) && is_change(#[trigger] m[k])
}

/// The icon text of a status.
pub open spec fn status_icon_text(status: GitFileStatus) -> Seq<char> {
    match status {
        GitFileStatus::Modified => seq!['M'],
        GitFileStatus::Added => seq!['A'],
        GitFileStatus::Deleted => seq!['D'],
        GitFileStatus::Untracked => seq!['U'],
        GitFileStatus::Conflict => seq!['C'],
        GitFileStatus::Renamed => seq!['R'],
        GitFileStatus::Copied => seq!['C'],
        GitFileStatus::Ignored => seq!['I'],
        GitFileStatus::Unmodified => Seq::empty(),
    }
}

/// The two bytes `x y` are the status code written `a b`.
pub open spec fn is_code(x: u8, y: u8, a: char, b: char) -> bool {
    x == a as u8 && y == b as u8
}

/// Law: the porcelain status codes and the statuses they stand for; any other
/// code gives an unmodified file.
pub proof fn lemma_porcelain_code_table(x: u8, y: u8)
    ensures
        is_code(x, y, ' ', 'M') || is_code(x, y, 'M', ' ') || is_code(x, y, 'M', 'M') ==> status_code(
            x,
            y,
        ) == GitFileStatus::Modified,
        is_code(x, y, 'A', ' ') || is_code(x, y, 'A', 'M') || is_code(x, y, 'A', 'D') ==> status_code(
            x,
            y,
        ) == GitFileStatus::Added,
        is_code(x, y, 'D', ' ') || is_code(x, y, ' ', 'D') || is_code(x, y, 'D', 'D') ==> status_code(
            x,
            y,
        ) == GitFileStatus::Deleted,
        is_code(x, y, 'R', ' ') || is_code(x, y, 'R', 'M') || is_code(x, y, 'R', 'D') ==> status_code(
            x,
            y,
        ) == GitFileStatus::Renamed,
        is_code(x, y, 'C', ' ') || is_code(x, y, 'C', 'M') || is_code(x, y, 'C', 'D') ==> status_code(
            x,
            y,
        ) == GitFileStatus::Copied,
        is_code(x, y, '?', '?') ==> status_code(x, y) == GitFileStatus::Untracked,
        is_code(x, y, '!', '!') ==> status_code(x, y) == GitFileStatus::Ignored,
        is_code(x, y, 'U', 'U') || is_code(x, y, 'A', 'A') || is_code(x, y, 'A', 'U') || is_code(
            x,
            y,
            'U',
            'A',
        ) || is_code(x, y, 'D', 'U') || is_code(x, y, 'U', 'D') ==> status_code(x, y)
            == GitFileStatus::Conflict,
        !(is_code(x, y, ' ', 'M') || is_code(x, y, 'M', ' ') || is_code(x, y, 'M', 'M') || is_code(
            x,
            y,
            'A',
            ' ',
        ) || is_code(x, y, 'A', 'M') || is_code(x, y, 'A', 'D') || is_code(x, y, 'D', ' ')
            || is_code(x, y, ' ', 'D') || is_code(x, y, 'D', 'D') || is_code(x, y, 'R', ' ')
            || is_code(x, y, 'R', 'M') || is_code(x, y, 'R', 'D') || is_code(x, y, 'C', ' ')
            || is_code(x, y, 'C', 'M') || is_code(x, y, 'C', 'D') || is_code(x, y, '?', '?')
            || is_code(x, y, '!', '!') || is_code(x, y, 'U', 'U') || is_code(x, y, 'A', 'A')
            || is_code(x, y, 'A', 'U') || is_code(x, y, 'U', 'A') || is_code(x, y, 'D', 'U')
            || is_code(x, y, 'U', 'D')) ==> status_code(x, y) == GitFileStatus::Unmodified,
{
}

proof fn lemma_next_newline_at(s: Seq<u8>, pos: int, nl: int)
    requires
        0 <= pos <= nl < s.len(),
        s[nl] == 0x0a,
        forall|j: int| pos <= j < nl ==> s[j] != 0x0a,
    ensures
        next_newline(s, pos) == nl,
    decreases nl - pos,
{
    if pos < nl {
        lemma_next_newline_at(s, pos + 1, nl);
    }
}

/// Law: a single status line `x y z path` ended by a newline reports `path`
/// with the status of the code `x y`.
pub proof fn lemma_single_status_line(x: u8, y: u8, z: u8, path: Seq<u8>)
    requires
        forall|j: int| 0 <= j < (seq![x, y, z] + path).len() ==> (seq![x, y, z] + path)[j] != 0x0a,
        (seq![x, y, z] + path).last() != 0x0d,
    ensures
        porcelain_status(seq![x, y, z] + path + seq![0x0au8]) == Map::<Seq<char>, GitFileStatus>::empty().insert(
            decode_utf8(path),
            status_code(x, y),
        ),
{
    let body = seq![x, y, z] + path;
    let line = body + seq![0x0au8];
    let nl = body.len() as int;
    assert(line[nl] == 0x0a);
    assert forall|j: int| 0 <= j < nl implies line[j] != 0x0a by {
        assert(line[j] == body[j]);
    }
    lemma_next_newline_at(line, 0, nl);
    assert(line[nl - 1] == body.last());
    assert(line_text_end(line, 0) == nl);
    assert(line.subrange(3, nl) =~= path);
    assert(line[0] == x && line[1] == y);
    let acc = Map::<Seq<char>, GitFileStatus>::empty().insert(decode_utf8(path), status_code(x, y));
    assert(porcelain_from(line, nl + 1, acc) == acc);
}

/// Law: every status counts as a change except an unmodified or an ignored
/// file.
pub proof fn lemma_change_table()
    ensures
        is_change(GitFileStatus::Modified),
        is_change(GitFileStatus::Added),
        is_change(GitFileStatus::Deleted),
        is_change(GitFileStatus::Renamed),
        is_change(GitFileStatus::Copied),
        is_change(GitFileStatus::Untracked),
        is_change(GitFileStatus::Conflict),
        !is_change(GitFileStatus::Unmodified),
        !is_change(GitFileStatus::Ignored),
{
}

/// Law: a `HEAD` that holds `ref: refs/heads/` and a branch name, with or
/// without a final newline, names that branch.
pub proof fn lemma_branch_of_ref_head(name: Seq<char>, newline: bool)
    requires
        name.len() > 0,
        !is_white_space(name.last()),
    ensures
        ({
            let p = seq!['r', 'e', 'f', ':', ' ', 'r', 'e', 'f', 's', '/', 'h', 'e', 'a', 'd', 's', '/'];
            let head = if newline {
                p + name + seq!['\n']
            } else {
                p + name
            };
            head_readable(head) && branch_of_head(head) == name
        }),
{
    let p = seq!['r', 'e', 'f', ':', ' ', 'r', 'e', 'f', 's', '/', 'h', 'e', 'a', 'd', 's', '/'];
    let t = p + name;
    let head = if newline {
        t + seq!['\n']
    } else {
        t
    };
    assert(head[0] == 'r');
    assert(trim_start_chars(head) == head);
    assert(t.last() == name.last());
    assert(trim_end_chars(t) == t);
    if newline {
        assert(head.last() == '\n');
        assert(head.drop_last() =~= t);
        assert(trim_end_chars(head) == trim_end_chars(t));
    }
    assert(trim_chars(head) == t);
    assert(t.subrange(0, 16) =~= head_ref_prefix());
    assert(t.subrange(16, t.len() as int) =~= name);
}

/// Law: the icon of each status is its one-letter mark (`M`, `A`, `D`, `U`,
/// `C`, `R`, `C`, `I`), and an unmodified file has none.
pub proof fn lemma_icon_table()
    ensures
        status_icon_text(GitFileStatus::Modified) == seq!['M'],
        status_icon_text(GitFileStatus::Added) == seq!['A'],
        status_icon_text(GitFileStatus::Deleted) == seq!['D'],
        status_icon_text(GitFileStatus::Untracked) == seq!['U'],
        status_icon_text(GitFileStatus::Conflict) == seq!['C'],
        status_icon_text(GitFileStatus::Renamed) == seq!['R'],
        status_icon_text(GitFileStatus::Copied) == seq!['C'],
        status_icon_text(GitFileStatus::Ignored) == seq!['I'],
        status_icon_text(GitFileStatus::Unmodified).len() == 0,
{
}

pub proof fn lemma_next_newline(s: Seq<u8>, pos: int)
    requires
        0 <= pos <= s.len(),
    ensures
        pos <= next_newline(s, pos) <= s.len(),
        next_newline(s, pos) < s.len() ==> s[next_newline(s, pos)] == 0x0a,
        forall|j: int| pos <= j < next_newline(s, pos) ==> s[j] != 0x0a,
    decreases s.len() - pos,
{
    if pos < s.len() && s[pos] != 0x0a {
        lemma_next_newline(s, pos + 1);
    }
}

// ---------------------------------------------------------------------------
// Text helpers
// ---------------------------------------------------------------------------

fn is_white_space_char(c: char) -> (b: bool)
    ensures
        b == is_white_space(c),
{
    let u = c as u32;
    (0x09 <= u && u <= 0x0d) || u == 0x20 || u == 0x85 || u == 0xa0 || u == 0x1680 || (0x2000
        <= u && u <= 0x200a) || u == 0x2028 || u == 0x2029 || u == 0x202f || u == 0x205f || u
        == 0x3000
}

/// `s` without leading and trailing white space.
fn trim_text(s: &str) -> (r: &str)
    ensures
        r@ == trim_chars(s@),
{
    let n = s.unicode_len();
    let mut i: usize = 0;
    proof {
        assert(s@.subrange(0, n as int) =~= s@);
    }
    while i < n && is_white_space_char(s.get_char(i))
        invariant
            n == s@.len(),
            i <= n,
            trim_start_chars(s@) == trim_start_chars(s@.subrange(i as int, n as int)),
        decreases n - i,
    {
        proof {
            assert(s@.subrange(i as int, n as int).drop_first() =~= s@.subrange(i + 1, n as int));
        }
        i = i + 1;
    }
    let ghost t = s@.subrange(i as int, n as int);
    proof {
        assert(trim_start_chars(s@) == t);
    }
    let mut j: usize = n;
    while j > i && is_white_space_char(s.get_char(j - 1))
        invariant
            n == s@.len(),
            i <= j <= n,
            t == s@.subrange(i as int, n as int),
            trim_end_chars(t) == trim_end_chars(s@.subrange(i as int, j as int)),
        decreases j - i,
    {
        proof {
            assert(s@.subrange(i as int, j as int).drop_last() =~= s@.subrange(
                i as int,
                j - 1,
            ));
        }
        j = j - 1;
    }
    proof {
        if j > i {
            assert(s@.subrange(i as int, j as int).last() == s@[j - 1]);
        }
    }
    s.substring_char(i, j)
}

/// The text of the bytes `a .. e` of `s`.
fn slice_text(s: &str, a: usize, e: usize) -> (r: String)
    requires
        a <= e <= encode_utf8(s@).len(),
        a == encode_utf8(s@).len() || !is_continuation_byte(encode_utf8(s@)[a as int]),
        e == encode_utf8(s@).len() || !is_continuation_byte(encode_utf8(s@)[e as int]),
    ensures
        r@ == decode_utf8(encode_utf8(s@).subrange(a as int, e as int)),
{
    let ghost bytes = encode_utf8(s@);
    proof {
        vstd::utf8::encode_utf8_valid_utf8(s@);
        vstd::utf8::is_char_boundary_start_end_of_seq(bytes);
        if a < bytes.len() {
            vstd::utf8::is_char_boundary_iff_not_is_continuation_byte(bytes, a as int);
        }
    }
    let (_, rest) = s.split_at(a);
    let ghost rb = encode_utf8(rest@);
    proof {
        assert(rb =~= bytes.subrange(a as int, bytes.len() as int));
        vstd::utf8::encode_utf8_valid_utf8(rest@);
        vstd::utf8::is_char_boundary_start_end_of_seq(rb);
        if e - a < rb.len() {
            assert(rb[e - a] == bytes[e as int]);
            vstd::utf8::is_char_boundary_iff_not_is_continuation_byte(rb, e - a);
        }
    }
    let (piece, _) = rest.split_at(e - a);
    proof {
        vstd::utf8::encode_utf8_decode_utf8(piece@);
        assert(encode_utf8(piece@) =~= bytes.subrange(a as int, e as int));
    }
    piece.to_owned()
}


// ---------------------------------------------------------------------------
// Parsing
// ---------------------------------------------------------------------------

/// The status that a two-byte porcelain status code stands for.
fn status_from_code(x: u8, y: u8) -> (st: GitFileStatus)
    ensures
        st == status_code(x, y),
{
    if (x == 0x20 && y == 0x4d) || (x == 0x4d && y == 0x20) || (x == 0x4d && y == 0x4d) {
        GitFileStatus::Modified
    } else if (x == 0x41 && y == 0x20) || (x == 0x41 && y == 0x4d) || (x == 0x41 && y == 0x44) {
        GitFileStatus::Added
    } else if (x == 0x44 && y == 0x20) || (x == 0x20 && y == 0x44) || (x == 0x44 && y == 0x44) {
        GitFileStatus::Deleted
    } else if (x == 0x52 && y == 0x20) || (x == 0x52 && y == 0x4d) || (x == 0x52 && y == 0x44) {
        GitFileStatus::Renamed
    } else if (x == 0x43 && y == 0x20) || (x == 0x43 && y == 0x4d) || (x == 0x43 && y == 0x44) {
        GitFileStatus::Copied
    } else if x == 0x3f && y == 0x3f {
        GitFileStatus::Untracked
    } else if x == 0x21 && y == 0x21 {
        GitFileStatus::Ignored
    } else if (x == 0x55 && y == 0x55) || (x == 0x41 && y == 0x41) || (x == 0x41 && y == 0x55) || (x
        == 0x55 && y == 0x41) || (x == 0x44 && y == 0x55) || (x == 0x55 && y == 0x44) {
        GitFileStatus::Conflict
    } else {
        GitFileStatus::Unmodified
    }
}

/// The branch that the contents of `HEAD` name (see `branch_of_head`).
pub fn branch_from_head(head: &str) -> (branch: String)
    requires
        head_readable(head@),
    ensures
        branch@ == branch_of_head(head@),
{
    let t = trim_text(head);
    let n = t.unicode_len();
    let prefix: [char; 16] = ['r', 'e', 'f', ':', ' ', 'r', 'e', 'f', 's', '/', 'h', 'e', 'a', 'd', 's', '/'];
    let mut i: usize = 0;
    if n >= 16 {
        while i < 16 && t.get_char(i) == prefix[i]
            invariant
                n == t@.len(),
                n >= 16,
                i <= 16,
                prefix@ == head_ref_prefix(),
                forall|j: int| 0 <= j < i ==> t@[j] == head_ref_prefix()[j],
            decreases 16 - i,
        {
            i = i + 1;
        }
    }
    let is_ref = n >= 16 && i == 16;
    proof {
        if is_ref {
            assert(t@.subrange(0, 16) =~= head_ref_prefix());
        } else if n >= 16 {
            assert(t@.subrange(0, 16)[i as int] == t@[i as int]);
        }
    }
    if is_ref {
        t.substring_char(16, n).to_owned()
    } else {
        let (first, _) = t.split_at(7);
        proof {
            vstd::utf8::encode_utf8_decode_utf8(first@);
        }
        first.to_owned()
    }
}

/// The file statuses that `git status --porcelain` output reports (see
/// `porcelain_status`), and whether one of them counts as a change.
pub fn parse_status(output: &str) -> (r: (StringHashMap<GitFileStatus>, bool))
    requires
        status_readable(encode_utf8(output@)),
    ensures
        r.0@ == porcelain_status(encode_utf8(output@)),
        r.1 == any_change(r.0@),
{
    let s = output.as_bytes();
    let ghost bytes = encode_utf8(output@);
    let len = s.len();
    let mut map: StringHashMap<GitFileStatus> = StringHashMap::new();
    let mut paths: Vec<String> = Vec::new();
    let mut pos: usize = 0;
    while pos < len
        invariant
            s@ == bytes,
            len == bytes.len(),
            bytes == encode_utf8(output@),
            status_readable(bytes),
            pos <= len,
            pos < len ==> is_line_start(bytes, pos as int),
            porcelain_from(bytes, pos as int, map@) == porcelain_status(bytes),
            forall|k: Seq<char>|
                #[trigger] map@.contains_key(k) ==> exists|i: int|
                    0 <= i < paths@.len() && (#[trigger] paths@[i])@ == k,
            forall|i: int| 0 <= i < paths@.len() ==> map@.contains_key((#[trigger] paths@[i])@),
        decreases len - pos,
    {
        proof {
            lemma_next_newline(bytes, pos as int);
        }
        let mut nl = pos;
        while nl < len && s[nl] != 0x0a
            invariant
                s@ == bytes,
                len == bytes.len(),
                pos <= nl <= len,
                next_newline(bytes, nl as int) == next_newline(bytes, pos as int),
            decreases len - nl,
        {
            nl = nl + 1;
        }
        let e = if nl < len && nl > pos && s[nl - 1] == 0x0d {
            nl - 1
        } else {
            nl
        };
        assert(e == line_text_end(bytes, pos as int));
        let ghost prev_map = map@;
        if e - pos >= 3 {
            let status = status_from_code(s[pos], s[pos + 1]);
            proof {
                assert(is_line_start(bytes, pos as int));
            }
            let ghost prev_paths = paths@;
            let path = slice_text(output, pos + 3, e);
            let key = path.clone();
            map.insert(path, status);
            paths.push(key);
            proof {
                assert forall|k: Seq<char>| #[trigger] map@.contains_key(k) implies exists|i: int|
                    0 <= i < paths@.len() && (#[trigger] paths@[i])@ == k by {
                    if k != key@ {
                        assert(prev_map.contains_key(k));
                        let i = choose|i: int| 0 <= i < prev_paths.len() && (#[trigger] prev_paths[i])@ == k;
                        assert(paths@[i] == prev_paths[i]);
                    } else {
                        assert(paths@[paths@.len() - 1]@ == k);
                    }
                }
                assert forall|i: int| 0 <= i < paths@.len() implies map@.contains_key(
                    (#[trigger] paths@[i])@,
                ) by {
                    if i < paths@.len() - 1 {
                        assert(paths@[i] == prev_paths[i]);
                    }
                }
            }
        }
        if nl >= len {
            pos = len;
        } else {
            pos = nl + 1;
        }
    }

    let mut has_changes = false;
    let mut i: usize = 0;
    while i < paths.len()
        invariant
            i <= paths@.len(),
            forall|k: Seq<char>|
                #[trigger] map@.contains_key(k) ==> exists|j: int|
                    0 <= j < paths@.len() && (#[trigger] paths@[j])@ == k,
            forall|j: int| 0 <= j < paths@.len() ==> map@.contains_key((#[trigger] paths@[j])@),
            has_changes == exists|j: int| 0 <= j < i && is_change(map@[(#[trigger] paths@[j])@]),
        decreases paths@.len() - i,
    {
        let ghost before = has_changes;
        match map.get(paths[i].as_str()) {
            Some(st) => {
                match *st {
                    GitFileStatus::Unmodified | GitFileStatus::Ignored => {},
                    _ => {
                        has_changes = true;
                    },
                }
            },
            None => {},
        }
        proof {
            assert(map@.contains_key(paths@[i as int]@));
            if is_change(map@[paths@[i as int]@]) {
                assert(has_changes);
            } else {
                assert(has_changes == before);
                if has_changes {
                    let j = choose|j: int| 0 <= j < i && is_change(map@[(#[trigger] paths@[j])@]);
                    assert(0 <= j < i + 1);
                }
                assert((exists|j: int| 0 <= j < i + 1 && is_change(map@[(#[trigger] paths@[j])@]))
                    ==> (exists|j: int| 0 <= j < i && is_change(map@[(#[trigger] paths@[j])@])));
            }
        }
        i = i + 1;
    }
    proof {
        if has_changes {
            let j = choose|j: int| 0 <= j < i && is_change(map@[(#[trigger] paths@[j])@]);
            assert(map@.contains_key(paths@[j]@));
        } else {
            assert forall|k: Seq<char>| map@.contains_key(k) implies !is_change(#[trigger] map@[k]) by {
                let j = choose|j: int| 0 <= j < paths@.len() && (#[trigger] paths@[j])@ == k;
            }
        }
    }
    (map, has_changes)
}

// ---------------------------------------------------------------------------
// Repository state
// ---------------------------------------------------------------------------

/// What the editor knows of the Git repository of a folder.
pub struct GitRepository {
    pub is_repo: bool,
    pub branch: Option<String>,
    pub ahead: u32,
    pub behind: u32,
    pub file_status: StringHashMap<GitFileStatus>,
    pub has_changes: bool,
}

/// The state of a folder that is no repository.
pub open spec fn is_blank_repo(r: GitRepository) -> bool {
    &&& !r.is_repo
    &&& r.branch is None
    &&& r.ahead == 0
    &&& r.behind == 0
    &&& r.file_status@ == Map::<Seq<char>, GitFileStatus>::empty()
    &&& !r.has_changes
}

/// `r` is what detection gives for a folder whose `.git` directory exists or
/// not, whose `HEAD` holds `head` (`None` when it cannot be read) and for which
/// `git status --porcelain -u` printed `status` (`None` when it failed).
pub open spec fn detected(
    r: GitRepository,
    git_dir_exists: bool,
    head: Option<Seq<char>>,
    status: Option<Seq<char>>,
) -> bool {
    if !git_dir_exists {
        is_blank_repo(r)
    } else {
        &&& r.is_repo
        &&& r.ahead == 0
        &&& r.behind == 0
        &&& match head {
            None => r.branch is None,
            Some(h) => r.branch matches Some(b) && b@ == branch_of_head(h),
        }
        &&& r.file_status@ == match status {
            None => Map::<Seq<char>, GitFileStatus>::empty(),
            Some(o) => porcelain_status(encode_utf8(o)),
        }
        &&& r.has_changes == any_change(r.file_status@)
    }
}

/// Inputs that detection can read without failing.
pub open spec fn scan_readable(head: Option<Seq<char>>, status: Option<Seq<char>>) -> bool {
    &&& head matches Some(h) ==> head_readable(h)
    &&& status matches Some(o) ==> status_readable(encode_utf8(o))
}

pub open spec fn opt_view(s: Option<&str>) -> Option<Seq<char>> {
    match s {
        Some(t) => Some(t@),
        None => None,
    }
}

impl GitRepository {
    /// The state of a folder that is no repository.
    pub fn new() -> (r: Self)
        ensures
            is_blank_repo(r),
    {
        GitRepository {
            is_repo: false,
            branch: None,
            ahead: 0,
            behind: 0,
            file_status: StringHashMap::new(),
            has_changes: false,
        }
    }

    /// The repository state of a folder, from whether its `.git` directory
    /// exists, the contents of `.git/HEAD` (`None` when unreadable) and the
    /// output of `git status --porcelain -u` (`None` when it failed).
    pub fn detect(git_dir_exists: bool, head: Option<&str>, status_output: Option<&str>) -> (r: Self)
        requires
            scan_readable(opt_view(head), opt_view(status_output)),
        ensures
            detected(r, git_dir_exists, opt_view(head), opt_view(status_output)),
    {
        let mut repo = Self::new();
        if git_dir_exists {
            repo.is_repo = true;
            repo.branch = match head {
                Some(h) => Some(branch_from_head(h)),
                None => None,
            };
            match status_output {
                Some(out) => {
                    let (map, changed) = parse_status(out);
                    repo.file_status = map;
                    repo.has_changes = changed;
                },
                None => {
                    proof {
                        assert(!any_change(repo.file_status@));
                    }
                },
            }
        }
        repo
    }

    /// Detects the state again.
    pub fn refresh(&mut self, git_dir_exists: bool, head: Option<&str>, status_output: Option<&str>)
        requires
            scan_readable(opt_view(head), opt_view(status_output)),
        ensures
            detected(*final(self), git_dir_exists, opt_view(head), opt_view(status_output)),
    {
        *self = Self::detect(git_dir_exists, head, status_output);
    }

    /// Status of `file`; a file Git did not report is unmodified.
    pub fn file_status(&self, file: &str) -> (st: GitFileStatus)
        ensures
            st == (if self.file_status@.contains_key(file@) {
                self.file_status@[file@]
            } else {
                GitFileStatus::Unmodified
            }),
    {
        match self.file_status.get(file) {
            Some(st) => *st,
            None => GitFileStatus::Unmodified,
        }
    }

    /// One-letter icon of a status; empty for unmodified files.
    pub fn status_icon(status: GitFileStatus) -> (icon: &'static str)
        ensures
            icon@ == status_icon_text(status),
    {
        match status {
            GitFileStatus::Modified => {
                proof {
                    reveal_strlit("M");
                }
                "M"
            },
            GitFileStatus::Added => {
                proof {
                    reveal_strlit("A");
                }
                "A"
            },
            GitFileStatus::Deleted => {
                proof {
                    reveal_strlit("D");
                }
                "D"
            },
            GitFileStatus::Untracked => {
                proof {
                    reveal_strlit("U");
                }
                "U"
            },
            GitFileStatus::Conflict => {
                proof {
                    reveal_strlit("C");
                }
                "C"
            },
            GitFileStatus::Renamed => {
                proof {
                    reveal_strlit("R");
                }
                "R"
            },
            GitFileStatus::Copied => {
                proof {
                    reveal_strlit("C");
                }
                "C"
            },
            GitFileStatus::Ignored => {
                proof {
                    reveal_strlit("I");
                }
                "I"
            },
            GitFileStatus::Unmodified => {
                proof {
                    reveal_strlit("");
                }
                ""
            },
        }
    }
}

impl Default for GitRepository {
    fn default() -> (r: Self)
        ensures
            is_blank_repo(r),
    {
        Self::new()
    }
}

/// Git support of the editor: the repository state and whether Git is on.
pub struct GitIntegration {
    pub repo: GitRepository,
    pub enabled: bool,
}

impl GitIntegration {
    pub fn new() -> (r: Self)
        ensures
            is_blank_repo(r.repo),
            r.enabled,
    {
        GitIntegration { repo: GitRepository::new(), enabled: true }
    }

    /// Detects the repository state (see `GitRepository::detect`).
    pub fn detect(&mut self, git_dir_exists: bool, head: Option<&str>, status_output: Option<&str>)
        requires
            scan_readable(opt_view(head), opt_view(status_output)),
        ensures
            detected(final(self).repo, git_dir_exists, opt_view(head), opt_view(status_output)),
            final(self).enabled == old(self).enabled,
    {
        self.repo = GitRepository::detect(git_dir_exists, head, status_output);
    }

    /// Detects the repository state again.
    pub fn refresh(&mut self, git_dir_exists: bool, head: Option<&str>, status_output: Option<&str>)
        requires
            scan_readable(opt_view(head), opt_view(status_output)),
        ensures
            detected(final(self).repo, git_dir_exists, opt_view(head), opt_view(status_output)),
            final(self).enabled == old(self).enabled,
    {
        self.repo.refresh(git_dir_exists, head, status_output);
    }

    pub fn is_enabled(&self) -> (r: bool)
        ensures
            r == self.enabled,
    {
        self.enabled
    }

    pub fn is_repo(&self) -> (r: bool)
        ensures
            r == self.repo.is_repo,
    {
        self.repo.is_repo
    }
}

impl Default for GitIntegration {
    fn default() -> (r: Self)
        ensures
            is_blank_repo(r.repo),
            r.enabled,
    {
        Self::new()
    }
}

} // verus!
