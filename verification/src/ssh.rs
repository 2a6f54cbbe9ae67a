//! Reconciliation of generated host blocks inside the text of an SSH client
//! configuration.
//!
//! A generated block starts with a marker line that is directly followed by a
//! `Host <alias>` line. It runs until the next marker line, the next line that
//! starts with `Host `, or the end of the text. Everything outside the block
//! belongs to the user and is never touched.

use vstd::prelude::*;
use crate::text::{
    chars_of, copy_range, find_char, has_prefix, index_of, is_space, is_whitespace,
    lemma_index_of_bounds, lemma_trimmed_end_prefix, range_eq, rows_view, starts_with, string_of,
    trim_bounds,
    trimmed, trimmed_end,
};

verus! {

/// The comment line that opens every generated block.
pub open spec fn marker() -> Seq<char> {
    "#tilb generated"@
}

/// The `Host` line of the block for `alias`.
pub open spec fn header_line(alias: Seq<char>) -> Seq<char> {
    "Host "@ + alias
}

/// Whether `line` is a marker line.
pub open spec fn is_marker(line: Seq<char>) -> bool {
    trimmed(line) == marker()
}

/// Whether a generated block for `alias` starts at row `i`.
pub open spec fn opens_block(lines: Seq<Seq<char>>, alias: Seq<char>, i: int) -> bool {
    &&& 0 <= i
    &&& i + 1 < lines.len()
    &&& is_marker(lines[i])
    &&& trimmed(lines[i + 1]) == header_line(alias)
}

/// The first row at or after `from` where a block for `alias` starts, or
/// `lines.len()` when there is none.
pub open spec fn block_start_from(lines: Seq<Seq<char>>, alias: Seq<char>, from: int) -> int
    decreases lines.len() - from,
{
    if from < 0 || from >= lines.len() {
        lines.len() as int
    } else if opens_block(lines, alias, from) {
        from
    } else {
        block_start_from(lines, alias, from + 1)
    }
}

/// The row where the block for `alias` starts, or `lines.len()` when the text
/// holds none.
pub open spec fn block_start(lines: Seq<Seq<char>>, alias: Seq<char>) -> int {
    block_start_from(lines, alias, 0)
}

/// Whether `line` ends the block above it: a marker, or a `Host` entry that
/// is not indented.
pub open spec fn ends_block(line: Seq<char>) -> bool {
    is_marker(line) || has_prefix(line, "Host "@)
}

/// The first row at or after `from` that ends a block, or `lines.len()`.
pub open spec fn block_end(lines: Seq<Seq<char>>, from: int) -> int
    decreases lines.len() - from,
{
    if from < 0 || from >= lines.len() {
        lines.len() as int
    } else if ends_block(lines[from]) {
        from
    } else {
        block_end(lines, from + 1)
    }
}

/// The five rows of the block for `alias`.
pub open spec fn generated_block(
    alias: Seq<char>,
    host: Seq<char>,
    user: Seq<char>,
    key_path: Seq<char>,
) -> Seq<Seq<char>> {
    seq![
        marker(),
        header_line(alias),
        "  HostName "@ + host,
        "  User "@ + user,
        "  IdentityFile "@ + key_path,
    ]
}

/// The rows after the block for `alias` was replaced in place, or, where
/// there was none, appended behind a blank row (no blank row in an empty
/// text).
pub open spec fn upsert_lines(
    lines: Seq<Seq<char>>,
    alias: Seq<char>,
    host: Seq<char>,
    user: Seq<char>,
    key_path: Seq<char>,
) -> Seq<Seq<char>> {
    let i = block_start(lines, alias);
    let block = generated_block(alias, host, user, key_path);
    if i < lines.len() {
        lines.subrange(0, i) + block + lines.subrange(
            block_end(lines, i + 2),
            lines.len() as int,
        )
    } else if lines.len() == 0 {
        block
    } else {
        lines.push(Seq::empty()) + block
    }
}

/// The rows without the block for `alias`; `lines` itself where there is none.
pub open spec fn remove_lines(lines: Seq<Seq<char>>, alias: Seq<char>) -> Seq<Seq<char>> {
    let i = block_start(lines, alias);
    if i < lines.len() {
        lines.subrange(0, i) + lines.subrange(block_end(lines, i + 2), lines.len() as int)
    } else {
        lines
    }
}

/// `line` without one trailing carriage return.
pub open spec fn without_cr(line: Seq<char>) -> Seq<char> {
    if line.len() > 0 && line.last() == '\r' {
        line.drop_last()
    } else {
        line
    }
}

/// The rows of `text`: split at each line feed, a carriage return before a
/// line feed dropped, no empty last row after a final line feed.
pub open spec fn lines_of(text: Seq<char>) -> Seq<Seq<char>>
    decreases text.len(),
{
    let k = index_of(text, '\n');
    if text.len() == 0 {
        Seq::empty()
    } else if 0 <= k < text.len() {
        seq![without_cr(text.subrange(0, k))] + lines_of(text.subrange(k + 1, text.len() as int))
    } else {
        seq![text]
    }
}

/// The rows with one line feed between neighbours.
pub open spec fn joined(lines: Seq<Seq<char>>) -> Seq<char>
    decreases lines.len(),
{
    if lines.len() == 0 {
        Seq::empty()
    } else if lines.len() == 1 {
        lines[0]
    } else {
        joined(lines.drop_last()) + seq!['\n'] + lines.last()
    }
}

/// The text of a configuration after an upsert: the rows joined, and one
/// final line feed.
pub open spec fn upserted_text(
    content: Seq<char>,
    alias: Seq<char>,
    host: Seq<char>,
    user: Seq<char>,
    key_path: Seq<char>,
) -> Seq<char> {
    joined(upsert_lines(lines_of(content), alias, host, user, key_path)).push('\n')
}

/// The text of a configuration after a removal: the remaining rows joined,
/// trailing whitespace collapsed into one final line feed.
pub open spec fn removed_text(content: Seq<char>, alias: Seq<char>) -> Seq<char> {
    trimmed_end(joined(remove_lines(lines_of(content), alias))).push('\n')
}

/// Whether `content` holds a generated block for `alias`.
pub open spec fn has_block(content: Seq<char>, alias: Seq<char>) -> bool {
    block_start(lines_of(content), alias) < lines_of(content).len()
}

/// `block_start_from` stays within the rows, passes no row where a block
/// for the alias opens, and stands on one unless it is the end.
pub proof fn lemma_block_start_from(lines: Seq<Seq<char>>, alias: Seq<char>, from: int)
    requires
        0 <= from <= lines.len(),
    ensures
        from <= block_start_from(lines, alias, from) <= lines.len(),
        forall|j: int|
            from <= j < block_start_from(lines, alias, from) ==> !opens_block(lines, alias, j),
        block_start_from(lines, alias, from) < lines.len() ==> opens_block(
            lines,
            alias,
            block_start_from(lines, alias, from),
        ),
    decreases lines.len() - from,
{
    if from < lines.len() && !opens_block(lines, alias, from) {
        lemma_block_start_from(lines, alias, from + 1);
    }
}

/// The start of a block is the least row where one opens.
pub proof fn lemma_block_start_is(lines: Seq<Seq<char>>, alias: Seq<char>, k: int)
    requires
        0 <= k <= lines.len(),
        forall|j: int| 0 <= j < k ==> !opens_block(lines, alias, j),
        k < lines.len() ==> opens_block(lines, alias, k),
    ensures
        block_start(lines, alias) == k,
{
    lemma_block_start_from(lines, alias, 0);
    let i = block_start(lines, alias);
    if i < k {
        assert(opens_block(lines, alias, i));
    } else if k < i {
        assert(!opens_block(lines, alias, k));
    }
}

/// `block_end` stays within the rows, passes no row that ends a block, and
/// stands on one unless it is the end.
pub proof fn lemma_block_end(lines: Seq<Seq<char>>, from: int)
    requires
        0 <= from <= lines.len(),
    ensures
        from <= block_end(lines, from) <= lines.len(),
        forall|j: int| from <= j < block_end(lines, from) ==> !ends_block(#[trigger] lines[j]),
        block_end(lines, from) < lines.len() ==> ends_block(lines[block_end(lines, from)]),
    decreases lines.len() - from,
{
    if from < lines.len() && !ends_block(lines[from]) {
        lemma_block_end(lines, from + 1);
    }
}

/// The end of a block is the least row at or after `from` that ends one.
pub proof fn lemma_block_end_is(lines: Seq<Seq<char>>, from: int, k: int)
    requires
        0 <= from <= k <= lines.len(),
        forall|j: int| from <= j < k ==> !ends_block(#[trigger] lines[j]),
        k < lines.len() ==> ends_block(lines[k]),
    ensures
        block_end(lines, from) == k,
{
    lemma_block_end(lines, from);
    let e = block_end(lines, from);
    if e < k {
        assert(ends_block(lines[e]));
    } else if k < e {
        assert(!ends_block(lines[k]));
    }
}

/// Whether the trimmed `line` equals `target`.
fn trimmed_is(line: &Vec<char>, target: &Vec<char>) -> (r: bool)
    ensures
        r == (trimmed(line@) == target@),
{
    let (a, b) = trim_bounds(line);
    range_eq(line, a, b, target)
}

/// `prefix` followed by `rest`.
fn prefixed(prefix: &str, rest: &Vec<char>) -> (line: Vec<char>)
    ensures
        line@ == prefix@ + rest@,
{
    let mut line = chars_of(prefix);
    let mut i: usize = 0;
    while i < rest.len()
        invariant
            i <= rest.len(),
            line@ == prefix@ + rest@.subrange(0, i as int),
        decreases rest.len() - i,
    {
        line.push(rest[i]);
        i += 1;
        assert(line@ =~= prefix@ + rest@.subrange(0, i as int));
    }
    assert(rest@.subrange(0, rest.len() as int) =~= rest@);
    line
}

/// Splits `text` into rows.
fn split_lines(text: &Vec<char>) -> (rows: Vec<Vec<char>>)
    ensures
        rows_view(rows@) == lines_of(text@),
{
    let n: usize = text.len();
    let mut rows: Vec<Vec<char>> = Vec::new();
    let mut start: usize = 0;
    assert(text@.subrange(0, n as int) =~= text@);
    assert(rows_view(rows@) + lines_of(text@) =~= lines_of(text@));
    while start < n
        invariant
            start <= n,
            n == text.len(),
            lines_of(text@) == rows_view(rows@) + lines_of(text@.subrange(start as int, n as int)),
        decreases n - start,
    {
        let ghost rest = text@.subrange(start as int, n as int);
        let ghost before = rows_view(rows@);
        let k: usize = find_char(text, start, '\n');
        proof {
            lemma_index_of_bounds(rest, '\n');
            assert(rest.subrange(0, k - start) =~= text@.subrange(start as int, k as int));
        }
        if k == n {
            rows.push(copy_range(text, start, n));
            proof {
                assert(lines_of(rest) == seq![rest]);
                assert(rows_view(rows@) =~= before + seq![rest]);
                assert(lines_of(text@.subrange(n as int, n as int)) =~= Seq::<Seq<char>>::empty());
                assert(rows_view(rows@) + Seq::<Seq<char>>::empty() =~= rows_view(rows@));
            }
            start = n;
        } else {
            let stop: usize = if k > start && text[k - 1] == '\r' {
                k - 1
            } else {
                k
            };
            rows.push(copy_range(text, start, stop));
            proof {
                let line = rest.subrange(0, k - start);
                assert(without_cr(line) =~= text@.subrange(start as int, stop as int)) by {
                    if k > start {
                        assert(line.last() == text@[k - 1]);
                    }
                }
                assert(rest.subrange(k - start + 1, rest.len() as int) =~= text@.subrange(
                    k + 1,
                    n as int,
                ));
                assert(rows_view(rows@) =~= before + seq![without_cr(line)]);
                assert(before + (seq![without_cr(line)] + lines_of(
                    text@.subrange(k + 1, n as int),
                )) =~= rows_view(rows@) + lines_of(text@.subrange(k + 1, n as int)));
            }
            start = k + 1;
        }
    }
    proof {
        assert(lines_of(text@.subrange(n as int, n as int)) =~= Seq::<Seq<char>>::empty());
        assert(rows_view(rows@) + Seq::<Seq<char>>::empty() =~= rows_view(rows@));
    }
    rows
}

/// Joins `rows` with line feeds.
fn join_lines(rows: &Vec<Vec<char>>) -> (text: Vec<char>)
    ensures
        text@ == joined(rows_view(rows@)),
{
    let mut text: Vec<char> = Vec::new();
    let mut i: usize = 0;
    let ghost all = rows_view(rows@);
    assert(all.subrange(0, 0) =~= Seq::<Seq<char>>::empty());
    while i < rows.len()
        invariant
            i <= rows.len(),
            all == rows_view(rows@),
            text@ == joined(all.subrange(0, i as int)),
        decreases rows.len() - i,
    {
        let ghost before = text@;
        if i > 0 {
            text.push('\n');
        }
        let row = &rows[i];
        let mut j: usize = 0;
        let ghost base = text@;
        while j < row.len()
            invariant
                j <= row.len(),
                text@ == base + row@.subrange(0, j as int),
            decreases row.len() - j,
        {
            text.push(row[j]);
            j += 1;
            assert(text@ =~= base + row@.subrange(0, j as int));
        }
        proof {
            assert(row@.subrange(0, row.len() as int) =~= row@);
            let upto = all.subrange(0, i + 1);
            assert(upto.drop_last() =~= all.subrange(0, i as int));
            assert(upto.last() == row@);
            if i == 0 {
                assert(before =~= Seq::<char>::empty());
                assert(text@ =~= row@);
                assert(upto[0] == row@);
            } else {
                assert(base =~= before + seq!['\n']);
            }
        }
        i += 1;
    }
    assert(all.subrange(0, rows.len() as int) =~= all);
    text
}

/// The row where the block with the given header starts, or `rows.len()`.
fn find_block(rows: &Vec<Vec<char>>, alias: &Vec<char>) -> (i: usize)
    ensures
        i == block_start(rows_view(rows@), alias@),
        i <= rows.len(),
{
    let mark = chars_of("#tilb generated");
    let header = prefixed("Host ", alias);
    let ghost lines = rows_view(rows@);
    let mut i: usize = 0;
    while i < rows.len()
        invariant
            i <= rows.len(),
            lines == rows_view(rows@),
            mark@ == marker(),
            header@ == header_line(alias@),
            forall|j: int| 0 <= j < i ==> !opens_block(lines, alias@, j),
        decreases rows.len() - i,
    {
        if trimmed_is(&rows[i], &mark) && i + 1 < rows.len() && trimmed_is(&rows[i + 1], &header) {
            proof {
                assert(opens_block(lines, alias@, i as int));
                lemma_block_start_is(lines, alias@, i as int);
            }
            return i;
        }
        i += 1;
    }
    proof {
        lemma_block_start_is(lines, alias@, rows.len() as int);
    }
    i
}

/// The first row at or after `from` that ends a block, or `rows.len()`.
fn find_block_end(rows: &Vec<Vec<char>>, from: usize) -> (e: usize)
    requires
        from <= rows.len(),
    ensures
        e == block_end(rows_view(rows@), from as int),
        from <= e <= rows.len(),
{
    let mark = chars_of("#tilb generated");
    let host = chars_of("Host ");
    let ghost lines = rows_view(rows@);
    let mut e: usize = from;
    while e < rows.len()
        invariant
            from <= e <= rows.len(),
            lines == rows_view(rows@),
            mark@ == marker(),
            host@ == "Host "@,
            forall|j: int| from <= j < e ==> !ends_block(#[trigger] lines[j]),
        decreases rows.len() - e,
    {
        if trimmed_is(&rows[e], &mark) || starts_with(&rows[e], &host) {
            proof {
                assert(ends_block(lines[e as int]));
                lemma_block_end_is(lines, from as int, e as int);
            }
            return e;
        }
        e += 1;
    }
    proof {
        lemma_block_end_is(lines, from as int, rows.len() as int);
    }
    e
}

/// Appends copies of `src[from..to]` to `out`.
fn append_rows(out: &mut Vec<Vec<char>>, src: &Vec<Vec<char>>, from: usize, to: usize)
    requires
        from <= to <= src.len(),
    ensures
        rows_view(final(out)@) == rows_view(old(out)@) + rows_view(src@).subrange(
            from as int,
            to as int,
        ),
{
    let ghost start = rows_view(out@);
    let ghost all = rows_view(src@);
    let mut i: usize = from;
    assert(start + all.subrange(from as int, from as int) =~= start);
    while i < to
        invariant
            from <= i <= to,
            to <= src.len(),
            all == rows_view(src@),
            rows_view(out@) == start + all.subrange(from as int, i as int),
        decreases to - i,
    {
        let row = copy_range(&src[i], 0, src[i].len());
        let ghost before = rows_view(out@);
        proof {
            assert(row@ =~= src@[i as int]@);
            assert(all[i as int] == row@);
        }
        out.push(row);
        proof {
            assert(rows_view(out@) =~= before.push(row@));
            assert(all.subrange(from as int, i + 1) =~= all.subrange(from as int, i as int).push(
                all[i as int],
            ));
        }
        i += 1;
    }
}

/// The five rows of the block.
fn build_block(alias: &Vec<char>, host: &Vec<char>, user: &Vec<char>, key_path: &Vec<char>) -> (block:
    Vec<Vec<char>>)
    ensures
        rows_view(block@) == generated_block(alias@, host@, user@, key_path@),
        block.len() == 5,
{
    let mut block: Vec<Vec<char>> = Vec::new();
    block.push(chars_of("#tilb generated"));
    block.push(prefixed("Host ", alias));
    block.push(prefixed("  HostName ", host));
    block.push(prefixed("  User ", user));
    block.push(prefixed("  IdentityFile ", key_path));
    assert(rows_view(block@) =~= generated_block(alias@, host@, user@, key_path@));
    block
}

/// Replaces the block for `alias` in `rows`, or appends it.
fn upsert_rows(
    rows: &Vec<Vec<char>>,
    alias: &Vec<char>,
    host: &Vec<char>,
    user: &Vec<char>,
    key_path: &Vec<char>,
) -> (out: Vec<Vec<char>>)
    ensures
        rows_view(out@) == upsert_lines(rows_view(rows@), alias@, host@, user@, key_path@),
{
    let block = build_block(alias, host, user, key_path);
    let i: usize = find_block(rows, alias);
    let mut out: Vec<Vec<char>> = Vec::new();
    let ghost lines = rows_view(rows@);
    assert(rows_view(out@) =~= Seq::<Seq<char>>::empty());
    if i < rows.len() {
        proof {
            lemma_block_start_from(lines, alias@, 0);
        }
        let e: usize = find_block_end(rows, i + 2);
        append_rows(&mut out, rows, 0, i);
        append_rows(&mut out, &block, 0, 5);
        append_rows(&mut out, rows, e, rows.len());
        proof {
            let b = rows_view(block@);
            assert(b.subrange(0, 5) =~= b);
            assert(rows_view(out@) =~= lines.subrange(0, i as int) + b + lines.subrange(
                e as int,
                lines.len() as int,
            ));
        }
    } else {
        append_rows(&mut out, rows, 0, rows.len());
        if rows.len() > 0 {
            let ghost before = rows_view(out@);
            out.push(Vec::new());
            assert(rows_view(out@) =~= before.push(Seq::empty()));
        }
        append_rows(&mut out, &block, 0, 5);
        proof {
            let b = rows_view(block@);
            assert(b.subrange(0, 5) =~= b);
            assert(lines.subrange(0, lines.len() as int) =~= lines);
            if rows.len() == 0 {
                assert(rows_view(out@) =~= b);
            } else {
                assert(rows_view(out@) =~= lines.push(Seq::empty()) + b);
            }
        }
    }
    out
}

/// The text of `content` with the block for `host_alias` replaced in place
/// by the block built from the arguments, or, where `content` holds no such
/// block, with that block appended.
pub fn add_to_ssh_config(
    content: &str,
    host_alias: &str,
    host_name: &str,
    user: &str,
    identity_file: &str,
) -> (out: String)
    ensures
        out@ == upserted_text(content@, host_alias@, host_name@, user@, identity_file@),
{
    let rows = split_lines(&chars_of(content));
    let alias = chars_of(host_alias);
    let host = chars_of(host_name);
    let login = chars_of(user);
    let key_path = chars_of(identity_file);
    let updated = upsert_rows(&rows, &alias, &host, &login, &key_path);
    let mut text = join_lines(&updated);
    text.push('\n');
    string_of(&text, 0, text.len())
}

/// The text of `content` without the block for `host_alias`, or `None` where
/// `content` holds no such block and there is nothing to remove.
pub fn remove_from_ssh_config(content: &str, host_alias: &str) -> (out: Option<String>)
    ensures
        has_block(content@, host_alias@) ==> out is Some && out->0@ == removed_text(
            content@,
            host_alias@,
        ),
        !has_block(content@, host_alias@) ==> out is None,
{
    let rows = split_lines(&chars_of(content));
    let alias = chars_of(host_alias);
    let ghost lines = rows_view(rows@);
    let i: usize = find_block(&rows, &alias);
    if i >= rows.len() {
        return None;
    }
    proof {
        lemma_block_start_from(lines, alias@, 0);
    }
    let e: usize = find_block_end(&rows, i + 2);
    let mut kept: Vec<Vec<char>> = Vec::new();
    assert(rows_view(kept@) =~= Seq::<Seq<char>>::empty());
    append_rows(&mut kept, &rows, 0, i);
    append_rows(&mut kept, &rows, e, rows.len());
    assert(rows_view(kept@) =~= remove_lines(lines, alias@));
    let text = join_lines(&kept);
    let mut b: usize = text.len();
    while b > 0 && is_whitespace(text[b - 1])
        invariant
            b <= text.len(),
            forall|j: int| b <= j < text.len() ==> is_space(text@[j]),
        decreases b,
    {
        b -= 1;
    }
    let mut body = copy_range(&text, 0, b);
    proof {
        lemma_trimmed_end_prefix(text@, b as int);
        assert(trimmed_end(body@) == body@) by {
            if b > 0 {
                assert(body@.last() == text@[b - 1]);
            }
        }
    }
    body.push('\n');
    Some(string_of(&body, 0, body.len()))
}

} // verus!
