//! What holds of the reconciler whatever the configuration text: repeated
//! upserts settle, removal takes out the block and nothing else, and the block
//! of one alias is out of reach of an upsert for another.

use vstd::prelude::*;
use crate::ssh::{
    block_end, block_start, ends_block, generated_block, has_block, header_line, is_marker,
    joined, lemma_block_end, lemma_block_end_is, lemma_block_start_from, lemma_block_start_is,
    lines_of, marker, opens_block, remove_lines, removed_text, upsert_lines, upserted_text,
    without_cr,
};
use crate::text::{
    has_prefix, index_of, is_space, lemma_index_of_bounds, lemma_index_of_unique,
    lemma_trimmed_first, lemma_trimmed_last, lemma_trimmed_self, trimmed, trimmed_end,
};

verus! {

/// An alias that a `Host` line can be found by: not empty, and not ending in
/// whitespace.
pub open spec fn well_formed_alias(alias: Seq<char>) -> bool {
    alias.len() > 0 && !is_space(alias.last())
}

/// The rows that an upsert for `alias` leaves in front of the block.
pub open spec fn rows_before(lines: Seq<Seq<char>>, alias: Seq<char>) -> Seq<Seq<char>> {
    let i = block_start(lines, alias);
    if i < lines.len() {
        lines.subrange(0, i)
    } else if lines.len() == 0 {
        lines
    } else {
        lines.push(Seq::empty())
    }
}

/// The rows that an upsert for `alias` leaves behind the block.
pub open spec fn rows_after(lines: Seq<Seq<char>>, alias: Seq<char>) -> Seq<Seq<char>> {
    let i = block_start(lines, alias);
    if i < lines.len() {
        lines.subrange(block_end(lines, i + 2), lines.len() as int)
    } else {
        Seq::empty()
    }
}

/// The marker line: what it starts with, and that it is found as a marker
/// and not as a `Host` entry.
pub proof fn lemma_marker_text()
    ensures
        marker().len() == 15,
        marker()[0] == '#',
        trimmed(marker()) == marker(),
        is_marker(marker()),
        !has_prefix(marker(), "Host "@),
{
    reveal_strlit("#tilb generated");
    reveal_strlit("Host ");
    lemma_trimmed_self(marker());
    if has_prefix(marker(), "Host "@) {
        assert(marker().subrange(0, 5)[0] == 'H');
    }
}

/// The `Host` line of an alias: it is no marker, it is found by its alias
/// where that is well formed, and it belongs to one alias only.
pub proof fn lemma_header_text(alias: Seq<char>)
    ensures
        header_line(alias).len() == 5 + alias.len(),
        header_line(alias)[0] == 'H',
        header_line(alias) != marker(),
        well_formed_alias(alias) ==> trimmed(header_line(alias)) == header_line(alias),
        well_formed_alias(alias) ==> !is_marker(header_line(alias)),
        forall|other: Seq<char>| header_line(alias) == header_line(other) ==> alias == other,
{
    reveal_strlit("Host ");
    reveal_strlit("#tilb generated");
    let h = header_line(alias);
    assert(h[0] == 'H');
    assert(marker()[0] == '#');
    if well_formed_alias(alias) {
        assert(h.last() == alias.last());
        lemma_trimmed_self(h);
    }
    assert forall|other: Seq<char>| header_line(alias) == header_line(other) implies alias
        == other by {
        let g = header_line(other);
        assert(alias =~= h.subrange(5, h.len() as int));
        assert(other =~= g.subrange(5, g.len() as int));
    }
}

/// A header that some row trims to belongs to a well-formed alias.
pub proof fn lemma_found_alias_well_formed(line: Seq<char>, alias: Seq<char>)
    requires
        trimmed(line) == header_line(alias),
    ensures
        well_formed_alias(alias),
{
    reveal_strlit("Host ");
    lemma_trimmed_last(line);
    let h = header_line(alias);
    if alias.len() == 0 {
        assert(h.last() == ' ');
    } else {
        assert(h.last() == alias.last());
    }
}

/// An indented directive row neither is a marker nor starts a `Host` entry.
pub proof fn lemma_directive_rows(
    alias: Seq<char>,
    host: Seq<char>,
    user: Seq<char>,
    key_path: Seq<char>,
)
    ensures
        generated_block(alias, host, user, key_path).len() == 5,
        !ends_block(generated_block(alias, host, user, key_path)[2]),
        !ends_block(generated_block(alias, host, user, key_path)[3]),
        !ends_block(generated_block(alias, host, user, key_path)[4]),
{
    reveal_strlit("  HostName ");
    reveal_strlit("  User ");
    reveal_strlit("  IdentityFile ");
    reveal_strlit("Host ");
    reveal_strlit("#tilb generated");
    let b = generated_block(alias, host, user, key_path);
    assert forall|r: int| 2 <= r < 5 implies !ends_block(#[trigger] b[r]) by {
        let row = b[r];
        assert(row[0] == ' ' && row[1] == ' ');
        assert(row[2] == 'H' || row[2] == 'U' || row[2] == 'I');
        lemma_trimmed_first(row, 2);
        if has_prefix(row, "Host "@) {
            assert(row.subrange(0, 5)[0] == 'H');
        }
    }
}

/// Between rows without a block for `alias` and rows that begin with the end
/// of a block, the generated block is found where it stands, five rows long.
pub proof fn lemma_locate_block(
    pre: Seq<Seq<char>>,
    post: Seq<Seq<char>>,
    alias: Seq<char>,
    host: Seq<char>,
    user: Seq<char>,
    key_path: Seq<char>,
)
    requires
        well_formed_alias(alias),
        block_start(pre, alias) == pre.len(),
        post.len() == 0 || ends_block(post[0]),
    ensures
        block_start(pre + generated_block(alias, host, user, key_path) + post, alias)
            == pre.len(),
        block_end(
            pre + generated_block(alias, host, user, key_path) + post,
            pre.len() as int + 2,
        ) == pre.len() + 5,
{
    let b = generated_block(alias, host, user, key_path);
    let all = pre + b + post;
    let n = pre.len() as int;
    lemma_marker_text();
    lemma_header_text(alias);
    lemma_directive_rows(alias, host, user, key_path);
    lemma_block_start_from(pre, alias, 0);
    assert(all[n] == b[0]);
    assert(all[n + 1] == b[1]);
    assert(opens_block(all, alias, n));
    assert forall|j: int| 0 <= j < n implies !opens_block(all, alias, j) by {
        if j + 1 < n {
            assert(all[j] == pre[j] && all[j + 1] == pre[j + 1]);
            assert(!opens_block(pre, alias, j));
        } else {
            assert(all[j + 1] == marker());
        }
    }
    lemma_block_start_is(all, alias, n);
    assert forall|j: int| n + 2 <= j < n + 5 implies !ends_block(#[trigger] all[j]) by {
        assert(all[j] == b[j - n]);
    }
    if post.len() > 0 {
        assert(all[n + 5] == post[0]);
    }
    lemma_block_end_is(all, n + 2, n + 5);
}

/// An upsert leaves the rows before the block, the block, and the rows after
/// it; the rows before hold no block for the alias, and the rows after begin
/// with the end of a block.
pub proof fn lemma_upsert_shape(
    lines: Seq<Seq<char>>,
    alias: Seq<char>,
    host: Seq<char>,
    user: Seq<char>,
    key_path: Seq<char>,
)
    ensures
        upsert_lines(lines, alias, host, user, key_path) == rows_before(lines, alias)
            + generated_block(alias, host, user, key_path) + rows_after(lines, alias),
        block_start(rows_before(lines, alias), alias) == rows_before(lines, alias).len(),
        rows_after(lines, alias).len() == 0 || ends_block(rows_after(lines, alias)[0]),
{
    let i = block_start(lines, alias);
    let b = generated_block(alias, host, user, key_path);
    let pre = rows_before(lines, alias);
    let post = rows_after(lines, alias);
    lemma_block_start_from(lines, alias, 0);
    if i < lines.len() {
        lemma_block_end(lines, i + 2);
    } else {
        assert(pre + b + post =~= upsert_lines(lines, alias, host, user, key_path));
    }
    assert forall|j: int| 0 <= j < pre.len() implies !opens_block(pre, alias, j) by {
        if j + 1 < pre.len() {
            if j + 1 < lines.len() {
                assert(pre[j] == lines[j] && pre[j + 1] == lines[j + 1]);
                assert(!opens_block(lines, alias, j));
            } else {
                reveal_strlit("Host ");
                assert(pre[j + 1] =~= Seq::<char>::empty());
                assert(trimmed(pre[j + 1]) =~= Seq::<char>::empty());
                assert(header_line(alias).len() >= 5);
            }
        }
    }
    lemma_block_start_is(pre, alias, pre.len() as int);
}

/// Replacement: an upsert for an alias whose block was upserted before
/// leaves what a single upsert with the later arguments leaves. With the same
/// arguments twice, the second upsert changes nothing.
pub proof fn law_upsert_replaces(
    lines: Seq<Seq<char>>,
    alias: Seq<char>,
    host_a: Seq<char>,
    user_a: Seq<char>,
    key_path_a: Seq<char>,
    host_b: Seq<char>,
    user_b: Seq<char>,
    key_path_b: Seq<char>,
)
    requires
        well_formed_alias(alias),
    ensures
        upsert_lines(
            upsert_lines(lines, alias, host_a, user_a, key_path_a),
            alias,
            host_b,
            user_b,
            key_path_b,
        ) == upsert_lines(lines, alias, host_b, user_b, key_path_b),
{
    let pre = rows_before(lines, alias);
    let post = rows_after(lines, alias);
    let first = generated_block(alias, host_a, user_a, key_path_a);
    let second = generated_block(alias, host_b, user_b, key_path_b);
    let once = pre + first + post;
    lemma_upsert_shape(lines, alias, host_a, user_a, key_path_a);
    lemma_upsert_shape(lines, alias, host_b, user_b, key_path_b);
    lemma_locate_block(pre, post, alias, host_a, user_a, key_path_a);
    assert(once.subrange(0, pre.len() as int) =~= pre);
    assert(once.subrange(pre.len() as int + 5, once.len() as int) =~= post);
}

/// Idempotence: a second upsert with the same arguments changes nothing.
pub proof fn law_upsert_idempotent(
    lines: Seq<Seq<char>>,
    alias: Seq<char>,
    host: Seq<char>,
    user: Seq<char>,
    key_path: Seq<char>,
)
    requires
        well_formed_alias(alias),
    ensures
        upsert_lines(upsert_lines(lines, alias, host, user, key_path), alias, host, user, key_path)
            == upsert_lines(lines, alias, host, user, key_path),
{
    law_upsert_replaces(lines, alias, host, user, key_path, host, user, key_path);
}

/// After an upsert there is a block for the alias, and where there was at
/// most one before, there is exactly one after.
pub proof fn law_upsert_single_block(
    lines: Seq<Seq<char>>,
    alias: Seq<char>,
    host: Seq<char>,
    user: Seq<char>,
    key_path: Seq<char>,
)
    requires
        well_formed_alias(alias),
        forall|j: int| opens_block(lines, alias, j) ==> j == block_start(lines, alias),
    ensures
        opens_block(
            upsert_lines(lines, alias, host, user, key_path),
            alias,
            rows_before(lines, alias).len() as int,
        ),
        forall|j: int| #[trigger]
            opens_block(upsert_lines(lines, alias, host, user, key_path), alias, j) ==> j
                == rows_before(lines, alias).len(),
        upsert_lines(lines, alias, host, user, key_path).subrange(
            rows_before(lines, alias).len() as int,
            rows_before(lines, alias).len() as int + 5,
        ) == generated_block(alias, host, user, key_path),
{
    let pre = rows_before(lines, alias);
    let post = rows_after(lines, alias);
    let b = generated_block(alias, host, user, key_path);
    let all = pre + b + post;
    let n = pre.len() as int;
    let i = block_start(lines, alias);
    lemma_upsert_shape(lines, alias, host, user, key_path);
    lemma_locate_block(pre, post, alias, host, user, key_path);
    lemma_block_start_from(all, alias, 0);
    lemma_block_start_from(lines, alias, 0);
    lemma_marker_text();
    lemma_header_text(alias);
    lemma_directive_rows(alias, host, user, key_path);
    assert(all.subrange(n, n + 5) =~= b);
    assert forall|j: int| #[trigger] opens_block(all, alias, j) implies j == n by {
        if j < n {
        } else if j == n + 1 {
            assert(all[j] == b[1]);
        } else if n + 2 <= j < n + 5 {
            assert(all[j] == b[j - n]);
        } else if j >= n + 5 {
            let e = block_end(lines, i + 2);
            lemma_block_end(lines, i + 2);
            assert(all[j] == post[j - n - 5]);
            assert(all[j + 1] == post[j + 1 - n - 5]);
            assert(opens_block(lines, alias, j - n - 5 + e));
        }
    }
}

/// Preservation: removing the block for an alias from rows that hold it
/// between hand-written rows leaves exactly the hand-written rows, in their
/// order.
pub proof fn law_remove_keeps_other_rows(
    pre: Seq<Seq<char>>,
    post: Seq<Seq<char>>,
    alias: Seq<char>,
    host: Seq<char>,
    user: Seq<char>,
    key_path: Seq<char>,
)
    requires
        well_formed_alias(alias),
        block_start(pre, alias) == pre.len(),
        post.len() == 0 || ends_block(post[0]),
    ensures
        remove_lines(pre + generated_block(alias, host, user, key_path) + post, alias) == pre
            + post,
{
    let all = pre + generated_block(alias, host, user, key_path) + post;
    lemma_locate_block(pre, post, alias, host, user, key_path);
    lemma_directive_rows(alias, host, user, key_path);
    assert(all.subrange(0, pre.len() as int) =~= pre);
    assert(all.subrange(pre.len() as int + 5, all.len() as int) =~= post);
}

/// Removal after an upsert for the same alias leaves the rows that the
/// upsert had kept around the block, and nothing of the block.
pub proof fn law_remove_undoes_upsert(
    lines: Seq<Seq<char>>,
    alias: Seq<char>,
    host: Seq<char>,
    user: Seq<char>,
    key_path: Seq<char>,
)
    requires
        well_formed_alias(alias),
    ensures
        remove_lines(upsert_lines(lines, alias, host, user, key_path), alias) == rows_before(
            lines,
            alias,
        ) + rows_after(lines, alias),
{
    lemma_upsert_shape(lines, alias, host, user, key_path);
    law_remove_keeps_other_rows(
        rows_before(lines, alias),
        rows_after(lines, alias),
        alias,
        host,
        user,
        key_path,
    );
}

/// Removal takes out one contiguous run of rows and nothing else: what
/// stood before the block and what stood behind it stay as they were.
pub proof fn law_remove_only_block(lines: Seq<Seq<char>>, alias: Seq<char>)
    requires
        block_start(lines, alias) < lines.len(),
    ensures
        ({
            let i = block_start(lines, alias);
            let e = block_end(lines, i + 2);
            &&& 0 <= i && i + 2 <= e <= lines.len()
            &&& remove_lines(lines, alias).len() == lines.len() - (e - i)
            &&& remove_lines(lines, alias).subrange(0, i) == lines.subrange(0, i)
            &&& remove_lines(lines, alias).subrange(i, lines.len() - (e - i)) == lines.subrange(
                e,
                lines.len() as int,
            )
        }),
{
    let i = block_start(lines, alias);
    lemma_block_start_from(lines, alias, 0);
    lemma_block_end(lines, i + 2);
    let e = block_end(lines, i + 2);
    let out = remove_lines(lines, alias);
    assert(out.subrange(0, i) =~= lines.subrange(0, i));
    assert(out.subrange(i, lines.len() - (e - i)) =~= lines.subrange(e, lines.len() as int));
}

/// Non-interference: an upsert for one alias leaves the block of any other
/// alias in the text, row for row, at the place where that block is found.
pub proof fn law_upsert_spares_other_alias(
    lines: Seq<Seq<char>>,
    other: Seq<char>,
    alias: Seq<char>,
    host: Seq<char>,
    user: Seq<char>,
    key_path: Seq<char>,
)
    requires
        other != alias,
        block_start(lines, other) < lines.len(),
    ensures
        ({
            let after = upsert_lines(lines, alias, host, user, key_path);
            let i = block_start(lines, other);
            let e = block_end(lines, i + 2);
            let k = block_start(after, other);
            &&& 0 <= i <= e <= lines.len()
            &&& 0 <= k && k + (e - i) <= after.len()
            &&& after.subrange(k, k + (e - i)) == lines.subrange(i, e)
        }),
{
    let after = upsert_lines(lines, alias, host, user, key_path);
    let i = block_start(lines, other);
    let e = block_end(lines, i + 2);
    let s = block_start(lines, alias);
    let b = generated_block(alias, host, user, key_path);
    lemma_block_start_from(lines, other, 0);
    lemma_block_start_from(lines, alias, 0);
    lemma_block_end(lines, i + 2);
    lemma_marker_text();
    lemma_header_text(alias);
    lemma_header_text(other);
    lemma_directive_rows(alias, host, user, key_path);
    lemma_found_alias_well_formed(lines[i + 1], other);
    if s >= lines.len() {
        assert forall|j: int| 0 <= j < i implies !opens_block(after, other, j) by {
            assert(after[j] == lines[j] && after[j + 1] == lines[j + 1]);
            assert(!opens_block(lines, other, j));
        }
        assert(after[i] == lines[i] && after[i + 1] == lines[i + 1]);
        assert(opens_block(after, other, i));
        lemma_block_start_is(after, other, i);
        assert(after.subrange(i, e) =~= lines.subrange(i, e));
    } else {
        let t = block_end(lines, s + 2);
        lemma_block_end(lines, s + 2);
        lemma_found_alias_well_formed(lines[s + 1], alias);
        assert(header_line(other) != header_line(alias));
        assert(i != s);
        if i < s {
            assert(i + 1 != s);
            assert(ends_block(lines[s]));
            assert(e <= s);
            assert forall|j: int| 0 <= j < i implies !opens_block(after, other, j) by {
                assert(after[j] == lines[j] && after[j + 1] == lines[j + 1]);
                assert(!opens_block(lines, other, j));
            }
            assert(after[i] == lines[i] && after[i + 1] == lines[i + 1]);
            assert(opens_block(after, other, i));
            lemma_block_start_is(after, other, i);
            assert(after.subrange(i, e) =~= lines.subrange(i, e));
        } else {
            assert(i != s + 1);
            assert(ends_block(lines[i]));
            assert(t <= i);
            let d = 5 - (t - s);
            let k = i + d;
            assert forall|j: int| 0 <= j < k implies !opens_block(after, other, j) by {
                if j + 1 < s {
                    assert(after[j] == lines[j] && after[j + 1] == lines[j + 1]);
                    assert(!opens_block(lines, other, j));
                } else if j < s {
                    assert(after[j + 1] == b[0]);
                } else if j == s {
                    assert(after[j + 1] == b[1]);
                } else if j == s + 1 {
                    assert(after[j] == b[1]);
                } else if j < s + 5 {
                    assert(after[j] == b[j - s]);
                } else {
                    assert(after[j] == lines[j - d]);
                    assert(after[j + 1] == lines[j + 1 - d]);
                    assert(!opens_block(lines, other, j - d));
                }
            }
            assert(after[k] == lines[i] && after[k + 1] == lines[i + 1]);
            assert(opens_block(after, other, k));
            lemma_block_start_is(after, other, k);
            assert(after.subrange(k, k + (e - i)) =~= lines.subrange(i, e));
        }
    }
}

/// A row that reads back as it was written: it holds no line feed and does
/// not end in a carriage return.
pub open spec fn plain_row(row: Seq<char>) -> bool {
    !(index_of(row, '\n') < row.len()) && (row.len() == 0 || row.last() != '\r')
}

/// Whether every row of `lines` is plain.
pub open spec fn plain_rows(lines: Seq<Seq<char>>) -> bool {
    forall|i: int| 0 <= i < lines.len() ==> plain_row(#[trigger] lines[i])
}

/// Joined rows start with the first row, a line feed, and the other rows
/// joined.
pub proof fn lemma_joined_front(lines: Seq<Seq<char>>)
    requires
        lines.len() >= 2,
    ensures
        joined(lines) == lines[0] + seq!['\n'] + joined(lines.drop_first()),
    decreases lines.len(),
{
    let front = lines.drop_last();
    let back = lines.drop_first();
    if lines.len() == 2 {
        assert(joined(front) == lines[0]);
        assert(joined(back) == lines[1]);
    } else {
        lemma_joined_front(front);
        assert(front.drop_first() =~= back.drop_last());
        assert(joined(lines) =~= lines[0] + seq!['\n'] + joined(back));
    }
}

/// Plain rows that were joined and closed with a line feed split into the
/// same rows again.
pub proof fn lemma_lines_round_trip(lines: Seq<Seq<char>>)
    requires
        lines.len() > 0,
        plain_rows(lines),
    ensures
        lines_of(joined(lines).push('\n')) == lines,
    decreases lines.len(),
{
    let text = joined(lines).push('\n');
    let first = lines[0];
    let k = first.len() as int;
    lemma_index_of_bounds(first, '\n');
    assert(plain_row(lines[0]));
    assert(without_cr(first) == first);
    if lines.len() == 1 {
        assert(text =~= first + seq!['\n']);
        lemma_index_of_unique(text, '\n', k);
        assert(text.subrange(0, k) =~= first);
        assert(text.subrange(k + 1, text.len() as int) =~= Seq::<char>::empty());
        assert(lines_of(Seq::<char>::empty()) =~= Seq::<Seq<char>>::empty());
        assert(lines_of(text) =~= seq![first] + Seq::<Seq<char>>::empty());
        assert(lines =~= seq![first]);
    } else {
        let rest = lines.drop_first();
        lemma_joined_front(lines);
        lemma_lines_round_trip(rest);
        let tail = joined(rest).push('\n');
        assert(text =~= first + seq!['\n'] + tail);
        lemma_index_of_unique(text, '\n', k);
        assert(text.subrange(0, k) =~= first);
        assert(text.subrange(k + 1, text.len() as int) =~= tail);
        assert(lines =~= seq![first] + rest);
    }
}

/// A text behind a prefix without line feeds is a plain row where the text
/// itself is one and the prefix does not end in a carriage return.
pub proof fn lemma_plain_behind_prefix(prefix: Seq<char>, rest: Seq<char>)
    requires
        plain_row(rest),
        prefix.len() > 0,
        prefix.last() != '\r',
        forall|j: int| 0 <= j < prefix.len() ==> prefix[j] != '\n',
    ensures
        plain_row(prefix + rest),
{
    let row = prefix + rest;
    lemma_index_of_bounds(rest, '\n');
    assert forall|j: int| 0 <= j < row.len() implies row[j] != '\n' by {
        if j >= prefix.len() {
            assert(row[j] == rest[j - prefix.len()]);
        }
    }
    lemma_index_of_unique(row, '\n', row.len() as int);
    if rest.len() > 0 {
        assert(row.last() == rest.last());
    } else {
        assert(row.last() == prefix.last());
    }
}

/// No row of a text holds a line feed.
pub proof fn lemma_rows_hold_no_line_feed(text: Seq<char>)
    ensures
        forall|i: int|
            0 <= i < lines_of(text).len() ==> !(index_of(#[trigger] lines_of(text)[i], '\n')
                < lines_of(text)[i].len()),
    decreases text.len(),
{
    let k = index_of(text, '\n');
    lemma_index_of_bounds(text, '\n');
    if text.len() == 0 {
    } else if k < text.len() {
        let rest = text.subrange(k + 1, text.len() as int);
        let first = without_cr(text.subrange(0, k));
        lemma_rows_hold_no_line_feed(rest);
        assert forall|j: int| 0 <= j < first.len() implies first[j] != '\n' by {
            assert(first[j] == text[j]);
        }
        lemma_index_of_unique(first, '\n', first.len() as int);
        assert forall|i: int| 0 <= i < lines_of(text).len() implies !(index_of(
            #[trigger] lines_of(text)[i],
            '\n',
        ) < lines_of(text)[i].len()) by {
            if i > 0 {
                assert(lines_of(text)[i] == lines_of(rest)[i - 1]);
            }
        }
    } else {
    }
}

/// An upsert with plain arguments into plain rows leaves plain rows.
pub proof fn lemma_upsert_keeps_rows_plain(
    lines: Seq<Seq<char>>,
    alias: Seq<char>,
    host: Seq<char>,
    user: Seq<char>,
    key_path: Seq<char>,
)
    requires
        plain_rows(lines),
        plain_row(alias),
        plain_row(host),
        plain_row(user),
        plain_row(key_path),
    ensures
        plain_rows(upsert_lines(lines, alias, host, user, key_path)),
{
    reveal_strlit("#tilb generated");
    reveal_strlit("Host ");
    reveal_strlit("  HostName ");
    reveal_strlit("  User ");
    reveal_strlit("  IdentityFile ");
    let b = generated_block(alias, host, user, key_path);
    let pre = rows_before(lines, alias);
    let post = rows_after(lines, alias);
    let out = upsert_lines(lines, alias, host, user, key_path);
    lemma_upsert_shape(lines, alias, host, user, key_path);
    lemma_block_start_from(lines, alias, 0);
    if block_start(lines, alias) < lines.len() {
        lemma_block_end(lines, block_start(lines, alias) + 2);
    }
    lemma_plain_behind_prefix(marker(), Seq::empty());
    assert(marker() + Seq::<char>::empty() =~= marker());
    lemma_plain_behind_prefix("Host "@, alias);
    lemma_plain_behind_prefix("  HostName "@, host);
    lemma_plain_behind_prefix("  User "@, user);
    lemma_plain_behind_prefix("  IdentityFile "@, key_path);
    assert forall|i: int| 0 <= i < out.len() implies plain_row(#[trigger] out[i]) by {
        if i < pre.len() {
            assert(out[i] == pre[i]);
            if i < lines.len() {
                assert(pre[i] == lines[i]);
            } else {
                assert(pre[i] =~= Seq::<char>::empty());
            }
        } else if i < pre.len() + 5 {
            assert(out[i] == b[i - pre.len()]);
        } else {
            let e = block_end(lines, block_start(lines, alias) + 2);
            assert(out[i] == post[i - pre.len() - 5]);
            assert(post[i - pre.len() - 5] == lines[e + (i - pre.len() - 5)]);
        }
    }
}

/// Replacement, on the text itself: where the text that an upsert wrote
/// reads back row for row, a later upsert for the same alias writes what a
/// single upsert with the later arguments writes.
pub proof fn law_upsert_text_replaces(
    content: Seq<char>,
    alias: Seq<char>,
    host_a: Seq<char>,
    user_a: Seq<char>,
    key_path_a: Seq<char>,
    host_b: Seq<char>,
    user_b: Seq<char>,
    key_path_b: Seq<char>,
)
    requires
        well_formed_alias(alias),
        plain_rows(upsert_lines(lines_of(content), alias, host_a, user_a, key_path_a)),
    ensures
        upserted_text(
            upserted_text(content, alias, host_a, user_a, key_path_a),
            alias,
            host_b,
            user_b,
            key_path_b,
        ) == upserted_text(content, alias, host_b, user_b, key_path_b),
{
    let lines = lines_of(content);
    let once = upsert_lines(lines, alias, host_a, user_a, key_path_a);
    lemma_upsert_shape(lines, alias, host_a, user_a, key_path_a);
    lemma_directive_rows(alias, host_a, user_a, key_path_a);
    lemma_lines_round_trip(once);
    law_upsert_replaces(lines, alias, host_a, user_a, key_path_a, host_b, user_b, key_path_b);
}

/// Idempotence, on the text itself: where the text that an upsert wrote
/// reads back row for row, a second upsert with the same arguments writes
/// the same text, character for character.
pub proof fn law_upsert_text_idempotent(
    content: Seq<char>,
    alias: Seq<char>,
    host: Seq<char>,
    user: Seq<char>,
    key_path: Seq<char>,
)
    requires
        well_formed_alias(alias),
        plain_rows(upsert_lines(lines_of(content), alias, host, user, key_path)),
    ensures
        upserted_text(
            upserted_text(content, alias, host, user, key_path),
            alias,
            host,
            user,
            key_path,
        ) == upserted_text(content, alias, host, user, key_path),
{
    law_upsert_text_replaces(content, alias, host, user, key_path, host, user, key_path);
}

/// Preservation, on the text itself: from a text that was written out of
/// hand-written rows, the block for an alias, and more hand-written rows,
/// removal leaves the hand-written rows joined as they were, closed by one
/// line feed.
pub proof fn law_remove_text_keeps_other_rows(
    pre: Seq<Seq<char>>,
    post: Seq<Seq<char>>,
    alias: Seq<char>,
    host: Seq<char>,
    user: Seq<char>,
    key_path: Seq<char>,
)
    requires
        well_formed_alias(alias),
        block_start(pre, alias) == pre.len(),
        post.len() == 0 || ends_block(post[0]),
        plain_rows(pre + generated_block(alias, host, user, key_path) + post),
    ensures
        ({
            let text = joined(pre + generated_block(alias, host, user, key_path) + post).push(
                '\n',
            );
            &&& has_block(text, alias)
            &&& removed_text(text, alias) == trimmed_end(joined(pre + post)).push('\n')
        }),
{
    let all = pre + generated_block(alias, host, user, key_path) + post;
    lemma_directive_rows(alias, host, user, key_path);
    lemma_lines_round_trip(all);
    lemma_locate_block(pre, post, alias, host, user, key_path);
    law_remove_keeps_other_rows(pre, post, alias, host, user, key_path);
}

/// Idempotence for plain input: where no argument holds a line feed or ends
/// in a carriage return, and no row of the text ends in a carriage return, a
/// second upsert with the same arguments writes the same text, character for
/// character.
pub proof fn law_upsert_plain_text_idempotent(
    content: Seq<char>,
    alias: Seq<char>,
    host: Seq<char>,
    user: Seq<char>,
    key_path: Seq<char>,
)
    requires
        well_formed_alias(alias),
        plain_row(alias),
        plain_row(host),
        plain_row(user),
        plain_row(key_path),
        forall|i: int|
            0 <= i < lines_of(content).len() ==> without_cr(#[trigger] lines_of(content)[i])
                == lines_of(content)[i],
    ensures
        upserted_text(
            upserted_text(content, alias, host, user, key_path),
            alias,
            host,
            user,
            key_path,
        ) == upserted_text(content, alias, host, user, key_path),
{
    let lines = lines_of(content);
    lemma_rows_hold_no_line_feed(content);
    assert forall|i: int| 0 <= i < lines.len() implies plain_row(#[trigger] lines[i]) by {
        assert(without_cr(lines[i]) == lines[i]);
    }
    lemma_upsert_keeps_rows_plain(lines, alias, host, user, key_path);
    law_upsert_text_idempotent(content, alias, host, user, key_path);
}

} // verus!
