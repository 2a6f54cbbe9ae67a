//! Character-sequence primitives shared by the URL resolver and the SSH
//! configuration reconciler: whitespace trimming, searching and splitting.

use vstd::prelude::*;

verus! {

/// Whether `c` carries the Unicode `White_Space` property.
pub open spec fn is_space(c: char) -> bool {
    let n = c as u32;
    (0x09 <= n <= 0x0d) || n == 0x20 || n == 0x85 || n == 0xa0 || n == 0x1680 || (0x2000 <= n
        <= 0x200a) || n == 0x2028 || n == 0x2029 || n == 0x202f || n == 0x205f || n == 0x3000
}

/// `s` without its leading whitespace.
pub open spec fn skip_spaces(s: Seq<char>) -> Seq<char>
    decreases s.len(),
{
    if s.len() > 0 && is_space(s[0]) {
        skip_spaces(s.drop_first())
    } else {
        s
    }
}

/// `s` without its trailing whitespace.
pub open spec fn trimmed_end(s: Seq<char>) -> Seq<char>
    decreases s.len(),
{
    if s.len() > 0 && is_space(s.last()) {
        trimmed_end(s.drop_last())
    } else {
        s
    }
}

/// `s` without leading and trailing whitespace.
pub open spec fn trimmed(s: Seq<char>) -> Seq<char> {
    trimmed_end(skip_spaces(s))
}

/// Position of the first `c` in `s`, or `s.len()` when `s` holds none.
pub open spec fn index_of(s: Seq<char>, c: char) -> int
    decreases s.len(),
{
    if s.len() == 0 || s[0] == c {
        0
    } else {
        1 + index_of(s.drop_first(), c)
    }
}

/// The pieces of `s` between occurrences of `c`; never empty.
pub open spec fn split_on(s: Seq<char>, c: char) -> Seq<Seq<char>>
    decreases s.len(),
{
    let k = index_of(s, c);
    if 0 <= k < s.len() {
        seq![s.subrange(0, k)] + split_on(s.subrange(k + 1, s.len() as int), c)
    } else {
        seq![s]
    }
}

/// Whether `s` begins with `p`.
pub open spec fn has_prefix(s: Seq<char>, p: Seq<char>) -> bool {
    p.len() <= s.len() && s.subrange(0, p.len() as int) == p
}

/// Whether `p` stands somewhere in `s`.
pub open spec fn contains_text(s: Seq<char>, p: Seq<char>) -> bool {
    exists|k: int| 0 <= k && k + p.len() <= s.len() && #[trigger] s.subrange(k, k + p.len()) == p
}

/// The views of the rows of `rows`, in order.
pub open spec fn rows_view(rows: Seq<Vec<char>>) -> Seq<Seq<char>> {
    Seq::new(rows.len(), |i: int| rows[i]@)
}

/// `index_of` stays within the text, is preceded by no `c`, and holds a `c`
/// unless it is the end.
pub proof fn lemma_index_of_bounds(s: Seq<char>, c: char)
    ensures
        0 <= index_of(s, c) <= s.len(),
        forall|j: int| 0 <= j < index_of(s, c) ==> s[j] != c,
        index_of(s, c) < s.len() ==> s[index_of(s, c)] == c,
    decreases s.len(),
{
    if s.len() == 0 || s[0] == c {
    } else {
        let t = s.drop_first();
        lemma_index_of_bounds(t, c);
        assert forall|j: int| 0 <= j < index_of(s, c) implies s[j] != c by {
            if j > 0 {
                assert(s[j] == t[j - 1]);
            }
        }
        if index_of(t, c) < t.len() {
            assert(t[index_of(t, c)] == s[index_of(t, c) + 1]);
        }
    }
}

/// `index_of` is the only position that is preceded by no `c` and holds one
/// (or is the end).
pub proof fn lemma_index_of_unique(s: Seq<char>, c: char, k: int)
    requires
        0 <= k <= s.len(),
        forall|j: int| 0 <= j < k ==> s[j] != c,
        k < s.len() ==> s[k] == c,
    ensures
        index_of(s, c) == k,
{
    lemma_index_of_bounds(s, c);
    let i = index_of(s, c);
    if i < k {
        assert(s[i] != c);
    } else if k < i {
        assert(s[k] != c);
    }
}

/// Leading whitespace up to position `k` does not matter to `skip_spaces`.
pub proof fn lemma_skip_spaces_suffix(s: Seq<char>, k: int)
    requires
        0 <= k <= s.len(),
        forall|j: int| 0 <= j < k ==> is_space(s[j]),
    ensures
        skip_spaces(s) == skip_spaces(s.subrange(k, s.len() as int)),
    decreases k,
{
    if k == 0 {
        assert(s.subrange(0, s.len() as int) =~= s);
    } else {
        let t = s.drop_first();
        assert forall|j: int| 0 <= j < k - 1 implies is_space(t[j]) by {
            assert(t[j] == s[j + 1]);
        }
        lemma_skip_spaces_suffix(t, k - 1);
        assert(t.subrange(k - 1, t.len() as int) =~= s.subrange(k, s.len() as int));
    }
}

/// Trailing whitespace from position `k` on does not matter to
/// `trimmed_end`.
pub proof fn lemma_trimmed_end_prefix(s: Seq<char>, k: int)
    requires
        0 <= k <= s.len(),
        forall|j: int| k <= j < s.len() ==> is_space(s[j]),
    ensures
        trimmed_end(s) == trimmed_end(s.subrange(0, k)),
    decreases s.len() - k,
{
    if k == s.len() {
        assert(s.subrange(0, k) =~= s);
    } else {
        let t = s.drop_last();
        lemma_trimmed_end_prefix(t, k);
        assert(t.subrange(0, k) =~= s.subrange(0, k));
    }
}

/// `trimmed_end` gives a prefix of the text, and one that does not end in
/// whitespace.
pub proof fn lemma_trimmed_end_prefix_of(s: Seq<char>)
    ensures
        trimmed_end(s).len() <= s.len(),
        trimmed_end(s) == s.subrange(0, trimmed_end(s).len() as int),
        trimmed_end(s).len() > 0 ==> !is_space(trimmed_end(s).last()),
    decreases s.len(),
{
    if s.len() > 0 && is_space(s.last()) {
        let t = s.drop_last();
        lemma_trimmed_end_prefix_of(t);
        assert(t.subrange(0, trimmed_end(t).len() as int) =~= s.subrange(
            0,
            trimmed_end(t).len() as int,
        ));
    } else {
        assert(s.subrange(0, s.len() as int) =~= s);
    }
}

/// A trimmed row is empty or ends in something other than whitespace.
pub proof fn lemma_trimmed_last(s: Seq<char>)
    ensures
        trimmed(s).len() > 0 ==> !is_space(trimmed(s).last()),
{
    lemma_trimmed_end_prefix_of(skip_spaces(s));
}

/// A text with only whitespace before position `k`, and none at `k`, trims
/// to something that starts with the character at `k`.
pub proof fn lemma_trimmed_first(s: Seq<char>, k: int)
    requires
        0 <= k < s.len(),
        forall|j: int| 0 <= j < k ==> is_space(s[j]),
        !is_space(s[k]),
    ensures
        trimmed(s).len() > 0,
        trimmed(s)[0] == s[k],
{
    lemma_skip_spaces_suffix(s, k);
    let t = s.subrange(k, s.len() as int);
    assert(t[0] == s[k]);
    assert(skip_spaces(t) == t);
    lemma_trimmed_end_prefix_of(t);
    lemma_trimmed_end_nonempty(t);
}

/// A text that starts with something other than whitespace does not trim to
/// nothing.
pub proof fn lemma_trimmed_end_nonempty(t: Seq<char>)
    requires
        t.len() > 0,
        !is_space(t[0]),
    ensures
        trimmed_end(t).len() > 0,
    decreases t.len(),
{
    if is_space(t.last()) {
        assert(t.len() > 1);
        lemma_trimmed_end_nonempty(t.drop_last());
    }
}

/// A row that neither starts nor ends with whitespace trims to itself.
pub proof fn lemma_trimmed_self(s: Seq<char>)
    requires
        s.len() > 0,
        !is_space(s[0]),
        !is_space(s.last()),
    ensures
        trimmed(s) == s,
{
}

/// Splitting a text that holds no `c` leaves the text as the only piece.
pub proof fn lemma_split_whole(s: Seq<char>, c: char)
    requires
        !(index_of(s, c) < s.len()),
    ensures
        split_on(s, c) == seq![s],
{
    lemma_index_of_bounds(s, c);
}

/// Splitting `a`, then `c`, then `b` gives the pieces of `a` followed by
/// the pieces of `b`.
pub proof fn lemma_split_concat(a: Seq<char>, b: Seq<char>, c: char)
    ensures
        split_on(a + seq![c] + b, c) == split_on(a, c) + split_on(b, c),
    decreases a.len(),
{
    let s = a + seq![c] + b;
    let k = index_of(a, c);
    lemma_index_of_bounds(a, c);
    lemma_index_of_unique(s, c, k);
    if k < a.len() {
        let rest = a.subrange(k + 1, a.len() as int);
        lemma_split_concat(rest, b, c);
        assert(s.subrange(0, k) =~= a.subrange(0, k));
        assert(s.subrange(k + 1, s.len() as int) =~= rest + seq![c] + b);
        assert(seq![a.subrange(0, k)] + (split_on(rest, c) + split_on(b, c)) =~= (seq![
            a.subrange(0, k),
        ] + split_on(rest, c)) + split_on(b, c));
    } else {
        assert(s.subrange(0, k) =~= a);
        assert(s.subrange(k + 1, s.len() as int) =~= b);
    }
}

/// Executable form of `is_space`.
pub fn is_whitespace(c: char) -> (r: bool)
    ensures
        r == is_space(c),
{
    let n: u32 = c as u32;
    (0x09 <= n && n <= 0x0d) || n == 0x20 || n == 0x85 || n == 0xa0 || n == 0x1680 || (0x2000 <= n
        && n <= 0x200a) || n == 0x2028 || n == 0x2029 || n == 0x202f || n == 0x205f || n
        == 0x3000
}

/// The characters of `s`.
pub fn chars_of(s: &str) -> (v: Vec<char>)
    ensures
        v@ == s@,
{
    broadcast use vstd::string::group_string_axioms;

    let mut v: Vec<char> = Vec::new();
    for c in it: s.chars()
        invariant
            it.seq() == s@,
            v@ == s@.subrange(0, it.index() as int),
    {
        v.push(c);
        assert(v@ =~= s@.subrange(0, it.index() + 1));
    }
    assert(s@.subrange(0, s@.len() as int) =~= s@);
    v
}

/// `String::push`: the string grows by exactly the one character.
#[verifier::external_body]
fn push_char(s: &mut String, c: char)
    ensures
        final(s)@ == old(s)@.push(c),
{
    s.push(c)
}

/// The string made of the characters `v[from..to]`.
pub fn string_of(v: &Vec<char>, from: usize, to: usize) -> (s: String)
    requires
        from <= to <= v.len(),
    ensures
        s@ == v@.subrange(from as int, to as int),
{
    let mut s = String::new();
    let mut i: usize = from;
    while i < to
        invariant
            from <= i <= to,
            to <= v.len(),
            s@ == v@.subrange(from as int, i as int),
        decreases to - i,
    {
        push_char(&mut s, v[i]);
        i += 1;
        assert(s@ =~= v@.subrange(from as int, i as int));
    }
    s
}

/// Bounds `(a, b)` of `v` without its leading and trailing whitespace.
pub fn trim_bounds(v: &Vec<char>) -> (r: (usize, usize))
    ensures
        r.0 <= r.1 <= v.len(),
        v@.subrange(r.0 as int, r.1 as int) == trimmed(v@),
{
    let n: usize = v.len();
    let mut a: usize = 0;
    while a < n && is_whitespace(v[a])
        invariant
            a <= n,
            n == v.len(),
            forall|j: int| 0 <= j < a ==> is_space(v@[j]),
        decreases n - a,
    {
        a += 1;
    }
    let ghost rest = v@.subrange(a as int, n as int);
    proof {
        lemma_skip_spaces_suffix(v@, a as int);
        assert(skip_spaces(rest) == rest);
    }
    let mut b: usize = n;
    while b > a && is_whitespace(v[b - 1])
        invariant
            a <= b <= n,
            n == v.len(),
            rest == v@.subrange(a as int, n as int),
            forall|j: int| b - a <= j < rest.len() ==> is_space(rest[j]),
        decreases b,
    {
        b -= 1;
    }
    proof {
        lemma_trimmed_end_prefix(rest, b - a);
        let core = rest.subrange(0, b - a);
        assert(core =~= v@.subrange(a as int, b as int));
        assert(trimmed_end(core) == core) by {
            if core.len() > 0 {
                assert(core.last() == v@[b - 1]);
            }
        }
    }
    (a, b)
}

/// Whether `v[from..to]` equals `w`.
pub fn range_eq(v: &Vec<char>, from: usize, to: usize, w: &Vec<char>) -> (r: bool)
    requires
        from <= to <= v.len(),
    ensures
        r == (v@.subrange(from as int, to as int) == w@),
{
    let ghost part = v@.subrange(from as int, to as int);
    if to - from != w.len() {
        return false;
    }
    let mut i: usize = 0;
    while i < w.len()
        invariant
            from <= to <= v.len(),
            to - from == w.len(),
            i <= w.len(),
            part == v@.subrange(from as int, to as int),
            forall|j: int| 0 <= j < i ==> part[j] == w@[j],
        decreases w.len() - i,
    {
        if v[from + i] != w[i] {
            assert(part[i as int] != w@[i as int]);
            return false;
        }
        i += 1;
    }
    assert(part =~= w@);
    true
}

/// Whether `line` starts with `prefix`.
pub fn starts_with(line: &Vec<char>, prefix: &Vec<char>) -> (r: bool)
    ensures
        r == has_prefix(line@, prefix@),
{
    if prefix.len() > line.len() {
        return false;
    }
    range_eq(line, 0, prefix.len(), prefix)
}

/// Whether `pattern` stands somewhere in `v`.
pub fn has_text(v: &Vec<char>, pattern: &Vec<char>) -> (r: bool)
    ensures
        r == contains_text(v@, pattern@),
{
    let n: usize = v.len();
    let m: usize = pattern.len();
    if m > n {
        return false;
    }
    let mut k: usize = 0;
    loop
        invariant
            m <= n,
            n == v.len(),
            m == pattern.len(),
            k <= n - m,
            forall|j: int| 0 <= j < k ==> #[trigger] v@.subrange(j, j + m) != pattern@,
        decreases n - m - k,
    {
        if range_eq(v, k, k + m, pattern) {
            return true;
        }
        if k == n - m {
            return false;
        }
        k += 1;
    }
}

/// First position at or after `from` where `v` holds `c`, or `v.len()`.
pub fn find_char(v: &Vec<char>, from: usize, c: char) -> (k: usize)
    requires
        from <= v.len(),
    ensures
        from <= k <= v.len(),
        k - from == index_of(v@.subrange(from as int, v.len() as int), c),
{
    let n: usize = v.len();
    let mut k: usize = from;
    while k < n && v[k] != c
        invariant
            from <= k <= n,
            n == v.len(),
            forall|j: int| from <= j < k ==> v@[j] != c,
        decreases n - k,
    {
        k += 1;
    }
    proof {
        lemma_index_of_unique(v@.subrange(from as int, n as int), c, k - from);
    }
    k
}

/// A copy of `v[from..to]`.
pub fn copy_range(v: &Vec<char>, from: usize, to: usize) -> (w: Vec<char>)
    requires
        from <= to <= v.len(),
    ensures
        w@ == v@.subrange(from as int, to as int),
{
    let mut w: Vec<char> = Vec::new();
    let mut i: usize = from;
    while i < to
        invariant
            from <= i <= to,
            to <= v.len(),
            w@ == v@.subrange(from as int, i as int),
        decreases to - i,
    {
        w.push(v[i]);
        i += 1;
        assert(w@ =~= v@.subrange(from as int, i as int));
    }
    w
}

/// The pieces of `v[from..]` between occurrences of `c`.
pub fn split_from(v: &Vec<char>, from: usize, c: char) -> (parts: Vec<Vec<char>>)
    requires
        from <= v.len(),
    ensures
        rows_view(parts@) == split_on(v@.subrange(from as int, v.len() as int), c),
{
    let n: usize = v.len();
    let ghost whole = v@.subrange(from as int, n as int);
    let mut parts: Vec<Vec<char>> = Vec::new();
    let mut start: usize = from;
    loop
        invariant
            from <= start <= n,
            n == v.len(),
            whole == v@.subrange(from as int, n as int),
            split_on(whole, c) == rows_view(parts@) + split_on(
                v@.subrange(start as int, n as int),
                c,
            ),
        decreases n - start,
    {
        let ghost rest = v@.subrange(start as int, n as int);
        let k: usize = find_char(v, start, c);
        let piece = copy_range(v, start, k);
        let ghost before = rows_view(parts@);
        parts.push(piece);
        proof {
            lemma_index_of_bounds(rest, c);
            assert(rest.subrange(0, k - start) =~= v@.subrange(start as int, k as int));
            assert(rows_view(parts@) =~= before + seq![rest.subrange(0, k - start)]);
        }
        if k == n {
            proof {
                assert(rest.subrange(0, rest.len() as int) =~= rest);
                assert(split_on(rest, c) == seq![rest]);
            }
            return parts;
        }
        proof {
            assert(rest.subrange(k - start + 1, rest.len() as int) =~= v@.subrange(
                k + 1,
                n as int,
            ));
            assert(before + (seq![rest.subrange(0, k - start)] + split_on(
                v@.subrange(k + 1, n as int),
                c,
            )) =~= rows_view(parts@) + split_on(v@.subrange(k + 1, n as int), c));
        }
        start = k + 1;
    }
}

} // verus!
