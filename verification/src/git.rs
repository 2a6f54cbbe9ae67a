//! Remote URLs: building the `origin` URL of an identity, and reading the
//! owner and repository name back out of an existing URL.

use vstd::prelude::*;
use vstd::string::*;
use crate::config::User;
use crate::text::{
    chars_of, copy_range, find_char, index_of, rows_view, split_from, split_on, string_of,
    trim_bounds, trimmed,
};

verus! {

/// The suffix that hosting sites accept behind a repository name.
pub open spec fn git_suffix() -> Seq<char> {
    seq!['.', 'g', 'i', 't']
}

/// Whether `s` ends with `.git`.
pub open spec fn ends_with_git(s: Seq<char>) -> bool {
    s.len() >= 4 && s.subrange(s.len() - 4, s.len() as int) == git_suffix()
}

/// `s` without any run of `.git` at its end.
pub open spec fn strip_git(s: Seq<char>) -> Seq<char>
    decreases s.len(),
{
    if ends_with_git(s) {
        strip_git(s.subrange(0, s.len() - 4))
    } else {
        s
    }
}

/// Whether `s` holds `c`.
pub open spec fn contains_char(s: Seq<char>, c: char) -> bool {
    index_of(s, c) < s.len()
}

/// Whether `://` stands at position `k` of `s`.
pub open spec fn scheme_sep_at(s: Seq<char>, k: int) -> bool {
    0 <= k && k + 3 <= s.len() && s[k] == ':' && s[k + 1] == '/' && s[k + 2] == '/'
}

/// The first position at or after `from` where `://` stands, or `s.len()`.
pub open spec fn scheme_sep_from(s: Seq<char>, from: int) -> int
    decreases s.len() - from,
{
    if from < 0 || from + 3 > s.len() {
        s.len() as int
    } else if scheme_sep_at(s, from) {
        from
    } else {
        scheme_sep_from(s, from + 1)
    }
}

/// The owner and repository that a cleaned remote URL names.
///
/// With both `@` and `:` in it, the URL is read as `user@host:owner/repo`:
/// the first two pieces behind the first colon. Otherwise, with `://` in it,
/// it is read as `scheme://host/owner/repo`: the last two pieces of what
/// follows the `://`. Anything else names nothing.
pub open spec fn coordinates_of(u: Seq<char>) -> Option<(Seq<char>, Seq<char>)> {
    if contains_char(u, ':') && contains_char(u, '@') {
        let parts = split_on(u.subrange(index_of(u, ':') + 1, u.len() as int), '/');
        if parts.len() >= 2 {
            Some((parts[0], parts[1]))
        } else {
            None
        }
    } else if scheme_sep_from(u, 0) < u.len() {
        let parts = split_on(u.subrange(scheme_sep_from(u, 0) + 3, u.len() as int), '/');
        if parts.len() >= 2 {
            Some((parts[parts.len() - 2], parts[parts.len() - 1]))
        } else {
            None
        }
    } else {
        None
    }
}

/// The owner and repository that `url` names, once surrounding whitespace
/// and a trailing `.git` are taken off.
pub open spec fn parsed_origin(url: Seq<char>) -> Option<(Seq<char>, Seq<char>)> {
    coordinates_of(strip_git(trimmed(url)))
}

/// The remote URL of an identity for a repository: over HTTPS the hosting
/// domain itself, over SSH the host alias that embeds the identity's name.
pub open spec fn remote_url_text(
    git_host: Seq<char>,
    name: Seq<char>,
    use_https: bool,
    owner: Seq<char>,
    repo: Seq<char>,
) -> Seq<char> {
    if use_https {
        "https://"@ + git_host + "/"@ + owner + "/"@ + repo
    } else {
        "git@"@ + git_host + "-"@ + name + ":"@ + owner + "/"@ + repo
    }
}

/// `scheme_sep_from` stays within the text, passes no `://`, and stands on one
/// unless it is the end.
pub proof fn lemma_scheme_sep_from(s: Seq<char>, from: int)
    requires
        0 <= from,
    ensures
        from <= scheme_sep_from(s, from) || scheme_sep_from(s, from) == s.len(),
        scheme_sep_from(s, from) <= s.len(),
        scheme_sep_from(s, from) < s.len() ==> scheme_sep_at(s, scheme_sep_from(s, from)),
        forall|j: int| from <= j < scheme_sep_from(s, from) ==> !scheme_sep_at(s, j),
    decreases s.len() - from,
{
    if from + 3 <= s.len() && !scheme_sep_at(s, from) {
        lemma_scheme_sep_from(s, from + 1);
    }
}

/// The first `://` is the only position that holds one and is preceded by
/// none.
pub proof fn lemma_scheme_sep_is(s: Seq<char>, k: int)
    requires
        0 <= k <= s.len(),
        forall|j: int| 0 <= j < k ==> !scheme_sep_at(s, j),
        k < s.len() ==> scheme_sep_at(s, k),
    ensures
        scheme_sep_from(s, 0) == k,
{
    lemma_scheme_sep_from(s, 0);
    let i = scheme_sep_from(s, 0);
    if i < k {
        assert(scheme_sep_at(s, i));
    } else if k < i {
        assert(!scheme_sep_at(s, k));
    }
}

/// The remote URL that switches the repository `owner/repo` to `user`.
pub fn remote_url(user: &User, owner: &str, repo: &str) -> (url: String)
    ensures
        url@ == remote_url_text(user.git_host@, user.name@, user.use_https, owner@, repo@),
{
    if user.use_https {
        let mut url = String::from_str("https://");
        url.append(user.git_host.as_str());
        url.append("/");
        url.append(owner);
        url.append("/");
        url.append(repo);
        url
    } else {
        let mut url = String::from_str("git@");
        url.append(user.git_host.as_str());
        url.append("-");
        url.append(user.name.as_str());
        url.append(":");
        url.append(owner);
        url.append("/");
        url.append(repo);
        url
    }
}

/// `v` without surrounding whitespace and without any `.git` at its end.
fn cleaned(v: &Vec<char>) -> (u: Vec<char>)
    ensures
        u@ == strip_git(trimmed(v@)),
{
    let (a, b) = trim_bounds(v);
    let t = copy_range(v, a, b);
    let mut n: usize = t.len();
    assert(t@.subrange(0, n as int) =~= t@);
    while n >= 4 && t[n - 4] == '.' && t[n - 3] == 'g' && t[n - 2] == 'i' && t[n - 1] == 't'
        invariant
            n <= t.len(),
            strip_git(t@) == strip_git(t@.subrange(0, n as int)),
        decreases n,
    {
        proof {
            let cur = t@.subrange(0, n as int);
            assert(cur.subrange(cur.len() - 4, cur.len() as int) =~= git_suffix());
            assert(cur.subrange(0, cur.len() - 4) =~= t@.subrange(0, n - 4));
        }
        n -= 4;
    }
    proof {
        let cur = t@.subrange(0, n as int);
        if ends_with_git(cur) {
            let tail = cur.subrange(cur.len() - 4, cur.len() as int);
            assert(tail[0] == '.' && tail[1] == 'g' && tail[2] == 'i' && tail[3] == 't');
            assert(false);
        }
    }
    copy_range(&t, 0, n)
}

/// The first position where `://` stands in `v`, or `v.len()`.
fn find_scheme_sep(v: &Vec<char>) -> (k: usize)
    ensures
        k == scheme_sep_from(v@, 0),
        k <= v.len(),
{
    let n: usize = v.len();
    let mut k: usize = 0;
    while k < n && n - k >= 3
        invariant
            n == v.len(),
            k <= n,
            forall|j: int| 0 <= j < k ==> !scheme_sep_at(v@, j),
        decreases n - k,
    {
        if v[k] == ':' && v[k + 1] == '/' && v[k + 2] == '/' {
            proof {
                lemma_scheme_sep_is(v@, k as int);
            }
            return k;
        }
        k += 1;
    }
    proof {
        assert forall|j: int| 0 <= j < n implies !scheme_sep_at(v@, j) by {}
        lemma_scheme_sep_is(v@, n as int);
    }
    n
}

/// The piece `parts[i]` as a string.
fn piece(parts: &Vec<Vec<char>>, i: usize) -> (s: String)
    requires
        i < parts.len(),
    ensures
        s@ == rows_view(parts@)[i as int],
{
    let s = string_of(&parts[i], 0, parts[i].len());
    assert(parts[i as int]@.subrange(0, parts[i as int]@.len() as int) =~= parts[i as int]@);
    s
}

/// The first two pieces of `u[from..]`.
fn leading_pair(u: &Vec<char>, from: usize) -> (out: Option<(String, String)>)
    requires
        from <= u.len(),
    ensures
        ({
            let parts = split_on(u@.subrange(from as int, u.len() as int), '/');
            match out {
                Some((o, r)) => parts.len() >= 2 && o@ == parts[0] && r@ == parts[1],
                None => parts.len() < 2,
            }
        }),
{
    let parts = split_from(u, from, '/');
    assert(rows_view(parts@).len() == parts.len());
    if parts.len() >= 2 {
        Some((piece(&parts, 0), piece(&parts, 1)))
    } else {
        None
    }
}

/// The last two pieces of `u[from..]`.
fn trailing_pair(u: &Vec<char>, from: usize) -> (out: Option<(String, String)>)
    requires
        from <= u.len(),
    ensures
        ({
            let parts = split_on(u@.subrange(from as int, u.len() as int), '/');
            match out {
                Some((o, r)) => parts.len() >= 2 && o@ == parts[parts.len() - 2] && r@
                    == parts[parts.len() - 1],
                None => parts.len() < 2,
            }
        }),
{
    let parts = split_from(u, from, '/');
    assert(rows_view(parts@).len() == parts.len());
    let m: usize = parts.len();
    if m >= 2 {
        Some((piece(&parts, m - 2), piece(&parts, m - 1)))
    } else {
        None
    }
}

/// The owner and repository that the cleaned URL `u` names.
fn coordinates(u: &Vec<char>) -> (out: Option<(String, String)>)
    ensures
        match (coordinates_of(u@), out) {
            (Some((owner, repo)), Some((o, r))) => o@ == owner && r@ == repo,
            (None, None) => true,
            _ => false,
        },
{
    let n: usize = u.len();
    let colon: usize = find_char(u, 0, ':');
    let at: usize = find_char(u, 0, '@');
    assert(u@.subrange(0, n as int) =~= u@);
    if colon < n && at < n {
        return leading_pair(u, colon + 1);
    }
    let sep: usize = find_scheme_sep(u);
    if sep < n {
        proof {
            lemma_scheme_sep_from(u@, 0);
        }
        return trailing_pair(u, sep + 3);
    }
    None
}

/// The owner and the repository name that the remote URL `url` names, or
/// `None` where it has neither of the two shapes that are understood.
pub fn parse_origin_url(url: &str) -> (out: Option<(String, String)>)
    ensures
        match (parsed_origin(url@), out) {
            (Some((owner, repo)), Some((o, r))) => o@ == owner && r@ == repo,
            (None, None) => true,
            _ => false,
        },
{
    let u = cleaned(&chars_of(url));
    coordinates(&u)
}

} // verus!
