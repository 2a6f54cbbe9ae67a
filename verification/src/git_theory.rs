//! Round trips between building a remote URL and reading it back.

use vstd::prelude::*;
use crate::git::{
    contains_char, ends_with_git, lemma_scheme_sep_is, parsed_origin, remote_url_text,
    scheme_sep_at, strip_git,
};
use crate::text::{
    is_space, lemma_index_of_bounds, lemma_index_of_unique, lemma_split_concat,
    lemma_split_whole, lemma_trimmed_self, split_on, trimmed,
};

verus! {

/// A repository name that survives the cleaning of a URL: it ends neither in
/// whitespace nor in `.git`, and holds no `/`.
pub open spec fn clean_repo(repo: Seq<char>) -> bool {
    &&& repo.len() == 0 || !is_space(repo.last())
    &&& !ends_with_git(repo)
    &&& !contains_char(repo, '/')
}

/// A text behind a `/` that does not end in `.git` keeps the whole from
/// ending in `.git`.
proof fn lemma_no_git_suffix(front: Seq<char>, repo: Seq<char>)
    requires
        !ends_with_git(repo),
    ensures
        !ends_with_git(front + seq!['/'] + repo),
{
    let s = front + seq!['/'] + repo;
    if ends_with_git(s) {
        let tail = s.subrange(s.len() - 4, s.len() as int);
        assert(tail[0] == '.' && tail[1] == 'g' && tail[2] == 'i' && tail[3] == 't');
        if repo.len() >= 4 {
            assert(repo.subrange(repo.len() - 4, repo.len() as int) =~= tail);
        } else {
            let slash = s.len() - 1 - repo.len();
            assert(s[slash] == '/');
            assert(tail[slash - (s.len() - 4)] == '/');
        }
    }
}

/// Round trip over HTTPS: the URL built for an identity that uses HTTPS
/// reads back as the owner and repository it was built from.
pub proof fn law_https_round_trip(
    git_host: Seq<char>,
    name: Seq<char>,
    owner: Seq<char>,
    repo: Seq<char>,
)
    requires
        !contains_char(git_host, '@'),
        !contains_char(owner, '@'),
        !contains_char(repo, '@'),
        !contains_char(owner, '/'),
        clean_repo(repo),
    ensures
        parsed_origin(remote_url_text(git_host, name, true, owner, repo)) == Some((owner, repo)),
{
    reveal_strlit("https://");
    reveal_strlit("/");
    let scheme = "https://"@;
    let url = remote_url_text(git_host, name, true, owner, repo);
    let path = git_host + seq!['/'] + owner + seq!['/'] + repo;
    assert("/"@ =~= seq!['/']);
    assert(url =~= scheme + path);
    assert(url =~= (scheme + git_host + seq!['/'] + owner) + seq!['/'] + repo);
    assert(url[0] == 'h');
    if repo.len() > 0 {
        assert(url.last() == repo.last());
    } else {
        assert(url.last() == '/');
    }
    lemma_trimmed_self(url);
    lemma_no_git_suffix(scheme + git_host + seq!['/'] + owner, repo);
    assert(strip_git(trimmed(url)) == url);
    lemma_index_of_bounds(git_host, '@');
    lemma_index_of_bounds(owner, '@');
    lemma_index_of_bounds(repo, '@');
    assert forall|j: int| 0 <= j < url.len() implies url[j] != '@' by {
        if j < 8 {
        } else if j < 8 + git_host.len() {
            assert(url[j] == git_host[j - 8]);
        } else if j == 8 + git_host.len() {
        } else if j < 9 + git_host.len() + owner.len() {
            assert(url[j] == owner[j - 9 - git_host.len()]);
        } else if j == 9 + git_host.len() + owner.len() {
        } else {
            assert(url[j] == repo[j - 10 - git_host.len() - owner.len()]);
        }
    }
    lemma_index_of_unique(url, '@', url.len() as int);
    assert(scheme_sep_at(url, 5));
    lemma_scheme_sep_is(url, 5);
    assert(url.subrange(8, url.len() as int) =~= path);
    lemma_split_concat(git_host + seq!['/'] + owner, repo, '/');
    lemma_split_concat(git_host, owner, '/');
    lemma_split_whole(owner, '/');
    lemma_split_whole(repo, '/');
    let parts = split_on(path, '/');
    assert(parts =~= split_on(git_host, '/') + seq![owner] + seq![repo]);
    assert(parts[parts.len() - 2] == owner);
    assert(parts[parts.len() - 1] == repo);
}

/// Round trip over SSH: the URL built for an identity that uses SSH reads
/// back as the owner and repository it was built from.
pub proof fn law_ssh_round_trip(
    git_host: Seq<char>,
    name: Seq<char>,
    owner: Seq<char>,
    repo: Seq<char>,
)
    requires
        !contains_char(git_host, ':'),
        !contains_char(name, ':'),
        !contains_char(owner, '/'),
        clean_repo(repo),
    ensures
        parsed_origin(remote_url_text(git_host, name, false, owner, repo)) == Some((owner, repo)),
{
    reveal_strlit("git@");
    reveal_strlit("/");
    reveal_strlit("-");
    reveal_strlit(":");
    let url = remote_url_text(git_host, name, false, owner, repo);
    let front = "git@"@ + git_host + seq!['-'] + name;
    let path = owner + seq!['/'] + repo;
    assert("/"@ =~= seq!['/']);
    assert("-"@ =~= seq!['-']);
    assert(":"@ =~= seq![':']);
    assert(url =~= front + seq![':'] + path);
    assert(url =~= (front + seq![':'] + owner) + seq!['/'] + repo);
    assert(url[0] == 'g');
    if repo.len() > 0 {
        assert(url.last() == repo.last());
    } else {
        assert(url.last() == '/');
    }
    lemma_trimmed_self(url);
    lemma_no_git_suffix(front + seq![':'] + owner, repo);
    assert(strip_git(trimmed(url)) == url);
    lemma_index_of_bounds(git_host, ':');
    lemma_index_of_bounds(name, ':');
    let colon = front.len() as int;
    assert forall|j: int| 0 <= j < colon implies url[j] != ':' by {
        if j < 4 {
        } else if j < 4 + git_host.len() {
            assert(url[j] == git_host[j - 4]);
        } else if j == 4 + git_host.len() {
        } else {
            assert(url[j] == name[j - 5 - git_host.len()]);
        }
    }
    assert(url[colon] == ':');
    lemma_index_of_unique(url, ':', colon);
    assert(url[3] == '@');
    lemma_index_of_bounds(url, '@');
    assert(contains_char(url, '@'));
    assert(url.subrange(colon + 1, url.len() as int) =~= path);
    lemma_split_concat(owner, repo, '/');
    lemma_split_whole(owner, '/');
    lemma_split_whole(repo, '/');
    let parts = split_on(path, '/');
    assert(parts =~= seq![owner, repo]);
}

} // verus!
