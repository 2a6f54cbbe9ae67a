//! The decisions behind the `add`, `remove` and `switch` commands: checks on
//! what the user typed, the names derived from an identity, and the remote
//! that a switch sets.

use vstd::prelude::*;
use vstd::string::*;
use crate::args::NewUserArgs;
use crate::config::User;
use crate::git::{contains_char, parse_origin_url, parsed_origin, remote_url, remote_url_text};
use crate::ssh_theory::well_formed_alias;
use crate::text::{
    chars_of, contains_text, find_char, has_prefix, has_text, index_of, is_space, range_eq,
    starts_with, string_of, trim_bounds, trimmed,
};

verus! {

/// Whether the regular expression `pattern` matches somewhere in `text`;
/// `None` where `pattern` is no regular expression.
pub uninterp spec fn pattern_match(pattern: Seq<char>, text: Seq<char>) -> Option<bool>;

/// The shape of an email address: something, `@`, something, a dot,
/// something, with neither `@` nor whitespace in any of the three.
pub open spec fn email_pattern() -> Seq<char> {
    "^[^@\\s]+@[^@\\s]+\\.[^@\\s]+$"@
}

/// `url` without a leading `https://` or `http://`.
pub open spec fn without_scheme(url: Seq<char>) -> Seq<char> {
    if has_prefix(url, "https://"@) {
        url.subrange("https://"@.len() as int, url.len() as int)
    } else if has_prefix(url, "http://"@) {
        url.subrange("http://"@.len() as int, url.len() as int)
    } else {
        url
    }
}

/// The domain that `url` names: what stands between the scheme, if any, and
/// the first `/`.
pub open spec fn domain_of(url: Seq<char>) -> Seq<char> {
    without_scheme(url).subrange(0, index_of(without_scheme(url), '/'))
}

/// Whether `domain` is one of the git hosting sites that are known.
pub open spec fn known_git_host(domain: Seq<char>) -> bool {
    ||| domain == "github.com"@
    ||| domain == "gitlab.com"@
    ||| domain == "bitbucket.org"@
    ||| domain == "gitea.io"@
    ||| domain == "codeberg.org"@
    ||| domain == "sr.ht"@
}

/// The SSH host alias of the identity `name`.
pub open spec fn host_alias_of(name: Seq<char>) -> Seq<char> {
    "tilb-"@ + name
}

/// The file name of the private key of the identity `name`.
pub open spec fn key_file_name_of(name: Seq<char>) -> Seq<char> {
    "id_"@ + name + "_ed25519"@
}

/// Whether `name` can be a repository name: not blank, and without spaces.
pub open spec fn valid_repo_name(name: Seq<char>) -> bool {
    trimmed(name).len() > 0 && !contains_char(name, ' ')
}

/// The text of the current origin, if there is one.
pub open spec fn origin_text(origin: Option<String>) -> Option<Seq<char>> {
    match origin {
        Some(url) => Some(url@),
        None => None,
    }
}

/// The remote that a switch sets: the owner and repository of the current
/// origin where it names them, else the asked repository under the
/// identity's own name.
pub open spec fn switch_target(
    git_host: Seq<char>,
    name: Seq<char>,
    use_https: bool,
    origin: Option<Seq<char>>,
    asked_repo: Seq<char>,
) -> Seq<char> {
    match origin {
        Some(url) => match parsed_origin(url) {
            Some((owner, repo)) => remote_url_text(git_host, name, use_https, owner, repo),
            None => remote_url_text(git_host, name, use_https, name, asked_repo),
        },
        None => remote_url_text(git_host, name, use_https, name, asked_repo),
    }
}

/// `Regex::new` followed by `Regex::is_match`: the answer depends on the
/// pattern and the text alone, and a pattern that does not compile gives
/// `None`.
#[verifier::external_body]
fn regex_is_match(pattern: &str, text: &str) -> (r: Option<bool>)
    ensures
        r == pattern_match(pattern@, text@),
{
    match regex::Regex::new(pattern) {
        Ok(re) => Some(re.is_match(text)),
        Err(_) => None,
    }
}

/// Whether `outcome`, the answer of the matcher, accepts the text.
pub fn accepted(outcome: Option<bool>) -> (r: bool)
    ensures
        r == (outcome == Some(true)),
{
    match outcome {
        Some(found) => found,
        None => false,
    }
}

/// Whether `email` looks like an email address. A basic check only.
pub fn is_reasonable_email(email: &str) -> (r: bool)
    ensures
        r == (pattern_match(email_pattern(), email@) == Some(true)),
{
    accepted(regex_is_match("^[^@\\s]+@[^@\\s]+\\.[^@\\s]+$", email))
}

/// The domain that `url` names. Always `Some`: a text without a `/` is its
/// own domain.
pub fn parse_domain_name(url: &str) -> (out: Option<String>)
    ensures
        out is Some,
        out->0@ == domain_of(url@),
{
    let v = chars_of(url);
    let secure = chars_of("https://");
    let plain = chars_of("http://");
    let from: usize = if starts_with(&v, &secure) {
        secure.len()
    } else if starts_with(&v, &plain) {
        plain.len()
    } else {
        0
    };
    let ghost rest = v@.subrange(from as int, v.len() as int);
    assert(v@.subrange(0, v.len() as int) =~= v@);
    assert(rest == without_scheme(url@));
    let k: usize = find_char(&v, from, '/');
    assert(rest.subrange(0, k - from) =~= v@.subrange(from as int, k as int));
    Some(string_of(&v, from, k))
}

/// Whether `text` is exactly the literal `name`.
fn is_text(text: &Vec<char>, name: &str) -> (r: bool)
    ensures
        r == (text@ == name@),
{
    let other = chars_of(name);
    assert(text@.subrange(0, text.len() as int) =~= text@);
    range_eq(text, 0, text.len(), &other)
}

/// Whether `url` names one of the git hosting sites that are known.
pub fn is_git_hosting_site(url: &str) -> (r: bool)
    ensures
        r == known_git_host(domain_of(url@)),
{
    match parse_domain_name(url) {
        Some(domain) => {
            let d = chars_of(domain.as_str());
            is_text(&d, "github.com") || is_text(&d, "gitlab.com") || is_text(&d, "bitbucket.org")
                || is_text(&d, "gitea.io") || is_text(&d, "codeberg.org") || is_text(&d, "sr.ht")
        },
        None => false,
    }
}

/// Whether `input` can be a passphrase: it holds no space.
pub fn passphrase_is_valid(input: &str) -> (r: bool)
    ensures
        r == !contains_char(input@, ' '),
{
    let v = chars_of(input);
    assert(v@.subrange(0, v.len() as int) =~= v@);
    find_char(&v, 0, ' ') == v.len()
}

/// Whether `input` can be a repository name.
pub fn repo_name_is_valid(input: &str) -> (r: bool)
    ensures
        r == valid_repo_name(input@),
{
    let v = chars_of(input);
    let (a, b) = trim_bounds(&v);
    assert(v@.subrange(0, v.len() as int) =~= v@);
    a < b && find_char(&v, 0, ' ') == v.len()
}

/// The SSH host alias under which the key of the identity `name` is reached.
/// Adding and removing an identity both go by this one alias.
pub fn host_alias(name: &str) -> (alias: String)
    ensures
        alias@ == host_alias_of(name@),
{
    let mut alias = String::from_str("tilb-");
    alias.append(name);
    alias
}

/// The alias of an identity whose name does not end in whitespace is one
/// that its `Host` line is found by.
pub proof fn law_host_alias_well_formed(name: Seq<char>)
    requires
        name.len() == 0 || !is_space(name.last()),
    ensures
        well_formed_alias(host_alias_of(name)),
{
    reveal_strlit("tilb-");
    let alias = host_alias_of(name);
    if name.len() == 0 {
        assert(alias.last() == '-');
    } else {
        assert(alias.last() == name.last());
    }
}

/// The file name of the private key of the identity `name`.
pub fn key_file_name(name: &str) -> (file: String)
    ensures
        file@ == key_file_name_of(name@),
{
    let mut file = String::from_str("id_");
    file.append(name);
    file.append("_ed25519");
    file
}

/// The identity that `add` stores for `args`, hosted at `domain`.
pub fn new_user(args: &NewUserArgs, domain: &str) -> (user: User)
    ensures
        user.name@ == args.user@,
        user.email@ == args.email@,
        user.git_host@ == domain@,
        user.use_https == args.use_https,
{
    User {
        name: args.user.clone(),
        email: args.email.clone(),
        git_host: String::from_str(domain),
        use_https: args.use_https,
    }
}

/// What `add` is going to do for its arguments, settled before anything is
/// asked or written.
#[derive(Debug)]
pub struct AddPlan {
    /// The email looks wrong: go on only if the user confirms.
    pub doubt_email: bool,
    /// The website is no known git hosting site: go on only if the user
    /// confirms.
    pub doubt_site: bool,
    /// The hosting domain to store with the identity.
    pub domain: String,
    /// The identity goes over SSH: it needs a key and a host block.
    pub needs_key: bool,
    /// The host alias of the identity's block.
    pub host_alias: String,
    /// The file name of the identity's private key.
    pub key_file: String,
}

/// The plan of `add` for `args`.
pub fn plan_add(args: &NewUserArgs) -> (plan: AddPlan)
    ensures
        plan.doubt_email == !(pattern_match(email_pattern(), args.email@) == Some(true)),
        plan.doubt_site == !known_git_host(domain_of(args.website@)),
        plan.domain@ == domain_of(args.website@),
        plan.needs_key == !args.use_https,
        plan.host_alias@ == host_alias_of(args.user@),
        plan.key_file@ == key_file_name_of(args.user@),
{
    AddPlan {
        doubt_email: !is_reasonable_email(args.email.as_str()),
        doubt_site: !is_git_hosting_site(args.website.as_str()),
        domain: parse_domain_name(args.website.as_str()).unwrap(),
        needs_key: !args.use_https,
        host_alias: host_alias(args.user.as_str()),
        key_file: key_file_name(args.user.as_str()),
    }
}

/// Whether a switch has to ask for the repository name: there is no origin
/// yet, or its URL names no owner and repository.
pub fn needs_repo_name(origin: &Option<String>) -> (r: bool)
    ensures
        r == match origin_text(*origin) {
            Some(url) => parsed_origin(url) is None,
            None => true,
        },
{
    match origin {
        Some(url) => parse_origin_url(url.as_str()).is_none(),
        None => true,
    }
}

/// The remote that a switch to `user` sets. Where the current origin names
/// an owner and a repository, they are kept; otherwise the repository is
/// `asked_repo`, owned by the identity itself.
pub fn switch_remote_url(user: &User, origin: &Option<String>, asked_repo: &str) -> (url: String)
    ensures
        url@ == switch_target(
            user.git_host@,
            user.name@,
            user.use_https,
            origin_text(*origin),
            asked_repo@,
        ),
{
    match origin {
        Some(current) => match parse_origin_url(current.as_str()) {
            Some((owner, repo)) => remote_url(user, owner.as_str(), repo.as_str()),
            None => remote_url(user, user.name.as_str(), asked_repo),
        },
        None => remote_url(user, user.name.as_str(), asked_repo),
    }
}

/// Whether `stderr`, what git printed when adding a remote failed, says that
/// the remote is there already, so that its URL is to be set instead.
pub fn remote_already_exists(stderr: &str) -> (r: bool)
    ensures
        r == contains_text(stderr@, "already exists"@),
{
    has_text(&chars_of(stderr), &chars_of("already exists"))
}

} // verus!
