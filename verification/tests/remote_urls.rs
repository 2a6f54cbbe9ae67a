use tilb::config::User;
use tilb::git::{parse_origin_url, remote_url};

fn pair(owner: &str, repo: &str) -> Option<(String, String)> {
    Some((owner.to_string(), repo.to_string()))
}

fn identity(name: &str, host: &str, use_https: bool) -> User {
    User {
        name: name.to_string(),
        email: format!("{}@example.com", name),
        git_host: host.to_string(),
        use_https,
    }
}

#[test]
fn ssh_remote_with_git_suffix_is_parsed() {
    assert_eq!(parse_origin_url("git@host-name:alice/repo.git"), pair("alice", "repo"));
}

#[test]
fn ssh_remote_with_one_segment_is_not_parsed() {
    assert_eq!(parse_origin_url("git@host-name:alice"), None);
}

#[test]
fn https_remote_is_parsed() {
    assert_eq!(parse_origin_url("https://example.com/alice/repo"), pair("alice", "repo"));
}

#[test]
fn https_remote_without_path_is_not_parsed() {
    assert_eq!(parse_origin_url("https://example.com"), None);
}

#[test]
fn https_remote_with_one_path_segment_takes_the_last_two_pieces() {
    assert_eq!(parse_origin_url("https://example.com/alice"), pair("example.com", "alice"));
}

#[test]
fn https_remote_with_deep_path_takes_the_last_two_pieces() {
    assert_eq!(parse_origin_url("https://example.com/group/alice/repo.git"), pair("alice", "repo"));
}

#[test]
fn surrounding_whitespace_and_git_suffix_are_dropped() {
    assert_eq!(parse_origin_url("  https://example.com/alice/repo.git\n"), pair("alice", "repo"));
    assert_eq!(parse_origin_url("git@github.com:alice/repo.git.git"), pair("alice", "repo"));
}

#[test]
fn ssh_remote_takes_the_first_two_pieces_behind_the_colon() {
    assert_eq!(parse_origin_url("git@github.com:alice/repo/extra"), pair("alice", "repo"));
}

#[test]
fn url_with_credentials_is_read_in_colon_form() {
    assert_eq!(parse_origin_url("https://bob@example.com/alice/repo"), pair("", ""));
}

#[test]
fn other_shapes_are_not_parsed() {
    assert_eq!(parse_origin_url(""), None);
    assert_eq!(parse_origin_url("alice/repo"), None);
    assert_eq!(parse_origin_url("example.com:alice/repo"), None);
    assert_eq!(parse_origin_url("user@example.com/alice/repo"), None);
}

#[test]
fn https_identity_gets_an_https_remote() {
    let user = identity("alice", "github.com", true);
    assert_eq!(remote_url(&user, "alice", "repo"), "https://github.com/alice/repo");
}

#[test]
fn ssh_identity_gets_a_remote_that_embeds_its_name() {
    let user = identity("bob", "github.com", false);
    assert_eq!(remote_url(&user, "alice", "repo"), "git@github.com-bob:alice/repo");
}

#[test]
fn https_remote_round_trips() {
    let user = identity("carol", "gitlab.com", true);
    let url = remote_url(&user, "alice", "repo");
    assert_eq!(parse_origin_url(&url), pair("alice", "repo"));
}

#[test]
fn ssh_remote_round_trips() {
    let user = identity("carol", "gitlab.com", false);
    let url = remote_url(&user, "alice", "repo");
    assert_eq!(parse_origin_url(&url), pair("alice", "repo"));
}
