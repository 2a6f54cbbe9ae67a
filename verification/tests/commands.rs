use tilb::args::NewUserArgs;
use tilb::config::User;
use tilb::ops::{
    host_alias, is_git_hosting_site, is_reasonable_email, key_file_name, needs_repo_name,
    new_user, plan_add, parse_domain_name, passphrase_is_valid, remote_already_exists, repo_name_is_valid,
    switch_remote_url,
};

#[test]
fn plausible_emails_are_accepted() {
    assert!(is_reasonable_email("alice@example.com"));
    assert!(is_reasonable_email("a.b+c@mail.example.org"));
}

#[test]
fn implausible_emails_are_refused() {
    assert!(!is_reasonable_email(""));
    assert!(!is_reasonable_email("alice"));
    assert!(!is_reasonable_email("alice@example"));
    assert!(!is_reasonable_email("alice@@example.com"));
    assert!(!is_reasonable_email("al ice@example.com"));
    assert!(!is_reasonable_email("alice@example.com\n"));
}

#[test]
fn domain_is_what_stands_before_the_first_slash() {
    assert_eq!(parse_domain_name("https://github.com/alice"), Some("github.com".to_string()));
    assert_eq!(parse_domain_name("http://gitlab.com"), Some("gitlab.com".to_string()));
    assert_eq!(parse_domain_name("codeberg.org/x/y"), Some("codeberg.org".to_string()));
    assert_eq!(parse_domain_name("github"), Some("github".to_string()));
    assert_eq!(parse_domain_name(""), Some(String::new()));
    assert_eq!(parse_domain_name("ftp://github.com"), Some("ftp:".to_string()));
}

#[test]
fn known_hosting_sites_are_recognised() {
    for site in ["github.com", "gitlab.com", "bitbucket.org", "gitea.io", "codeberg.org", "sr.ht"] {
        assert!(is_git_hosting_site(site));
        assert!(is_git_hosting_site(&format!("https://{}/some/path", site)));
    }
    assert!(!is_git_hosting_site("github"));
    assert!(!is_git_hosting_site("example.com"));
    assert!(!is_git_hosting_site("https://www.github.com"));
}

#[test]
fn passphrase_may_not_hold_a_space() {
    assert!(passphrase_is_valid(""));
    assert!(passphrase_is_valid("correct-horse"));
    assert!(!passphrase_is_valid("correct horse"));
}

#[test]
fn repo_name_may_not_be_blank_or_hold_a_space() {
    assert!(repo_name_is_valid("my-repo"));
    assert!(!repo_name_is_valid(""));
    assert!(!repo_name_is_valid("\t"));
    assert!(!repo_name_is_valid("my repo"));
    assert!(!repo_name_is_valid(" repo"));
}

#[test]
fn names_derived_from_an_identity() {
    assert_eq!(host_alias("alice"), "tilb-alice");
    assert_eq!(key_file_name("alice"), "id_alice_ed25519");
}

#[test]
fn stored_identity_takes_over_the_arguments() {
    let args = NewUserArgs {
        user: "alice".to_string(),
        email: "alice@example.com".to_string(),
        website: "https://github.com".to_string(),
        use_https: true,
    };
    let user = new_user(&args, "github.com");
    assert_eq!(user.name, "alice");
    assert_eq!(user.email, "alice@example.com");
    assert_eq!(user.git_host, "github.com");
    assert!(user.use_https);
}

#[test]
fn switch_keeps_the_coordinates_of_the_origin() {
    let user = User {
        name: "bob".to_string(),
        email: "bob@example.com".to_string(),
        git_host: "github.com".to_string(),
        use_https: false,
    };
    let origin = Some("https://github.com/alice/repo.git".to_string());
    assert!(!needs_repo_name(&origin));
    assert_eq!(switch_remote_url(&user, &origin, "unused"), "git@github.com-bob:alice/repo");
}

#[test]
fn switch_without_usable_origin_asks_for_the_repo() {
    let user = User {
        name: "bob".to_string(),
        email: "bob@example.com".to_string(),
        git_host: "github.com".to_string(),
        use_https: true,
    };
    assert!(needs_repo_name(&None));
    assert!(needs_repo_name(&Some("nonsense".to_string())));
    assert_eq!(switch_remote_url(&user, &None, "site"), "https://github.com/bob/site");
    assert_eq!(
        switch_remote_url(&user, &Some("nonsense".to_string()), "site"),
        "https://github.com/bob/site"
    );
}

#[test]
fn existing_remote_is_told_from_other_failures() {
    assert!(remote_already_exists("error: remote origin already exists.\n"));
    assert!(remote_already_exists("already exists"));
    assert!(!remote_already_exists("fatal: not a git repository"));
    assert!(!remote_already_exists("already exist"));
    assert!(!remote_already_exists(""));
}

#[test]
fn plan_for_an_ssh_identity_on_a_known_site() {
    let args = NewUserArgs {
        user: "alice".to_string(),
        email: "alice@example.com".to_string(),
        website: "https://github.com/alice".to_string(),
        use_https: false,
    };
    let plan = plan_add(&args);
    assert!(!plan.doubt_email);
    assert!(!plan.doubt_site);
    assert_eq!(plan.domain, "github.com");
    assert!(plan.needs_key);
    assert_eq!(plan.host_alias, "tilb-alice");
    assert_eq!(plan.key_file, "id_alice_ed25519");
}

#[test]
fn plan_for_doubtful_arguments_over_https() {
    let args = NewUserArgs {
        user: "bob".to_string(),
        email: "bob-at-example".to_string(),
        website: "github".to_string(),
        use_https: true,
    };
    let plan = plan_add(&args);
    assert!(plan.doubt_email);
    assert!(plan.doubt_site);
    assert_eq!(plan.domain, "github");
    assert!(!plan.needs_key);
}
