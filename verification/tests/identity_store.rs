use tilb::config::{User, UsersConfig};

fn identity(name: &str, email: &str) -> User {
    User {
        name: name.to_string(),
        email: email.to_string(),
        git_host: "github.com".to_string(),
        use_https: false,
    }
}

#[test]
fn new_store_is_empty() {
    let config = UsersConfig::new();
    assert!(config.is_empty());
    assert_eq!(config.len(), 0);
    assert!(config.get("alice").is_none());
}

#[test]
fn stored_identity_is_found_by_name() {
    let mut config = UsersConfig::new();
    config.insert(identity("alice", "a@example.com"));
    config.insert(identity("bob", "b@example.com"));
    assert_eq!(config.len(), 2);
    assert_eq!(config.find("alice"), 0);
    assert_eq!(config.find("bob"), 1);
    assert_eq!(config.find("carol"), 2);
    assert_eq!(config.get("bob").map(|u| u.email.as_str()), Some("b@example.com"));
    assert!(config.get("carol").is_none());
}

#[test]
fn storing_a_name_again_replaces_in_place() {
    let mut config = UsersConfig::new();
    config.insert(identity("alice", "a@example.com"));
    config.insert(identity("bob", "b@example.com"));
    config.insert(identity("alice", "new@example.com"));
    assert_eq!(config.len(), 2);
    assert_eq!(config.users[0].name, "alice");
    assert_eq!(config.users[0].email, "new@example.com");
    assert_eq!(config.users[1].name, "bob");
}

#[test]
fn removing_takes_out_only_the_named_identity() {
    let mut config = UsersConfig::new();
    config.insert(identity("alice", "a@example.com"));
    config.insert(identity("bob", "b@example.com"));
    config.insert(identity("carol", "c@example.com"));
    assert!(config.remove("bob"));
    assert!(!config.remove("bob"));
    assert_eq!(config.len(), 2);
    assert_eq!(config.users[0].name, "alice");
    assert_eq!(config.users[1].name, "carol");
    assert!(config.get("bob").is_none());
}
