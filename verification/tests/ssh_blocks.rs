use tilb::ssh::{add_to_ssh_config, remove_from_ssh_config};

const ALICE: &str = "#tilb generated\nHost tilb-alice\n  HostName github.com\n  User alice\n  IdentityFile /home/u/.ssh/tilb/id_alice_ed25519\n";

#[test]
fn upsert_into_empty_text_writes_the_block_alone() {
    let out = add_to_ssh_config("", "tilb-x", "github.com", "x", "/home/u/.ssh/tilb/id_x_ed25519");
    assert_eq!(
        out,
        "#tilb generated\nHost tilb-x\n  HostName github.com\n  User x\n  IdentityFile /home/u/.ssh/tilb/id_x_ed25519\n"
    );
}

#[test]
fn upsert_into_other_text_appends_behind_a_blank_line() {
    let out = add_to_ssh_config("Host work\n  User me\n", "tilb-x", "github.com", "x", "/k");
    assert_eq!(
        out,
        "Host work\n  User me\n\n#tilb generated\nHost tilb-x\n  HostName github.com\n  User x\n  IdentityFile /k\n"
    );
}

#[test]
fn upsert_twice_changes_nothing_the_second_time() {
    let once = add_to_ssh_config("Host work\n  User me\n", "tilb-x", "github.com", "x", "/k");
    let twice = add_to_ssh_config(&once, "tilb-x", "github.com", "x", "/k");
    assert_eq!(once, twice);
}

#[test]
fn upsert_with_new_values_replaces_in_place() {
    let start = format!("# mine\n{}Host work\n  User me\n", ALICE);
    let out = add_to_ssh_config(&start, "tilb-alice", "gitlab.com", "al", "/new");
    assert_eq!(
        out,
        "# mine\n#tilb generated\nHost tilb-alice\n  HostName gitlab.com\n  User al\n  IdentityFile /new\nHost work\n  User me\n"
    );
    assert_eq!(out.matches("Host tilb-alice").count(), 1);
}

#[test]
fn upsert_for_one_alias_spares_the_block_of_another() {
    let out = add_to_ssh_config(ALICE, "tilb-bob", "github.com", "bob", "/b");
    assert_eq!(
        out,
        format!("{}\n#tilb generated\nHost tilb-bob\n  HostName github.com\n  User bob\n  IdentityFile /b\n", ALICE)
    );
    let again = add_to_ssh_config(&out, "tilb-bob", "gitlab.com", "bob", "/b2");
    assert!(again.starts_with(ALICE));
    assert!(again.ends_with("Host tilb-bob\n  HostName gitlab.com\n  User bob\n  IdentityFile /b2\n"));
}

#[test]
fn the_first_of_two_blocks_for_one_alias_is_replaced() {
    let start = format!("{}{}", ALICE, ALICE);
    let out = add_to_ssh_config(&start, "tilb-alice", "h", "u", "/p");
    assert_eq!(
        out,
        format!("#tilb generated\nHost tilb-alice\n  HostName h\n  User u\n  IdentityFile /p\n{}", ALICE)
    );
}

#[test]
fn marker_without_host_line_is_left_alone() {
    let start = "#tilb generated\n# note\n";
    let out = add_to_ssh_config(start, "tilb-x", "h", "x", "/k");
    assert_eq!(
        out,
        "#tilb generated\n# note\n\n#tilb generated\nHost tilb-x\n  HostName h\n  User x\n  IdentityFile /k\n"
    );
    assert_eq!(remove_from_ssh_config(start, "tilb-x"), None);
    assert_eq!(remove_from_ssh_config("Host tilb-x\n#tilb generated", "tilb-x"), None);
}

#[test]
fn block_ends_at_a_hand_written_host_entry() {
    let start = format!("{}Host mine\n  User me\n", ALICE);
    assert_eq!(
        remove_from_ssh_config(&start, "tilb-alice"),
        Some("Host mine\n  User me\n".to_string())
    );
}

#[test]
fn block_runs_over_indented_and_comment_lines() {
    let start = format!("{}  Port 22\n# trailing note\n\n#tilb generated\nHost tilb-bob\n", ALICE);
    assert_eq!(
        remove_from_ssh_config(&start, "tilb-alice"),
        Some("#tilb generated\nHost tilb-bob\n".to_string())
    );
}

#[test]
fn removal_keeps_hand_written_lines_in_order() {
    let start = format!("# first\nHost a\n  User a\n\n{}Host b\n  User b\n# last\n", ALICE);
    assert_eq!(
        remove_from_ssh_config(&start, "tilb-alice"),
        Some("# first\nHost a\n  User a\n\nHost b\n  User b\n# last\n".to_string())
    );
}

#[test]
fn removal_collapses_trailing_blank_lines() {
    let start = format!("Host a\n  User a\n\n{}", ALICE);
    assert_eq!(
        remove_from_ssh_config(&start, "tilb-alice"),
        Some("Host a\n  User a\n".to_string())
    );
    assert_eq!(remove_from_ssh_config(ALICE, "tilb-alice"), Some("\n".to_string()));
}

#[test]
fn removal_without_a_block_has_nothing_to_do() {
    assert_eq!(remove_from_ssh_config("Host a\n  User a\n", "tilb-alice"), None);
    assert_eq!(remove_from_ssh_config("", "tilb-alice"), None);
    assert_eq!(remove_from_ssh_config(ALICE, "tilb-bob"), None);
}

#[test]
fn marker_and_host_line_are_found_with_surrounding_whitespace() {
    let start = "  #tilb generated \n\tHost tilb-x  \n  HostName old\n";
    let out = add_to_ssh_config(start, "tilb-x", "h", "x", "/k");
    assert_eq!(out, "#tilb generated\nHost tilb-x\n  HostName h\n  User x\n  IdentityFile /k\n");
}

#[test]
fn carriage_returns_before_line_feeds_are_dropped() {
    let start = "Host a\r\n  User a\r\n";
    let out = add_to_ssh_config(start, "tilb-x", "h", "x", "/k");
    assert_eq!(
        out,
        "Host a\n  User a\n\n#tilb generated\nHost tilb-x\n  HostName h\n  User x\n  IdentityFile /k\n"
    );
}

#[test]
fn text_without_final_line_feed_gets_one() {
    let out = add_to_ssh_config("Host a", "tilb-x", "h", "x", "/k");
    assert!(out.starts_with("Host a\n\n#tilb generated\n"));
    assert!(out.ends_with("IdentityFile /k\n"));
}

#[test]
fn carriage_return_without_line_feed_stays_in_its_row() {
    let out = add_to_ssh_config("Host a\r", "tilb-x", "h", "x", "/k");
    assert!(out.starts_with("Host a\r\n\n#tilb generated\n"));
    let out = add_to_ssh_config("Host a\r\r\n", "tilb-x", "h", "x", "/k");
    assert!(out.starts_with("Host a\r\n\n#tilb generated\n"));
}

#[test]
fn alias_that_ends_in_whitespace_is_never_found_again() {
    let once = add_to_ssh_config("", "tilb-x ", "h", "x", "/k");
    let twice = add_to_ssh_config(&once, "tilb-x ", "h", "x", "/k");
    assert_eq!(twice, format!("{}\n{}", once, once));
    assert_eq!(remove_from_ssh_config(&once, "tilb-x "), None);
}

#[test]
fn removal_after_upsert_restores_the_hand_written_text() {
    let start = "Host a\n  User a\n";
    let added = add_to_ssh_config(start, "tilb-x", "h", "x", "/k");
    assert_eq!(remove_from_ssh_config(&added, "tilb-x"), Some(start.to_string()));
}
