use portmap::hosts::parser::{HostEntry, HostsFile};
use portmap::hosts::manager::HostsManager;

const START: &str = "# portmap-start (DO NOT EDIT - managed by portmap)";

#[test]
fn test_parse_empty_hosts() {
    let content = "127.0.0.1\tlocalhost\n::1\tlocalhost\n";
    let hosts = HostsFile::parse(content);
    assert_eq!(hosts.before.len(), 2);
    assert!(hosts.entries.is_empty());
    assert!(hosts.after.is_empty());
}

#[test]
fn test_parse_with_sentinel_block() {
    let content = "\
127.0.0.1\tlocalhost
# portmap-start (DO NOT EDIT - managed by portmap)
127.0.0.1\tmy-project.localhost
127.0.0.1\tapi.localhost
# portmap-end
::1\tlocalhost
";
    let hosts = HostsFile::parse(content);
    assert_eq!(hosts.before, vec!["127.0.0.1\tlocalhost"]);
    assert_eq!(hosts.entries.len(), 2);
    assert_eq!(hosts.entries[0].domain, "my-project.localhost");
    assert_eq!(hosts.entries[1].domain, "api.localhost");
    assert_eq!(hosts.after, vec!["::1\tlocalhost"]);
}

#[test]
fn test_roundtrip() {
    let original = "127.0.0.1\tlocalhost\n::1\tlocalhost\n";
    let mut hosts = HostsFile::parse(original);
    hosts.add_entry("test.localhost", "127.0.0.1");
    let serialized = hosts.serialize();
    let reparsed = HostsFile::parse(&serialized);
    assert_eq!(reparsed.entries.len(), 1);
    assert_eq!(reparsed.entries[0].domain, "test.localhost");
    assert!(reparsed.before.iter().any(|l| l.contains("localhost")));
}

#[test]
fn test_add_duplicate() {
    let mut hosts = HostsFile::parse("");
    assert!(hosts.add_entry("test.localhost", "127.0.0.1"));
    assert!(!hosts.add_entry("test.localhost", "127.0.0.1"));
}

#[test]
fn test_remove_entry() {
    let mut hosts = HostsFile::parse("");
    hosts.add_entry("test.localhost", "127.0.0.1");
    hosts.add_entry("api.localhost", "127.0.0.1");
    assert!(hosts.remove_entry("test.localhost"));
    assert_eq!(hosts.entries.len(), 1);
    assert_eq!(hosts.entries[0].domain, "api.localhost");
}

#[test]
fn test_remove_all() {
    let mut hosts = HostsFile::parse("");
    hosts.add_entry("a.localhost", "127.0.0.1");
    hosts.add_entry("b.localhost", "127.0.0.1");
    hosts.remove_all();
    assert!(hosts.entries.is_empty());
    // Serializing with no entries should not include sentinel block
    let serialized = hosts.serialize();
    assert!(!serialized.contains("portmap-start"));
}

#[test]
fn test_roundtrip_preserves_before_and_after() {
    let content = format!(
        "127.0.0.1\tlocalhost\n{}\n127.0.0.1\ta.localhost\n# portmap-end\n::1\tlocalhost\n",
        START
    );
    let hosts = HostsFile::parse(&content);
    let reparsed = HostsFile::parse(&hosts.serialize());
    assert_eq!(reparsed.before, hosts.before);
    assert_eq!(reparsed.entries, hosts.entries);
    assert_eq!(reparsed.after, hosts.after);
}

#[test]
fn test_serialize_exact_output() {
    let mut hosts = HostsFile::parse("127.0.0.1\tlocalhost\n");
    hosts.add_entry("test.localhost", "127.0.0.1");
    let expected = format!(
        "127.0.0.1\tlocalhost\n{}\n127.0.0.1\ttest.localhost\n# portmap-end\n",
        START
    );
    assert_eq!(hosts.serialize(), expected);
}

#[test]
fn test_parse_lone_end_marker_fails_open() {
    let content = "# portmap-end\n127.0.0.1\tlocalhost\n";
    let hosts = HostsFile::parse(content);
    assert_eq!(hosts.before.len(), 2);
    assert!(hosts.entries.is_empty());
    assert!(hosts.after.is_empty());
}

#[test]
fn test_parse_end_before_start_fails_open() {
    let content = format!("# portmap-end\n{}\n127.0.0.1\ta.localhost\n", START);
    let hosts = HostsFile::parse(&content);
    assert_eq!(hosts.before.len(), 3);
    assert!(hosts.entries.is_empty());
}

#[test]
fn test_parse_skips_blanks_comments_and_short_lines() {
    let content = format!(
        "{}\n\n# a comment\nlonetoken\n127.0.0.1 spaced.localhost extra\n# portmap-end\n",
        START
    );
    let hosts = HostsFile::parse(&content);
    assert_eq!(
        hosts.entries,
        vec![HostEntry { ip: "127.0.0.1".to_string(), domain: "spaced.localhost".to_string() }]
    );
}

#[test]
fn test_parse_no_trailing_newline() {
    let hosts = HostsFile::parse("127.0.0.1\tlocalhost");
    assert_eq!(hosts.before, vec!["127.0.0.1\tlocalhost"]);
}

#[test]
fn test_remove_absent_domain_changes_nothing() {
    let mut hosts = HostsFile::parse("");
    hosts.add_entry("a.localhost", "127.0.0.1");
    assert!(!hosts.remove_entry("b.localhost"));
    assert_eq!(hosts.entries.len(), 1);
    assert_eq!(hosts.entries[0].domain, "a.localhost");
}

#[test]
fn test_manager_add_and_remove() {
    let manager = HostsManager::with_path("/tmp/hosts-test".to_string());
    let content = "127.0.0.1\tlocalhost\n";

    let after_add = manager.add_entry(content, "test.localhost").unwrap();
    assert!(after_add.contains("test.localhost"));
    assert!(after_add.contains("portmap-start"));

    // Duplicate yields no new content to write
    assert!(manager.add_entry(&after_add, "test.localhost").is_none());

    let after_remove = manager.remove_entry(&after_add, "test.localhost").unwrap();
    assert!(!after_remove.contains("test.localhost"));
    assert!(!after_remove.contains("portmap-start"));

    // Original content preserved
    assert!(after_remove.contains("127.0.0.1\tlocalhost"));
}

#[test]
fn test_manager_restore_all() {
    let manager = HostsManager::new();
    assert_eq!(manager.path().as_str(), "/etc/hosts");
    let content = "127.0.0.1\tlocalhost\n";
    let c1 = manager.add_entry(content, "a.localhost").unwrap();
    let c2 = manager.add_entry(&c1, "b.localhost").unwrap();
    let restored = manager.restore_all(&c2);
    assert!(!restored.contains("portmap-start"));
    assert!(!restored.contains("a.localhost"));
    assert!(restored.contains("127.0.0.1\tlocalhost"));
}

#[test]
fn test_cleanup_after_abrupt_termination_leaves_no_block() {
    // The fault paths run the same restore transform over whatever the file
    // held; afterwards no sentinel block remains on inspection.
    let manager = HostsManager::new();
    let content = "127.0.0.1\tlocalhost\n";
    let with_entry = manager.add_entry(content, "x.localhost").unwrap();
    assert!(with_entry.contains("portmap-start"));
    let cleaned = manager.restore_all(&with_entry);
    assert!(!cleaned.contains("portmap-start"));
    assert!(!cleaned.contains("portmap-end"));
    assert!(!cleaned.contains("x.localhost"));
    // Running cleanup again changes nothing
    assert_eq!(manager.restore_all(&cleaned), cleaned);
}
