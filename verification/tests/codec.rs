use cgu::gitconfig::GitConfig;

#[test]
fn empty_config_serializes_to_empty_text() {
    let c = GitConfig::new();
    assert_eq!(c.to_config_string(), "");
}

#[test]
fn one_section_exact_text() {
    let mut c = GitConfig::new();
    c.new_entry("user", "name", "alice");
    assert_eq!(c.to_config_string(), "[user]\nname = alice\n\n");
}

#[test]
fn two_sections_exact_text() {
    let mut c = GitConfig::new();
    c.new_entry("user", "name", "alice");
    c.new_entry("user", "email", "alice@example.com");
    c.new_entry("core", "editor", "vi");
    assert_eq!(
        c.to_config_string(),
        "[user]\nname = alice\nemail = alice@example.com\n\n[core]\neditor = vi\n\n"
    );
}

#[test]
fn new_entry_overwrites_existing_key() {
    let mut c = GitConfig::new();
    c.new_entry("user", "name", "alice");
    c.new_entry("user", "name", "bob");
    assert_eq!(c.sections.len(), 1);
    assert_eq!(c.sections[0].entries.len(), 1);
    assert_eq!(c.sections[0].entries[0].value, "bob");
}

#[test]
fn comments_and_blanks_parse_to_nothing() {
    let c = GitConfig::from_config_string("# a comment\n\n   \n\t# another # one\n");
    assert_eq!(c.sections.len(), 0);
}

#[test]
fn section_without_body() {
    let c = GitConfig::from_config_string("[foo]\n");
    assert_eq!(c.sections.len(), 1);
    assert_eq!(c.sections[0].name, "foo");
    assert_eq!(c.sections[0].entries.len(), 0);
}

#[test]
fn key_before_section_is_dropped() {
    let c = GitConfig::from_config_string("a = b\n[foo]\nc = d\n");
    assert_eq!(c.sections.len(), 1);
    assert_eq!(c.sections[0].name, "foo");
    assert_eq!(c.sections[0].entries.len(), 1);
    assert_eq!(c.sections[0].entries[0].key, "c");
    assert_eq!(c.sections[0].entries[0].value, "d");
}

#[test]
fn parse_trims_lines_and_sides() {
    let c = GitConfig::from_config_string("  [user]  \n   name =  alice  \n");
    assert_eq!(c.sections.len(), 1);
    assert_eq!(c.sections[0].name, "user");
    assert_eq!(c.sections[0].entries[0].key, "name");
    assert_eq!(c.sections[0].entries[0].value, "alice");
}

#[test]
fn parse_reopens_existing_section() {
    let c = GitConfig::from_config_string("[a]\nx = 1\n[b]\ny = 2\n[a]\nz = 3\n");
    assert_eq!(c.sections.len(), 2);
    assert_eq!(c.sections[0].name, "a");
    assert_eq!(c.sections[0].entries.len(), 2);
    assert_eq!(c.sections[0].entries[1].key, "z");
    assert_eq!(c.sections[1].name, "b");
}

#[test]
fn parse_overwrites_duplicate_key() {
    let c = GitConfig::from_config_string("[a]\nx = 1\nx = 2\n");
    assert_eq!(c.sections[0].entries.len(), 1);
    assert_eq!(c.sections[0].entries[0].value, "2");
}

#[test]
fn parse_key_value_splits_at_first_eq() {
    let r = GitConfig::parse_key_value("a = b = c").unwrap();
    assert_eq!(r.0, "a");
    assert_eq!(r.1, "b = c");
}

#[test]
fn parse_key_value_without_eq_is_none() {
    assert!(GitConfig::parse_key_value("no separator here").is_none());
}

#[test]
fn parse_key_value_empty_value() {
    let r = GitConfig::parse_key_value("key =").unwrap();
    assert_eq!(r.0, "key");
    assert_eq!(r.1, "");
}

#[test]
fn round_trip_preserves_sections_and_entries() {
    let mut c = GitConfig::new();
    c.new_entry("user", "name", "alice");
    c.new_entry("user", "email", "alice@example.com");
    c.new_entry("core", "editor", "vi");
    c.new_entry("alias", "st", "status");
    let text = c.to_config_string();
    let back = GitConfig::from_config_string(&text);
    assert_eq!(back.sections.len(), c.sections.len());
    for (s, t) in c.sections.iter().zip(back.sections.iter()) {
        assert_eq!(s.name, t.name);
        assert_eq!(s.entries.len(), t.entries.len());
        for (e, f) in s.entries.iter().zip(t.entries.iter()) {
            assert_eq!(e.key, f.key);
            assert_eq!(e.value, f.value);
        }
    }
}

#[test]
fn round_trip_of_empty_section() {
    let text = "[empty]\n\n[user]\nname = x\n\n";
    let c = GitConfig::from_config_string(text);
    assert_eq!(c.sections.len(), 2);
    assert_eq!(c.sections[0].name, "empty");
    assert_eq!(c.sections[0].entries.len(), 0);
    assert_eq!(c.to_config_string(), text);
}
