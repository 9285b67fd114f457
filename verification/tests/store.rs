use cgu::config::{Config, InternalGitConfig};
use cgu::gitconfig::GitConfig;

fn store_with(names: &[&str]) -> Config {
    let mut c = Config::new();
    for n in names {
        c.add_profile(n.to_string(), GitConfig::new());
    }
    c
}

#[test]
fn fresh_store_is_empty() {
    let c = Config::new();
    assert!(c.active_config.is_none());
    assert_eq!(c.global_gitconfig_path, "~/.gitconfig");
    assert!(c.configs.is_empty());
}

#[test]
fn or_default_none_is_fresh_empty() {
    let c = Config::or_default(None);
    assert!(c.active_config.is_none());
    assert_eq!(c.global_gitconfig_path, "~/.gitconfig");
    assert!(c.configs.is_empty());
}

#[test]
fn or_default_some_is_the_loaded_store() {
    let mut c = store_with(&["work"]);
    c.active_config = Some(0);
    let r = Config::or_default(Some(c));
    assert_eq!(r.active_config, Some(0));
    assert_eq!(r.configs.len(), 1);
    assert_eq!(r.configs[0].name, "work");
}

#[test]
fn from_parts_clears_out_of_bounds_active() {
    let profiles = vec![InternalGitConfig::new("a".to_string(), 0, GitConfig::new())];
    let c = Config::from_parts(Some(5), "~/.gitconfig".to_string(), profiles);
    assert!(c.active_config.is_none());
    let profiles = vec![InternalGitConfig::new("a".to_string(), 0, GitConfig::new())];
    let c = Config::from_parts(Some(0), "~/.gitconfig".to_string(), profiles);
    assert_eq!(c.active_config, Some(0));
}

#[test]
fn add_profile_tags_with_count_before_insert() {
    let mut c = Config::new();
    let i0 = c.add_profile("a".to_string(), GitConfig::new());
    let i1 = c.add_profile("b".to_string(), GitConfig::new());
    assert_eq!(i0, 0);
    assert_eq!(i1, 1);
    assert_eq!(c.configs[0].index, 0);
    assert_eq!(c.configs[1].index, 1);
}

#[test]
fn find_by_name_first_match() {
    let c = store_with(&["work", "home", "work"]);
    assert_eq!(c.find_by_name(&"work".to_string()), Some(0));
    assert_eq!(c.find_by_name(&"home".to_string()), Some(1));
    assert_eq!(c.find_by_name(&"absent".to_string()), None);
}

#[test]
fn delete_then_list() {
    let mut c = store_with(&["work", "home"]);
    assert!(c.remove_by_name(&"work".to_string()));
    let listing = c.list();
    assert_eq!(listing.len(), 1);
    assert_eq!(listing[0].0, 0);
    assert_eq!(listing[0].1, "home");
}

#[test]
fn remove_by_name_absent_is_false() {
    let mut c = store_with(&["work"]);
    assert!(!c.remove_by_name(&"absent".to_string()));
    assert_eq!(c.configs.len(), 1);
}

#[test]
fn remove_shifts_active_down() {
    let mut c = store_with(&["a", "b", "c"]);
    c.active_config = Some(2);
    assert!(c.remove_by_name(&"a".to_string()));
    assert_eq!(c.active_config, Some(1));
}

#[test]
fn remove_of_last_active_clears_active() {
    let mut c = store_with(&["a", "b"]);
    c.active_config = Some(1);
    assert!(c.remove_by_name(&"b".to_string()));
    assert!(c.active_config.is_none());
}

#[test]
fn remove_of_active_keeps_index_when_in_bounds() {
    let mut c = store_with(&["a", "b"]);
    c.active_config = Some(0);
    assert!(c.remove_by_name(&"a".to_string()));
    assert_eq!(c.active_config, Some(0));
}

#[test]
fn listing_uses_positions_not_tags() {
    let mut c = store_with(&["a", "b", "c"]);
    c.remove_by_name(&"a".to_string());
    let listing = c.list();
    assert_eq!(listing.len(), 2);
    assert_eq!(listing[0], (0, "b".to_string()));
    assert_eq!(listing[1], (1, "c".to_string()));
}

#[test]
fn cycle_wraps_around() {
    let mut c = store_with(&["a", "b", "c"]);
    c.active_config = Some(2);
    let r = c.cycle_active_config();
    assert_eq!(r, Some(0));
    assert_eq!(c.active_config, Some(0));
}

#[test]
fn cycle_advances_by_one() {
    let mut c = store_with(&["a", "b", "c"]);
    c.active_config = Some(0);
    assert_eq!(c.cycle_active_config(), Some(1));
    assert_eq!(c.active_config, Some(1));
}

#[test]
fn cycle_single_active_profile_is_noop() {
    let mut c = store_with(&["only"]);
    c.active_config = Some(0);
    assert_eq!(c.cycle_active_config(), None);
    assert_eq!(c.active_config, Some(0));
}

#[test]
fn cycle_single_inactive_profile_activates_it() {
    let mut c = store_with(&["only"]);
    assert_eq!(c.cycle_active_config(), Some(0));
    assert_eq!(c.active_config, Some(0));
}

#[test]
fn cycle_with_no_profiles_is_noop() {
    let mut c = Config::new();
    assert_eq!(c.cycle_active_config(), None);
    assert!(c.active_config.is_none());
}

#[test]
fn first_cycle_activates_index_zero() {
    let mut c = store_with(&["a", "b"]);
    assert_eq!(c.cycle_active_config(), Some(0));
    assert_eq!(c.active_config, Some(0));
}

#[test]
fn backup_overwrites_active_profile_config() {
    let mut c = store_with(&["a", "b"]);
    c.active_config = Some(1);
    c.backup_active_config("[user]\nname = edited\n");
    assert_eq!(c.configs[1].git_config.sections.len(), 1);
    assert_eq!(c.configs[1].git_config.sections[0].name, "user");
    assert_eq!(c.configs[1].git_config.sections[0].entries[0].value, "edited");
    assert_eq!(c.configs[0].git_config.sections.len(), 0);
}

#[test]
fn backup_without_active_profile_changes_nothing() {
    let mut c = store_with(&["a"]);
    c.backup_active_config("[user]\nname = edited\n");
    assert_eq!(c.configs[0].git_config.sections.len(), 0);
}
