use jetporch::inventory::{InventoryError, InventoryStore};
use jetporch::loader::{add_group_document, add_group_vars, add_host_vars, GroupDocument};
use jetporch::vars::Variables;

fn s(x: &str) -> String {
    x.to_string()
}

fn doc(pairs: &[(&str, &str)]) -> Variables {
    let mut v = Variables::new();
    for (k, val) in pairs {
        v.set(s(k), s(val));
    }
    v
}

fn get(v: &Variables, key: &str) -> Option<String> {
    v.get(&s(key))
}

#[test]
fn new_store_holds_only_all() {
    let store = InventoryStore::new();
    assert!(store.group_exists(&s("all")));
    assert!(!store.group_exists(&s("web")));
    assert_eq!(store.list_hosts_in_group(&s("all"), true).unwrap().len(), 0);
}

#[test]
fn created_group_lies_under_all() {
    let mut store = InventoryStore::new();
    store.create_group(s("web")).unwrap();
    store.assign_host_to_group(s("web"), s("h1"));
    let under_all = store.list_hosts_in_group(&s("all"), true).unwrap();
    assert_eq!(under_all, vec![s("h1")]);
    assert_eq!(store.list_hosts_in_group(&s("all"), false).unwrap().len(), 0);
}

#[test]
fn duplicate_host_is_refused_without_change() {
    let mut store = InventoryStore::new();
    store.create_host(s("h1")).unwrap();
    store.assign_host_to_group(s("web"), s("h1"));
    let r = store.create_host(s("h1"));
    assert!(matches!(r, Err(InventoryError::HostExists(ref n)) if n == "h1"));
    assert_eq!(store.list_hosts_in_group(&s("web"), false).unwrap(), vec![s("h1")]);
    assert!(store.host_exists(&s("h1")));
}

#[test]
fn duplicate_group_is_refused_without_change() {
    let mut store = InventoryStore::new();
    store.assign_host_to_group(s("web"), s("h1"));
    let r = store.create_group(s("web"));
    assert!(matches!(r, Err(InventoryError::GroupExists(ref n)) if n == "web"));
    let r = store.create_group(s("all"));
    assert!(matches!(r, Err(InventoryError::GroupExists(ref n)) if n == "all"));
    assert_eq!(store.list_hosts_in_group(&s("web"), false).unwrap(), vec![s("h1")]);
}

#[test]
fn assign_then_list_and_repeat() {
    let mut store = InventoryStore::new();
    store.assign_host_to_group(s("web"), s("h1"));
    let first = store.list_hosts_in_group(&s("web"), false).unwrap();
    assert!(first.contains(&s("h1")));
    store.assign_host_to_group(s("web"), s("h1"));
    let second = store.list_hosts_in_group(&s("web"), false).unwrap();
    assert_eq!(first, second);
    assert_eq!(second.len(), 1);
}

#[test]
fn direct_listing_keeps_assignment_order() {
    let mut store = InventoryStore::new();
    store.assign_host_to_group(s("web"), s("b"));
    store.assign_host_to_group(s("web"), s("a"));
    store.assign_host_to_group(s("web"), s("c"));
    assert_eq!(store.list_hosts_in_group(&s("web"), false).unwrap(), vec![s("b"), s("a"), s("c")]);
}

#[test]
fn transitive_listing_has_no_duplicates() {
    let mut store = InventoryStore::new();
    store.assign_subgroup(s("web"), s("app")).unwrap();
    store.assign_host_to_group(s("web"), s("h1"));
    store.assign_host_to_group(s("app"), s("h1"));
    store.assign_host_to_group(s("app"), s("h2"));
    store.assign_host_to_group(s("db"), s("h3"));
    let direct = store.list_hosts_in_group(&s("web"), false).unwrap();
    assert_eq!(direct, vec![s("h1")]);
    let all = store.list_hosts_in_group(&s("web"), true).unwrap();
    assert_eq!(all, vec![s("h1"), s("h2")]);
    let everything = store.list_hosts_in_group(&s("all"), true).unwrap();
    assert_eq!(everything, vec![s("h1"), s("h2"), s("h3")]);
}

#[test]
fn subgroup_cycle_is_refused() {
    let mut store = InventoryStore::new();
    store.assign_subgroup(s("a"), s("b")).unwrap();
    store.assign_subgroup(s("b"), s("c")).unwrap();
    store.assign_host_to_group(s("c"), s("h"));
    let r = store.assign_subgroup(s("c"), s("a"));
    assert!(matches!(r, Err(InventoryError::WouldCycle { ref parent, ref child }) if parent == "c" && child == "a"));
    let r = store.assign_subgroup(s("a"), s("a"));
    assert!(matches!(r, Err(InventoryError::WouldCycle { .. })));
    let r = store.assign_subgroup(s("b"), s("all"));
    assert!(matches!(r, Err(InventoryError::WouldCycle { .. })));
    let r = store.assign_subgroup(s("new"), s("new"));
    assert!(matches!(r, Err(InventoryError::WouldCycle { .. })));
    assert!(store.group_exists(&s("new")));
    let r = store.assign_subgroup(s("fresh"), s("all"));
    assert!(matches!(r, Err(InventoryError::WouldCycle { .. })));
    assert!(store.assign_subgroup(s("c"), s("d")).is_ok());
    assert_eq!(store.list_hosts_in_group(&s("a"), true).unwrap(), vec![s("h")]);
    assert_eq!(store.list_hosts_in_group(&s("c"), true).unwrap(), vec![s("h")]);
}

#[test]
fn missing_entities_are_reported() {
    let mut store = InventoryStore::new();
    assert!(matches!(store.list_hosts_in_group(&s("nope"), true), Err(InventoryError::NoSuchGroup(_))));
    assert!(matches!(store.resolve_variables(&s("nope")), Err(InventoryError::NoSuchHost(_))));
    assert!(matches!(store.set_group_variables(&s("nope"), Variables::new()), Err(InventoryError::NoSuchGroup(_))));
    assert!(matches!(store.set_host_variables(&s("nope"), Variables::new()), Err(InventoryError::NoSuchHost(_))));
    assert!(!store.group_exists(&s("nope")));
}

#[test]
fn resolution_is_repeatable() {
    let mut store = InventoryStore::new();
    store.assign_host_to_group(s("web"), s("h1"));
    store.set_group_variables(&s("web"), doc(&[("a", "1"), ("b", "2")])).unwrap();
    store.set_host_variables(&s("h1"), doc(&[("c", "3")])).unwrap();
    let one = store.resolve_variables(&s("h1")).unwrap();
    let two = store.resolve_variables(&s("h1")).unwrap();
    assert_eq!(one.entries(), two.entries());
    assert_eq!(one.len(), 3);
}

#[test]
fn host_variable_beats_deep_group_variable() {
    let mut store = InventoryStore::new();
    store.assign_subgroup(s("web"), s("app")).unwrap();
    store.assign_subgroup(s("app"), s("api")).unwrap();
    store.assign_host_to_group(s("api"), s("h1"));
    store.set_group_variables(&s("api"), doc(&[("port", "1")])).unwrap();
    store.set_host_variables(&s("h1"), doc(&[("port", "2")])).unwrap();
    let v = store.resolve_variables(&s("h1")).unwrap();
    assert_eq!(get(&v, "port"), Some(s("2")));
}

#[test]
fn child_group_beats_parent_group() {
    let mut store = InventoryStore::new();
    // the child is created first, so creation order alone would put it first
    store.assign_host_to_group(s("app"), s("h1"));
    store.assign_subgroup(s("web"), s("app")).unwrap();
    store.set_group_variables(&s("all"), doc(&[("x", "all"), ("only_all", "yes")])).unwrap();
    store.set_group_variables(&s("web"), doc(&[("x", "web"), ("y", "web")])).unwrap();
    store.set_group_variables(&s("app"), doc(&[("x", "app")])).unwrap();
    let v = store.resolve_variables(&s("h1")).unwrap();
    assert_eq!(get(&v, "x"), Some(s("app")));
    assert_eq!(get(&v, "y"), Some(s("web")));
    assert_eq!(get(&v, "only_all"), Some(s("yes")));
}

#[test]
fn unrelated_groups_do_not_apply() {
    let mut store = InventoryStore::new();
    store.assign_host_to_group(s("web"), s("h1"));
    store.assign_host_to_group(s("db"), s("h2"));
    store.set_group_variables(&s("db"), doc(&[("x", "db")])).unwrap();
    let v = store.resolve_variables(&s("h1")).unwrap();
    assert_eq!(get(&v, "x"), None);
}

#[test]
fn sibling_groups_merge_by_group_number() {
    let mut store = InventoryStore::new();
    store.assign_host_to_group(s("first"), s("h1"));
    store.assign_host_to_group(s("second"), s("h1"));
    store.set_group_variables(&s("first"), doc(&[("x", "1")])).unwrap();
    store.set_group_variables(&s("second"), doc(&[("x", "2")])).unwrap();
    let v = store.resolve_variables(&s("h1")).unwrap();
    assert_eq!(get(&v, "x"), Some(s("2")));
}

#[test]
fn set_variables_replaces_wholesale() {
    let mut store = InventoryStore::new();
    store.assign_host_to_group(s("web"), s("h1"));
    store.set_group_variables(&s("web"), doc(&[("a", "1")])).unwrap();
    store.set_group_variables(&s("web"), doc(&[("b", "2")])).unwrap();
    let v = store.resolve_variables(&s("h1")).unwrap();
    assert_eq!(get(&v, "a"), None);
    assert_eq!(get(&v, "b"), Some(s("2")));
}

#[test]
fn group_file_with_vars_end_to_end() {
    let mut store = InventoryStore::new();
    let group = GroupDocument { hosts: vec![s("host1"), s("host2")], subgroups: vec![] };
    add_group_document(&mut store, &s("web"), &group).unwrap();
    assert!(add_group_vars(&mut store, &s("web"), doc(&[("port", "8080")])));
    assert!(add_host_vars(&mut store, &s("host1"), doc(&[("port", "9090")])));
    let h2 = store.resolve_variables(&s("host2")).unwrap();
    assert_eq!(h2.entries(), vec![(s("port"), s("8080"))]);
    let h1 = store.resolve_variables(&s("host1")).unwrap();
    assert_eq!(h1.entries(), vec![(s("port"), s("9090"))]);
}

#[test]
fn vars_for_undeclared_entities_are_skipped() {
    let mut store = InventoryStore::new();
    assert!(!add_group_vars(&mut store, &s("ghost"), doc(&[("a", "1")])));
    assert!(!add_host_vars(&mut store, &s("nobody"), doc(&[("a", "1")])));
    assert!(!store.group_exists(&s("ghost")));
    assert!(!store.host_exists(&s("nobody")));
}

#[test]
fn group_file_with_subgroups() {
    let mut store = InventoryStore::new();
    let group = GroupDocument { hosts: vec![s("h1")], subgroups: vec![s("app"), s("db")] };
    add_group_document(&mut store, &s("web"), &group).unwrap();
    store.assign_host_to_group(s("db"), s("h2"));
    assert_eq!(store.list_hosts_in_group(&s("web"), true).unwrap(), vec![s("h1"), s("h2")]);
}

#[test]
fn group_file_with_cycle_stops() {
    let mut store = InventoryStore::new();
    store.assign_subgroup(s("app"), s("web")).unwrap();
    let group = GroupDocument { hosts: vec![s("h1")], subgroups: vec![s("db"), s("app"), s("cache")] };
    let r = add_group_document(&mut store, &s("web"), &group);
    assert!(matches!(r, Err(InventoryError::WouldCycle { ref parent, ref child }) if parent == "web" && child == "app"));
    assert!(store.host_exists(&s("h1")));
    assert!(store.group_exists(&s("db")));
    assert!(!store.group_exists(&s("cache")));
    store.assign_host_to_group(s("db"), s("h9"));
    assert_eq!(store.list_hosts_in_group(&s("web"), true).unwrap(), vec![s("h1"), s("h9")]);
}

#[test]
fn counts_follow_creation() {
    let mut store = InventoryStore::new();
    assert_eq!(store.group_count(), 1);
    assert_eq!(store.host_count(), 0);
    store.assign_host_to_group(s("web"), s("h1"));
    store.assign_host_to_group(s("web"), s("h2"));
    store.assign_subgroup(s("web"), s("app")).unwrap();
    assert_eq!(store.group_count(), 3);
    assert_eq!(store.host_count(), 2);
}
