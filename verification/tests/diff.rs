use std::collections::HashMap;

use cdpr::db::diff::{diff, EmojiInfo};

fn emoji(id: u64, name: &str) -> EmojiInfo {
    EmojiInfo {
        animated: false,
        id,
        name: name.to_string(),
        managed: false,
        require_colons: true,
        roles: vec![1, 2],
    }
}

#[test]
fn diff_finds_added_removed_changed() {
    let mut before = HashMap::new();
    before.insert(1, emoji(1, "a"));
    before.insert(2, emoji(2, "b"));
    before.insert(3, emoji(3, "c"));
    let mut after = HashMap::new();
    after.insert(2, emoji(2, "b"));
    after.insert(3, emoji(3, "cc"));
    after.insert(4, emoji(4, "d"));
    let d = diff(&before, &after);
    assert_eq!(d.added.len(), 1);
    assert_eq!(d.added[&4].name, "d");
    assert_eq!(d.removed.len(), 1);
    assert_eq!(d.removed[&1].name, "a");
    assert_eq!(d.changed.len(), 1);
    assert_eq!(d.changed[&3].previous_value.name, "c");
    assert_eq!(d.changed[&3].current_value.name, "cc");
}

#[test]
fn diff_of_equal_maps_is_empty() {
    let mut m = HashMap::new();
    m.insert(1, emoji(1, "a"));
    let d = diff(&m, &m.clone());
    assert!(d.added.is_empty() && d.removed.is_empty() && d.changed.is_empty());
}

#[test]
fn emojis_differ_in_roles() {
    let a = emoji(1, "a");
    let mut b = emoji(1, "a");
    assert!(a.same_as(&b));
    assert!(a == b);
    b.roles.push(3);
    assert!(a != b);
    assert!(!a.same_as(&b));
    b.roles = vec![1, 3];
    assert!(!a.same_as(&b));
}
