use rustengan::node_map::NodeMap;

fn id(name: &str) -> String {
    name.to_string()
}

#[test]
fn an_empty_map_holds_nothing() {
    let m: NodeMap<u64> = NodeMap::new();
    assert!(!m.contains_key(&id("A")));
    assert!(m.get(&id("A")).is_none());
}

#[test]
fn insert_stores_and_replaces() {
    let mut m: NodeMap<u64> = NodeMap::new();
    assert_eq!(m.insert(id("A"), 1), None);
    assert_eq!(m.insert(id("B"), 2), None);
    assert_eq!(m.insert(id("A"), 3), Some(1));
    assert_eq!(m.get(&id("A")), Some(&3));
    assert_eq!(m.get(&id("B")), Some(&2));
    assert!(m.contains_key(&id("B")));
    assert!(!m.contains_key(&id("C")));
}

#[test]
fn remove_takes_the_entry_out() {
    let mut m: NodeMap<u64> = NodeMap::new();
    m.insert(id("A"), 1);
    m.insert(id("B"), 2);
    m.insert(id("C"), 3);
    assert_eq!(m.remove(&id("B")), Some(2));
    assert_eq!(m.remove(&id("B")), None);
    assert_eq!(m.get(&id("A")), Some(&1));
    assert_eq!(m.get(&id("C")), Some(&3));
    assert!(!m.contains_key(&id("B")));
}

#[test]
fn into_entries_hands_out_each_key_once() {
    let mut m: NodeMap<u64> = NodeMap::new();
    m.insert(id("A"), 1);
    m.insert(id("B"), 2);
    m.insert(id("A"), 3);
    let mut entries = m.into_entries();
    entries.sort();
    assert_eq!(entries, vec![(id("A"), 3), (id("B"), 2)]);
    let empty: NodeMap<u64> = NodeMap::new();
    assert!(empty.into_entries().is_empty());
}
