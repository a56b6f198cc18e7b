use nix_process::names::{NameMap, NameSet};

fn keys(m: &NameMap<i32>) -> Vec<String> {
    (0..m.len()).map(|i| m.name_at(i).clone()).collect()
}

#[test]
fn map_keeps_names_sorted_and_unique() {
    let mut m: NameMap<i32> = NameMap::new();
    for (n, v) in [("web", 1), ("db", 2), ("api", 3), ("db", 4)] {
        m.insert(n.to_string(), v);
    }
    assert_eq!(keys(&m), vec!["api", "db", "web"]);
    assert_eq!(m.get("db"), Some(&4));
    assert_eq!(m.get("dB"), None);
    assert!(m.contains("web"));
    assert_eq!(*m.value_at(0), 3);
    *m.value_at_mut(2) = 9;
    assert_eq!(m.get("web"), Some(&9));
    assert_eq!(m.list(), vec!["api", "db", "web"]);
    m.remove("db");
    m.remove("absent");
    assert_eq!(keys(&m), vec!["api", "web"]);
    assert_eq!(m.into_values(), vec![3, 9]);
}

#[test]
fn map_orders_as_strings_do() {
    let mut m: NameMap<i32> = NameMap::new();
    let mut names = vec!["é", "z", "a", "", "Z", "aa", "\u{10000}", "\u{ffff}"];
    for n in &names {
        m.insert(n.to_string(), 0);
    }
    names.sort();
    assert_eq!(keys(&m), names);
}

#[test]
fn set_holds_each_name_once() {
    let mut s = NameSet::new();
    s.insert("b".to_string());
    s.insert("a".to_string());
    s.insert("b".to_string());
    assert_eq!(s.len(), 2);
    assert_eq!(s.list(), vec!["a", "b"]);
    assert!(s.contains("a"));
    s.remove("a");
    assert!(!s.contains("a"));
    assert_eq!(s.len(), 1);
}
