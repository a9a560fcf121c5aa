use carton_runner_interface::table::{Registry, Table};

#[test]
fn a_table_holds_each_key_once() {
    let mut t: Table<&'static str> = Table::new();
    assert!(t.is_empty());
    assert_eq!(t.len(), 0);
    assert_eq!(t.insert(5, "five"), Ok(()));
    assert_eq!(t.insert(7, "seven"), Ok(()));
    assert_eq!(t.insert(5, "again"), Err("again"));
    assert_eq!(t.len(), 2);
    assert!(!t.is_empty());
    assert!(t.contains_key(5));
    assert!(!t.contains_key(6));
    assert_eq!(t.get(5), Some(&"five"));
    assert_eq!(t.get(6), None);
    assert_eq!(t.remove(5), Some("five"));
    assert_eq!(t.remove(5), None);
    assert_eq!(t.get(7), Some(&"seven"));
    assert_eq!(t.insert(5, "back"), Ok(()));
    assert_eq!(t.pop(), Some((5, "back")));
    assert_eq!(t.pop(), Some((7, "seven")));
    assert_eq!(t.pop(), None);
    assert!(t.is_empty());
}

#[test]
fn a_registry_hands_out_each_key_once() {
    let mut r: Registry<String> = Registry::new();
    assert_eq!(r.register("a".to_string()), Ok(0));
    assert_eq!(r.register("b".to_string()), Ok(1));
    assert_eq!(r.get(0), Some(&"a".to_string()));
    assert_eq!(r.get(2), None);
    assert_eq!(r.remove(0), Some("a".to_string()));
    assert_eq!(r.remove(0), None);
    assert_eq!(r.register("c".to_string()), Ok(2));
    assert_eq!(r.get(0), None);
    r.put_back(0, "a again".to_string());
    assert_eq!(r.get(0), Some(&"a again".to_string()));
    assert_eq!(r.register("d".to_string()), Ok(3));
}
