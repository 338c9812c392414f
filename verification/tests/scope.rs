use dwfv::signaldb::scope::{Scope, ScopeChild};
use dwfv::signaldb::Signal;

#[test]
fn scope() {
    let mut s = Scope::new(String::from("top"));
    s.add_scope(&["foo", "bar"]);

    let foo = s.get_scope_by_path(&["foo"]).expect("Path doesn't exist");
    foo.add_signal(&mut Signal::new("bar", "bar", 42));

    s.get_scope_by_path(&["foo", "bar"])
        .expect("Path doesn't exist");
}

#[test]
fn add_scope_is_idempotent() {
    let mut once = Scope::new(String::from("top"));
    once.add_scope(&["b", "x"]);
    once.add_scope(&["a"]);
    let mut twice = Scope::new(String::from("top"));
    twice.add_scope(&["b", "x"]);
    twice.add_scope(&["a"]);
    twice.add_scope(&["b", "x"]);
    twice.add_scope(&["b"]);
    let a: Vec<(String, ScopeChild, u64)> = once
        .traverse()
        .into_iter()
        .map(|e| (e.name, e.kind, e.depth))
        .collect();
    let b: Vec<(String, ScopeChild, u64)> = twice
        .traverse()
        .into_iter()
        .map(|e| (e.name, e.kind, e.depth))
        .collect();
    assert_eq!(a, b);
    assert_eq!(
        a,
        vec![
            ("a".to_string(), ScopeChild::Scope, 0),
            ("b".to_string(), ScopeChild::Scope, 0),
            ("x".to_string(), ScopeChild::Scope, 1),
        ]
    );
}

#[test]
fn missing_paths_are_not_found() {
    let mut s = Scope::new(String::from("top"));
    s.add_scope(&["foo", "bar"]);
    assert!(s.get_scope_by_path(&["bar"]).is_none());
    assert!(s.get_scope_by_path(&["foo", "baz"]).is_none());
    assert!(s.get_scope_by_path(&["foo", "bar", "baz"]).is_none());
    assert_eq!(s.get_scope_by_path(&[]).unwrap().name, "top");
    assert_eq!(s.get_scope("foo").unwrap().name, "foo");
    assert!(s.get_scope("bar").is_none());
    assert_eq!(s.get_scope_by_path(&["foo", "bar"]).unwrap().name, "bar");
}

#[test]
fn traverse_lists_signals_before_scopes_in_name_order() {
    let mut s = Scope::new(String::from("top"));
    s.add_scope(&["m", "inner"]);
    s.add_scope(&["a"]);
    s.add_signal(&mut Signal::new("z", "zed", 1));
    s.add_signal(&mut Signal::new("b", "bee", 1));
    s.add_signal(&mut Signal::new("z", "zed", 1));
    let mut deep = Signal::new("q", "queue", 4);
    s.get_scope_by_path(&["m", "inner"])
        .unwrap()
        .add_signal(&mut deep);
    assert_eq!(deep.path, vec!["top", "m", "inner"]);
    let listing: Vec<(String, ScopeChild, u64)> = s
        .traverse()
        .into_iter()
        .map(|e| (e.name, e.kind, e.depth))
        .collect();
    assert_eq!(
        listing,
        vec![
            ("b".to_string(), ScopeChild::Signal, 0),
            ("z".to_string(), ScopeChild::Signal, 0),
            ("a".to_string(), ScopeChild::Scope, 0),
            ("m".to_string(), ScopeChild::Scope, 0),
            ("inner".to_string(), ScopeChild::Scope, 1),
            ("q".to_string(), ScopeChild::Signal, 2),
        ]
    );
}

#[test]
fn scopes_know_the_way_to_them() {
    let mut s = Scope::new(String::from("top"));
    s.add_scope(&["foo", "bar"]);
    assert!(s.path.is_empty());
    assert_eq!(s.get_scope_by_path(&["foo"]).unwrap().path, vec!["top"]);
    assert_eq!(
        s.get_scope_by_path(&["foo", "bar"]).unwrap().path,
        vec!["top", "foo"]
    );
}
