use matrix_appservice::{Mappable, MappingDict, MappingId, Record};

type Link = Record<String>;

fn link(m: &str, e: &str, nick: &str) -> Link {
    Record::new(m.to_string(), e.to_string(), nick.to_string())
}

#[test]
fn lookup_by_either_id() {
    let mut d = MappingDict::new();
    d.insert(link("@a:x.org", "alice", "A"));
    d.insert(link("@b:x.org", "bob", "B"));
    assert_eq!(d.get(MappingId::Matrix("@a:x.org")).unwrap().data, "A");
    assert_eq!(d.get(MappingId::External("bob")).unwrap().data, "B");
    assert!(d.has(MappingId::External("alice")));
    assert!(!d.has(MappingId::External("@a:x.org")));
    assert!(d.get(MappingId::Matrix("@c:x.org")).is_none());
}

#[test]
fn remove_drops_both_ids() {
    let mut d = MappingDict::new();
    d.insert(link("@a:x.org", "alice", "A"));
    d.insert(link("@b:x.org", "bob", "B"));
    d.insert(link("@c:x.org", "carol", "C"));
    let gone = d.remove(MappingId::External("bob")).unwrap();
    assert_eq!(gone.data, "B");
    assert!(!d.has(MappingId::Matrix("@b:x.org")));
    assert!(!d.has(MappingId::External("bob")));
    assert_eq!(d.get(MappingId::Matrix("@c:x.org")).unwrap().data, "C");
    assert_eq!(d.get(MappingId::External("carol")).unwrap().data, "C");
    assert!(d.remove(MappingId::Matrix("@b:x.org")).is_none());
}

#[test]
fn colliding_insert_displaces_old_records() {
    let mut d = MappingDict::new();
    d.insert(link("@a:x.org", "alice", "A"));
    d.insert(link("@b:x.org", "bob", "B"));
    let (inserted, displaced) = d.insert(link("@a:x.org", "bob", "new"));
    assert_eq!(inserted.data, "new");
    assert_eq!(displaced.len(), 2);
    assert_eq!(displaced[0].data, "A");
    assert_eq!(displaced[1].data, "B");
    assert!(!d.has(MappingId::External("alice")));
    assert!(!d.has(MappingId::Matrix("@b:x.org")));
    assert_eq!(d.get(MappingId::External("bob")).unwrap().data, "new");
    assert_eq!(d.iter().count(), 1);
}

#[test]
fn live_records_reachable_after_operations() {
    let mut d = MappingDict::new();
    d.insert(link("@a:x.org", "alice", "A"));
    d.insert(link("@b:x.org", "bob", "B"));
    d.insert(link("@c:x.org", "carol", "C"));
    d.remove(MappingId::Matrix("@a:x.org"));
    d.insert(link("@d:x.org", "carol", "D"));
    d.insert(link("@e:x.org", "erin", "E"));
    for r in d.iter() {
        assert_eq!(d.get(MappingId::Matrix(r.as_matrix())).unwrap(), r);
        assert_eq!(d.get(MappingId::External(r.as_external())).unwrap(), r);
    }
    let nicks: Vec<&str> = d.iter().map(|r| r.data.as_str()).collect();
    assert_eq!(nicks, vec!["B", "D", "E"]);
}

#[test]
fn from_vec_keeps_order_and_policy() {
    let d = MappingDict::from_vec(vec![
        link("@a:x.org", "alice", "A"),
        link("@b:x.org", "bob", "B"),
        link("@a:x.org", "alicia", "A2"),
    ]);
    let nicks: Vec<&str> = d.iter().map(|r| r.data.as_str()).collect();
    assert_eq!(nicks, vec!["B", "A2"]);
    assert!(!d.has(MappingId::External("alice")));
}

#[test]
fn get_mut_changes_other_fields() {
    let mut d = MappingDict::new();
    d.insert(link("@a:x.org", "alice", "A"));
    *d.get_mut(MappingId::External("alice")).unwrap() = "Alice".to_string();
    assert_eq!(d.get(MappingId::Matrix("@a:x.org")).unwrap().data, "Alice");
    assert!(d.get_mut(MappingId::External("nobody")).is_none());
}

#[test]
fn empty_and_shrunk() {
    let mut d: MappingDict<Link> = MappingDict::default();
    assert_eq!(d.iter().count(), 0);
    d.insert(link("@a:x.org", "alice", "A"));
    d.shrink_to_fit();
    assert_eq!(d.iter().count(), 1);
}

#[test]
fn record_ids_round_trip() {
    let r = link("@a:x.org", "alice", "A");
    assert_eq!(r.as_matrix(), "@a:x.org");
    assert_eq!(r.as_external(), "alice");
    assert_eq!(r.clone().into_matrix(), "@a:x.org");
    assert_eq!(r.clone().into_external(), "alice");
    assert_eq!(r.into_split(), ("@a:x.org".to_string(), "alice".to_string()));
}
