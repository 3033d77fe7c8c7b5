use comet::connection::{Connection, ConnectionMeta};
use comet::connid::{ConnectionId, MachineId, ShortConnectionId};
use comet::generator::Generator;
use comet::hub::ConnectionHub;
use comet::manager::Manager;
use comet::tags::{diff_tags, make_tag};

fn tags(pairs: &[(&str, &str)]) -> Vec<(String, String)> {
    pairs.iter().map(|(k, v)| (k.to_string(), v.to_string())).collect()
}

fn conn(g: &mut Generator, t: &[(&str, &str)]) -> Connection {
    let meta = ConnectionMeta { product_id: 1, app_id: 2, user_id: 3, device_id: 4, tags: tags(t) };
    Connection::new_at(g.generate_with_time(1000, 0), meta, 10)
}

#[test]
fn tag_diff_example() {
    let old = tags(&[("a", "1"), ("b", "2")]);
    let new = tags(&[("a", "1"), ("c", "3")]);
    let (removed, added) = diff_tags(&old, &new);
    assert_eq!(removed, vec!["b=2".to_string()]);
    assert_eq!(added, vec!["c=3".to_string()]);
}

#[test]
fn tag_diff_ignores_empty_keys_and_values() {
    let old = tags(&[("", "1"), ("b", "")]);
    let new = tags(&[("c", "3")]);
    let (removed, added) = diff_tags(&old, &new);
    assert!(removed.is_empty());
    assert_eq!(added, vec!["c=3".to_string()]);
    assert_eq!(make_tag("k", "v"), "k=v");
    assert_eq!(make_tag("", "v"), "");
}

#[test]
fn len_after_adds_and_removes() {
    let mut g = Generator::new();
    let mut hub = ConnectionHub::new(4);
    let mut shorts: Vec<ShortConnectionId> = Vec::new();
    for _ in 0..10 {
        let c = conn(&mut g, &[]);
        shorts.push(c.short_id());
        hub.add(c);
    }
    assert_eq!(hub.len(), 10);
    for s in &shorts[..3] {
        assert!(hub.remove(*s).is_some());
    }
    assert_eq!(hub.len(), 7);
    assert!(hub.remove(shorts[0]).is_none());
    assert_eq!(hub.len(), 7);
    assert!(hub.get(shorts[0]).is_none());
    assert!(hub.get(shorts[5]).is_some());
}

#[test]
fn readding_overwrites() {
    let mut g = Generator::new();
    let mut hub = ConnectionHub::new(3);
    let c = conn(&mut g, &[]);
    let id = c.id();
    hub.add(c);
    let meta = ConnectionMeta { product_id: 9, app_id: 9, user_id: 9, device_id: 9, tags: Vec::new() };
    hub.add(Connection::new_at(id, meta, 20));
    assert_eq!(hub.len(), 1);
    assert_eq!(hub.get(id.to_short()).unwrap().meta().product_id, 9);
}

#[test]
fn find_tags_skips_closed_connections() {
    let mut g = Generator::new();
    let mut hub = ConnectionHub::new(2);
    let a = conn(&mut g, &[("room", "x"), ("lang", "en")]);
    let b = conn(&mut g, &[("room", "x")]);
    let (sa, sb) = (a.short_id(), b.short_id());
    hub.update_tags(&a, &Vec::new());
    hub.update_tags(&b, &Vec::new());
    hub.add(a);
    hub.add(b);
    let mut found = hub.find_tags(1, 2, &tags(&[("room", "x")]));
    found.sort_by_key(|s| s.key());
    let mut want = vec![sa, sb];
    want.sort_by_key(|s| s.key());
    assert_eq!(found, want);
    assert_eq!(hub.find_tags(1, 2, &tags(&[("room", "x"), ("lang", "en")])), vec![sa]);
    assert!(hub.find_tags(1, 3, &tags(&[("room", "x")])).is_empty());
    assert!(hub.find_tags(1, 2, &tags(&[("", "x")])).is_empty());
    hub.remove(sa);
    assert_eq!(hub.find_tags(1, 2, &tags(&[("room", "x")])), vec![sb]);
}

#[test]
fn update_tags_moves_membership() {
    let mut g = Generator::new();
    let mut hub = ConnectionHub::new(2);
    let c = conn(&mut g, &[("a", "1"), ("c", "3")]);
    let s = c.short_id();
    hub.update_tags(&c, &tags(&[("a", "1"), ("b", "2")]));
    hub.add(c);
    assert_eq!(hub.find_tags(1, 2, &tags(&[("c", "3")])), vec![s]);
    assert!(hub.find_tags(1, 2, &tags(&[("b", "2")])).is_empty());
}

#[test]
fn manager_keeps_hub_and_heartbeat_in_step() {
    let g = Generator::new_with_machine_id(MachineId::Random([3u8; 18]));
    let mut m = Manager::new(4, g);
    let id: ConnectionId = m.uid_gen.generate_with_time(5, 0);
    let meta = ConnectionMeta { product_id: 1, app_id: 1, user_id: 1, device_id: 1, tags: Vec::new() };
    let mut c = Connection::new_at(id, meta, 1);
    c.set_ping_interval(30);
    assert!(c.should_ping(31));
    assert!(!c.should_ping(29));
    assert!(m.add_connection(c));
    assert!(m.get(id).is_some());
    assert_eq!(m.heartbeat.len(), 1);
    assert!(m.touch_connection(id.to_short()));
    assert_eq!(m.heartbeat.len(), 1);
    assert!(m.disconnect(id.to_short(), 7000).is_some());
    assert!(m.get(id).is_none());
    assert_eq!(m.heartbeat.len(), 0);
    assert!(m.disconnect(id.to_short(), 7100).is_none());
    assert_eq!(m.closer.len(), 1);
    assert!(m.closer.sweep(7999).is_empty());
    assert_eq!(m.closer.sweep(8000), vec![id.to_short().key()]);
}

#[test]
fn remove_connection_unindexes_tags() {
    let g = Generator::new_with_machine_id(MachineId::Random([4u8; 18]));
    let mut m = Manager::new(2, g);
    let id = m.uid_gen.generate_with_time(9, 0);
    let meta = ConnectionMeta { product_id: 1, app_id: 2, user_id: 1, device_id: 1, tags: tags(&[("room", "x")]) };
    let c = Connection::new_at(id, meta, 1);
    m.hub.update_tags(&c, &Vec::new());
    assert!(m.add_connection(c));
    assert_eq!(m.hub.find_tags(1, 2, &tags(&[("room", "x")])), vec![id.to_short()]);
    let removed = m.remove_connection(id.to_short()).unwrap();
    m.hub.add(removed);
    assert!(m.hub.find_tags(1, 2, &tags(&[("room", "x")])).is_empty());
}

#[test]
fn list_and_close_all_cover_every_connection() {
    let g = Generator::new_with_machine_id(MachineId::Random([5u8; 18]));
    let mut m = Manager::new(3, g);
    let mut keys = Vec::new();
    for t in 0..7u64 {
        let id = m.uid_gen.generate_with_time(100 + t, 0);
        keys.push(id.to_short().key());
        let meta = ConnectionMeta { product_id: 1, app_id: 1, user_id: 1, device_id: 1, tags: Vec::new() };
        let mut c = Connection::new_at(id, meta, 1);
        c.set_ping_interval(5);
        assert!(m.add_connection(c));
    }
    let mut listed: Vec<u128> = m.hub.list().iter().map(|s| s.key()).collect();
    listed.sort();
    let mut want = keys.clone();
    want.sort();
    assert_eq!(listed, want);
    let closed = m.close_all();
    let mut got: Vec<u128> = closed.iter().map(|c| c.short_id().key()).collect();
    got.sort();
    assert_eq!(got, want);
    assert_eq!(m.hub.len(), 0);
    assert_eq!(m.heartbeat.len(), 0);
}
