use comet::connid::ShortConnectionId;
use comet::heartbeat::{HeartbeatManager, HeartbeatNode, TICK_LIMIT};

fn short(n: u8) -> ShortConnectionId {
    ShortConnectionId::new([0, 0, 0, 0, 0, 0, 0, 0, 0, n])
}

#[test]
fn touch_moves_to_back_without_growing() {
    let mut hb = HeartbeatManager::new();
    hb.touch(short(1));
    hb.touch(short(2));
    hb.touch(short(3));
    assert_eq!(hb.len(), 3);
    hb.touch(short(1));
    assert_eq!(hb.len(), 3);
    assert_eq!(hb.counter(), 4);
    // 1 is now the most recently touched: a tick after another tick hands
    // out 2 and 3 first.
    assert_eq!(hb.tick(10), Vec::<ShortConnectionId>::new());
    assert_eq!(hb.tick(10), vec![short(2), short(3), short(1)]);
}

#[test]
fn tick_skips_connections_touched_since_last_tick() {
    let mut hb = HeartbeatManager::new();
    hb.touch(short(1));
    hb.touch(short(2));
    assert!(hb.tick(10).is_empty());
    hb.touch(short(3));
    hb.touch(short(1));
    assert_eq!(hb.tick(10), vec![short(2)]);
    assert_eq!(hb.pending(), 1);
}

#[test]
fn tick_honours_room_and_limit() {
    let mut hb = HeartbeatManager::new();
    for i in 0..5u8 {
        hb.touch(short(i));
    }
    hb.tick(100);
    assert_eq!(hb.tick(2), vec![short(0), short(1)]);
    assert_eq!(hb.tick(0), Vec::<ShortConnectionId>::new());
    assert_eq!(TICK_LIMIT, 1000);
}

#[test]
fn tick_limit_caps_a_large_index() {
    let mut hb = HeartbeatManager::new();
    for i in 0..1100u32 {
        let b = i.to_be_bytes();
        hb.touch(ShortConnectionId::new([0, 0, 0, 0, 0, 0, b[0], b[1], b[2], b[3]]));
    }
    hb.tick(5000);
    assert_eq!(hb.tick(5000).len(), TICK_LIMIT);
}

#[test]
fn remove_is_a_no_op_for_unknown() {
    let mut hb = HeartbeatManager::new();
    hb.touch(short(1));
    hb.remove(short(9));
    assert_eq!(hb.len(), 1);
    assert!(hb.contains(short(1)));
    hb.remove(short(1));
    assert_eq!(hb.len(), 0);
    assert!(!hb.contains(short(1)));
    let node = HeartbeatNode::new(7, short(1));
    assert_eq!(node.idx, 7);
}
