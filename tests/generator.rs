use comet::connid::{MachineId, SocketAddrV4};
use comet::generator::Generator;

#[test]
fn test_generator_basic() {
    let total = 1e6 as u32;
    let mut g = Generator::new();

    let mut prev_id = g.generate();
    let mut prev_incr = 0u32;

    for i in 0..total {
        let id = g.generate();
        if i > 0 {
            assert_eq!(id.incr, (prev_incr + 1) as u16);
        }
        if id.incr == 0 {
            assert_eq!(prev_incr, 0xFFFF);
        } else {
            assert!(
                prev_id < id,
                "{} ({:?}) != {} ({:?}) {}",
                prev_id.to_text(),
                prev_id,
                id.to_text(),
                id,
                i
            );
        }

        prev_id = id;
        prev_incr = (id.incr as u32) & 0xFFFF;

        assert_eq!(id.to_text().len(), 45);
        assert_eq!(id.machine_id, g.machine_id());
    }
}

#[test]
fn test_generator_restore_from_short_id() {
    let mut g = Generator::new();
    let id = g.generate();

    let short = id.to_short();
    let got = g.restore_from_short(short);

    assert_eq!(id, got);
}

#[test]
fn generate_with_time_is_exact() {
    let m = MachineId::AddressV4(SocketAddrV4 { ip: 0x7F00_0001, port: 80 });
    let mut g = Generator::new_with_machine_id(m);
    let a = g.generate_with_time(1000, 0xFFFF_FFFF);
    let b = g.generate_with_time(1000, 0x0001_4005);
    assert_eq!(a.machine_id, m);
    assert_eq!(a.msec, 1000);
    assert_eq!(a.rand, 0x3FFF);
    assert_eq!(b.rand, 0x0005);
    assert_eq!(a.version, 0);
    assert_eq!(b.incr, a.incr.wrapping_add(1));
    assert!(a < b);
}

#[test]
fn counter_wraps_without_error() {
    let mut g = Generator::new();
    let first = g.generate_with_time(7, 0).incr;
    let mut last = first;
    for _ in 0..0x1_0000u32 {
        last = g.generate_with_time(7, 0).incr;
    }
    assert_eq!(last, first);
}

#[test]
fn identifiers_within_one_wrap_are_distinct() {
    let mut g = Generator::new();
    let mut seen = std::collections::HashSet::new();
    for _ in 0..0x1_0000u32 {
        let id = g.generate_with_time(42, 0);
        assert!(seen.insert((id.msec, id.incr)));
    }
}
