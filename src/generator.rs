//! The allocator of identifiers for one process.

use vstd::prelude::*;
use crate::connid::{ConnectionId, MachineId, ShortConnectionId, id_of_short};
use rand::RngCore;

verus! {

/// The largest millisecond count that an identifier holds, plus one.
pub const MSEC_LIMIT: u64 = 0x4000_0000_0000;

/// Relies on `RngCore::fill_bytes` of rand's thread-local generator: it fills
/// the whole buffer.
#[verifier::external_body]
fn random_bytes(n: usize) -> (r: Vec<u8>)
    ensures
        r@.len() == n,
{
    let mut v = vec![0u8; n];
    rand::thread_rng().fill_bytes(&mut v);
    v
}

/// Relies on `RngCore::next_u32` of rand's thread-local generator.
#[verifier::external_body]
fn random_u32() -> (r: u32) {
    rand::thread_rng().next_u32()
}

/// Relies on `SystemTime::now`: milliseconds since the Unix epoch, zero for a
/// clock set before it.
#[verifier::external_body]
pub(crate) fn now_millis() -> (r: u64) {
    match std::time::SystemTime::now().duration_since(std::time::UNIX_EPOCH) {
        Ok(d) => d.as_millis() as u64,
        Err(_) => 0,
    }
}

/// The counter value after `n` draws from `c`: it wraps at 2^16.
pub open spec fn counter_after(c: u16, n: nat) -> u16 {
    ((c + n) % 0x1_0000) as u16
}

/// Allocates identifiers: one machine id, a 16-bit counter and version 0.
pub struct Generator {
    machine_id: MachineId,
    counter: u16,
    version: u8,
}

impl Generator {
    /// The machine id that every identifier of this generator carries.
    pub closed spec fn spec_machine_id(&self) -> MachineId {
        self.machine_id
    }

    /// The version that every identifier of this generator carries.
    pub closed spec fn spec_version(&self) -> u8 {
        self.version
    }

    /// Every identifier of this generator carries version 0.
    pub open spec fn wf(&self) -> bool {
        self.spec_version() == 0
    }

    /// The counter value that the next identifier takes.
    pub closed spec fn spec_counter(&self) -> u16 {
        self.counter
    }

    /// A generator with a machine id of 18 random bytes.
    pub fn new() -> (r: Generator)
        ensures
            r.spec_machine_id() is Random,
            r.spec_version() == 0,
            r.wf(),
    {
        let bytes = random_bytes(18);
        let mut a = [0u8; 18];
        let mut i: usize = 0;
        while i < 18
            invariant
                0 <= i <= 18,
                bytes@.len() == 18,
            decreases 18 - i,
        {
            a[i] = bytes[i];
            i = i + 1;
        }
        Generator::new_with_machine_id(MachineId::Random(a))
    }

    /// A generator with the given machine id and a counter seeded at random.
    pub fn new_with_machine_id(machine_id: MachineId) -> (r: Generator)
        ensures
            r.spec_machine_id() == machine_id,
            r.spec_version() == 0,
            r.wf(),
    {
        let seed = random_bytes(2);
        let counter = ((seed[0] as u16) << 8u16) | (seed[1] as u16);
        Generator { machine_id, counter, version: 0 }
    }

    /// The machine id that every identifier of this generator carries.
    pub fn machine_id(&self) -> (r: MachineId)
        ensures
            r == self.spec_machine_id(),
    {
        self.machine_id
    }

    /// A fresh identifier stamped with the current time: milliseconds since
    /// the Unix epoch, within the 46 bits that an identifier holds.
    pub fn generate(&mut self) -> (r: ConnectionId)
        requires
            old(self).wf(),
        ensures
            r.wf(),
            r.machine_id == old(self).spec_machine_id(),
            r.incr == old(self).spec_counter(),
            r.version == old(self).spec_version(),
            final(self).spec_machine_id() == old(self).spec_machine_id(),
            final(self).spec_version() == old(self).spec_version(),
            final(self).spec_counter() == counter_after(old(self).spec_counter(), 1),
    {
        let msec = now_millis() % MSEC_LIMIT;
        let rand = random_u32();
        self.generate_with_time(msec, rand)
    }

    /// A fresh identifier with the given time and random draw: the counter
    /// value moves on by one, and 14 bits of the draw are kept.
    pub fn generate_with_time(&mut self, msec: u64, rand: u32) -> (r: ConnectionId)
        ensures
            r == (ConnectionId {
                machine_id: old(self).spec_machine_id(),
                msec,
                incr: old(self).spec_counter(),
                rand: (rand % 0x4000) as u16,
                version: old(self).spec_version(),
            }),
            final(self).spec_machine_id() == old(self).spec_machine_id(),
            final(self).spec_version() == old(self).spec_version(),
            final(self).spec_counter() == counter_after(old(self).spec_counter(), 1),
    {
        let incr = self.counter;
        self.counter = self.counter.wrapping_add(1);
        ConnectionId {
            machine_id: self.machine_id,
            msec,
            incr,
            rand: (rand % 0x4000) as u16,
            version: self.version,
        }
    }

    /// The identifier that a short form of this generator stands for.
    pub fn restore_from_short(&self, short: ShortConnectionId) -> (r: ConnectionId)
        ensures
            r == id_of_short(short@, self.spec_machine_id()),
    {
        ConnectionId::from_short(short, self.machine_id)
    }
}

/// Fewer than 2^16 draws apart, two identifiers of one generator never share
/// a counter value.
pub proof fn lemma_counter_distinct(c: u16, i: nat, j: nat)
    requires
        i < j < i + 0x1_0000,
    ensures
        counter_after(c, i) != counter_after(c, j),
{
}

/// Draws compose: `n` draws and then one more make `n + 1` draws.
pub proof fn lemma_counter_step(c: u16, n: nat)
    ensures
        counter_after(counter_after(c, n), 1) == counter_after(c, n + 1),
{
}

/// Identifiers drawn by successive calls of one generator carry successive
/// counter values (`generate` moves the counter on by one, and draws compose
/// by `lemma_counter_step`); two of them fewer than 2^16 draws apart differ in
/// their counter, and so in their (time, counter) pair.
pub proof fn lemma_successive_ids_distinct(c: u16, xs: Seq<ConnectionId>, i: int, j: int)
    requires
        forall|k: int| 0 <= k < xs.len() ==> (#[trigger] xs[k]).incr == counter_after(c, k as nat),
        0 <= i < j < xs.len(),
        j - i < 0x1_0000,
    ensures
        xs[i].incr != xs[j].incr,
        (xs[i].msec, xs[i].incr) != (xs[j].msec, xs[j].incr),
{
    lemma_counter_distinct(c, i as nat, j as nat);
}

} // verus!
