//! The record that the kernel side of the sampler hands to the user side, and the
//! per-thread counters that travel with it.
use vstd::prelude::*;

verus! {

/// What an [`Event`] reports.
#[derive(Copy, Clone, PartialEq, Eq, Structural)]
pub enum EventKind {
    /// A frame was handed to the compositor.
    FramePoint,
}

impl EventKind {
    /// The code of a kind in [`Event::kind`].
    pub open spec fn code_spec(self) -> u8 {
        match self {
            EventKind::FramePoint => 1,
        }
    }

    /// The code of this kind, as it stands in [`Event::kind`].
    pub fn code(self) -> (code: u8)
        ensures
            code == self.code_spec(),
    {
        match self {
            EventKind::FramePoint => 1,
        }
    }
}

/// One record of the ring buffer.
#[derive(Copy, Clone)]
pub struct Event {
    pub ktime_ns: u64,
    pub pid: u32,
    pub tid: u32,
    pub cpu: u32,
    pub kind: u8,
    pub flags: u8,
    pub _pad: [u8; 2],
    pub arg0: u64,
    pub arg1: u64,
}

/// Counters of one thread on one frequency policy during one frame.
#[derive(Copy, Clone, PartialEq, Eq, Structural)]
pub struct DagThreadMetrics {
    pub exec_ns: u64,
    pub rq_delay_ns: u64,
    pub futex_wait_ns: u64,
}

impl Default for DagThreadMetrics {
    fn default() -> (m: Self)
        ensures
            m == (DagThreadMetrics { exec_ns: 0, rq_delay_ns: 0, futex_wait_ns: 0 }),
    {
        DagThreadMetrics { exec_ns: 0, rq_delay_ns: 0, futex_wait_ns: 0 }
    }
}

impl Event {
    pub fn new(
        ktime_ns: u64,
        pid: u32,
        tid: u32,
        cpu: u32,
        kind: EventKind,
        flags: u8,
        arg0: u64,
        arg1: u64,
    ) -> (event: Self)
        ensures
            event.ktime_ns == ktime_ns,
            event.pid == pid,
            event.tid == tid,
            event.cpu == cpu,
            event.kind == kind.code_spec(),
            event.flags == flags,
            event._pad@ == seq![0u8, 0u8],
            event.arg0 == arg0,
            event.arg1 == arg1,
    {
        Event { ktime_ns, pid, tid, cpu, kind: kind.code(), flags, _pad: [0, 0], arg0, arg1 }
    }
}

/// Number of bytes that one [`Event`] takes in the ring buffer.
pub const EVENT_BYTES: usize = 40;

/// The number that `bytes` holds, least significant byte first.
pub open spec fn le_value(bytes: Seq<u8>) -> nat
    decreases bytes.len(),
{
    if bytes.len() == 0 {
        0
    } else {
        bytes[0] as nat + 256 * le_value(bytes.drop_first())
    }
}

/// The `n` lowest bytes of `value`, least significant byte first.
pub open spec fn le_bytes(value: nat, n: nat) -> Seq<u8>
    decreases n,
{
    if n == 0 {
        seq![]
    } else {
        seq![(value % 256) as u8] + le_bytes(value / 256, (n - 1) as nat)
    }
}

/// 256 to the power `n`.
pub open spec fn pow256(n: nat) -> nat
    decreases n,
{
    if n == 0 {
        1
    } else {
        256 * pow256((n - 1) as nat)
    }
}

/// The bytes of `event` as they lie in the ring buffer.
pub open spec fn event_bytes(event: Event) -> Seq<u8> {
    le_bytes(event.ktime_ns as nat, 8) + le_bytes(event.pid as nat, 4) + le_bytes(
        event.tid as nat,
        4,
    ) + le_bytes(event.cpu as nat, 4) + seq![event.kind, event.flags] + event._pad@ + le_bytes(
        event.arg0 as nat,
        8,
    ) + le_bytes(event.arg1 as nat, 8)
}

/// `event` is the record that the first [`EVENT_BYTES`] bytes of `buf` hold.
pub open spec fn decodes(buf: Seq<u8>, event: Event) -> bool {
    &&& event.ktime_ns == le_value(buf.subrange(0, 8))
    &&& event.pid == le_value(buf.subrange(8, 12))
    &&& event.tid == le_value(buf.subrange(12, 16))
    &&& event.cpu == le_value(buf.subrange(16, 20))
    &&& event.kind == buf[20]
    &&& event.flags == buf[21]
    &&& event._pad@ == buf.subrange(22, 24)
    &&& event.arg0 == le_value(buf.subrange(24, 32))
    &&& event.arg1 == le_value(buf.subrange(32, 40))
}

proof fn lemma_le_value_bound(bytes: Seq<u8>)
    ensures
        le_value(bytes) < pow256(bytes.len()),
    decreases bytes.len(),
{
    if bytes.len() > 0 {
        lemma_le_value_bound(bytes.drop_first());
    }
}

proof fn lemma_le_bytes_round_trip(value: nat, n: nat)
    requires
        value < pow256(n),
    ensures
        le_bytes(value, n).len() == n,
        le_value(le_bytes(value, n)) == value,
    decreases n,
{
    if n > 0 {
        lemma_le_bytes_round_trip(value / 256, (n - 1) as nat);
        assert(le_bytes(value, n).drop_first() =~= le_bytes(value / 256, (n - 1) as nat));
    }
}

/// Reads `n` bytes at `at` as a number, least significant byte first.
fn read_le(buf: &[u8], at: usize, n: usize) -> (value: u64)
    requires
        n <= 8,
        at + n <= buf.len(),
    ensures
        value == le_value(buf@.subrange(at as int, at + n)),
{
    let mut value: u64 = 0;
    let mut i: usize = n;
    assert(buf@.subrange(at + n, at + n) =~= seq![]);
    while i > 0
        invariant
            i <= n <= 8,
            at + n <= buf.len(),
            value == le_value(buf@.subrange(at + i, at + n)),
        decreases i,
    {
        i = i - 1;
        let ghost rest = buf@.subrange(at + i + 1, at + n);
        let ghost whole = buf@.subrange(at + i, at + n);
        proof {
            lemma_le_value_bound(whole);
            reveal_with_fuel(pow256, 9);
            assert(whole.drop_first() =~= rest);
            assert(pow256(whole.len()) <= 0x1_0000_0000_0000_0000);
        }
        value = value * 256 + buf[at + i] as u64;
    }
    value
}

/// Reads one [`Event`] out of a ring buffer item. The item lies in memory as the kernel
/// wrote it: the fields in order, each least significant byte first.
pub fn trans(buf: &[u8]) -> (event: Event)
    requires
        buf@.len() >= EVENT_BYTES,
    ensures
        decodes(buf@, event),
{
    proof {
        lemma_le_value_bound(buf@.subrange(8, 12));
        lemma_le_value_bound(buf@.subrange(12, 16));
        lemma_le_value_bound(buf@.subrange(16, 20));
        reveal_with_fuel(pow256, 5);
    }
    let ktime_ns = read_le(buf, 0, 8);
    let pid = read_le(buf, 8, 4) as u32;
    let tid = read_le(buf, 12, 4) as u32;
    let cpu = read_le(buf, 16, 4) as u32;
    let pad: [u8; 2] = [buf[22], buf[23]];
    let arg0 = read_le(buf, 24, 8);
    let arg1 = read_le(buf, 32, 8);
    assert(pad@ =~= buf@.subrange(22, 24));
    Event { ktime_ns, pid, tid, cpu, kind: buf[20], flags: buf[21], _pad: pad, arg0, arg1 }
}

/// Reading an item back gives the record that was written: the only record that the
/// bytes of `event` hold is `event`, whatever follows them in the item.
pub proof fn law_trans_reads_what_was_written(event: Event, read: Event, rest: Seq<u8>)
    requires
        decodes(event_bytes(event) + rest, read),
    ensures
        read == event,
{
    reveal_with_fuel(pow256, 9);
    lemma_le_bytes_round_trip(event.ktime_ns as nat, 8);
    lemma_le_bytes_round_trip(event.pid as nat, 4);
    lemma_le_bytes_round_trip(event.tid as nat, 4);
    lemma_le_bytes_round_trip(event.cpu as nat, 4);
    lemma_le_bytes_round_trip(event.arg0 as nat, 8);
    lemma_le_bytes_round_trip(event.arg1 as nat, 8);
    let buf = event_bytes(event) + rest;
    assert(event._pad@.len() == 2);
    assert(buf.subrange(0, 8) =~= le_bytes(event.ktime_ns as nat, 8));
    assert(buf.subrange(8, 12) =~= le_bytes(event.pid as nat, 4));
    assert(buf.subrange(12, 16) =~= le_bytes(event.tid as nat, 4));
    assert(buf.subrange(16, 20) =~= le_bytes(event.cpu as nat, 4));
    assert(buf.subrange(22, 24) =~= event._pad@);
    assert(buf.subrange(24, 32) =~= le_bytes(event.arg0 as nat, 8));
    assert(buf.subrange(32, 40) =~= le_bytes(event.arg1 as nat, 8));
    assert(read._pad =~= event._pad);
}

/// Where the fields of a record lie in its bytes: each number with its least significant byte
/// first.
pub proof fn law_bytes_of_a_record(buf: Seq<u8>, event: Event)
    requires
        buf.len() >= 40,
        decodes(buf, event),
    ensures
        event.ktime_ns == buf[0] + 0x100 * buf[1] + 0x1_0000 * buf[2] + 0x100_0000 * buf[3]
            + 0x1_0000_0000 * buf[4] + 0x100_0000_0000 * buf[5] + 0x1_0000_0000_0000 * buf[6]
            + 0x100_0000_0000_0000 * buf[7],
        event.pid == buf[8] + 0x100 * buf[9] + 0x1_0000 * buf[10] + 0x100_0000 * buf[11],
        event.tid == buf[12] + 0x100 * buf[13] + 0x1_0000 * buf[14] + 0x100_0000 * buf[15],
        event.cpu == buf[16] + 0x100 * buf[17] + 0x1_0000 * buf[18] + 0x100_0000 * buf[19],
        event.kind == buf[20],
        event.flags == buf[21],
        event._pad[0] == buf[22],
        event._pad[1] == buf[23],
        event.arg0 == buf[24] + 0x100 * buf[25] + 0x1_0000 * buf[26] + 0x100_0000 * buf[27]
            + 0x1_0000_0000 * buf[28] + 0x100_0000_0000 * buf[29] + 0x1_0000_0000_0000 * buf[30]
            + 0x100_0000_0000_0000 * buf[31],
        event.arg1 == buf[32] + 0x100 * buf[33] + 0x1_0000 * buf[34] + 0x100_0000 * buf[35]
            + 0x1_0000_0000 * buf[36] + 0x100_0000_0000 * buf[37] + 0x1_0000_0000_0000 * buf[38]
            + 0x100_0000_0000_0000 * buf[39],
{
    lemma_eight_bytes(buf, 0);
    lemma_four_bytes(buf, 8);
    lemma_four_bytes(buf, 12);
    lemma_four_bytes(buf, 16);
    lemma_eight_bytes(buf, 24);
    lemma_eight_bytes(buf, 32);
    assert(event._pad@[0] == buf.subrange(22, 24)[0]);
    assert(event._pad@[1] == buf.subrange(22, 24)[1]);
}

proof fn lemma_first_byte(buf: Seq<u8>, from: int, to: int)
    requires
        0 <= from < to <= buf.len(),
    ensures
        le_value(buf.subrange(from, to)) == buf[from] + 256 * le_value(buf.subrange(from + 1, to)),
{
    assert(buf.subrange(from, to).drop_first() =~= buf.subrange(from + 1, to));
}

proof fn lemma_four_bytes(buf: Seq<u8>, at: int)
    requires
        0 <= at <= buf.len() - 4,
    ensures
        le_value(buf.subrange(at, at + 4)) == buf[at] + 0x100 * buf[at + 1] + 0x1_0000 * buf[at + 2]
            + 0x100_0000 * buf[at + 3],
{
    lemma_first_byte(buf, at, at + 4);
    lemma_first_byte(buf, at + 1, at + 4);
    lemma_first_byte(buf, at + 2, at + 4);
    lemma_first_byte(buf, at + 3, at + 4);
}

proof fn lemma_eight_bytes(buf: Seq<u8>, at: int)
    requires
        0 <= at <= buf.len() - 8,
    ensures
        le_value(buf.subrange(at, at + 8)) == buf[at] + 0x100 * buf[at + 1] + 0x1_0000 * buf[at + 2]
            + 0x100_0000 * buf[at + 3] + 0x1_0000_0000 * buf[at + 4] + 0x100_0000_0000 * buf[at + 5]
            + 0x1_0000_0000_0000 * buf[at + 6] + 0x100_0000_0000_0000 * buf[at + 7],
{
    lemma_first_byte(buf, at, at + 8);
    lemma_first_byte(buf, at + 1, at + 8);
    lemma_first_byte(buf, at + 2, at + 8);
    lemma_first_byte(buf, at + 3, at + 8);
    lemma_first_byte(buf, at + 4, at + 8);
    lemma_first_byte(buf, at + 5, at + 8);
    lemma_first_byte(buf, at + 6, at + 8);
    lemma_first_byte(buf, at + 7, at + 8);
}

} // verus!
