//! How busy a CPU was between two looks at its counters.
use crate::target::elapsed;
use crate::text::{
    ascii_white, chars_of, digits_of, is_ascii_white, is_at, law_no_number, law_number_round_trip,
    lines, number, parse_u64, split_lines, split_whitespace, stands_at, words,
};
use vstd::prelude::*;

verus! {

/// The share `busy / total`, a number from zero to one.
#[derive(Debug, Copy, Clone, PartialEq, Eq, Structural)]
pub struct Share {
    pub busy: u64,
    pub total: u64,
}

impl Share {
    /// The share is defined, and at most one.
    pub open spec fn is_valid(self) -> bool {
        self.busy <= self.total && self.total > 0
    }
}

/// The share `part / whole`, held to at most one.
pub open spec fn share_of(part: u64, whole: u64) -> Share {
    Share { busy: if part < whole { part } else { whole }, total: whole }
}

/// The share `part / whole`, held to at most one.
pub fn share(part: u64, whole: u64) -> (s: Share)
    requires
        whole > 0,
    ensures
        s == share_of(part, whole),
        s.is_valid(),
{
    Share { busy: if part < whole { part } else { whole }, total: whole }
}

/// The utilisation of the watched CPU at one moment.
#[derive(Debug, Copy, Clone, PartialEq, Eq, Structural)]
pub struct UsageSnapshot {
    pub cpu1_util: Share,
}

/// The counters of one CPU at the last look.
#[derive(Debug, Copy, Clone)]
pub struct CpuUsageTracker {
    pub cpu_label: &'static str,
    pub last_busy: u64,
    pub last_total: u64,
    pub initialized: bool,
}

/// The growth of a counter from `last` to `now`, zero where it did not grow.
pub open spec fn growth(last: u64, now: u64) -> u64 {
    if now > last {
        (now - last) as u64
    } else {
        0
    }
}

impl CpuUsageTracker {
    pub fn new(cpu_label: &'static str) -> (tracker: Self)
        ensures
            tracker.cpu_label == cpu_label,
            tracker.last_busy == 0,
            tracker.last_total == 0,
            !tracker.initialized,
    {
        CpuUsageTracker { cpu_label, last_busy: 0, last_total: 0, initialized: false }
    }

    /// What [`CpuUsageTracker::calculate`] returns.
    pub open spec fn util(self, busy: u64, total: u64) -> Option<Share> {
        if self.initialized && growth(self.last_total, total) > 0 {
            Some(share_of(growth(self.last_busy, busy), growth(self.last_total, total)))
        } else {
            None
        }
    }

    /// Takes the counters `busy` and `total` in and returns the utilisation since the last
    /// look. There is none at the first look, nor where the total did not grow.
    pub fn calculate(&mut self, busy: u64, total: u64) -> (util: Option<Share>)
        ensures
            util == old(self).util(busy, total),
            util is Some ==> util->0.is_valid(),
            final(self).cpu_label == old(self).cpu_label,
            final(self).last_busy == busy,
            final(self).last_total == total,
            final(self).initialized,
    {
        if !self.initialized {
            self.last_busy = busy;
            self.last_total = total;
            self.initialized = true;
            return None;
        }
        let busy_delta = busy.saturating_sub(self.last_busy);
        let total_delta = total.saturating_sub(self.last_total);
        self.last_busy = busy;
        self.last_total = total;
        if total_delta == 0 {
            return None;
        }
        Some(share(busy_delta, total_delta))
    }
}

/// Least time between two looks: half a second.
pub const USAGE_INTERVAL_NS: u128 = 500_000_000;

/// Watches one CPU.
#[derive(Debug)]
pub struct CpuUsageMonitor {
    pub cpu1_tracker: CpuUsageTracker,
    /// When the last look was taken, in nanoseconds.
    pub last_update_ns: u128,
}

impl CpuUsageMonitor {
    /// A monitor made at `now_ns`.
    pub fn new(now_ns: u128) -> (monitor: Self)
        ensures
            monitor.cpu1_tracker.cpu_label == "cpu1",
            monitor.cpu1_tracker.last_busy == 0,
            monitor.cpu1_tracker.last_total == 0,
            !monitor.cpu1_tracker.initialized,
            monitor.last_update_ns == now_ns,
    {
        CpuUsageMonitor { cpu1_tracker: CpuUsageTracker::new("cpu1"), last_update_ns: now_ns }
    }

    /// It is time for another look.
    pub open spec fn due(self, now_ns: u128) -> bool {
        elapsed(self.last_update_ns, now_ns) >= USAGE_INTERVAL_NS
    }

    /// It is time for another look.
    pub fn is_due(&self, now_ns: u128) -> (due: bool)
        ensures
            due == self.due(now_ns),
    {
        now_ns.saturating_sub(self.last_update_ns) >= USAGE_INTERVAL_NS
    }

    /// Takes a look where it is time for one: `counters` is what [`get_cpu_busy_total`] read,
    /// none where the file could not be read. A look from which nothing can be told counts
    /// for no load.
    pub fn update(&mut self, now_ns: u128, counters: Option<(u64, u64)>) -> (snapshot: Option<
        UsageSnapshot,
    >)
        ensures
            snapshot is Some == old(self).due(now_ns),
            snapshot is None ==> *final(self) == *old(self),
            snapshot is Some ==> final(self).last_update_ns == now_ns,
            snapshot is Some ==> match counters {
                None => {
                    &&& final(self).cpu1_tracker == old(self).cpu1_tracker
                    &&& snapshot->0.cpu1_util == no_share()
                },
                Some((busy, total)) => {
                    &&& final(self).cpu1_tracker == (CpuUsageTracker {
                        last_busy: busy,
                        last_total: total,
                        initialized: true,
                        ..old(self).cpu1_tracker
                    })
                    &&& snapshot->0.cpu1_util == (match old(self).cpu1_tracker.util(busy, total) {
                        Some(util) => util,
                        None => no_share(),
                    })
                },
            },
            snapshot is Some ==> snapshot->0.cpu1_util.is_valid(),
    {
        if !self.is_due(now_ns) {
            return None;
        }
        self.last_update_ns = now_ns;
        let none = Share { busy: 0, total: 1 };
        let cpu1_util = match counters {
            Some((busy, total)) => match self.cpu1_tracker.calculate(busy, total) {
                Some(util) => util,
                None => none,
            },
            None => none,
        };
        Some(UsageSnapshot { cpu1_util })
    }
}

/// No load at all.
pub open spec fn no_share() -> Share {
    Share { busy: 0, total: 1 }
}

/// `line` is that of the CPU with the name `label`: the name, then a blank.
pub open spec fn is_cpu_line(line: Seq<char>, label: Seq<char>) -> bool {
    stands_at(line, label, 0) && label.len() < line.len() && is_ascii_white(
        line[label.len() as int],
    )
}

/// The first line of `list` that is that of the CPU.
pub open spec fn cpu_line(list: Seq<Seq<char>>, label: Seq<char>) -> Option<Seq<char>>
    decreases list.len(),
{
    if list.len() == 0 {
        None
    } else if is_cpu_line(list[0], label) {
        Some(list[0])
    } else {
        cpu_line(list.drop_first(), label)
    }
}

/// The numbers among the words of `list`.
pub open spec fn numbers(list: Seq<Seq<char>>) -> Seq<u64>
    decreases list.len(),
{
    if list.len() == 0 {
        Seq::empty()
    } else {
        match number(list.last(), u64::MAX as nat) {
            Some(v) => numbers(list.drop_last()).push(v as u64),
            None => numbers(list.drop_last()),
        }
    }
}

/// The times that `stat` holds for the CPU: the numbers that follow its name.
pub open spec fn cpu_times(stat: Seq<char>, label: Seq<char>) -> Seq<u64> {
    match cpu_line(lines(stat), label) {
        Some(line) => if words(line).len() > 0 {
            numbers(words(line).drop_first())
        } else {
            Seq::empty()
        },
        None => Seq::empty(),
    }
}

/// The time at place `i` is one in which the CPU was busy: user, nice, system, and the two
/// kinds of interrupts and the stolen time, but neither idle nor waiting.
pub open spec fn is_busy_place(i: int) -> bool {
    0 <= i <= 2 || 5 <= i <= 7
}

/// The sum of all `times`.
pub open spec fn total_time(times: Seq<u64>) -> nat
    decreases times.len(),
{
    if times.len() == 0 {
        0
    } else {
        total_time(times.drop_last()) + times.last() as nat
    }
}

/// The sum of those `times` in which the CPU was busy.
pub open spec fn busy_time(times: Seq<u64>) -> nat
    decreases times.len(),
{
    if times.len() == 0 {
        0
    } else {
        busy_time(times.drop_last()) + (if is_busy_place(times.len() - 1) {
            times.last() as nat
        } else {
            0
        })
    }
}

/// A CPU is never busy for longer than it was there.
pub proof fn law_busy_at_most_total(times: Seq<u64>)
    ensures
        busy_time(times) <= total_time(times),
    decreases times.len(),
{
    if times.len() > 0 {
        law_busy_at_most_total(times.drop_last());
    }
}

fn find_cpu_line(list: &Vec<Vec<char>>, label: &Vec<char>) -> (at: Option<usize>)
    ensures
        match at {
            Some(i) => i < list@.len() && cpu_line(
                list@.map_values(|l: Vec<char>| l@),
                label@,
            ) == Some(list@[i as int]@),
            None => cpu_line(list@.map_values(|l: Vec<char>| l@), label@) is None,
        },
{
    let ghost all = list@.map_values(|l: Vec<char>| l@);
    assert(all.skip(0) =~= all);
    for i in 0..list.len()
        invariant
            all == list@.map_values(|l: Vec<char>| l@),
            cpu_line(all.skip(i as int), label@) == cpu_line(all, label@),
    {
        let line = &list[i];
        assert(all.skip(i as int)[0] == line@);
        assert(all.skip(i as int).drop_first() =~= all.skip(i + 1));
        if is_at(line, label, 0) && label.len() < line.len() && ascii_white(line[label.len()]) {
            return Some(i);
        }
    }
    None
}

fn number_times(list: &Vec<Vec<char>>, from: usize) -> (times: Vec<u64>)
    requires
        from <= list@.len(),
    ensures
        times@ == numbers(list@.map_values(|w: Vec<char>| w@).skip(from as int)),
{
    let ghost all = list@.map_values(|w: Vec<char>| w@).skip(from as int);
    let mut times: Vec<u64> = Vec::new();
    for i in from..list.len()
        invariant
            from <= list@.len(),
            all == list@.map_values(|w: Vec<char>| w@).skip(from as int),
            times@ == numbers(all.take(i - from)),
    {
        assert(all.take(i - from + 1).drop_last() =~= all.take(i - from));
        assert(all.take(i - from + 1).last() == list@[i as int]@);
        if let Some(v) = parse_u64(&list[i]) {
            times.push(v);
        }
    }
    assert(all.take(all.len() as int) =~= all);
    times
}

/// The time for which the CPU was busy and the time in all, out of the text of `/proc/stat`.
/// Both are zero where the text has no line for it. There is no answer where the sum does
/// not fit into 64 bits.
pub fn get_cpu_busy_total(stat: &str, cpu_label: &str) -> (counters: Option<(u64, u64)>)
    ensures
        match counters {
            Some((busy, total)) => {
                &&& busy == busy_time(cpu_times(stat@, cpu_label@))
                &&& total == total_time(cpu_times(stat@, cpu_label@))
            },
            None => total_time(cpu_times(stat@, cpu_label@)) > u64::MAX,
        },
{
    let list = split_lines(&chars_of(stat));
    let label = chars_of(cpu_label);
    assert(list@.map_values(|l: Vec<char>| l@) =~= lines(stat@));
    let line = match find_cpu_line(&list, &label) {
        Some(i) => i,
        None => return Some((0, 0)),
    };
    let fields = split_whitespace(&list[line]);
    let ghost all = words(list@[line as int]@);
    assert(fields@.map_values(|w: Vec<char>| w@) =~= all);
    if fields.len() == 0 {
        return Some((0, 0));
    }
    let times = number_times(&fields, 1);
    assert(all.skip(1) =~= all.drop_first());
    assert(times@ == cpu_times(stat@, cpu_label@));
    let mut busy: u64 = 0;
    let mut total: u64 = 0;
    for i in 0..times.len()
        invariant
            times@ == cpu_times(stat@, cpu_label@),
            busy == busy_time(times@.take(i as int)),
            total == total_time(times@.take(i as int)),
            busy <= total,
    {
        let value = times[i];
        let ghost now = times@.take(i + 1);
        assert(now.drop_last() =~= times@.take(i as int));
        assert(now.last() == value);
        if total > u64::MAX - value {
            proof {
                lemma_total_grows(times@, i + 1);
            }
            return None;
        }
        total = total + value;
        if i <= 2 || (5 <= i && i <= 7) {
            busy = busy + value;
        }
    }
    assert(times@.take(times@.len() as int) =~= times@);
    Some((busy, total))
}

proof fn lemma_total_grows(times: Seq<u64>, n: int)
    requires
        0 <= n <= times.len(),
    ensures
        total_time(times.take(n)) <= total_time(times),
    decreases times.len(),
{
    if n < times.len() {
        lemma_total_grows(times.drop_last(), n);
        assert(times.drop_last().take(n) =~= times.take(n));
    } else {
        assert(times.take(n) =~= times);
    }
}

/// The utilisation is the growth of the busy time by the growth of the total, at most one.
/// There is none at the first look, nor where the total did not grow.
pub proof fn law_utilisation(tracker: CpuUsageTracker, busy: u64, total: u64)
    ensures
        ({
            let was_busy = tracker.last_busy;
            let was_total = tracker.last_total;
            let util = tracker.util(busy, total);
            &&& util is Some <==> tracker.initialized && total > was_total
            &&& util is Some ==> {
                &&& util->0.total == total - was_total
                &&& was_busy <= busy <= was_busy + (total - was_total) ==> util->0.busy == busy
                    - was_busy
                &&& busy < was_busy ==> util->0.busy == 0
                &&& busy - was_busy > total - was_total ==> util->0.busy == util->0.total
            }
        }),
{
}

/// Another look is taken half a second after the last, and no earlier.
pub proof fn law_usage_is_due_after_half_a_second(monitor: CpuUsageMonitor, now_ns: u128)
    ensures
        monitor.due(now_ns) <==> now_ns >= monitor.last_update_ns + 500_000_000,
{
}

/// One more time adds to the total, and to the busy time unless it was spent idle (at the
/// fourth place), waiting for a device (at the fifth) or for a guest (from the ninth on).
pub proof fn law_times_add_up(times: Seq<u64>, time: u64)
    ensures
        total_time(Seq::empty()) == 0,
        busy_time(Seq::empty()) == 0,
        total_time(times.push(time)) == total_time(times) + time,
        busy_time(times.push(time)) == busy_time(times) + (if times.len() == 3 || times.len() == 4
            || times.len() >= 8 {
            0
        } else {
            time as int
        }),
{
    assert(times.push(time).drop_last() =~= times);
}

/// The line of a CPU is the first that begins with its name and a blank.
pub proof fn law_first_line_of_the_cpu(list: Seq<Seq<char>>, label: Seq<char>, i: int)
    requires
        0 <= i <= list.len(),
        forall|j: int|
            #![trigger list[j]]
            0 <= j < i ==> list[j].len() <= label.len() || list[j].take(label.len() as int)
                != label || !is_ascii_white(list[j][label.len() as int]),
        i < list.len() ==> list[i].len() > label.len() && list[i].take(label.len() as int) == label
            && is_ascii_white(list[i][label.len() as int]),
    ensures
        cpu_line(list, label) == (if i < list.len() {
            Some(list[i])
        } else {
            None
        }),
    decreases list.len(),
{
    if list.len() > 0 {
        let first = list[0];
        if label.len() < first.len() {
            assert(first.subrange(0, label.len() as int) =~= first.take(label.len() as int));
        }
        if i > 0 {
            let rest = list.drop_first();
            assert forall|j: int|
                #![trigger rest[j]]
                0 <= j < i - 1 implies rest[j].len() <= label.len() || rest[j].take(
                label.len() as int,
            ) != label || !is_ascii_white(rest[j][label.len() as int]) by {
                assert(rest[j] == list[j + 1]);
            }
            law_first_line_of_the_cpu(rest, label, i - 1);
        }
    }
}

/// The times are the numbers behind the name, in order. What is no number is passed over.
pub proof fn law_numbers_in_order(list: Seq<Seq<char>>, word: Seq<char>, n: u64)
    ensures
        numbers(Seq::empty()) == Seq::<u64>::empty(),
        numbers(list.push(digits_of(n as nat))) == numbers(list).push(n),
        (word.len() == 0 || exists|i: int|
            #![trigger word[i]]
            0 <= i < word.len() && ((word[i] as u32) < 0x30 || (word[i] as u32) > 0x39) && (i > 0
                || word[0] != '+')) ==> numbers(list.push(word)) == numbers(list),
{
    law_number_round_trip(n as nat, u64::MAX as nat);
    assert(list.push(digits_of(n as nat)).drop_last() =~= list);
    assert(list.push(word).drop_last() =~= list);
    if word.len() > 0 && exists|i: int|
        #![trigger word[i]]
        0 <= i < word.len() && ((word[i] as u32) < 0x30 || (word[i] as u32) > 0x39) && (i > 0
            || word[0] != '+') {
        let i = choose|i: int|
            #![trigger word[i]]
            0 <= i < word.len() && ((word[i] as u32) < 0x30 || (word[i] as u32) > 0x39) && (i > 0
                || word[0] != '+');
        law_no_number(word, u64::MAX as nat, i);
    }
}

/// A text without a line for the CPU has no times for it. Of one with such a line they are
/// the numbers among the words of that line but the first.
pub proof fn law_times_of_the_line(stat: Seq<char>, label: Seq<char>)
    ensures
        cpu_line(lines(stat), label) is None ==> cpu_times(stat, label) == Seq::<u64>::empty(),
        cpu_line(lines(stat), label) matches Some(line) ==> words(line).len() > 0 ==> cpu_times(
            stat,
            label,
        ) == numbers(words(line).skip(1)),
{
    if let Some(line) = cpu_line(lines(stat), label) {
        assert(words(line).drop_first() =~= words(line).skip(1));
    }
}

/// No load is a share of nothing in something.
pub proof fn law_no_share()
    ensures
        no_share().busy == 0,
        no_share().is_valid(),
{
}

} // verus!
