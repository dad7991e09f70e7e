//! Attaching the probes to a process, and keeping track of its threads.
use std::collections::HashSet;
use crate::analyzer::{DEFAULT_UPROBE_SYMBOL, LEGACY_UPROBE_SYMBOL};
use crate::text::{chars_of, digits_of, law_number_round_trip, number, parse_u32};
use vstd::prelude::*;
use vstd::std_specs::hash::*;

verus! {

broadcast use vstd::std_specs::hash::group_hash_axioms;

/// The functions to probe for the end of a frame, in the order in which they are tried: the
/// one that was asked for, if it is not one of the two known ones, then the two known ones,
/// the older first.
pub open spec fn candidates(symbol: Seq<char>) -> Seq<Seq<char>> {
    if symbol != DEFAULT_UPROBE_SYMBOL@ && symbol != LEGACY_UPROBE_SYMBOL@ {
        seq![symbol, LEGACY_UPROBE_SYMBOL@, DEFAULT_UPROBE_SYMBOL@]
    } else {
        seq![LEGACY_UPROBE_SYMBOL@, DEFAULT_UPROBE_SYMBOL@]
    }
}

/// The functions to probe for the end of a frame, in the order in which they are tried.
pub fn uprobe_candidates(symbol: &String) -> (list: Vec<String>)
    ensures
        list@.map_values(|s: String| s@) == candidates(symbol@),
{
    let mut list: Vec<String> = Vec::new();
    if *symbol != DEFAULT_UPROBE_SYMBOL.to_owned() && *symbol != LEGACY_UPROBE_SYMBOL.to_owned() {
        list.push(symbol.clone());
    }
    list.push(LEGACY_UPROBE_SYMBOL.to_owned());
    list.push(DEFAULT_UPROBE_SYMBOL.to_owned());
    list
}

/// No function is tried twice.
pub proof fn law_candidates_are_distinct(symbol: Seq<char>)
    ensures
        candidates(symbol).no_duplicates(),
{
    reveal_strlit(
        "_ZN7android7Surface11queueBufferEP19ANativeWindowBufferiPNS_24SurfaceQueueBufferOutputE",
    );
    reveal_strlit("_ZN7android7Surface11queueBufferEP19ANativeWindowBufferi");
    assert(LEGACY_UPROBE_SYMBOL@.len() == 56);
    assert(DEFAULT_UPROBE_SYMBOL@.len() == 87);
}

/// The events of the kernel that the entry and the exit of a futex call raise, the entry
/// first, where the kernel has such events: those of the plain call, else those of the call
/// with 64-bit times. Each argument says whether the kernel has an event.
pub fn find_futex_syscall_pair(
    enter_exists: bool,
    exit_exists: bool,
    enter_time64_exists: bool,
    exit_time64_exists: bool,
) -> (pair: Option<(&'static str, &'static str)>)
    ensures
        match pair {
            Some((enter, exit)) => if enter_exists && exit_exists {
                enter@ == "sys_enter_futex"@ && exit@ == "sys_exit_futex"@
            } else {
                enter_time64_exists && exit_time64_exists && enter@ == "sys_enter_futex_time64"@
                    && exit@ == "sys_exit_futex_time64"@
            },
            None => !(enter_exists && exit_exists) && !(enter_time64_exists && exit_time64_exists),
        },
{
    if enter_exists && exit_exists {
        return Some(("sys_enter_futex", "sys_exit_futex"));
    }
    if enter_time64_exists && exit_time64_exists {
        return Some(("sys_enter_futex_time64", "sys_exit_futex_time64"));
    }
    None
}

/// What to do next to probe the end of a frame.
#[derive(Debug, Copy, Clone, PartialEq, Eq, Structural)]
pub enum UprobeAttach {
    /// Attach the probe to the candidate at this place.
    Try(usize),
    /// Nothing: the probe is in place.
    Done,
    /// Nothing: no candidate is left.
    Failed,
}

impl UprobeAttach {
    /// What follows `self`, where `ok` says whether that worked and there are `candidates`
    /// candidates: the first that works ends it, else the next is tried.
    pub open spec fn after(self, ok: bool, candidates: nat) -> UprobeAttach {
        match self {
            UprobeAttach::Try(i) => if ok {
                UprobeAttach::Done
            } else if i + 1 < candidates {
                UprobeAttach::Try((i + 1) as usize)
            } else {
                UprobeAttach::Failed
            },
            _ => self,
        }
    }

    /// What follows `self`, where `ok` says whether that worked.
    pub fn next(self, ok: bool, candidates: usize) -> (action: UprobeAttach)
        ensures
            action == self.after(ok, candidates as nat),
    {
        match self {
            UprobeAttach::Try(i) => {
                if ok {
                    UprobeAttach::Done
                } else if i < candidates && candidates - i > 1 {
                    UprobeAttach::Try(i + 1)
                } else {
                    UprobeAttach::Failed
                }
            },
            _ => self,
        }
    }
}

/// The action from the first candidate on, where `oks` says which attempts worked.
pub open spec fn uprobe_run(oks: Seq<bool>, candidates: nat) -> UprobeAttach
    decreases oks.len(),
{
    if oks.len() == 0 {
        UprobeAttach::Try(0)
    } else {
        uprobe_run(oks.drop_last(), candidates).after(oks.last(), candidates)
    }
}

/// The candidates are tried in order and each once: after `oks.len()` attempts that all
/// failed the next one is tried, or none is left, and the first that works ends it.
pub proof fn law_candidates_are_tried_in_order(oks: Seq<bool>, candidates: nat)
    requires
        0 < candidates <= usize::MAX,
        oks.len() <= candidates,
        forall|i: int| 0 <= i < oks.len() ==> !#[trigger] oks[i],
    ensures
        uprobe_run(oks, candidates) == (if oks.len() < candidates {
            UprobeAttach::Try(oks.len() as usize)
        } else {
            UprobeAttach::Failed
        }),
        oks.len() < candidates ==> uprobe_run(oks.push(true), candidates) == UprobeAttach::Done,
    decreases oks.len(),
{
    assert(oks.push(true).drop_last() =~= oks);
    if oks.len() > 0 {
        let front = oks.drop_last();
        assert forall|i: int| 0 <= i < front.len() implies !#[trigger] front[i] by {
            assert(front[i] == oks[i]);
        }
        assert(!oks[oks.len() - 1]);
        law_candidates_are_tried_in_order(front, candidates);
    }
}

/// The path `part` taken from `base`: `part` itself where it is absolute, else what follows
/// `base` after a slash.
pub open spec fn joined(base: Seq<char>, part: Seq<char>) -> Seq<char> {
    if part.len() > 0 && part[0] == '/' {
        part
    } else if base.len() > 0 && base.last() != '/' {
        base.push('/') + part
    } else {
        base + part
    }
}

/// The path `part` taken from `base`.
fn join(base: &String, part: &str) -> (path: String)
    ensures
        path@ == joined(base@, part@),
{
    let head = chars_of(base.as_str());
    let tail = chars_of(part);
    if tail.len() > 0 && tail[0] == '/' {
        return part.to_owned();
    }
    proof {
        reveal_strlit("/");
    }
    if head.len() > 0 && head[head.len() - 1] != '/' {
        assert(base@ + "/"@ =~= base@.push('/'));
        return base.clone().concat("/").concat(part);
    }
    base.clone().concat(part)
}

/// The file under `base` that exists where the kernel has the event `name`.
pub open spec fn id_path(base: Seq<char>, category: Seq<char>, name: Seq<char>) -> Seq<char> {
    joined(joined(joined(base, category), name), "id"@)
}

fn tracepoint_id_path(base: &str, category: &str, name: &str) -> (path: String)
    ensures
        path@ == id_path(base@, category@, name@),
{
    join(&join(&join(&base.to_owned(), category), name), "id")
}

/// The files one of which exists where the kernel has the event `name`.
pub fn tracepoint_id_paths(category: &str, name: &str) -> (paths: Vec<String>)
    ensures
        paths@.map_values(|p: String| p@) == seq![
            id_path("/sys/kernel/tracing/events"@, category@, name@),
            id_path("/sys/kernel/debug/tracing/events"@, category@, name@),
        ],
{
    let mut paths: Vec<String> = Vec::new();
    paths.push(tracepoint_id_path("/sys/kernel/tracing/events", category, name));
    paths.push(tracepoint_id_path("/sys/kernel/debug/tracing/events", category, name));
    paths
}

/// A probe on the futex call.
#[derive(Debug, Copy, Clone, PartialEq, Eq, Structural)]
pub enum FutexProbe {
    Enter,
    Exit,
    RawEnter,
    RawExit,
}

/// What has to be done next to probe the futex call.
#[derive(Debug, Copy, Clone, PartialEq, Eq, Structural)]
pub enum FutexAttach {
    /// Find and load the program of the probe.
    Load(FutexProbe),
    /// Attach it.
    Attach(FutexProbe),
    /// Detach the probe on the exit again.
    DetachExit,
    /// Nothing: the probes are in place.
    Done,
    /// Nothing: it did not work.
    Failed,
}

impl FutexAttach {
    /// The first thing to do, where `pair_exists` says whether the kernel has events of
    /// the futex call alone. Without them every system call has to be probed.
    pub fn start(pair_exists: bool) -> (action: Self)
        ensures
            action == (if pair_exists {
                FutexAttach::Load(FutexProbe::Exit)
            } else {
                FutexAttach::Load(FutexProbe::RawEnter)
            }),
    {
        if pair_exists {
            FutexAttach::Load(FutexProbe::Exit)
        } else {
            FutexAttach::Load(FutexProbe::RawEnter)
        }
    }

    /// What follows `self`, where `ok` says whether that worked. The exit is probed first.
    /// Where either probe on the futex call alone does not work, every system call is
    /// probed; the probe on the exit is taken back only where attaching that on the entry
    /// failed.
    pub open spec fn after(self, ok: bool) -> FutexAttach {
        match self {
            FutexAttach::Load(probe) => if ok {
                FutexAttach::Attach(probe)
            } else if probe == FutexProbe::Exit || probe == FutexProbe::Enter {
                FutexAttach::Load(FutexProbe::RawEnter)
            } else {
                FutexAttach::Failed
            },
            FutexAttach::Attach(FutexProbe::Exit) => if ok {
                FutexAttach::Load(FutexProbe::Enter)
            } else {
                FutexAttach::Load(FutexProbe::RawEnter)
            },
            FutexAttach::Attach(FutexProbe::Enter) => if ok {
                FutexAttach::Done
            } else {
                FutexAttach::DetachExit
            },
            FutexAttach::DetachExit => FutexAttach::Load(FutexProbe::RawEnter),
            FutexAttach::Attach(FutexProbe::RawEnter) => if ok {
                FutexAttach::Load(FutexProbe::RawExit)
            } else {
                FutexAttach::Failed
            },
            FutexAttach::Attach(FutexProbe::RawExit) => if ok {
                FutexAttach::Done
            } else {
                FutexAttach::Failed
            },
            FutexAttach::Done => FutexAttach::Done,
            FutexAttach::Failed => FutexAttach::Failed,
        }
    }

    /// What follows `self`, where `ok` says whether that worked.
    pub fn next(self, ok: bool) -> (action: Self)
        ensures
            action == self.after(ok),
    {
        match self {
            FutexAttach::Load(probe) => {
                if ok {
                    return FutexAttach::Attach(probe);
                }
                match probe {
                    FutexProbe::Exit | FutexProbe::Enter => FutexAttach::Load(FutexProbe::RawEnter),
                    FutexProbe::RawEnter | FutexProbe::RawExit => FutexAttach::Failed,
                }
            },
            FutexAttach::Attach(FutexProbe::Exit) => {
                if ok {
                    FutexAttach::Load(FutexProbe::Enter)
                } else {
                    FutexAttach::Load(FutexProbe::RawEnter)
                }
            },
            FutexAttach::Attach(FutexProbe::Enter) => {
                if ok {
                    FutexAttach::Done
                } else {
                    FutexAttach::DetachExit
                }
            },
            FutexAttach::DetachExit => FutexAttach::Load(FutexProbe::RawEnter),
            FutexAttach::Attach(FutexProbe::RawEnter) => {
                if ok {
                    FutexAttach::Load(FutexProbe::RawExit)
                } else {
                    FutexAttach::Failed
                }
            },
            FutexAttach::Attach(FutexProbe::RawExit) => {
                if ok {
                    FutexAttach::Done
                } else {
                    FutexAttach::Failed
                }
            },
            FutexAttach::Done => FutexAttach::Done,
            FutexAttach::Failed => FutexAttach::Failed,
        }
    }
}

/// The probes in place after `action` worked or did not.
pub open spec fn probes_after(
    probes: Set<FutexProbe>,
    action: FutexAttach,
    ok: bool,
) -> Set<FutexProbe> {
    match action {
        FutexAttach::Attach(probe) if ok => probes.insert(probe),
        FutexAttach::DetachExit if ok => probes.remove(FutexProbe::Exit),
        _ => probes,
    }
}

/// The actions from `start` on, where `oks` says which of them worked, and the probes in
/// place after the last.
pub open spec fn attach_run(start: FutexAttach, oks: Seq<bool>) -> (FutexAttach, Set<FutexProbe>)
    decreases oks.len(),
{
    if oks.len() == 0 {
        (start, Set::empty())
    } else {
        let (action, probes) = attach_run(start, oks.drop_last());
        (action.after(oks.last()), probes_after(probes, action, oks.last()))
    }
}

/// Probes on the entry and on the exit are in place.
pub open spec fn both_sides(probes: Set<FutexProbe>) -> bool {
    ||| probes.contains(FutexProbe::Enter) && probes.contains(FutexProbe::Exit)
    ||| probes.contains(FutexProbe::RawEnter) && probes.contains(FutexProbe::RawExit)
}

/// What is known of the probes in place before `action`.
spec fn attach_inv(action: FutexAttach, probes: Set<FutexProbe>) -> bool {
    match action {
        FutexAttach::Load(FutexProbe::Exit) | FutexAttach::Attach(FutexProbe::Exit) => probes
            == Set::<FutexProbe>::empty(),
        FutexAttach::Load(FutexProbe::Enter)
        | FutexAttach::Attach(FutexProbe::Enter)
        | FutexAttach::DetachExit => probes == set![FutexProbe::Exit],
        FutexAttach::Load(FutexProbe::RawEnter)
        | FutexAttach::Attach(FutexProbe::RawEnter) => !probes.contains(FutexProbe::Enter),
        FutexAttach::Load(FutexProbe::RawExit)
        | FutexAttach::Attach(FutexProbe::RawExit) => !probes.contains(FutexProbe::Enter)
            && probes.contains(FutexProbe::RawEnter),
        FutexAttach::Done => both_sides(probes) && !(probes.contains(FutexProbe::Enter)
            && probes.contains(FutexProbe::RawEnter)),
        FutexAttach::Failed => true,
    }
}

proof fn lemma_attach_inv(start: FutexAttach, oks: Seq<bool>)
    requires
        start == FutexAttach::Load(FutexProbe::Exit) || start == FutexAttach::Load(
            FutexProbe::RawEnter,
        ),
    ensures
        attach_inv(attach_run(start, oks).0, attach_run(start, oks).1),
    decreases oks.len(),
{
    if oks.len() > 0 {
        lemma_attach_inv(start, oks.drop_last());
        let (action, probes) = attach_run(start, oks.drop_last());
        if action == FutexAttach::Attach(FutexProbe::Exit) {
            assert(probes.insert(FutexProbe::Exit) =~= set![FutexProbe::Exit]);
        }
    }
}

/// Where attaching is done, both the entry and the exit are probed, and the entry is not
/// probed twice, whatever failed on the way.
pub proof fn law_done_means_both_sides(pair_exists: bool, oks: Seq<bool>)
    ensures
        ({
            let start = if pair_exists {
                FutexAttach::Load(FutexProbe::Exit)
            } else {
                FutexAttach::Load(FutexProbe::RawEnter)
            };
            let (action, probes) = attach_run(start, oks);
            action == FutexAttach::Done ==> both_sides(probes) && !(probes.contains(
                FutexProbe::Enter,
            ) && probes.contains(FutexProbe::RawEnter))
        }),
{
    let start = if pair_exists {
        FutexAttach::Load(FutexProbe::Exit)
    } else {
        FutexAttach::Load(FutexProbe::RawEnter)
    };
    lemma_attach_inv(start, oks);
}

/// The threads whose numbers are among the file names `names`.
pub open spec fn tids_named(names: Seq<String>) -> Seq<u32>
    decreases names.len(),
{
    if names.len() == 0 {
        Seq::empty()
    } else {
        match number(names.last()@, u32::MAX as nat) {
            Some(tid) => tids_named(names.drop_last()).push(tid as u32),
            None => tids_named(names.drop_last()),
        }
    }
}

/// The threads of a process, by the names of the files in its task directory.
pub fn list_task_tids(names: &Vec<String>) -> (tids: Vec<u32>)
    ensures
        tids@ == tids_named(names@),
{
    let mut tids: Vec<u32> = Vec::new();
    for i in 0..names.len()
        invariant
            tids@ == tids_named(names@.take(i as int)),
    {
        assert(names@.take(i + 1).drop_last() =~= names@.take(i as int));
        if let Some(tid) = parse_u32(&chars_of(names[i].as_str())) {
            tids.push(tid);
        }
    }
    assert(names@.take(names@.len() as int) =~= names@);
    tids
}

/// The threads in `marked` that are not in `live`: they are gone, and their marks with them.
pub fn stale_tids(marked: &Vec<u32>, live: &Vec<u32>) -> (stale: Vec<u32>)
    ensures
        stale@ == marked@.filter(|tid: u32| !live@.contains(tid)),
{
    let mut set: HashSet<u32> = HashSet::new();
    for i in 0..live.len()
        invariant
            forall|tid: u32| #[trigger] set@.contains(tid) <==> live@.take(i as int).contains(tid),
    {
        set.insert(live[i]);
        proof {
            let before = live@.take(i as int);
            let now = live@.take(i + 1);
            assert(now =~= before.push(live@[i as int]));
            assert forall|tid: u32| #[trigger] set@.contains(tid) <==> now.contains(tid) by {
                if before.contains(tid) {
                    let k = choose|k: int| 0 <= k < before.len() && before[k] == tid;
                    assert(now[k] == tid);
                }
                if tid == live@[i as int] {
                    assert(now[i as int] == tid);
                }
            }
        }
    }
    assert(live@.take(live@.len() as int) =~= live@);
    let mut stale: Vec<u32> = Vec::new();
    let ghost gone = |tid: u32| !live@.contains(tid);
    proof {
        reveal(Seq::filter);
    }
    for i in 0..marked.len()
        invariant
            gone == (|tid: u32| !live@.contains(tid)),
            forall|tid: u32| #[trigger] set@.contains(tid) <==> live@.contains(tid),
            stale@ == marked@.take(i as int).filter(gone),
    {
        proof {
            reveal(Seq::filter);
            assert(marked@.take(i + 1).drop_last() =~= marked@.take(i as int));
        }
        if !set.contains(&marked[i]) {
            stale.push(marked[i]);
        }
    }
    assert(marked@.take(marked@.len() as int) =~= marked@);
    stale
}

/// The two known functions are always tried, the newer one last and the older one before it.
/// The one that was asked for is tried as well, and first where it is neither of them.
pub proof fn law_candidate_order(symbol: Seq<char>)
    ensures
        ({
            let list = candidates(symbol);
            let n = list.len();
            let known = symbol == DEFAULT_UPROBE_SYMBOL@ || symbol == LEGACY_UPROBE_SYMBOL@;
            &&& n >= 2
            &&& list[n - 1] == DEFAULT_UPROBE_SYMBOL@
            &&& list[n - 2] == LEGACY_UPROBE_SYMBOL@
            &&& n == 2 <==> known
            &&& !known ==> n == 3 && list[0] == symbol
        }),
{
}

/// A path that begins with a slash is taken as it is. Any other follows the base, with one
/// slash in between.
pub proof fn law_joined_paths(base: Seq<char>, part: Seq<char>)
    requires
        part.len() > 0 ==> part[0] != '/',
    ensures
        joined(base, seq!['/'] + part) == seq!['/'] + part,
        joined(Seq::empty(), part) == part,
        joined(base.push('/'), part) == base.push('/') + part,
        base.len() > 0 && base[base.len() - 1] != '/' ==> joined(base, part) == base + seq!['/']
            + part,
{
    assert(Seq::<char>::empty() + part =~= part);
    assert(base + seq!['/'] + part =~= base.push('/') + part);
}

/// The file of an event lies under the base, in the directory of the event, in that of its
/// category.
pub proof fn law_path_of_an_event(base: Seq<char>, category: Seq<char>, name: Seq<char>)
    requires
        base.len() > 0 && base[base.len() - 1] != '/',
        category.len() > 0 && category[0] != '/' && category[category.len() - 1] != '/',
        name.len() > 0 && name[0] != '/' && name[name.len() - 1] != '/',
    ensures
        id_path(base, category, name) == base + seq!['/'] + category + seq!['/'] + name + seq![
            '/',
            'i',
            'd',
        ],
{
    reveal_strlit("id");
    law_joined_paths(base, category);
    let dir = joined(base, category);
    assert(dir[dir.len() - 1] == category[category.len() - 1]);
    law_joined_paths(dir, name);
    let event = joined(dir, name);
    assert(event[event.len() - 1] == name[name.len() - 1]);
    law_joined_paths(event, "id"@);
    assert(id_path(base, category, name) =~= base + seq!['/'] + category + seq!['/'] + name + seq![
        '/',
        'i',
        'd',
    ]);
}

/// Where everything works, four steps put a probe on each side: those on the futex call alone
/// where the kernel has its events, else those on every system call.
pub proof fn law_nothing_fails(pair_exists: bool, oks: Seq<bool>)
    requires
        oks.len() == 4,
        forall|i: int| 0 <= i < 4 ==> #[trigger] oks[i],
    ensures
        pair_exists ==> attach_run(FutexAttach::Load(FutexProbe::Exit), oks) == (
            FutexAttach::Done,
            set![FutexProbe::Exit, FutexProbe::Enter],
        ),
        !pair_exists ==> attach_run(FutexAttach::Load(FutexProbe::RawEnter), oks) == (
            FutexAttach::Done,
            set![FutexProbe::RawEnter, FutexProbe::RawExit],
        ),
{
    reveal_with_fuel(attach_run, 5);
    assert(oks[0] && oks[1] && oks[2] && oks[3]);
    let alone = attach_run(FutexAttach::Load(FutexProbe::Exit), oks);
    assert(alone.1 =~= set![FutexProbe::Exit, FutexProbe::Enter]);
    let every = attach_run(FutexAttach::Load(FutexProbe::RawEnter), oks);
    assert(every.1 =~= set![FutexProbe::RawEnter, FutexProbe::RawExit]);
}

/// Attaching fails only where a probe on every system call does, and it is given up at once
/// then. Where a probe on the futex call alone fails, every system call is probed next.
pub proof fn law_only_raw_probes_are_needed(action: FutexAttach, ok: bool)
    ensures
        action.after(ok) == FutexAttach::Failed && action != FutexAttach::Failed ==> !ok && (action
            == FutexAttach::Load(FutexProbe::RawEnter) || action == FutexAttach::Attach(
            FutexProbe::RawEnter,
        ) || action == FutexAttach::Load(FutexProbe::RawExit) || action == FutexAttach::Attach(
            FutexProbe::RawExit,
        )),
        !ok && (action matches FutexAttach::Load(probe) && (probe == FutexProbe::RawEnter || probe
            == FutexProbe::RawExit)) ==> action.after(ok) == FutexAttach::Failed,
        !ok && (action matches FutexAttach::Attach(probe) && (probe == FutexProbe::RawEnter || probe
            == FutexProbe::RawExit)) ==> action.after(ok) == FutexAttach::Failed,
        !ok && (action matches FutexAttach::Load(probe) && (probe == FutexProbe::Enter || probe
            == FutexProbe::Exit)) ==> action.after(ok) == FutexAttach::Load(FutexProbe::RawEnter),
        !ok && (action matches FutexAttach::Attach(probe) && (probe == FutexProbe::Enter || probe
            == FutexProbe::Exit)) ==> action.after(ok) == FutexAttach::Load(FutexProbe::RawEnter)
            || action.after(ok) == FutexAttach::DetachExit && action.after(ok).after(ok)
            == FutexAttach::Load(FutexProbe::RawEnter),
        action.after(ok) == FutexAttach::DetachExit <==> action == FutexAttach::Attach(
            FutexProbe::Enter,
        ) && !ok,
        action matches FutexAttach::Load(probe) ==> (ok ==> action.after(ok) == FutexAttach::Attach(
            probe,
        )),
{
}

/// The threads are the numbers among the names, in order. Other names are passed over.
pub proof fn law_threads_by_name(names: Seq<String>, name: String, tid: u32)
    ensures
        tids_named(Seq::empty()) == Seq::<u32>::empty(),
        name@ == digits_of(tid as nat) ==> tids_named(names.push(name)) == tids_named(names).push(
            tid,
        ),
        number(name@, u32::MAX as nat) is None ==> tids_named(names.push(name)) == tids_named(
            names,
        ),
{
    law_number_round_trip(tid as nat, u32::MAX as nat);
    assert(names.push(name).drop_last() =~= names);
}

} // verus!
