//! The frequency budget of all policies together, and what each of them can take of it.
use std::collections::HashMap;
use vstd::prelude::*;
use vstd::std_specs::hash::*;

verus! {

broadcast use vstd::std_specs::hash::group_hash_axioms;

/// A frequency policy and the frequencies that it offers, in increasing order, in kHz.
#[derive(Debug)]
pub struct Info {
    pub policy: i32,
    /// The frequency that was last asked for.
    pub cur_fas_freq: isize,
    pub freqs: Vec<isize>,
}

/// `x` as far as it fits.
pub open spec fn fit(x: int) -> isize {
    if x > isize::MAX {
        isize::MAX
    } else if x < isize::MIN {
        isize::MIN
    } else {
        x as isize
    }
}

/// `x` held between `lo` and `hi`.
pub open spec fn held(x: isize, lo: isize, hi: isize) -> isize {
    if x < lo {
        lo
    } else if x > hi {
        hi
    } else {
        x
    }
}

/// The sum of `a` and `b` as far as it fits.
pub fn add_fit(a: isize, b: isize) -> (sum: isize)
    ensures
        sum == fit(a + b),
{
    match a.checked_add(b) {
        Some(v) => v,
        None => {
            if b > 0 {
                isize::MAX
            } else {
                isize::MIN
            }
        },
    }
}

/// The difference of `a` and `b` as far as it fits.
pub fn sub_fit(a: isize, b: isize) -> (diff: isize)
    ensures
        diff == fit(a - b),
{
    match a.checked_sub(b) {
        Some(v) => v,
        None => {
            if b < 0 {
                isize::MAX
            } else {
                isize::MIN
            }
        },
    }
}

/// `x` held between `lo` and `hi`.
pub fn hold(x: isize, lo: isize, hi: isize) -> (res: isize)
    requires
        lo <= hi,
    ensures
        res == held(x, lo, hi),
        lo <= res <= hi,
{
    if x < lo {
        lo
    } else if x > hi {
        hi
    } else {
        x
    }
}

impl Info {
    /// The lowest frequency does not lie above the highest.
    pub open spec fn wf(self) -> bool {
        self.freqs@.len() > 0 ==> self.freqs@[0] <= self.freqs@.last()
    }

    /// The last frequency, held to what the policy offers.
    pub open spec fn current(self) -> isize {
        if self.freqs@.len() > 0 {
            held(self.cur_fas_freq, self.freqs@[0], self.freqs@.last())
        } else {
            self.cur_fas_freq
        }
    }

    /// The lowest frequency does not lie above the highest.
    pub fn is_sane(&self) -> (sane: bool)
        ensures
            sane == self.wf(),
    {
        self.freqs.len() == 0 || self.freqs[0] <= self.freqs[self.freqs.len() - 1]
    }

    /// The last frequency, held to what the policy offers.
    pub fn held_freq(&self) -> (freq: isize)
        requires
            self.wf(),
        ensures
            freq == self.current(),
    {
        if self.freqs.len() == 0 {
            return self.cur_fas_freq;
        }
        hold(self.cur_fas_freq, self.freqs[0], self.freqs[self.freqs.len() - 1])
    }

    /// The frequency `hw_freq` that the hardware runs at, held to what the policy offers.
    /// There is none where it offers nothing.
    pub fn sync_freq(&self, hw_freq: isize) -> (freq: Option<isize>)
        requires
            self.wf(),
        ensures
            freq == (if self.freqs@.len() > 0 {
                Some(held(hw_freq, self.freqs@[0], self.freqs@.last()))
            } else {
                None
            }),
    {
        if self.freqs.len() == 0 {
            return None;
        }
        Some(hold(hw_freq, self.freqs[0], self.freqs[self.freqs.len() - 1]))
    }
}

/// Every policy is sane.
pub open spec fn all_wf(infos: Seq<Info>) -> bool {
    forall|i: int| 0 <= i < infos.len() ==> (#[trigger] infos[i]).wf()
}

/// The sum of the lowest frequencies.
pub open spec fn total_min(infos: Seq<Info>) -> isize
    decreases infos.len(),
{
    if infos.len() == 0 {
        0
    } else if infos.last().freqs@.len() > 0 {
        fit(total_min(infos.drop_last()) + infos.last().freqs@[0])
    } else {
        total_min(infos.drop_last())
    }
}

/// The sum of the highest frequencies.
pub open spec fn total_max(infos: Seq<Info>) -> isize
    decreases infos.len(),
{
    if infos.len() == 0 {
        0
    } else if infos.last().freqs@.len() > 0 {
        fit(total_max(infos.drop_last()) + infos.last().freqs@.last())
    } else {
        total_max(infos.drop_last())
    }
}

/// The sum of the current frequencies.
pub open spec fn total_current(infos: Seq<Info>) -> isize
    decreases infos.len(),
{
    if infos.len() == 0 {
        0
    } else {
        fit(total_current(infos.drop_last()) + infos.last().current())
    }
}

/// The lowest budget does not lie above the highest.
pub proof fn law_budget_range(infos: Seq<Info>)
    requires
        all_wf(infos),
    ensures
        total_min(infos) <= total_max(infos),
    decreases infos.len(),
{
    if infos.len() > 0 {
        let rest = infos.drop_last();
        assert forall|i: int| 0 <= i < rest.len() implies (#[trigger] rest[i]).wf() by {
            assert(rest[i] == infos[i]);
        }
        law_budget_range(rest);
        assert(infos[infos.len() - 1].wf());
    }
}

/// The three sums.
#[derive(Debug, Copy, Clone, PartialEq, Eq, Structural)]
pub struct Totals {
    pub min: isize,
    pub max: isize,
    pub current: isize,
}

/// The three sums of `infos`.
pub fn totals_of(infos: &Vec<Info>) -> (totals: Totals)
    requires
        all_wf(infos@),
    ensures
        totals.min == total_min(infos@),
        totals.max == total_max(infos@),
        totals.current == total_current(infos@),
        totals.min <= totals.max,
{
    let mut totals = Totals { min: 0, max: 0, current: 0 };
    for i in 0..infos.len()
        invariant
            all_wf(infos@),
            totals.min == total_min(infos@.take(i as int)),
            totals.max == total_max(infos@.take(i as int)),
            totals.current == total_current(infos@.take(i as int)),
    {
        let cpu = &infos[i];
        assert(infos@.take(i + 1).drop_last() =~= infos@.take(i as int));
        if cpu.freqs.len() > 0 {
            totals.min = add_fit(totals.min, cpu.freqs[0]);
            totals.max = add_fit(totals.max, cpu.freqs[cpu.freqs.len() - 1]);
        }
        totals.current = add_fit(totals.current, cpu.held_freq());
    }
    assert(infos@.take(infos@.len() as int) =~= infos@);
    proof {
        law_budget_range(infos@);
    }
    totals
}

/// Least step of the budget for each policy.
pub const MIN_STEP_KHZ_PER_POLICY: isize = 30_000;

/// Least step of the budget for `policies` policies.
pub open spec fn min_step(policies: nat) -> isize {
    fit(MIN_STEP_KHZ_PER_POLICY * (if policies > 1 {
        policies as int
    } else {
        1
    }))
}

/// The budget that is worked from: the last one, or the current frequencies where there was
/// none, held to what the policies offer.
pub open spec fn base_total(infos: Seq<Info>, last: Option<isize>) -> isize {
    held(
        match last {
            Some(prev) => prev,
            None => total_current(infos),
        },
        total_min(infos),
        total_max(infos),
    )
}

/// The largest step of the budget, where `ratio_step` is the step that the last budget
/// allows for.
pub open spec fn max_step(infos: Seq<Info>, ratio_step: isize) -> isize {
    if ratio_step > min_step(infos.len()) {
        ratio_step
    } else {
        min_step(infos.len())
    }
}

/// The next budget, where `wanted` is the budget that the controller asks for. It moves by
/// at most one step, and stays within what the policies offer.
pub open spec fn next_total(
    infos: Seq<Info>,
    last: Option<isize>,
    wanted: isize,
    ratio_step: isize,
) -> isize {
    let lo = total_min(infos);
    let hi = total_max(infos);
    let target = held(wanted, lo, hi);
    match last {
        Some(prev) => {
            let step = max_step(infos, ratio_step);
            held(held(target, fit(prev - step), fit(prev + step)), lo, hi)
        },
        None => target,
    }
}

/// The budget never leaves what the policies offer, and where the last one did not either,
/// it moves by at most one step.
pub proof fn law_budget_moves_by_steps(
    infos: Seq<Info>,
    last: Option<isize>,
    wanted: isize,
    ratio_step: isize,
)
    requires
        all_wf(infos),
    ensures
        total_min(infos) <= next_total(infos, last, wanted, ratio_step) <= total_max(infos),
        last is Some && total_min(infos) <= last->0 <= total_max(infos) ==> last->0 - max_step(
            infos,
            ratio_step,
        ) <= next_total(infos, last, wanted, ratio_step) <= last->0 + max_step(infos, ratio_step),
{
    law_budget_range(infos);
    assert(min_step(infos.len()) >= 0) by {
        let n: int = if infos.len() > 1 {
            infos.len() as int
        } else {
            1
        };
        assert(MIN_STEP_KHZ_PER_POLICY * n >= 0) by (nonlinear_arith)
            requires
                n >= 1,
                MIN_STEP_KHZ_PER_POLICY == 30_000,
        ;
    }
}

/// A budget that is reachable in one step is reached.
pub proof fn law_reachable_budget_is_reached(
    infos: Seq<Info>,
    prev: isize,
    wanted: isize,
    ratio_step: isize,
)
    requires
        all_wf(infos),
        total_min(infos) <= wanted <= total_max(infos),
        prev - max_step(infos, ratio_step) <= wanted <= prev + max_step(infos, ratio_step),
    ensures
        next_total(infos, Some(prev), wanted, ratio_step) == wanted,
{
    law_budget_range(infos);
}

/// [`min_step`].
pub fn least_step(policies: usize) -> (step: isize)
    ensures
        step == min_step(policies as nat),
        step > 0,
{
    let n: usize = if policies > 1 {
        policies
    } else {
        1
    };
    if n > (isize::MAX as usize) / 30_000 {
        assert(30_000 * n > isize::MAX) by (nonlinear_arith)
            requires
                n > (isize::MAX as usize) / 30_000,
        ;
        return isize::MAX;
    }
    assert(0 < 30_000 * n <= isize::MAX) by (nonlinear_arith)
        requires
            0 < n <= (isize::MAX as usize) / 30_000,
    ;
    (n * 30_000) as isize
}

/// What a policy can take of the budget.
#[derive(Debug, Copy, Clone, PartialEq, Eq, Structural)]
pub struct BudgetSlot {
    pub policy: i32,
    pub min: isize,
    pub max: isize,
    /// How far the policy can go above its lowest frequency.
    pub cap: isize,
}

/// The slot of a policy that offers frequencies.
pub open spec fn slot_of(info: Info) -> BudgetSlot {
    let min = info.freqs@[0];
    let max = info.freqs@.last();
    BudgetSlot {
        policy: info.policy,
        min,
        max,
        cap: if max > min {
            fit(max - min)
        } else {
            0
        },
    }
}

/// The slots of the policies that offer frequencies, in order.
pub open spec fn slots_of(infos: Seq<Info>) -> Seq<BudgetSlot>
    decreases infos.len(),
{
    if infos.len() == 0 {
        Seq::empty()
    } else if infos.last().freqs@.len() > 0 {
        slots_of(infos.drop_last()).push(slot_of(infos.last()))
    } else {
        slots_of(infos.drop_last())
    }
}

/// The frequency of each policy after `targets` were given to `slots`, in order.
pub open spec fn assigned(slots: Seq<BudgetSlot>, targets: Seq<isize>) -> Map<i32, isize>
    decreases slots.len(),
{
    if slots.len() == 0 {
        Map::empty()
    } else {
        assigned(slots.drop_last(), targets.drop_last()).insert(slots.last().policy, targets.last())
    }
}

/// Gives each slot its target.
pub fn assign_targets(slots: &Vec<BudgetSlot>, targets: &Vec<isize>) -> (freqs: HashMap<i32, isize>)
    requires
        targets@.len() == slots@.len(),
    ensures
        freqs@ == assigned(slots@, targets@),
{
    let mut freqs: HashMap<i32, isize> = HashMap::new();
    for i in 0..slots.len()
        invariant
            targets@.len() == slots@.len(),
            freqs@ == assigned(slots@.take(i as int), targets@.take(i as int)),
    {
        assert(slots@.take(i + 1).drop_last() =~= slots@.take(i as int));
        assert(targets@.take(i + 1).drop_last() =~= targets@.take(i as int));
        freqs.insert(slots[i].policy, targets[i]);
    }
    assert(slots@.take(slots@.len() as int) =~= slots@);
    assert(targets@.take(targets@.len() as int) =~= targets@);
    freqs
}

/// The policy that the watched CPU belongs to.
pub const P0_POLICY: i32 = 0;

/// Index of the first policy that is [`P0_POLICY`].
pub open spec fn p0_index(infos: Seq<Info>) -> Option<int> {
    if exists|i: int| 0 <= i < infos.len() && (#[trigger] infos[i]).policy == P0_POLICY {
        Some(
            choose|i: int|
                0 <= i < infos.len() && (#[trigger] infos[i]).policy == P0_POLICY && forall|j: int|
                    0 <= j < i ==> (#[trigger] infos[j]).policy != P0_POLICY,
        )
    } else {
        None
    }
}

/// What the first policy offers, and where it stands.
#[derive(Debug, Copy, Clone, PartialEq, Eq, Structural)]
pub struct P0Range {
    pub min: isize,
    pub max: isize,
    pub current: isize,
}

/// What [`P0_POLICY`] offers. There is nothing where it does not exist or offers nothing.
pub open spec fn p0_range(infos: Seq<Info>) -> Option<P0Range> {
    match p0_index(infos) {
        Some(i) => if infos[i].freqs@.len() > 0 {
            Some(
                P0Range {
                    min: infos[i].freqs@[0],
                    max: infos[i].freqs@.last(),
                    current: infos[i].current(),
                },
            )
        } else {
            None
        },
        None => None,
    }
}

/// The first policy that is [`P0_POLICY`] is sane, where there is one.
pub open spec fn p0_sane(infos: Seq<Info>) -> bool {
    p0_index(infos) is Some ==> infos[p0_index(infos)->0].wf()
}

/// Where every policy is sane, [`P0_POLICY`] is.
pub proof fn lemma_p0_sane(infos: Seq<Info>)
    requires
        all_wf(infos),
    ensures
        p0_sane(infos),
{
    if p0_index(infos) is Some {
        lemma_p0_exists(infos, infos.len() as int);
    }
}

/// Some policy among the first `n` being [`P0_POLICY`], there is a first.
proof fn lemma_p0_exists(infos: Seq<Info>, n: int)
    requires
        0 <= n <= infos.len(),
        exists|i: int| 0 <= i < n && (#[trigger] infos[i]).policy == P0_POLICY,
    ensures
        p0_index(infos) is Some,
        0 <= p0_index(infos)->0 < infos.len(),
    decreases n,
{
    let i = choose|i: int| 0 <= i < n && (#[trigger] infos[i]).policy == P0_POLICY;
    if exists|j: int| 0 <= j < i && (#[trigger] infos[j]).policy == P0_POLICY {
        lemma_p0_exists(infos, i);
    } else {
        lemma_p0_index(infos, i);
    }
}

/// The first policy that is [`P0_POLICY`] is the one that [`p0_index`] gives.
pub proof fn lemma_p0_index(infos: Seq<Info>, i: int)
    requires
        0 <= i < infos.len(),
        infos[i].policy == P0_POLICY,
        forall|j: int| 0 <= j < i ==> (#[trigger] infos[j]).policy != P0_POLICY,
    ensures
        p0_index(infos) == Some(i),
{
    let k = p0_index(infos)->0;
    assert(infos[i].policy == P0_POLICY);
    if k < i {
        assert(infos[k].policy != P0_POLICY);
    } else if i < k {
        assert(infos[i].policy != P0_POLICY);
    }
}

/// `list` is in non-decreasing order of policies.
pub open spec fn by_policy(list: Seq<Info>) -> bool {
    forall|i: int, j: int| 0 <= i < j < list.len() ==> list[i].policy <= list[j].policy
}

/// The members of `list` that are of `policy`, in order.
pub open spec fn of_policy(list: Seq<Info>, policy: i32) -> Seq<Info> {
    list.filter(|info: Info| info.policy == policy)
}

proof fn lemma_filter_insert(list: Seq<Info>, at: int, info: Info, policy: i32)
    requires
        0 <= at <= list.len(),
        forall|k: int| at <= k < list.len() ==> (#[trigger] list[k]).policy != info.policy,
    ensures
        of_policy(list.insert(at, info), policy) == (if info.policy == policy {
            of_policy(list, policy).push(info)
        } else {
            of_policy(list, policy)
        }),
    decreases list.len() - at,
{
    reveal(Seq::filter);
    let longer = list.insert(at, info);
    if at == list.len() {
        assert(longer =~= list.push(info));
        assert(longer.drop_last() =~= list);
    } else {
        let rest = list.drop_last();
        assert forall|k: int| at <= k < rest.len() implies (#[trigger] rest[k]).policy
            != info.policy by {
            assert(rest[k] == list[k]);
        }
        lemma_filter_insert(rest, at, info, policy);
        assert(longer.drop_last() =~= rest.insert(at, info));
        assert(longer.last() == list.last());
        assert(list[list.len() - 1].policy != info.policy);
    }
}

/// Puts `info` behind all members of `list` whose policy is not above its own.
fn insert_by_policy(list: &mut Vec<Info>, info: Info)
    requires
        by_policy(old(list)@),
    ensures
        by_policy(final(list)@),
        forall|p: i32| #[trigger]
            of_policy(final(list)@, p) == (if info.policy == p {
                of_policy(old(list)@, p).push(info)
            } else {
                of_policy(old(list)@, p)
            }),
{
    let mut at: usize = list.len();
    while at > 0 && list[at - 1].policy > info.policy
        invariant
            list@ == old(list)@,
            at <= list@.len(),
            forall|k: int| at <= k < list@.len() ==> (#[trigger] list@[k]).policy > info.policy,
        decreases at,
    {
        at = at - 1;
    }
    let ghost was = list@;
    let ghost new = info;
    list.insert(at, info);
    proof {
        assert forall|p: i32| #[trigger] of_policy(list@, p) == (if new.policy == p {
            of_policy(was, p).push(new)
        } else {
            of_policy(was, p)
        }) by {
            lemma_filter_insert(was, at as int, new, p);
        }
        assert forall|i: int, j: int| 0 <= i < j < list@.len() implies list@[i].policy
            <= list@[j].policy by {
            if at > 0 {
                assert(was[at - 1].policy <= new.policy);
            }
        }
    }
}

/// The policies in the order of their numbers. Policies with one number keep their order.
pub fn sort_by_policy(infos: Vec<Info>) -> (sorted: Vec<Info>)
    ensures
        by_policy(sorted@),
        forall|p: i32| #[trigger] of_policy(sorted@, p) == of_policy(infos@, p),
{
    let ghost all = infos@;
    let mut rest = infos;
    let mut rev: Vec<Info> = Vec::new();
    assert(rev@.reverse() =~= Seq::<Info>::empty());
    assert(rest@ + Seq::<Info>::empty() =~= all);
    while rest.len() > 0
        invariant
            rest@ + rev@.reverse() == all,
        decreases rest@.len(),
    {
        let ghost before = rest@;
        let ghost back = rev@;
        let info = rest.pop().unwrap();
        rev.push(info);
        assert(rest@ + rev@.reverse() =~= before + back.reverse());
    }
    assert(rev@.reverse() =~= all);
    let mut cpu_infos: Vec<Info> = Vec::new();
    assert(all.take(0) =~= Seq::empty());
    while rev.len() > 0
        invariant
            rev@.len() <= all.len(),
            rev@.reverse() == all.skip(all.len() - rev@.len()),
            by_policy(cpu_infos@),
            forall|p: i32| #[trigger]
                of_policy(cpu_infos@, p) == of_policy(all.take(all.len() - rev@.len()), p),
        decreases rev@.len(),
    {
        let ghost n = all.len() - rev@.len();
        let ghost left = rev@;
        let info = rev.pop().unwrap();
        let ghost new = info;
        proof {
            assert(left.reverse()[0] == info);
            assert(all[n] == info);
            assert(rev@.reverse() =~= left.reverse().drop_first());
            assert(all.skip(n).drop_first() =~= all.skip(n + 1));
        }
        insert_by_policy(&mut cpu_infos, info);
        proof {
            let now = all.take(n + 1);
            assert(now.drop_last() =~= all.take(n));
            assert(now.last() == new);
            assert forall|p: i32| #[trigger] of_policy(cpu_infos@, p) == of_policy(now, p) by {
                reveal(Seq::filter);
            }
        }
    }
    assert(all.take(all.len() as int) =~= all);
    cpu_infos
}

/// The distance between `a` and `b`.
pub open spec fn distance(a: isize, b: isize) -> int {
    if a < b {
        b - a
    } else {
        a - b
    }
}

/// Of all budgets on offer within one step of the last, the next budget is the one nearest to
/// the wanted one. Where none on offer is so near to the last, it is the one on offer nearest
/// to the last. Without a last budget it is the one on offer nearest to the wanted one.
pub proof fn law_next_budget_is_nearest(
    infos: Seq<Info>,
    last: Option<isize>,
    wanted: isize,
    ratio_step: isize,
    other: isize,
)
    requires
        all_wf(infos),
        total_min(infos) <= other <= total_max(infos),
    ensures
        ({
            let next = next_total(infos, last, wanted, ratio_step);
            let step = max_step(infos, ratio_step);
            match last {
                Some(prev) => {
                    &&& distance(other, prev) <= step ==> distance(next, prev) <= step && distance(
                        next,
                        wanted,
                    ) <= distance(other, wanted)
                    &&& prev + step < total_min(infos) ==> next == total_min(infos)
                    &&& prev - step > total_max(infos) ==> next == total_max(infos)
                },
                None => distance(next, wanted) <= distance(other, wanted),
            }
        }),
{
    law_budget_range(infos);
    law_step(infos, ratio_step);
}

/// A budget that cannot be reached in one step is approached by a full step.
pub proof fn law_far_budget_is_approached_by_a_full_step(
    infos: Seq<Info>,
    prev: isize,
    wanted: isize,
    ratio_step: isize,
)
    requires
        all_wf(infos),
        total_min(infos) <= prev <= total_max(infos),
        total_min(infos) <= wanted <= total_max(infos),
    ensures
        ({
            let next = next_total(infos, Some(prev), wanted, ratio_step);
            let step = max_step(infos, ratio_step);
            &&& wanted > prev + step ==> next == prev + step
            &&& wanted < prev - step ==> next == prev - step
        }),
{
    law_budget_range(infos);
    law_step(infos, ratio_step);
}

/// A step is as long as the last budget allows for, and at least 30 MHz for each policy.
pub proof fn law_step(infos: Seq<Info>, ratio_step: isize)
    ensures
        ({
            let step = max_step(infos, ratio_step);
            let least = 30_000 * infos.len();
            &&& step > 0
            &&& step >= ratio_step
            &&& infos.len() == 0 ==> step == (if ratio_step > 30_000 {
                ratio_step
            } else {
                30_000
            })
            &&& infos.len() > 0 && least <= isize::MAX ==> step == (if ratio_step > least {
                ratio_step as int
            } else {
                least as int
            })
            &&& least > isize::MAX ==> step == isize::MAX
        }),
{
    let n = infos.len() as int;
    assert(n >= 1 ==> MIN_STEP_KHZ_PER_POLICY * n >= 30_000) by (nonlinear_arith)
        requires
            MIN_STEP_KHZ_PER_POLICY == 30_000,
    ;
    assert(MIN_STEP_KHZ_PER_POLICY * n == 30_000 * n);
}

/// The frequency at which a policy stands is the one last asked for where the policy offers
/// that range, and the nearer end of the range where it does not.
pub proof fn law_current_frequency(info: Info)
    requires
        info.wf(),
    ensures
        ({
            let cur = info.cur_fas_freq;
            let n = info.freqs@.len() as int;
            &&& n == 0 ==> info.current() == cur
            &&& n > 0 ==> {
                let min = info.freqs@[0];
                let max = info.freqs@[n - 1];
                &&& min <= cur <= max ==> info.current() == cur
                &&& cur < min ==> info.current() == min
                &&& cur > max ==> info.current() == max
            }
        }),
{
}

/// One more policy adds its lowest, its highest and its current frequency to the three sums,
/// as far as they fit. One that offers nothing adds only its current frequency.
pub proof fn law_totals_are_sums(infos: Seq<Info>, info: Info)
    ensures
        total_min(Seq::empty()) == 0,
        total_max(Seq::empty()) == 0,
        total_current(Seq::empty()) == 0,
        ({
            let more = infos.push(info);
            let n = info.freqs@.len() as int;
            &&& n == 0 ==> total_min(more) == total_min(infos) && total_max(more) == total_max(
                infos,
            )
            &&& n > 0 && isize::MIN <= total_min(infos) + info.freqs@[0] <= isize::MAX
                ==> total_min(more) == total_min(infos) + info.freqs@[0]
            &&& n > 0 && total_min(infos) + info.freqs@[0] > isize::MAX ==> total_min(more)
                == isize::MAX
            &&& n > 0 && total_max(infos) + info.freqs@[n - 1] > isize::MAX ==> total_max(more)
                == isize::MAX
            &&& total_current(infos) + info.current() > isize::MAX ==> total_current(more)
                == isize::MAX
            &&& n > 0 && isize::MIN <= total_max(infos) + info.freqs@[n - 1] <= isize::MAX
                ==> total_max(more) == total_max(infos) + info.freqs@[n - 1]
            &&& isize::MIN <= total_current(infos) + info.current() <= isize::MAX
                ==> total_current(more) == total_current(infos) + info.current()
        }),
{
    assert(infos.push(info).drop_last() =~= infos);
}

/// The budget that is worked from is the last one, or what the policies run at where there was
/// none, as long as that is on offer; else it is the nearer end of what is.
pub proof fn law_base_budget(infos: Seq<Info>, last: Option<isize>)
    requires
        all_wf(infos),
    ensures
        ({
            let from = match last {
                Some(prev) => prev,
                None => total_current(infos),
            };
            let base = base_total(infos, last);
            &&& total_min(infos) <= from <= total_max(infos) ==> base == from
            &&& from < total_min(infos) ==> base == total_min(infos)
            &&& from > total_max(infos) ==> base == total_max(infos)
        }),
{
    law_budget_range(infos);
}

/// One more policy adds its slot behind the others: from its lowest frequency to its highest,
/// with what lies between. One that offers nothing has no slot.
pub proof fn law_slots(infos: Seq<Info>, info: Info)
    ensures
        slots_of(Seq::empty()).len() == 0,
        ({
            let n = info.freqs@.len() as int;
            let slots = slots_of(infos);
            let more = slots_of(infos.push(info));
            &&& n == 0 ==> more == slots
            &&& n > 0 ==> {
                let slot = more[slots.len() as int];
                &&& more.len() == slots.len() + 1
                &&& more.take(slots.len() as int) == slots
                &&& slot.policy == info.policy
                &&& slot.min == info.freqs@[0]
                &&& slot.max == info.freqs@[n - 1]
                &&& slot.max <= slot.min ==> slot.cap == 0
                &&& 0 < slot.max - slot.min <= isize::MAX ==> slot.cap == slot.max - slot.min
                &&& slot.max - slot.min > isize::MAX ==> slot.cap == isize::MAX
            }
        }),
{
    assert(infos.push(info).drop_last() =~= infos);
    assert(slots_of(infos).push(slot_of(info)).take(slots_of(infos).len() as int) =~= slots_of(
        infos,
    ));
}

/// Every slot gets its own target. Of several slots of one policy the last counts.
pub proof fn law_slot_gets_its_target(slots: Seq<BudgetSlot>, targets: Seq<isize>, i: int)
    requires
        targets.len() == slots.len(),
        0 <= i < slots.len(),
        forall|j: int| i < j < slots.len() ==> (#[trigger] slots[j]).policy != slots[i].policy,
    ensures
        assigned(slots, targets).contains_key(slots[i].policy),
        assigned(slots, targets)[slots[i].policy] == targets[i],
    decreases slots.len(),
{
    let last = slots.len() - 1;
    if i < last {
        let front = slots.drop_last();
        assert(slots[last].policy != slots[i].policy);
        assert forall|j: int| i < j < front.len() implies (#[trigger] front[j]).policy
            != front[i].policy by {
            assert(front[j] == slots[j]);
        }
        law_slot_gets_its_target(front, targets.drop_last(), i);
    }
}

/// A policy without a slot gets no target.
pub proof fn law_no_slot_no_target(slots: Seq<BudgetSlot>, targets: Seq<isize>, policy: i32)
    requires
        targets.len() == slots.len(),
        forall|j: int| 0 <= j < slots.len() ==> (#[trigger] slots[j]).policy != policy,
    ensures
        !assigned(slots, targets).contains_key(policy),
    decreases slots.len(),
{
    if slots.len() > 0 {
        let front = slots.drop_last();
        assert(slots[slots.len() - 1].policy != policy);
        assert forall|j: int| 0 <= j < front.len() implies (#[trigger] front[j]).policy
            != policy by {
            assert(front[j] == slots[j]);
        }
        law_no_slot_no_target(front, targets.drop_last(), policy);
    }
}

/// The range of policy zero is what the first policy with that number offers, and its current
/// frequency the one last asked for, or the nearer end where that is not on offer. There is no
/// range where no policy has the number or the first that has it offers nothing.
pub proof fn law_p0_range(infos: Seq<Info>, i: int)
    requires
        p0_sane(infos),
        0 <= i <= infos.len(),
        forall|j: int| 0 <= j < i ==> (#[trigger] infos[j]).policy != 0,
        i < infos.len() ==> infos[i].policy == 0,
    ensures
        i == infos.len() ==> p0_range(infos) is None,
        i < infos.len() ==> ({
            let info = infos[i];
            let n = info.freqs@.len() as int;
            if n == 0 {
                p0_range(infos) is None
            } else {
                let min = info.freqs@[0];
                let max = info.freqs@[n - 1];
                let cur = info.cur_fas_freq;
                &&& p0_range(infos) matches Some(range)
                &&& range.min == min
                &&& range.max == max
                &&& min <= cur <= max ==> range.current == cur
                &&& cur < min ==> range.current == min
                &&& cur > max ==> range.current == max
            }
        }),
{
    if i < infos.len() {
        lemma_p0_index(infos, i);
    }
}

/// A value within a range is held to itself, one outside to the nearer end. A number that fits
/// stays as it is, and one that does not becomes the nearest that does.
pub proof fn law_holding(x: isize, lo: isize, hi: isize, n: int)
    requires
        lo <= hi,
    ensures
        lo <= x <= hi ==> held(x, lo, hi) == x,
        x < lo ==> held(x, lo, hi) == lo,
        x > hi ==> held(x, lo, hi) == hi,
        isize::MIN <= n <= isize::MAX ==> fit(n) == n,
        n > isize::MAX ==> fit(n) == isize::MAX,
        n < isize::MIN ==> fit(n) == isize::MIN,
{
}

} // verus!
