//! The controller of all frequency policies: from a wanted budget to the frequency of each
//! policy.
use std::collections::HashMap;
use crate::budget::{
    add_fit, all_wf, base_total, by_policy, held, hold, least_step, lemma_p0_index, lemma_p0_sane,
    next_total, of_policy, p0_range, p0_sane, slots_of, sort_by_policy, sub_fit, totals_of,
    BudgetSlot, Info, P0Range, P0_POLICY,
};
use crate::constraints::{
    bounds_apply, bounds_known, constrain, constrained, knows_all, ExtraPolicy,
};
use crate::usage::{no_share, CpuUsageMonitor, CpuUsageTracker, Share};
use vstd::prelude::*;
use vstd::std_specs::hash::*;

verus! {

broadcast use vstd::std_specs::hash::group_hash_axioms;

/// The policies, the budget that they last shared, and the load of the watched CPU.
#[derive(Debug)]
pub struct Controller {
    pub cpu_infos: Vec<Info>,
    pub usage_monitor: CpuUsageMonitor,
    pub util_cpu0: Option<Share>,
    pub total_budget_khz: Option<isize>,
}

/// The numbers of the policies.
pub open spec fn policies_of(infos: Seq<Info>) -> Seq<i32> {
    infos.map_values(|info: Info| info.policy)
}

/// `freqs` with the frequency of [`P0_POLICY`] lifted to `guarded`, held to what the policy
/// offers, where it offers anything and has a frequency.
pub open spec fn lifted(
    infos: Seq<Info>,
    freqs: Map<i32, isize>,
    guarded: Option<isize>,
) -> Map<i32, isize> {
    let range = p0_range(infos);
    if guarded is Some && range is Some && freqs.contains_key(P0_POLICY) {
        let guard = held(guarded->0, range->0.min, range->0.max);
        if freqs[P0_POLICY] < guard {
            freqs.insert(P0_POLICY, guard)
        } else {
            freqs
        }
    } else {
        freqs
    }
}

impl Controller {
    /// A controller of the policies `infos`, made at `now_ns`. It keeps them in the order of
    /// their numbers.
    pub fn new(infos: Vec<Info>, now_ns: u128) -> (controller: Self)
        ensures
            by_policy(controller.cpu_infos@),
            forall|p: i32| #[trigger]
                of_policy(controller.cpu_infos@, p) == of_policy(infos@, p),
            controller.usage_monitor.last_update_ns == now_ns,
            controller.usage_monitor.cpu1_tracker.cpu_label == "cpu1",
            controller.usage_monitor.cpu1_tracker.last_busy == 0,
            controller.usage_monitor.cpu1_tracker.last_total == 0,
            !controller.usage_monitor.cpu1_tracker.initialized,
            controller.util_cpu0 is None,
            controller.total_budget_khz is None,
    {
        Controller {
            cpu_infos: sort_by_policy(infos),
            usage_monitor: CpuUsageMonitor::new(now_ns),
            util_cpu0: None,
            total_budget_khz: None,
        }
    }

    /// A game begins: the last budget and the load of the CPU are forgotten.
    pub fn init_game(&mut self)
        ensures
            *final(self) == (Controller { util_cpu0: None, total_budget_khz: None, ..*old(self) }),
    {
        self.util_cpu0 = None;
        self.total_budget_khz = None;
    }

    /// No game is there any more: the last budget and the load of the CPU are forgotten.
    pub fn init_default(&mut self)
        ensures
            *final(self) == (Controller { util_cpu0: None, total_budget_khz: None, ..*old(self) }),
    {
        self.util_cpu0 = None;
        self.total_budget_khz = None;
    }

    /// The load of the watched CPU is looked at before the next budget is set: not on a janked
    /// frame, and not without policies.
    pub fn takes_load(&self, is_janked: bool) -> (b: bool)
        ensures
            b == (self.cpu_infos@.len() > 0 && !is_janked),
    {
        self.cpu_infos.len() > 0 && !is_janked
    }

    /// Takes the load of the watched CPU in, where it is time for that: `counters` is what its
    /// counters read, none where they could not be read.
    pub fn update_cpu0_util(&mut self, now_ns: u128, counters: Option<(u64, u64)>)
        ensures
            final(self).cpu_infos == old(self).cpu_infos,
            final(self).total_budget_khz == old(self).total_budget_khz,
            !old(self).usage_monitor.due(now_ns) ==> *final(self) == *old(self),
            old(self).usage_monitor.due(now_ns) ==> {
                &&& final(self).util_cpu0 is Some
                &&& final(self).util_cpu0->0.is_valid()
                &&& final(self).util_cpu0->0 == (match counters {
                    Some((busy, total)) => match old(self).usage_monitor.cpu1_tracker.util(
                        busy,
                        total,
                    ) {
                        Some(util) => util,
                        None => no_share(),
                    },
                    None => no_share(),
                })
                &&& final(self).usage_monitor.last_update_ns == now_ns
                &&& final(self).usage_monitor.cpu1_tracker == (match counters {
                    Some((busy, total)) => CpuUsageTracker {
                        last_busy: busy,
                        last_total: total,
                        initialized: true,
                        ..old(self).usage_monitor.cpu1_tracker
                    },
                    None => old(self).usage_monitor.cpu1_tracker,
                })
            },
    {
        if let Some(snapshot) = self.usage_monitor.update(now_ns, counters) {
            self.util_cpu0 = Some(snapshot.cpu1_util);
        }
    }

    /// Every policy is sane.
    pub fn is_sane(&self) -> (sane: bool)
        ensures
            sane == all_wf(self.cpu_infos@),
            sane ==> p0_sane(self.cpu_infos@),
    {
        for i in 0..self.cpu_infos.len()
            invariant
                forall|k: int| 0 <= k < i ==> (#[trigger] self.cpu_infos@[k]).wf(),
        {
            if !self.cpu_infos[i].is_sane() {
                assert(!self.cpu_infos@[i as int].wf());
                return false;
            }
        }
        proof {
            lemma_p0_sane(self.cpu_infos@);
        }
        true
    }

    /// The budget that is worked from.
    pub fn base_total_khz(&self) -> (total: isize)
        requires
            all_wf(self.cpu_infos@),
        ensures
            total == base_total(self.cpu_infos@, self.total_budget_khz),
    {
        let totals = totals_of(&self.cpu_infos);
        let base = match self.total_budget_khz {
            Some(prev) => prev,
            None => totals.current,
        };
        hold(base, totals.min, totals.max)
    }

    /// Sets the next budget, where `wanted` is what the controller makes of the budget that
    /// is worked from, and `ratio_step` the step that the last budget allows for. Without
    /// policies there is none.
    pub fn compute_target_frequencies(&mut self, wanted: isize, ratio_step: isize) -> (total: isize)
        requires
            all_wf(old(self).cpu_infos@),
        ensures
            *final(self) == (Controller {
                total_budget_khz: final(self).total_budget_khz,
                ..*old(self)
            }),
            old(self).cpu_infos@.len() == 0 ==> total == 0 && final(self).total_budget_khz == old(
                self,
            ).total_budget_khz,
            old(self).cpu_infos@.len() > 0 ==> total == next_total(
                old(self).cpu_infos@,
                old(self).total_budget_khz,
                wanted,
                ratio_step,
            ) && final(self).total_budget_khz == Some(total),
    {
        if self.cpu_infos.len() == 0 {
            return 0;
        }
        let totals = totals_of(&self.cpu_infos);
        let mut target = hold(wanted, totals.min, totals.max);
        if let Some(prev) = self.total_budget_khz {
            let min_step = least_step(self.cpu_infos.len());
            let step = if ratio_step > min_step {
                ratio_step
            } else {
                min_step
            };
            let lo = sub_fit(prev, step);
            let hi = add_fit(prev, step);
            target = hold(hold(target, lo, hi), totals.min, totals.max);
        }
        self.total_budget_khz = Some(target);
        target
    }

    /// What each policy can take of the budget.
    pub fn budget_slots(&self) -> (slots: Vec<BudgetSlot>)
        ensures
            slots@ == slots_of(self.cpu_infos@),
    {
        let mut slots: Vec<BudgetSlot> = Vec::new();
        for i in 0..self.cpu_infos.len()
            invariant
                slots@ == slots_of(self.cpu_infos@.take(i as int)),
        {
            let info = &self.cpu_infos[i];
            assert(self.cpu_infos@.take(i + 1).drop_last() =~= self.cpu_infos@.take(i as int));
            if info.freqs.len() > 0 {
                let min = info.freqs[0];
                let max = info.freqs[info.freqs.len() - 1];
                let span = sub_fit(max, min);
                let cap = if span > 0 {
                    span
                } else {
                    0
                };
                slots.push(BudgetSlot { policy: info.policy, min, max, cap });
            }
        }
        assert(self.cpu_infos@.take(self.cpu_infos@.len() as int) =~= self.cpu_infos@);
        slots
    }

    /// What [`P0_POLICY`] offers, and where it stands.
    pub fn p0_range(&self) -> (range: Option<P0Range>)
        requires
            p0_sane(self.cpu_infos@),
        ensures
            range == p0_range(self.cpu_infos@),
            range is Some ==> range->0.min <= range->0.max,
    {
        for i in 0..self.cpu_infos.len()
            invariant
                p0_sane(self.cpu_infos@),
                forall|j: int| 0 <= j < i ==> (#[trigger] self.cpu_infos@[j]).policy != P0_POLICY,
        {
            let info = &self.cpu_infos[i];
            if info.policy == P0_POLICY {
                proof {
                    lemma_p0_index(self.cpu_infos@, i as int);
                }
                if info.freqs.len() == 0 {
                    return None;
                }
                return Some(
                    P0Range {
                        min: info.freqs[0],
                        max: info.freqs[info.freqs.len() - 1],
                        current: info.held_freq(),
                    },
                );
            }
        }
        None
    }

    /// Lifts the frequency of [`P0_POLICY`] to `guarded`, held to what the policy offers,
    /// where its CPU is too busy (`guarded` is none where it is not). Says whether that
    /// made a difference.
    pub fn apply_p0_util_guard(&self, freqs: &mut HashMap<i32, isize>, guarded: Option<isize>) -> (
    hit: bool)
        requires
            guarded is Some ==> p0_sane(self.cpu_infos@),
        ensures
            final(freqs)@ == lifted(self.cpu_infos@, old(freqs)@, guarded),
            hit == (final(freqs)@ != old(freqs)@),
    {
        let guarded = match guarded {
            Some(g) => g,
            None => return false,
        };
        let range = match self.p0_range() {
            Some(r) => r,
            None => return false,
        };
        let guard = hold(guarded, range.min, range.max);
        let freq = match freqs.get(&P0_POLICY) {
            Some(f) => *f,
            None => return false,
        };
        if freq < guard {
            freqs.insert(P0_POLICY, guard);
            assert(freqs@[P0_POLICY] != old(freqs)@[P0_POLICY]);
            return true;
        }
        false
    }

    /// The bounds are not circular, and each of them can be applied to the frequencies
    /// `weighted`.
    pub fn bounds_apply(
        &self,
        weighted: &HashMap<i32, isize>,
        extra: &HashMap<i32, ExtraPolicy>,
    ) -> (apply: bool)
        requires
            knows_all(extra@, policies_of(self.cpu_infos@)),
            bounds_known(extra@, policies_of(self.cpu_infos@), weighted@),
        ensures
            apply == constrained(weighted@, policies_of(self.cpu_infos@), extra@) is Some,
    {
        bounds_apply(weighted, &self.policies(), extra)
    }

    /// The frequency of each policy, where `weighted` is what each would take of the budget:
    /// held to all bounds, and that of [`P0_POLICY`] lifted to `guarded`. The bounds must apply,
    /// as [`Controller::bounds_apply`] tells.
    pub fn fas_update_freq_weighted(
        &self,
        weighted: HashMap<i32, isize>,
        extra: &HashMap<i32, ExtraPolicy>,
        guarded: Option<isize>,
    ) -> (freqs: HashMap<i32, isize>)
        requires
            guarded is Some ==> p0_sane(self.cpu_infos@),
            knows_all(extra@, policies_of(self.cpu_infos@)),
            bounds_known(extra@, policies_of(self.cpu_infos@), weighted@),
            constrained(weighted@, policies_of(self.cpu_infos@), extra@) is Some,
        ensures
            freqs@ == lifted(
                self.cpu_infos@,
                constrained(weighted@, policies_of(self.cpu_infos@), extra@)->0,
                guarded,
            ),
    {
        let mut freqs = constrain(weighted, &self.policies(), extra);
        self.apply_p0_util_guard(&mut freqs, guarded);
        freqs
    }

    /// The numbers of the policies.
    pub fn policies(&self) -> (policies: Vec<i32>)
        ensures
            policies@ == policies_of(self.cpu_infos@),
    {
        let mut policies: Vec<i32> = Vec::new();
        for i in 0..self.cpu_infos.len()
            invariant
                policies@ == policies_of(self.cpu_infos@).take(i as int),
        {
            policies.push(self.cpu_infos[i].policy);
        }
        assert(policies@ =~= policies_of(self.cpu_infos@));
        policies
    }
}

/// Lifting the frequency of [`P0_POLICY`] lowers no frequency and changes no other.
pub proof fn law_guard_only_lifts(
    infos: Seq<Info>,
    freqs: Map<i32, isize>,
    guarded: Option<isize>,
    p: i32,
)
    requires
        freqs.contains_key(p),
    ensures
        lifted(infos, freqs, guarded).dom() == freqs.dom(),
        lifted(infos, freqs, guarded)[p] >= freqs[p],
        p != P0_POLICY ==> lifted(infos, freqs, guarded)[p] == freqs[p],
{
    assert(lifted(infos, freqs, guarded).dom() =~= freqs.dom());
}

/// Where the guard asks for a frequency, that of policy zero is lifted to it as far as the
/// policy offers it: to the frequency itself where it is on offer, else to the nearer end. A
/// frequency that is as high already stays, and without a guard nothing changes.
pub proof fn law_guard_lifts_to(
    infos: Seq<Info>,
    freqs: Map<i32, isize>,
    guarded: Option<isize>,
    i: int,
)
    requires
        p0_sane(infos),
        0 <= i < infos.len(),
        infos[i].policy == 0,
        infos[i].freqs@.len() > 0,
        forall|j: int| 0 <= j < i ==> (#[trigger] infos[j]).policy != 0,
    ensures
        guarded is None ==> lifted(infos, freqs, guarded) == freqs,
        !freqs.contains_key(0) ==> lifted(infos, freqs, guarded) == freqs,
        guarded is Some && freqs.contains_key(0) ==> ({
            let min = infos[i].freqs@[0];
            let max = infos[i].freqs@[infos[i].freqs@.len() - 1];
            let asked = guarded->0;
            let guard = if asked < min {
                min
            } else if asked > max {
                max
            } else {
                asked
            };
            lifted(infos, freqs, guarded)[0] == (if freqs[0] < guard {
                guard
            } else {
                freqs[0]
            })
        }),
{
    lemma_p0_index(infos, i);
}

/// The numbers of the policies are those of the policies, one for one and in order.
pub proof fn law_policies_in_order(infos: Seq<Info>, i: int)
    requires
        0 <= i < infos.len(),
    ensures
        policies_of(infos).len() == infos.len(),
        policies_of(infos)[i] == infos[i].policy,
{
}

} // verus!
