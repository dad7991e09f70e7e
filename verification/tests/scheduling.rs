use fas_rs::budget::{
    add_fit, assign_targets, hold, least_step, sort_by_policy, sub_fit, totals_of, BudgetSlot,
    Info, P0Range, Totals,
};
use fas_rs::constraints::{
    apply_absolute_constraints, apply_relative_constraints, bounds_apply, bounds_are_circular,
    constrain, sort_policies_topologically, AbsRangeBound, ExtraPolicy, RelRangeBound,
};
use fas_rs::control::{control_target, judged_frametime, DURATION_MAX_NS};
use fas_rs::controller::Controller;
use fas_rs::thermal::{is_core_sensor, TemperatureThreshold, Thermal};
use fas_rs::usage::Share;
use std::collections::HashMap;

fn info(policy: i32, cur_fas_freq: isize, freqs: &[isize]) -> Info {
    Info { policy, cur_fas_freq, freqs: freqs.to_vec() }
}

fn phone() -> Controller {
    Controller::new(
        vec![
            info(4, 900_000, &[500_000, 1_000_000, 2_000_000]),
            info(0, 100_000, &[300_000, 1_800_000]),
            info(7, 0, &[]),
        ],
        0,
    )
}

fn rel(rel_to: i32, min: Option<isize>, max: Option<isize>) -> ExtraPolicy {
    ExtraPolicy::RelRangeBound(RelRangeBound { rel_to, min, max })
}

fn abs(min: Option<isize>, max: Option<isize>) -> ExtraPolicy {
    ExtraPolicy::AbsRangeBound(AbsRangeBound { min, max })
}

fn bounds(list: &[(i32, ExtraPolicy)]) -> HashMap<i32, ExtraPolicy> {
    list.iter().copied().collect()
}

fn freqs(list: &[(i32, isize)]) -> HashMap<i32, isize> {
    list.iter().copied().collect()
}

#[test]
fn arithmetic_stops_at_the_limits() {
    assert_eq!(add_fit(isize::MAX, 1), isize::MAX);
    assert_eq!(add_fit(isize::MIN, -1), isize::MIN);
    assert_eq!(add_fit(2, 3), 5);
    assert_eq!(sub_fit(isize::MIN, 1), isize::MIN);
    assert_eq!(sub_fit(isize::MAX, -1), isize::MAX);
    assert_eq!(sub_fit(2, 3), -1);
    assert_eq!(hold(5, 1, 3), 3);
    assert_eq!(hold(0, 1, 3), 1);
    assert_eq!(hold(2, 1, 3), 2);
    assert_eq!(least_step(0), 30_000);
    assert_eq!(least_step(3), 90_000);
    assert_eq!(least_step(usize::MAX), isize::MAX);
}

#[test]
fn policies_are_kept_in_order() {
    let controller = phone();
    assert_eq!(controller.policies(), vec![0, 4, 7]);
    let sorted = sort_by_policy(vec![info(1, 1, &[]), info(0, 2, &[]), info(1, 3, &[])]);
    let seen: Vec<(i32, isize)> = sorted.iter().map(|i| (i.policy, i.cur_fas_freq)).collect();
    assert_eq!(seen, vec![(0, 2), (1, 1), (1, 3)]);
    assert!(controller.is_sane());
    assert!(!info(0, 0, &[2, 1]).is_sane());
}

#[test]
fn totals_add_up() {
    let controller = phone();
    assert_eq!(
        totals_of(&controller.cpu_infos),
        Totals { min: 800_000, max: 3_800_000, current: 1_200_000 }
    );
    assert_eq!(controller.base_total_khz(), 1_200_000);
    assert_eq!(controller.cpu_infos[0].sync_freq(5), Some(300_000));
    assert_eq!(controller.cpu_infos[0].sync_freq(400_000), Some(400_000));
    assert_eq!(controller.cpu_infos[2].sync_freq(400_000), None);
}

#[test]
fn budget_moves_by_steps() {
    let mut controller = phone();
    assert_eq!(controller.compute_target_frequencies(9_000_000, 0), 3_800_000);
    assert_eq!(controller.total_budget_khz, Some(3_800_000));
    assert_eq!(controller.base_total_khz(), 3_800_000);
    // The least step is three times 30 MHz.
    assert_eq!(controller.compute_target_frequencies(0, 0), 3_710_000);
    assert_eq!(controller.compute_target_frequencies(0, 371_000), 3_339_000);
    assert_eq!(controller.compute_target_frequencies(3_400_000, 333_900), 3_400_000);
    controller.init_game();
    assert_eq!(controller.total_budget_khz, None);
    assert_eq!(controller.compute_target_frequencies(0, 0), 800_000);
    controller.init_default();
    assert_eq!(controller.total_budget_khz, None);
    let mut none = Controller::new(vec![], 0);
    assert_eq!(none.compute_target_frequencies(5, 5), 0);
    assert_eq!(none.total_budget_khz, None);
}

#[test]
fn slots_leave_out_empty_policies() {
    let controller = phone();
    let slots = controller.budget_slots();
    assert_eq!(
        slots,
        vec![
            BudgetSlot { policy: 0, min: 300_000, max: 1_800_000, cap: 1_500_000 },
            BudgetSlot { policy: 4, min: 500_000, max: 2_000_000, cap: 1_500_000 },
        ]
    );
    let given = assign_targets(&slots, &vec![400_000, 600_000]);
    assert_eq!(given, freqs(&[(0, 400_000), (4, 600_000)]));
}

#[test]
fn load_is_left_out_on_jank() {
    assert!(phone().takes_load(false));
    assert!(!phone().takes_load(true));
    assert!(!Controller::new(vec![], 0).takes_load(false));
    assert_eq!(phone().usage_monitor.cpu1_tracker.cpu_label, "cpu1");
}

#[test]
fn load_is_taken_in_when_due() {
    let mut controller = phone();
    controller.update_cpu0_util(499_999_999, Some((1, 2)));
    assert_eq!(controller.util_cpu0, None);
    controller.update_cpu0_util(500_000_000, Some((1, 2)));
    assert_eq!(controller.util_cpu0, Some(Share { busy: 0, total: 1 }));
    controller.update_cpu0_util(1_000_000_000, Some((4, 6)));
    assert_eq!(controller.util_cpu0, Some(Share { busy: 3, total: 4 }));
    controller.init_game();
    assert_eq!(controller.util_cpu0, None);
}

#[test]
fn guard_lifts_the_first_policy() {
    let controller = phone();
    assert_eq!(
        controller.p0_range(),
        Some(P0Range { min: 300_000, max: 1_800_000, current: 300_000 })
    );
    let mut given = freqs(&[(0, 400_000), (4, 600_000)]);
    assert!(!controller.apply_p0_util_guard(&mut given, None));
    assert!(!controller.apply_p0_util_guard(&mut given, Some(350_000)));
    assert_eq!(given[&0], 400_000);
    assert!(controller.apply_p0_util_guard(&mut given, Some(9_000_000)));
    assert_eq!(given, freqs(&[(0, 1_800_000), (4, 600_000)]));
    let mut missing = freqs(&[(4, 600_000)]);
    assert!(!controller.apply_p0_util_guard(&mut missing, Some(9_000_000)));
    assert_eq!(missing, freqs(&[(4, 600_000)]));
    let bare = Controller::new(vec![info(0, 1, &[])], 0);
    assert_eq!(bare.p0_range(), None);
    let odd = Controller::new(vec![info(0, 5, &[1, 9]), info(4, 5, &[9, 1])], 0);
    assert!(!odd.is_sane());
    let mut lifted = freqs(&[(0, 2), (4, 5)]);
    assert!(odd.apply_p0_util_guard(&mut lifted, Some(7)));
    assert_eq!(lifted, freqs(&[(0, 7), (4, 5)]));
}

#[test]
fn policies_sort_after_what_they_are_bound_to() {
    let extra = bounds(&[
        (0, rel(4, None, None)),
        (4, rel(7, None, None)),
        (7, ExtraPolicy::Unbound),
        (9, abs(None, None)),
    ]);
    assert!(!bounds_are_circular(&vec![0, 4, 7, 9, 4], &extra));
    let order = sort_policies_topologically(&vec![0, 4, 7, 9, 4], &extra);
    assert_eq!(order.len(), 4);
    let at = |p: i32| order.iter().position(|q| *q == p).unwrap();
    assert!(at(7) < at(4));
    assert!(at(4) < at(0));
    assert!(order.contains(&9));
}

#[test]
fn circular_bounds_have_no_order() {
    let circle = bounds(&[(0, rel(4, None, None)), (4, rel(0, None, None))]);
    assert!(bounds_are_circular(&vec![0, 4], &circle));
    let own = bounds(&[(0, rel(0, None, None))]);
    assert!(bounds_are_circular(&vec![0], &own));
    let nowhere = bounds(&[(0, rel(4, None, None))]);
    assert!(bounds_are_circular(&vec![0], &nowhere));
    assert!(!bounds_are_circular(&vec![], &circle));
    assert!(sort_policies_topologically(&vec![], &circle).is_empty());
}

#[test]
fn absolute_bounds_hold_frequencies() {
    let extra = bounds(&[(0, abs(Some(10), None)), (4, abs(None, Some(20))), (7, abs(None, None))]);
    let out = apply_absolute_constraints(
        freqs(&[(0, 5), (4, 25), (7, -5), (9, -9)]),
        &vec![0, 4, 7],
        &extra,
    );
    assert_eq!(out, freqs(&[(0, 10), (4, 20), (7, 0), (9, -9)]));
    assert!(abs(Some(1), Some(1)).is_sane());
    assert!(!abs(Some(2), Some(1)).is_sane());
    assert!(!abs(None, Some(-1)).is_sane());
    assert!(rel(0, Some(2), Some(1)).is_sane());
}

#[test]
fn relative_bounds_hold_frequencies() {
    let extra = bounds(&[
        (7, ExtraPolicy::Unbound),
        (4, rel(7, Some(-100), Some(-50))),
        (0, rel(4, Some(-10), Some(10))),
    ]);
    let out = apply_relative_constraints(
        freqs(&[(7, 1000), (4, 2000), (0, 0)]),
        &vec![7, 4, 0],
        &extra,
    );
    assert_eq!(out, freqs(&[(7, 1000), (4, 950), (0, 940)]));
    let missing = apply_relative_constraints(freqs(&[(4, 2000)]), &vec![7, 4, 0], &extra);
    assert_eq!(missing, freqs(&[(4, -50)]));
    let odd = bounds(&[(7, abs(Some(2), Some(1))), (4, rel(7, Some(0), Some(0)))]);
    let out = apply_relative_constraints(freqs(&[(7, 5), (4, 9)]), &vec![7, 4], &odd);
    assert_eq!(out, freqs(&[(7, 5), (4, 5)]));
}

#[test]
fn relative_bounds_that_do_not_apply() {
    let extra = bounds(&[(7, ExtraPolicy::Unbound), (4, rel(7, Some(5), None))]);
    assert!(!bounds_apply(&freqs(&[(7, 1), (4, 2)]), &vec![7, 4], &extra));
    let empty = bounds(&[(7, ExtraPolicy::Unbound), (4, rel(7, Some(5), Some(4)))]);
    assert!(!bounds_apply(&freqs(&[(7, 1), (4, 2)]), &vec![7, 4], &empty));
    let open = bounds(&[(7, ExtraPolicy::Unbound), (4, rel(7, None, Some(0)))]);
    assert!(bounds_apply(&freqs(&[(7, 1), (4, 2)]), &vec![7, 4], &open));
    let out = apply_relative_constraints(freqs(&[(7, 1), (4, 2)]), &vec![7, 4], &open);
    assert_eq!(out, freqs(&[(7, 1), (4, 1)]));
}

#[test]
fn order_of_relative_bounds_makes_no_difference() {
    let extra = bounds(&[
        (7, ExtraPolicy::Unbound),
        (4, rel(7, Some(-100), Some(-50))),
        (0, rel(7, Some(-10), Some(10))),
    ]);
    let given = [(7, 1000), (4, 2000), (0, 0)];
    let one = apply_relative_constraints(freqs(&given), &vec![7, 4, 0], &extra);
    let two = apply_relative_constraints(freqs(&given), &vec![7, 0, 4], &extra);
    assert_eq!(one, two);
    assert_eq!(one, freqs(&[(7, 1000), (4, 950), (0, 990)]));
}

#[test]
fn all_bounds_together() {
    let extra = bounds(&[
        (7, abs(None, Some(500_000))),
        (4, rel(7, Some(0), Some(200_000))),
        (0, ExtraPolicy::Unbound),
    ]);
    let given = [(0, 400_000), (4, 2_000_000), (7, 900_000)];
    let expected = freqs(&[(0, 400_000), (4, 700_000), (7, 500_000)]);
    assert_eq!(constrain(freqs(&given), &vec![0, 4, 7], &extra), expected.clone());
    let controller = phone();
    assert!(controller.bounds_apply(&freqs(&given), &extra));
    assert_eq!(controller.fas_update_freq_weighted(freqs(&given), &extra, None), expected);
    let lifted = controller.fas_update_freq_weighted(freqs(&given), &extra, Some(450_000));
    assert_eq!(lifted, freqs(&[(0, 450_000), (4, 700_000), (7, 500_000)]));
    let circle = bounds(&[
        (0, rel(4, None, None)),
        (4, rel(0, None, None)),
        (7, ExtraPolicy::Unbound),
    ]);
    assert!(!controller.bounds_apply(&freqs(&given), &circle));
}

#[test]
fn control_needs_frames() {
    assert_eq!(control_target(59, Some(60)), None);
    assert_eq!(control_target(60, Some(60)), Some(60));
    assert_eq!(control_target(60, None), None);
}

#[test]
fn longer_frame_time_is_judged() {
    assert_eq!(judged_frametime(7, 3, 0), 10);
    assert_eq!(judged_frametime(7, 3, 9), 10);
    assert_eq!(judged_frametime(7, 3, 11), 11);
    assert_eq!(judged_frametime(DURATION_MAX_NS, 3, 0), DURATION_MAX_NS);
}

#[test]
fn core_sensors_are_known() {
    assert!(is_core_sensor("cpu-0-1\n"));
    assert!(is_core_sensor("x_soc_max"));
    assert!(is_core_sensor("mtktscpu"));
    assert!(!is_core_sensor("battery"));
    assert!(!is_core_sensor("cpu"));
}

#[test]
fn hottest_sensor_counts() {
    let mut thermal = Thermal::new(500_000_000);
    assert!(thermal.is_due(500_000_000));
    thermal.temperature_update(
        &vec![" 41000\n".to_string(), "x".to_string(), "45000".to_string()],
        600_000_000,
    );
    assert_eq!(thermal.core_temperature, 45_000);
    assert!(!thermal.is_due(1_099_999_999));
    assert!(thermal.is_due(1_100_000_000));
    assert!(thermal.target_fps_offset(TemperatureThreshold::Temp(44_999)));
    assert!(!thermal.target_fps_offset(TemperatureThreshold::Temp(45_000)));
    assert!(!thermal.target_fps_offset(TemperatureThreshold::Disabled));
    thermal.temperature_update(&vec![], 700_000_000);
    assert_eq!(thermal.core_temperature, 0);
}
