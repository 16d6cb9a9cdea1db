use targone_core::budget::{parse_size_parts, select_for_budget};

/// A human size in bytes: the library's parts, evaluated in floating point
/// as the command line does.
fn parse_size(s: &str) -> Option<u64> {
    let (num, mult) = parse_size_parts(s)?;
    let value: f64 = num.parse().ok()?;
    if value < 0.0 {
        return None;
    }
    Some((value * mult as f64) as u64)
}

#[test]
fn parses_sizes() {
    assert_eq!(parse_size("20GB"), Some(20_000_000_000));
    assert_eq!(parse_size("1.5 GiB"), Some(1_610_612_736));
    assert_eq!(parse_size("512"), Some(512));
    assert_eq!(parse_size("100 MiB"), Some(104_857_600));
    assert_eq!(parse_size("2TB"), Some(2_000_000_000_000));
    assert_eq!(parse_size("1TiB"), Some(1_099_511_627_776));
    assert_eq!(parse_size("3KB"), Some(3000));
    assert_eq!(parse_size("banana"), None);
    assert_eq!(parse_size("5xb"), None);
    assert_eq!(parse_size("-5GB"), None);
}

#[test]
fn no_budget_selects_everything_reclaimable() {
    let dirs = [(100, 50), (200, 0), (300, 120)];
    let (sel, plan) = select_for_budget(&dirs, None);
    assert_eq!(sel, vec![2, 0]);
    assert_eq!(plan.planned_bytes, 170);
    assert!(!plan.insufficient);
}

#[test]
fn budget_stops_once_met() {
    let dirs = [(100, 50), (200, 40), (300, 120)];
    let (sel, plan) = select_for_budget(&dirs, Some(480));
    assert_eq!(sel, vec![2]);
    assert_eq!(plan.need_bytes, 120);
    assert_eq!(plan.planned_bytes, 120);
    assert!(!plan.insufficient);
}

#[test]
fn under_budget_selects_nothing() {
    let dirs = [(100, 50), (200, 40)];
    let (sel, plan) = select_for_budget(&dirs, Some(1000));
    assert!(sel.is_empty());
    assert_eq!(plan.need_bytes, 0);
}

#[test]
fn insufficient_budget_is_reported() {
    let dirs = [(1000, 10)];
    let (sel, plan) = select_for_budget(&dirs, Some(100));
    assert_eq!(sel, vec![0]);
    assert!(plan.insufficient);
    assert_eq!(plan.need_bytes, 900);
    assert_eq!(plan.planned_bytes, 10);
}

#[test]
fn size_parts() {
    assert_eq!(parse_size_parts("4.1MB"), Some(("4.1".to_string(), 1_000_000)));
    assert_eq!(parse_size_parts("  2 gib "), Some(("2".to_string(), 1024 * 1024 * 1024)));
    assert_eq!(parse_size_parts("-5GB"), Some(("-5".to_string(), 1_000_000_000)));
    assert_eq!(parse_size_parts(".5 kb"), Some((".5".to_string(), 1000)));
    assert_eq!(parse_size_parts("7b"), Some(("7".to_string(), 1)));
    assert_eq!(parse_size_parts("."), None);
    assert_eq!(parse_size_parts(""), None);
    assert_eq!(parse_size_parts("GB"), None);
    assert_eq!(parse_size_parts("1.2.3KB"), None);
    assert_eq!(parse_size_parts("5xb"), None);
}

#[test]
fn sizes_follow_floating_point() {
    assert_eq!(parse_size("4.1MB"), Some(4_099_999));
    assert_eq!(parse_size("2.01KB"), Some(2009));
    assert_eq!(parse_size("1.5 TiB"), Some(1_649_267_441_664));
    assert_eq!(parse_size("500 MB"), Some(500_000_000));
    assert_eq!(parse_size("-0"), Some(0));
}

#[test]
fn ties_keep_input_order_and_selection_stops_after_need() {
    // total 400, budget 350: need 50. Two dirs tie at 30; the first one in
    // input order goes first, and the second is still needed.
    let dirs = [(100, 30), (100, 30), (200, 30)];
    let (sel, plan) = select_for_budget(&dirs, Some(350));
    assert_eq!(sel, vec![0, 1]);
    assert_eq!(plan.total_bytes, 400);
    assert_eq!(plan.need_bytes, 50);
    assert_eq!(plan.planned_bytes, 60);
    assert!(!plan.insufficient);
    assert!(plan.total_bytes <= plan.planned_bytes + 350);
}

#[test]
fn empty_fleet_plans_nothing() {
    let (sel, plan) = select_for_budget(&[], Some(10));
    assert!(sel.is_empty());
    assert_eq!(plan.total_bytes, 0);
    assert!(!plan.insufficient);
    let (sel, plan) = select_for_budget(&[], None);
    assert!(sel.is_empty());
    assert_eq!(plan.need_bytes, 0);
}

#[test]
fn budget_selection_is_a_prefix_of_dirs_with_bytes() {
    let dirs = [(10, 0), (50, 40), (30, 20), (20, 10)];
    let (sel, plan) = select_for_budget(&dirs, Some(70));
    assert_eq!(plan.total_bytes, 110);
    assert_eq!(plan.need_bytes, 40);
    assert_eq!(sel, vec![1]);
    assert_eq!(plan.planned_bytes, 40);
    assert!(!plan.insufficient);
    let (sel, plan) = select_for_budget(&dirs, Some(55));
    assert_eq!(plan.need_bytes, 55);
    assert_eq!(sel, vec![1, 2]);
    assert_eq!(plan.planned_bytes, 60);
    let (sel, plan) = select_for_budget(&dirs, None);
    assert_eq!(sel, vec![1, 2, 3]);
    assert_eq!(plan.planned_bytes, 70);
    assert_eq!(plan.need_bytes, 70);
}
