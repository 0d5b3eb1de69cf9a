use aus_vs_hound::kind::BenchKind;
use aus_vs_hound::plan::plan_suite;

fn strings(items: &[&str]) -> Vec<String> {
    items.iter().map(|s| s.to_string()).collect()
}

#[test]
fn steps_are_numbered_in_order_and_end_at_the_total() {
    let plan = plan_suite(
        &strings(&["i16", "f32"]),
        &[1, 2],
        &[BenchKind::Read, BenchKind::Write],
        50,
        5,
        3,
        512,
        true,
    );
    assert_eq!(plan.total, 20);
    assert_eq!(plan.groups.len(), 2);
    let read = &plan.groups[0];
    assert_eq!(read.kind, BenchKind::Read);
    assert_eq!(read.pairs.len(), 4);
    let steps: Vec<(usize, usize, Option<usize>)> =
        read.pairs.iter().map(|p| (p.hound_step, p.aus_step, p.mmap_step)).collect();
    assert_eq!(
        steps,
        vec![(1, 2, Some(3)), (4, 5, Some(6)), (7, 8, Some(9)), (10, 11, Some(12))]
    );
    let write = &plan.groups[1];
    assert_eq!(write.kind, BenchKind::Write);
    let steps: Vec<(usize, usize, Option<usize>)> =
        write.pairs.iter().map(|p| (p.hound_step, p.aus_step, p.mmap_step)).collect();
    assert_eq!(steps, vec![(13, 14, None), (15, 16, None), (17, 18, None), (19, 20, None)]);
}

#[test]
fn configs_follow_dtype_then_channels() {
    let plan = plan_suite(&strings(&["i16", "f32"]), &[1, 2], &[BenchKind::StreamedWrite], 50, 5, 3, 512, false);
    let cfgs: Vec<(String, u32)> = plan.groups[0]
        .pairs
        .iter()
        .map(|p| (p.config.signal_dtype.clone(), p.config.channels))
        .collect();
    assert_eq!(
        cfgs,
        vec![("i16".to_string(), 1), ("i16".to_string(), 2), ("f32".to_string(), 1), ("f32".to_string(), 2)]
    );
    let c = &plan.groups[0].pairs[3].config;
    assert_eq!(c.iterations, 50);
    assert_eq!(c.warmup_iterations, 5);
    assert_eq!(c.signal_duration_secs, 3);
    assert_eq!(c.chunk_size, 512);
    assert!(!c.cold_cache);
    assert_eq!(plan.total, 8);
}

#[test]
fn reads_listed_twice_run_past_the_announced_total() {
    let plan = plan_suite(&strings(&["i16"]), &[1], &[BenchKind::Read, BenchKind::Read], 1, 0, 1, 1, false);
    assert_eq!(plan.total, 5);
    assert_eq!(plan.groups[1].pairs[0].mmap_step, Some(6));
}

#[test]
fn empty_lists_plan_nothing() {
    let plan = plan_suite(&[], &[1], &[BenchKind::Read], 1, 0, 1, 1, false);
    assert_eq!(plan.total, 0);
    assert_eq!(plan.groups.len(), 1);
    assert!(plan.groups[0].pairs.is_empty());
    let plan = plan_suite(&strings(&["i16"]), &[1], &[], 1, 0, 1, 1, false);
    assert_eq!(plan.total, 0);
    assert!(plan.groups.is_empty());
}
