use mangodisk::directory_aggregate::{DirectoryTreeAggregate, DirectoryTreeSourceAggregate};
use mangodisk::scan::{MeasureResult, SourceMeasurement};
use mangodisk::scan_measure::{
    authorize_directories, empty_directory_admission, merge_sources, root_task_step, task_counts,
    AggregateOutcome, DirectoryAdmission, PlanMeasurement, RootTaskMeasurement, RootTaskStep,
    MAX_EMPTY_DIRECTORY_AUTHORIZATIONS_PER_RULE,
};

fn source(bytes: u64, files: u64, modified: Option<u64>) -> SourceMeasurement {
    SourceMeasurement { bytes, file_count: files, modified_at_ms: modified }
}

fn task(
    index: usize,
    measured: Vec<(usize, MeasureResult)>,
    sources: Vec<(usize, Vec<(String, SourceMeasurement)>)>,
    dirs: Vec<(usize, Vec<(String, u32)>)>,
    elapsed_ms: u64,
) -> RootTaskMeasurement<u32> {
    RootTaskMeasurement { task_index: index, measured, sources, empty_directories: dirs, elapsed_ms }
}

#[test]
fn rules_wait_for_every_task_that_lists_them() {
    let tasks = vec![vec![0], vec![0, 1], vec![2, 2]];
    assert_eq!(task_counts(3, &tasks), vec![2, 1, 2]);
}

#[test]
fn a_rule_completes_with_its_last_task() {
    let tasks = vec![vec![0], vec![0, 1]];
    let mut plan: PlanMeasurement<u32> = PlanMeasurement::new(2, &tasks);
    assert_eq!(plan.remaining_tasks, vec![2, 1]);

    let first = plan.absorb(
        task(
            0,
            vec![(0, MeasureResult { bytes: 10, file_count: 1, skipped_count: 0 })],
            vec![(0, vec![("/root/a".to_string(), source(10, 1, Some(5)))])],
            Vec::new(),
            7,
        ),
        &vec![0],
        false,
    );
    assert!(first.is_empty());
    assert_eq!(plan.remaining_tasks, vec![1, 1]);

    let second = plan.absorb(
        task(
            1,
            vec![
                (0, MeasureResult { bytes: 5, file_count: 2, skipped_count: 1 }),
                (1, MeasureResult { bytes: 3, file_count: 1, skipped_count: 0 }),
            ],
            vec![(0, vec![("/root/a".to_string(), source(6, 2, Some(9)))])],
            Vec::new(),
            4,
        ),
        &vec![0, 1],
        false,
    );
    assert_eq!(second, vec![0, 1]);
    assert_eq!(plan.remaining_tasks, vec![0, 0]);
    assert_eq!(plan.rules[0], MeasureResult { bytes: 15, file_count: 3, skipped_count: 1 });
    assert_eq!(plan.rules[1], MeasureResult { bytes: 3, file_count: 1, skipped_count: 0 });
    assert_eq!(plan.elapsed_by_rule, vec![11, 4]);
    assert_eq!(plan.sources_by_rule[0], vec![("/root/a".to_string(), source(16, 3, Some(9)))]);
    assert_eq!(plan.completed_task_count, 2);
    assert!(plan.finish(2, true, false).is_ok());
}

#[test]
fn cancelled_scans_report_no_completed_rules_and_publish_nothing() {
    let tasks = vec![vec![0]];
    let mut plan: PlanMeasurement<u32> = PlanMeasurement::new(1, &tasks);
    let completed = plan.absorb(task(0, Vec::new(), Vec::new(), Vec::new(), 1), &vec![0], true);
    assert!(completed.is_empty());
    assert_eq!(plan.finish(1, true, true).err(), Some("scan cancelled".to_string()));
}

#[test]
fn incomplete_and_failed_scans_are_rejected() {
    let tasks = vec![vec![0], vec![0], vec![0]];
    let mut plan: PlanMeasurement<u32> = PlanMeasurement::new(1, &tasks);
    plan.absorb(task(0, Vec::new(), Vec::new(), Vec::new(), 1), &vec![0], false);
    plan.absorb(task(1, Vec::new(), Vec::new(), Vec::new(), 1), &vec![0], false);
    assert_eq!(
        plan.finish(3, true, false).err(),
        Some("cleanup scan incomplete: expected 3, completed 2".to_string())
    );
    let plan: PlanMeasurement<u32> = PlanMeasurement::new(1, &tasks);
    assert_eq!(
        plan.finish(3, false, true).err(),
        Some("cleanup scan worker terminated unexpectedly".to_string())
    );
    let plan: PlanMeasurement<u32> = PlanMeasurement::new(1, &Vec::new());
    assert!(plan.finish(0, false, true).is_ok());
}

#[test]
fn sources_merge_by_path() {
    let mut target = vec![("/a".to_string(), source(1, 1, None))];
    merge_sources(
        &mut target,
        vec![
            ("/b".to_string(), source(2, 1, Some(3))),
            ("/a".to_string(), source(u64::MAX, 4, Some(2))),
        ],
    );
    assert_eq!(
        target,
        vec![("/a".to_string(), source(u64::MAX, 5, Some(2))), ("/b".to_string(), source(2, 1, Some(3)))]
    );
}

#[test]
fn empty_directory_authorizations_are_bounded_per_rule() {
    let mut dirs: Vec<(String, u32)> = Vec::new();
    let mut skipped = 0_u64;
    let offered = (0..MAX_EMPTY_DIRECTORY_AUTHORIZATIONS_PER_RULE + 2)
        .map(|index| (format!("/empty/{index}"), index as u32))
        .collect::<Vec<_>>();
    authorize_directories(&mut dirs, &mut skipped, offered);
    assert_eq!(dirs.len(), MAX_EMPTY_DIRECTORY_AUTHORIZATIONS_PER_RULE);
    assert_eq!(skipped, 2);
    assert_eq!(empty_directory_admission(&dirs, "/empty/0"), DirectoryAdmission::AlreadyAuthorized);
    assert_eq!(empty_directory_admission(&dirs, "/empty/new"), DirectoryAdmission::OverLimit);
    assert_eq!(empty_directory_admission(&Vec::<(String, u32)>::new(), "/empty/new"), DirectoryAdmission::Admit);

    let mut again = vec![("/x".to_string(), 1_u32)];
    let mut none = 0_u64;
    authorize_directories(&mut again, &mut none, vec![("/x".to_string(), 2)]);
    assert_eq!(again, vec![("/x".to_string(), 1)]);
    assert_eq!(none, 0);
}

#[test]
fn overflowing_directories_add_to_the_rule_skipped_count() {
    let tasks = vec![vec![0]];
    let mut plan: PlanMeasurement<u32> = PlanMeasurement::new(1, &tasks);
    let offered = (0..MAX_EMPTY_DIRECTORY_AUTHORIZATIONS_PER_RULE + 3)
        .map(|index| (format!("/empty/{index}"), 0_u32))
        .collect::<Vec<_>>();
    plan.absorb(task(0, Vec::new(), Vec::new(), vec![(0, offered)], 1), &vec![0], false);
    assert_eq!(plan.empty_directories_by_rule[0].len(), MAX_EMPTY_DIRECTORY_AUTHORIZATIONS_PER_RULE);
    assert_eq!(plan.rules[0].skipped_count, 3);
}

#[test]
fn a_native_aggregate_measures_the_whole_root_for_its_rule() {
    let aggregate = DirectoryTreeAggregate {
        bytes: 30,
        file_count: 3,
        skipped_count: 1,
        sources: vec![
            DirectoryTreeSourceAggregate { path: "/cache".to_string(), bytes: 10, file_count: 1, modified_at_ms: None },
            DirectoryTreeSourceAggregate {
                path: "/cache/blobs".to_string(),
                bytes: 20,
                file_count: 2,
                modified_at_ms: Some(4),
            },
        ],
        strategy: "portable-read-dir",
        flagged_entry: None,
    };
    match root_task_step::<u32>(5, 2, AggregateOutcome::Measured(aggregate), 9) {
        RootTaskStep::Measured(task) => {
            assert_eq!(task.task_index, 5);
            assert_eq!(task.measured, vec![(2, MeasureResult { bytes: 30, file_count: 3, skipped_count: 1 })]);
            assert_eq!(
                task.sources,
                vec![(
                    2,
                    vec![
                        ("/cache".to_string(), source(10, 1, None)),
                        ("/cache/blobs".to_string(), source(20, 2, Some(4))),
                    ]
                )]
            );
            assert!(task.empty_directories.is_empty());
            assert_eq!(task.elapsed_ms, 9);
        }
        _ => panic!("a measured aggregate must finish the task"),
    }
    assert!(matches!(root_task_step::<u32>(0, 0, AggregateOutcome::Cancelled, 0), RootTaskStep::Stop));
    assert!(matches!(root_task_step::<u32>(0, 0, AggregateOutcome::Unsupported, 0), RootTaskStep::Walk));
    assert!(matches!(
        root_task_step::<u32>(0, 0, AggregateOutcome::Failed("volume changed".to_string()), 0),
        RootTaskStep::Walk
    ));
}

#[test]
fn absorbing_task_results_in_either_order_gives_the_same_totals() {
    let tasks = vec![vec![0, 1], vec![0]];
    let first = || {
        task(
            0,
            vec![
                (0, MeasureResult { bytes: 11, file_count: 1, skipped_count: 0 }),
                (1, MeasureResult { bytes: 17, file_count: 1, skipped_count: 2 }),
            ],
            vec![(0, vec![("/a".to_string(), source(11, 1, Some(3))), ("/b".to_string(), source(1, 1, None))])],
            Vec::new(),
            5,
        )
    };
    let second = || {
        task(
            1,
            vec![(0, MeasureResult { bytes: 13, file_count: 1, skipped_count: 1 })],
            vec![(0, vec![("/c".to_string(), source(2, 1, Some(4))), ("/a".to_string(), source(13, 1, Some(8)))])],
            Vec::new(),
            9,
        )
    };
    let mut forward: PlanMeasurement<u32> = PlanMeasurement::new(2, &tasks);
    forward.absorb(first(), &vec![0, 1], false);
    forward.absorb(second(), &vec![0], false);
    let mut backward: PlanMeasurement<u32> = PlanMeasurement::new(2, &tasks);
    backward.absorb(second(), &vec![0], false);
    backward.absorb(first(), &vec![0, 1], false);
    assert_eq!(forward.rules, backward.rules);
    assert_eq!(forward.rules[0], MeasureResult { bytes: 24, file_count: 2, skipped_count: 1 });
    assert_eq!(forward.elapsed_by_rule, backward.elapsed_by_rule);
    assert_eq!(forward.elapsed_by_rule, vec![14, 5]);
    assert_eq!(forward.remaining_tasks, backward.remaining_tasks);
    assert_eq!(forward.remaining_tasks, vec![0, 0]);
    assert_eq!(forward.completed_task_count, backward.completed_task_count);
    let mut forward_sources = forward.sources_by_rule[0].clone();
    let mut backward_sources = backward.sources_by_rule[0].clone();
    forward_sources.sort_by(|x, y| x.0.cmp(&y.0));
    backward_sources.sort_by(|x, y| x.0.cmp(&y.0));
    assert_eq!(forward_sources, backward_sources);
    assert_eq!(forward_sources[0], ("/a".to_string(), source(24, 2, Some(8))));
}

#[test]
fn three_tasks_merged_in_any_order_give_the_same_measurement() {
    let tasks = vec![vec![0], vec![0, 1], vec![1]];
    let results = || {
        vec![
            (task(0, vec![(0, MeasureResult { bytes: 11, file_count: 1, skipped_count: 0 })], vec![(0, vec![("/a".to_string(), source(11, 1, Some(2)))])], Vec::new(), 3), vec![0]),
            (task(1, vec![(0, MeasureResult { bytes: 13, file_count: 1, skipped_count: 0 }), (1, MeasureResult { bytes: 1, file_count: 1, skipped_count: 1 })], vec![(0, vec![("/a".to_string(), source(13, 1, Some(7)))])], Vec::new(), 5), vec![0, 1]),
            (task(2, vec![(1, MeasureResult { bytes: 17, file_count: 1, skipped_count: 0 })], vec![(1, vec![("/b".to_string(), source(17, 1, None))])], Vec::new(), 2), vec![1]),
        ]
    };
    let run = |order: [usize; 3]| {
        let mut plan: PlanMeasurement<u32> = PlanMeasurement::new(2, &tasks);
        let mut all = results().into_iter().map(Some).collect::<Vec<_>>();
        for index in order {
            let (result, rules) = all[index].take().unwrap();
            plan.absorb(result, &rules, false);
        }
        plan
    };
    let first = run([0, 1, 2]);
    let second = run([2, 0, 1]);
    assert_eq!(first.rules, second.rules);
    assert_eq!(first.rules[0], MeasureResult { bytes: 24, file_count: 2, skipped_count: 0 });
    assert_eq!(first.elapsed_by_rule, second.elapsed_by_rule);
    assert_eq!(first.remaining_tasks, vec![0, 0]);
    assert_eq!(first.sources_by_rule, second.sources_by_rule);
    assert_eq!(first.sources_by_rule[0], vec![("/a".to_string(), source(24, 2, Some(7)))]);
}
