use task_registry::listinfo::{parse_worker_status_line, render_task_list, TaskListInfo};
use task_registry::store::{RowCheck, TaskListInfoIterator, TaskStore};
use task_registry::task_log::read_status_from_log_tail;
use task_registry::task_state::TaskState;
use task_registry::upid::UPID;
use task_registry::worker::{TaskRegistry, WorkerTask};

fn make_upid(task_id: u64, starttime: i64) -> UPID {
    UPID::new(
        b"node1".to_vec(),
        b"backup".to_vec(),
        Some(b"disk0".to_vec()),
        b"root@pam".to_vec(),
        4242,
        77,
        task_id,
        starttime,
    )
    .expect("valid identity")
}

fn running_row(upid: &UPID) -> TaskListInfo {
    let text = upid.to_text();
    TaskListInfo {
        upid: UPID::parse(&text).expect("own text parses"),
        upid_str: text,
        state: None,
    }
}

/// Create a task, log one message, finish successfully: the active file
/// becomes empty and the archive gains exactly one `OK` row.
#[test]
fn scenario_single_task_lifecycle() {
    let mut registry = TaskRegistry::new();
    let task_id = registry.allocate_task_id();
    let upid = make_upid(task_id, 1_700_000_000);
    let mut worker = WorkerTask::new(UPID::parse(&upid.to_text()).unwrap());
    let mut store = TaskStore::new();

    // Register the task: consolidation appends it to the active list.
    let no_checks: Vec<RowCheck> = Vec::new();
    store.consolidate(&no_checks, Some(running_row(&upid)), 1_700_000_000);
    registry.insert(worker_clone_for_registry(&upid));
    assert_eq!(store.active.len(), 1);
    assert_eq!(store.archive[0].len(), 0);

    // Run: one log line, then finish successfully.
    worker.log_message(1_700_000_001, b"doing the work");
    let state = worker.log_result(None, 1_700_000_002);
    assert_eq!(state.endtime(), 1_700_000_002);
    registry.remove(upid.task_id);

    // The task's own log tail yields its outcome.
    let mut tail: Vec<u8> = Vec::new();
    for line in &worker.log {
        tail.extend_from_slice(line);
        tail.push(b'\n');
    }
    let recovered = read_status_from_log_tail(&tail, upid.starttime);
    assert_eq!(recovered, TaskState::OK { endtime: 1_700_000_002 });

    // Consolidate: the row is no longer live, its outcome comes from the log.
    let checks = vec![RowCheck { alive: false, recovered: Some(recovered) }];
    store.consolidate(&checks, None, 1_700_000_003);

    assert_eq!(store.active.len(), 0);
    assert_eq!(render_task_list(&store.active), b"");
    let mut expected = upid.to_text();
    expected.extend_from_slice(b" 6553F102 OK\n");
    assert_eq!(store.archive[0], expected);
}

fn worker_clone_for_registry(upid: &UPID) -> WorkerTask {
    WorkerTask::new(UPID::parse(&upid.to_text()).unwrap())
}

/// A second consolidation with no new tasks and no state change leaves both
/// files byte-identical.
#[test]
fn consolidation_idempotent() {
    let mut store = TaskStore::new();
    let a = make_upid(1, 100);
    let b = make_upid(2, 200);
    let no_checks: Vec<RowCheck> = Vec::new();
    store.consolidate(&no_checks, Some(running_row(&a)), 1_700_000_000);
    let checks = vec![RowCheck { alive: true, recovered: None }];
    store.consolidate(&checks, Some(running_row(&b)), 1_700_000_001);

    let active_1 = render_task_list(&store.active);
    let archive_1 = store.archive[0].clone();

    let checks = vec![
        RowCheck { alive: true, recovered: None },
        RowCheck { alive: true, recovered: None },
    ];
    store.consolidate(&checks, None, 1_700_000_500);

    assert_eq!(render_task_list(&store.active), active_1);
    assert_eq!(store.archive[0], archive_1);
}

/// A task whose owner no longer lives is always classified finished: with a
/// parseable trailer it keeps that outcome, without one it degrades to
/// `Unknown` at the present time.
#[test]
fn dead_tasks_always_finish() {
    let mut store = TaskStore::new();
    let a = make_upid(1, 100);
    let b = make_upid(2, 200);
    let no_checks: Vec<RowCheck> = Vec::new();
    store.consolidate(&no_checks, Some(running_row(&a)), 1_000);
    let checks = vec![RowCheck { alive: true, recovered: None }];
    store.consolidate(&checks, Some(running_row(&b)), 1_001);

    let trailer = read_status_from_log_tail(b"junk with no trailer", a.starttime);
    assert_eq!(trailer, TaskState::Unknown { endtime: 100 });

    let checks = vec![
        RowCheck { alive: false, recovered: None },
        RowCheck {
            alive: false,
            recovered: Some(TaskState::Error { message: b"went away".to_vec(), endtime: 900 }),
        },
    ];
    store.consolidate(&checks, None, 2_000);

    assert_eq!(store.active.len(), 0);
    let mut expected = b.to_text();
    expected.extend_from_slice(b" 00000384 ERROR: went away\n");
    expected.extend_from_slice(&a.to_text());
    expected.extend_from_slice(b" 000007D0 unknown\n");
    assert_eq!(store.archive[0], expected);
}

/// Archive rows are non-decreasing in endtime after consolidation.
#[test]
fn archive_sorted_by_endtime() {
    let mut store = TaskStore::new();
    let a = make_upid(1, 100);
    let b = make_upid(2, 200);
    let c = make_upid(3, 300);
    let no_checks: Vec<RowCheck> = Vec::new();
    store.consolidate(&no_checks, Some(running_row(&a)), 1_000);
    let checks = vec![RowCheck { alive: true, recovered: None }];
    store.consolidate(&checks, Some(running_row(&b)), 1_001);
    let checks = vec![
        RowCheck { alive: true, recovered: None },
        RowCheck { alive: true, recovered: None },
    ];
    store.consolidate(&checks, Some(running_row(&c)), 1_002);

    let checks = vec![
        RowCheck { alive: false, recovered: Some(TaskState::OK { endtime: 500 }) },
        RowCheck { alive: false, recovered: Some(TaskState::OK { endtime: 300 }) },
        RowCheck { alive: false, recovered: Some(TaskState::OK { endtime: 400 }) },
    ];
    store.consolidate(&checks, None, 2_000);

    let rows = task_registry::listinfo::read_task_file(&store.archive[0]);
    assert_eq!(rows.len(), 3);
    let mut last = i64::MIN;
    for row in &rows {
        let e = row.state.as_ref().expect("archived rows carry a status").endtime();
        assert!(e >= last);
        last = e;
    }
}

/// An active-only listing never reads an archive generation, even a
/// corrupted one; a full listing skips the lines that do not parse.
#[test]
fn active_only_listing_ignores_archive() {
    let mut store = TaskStore::new();
    let a = make_upid(1, 100);
    let no_checks: Vec<RowCheck> = Vec::new();
    store.consolidate(&no_checks, Some(running_row(&a)), 1_000);
    store.archive[0] = b"\x00\xff garbage not a row\nmore garbage\n".to_vec();

    let mut it = TaskListInfoIterator::new(&store, true);
    let first = it.next().expect("the active task is listed");
    assert_eq!(first.upid_str, a.to_text());
    assert!(first.state.is_none());
    assert!(it.next().is_none());

    let mut it = TaskListInfoIterator::new(&store, false);
    assert_eq!(it.next().unwrap().upid_str, a.to_text());
    assert!(it.next().is_none());
}

/// The full listing yields the active set most recently inserted first,
/// then the archived rows newest first.
#[test]
fn full_listing_order() {
    let mut store = TaskStore::new();
    let a = make_upid(1, 100);
    let b = make_upid(2, 200);
    let no_checks: Vec<RowCheck> = Vec::new();
    store.consolidate(&no_checks, Some(running_row(&a)), 1_000);
    let checks = vec![RowCheck { alive: false, recovered: Some(TaskState::OK { endtime: 500 }) }];
    store.consolidate(&checks, Some(running_row(&b)), 1_001);

    let mut it = TaskListInfoIterator::new(&store, false);
    let first = it.next().unwrap();
    assert_eq!(first.upid_str, b.to_text());
    assert!(first.state.is_none());
    let second = it.next().unwrap();
    assert_eq!(second.upid_str, a.to_text());
    assert_eq!(second.state, Some(TaskState::OK { endtime: 500 }));
    assert!(it.next().is_none());
}

/// Requesting an abort resolves later listeners immediately and logs the
/// notice exactly once.
#[test]
fn abort_listeners_and_single_notice() {
    let mut worker = WorkerTask::new(make_upid(7, 1_700_000_000));
    assert!(!worker.register_abort_listener(1));
    assert!(!worker.register_abort_listener(2));

    let fired = worker.request_abort(1_700_000_001);
    assert_eq!(fired, vec![1, 2]);
    assert_eq!(worker.log.len(), 1);

    // A listener registered after the request resolves immediately.
    assert!(worker.register_abort_listener(3));
    assert_eq!(worker.abort_listeners.len(), 0);

    // A second request is a no-op and logs no second notice.
    let fired = worker.request_abort(1_700_000_002);
    assert!(fired.is_empty());
    assert_eq!(worker.log.len(), 1);
}

/// Finishing with one prior warning and no error yields `WARNINGS: 1`.
#[test]
fn warning_status_text() {
    let mut worker = WorkerTask::new(make_upid(9, 1_700_000_000));
    worker.log_warning(1_700_000_001, b"disk is getting full");
    let state = worker.log_result(None, 1_700_000_002);
    assert_eq!(state, TaskState::Warning { count: 1, endtime: 1_700_000_002 });
    assert_eq!(state.status_text(), b"WARNINGS: 1".to_vec());
}

/// Rotation with a zero size threshold and two retained files, given three
/// pre-existing generations, leaves exactly two: the oldest is deleted.
#[test]
fn rotation_max_files() {
    let mut store = TaskStore::new();
    store.archive = vec![Vec::new(), b"middle generation\n".to_vec(), b"oldest generation\n".to_vec()];
    let rotated = store.rotate(0, Some(2), None, 1_700_000_000);
    assert!(rotated);
    assert_eq!(store.archive.len(), 2);
    assert_eq!(store.archive[0], b"".to_vec());
    assert_eq!(store.archive[1], b"middle generation\n".to_vec());
}

/// A nonempty current generation above the size threshold rotates into a
/// fresh one.
#[test]
fn rotation_size_threshold() {
    let mut store = TaskStore::new();
    let a = make_upid(1, 100);
    let checks: Vec<RowCheck> = Vec::new();
    store.consolidate(&checks, Some(running_row(&a)), 1_000);
    let checks = vec![RowCheck { alive: false, recovered: Some(TaskState::OK { endtime: 500 }) }];
    store.consolidate(&checks, None, 1_001);
    assert!(store.archive[0].len() > 0);

    let rotated = store.rotate(0, None, None, 1_700_000_000);
    assert!(rotated);
    assert_eq!(store.archive.len(), 2);
    assert_eq!(store.archive[0].len(), 0);
}

/// Age-based retention deletes the first generation whose first record is
/// too old, and everything older.
#[test]
fn rotation_max_days() {
    let a = make_upid(1, 100);
    let mut old_row = a.to_text();
    old_row.extend_from_slice(b" 000001F4 OK\n");
    let mut fresh_row = a.to_text();
    fresh_row.extend_from_slice(b" 65400000 OK\n");

    let mut store = TaskStore::new();
    store.archive = vec![Vec::new(), fresh_row.clone(), old_row.clone(), old_row.clone()];
    // Generation 2's first record (endtime 500) is far older than the cut.
    let rotated = store.rotate(u64::MAX, None, Some(30), 1_700_000_000);
    assert!(rotated);
    assert_eq!(store.archive.len(), 2);
    assert_eq!(store.archive[1], fresh_row);
}

/// Rotation with nothing to do reports that nothing happened.
#[test]
fn rotation_noop() {
    let mut store = TaskStore::new();
    let rotated = store.rotate(u64::MAX, Some(5), None, 1_700_000_000);
    assert!(!rotated);
    assert_eq!(store.archive.len(), 1);
}

/// Garbage collection's cutoff is the first parseable endtime of the oldest
/// generation.
#[test]
fn cleanup_cutoff_from_oldest_generation() {
    let a = make_upid(1, 100);
    let mut row = a.to_text();
    row.extend_from_slice(b" 000001F4 OK\n");
    let mut oldest = b"corrupt line first\n".to_vec();
    oldest.extend_from_slice(&row);

    let mut store = TaskStore::new();
    store.archive = vec![Vec::new(), oldest];
    assert_eq!(store.cleanup_cutoff(), Some(500));

    store.archive = vec![b"nothing parseable\n".to_vec()];
    assert_eq!(store.cleanup_cutoff(), None);
}

/// A malformed line in a row file is skipped, never fatal.
#[test]
fn malformed_rows_are_skipped() {
    let a = make_upid(1, 100);
    let mut content = b"not a row at all\n".to_vec();
    content.extend_from_slice(&a.to_text());
    content.push(b'\n');
    let rows = task_registry::listinfo::read_task_file(&content);
    assert_eq!(rows.len(), 1);
    assert_eq!(rows[0].upid_str, a.to_text());

    assert!(parse_worker_status_line(b"UPID:bad").is_none());
}

/// Only the owning process incarnation answers liveness from its registry.
#[test]
fn local_liveness_decision() {
    let mut registry = TaskRegistry::new();
    let upid = make_upid(5, 1_700_000_000);
    registry.insert(WorkerTask::new(UPID::parse(&upid.to_text()).unwrap()));

    // Same pid and start tick: the registry is authoritative.
    assert_eq!(
        task_registry::worker::local_task_active(&registry, &upid, 4242, 77),
        Some(true)
    );
    registry.remove(5);
    assert_eq!(
        task_registry::worker::local_task_active(&registry, &upid, 4242, 77),
        Some(false)
    );
    // A different incarnation cannot answer locally.
    assert_eq!(
        task_registry::worker::local_task_active(&registry, &upid, 4242, 78),
        None
    );
}
