use systems_lab::task_queue::{
    parse_sequence, EnqueueOutcome, QueueError, TaskQueue, Task, TaskState, WalCommand,
};

/// Enqueues and, for a new task, logs and applies its command, as the queue's
/// owner does.
fn enqueue(queue: &mut TaskQueue, log: &mut Vec<WalCommand>, key: &str, payload: &str, now: u64) -> Task {
    match queue.enqueue_at(key.to_string(), payload.to_string(), now).expect("enqueue should succeed") {
        EnqueueOutcome::Existing(task) => task,
        EnqueueOutcome::Created(task) => {
            let command = WalCommand::Enqueued(task.clone());
            log.push(command.clone());
            queue.apply(command);
            task
        }
    }
}

fn log_and_apply(queue: &mut TaskQueue, log: &mut Vec<WalCommand>, command: WalCommand) {
    log.push(command.clone());
    queue.apply(command);
}

fn leased_id(command: &WalCommand) -> String {
    match command {
        WalCommand::Leased { task_id, .. } => task_id.clone(),
        other => panic!("expected a lease, got {other:?}"),
    }
}

#[test]
fn enqueue_is_idempotent() {
    let mut queue = TaskQueue::new();
    let mut log = Vec::new();

    let first = enqueue(&mut queue, &mut log, "invoice-1", "send receipt", 1_000);
    let duplicate = enqueue(&mut queue, &mut log, "invoice-1", "different payload", 2_000);

    assert_eq!(first.id, duplicate.id);
    assert_eq!(first.payload, duplicate.payload);
    assert_eq!(queue.stats().queued, 1);
    assert_eq!(log.len(), 1);
}

#[test]
fn lease_ack_and_replay_preserve_state() {
    let mut log = Vec::new();
    let task_id = {
        let mut queue = TaskQueue::new();
        let task = enqueue(&mut queue, &mut log, "email-1", "send welcome email", 1_000);
        let command = queue.lease_next("worker-a".to_string(), 60_000).expect("task should lease");
        let id = leased_id(&command);
        log_and_apply(&mut queue, &mut log, command);
        let leased = queue.get(&id).expect("leased task is there");

        assert_eq!(task.id, leased.id);
        assert_eq!(leased.attempts, 1);
        let ack = queue.ack(leased.id.clone()).expect("leased task can be acknowledged");
        log_and_apply(&mut queue, &mut log, ack);
        leased.id
    };

    let mut queue = TaskQueue::new();
    queue.replay(log);
    let task = queue.get(&task_id).expect("task should replay");
    assert_eq!(task.state, TaskState::Completed);
    assert_eq!(queue.stats().completed, 1);
}

#[test]
fn failed_task_can_be_requeued() {
    let mut queue = TaskQueue::new();
    let mut log = Vec::new();
    let task = enqueue(&mut queue, &mut log, "job-1", "index page", 1_000);
    let lease = queue.lease_next("worker-a".to_string(), 60_000).expect("task should lease");
    let leased = leased_id(&lease);
    log_and_apply(&mut queue, &mut log, lease);

    let fail = queue
        .fail(leased.clone(), "temporary backend error".to_string(), true)
        .expect("leased task can fail");
    log_and_apply(&mut queue, &mut log, fail);
    let lease = queue.lease_next("worker-b".to_string(), 60_000).expect("requeued task should lease");
    let id = leased_id(&lease);
    log_and_apply(&mut queue, &mut log, lease);
    let leased = queue.get(&id).expect("task is there");

    assert_eq!(leased.id, task.id);
    assert_eq!(leased.attempts, 2);
}

#[test]
fn new_task_ids_carry_time_and_sequence() {
    let mut queue = TaskQueue::new();
    let mut log = Vec::new();
    let a = enqueue(&mut queue, &mut log, "a", "first", 1_700_000_000_000);
    let b = enqueue(&mut queue, &mut log, "b", "second", 1_700_000_000_005);
    assert_eq!(a.id, "task-1700000000000-1");
    assert_eq!(b.id, "task-1700000000005-2");
    assert_eq!(a.attempts, 0);
    assert_eq!(a.created_at_ms, 1_700_000_000_000);
    assert_eq!(a.updated_at_ms, 1_700_000_000_000);
    assert_eq!(a.state, TaskState::Queued);
    assert_eq!(queue.sequence, 2);

    let mut replayed = TaskQueue::new();
    replayed.replay(log);
    assert_eq!(replayed.sequence, 2);
    assert_eq!(replayed.tasks, queue.tasks);
}

#[test]
fn parses_sequence_numbers_from_task_ids() {
    assert_eq!(parse_sequence("task-5-42"), 42);
    assert_eq!(parse_sequence("task-5-+7"), 7);
    assert_eq!(parse_sequence("17"), 17);
    assert_eq!(parse_sequence("task-5-x"), 0);
    assert_eq!(parse_sequence("task-5-"), 0);
    assert_eq!(parse_sequence("task-5-18446744073709551615"), u64::MAX);
    assert_eq!(parse_sequence("task-5-18446744073709551616"), 0);
}

#[test]
fn lease_takes_tasks_in_queue_order_with_expiry() {
    let mut queue = TaskQueue::new();
    let mut log = Vec::new();
    let first = enqueue(&mut queue, &mut log, "k1", "p1", 10);
    let second = enqueue(&mut queue, &mut log, "k2", "p2", 20);

    let lease = queue.take_lease("w".to_string(), 500, 100).expect("a task waits");
    assert_eq!(
        lease,
        WalCommand::Leased {
            task_id: first.id.clone(),
            worker_id: "w".to_string(),
            lease_expires_at_ms: 600,
            updated_at_ms: 100,
            attempts: 1,
        }
    );
    queue.apply(lease);
    let lease = queue.take_lease("w".to_string(), u64::MAX, 100).expect("a second task waits");
    assert_eq!(leased_id(&lease), second.id);
    match &lease {
        WalCommand::Leased { lease_expires_at_ms, .. } => assert_eq!(*lease_expires_at_ms, u64::MAX),
        _ => unreachable!(),
    }
    queue.apply(lease);
    assert_eq!(queue.take_lease("w".to_string(), 500, 100), None);
    assert_eq!(queue.stats().leased, 2);
}

#[test]
fn expired_leases_return_to_the_queue() {
    let mut queue = TaskQueue::new();
    let mut log = Vec::new();
    let task = enqueue(&mut queue, &mut log, "k", "p", 10);
    let lease = queue.take_lease("w".to_string(), 50, 100).expect("task waits");
    queue.apply(lease);

    queue.requeue_expired_leases_at(149);
    assert_eq!(queue.stats().leased, 1);
    assert!(queue.ready.is_empty());

    queue.requeue_expired_leases_at(150);
    let back = queue.get(&task.id).expect("task is there");
    assert_eq!(back.state, TaskState::Queued);
    assert_eq!(back.updated_at_ms, 150);
    assert_eq!(queue.ready.iter().cloned().collect::<Vec<_>>(), vec![task.id.clone()]);

    let again = queue.take_lease("v".to_string(), 50, 200).expect("task waits again");
    assert_eq!(leased_id(&again), task.id);
    match again {
        WalCommand::Leased { attempts, .. } => assert_eq!(attempts, 2),
        _ => unreachable!(),
    }
}

#[test]
fn ack_and_fail_need_a_leased_task() {
    let mut queue = TaskQueue::new();
    let mut log = Vec::new();
    let task = enqueue(&mut queue, &mut log, "k", "p", 10);

    let unknown = queue.ack_at("task-0-9".to_string(), 20).unwrap_err();
    assert_eq!(unknown, QueueError::UnknownTask { task_id: "task-0-9".to_string() });
    assert_eq!(unknown.message(), "unknown task id: task-0-9");

    let not_leased = queue.ack_at(task.id.clone(), 20).unwrap_err();
    assert_eq!(not_leased.message(), format!("task must be leased before ack: {}", task.id));
    let not_leased = queue.fail_at(task.id.clone(), "r".to_string(), false, 20).unwrap_err();
    assert_eq!(not_leased.message(), format!("task must be leased before fail: {}", task.id));

    assert_eq!(QueueError::MissingIndexedTask.message(), "idempotency index points to missing task");

    let lease = queue.take_lease("w".to_string(), 50, 30).expect("task waits");
    queue.apply(lease);
    let fail = queue.fail_at(task.id.clone(), "broken".to_string(), false, 40).expect("leased");
    assert_eq!(
        fail,
        WalCommand::Failed { task_id: task.id.clone(), reason: "broken".to_string(), requeue: false, updated_at_ms: 40 }
    );
    queue.apply(fail);
    let failed = queue.get(&task.id).expect("task is there");
    assert_eq!(failed.state, TaskState::Failed { reason: "broken".to_string() });
    assert_eq!(failed.updated_at_ms, 40);
    let stats = queue.stats();
    assert_eq!((stats.queued, stats.leased, stats.completed, stats.failed), (0, 0, 0, 1));
}

#[test]
fn replay_rebuilds_ready_queue_in_id_order() {
    let mut queue = TaskQueue::new();
    let mut log = Vec::new();
    let b = enqueue(&mut queue, &mut log, "kb", "p", 20);
    let a = enqueue(&mut queue, &mut log, "ka", "p", 10);
    let c = enqueue(&mut queue, &mut log, "kc", "p", 30);
    let lease = queue.take_lease("w".to_string(), 5, 40).expect("task waits");
    log_and_apply(&mut queue, &mut log, lease);

    let mut replayed = TaskQueue::new();
    replayed.replay(log);
    assert_eq!(replayed.tasks, queue.tasks);
    let ids: Vec<String> = replayed.tasks.iter().map(|t| t.id.clone()).collect();
    assert_eq!(ids, vec![a.id.clone(), b.id.clone(), c.id.clone()]);
    let ready: Vec<String> = replayed.ready.iter().cloned().collect();
    assert_eq!(ready, vec![a.id.clone(), c.id.clone()]);
    let stats = replayed.stats();
    assert_eq!(stats.queued + stats.leased + stats.completed + stats.failed, replayed.tasks.len());
}
