//! A durable task queue: idempotent enqueueing, worker leases that expire,
//! acknowledgement and failure with optional requeueing. Every change is a
//! `WalCommand`; the caller logs a command before applying it, and replay
//! applies the logged commands to an empty queue.
use vstd::prelude::*;
use std::collections::VecDeque;
use vstd::utf8::{encode_utf8, encode_utf8_decode_utf8};
use crate::text::{decimal_chars, with_decimal};
use vstd::string::StringExecFns;

verus! {

#[derive(Debug, Clone, PartialEq, Eq)]
pub enum TaskState {
    Queued,
    Leased { worker_id: String, lease_expires_at_ms: u64 },
    Completed,
    Failed { reason: String },
}

#[derive(Debug, Clone, PartialEq, Eq)]
pub struct Task {
    pub id: String,
    pub idempotency_key: String,
    pub payload: String,
    pub attempts: u32,
    pub created_at_ms: u64,
    pub updated_at_ms: u64,
    pub state: TaskState,
}

#[derive(Debug, Clone, PartialEq, Eq)]
pub enum WalCommand {
    Enqueued(Task),
    Leased { task_id: String, worker_id: String, lease_expires_at_ms: u64, updated_at_ms: u64, attempts: u32 },
    Acked { task_id: String, updated_at_ms: u64 },
    Failed { task_id: String, reason: String, requeue: bool, updated_at_ms: u64 },
}

#[derive(Debug, Default, Clone, Copy, PartialEq, Eq)]
pub struct QueueStats {
    pub queued: usize,
    pub leased: usize,
    pub completed: usize,
    pub failed: usize,
}

/// Why a queue operation is refused.
#[derive(Debug, Clone, PartialEq, Eq)]
pub enum QueueError {
    UnknownTask { task_id: String },
    NotLeased { task_id: String, action: &'static str },
    MissingIndexedTask,
}

/// What an enqueue found: the task already filed under the idempotency key, or
/// a new task, which the caller logs as `WalCommand::Enqueued` and then applies.
#[derive(Debug, Clone, PartialEq, Eq)]
pub enum EnqueueOutcome {
    Existing(Task),
    Created(Task),
}

pub enum QueueErrorView {
    UnknownTask { task_id: Seq<char> },
    NotLeased { task_id: Seq<char>, action: Seq<char> },
    MissingIndexedTask,
}

pub enum EnqueueOutcomeView {
    Existing(TaskView),
    Created(TaskView),
}

impl View for QueueError {
    type V = QueueErrorView;

    open spec fn view(&self) -> QueueErrorView {
        match self {
            QueueError::UnknownTask { task_id } => QueueErrorView::UnknownTask { task_id: task_id@ },
            QueueError::NotLeased { task_id, action } => QueueErrorView::NotLeased { task_id: task_id@, action: action@ },
            QueueError::MissingIndexedTask => QueueErrorView::MissingIndexedTask,
        }
    }
}

impl View for EnqueueOutcome {
    type V = EnqueueOutcomeView;

    open spec fn view(&self) -> EnqueueOutcomeView {
        match self {
            EnqueueOutcome::Existing(t) => EnqueueOutcomeView::Existing(t@),
            EnqueueOutcome::Created(t) => EnqueueOutcomeView::Created(t@),
        }
    }
}

pub open spec fn outcome_result(r: Result<EnqueueOutcome, QueueError>) -> Result<EnqueueOutcomeView, QueueErrorView> {
    match r {
        Ok(o) => Ok(o@),
        Err(e) => Err(e@),
    }
}

pub open spec fn command_result(r: Result<WalCommand, QueueError>) -> Result<WalCommandView, QueueErrorView> {
    match r {
        Ok(c) => Ok(c@),
        Err(e) => Err(e@),
    }
}

pub open spec fn command_option(r: Option<WalCommand>) -> Option<WalCommandView> {
    match r {
        Some(c) => Some(c@),
        None => None,
    }
}

pub enum TaskStateView {
    Queued,
    Leased { worker_id: Seq<char>, lease_expires_at_ms: u64 },
    Completed,
    Failed { reason: Seq<char> },
}

pub struct TaskView {
    pub id: Seq<char>,
    pub idempotency_key: Seq<char>,
    pub payload: Seq<char>,
    pub attempts: u32,
    pub created_at_ms: u64,
    pub updated_at_ms: u64,
    pub state: TaskStateView,
}

pub enum WalCommandView {
    Enqueued(TaskView),
    Leased { task_id: Seq<char>, worker_id: Seq<char>, lease_expires_at_ms: u64, updated_at_ms: u64, attempts: u32 },
    Acked { task_id: Seq<char>, updated_at_ms: u64 },
    Failed { task_id: Seq<char>, reason: Seq<char>, requeue: bool, updated_at_ms: u64 },
}

impl View for TaskState {
    type V = TaskStateView;

    open spec fn view(&self) -> TaskStateView {
        match self {
            TaskState::Queued => TaskStateView::Queued,
            TaskState::Leased { worker_id, lease_expires_at_ms } => TaskStateView::Leased {
                worker_id: worker_id@,
                lease_expires_at_ms: *lease_expires_at_ms,
            },
            TaskState::Completed => TaskStateView::Completed,
            TaskState::Failed { reason } => TaskStateView::Failed { reason: reason@ },
        }
    }
}

impl View for Task {
    type V = TaskView;

    open spec fn view(&self) -> TaskView {
        TaskView {
            id: self.id@,
            idempotency_key: self.idempotency_key@,
            payload: self.payload@,
            attempts: self.attempts,
            created_at_ms: self.created_at_ms,
            updated_at_ms: self.updated_at_ms,
            state: self.state@,
        }
    }
}

impl View for WalCommand {
    type V = WalCommandView;

    open spec fn view(&self) -> WalCommandView {
        match self {
            WalCommand::Enqueued(t) => WalCommandView::Enqueued(t@),
            WalCommand::Leased { task_id, worker_id, lease_expires_at_ms, updated_at_ms, attempts } => WalCommandView::Leased {
                task_id: task_id@,
                worker_id: worker_id@,
                lease_expires_at_ms: *lease_expires_at_ms,
                updated_at_ms: *updated_at_ms,
                attempts: *attempts,
            },
            WalCommand::Acked { task_id, updated_at_ms } => WalCommandView::Acked {
                task_id: task_id@,
                updated_at_ms: *updated_at_ms,
            },
            WalCommand::Failed { task_id, reason, requeue, updated_at_ms } => WalCommandView::Failed {
                task_id: task_id@,
                reason: reason@,
                requeue: *requeue,
                updated_at_ms: *updated_at_ms,
            },
        }
    }
}

// ---------------------------------------------------------------------------
// The order of task ids: byte-wise, as `String`'s `Ord` compares them
// ---------------------------------------------------------------------------

pub open spec fn bytes_lt(a: Seq<u8>, b: Seq<u8>) -> bool
    decreases a.len(),
{
    if a.len() == 0 {
        b.len() > 0
    } else if b.len() == 0 {
        false
    } else if a[0] != b[0] {
        a[0] < b[0]
    } else {
        bytes_lt(a.drop_first(), b.drop_first())
    }
}

pub open spec fn id_lt(a: Seq<char>, b: Seq<char>) -> bool {
    bytes_lt(encode_utf8(a), encode_utf8(b))
}

proof fn lemma_bytes_lt_irreflexive(a: Seq<u8>)
    ensures
        !bytes_lt(a, a),
    decreases a.len(),
{
    if a.len() > 0 {
        lemma_bytes_lt_irreflexive(a.drop_first());
    }
}

proof fn lemma_bytes_lt_transitive(a: Seq<u8>, b: Seq<u8>, c: Seq<u8>)
    requires
        bytes_lt(a, b),
        bytes_lt(b, c),
    ensures
        bytes_lt(a, c),
    decreases a.len(),
{
    if a.len() > 0 && b.len() > 0 && c.len() > 0 {
        if a[0] == b[0] && b[0] == c[0] {
            lemma_bytes_lt_transitive(a.drop_first(), b.drop_first(), c.drop_first());
        }
    }
}

proof fn lemma_bytes_lt_total(a: Seq<u8>, b: Seq<u8>)
    ensures
        a == b || bytes_lt(a, b) || bytes_lt(b, a),
    decreases a.len(),
{
    if a.len() > 0 && b.len() > 0 && a[0] == b[0] {
        lemma_bytes_lt_total(a.drop_first(), b.drop_first());
        if a.drop_first() == b.drop_first() {
            assert(a =~= seq![a[0]] + a.drop_first());
            assert(b =~= seq![b[0]] + b.drop_first());
        }
    } else if a.len() == 0 && b.len() == 0 {
        assert(a =~= b);
    }
}

/// Ids are ordered strictly and totally.
proof fn lemma_id_order(a: Seq<char>, b: Seq<char>, c: Seq<char>)
    ensures
        !id_lt(a, a),
        id_lt(a, b) && id_lt(b, c) ==> id_lt(a, c),
        a == b || id_lt(a, b) || id_lt(b, a),
{
    lemma_bytes_lt_irreflexive(encode_utf8(a));
    if id_lt(a, b) && id_lt(b, c) {
        lemma_bytes_lt_transitive(encode_utf8(a), encode_utf8(b), encode_utf8(c));
    }
    lemma_bytes_lt_total(encode_utf8(a), encode_utf8(b));
    if encode_utf8(a) == encode_utf8(b) {
        encode_utf8_decode_utf8(a);
        encode_utf8_decode_utf8(b);
    }
}

/// Whether `a` comes before `b` in `String` order.
fn str_less(a: &str, b: &str) -> (r: bool)
    ensures
        r == id_lt(a@, b@),
{
    let x = a.as_bytes();
    let y = b.as_bytes();
    let mut i: usize = 0;
    proof {
        assert(x@.skip(0) =~= x@);
        assert(y@.skip(0) =~= y@);
    }
    while i < x.len() && i < y.len()
        invariant
            i <= x@.len(),
            i <= y@.len(),
            bytes_lt(x@, y@) == bytes_lt(x@.skip(i as int), y@.skip(i as int)),
            x@ == encode_utf8(a@),
            y@ == encode_utf8(b@),
        decreases x.len() - i,
    {
        let xi: u8 = x[i];
        let yi: u8 = y[i];
        assert(x@.skip(i as int)[0] == xi);
        assert(y@.skip(i as int)[0] == yi);
        if xi != yi {
            let ghost xs = x@.skip(i as int);
            let ghost ys = y@.skip(i as int);
            assert(xs.len() > 0 && ys.len() > 0);
            assert(xs[0] != ys[0]);
            assert(bytes_lt(xs, ys) == (xs[0] < ys[0]));
            return xi < yi;
        }
        assert(x@.skip(i as int).drop_first() =~= x@.skip(i + 1));
        assert(y@.skip(i as int).drop_first() =~= y@.skip(i + 1));
        i = i + 1;
    }
    i == x.len() && i < y.len()
}


/// Whether two texts are equal.
pub(crate) fn str_eq(a: &str, b: &str) -> (r: bool)
    ensures
        r == (a@ == b@),
{
    let r = crate::text::bytes_equal(a.as_bytes(), b.as_bytes());
    proof {
        encode_utf8_decode_utf8(a@);
        encode_utf8_decode_utf8(b@);
    }
    r
}

fn copy_string(s: &String) -> (r: String)
    ensures
        r@ == s@,
{
    s.clone()
}

fn copy_state(s: &TaskState) -> (r: TaskState)
    ensures
        r@ == s@,
{
    match s {
        TaskState::Queued => TaskState::Queued,
        TaskState::Leased { worker_id, lease_expires_at_ms } => TaskState::Leased {
            worker_id: copy_string(worker_id),
            lease_expires_at_ms: *lease_expires_at_ms,
        },
        TaskState::Completed => TaskState::Completed,
        TaskState::Failed { reason } => TaskState::Failed { reason: copy_string(reason) },
    }
}

/// A copy of a task.
pub fn copy_task(t: &Task) -> (r: Task)
    ensures
        r@ == t@,
{
    Task {
        id: copy_string(&t.id),
        idempotency_key: copy_string(&t.idempotency_key),
        payload: copy_string(&t.payload),
        attempts: t.attempts,
        created_at_ms: t.created_at_ms,
        updated_at_ms: t.updated_at_ms,
        state: copy_state(&t.state),
    }
}

// ---------------------------------------------------------------------------
// Sequence numbers inside task ids
// ---------------------------------------------------------------------------

pub open spec fn last_dash(s: Seq<char>) -> Option<int>
    decreases s.len(),
{
    if s.len() == 0 {
        None
    } else if s.last() == '-' {
        Some(s.len() - 1)
    } else {
        last_dash(s.drop_last())
    }
}

/// The text after the last `-`, or all of it when there is none.
pub open spec fn last_segment(s: Seq<char>) -> Seq<char> {
    match last_dash(s) {
        Some(i) => s.skip(i + 1),
        None => s,
    }
}

pub open spec fn all_digit_chars(d: Seq<char>) -> bool {
    forall|i: int| 0 <= i < d.len() ==> crate::statement::is_digit_char(#[trigger] d[i])
}

/// What `str::parse::<u64>` gives: an optional `+`, then digits only, in range.
pub open spec fn spec_parse_u64(s: Seq<char>) -> Option<u64> {
    let d = if s.len() > 0 && s[0] == '+' { s.drop_first() } else { s };
    if d.len() == 0 || !all_digit_chars(d) || crate::statement::digits_value(d) > u64::MAX {
        None
    } else {
        Some(crate::statement::digits_value(d) as u64)
    }
}

/// The number after the last `-` of a task id, or zero when there is none.
pub open spec fn spec_parse_sequence(id: Seq<char>) -> u64 {
    match spec_parse_u64(last_segment(id)) {
        Some(v) => v,
        None => 0,
    }
}

pub fn parse_sequence(task_id: &str) -> (n: u64)
    ensures
        n == spec_parse_sequence(task_id@),
{
    let mut chars: Vec<char> = Vec::new();
    for c in it: task_id.chars()
        invariant
            chars@ == it.seq().take(it.index() as int),
    {
        chars.push(c);
    }
    assert(chars@ =~= task_id@);
    let ghost s = chars@;
    // find the last dash
    let mut i: usize = chars.len();
    while i > 0 && chars[i - 1] != '-'
        invariant
            i <= s.len(),
            chars@ == s,
            last_dash(s) == last_dash(s.take(i as int)),
        decreases i,
    {
        assert(s.take(i as int).drop_last() =~= s.take(i - 1));
        i = i - 1;
    }
    proof {
        if i > 0 {
            assert(s.take(i as int).last() == '-');
            assert(last_dash(s) == Some(i - 1));
            assert(last_segment(s) =~= s.subrange(i as int, s.len() as int));
        } else {
            assert(last_dash(s) == last_dash(s.take(0)));
            assert(last_segment(s) =~= s.subrange(0, s.len() as int));
        }
    }
    let mut start = i;
    if start < chars.len() && chars[start] == '+' {
        start = start + 1;
    }
    let ghost seg = s.subrange(i as int, s.len() as int);
    let ghost d = s.subrange(start as int, s.len() as int);
    assert(d =~= if seg.len() > 0 && seg[0] == '+' { seg.drop_first() } else { seg });
    assert(seg == last_segment(s));
    if start >= chars.len() {
        return 0;
    }
    let mut acc: u128 = 0;
    let mut j = start;
    while j < chars.len()
        invariant
            start <= j <= s.len(),
            chars@ == s,
            task_id@ == s,
            last_segment(s) == seg,
            d == (if seg.len() > 0 && seg[0] == '+' { seg.drop_first() } else { seg }),
            d.len() > 0,
            d == s.subrange(start as int, s.len() as int),
            all_digit_chars(s.subrange(start as int, j as int)),
            acc == crate::statement::digits_value(s.subrange(start as int, j as int)),
            acc <= u64::MAX,
        decreases s.len() - j,
    {
        let c = chars[j];
        if c < '0' || c > '9' {
            assert(!crate::statement::is_digit_char(d[j - start]));
            return 0;
        }
        assert(s.subrange(start as int, j + 1).drop_last() =~= s.subrange(start as int, j as int));
        let next = acc * 10 + (c as u32 - 48) as u128;
        if next > u64::MAX as u128 {
            proof {
                lemma_digits_value_grows(d, (j + 1 - start) as int);
                assert(d.take((j + 1 - start) as int) =~= s.subrange(start as int, j + 1));
            }
            return 0;
        }
        acc = next;
        j = j + 1;
        assert(all_digit_chars(s.subrange(start as int, j as int))) by {
            assert forall|k: int| 0 <= k < j - start implies crate::statement::is_digit_char(#[trigger] s.subrange(start as int, j as int)[k]) by {
                if k < j - 1 - start {
                    assert(s.subrange(start as int, j as int)[k] == s.subrange(start as int, j - 1)[k]);
                }
            }
        }
    }
    assert(s.subrange(start as int, j as int) =~= d);
    acc as u64
}

/// A digit string is worth at least what any prefix of it is worth.
proof fn lemma_digits_value_grows(d: Seq<char>, n: int)
    requires
        0 <= n <= d.len(),
    ensures
        crate::statement::digits_value(d) >= crate::statement::digits_value(d.take(n)),
    decreases d.len(),
{
    if n < d.len() {
        assert(d.drop_last().take(n) =~= d.take(n));
        lemma_digits_value_grows(d.drop_last(), n);
    } else {
        assert(d.take(n) =~= d);
    }
}

/// Milliseconds since the Unix epoch, from the system clock (`SystemTime::now`);
/// a clock before the epoch reads as zero. Nothing is promised of the value.
#[verifier::external_body]
pub fn now_ms() -> u64 {
    std::time::SystemTime::now().duration_since(std::time::UNIX_EPOCH).unwrap_or_default().as_millis() as u64
}


// ---------------------------------------------------------------------------
// Queue state
// ---------------------------------------------------------------------------

/// The in-memory state of the queue. Tasks are kept in task-id order.
pub struct TaskQueue {
    pub tasks: Vec<Task>,
    pub idempotency_index: Vec<(String, String)>,
    pub ready: VecDeque<String>,
    pub sequence: u64,
}

pub struct QueueView {
    pub tasks: Seq<TaskView>,
    pub index: Seq<(Seq<char>, Seq<char>)>,
    pub ready: Seq<Seq<char>>,
    pub sequence: u64,
}

impl View for TaskQueue {
    type V = QueueView;

    open spec fn view(&self) -> QueueView {
        QueueView {
            tasks: self.tasks@.map_values(|t: Task| t@),
            index: self.idempotency_index@.map_values(|e: (String, String)| (e.0@, e.1@)),
            ready: self.ready@.map_values(|s: String| s@),
            sequence: self.sequence,
        }
    }
}

pub open spec fn tasks_sorted(tasks: Seq<TaskView>) -> bool {
    forall|i: int, j: int| 0 <= i < j < tasks.len() ==> id_lt(tasks[i].id, tasks[j].id)
}

pub open spec fn keys_unique(index: Seq<(Seq<char>, Seq<char>)>) -> bool {
    forall|i: int, j: int| 0 <= i < j < index.len() ==> index[i].0 != index[j].0
}

/// Every idempotency key points at a task that is there.
pub open spec fn index_targets_exist(q: QueueView) -> bool {
    forall|i: int| 0 <= i < q.index.len() ==> has_task(q.tasks, (#[trigger] q.index[i]).1)
}

/// What the queue keeps: tasks in strictly increasing id order (so one task per
/// id), one index entry per idempotency key, and each entry naming a task.
pub open spec fn queue_wf(q: QueueView) -> bool {
    tasks_sorted(q.tasks) && keys_unique(q.index) && index_targets_exist(q)
}

pub open spec fn has_task(tasks: Seq<TaskView>, id: Seq<char>) -> bool {
    exists|i: int| 0 <= i < tasks.len() && (#[trigger] tasks[i]).id == id
}

pub open spec fn task_pos(tasks: Seq<TaskView>, id: Seq<char>) -> int {
    choose|i: int| 0 <= i < tasks.len() && (#[trigger] tasks[i]).id == id
}

/// The task with id `id`, if any.
pub open spec fn find_task(tasks: Seq<TaskView>, id: Seq<char>) -> Option<TaskView> {
    if has_task(tasks, id) { Some(tasks[task_pos(tasks, id)]) } else { None }
}

/// How many tasks have ids before `id`.
pub open spec fn count_below(tasks: Seq<TaskView>, id: Seq<char>) -> nat
    decreases tasks.len(),
{
    if tasks.len() == 0 {
        0
    } else {
        count_below(tasks.drop_last(), id) + if id_lt(tasks.last().id, id) { 1nat } else { 0nat }
    }
}

/// The tasks with `t` put in: replacing the task with its id, or at its place in id order.
pub open spec fn upsert_task(tasks: Seq<TaskView>, t: TaskView) -> Seq<TaskView> {
    if has_task(tasks, t.id) {
        tasks.update(task_pos(tasks, t.id), t)
    } else {
        let p = count_below(tasks, t.id) as int;
        tasks.take(p) + seq![t] + tasks.skip(p)
    }
}

pub open spec fn has_key(index: Seq<(Seq<char>, Seq<char>)>, key: Seq<char>) -> bool {
    exists|i: int| 0 <= i < index.len() && (#[trigger] index[i]).0 == key
}

pub open spec fn key_pos(index: Seq<(Seq<char>, Seq<char>)>, key: Seq<char>) -> int {
    choose|i: int| 0 <= i < index.len() && (#[trigger] index[i]).0 == key
}

/// The task id stored under an idempotency key, if any.
pub open spec fn index_get(index: Seq<(Seq<char>, Seq<char>)>, key: Seq<char>) -> Option<Seq<char>> {
    if has_key(index, key) { Some(index[key_pos(index, key)].1) } else { None }
}

/// The index with `key` mapped to `id`.
pub open spec fn index_put(index: Seq<(Seq<char>, Seq<char>)>, key: Seq<char>, id: Seq<char>) -> Seq<(Seq<char>, Seq<char>)> {
    if has_key(index, key) {
        index.update(key_pos(index, key), (key, id))
    } else {
        index.push((key, id))
    }
}

/// The tasks with the task `id` (if any) changed by `f`.
pub open spec fn change_task(tasks: Seq<TaskView>, id: Seq<char>, f: spec_fn(TaskView) -> TaskView) -> Seq<TaskView> {
    if has_task(tasks, id) {
        tasks.update(task_pos(tasks, id), f(tasks[task_pos(tasks, id)]))
    } else {
        tasks
    }
}

/// What applying a logged command does to the queue.
pub open spec fn spec_apply(q: QueueView, c: WalCommandView) -> QueueView {
    match c {
        WalCommandView::Enqueued(t) => QueueView {
            sequence: if q.sequence >= spec_parse_sequence(t.id) { q.sequence } else { spec_parse_sequence(t.id) },
            index: index_put(q.index, t.idempotency_key, t.id),
            ready: q.ready.push(t.id),
            tasks: upsert_task(q.tasks, t),
        },
        WalCommandView::Leased { task_id, worker_id, lease_expires_at_ms, updated_at_ms, attempts } => QueueView {
            tasks: change_task(
                q.tasks,
                task_id,
                |t: TaskView| TaskView {
                    state: TaskStateView::Leased { worker_id, lease_expires_at_ms },
                    updated_at_ms,
                    attempts,
                    ..t
                },
            ),
            ..q
        },
        WalCommandView::Acked { task_id, updated_at_ms } => QueueView {
            tasks: change_task(q.tasks, task_id, |t: TaskView| TaskView { state: TaskStateView::Completed, updated_at_ms, ..t }),
            ..q
        },
        WalCommandView::Failed { task_id, reason, requeue, updated_at_ms } => QueueView {
            tasks: change_task(
                q.tasks,
                task_id,
                |t: TaskView| TaskView {
                    state: if requeue { TaskStateView::Queued } else { TaskStateView::Failed { reason } },
                    updated_at_ms,
                    ..t
                },
            ),
            ready: if requeue && has_task(q.tasks, task_id) { q.ready.push(task_id) } else { q.ready },
            ..q
        },
    }
}

// ---------------------------------------------------------------------------
// Counting, the ready queue, and expired leases
// ---------------------------------------------------------------------------

/// 0 for queued, 1 for leased, 2 for completed, 3 for failed.
pub open spec fn state_kind(s: TaskStateView) -> int {
    match s {
        TaskStateView::Queued => 0,
        TaskStateView::Leased { .. } => 1,
        TaskStateView::Completed => 2,
        TaskStateView::Failed { .. } => 3,
    }
}

/// How many tasks are in the state of kind `k`.
pub open spec fn count_kind(tasks: Seq<TaskView>, k: int) -> nat
    decreases tasks.len(),
{
    if tasks.len() == 0 {
        0
    } else {
        count_kind(tasks.drop_last(), k) + if state_kind(tasks.last().state) == k { 1nat } else { 0nat }
    }
}

proof fn lemma_count_kind_le(tasks: Seq<TaskView>, k: int)
    ensures
        count_kind(tasks, k) <= tasks.len(),
    decreases tasks.len(),
{
    if tasks.len() > 0 {
        lemma_count_kind_le(tasks.drop_last(), k);
    }
}

/// The ids of the queued tasks, in task order.
pub open spec fn queued_ids(tasks: Seq<TaskView>) -> Seq<Seq<char>>
    decreases tasks.len(),
{
    if tasks.len() == 0 {
        Seq::empty()
    } else if tasks.last().state is Queued {
        queued_ids(tasks.drop_last()).push(tasks.last().id)
    } else {
        queued_ids(tasks.drop_last())
    }
}

/// Whether the task is leased with a lease that ends at or before `now`.
pub open spec fn lease_expired(t: TaskView, now: u64) -> bool {
    match t.state {
        TaskStateView::Leased { lease_expires_at_ms, .. } => lease_expires_at_ms <= now,
        _ => false,
    }
}

/// The task back in the queue at `now` if its lease has run out.
pub open spec fn requeue_task(t: TaskView, now: u64) -> TaskView {
    if lease_expired(t, now) {
        TaskView { state: TaskStateView::Queued, updated_at_ms: now, ..t }
    } else {
        t
    }
}

/// The ids of the tasks whose leases have run out at `now`, in task order.
pub open spec fn expired_ids(tasks: Seq<TaskView>, now: u64) -> Seq<Seq<char>>
    decreases tasks.len(),
{
    if tasks.len() == 0 {
        Seq::empty()
    } else if lease_expired(tasks.last(), now) {
        expired_ids(tasks.drop_last(), now).push(tasks.last().id)
    } else {
        expired_ids(tasks.drop_last(), now)
    }
}

/// The queue after every lease that has run out at `now` is put back.
pub open spec fn spec_requeue(q: QueueView, now: u64) -> QueueView {
    QueueView {
        tasks: q.tasks.map_values(|t: TaskView| requeue_task(t, now)),
        ready: q.ready + expired_ids(q.tasks, now),
        ..q
    }
}

// ---------------------------------------------------------------------------
// Deciding what to log
// ---------------------------------------------------------------------------

/// The id of a task created at `now` with sequence number `seq`: `task-{now}-{seq}`.
pub open spec fn task_id_for(now: u64, seq: u64) -> Seq<char> {
    "task-"@ + decimal_chars(now as nat) + "-"@ + decimal_chars(seq as nat)
}

/// A fresh queued task.
pub open spec fn new_task(key: Seq<char>, payload: Seq<char>, now: u64, seq: u64) -> TaskView {
    TaskView {
        id: task_id_for(now, seq),
        idempotency_key: key,
        payload,
        attempts: 0,
        created_at_ms: now,
        updated_at_ms: now,
        state: TaskStateView::Queued,
    }
}

/// Enqueueing at `now`: the task filed under the key if there is one, else a
/// new task numbered with the next sequence number.
pub open spec fn spec_enqueue(q: QueueView, key: Seq<char>, payload: Seq<char>, now: u64) -> (QueueView, Result<EnqueueOutcomeView, QueueErrorView>) {
    match index_get(q.index, key) {
        Some(id) => (
            q,
            match find_task(q.tasks, id) {
                Some(t) => Ok(EnqueueOutcomeView::Existing(t)),
                None => Err(QueueErrorView::MissingIndexedTask),
            },
        ),
        None => {
            let seq = (q.sequence + 1) as u64;
            (QueueView { sequence: seq, ..q }, Ok(EnqueueOutcomeView::Created(new_task(key, payload, now, seq))))
        },
    }
}

/// Whether the id names a task that is waiting in the queue.
pub open spec fn is_ready_task(tasks: Seq<TaskView>, id: Seq<char>) -> bool {
    match find_task(tasks, id) {
        Some(t) => t.state is Queued,
        None => false,
    }
}

/// The position of the first id in the ready queue that names a queued task,
/// or the queue's length when none does.
pub open spec fn first_ready(tasks: Seq<TaskView>, ready: Seq<Seq<char>>) -> int
    decreases ready.len(),
{
    if ready.len() == 0 {
        0
    } else if is_ready_task(tasks, ready[0]) {
        0
    } else {
        1 + first_ready(tasks, ready.drop_first())
    }
}

proof fn lemma_first_ready(tasks: Seq<TaskView>, ready: Seq<Seq<char>>)
    ensures
        0 <= first_ready(tasks, ready) <= ready.len(),
        first_ready(tasks, ready) < ready.len() ==> is_ready_task(tasks, ready[first_ready(tasks, ready)]),
        forall|j: int| 0 <= j < first_ready(tasks, ready) ==> !is_ready_task(tasks, #[trigger] ready[j]),
    decreases ready.len(),
{
    if ready.len() > 0 && !is_ready_task(tasks, ready[0]) {
        let rest = ready.drop_first();
        lemma_first_ready(tasks, rest);
        assert forall|j: int| 0 <= j < first_ready(tasks, ready) implies !is_ready_task(tasks, #[trigger] ready[j]) by {
            if j > 0 {
                assert(ready[j] == rest[j - 1]);
            }
        }
    }
}

/// When a lease taken at `now` for `lease_ms` runs out (at the largest time if
/// the sum does not fit).
pub open spec fn lease_expiry(now: u64, lease_ms: u64) -> u64 {
    if now + lease_ms > u64::MAX { u64::MAX } else { (now + lease_ms) as u64 }
}

/// Taking the next lease: ids are taken off the ready queue until one names a
/// queued task, which is leased to the worker.
pub open spec fn spec_take_lease(q: QueueView, worker_id: Seq<char>, lease_ms: u64, now: u64) -> (QueueView, Option<WalCommandView>) {
    let k = first_ready(q.tasks, q.ready);
    if k < q.ready.len() {
        let id = q.ready[k];
        let attempts = match find_task(q.tasks, id) {
            Some(t) => t.attempts + 1,
            None => 0,
        };
        (
            QueueView { ready: q.ready.skip(k + 1), ..q },
            Some(WalCommandView::Leased {
                task_id: id,
                worker_id,
                lease_expires_at_ms: lease_expiry(now, lease_ms),
                updated_at_ms: now,
                attempts: attempts as u32,
            }),
        )
    } else {
        (QueueView { ready: Seq::empty(), ..q }, None)
    }
}

/// Every queued task can be attempted once more without overflow.
pub open spec fn queued_attempts_bounded(tasks: Seq<TaskView>) -> bool {
    forall|i: int| 0 <= i < tasks.len() && (#[trigger] tasks[i]).state is Queued ==> tasks[i].attempts < u32::MAX
}

/// Every queued or leased task can be attempted once more without overflow.
pub open spec fn attempts_bounded(tasks: Seq<TaskView>) -> bool {
    forall|i: int|
        0 <= i < tasks.len() && ((#[trigger] tasks[i]).state is Queued || tasks[i].state is Leased)
            ==> tasks[i].attempts < u32::MAX
}

/// Acknowledging or failing a task: only a leased task may be.
pub open spec fn check_leased(tasks: Seq<TaskView>, id: Seq<char>, action: Seq<char>, c: WalCommandView) -> Result<WalCommandView, QueueErrorView> {
    match find_task(tasks, id) {
        None => Err(QueueErrorView::UnknownTask { task_id: id }),
        Some(t) => if t.state is Leased {
            Ok(c)
        } else {
            Err(QueueErrorView::NotLeased { task_id: id, action })
        },
    }
}

pub open spec fn spec_ack(q: QueueView, id: Seq<char>, now: u64) -> Result<WalCommandView, QueueErrorView> {
    check_leased(q.tasks, id, "ack"@, WalCommandView::Acked { task_id: id, updated_at_ms: now })
}

pub open spec fn spec_fail(q: QueueView, id: Seq<char>, reason: Seq<char>, requeue: bool, now: u64) -> Result<WalCommandView, QueueErrorView> {
    check_leased(q.tasks, id, "fail"@, WalCommandView::Failed { task_id: id, reason, requeue, updated_at_ms: now })
}

/// The queue after applying the commands in order.
pub open spec fn apply_all(q: QueueView, cs: Seq<WalCommandView>) -> QueueView
    decreases cs.len(),
{
    if cs.len() == 0 {
        q
    } else {
        spec_apply(apply_all(q, cs.drop_last()), cs.last())
    }
}

/// The queue a log replays to: its commands applied in order, then the ready
/// queue rebuilt from the queued tasks.
pub open spec fn spec_replay(q: QueueView, cs: Seq<WalCommandView>) -> QueueView {
    let applied = apply_all(q, cs);
    QueueView { ready: queued_ids(applied.tasks), ..applied }
}

proof fn lemma_task_pos_unique(tasks: Seq<TaskView>, i: int)
    requires
        tasks_sorted(tasks),
        0 <= i < tasks.len(),
    ensures
        has_task(tasks, tasks[i].id),
        task_pos(tasks, tasks[i].id) == i,
{
    let id = tasks[i].id;
    assert(has_task(tasks, id));
    let c = task_pos(tasks, id);
    if c != i {
        lemma_id_order(id, id, id);
        if c < i {
            assert(id_lt(tasks[c].id, tasks[i].id));
        } else {
            assert(id_lt(tasks[i].id, tasks[c].id));
        }
    }
}

proof fn lemma_key_pos_unique(index: Seq<(Seq<char>, Seq<char>)>, i: int)
    requires
        keys_unique(index),
        0 <= i < index.len(),
    ensures
        has_key(index, index[i].0),
        key_pos(index, index[i].0) == i,
{
    let key = index[i].0;
    assert(has_key(index, key));
    let c = key_pos(index, key);
    if c != i {
        if c < i {
            assert(index[c].0 != index[i].0);
        } else {
            assert(index[i].0 != index[c].0);
        }
    }
}

/// Counting the tasks below `id`: exactly the first `p` of them are.
proof fn lemma_count_below(tasks: Seq<TaskView>, id: Seq<char>, p: int)
    requires
        0 <= p <= tasks.len(),
        forall|k: int| 0 <= k < p ==> id_lt(#[trigger] tasks[k].id, id),
        forall|k: int| p <= k < tasks.len() ==> !id_lt(#[trigger] tasks[k].id, id),
    ensures
        count_below(tasks, id) == p,
    decreases tasks.len(),
{
    if tasks.len() > 0 {
        let init = tasks.drop_last();
        if p == tasks.len() {
            assert forall|k: int| 0 <= k < init.len() implies id_lt(#[trigger] init[k].id, id) by {
                assert(init[k] == tasks[k]);
            }
            lemma_count_below(init, id, p - 1);
            assert(id_lt(tasks[tasks.len() - 1].id, id));
        } else {
            assert forall|k: int| 0 <= k < p implies id_lt(#[trigger] init[k].id, id) by {
                assert(init[k] == tasks[k]);
            }
            assert forall|k: int| p <= k < init.len() implies !id_lt(#[trigger] init[k].id, id) by {
                assert(init[k] == tasks[k]);
            }
            lemma_count_below(init, id, p);
            assert(!id_lt(tasks[tasks.len() - 1].id, id));
        }
    }
}


/// Ids present before an upsert are present after it, and so is the new one.
proof fn lemma_upsert_has(ts: Seq<TaskView>, t: TaskView, x: Seq<char>)
    requires
        has_task(ts, x) || x == t.id,
    ensures
        has_task(upsert_task(ts, t), x),
{
    let nt = upsert_task(ts, t);
    if has_task(ts, t.id) {
        let p = task_pos(ts, t.id);
        if x == t.id {
            assert(nt[p].id == x);
        } else {
            let j = choose|j: int| 0 <= j < ts.len() && (#[trigger] ts[j]).id == x;
            assert(nt[j].id == x);
        }
    } else {
        let p = count_below(ts, t.id) as int;
        lemma_count_below_le(ts, t.id);
        if x == t.id {
            assert(nt[p] == t);
        } else {
            let j = choose|j: int| 0 <= j < ts.len() && (#[trigger] ts[j]).id == x;
            if j < p {
                assert(nt[j] == ts[j]);
            } else {
                assert(nt[j + 1] == ts[j]);
            }
        }
    }
}

proof fn lemma_count_below_le(tasks: Seq<TaskView>, id: Seq<char>)
    ensures
        count_below(tasks, id) <= tasks.len(),
    decreases tasks.len(),
{
    if tasks.len() > 0 {
        lemma_count_below_le(tasks.drop_last(), id);
    }
}

/// Two task lists with the same ids position by position hold the same ids.
proof fn lemma_same_ids(a: Seq<TaskView>, b: Seq<TaskView>)
    requires
        a.len() == b.len(),
        forall|j: int| 0 <= j < a.len() ==> (#[trigger] a[j]).id == b[j].id,
    ensures
        forall|x: Seq<char>| has_task(a, x) ==> has_task(b, x),
        tasks_sorted(a) ==> tasks_sorted(b),
{
    assert forall|x: Seq<char>| has_task(a, x) implies has_task(b, x) by {
        let j = choose|j: int| 0 <= j < a.len() && (#[trigger] a[j]).id == x;
        assert(b[j].id == x);
    }
    if tasks_sorted(a) {
        assert forall|i: int, j: int| 0 <= i < j < b.len() implies id_lt(b[i].id, b[j].id) by {
            assert(a[i].id == b[i].id && a[j].id == b[j].id);
        }
    }
}

/// In a sorted list, the tasks below `id` are exactly the first `count_below` ones.
proof fn lemma_count_below_partition(ts: Seq<TaskView>, id: Seq<char>)
    requires
        tasks_sorted(ts),
    ensures
        count_below(ts, id) <= ts.len(),
        forall|k: int| 0 <= k < count_below(ts, id) ==> id_lt(#[trigger] ts[k].id, id),
        forall|k: int| count_below(ts, id) <= k < ts.len() ==> !id_lt(#[trigger] ts[k].id, id),
    decreases ts.len(),
{
    if ts.len() > 0 {
        let init = ts.drop_last();
        assert(tasks_sorted(init)) by {
            assert forall|i: int, j: int| 0 <= i < j < init.len() implies id_lt(init[i].id, init[j].id) by {
                assert(init[i] == ts[i] && init[j] == ts[j]);
            }
        }
        lemma_count_below_partition(init, id);
        let c = count_below(init, id);
        let last = ts.len() - 1;
        if id_lt(ts[last].id, id) {
            if c < init.len() {
                assert(id_lt(ts[c as int].id, ts[last].id));
                lemma_id_order(ts[c as int].id, ts[last].id, id);
                assert(init[c as int] == ts[c as int]);
                assert(false);
            }
            assert forall|k: int| 0 <= k < count_below(ts, id) implies id_lt(#[trigger] ts[k].id, id) by {
                if k < last {
                    assert(init[k] == ts[k]);
                }
            }
        } else {
            assert forall|k: int| 0 <= k < count_below(ts, id) implies id_lt(#[trigger] ts[k].id, id) by {
                assert(init[k] == ts[k]);
            }
            assert forall|k: int| count_below(ts, id) <= k < ts.len() implies !id_lt(#[trigger] ts[k].id, id) by {
                if k < last {
                    assert(init[k] == ts[k]);
                }
            }
        }
    }
}

/// Putting a task in keeps the list sorted, and the task is then found under its id.
proof fn lemma_upsert_sorted(ts: Seq<TaskView>, t: TaskView)
    requires
        tasks_sorted(ts),
    ensures
        tasks_sorted(upsert_task(ts, t)),
        find_task(upsert_task(ts, t), t.id) == Some(t),
{
    let nt = upsert_task(ts, t);
    if has_task(ts, t.id) {
        let p = task_pos(ts, t.id);
        assert forall|a: int, b: int| 0 <= a < b < nt.len() implies id_lt(nt[a].id, nt[b].id) by {
            assert(ts[a].id == nt[a].id && ts[b].id == nt[b].id);
        }
        lemma_task_pos_unique(nt, p);
    } else {
        lemma_count_below_partition(ts, t.id);
        let p = count_below(ts, t.id) as int;
        assert forall|k: int| p <= k < ts.len() implies id_lt(t.id, #[trigger] ts[k].id) by {
            lemma_id_order(ts[k].id, t.id, ts[k].id);
            if ts[k].id == t.id {
                assert(has_task(ts, t.id));
            }
        }
        assert forall|a: int, b: int| 0 <= a < b < nt.len() implies id_lt(nt[a].id, nt[b].id) by {
            if b < p {
                assert(nt[a] == ts[a] && nt[b] == ts[b]);
            } else if b == p {
                assert(nt[a] == ts[a]);
            } else if a < p {
                assert(nt[a] == ts[a] && nt[b] == ts[b - 1]);
                lemma_id_order(ts[a].id, t.id, ts[b - 1].id);
            } else if a == p {
                assert(nt[b] == ts[b - 1]);
            } else {
                assert(nt[a] == ts[a - 1] && nt[b] == ts[b - 1]);
            }
        }
        assert(nt[p] == t);
        lemma_task_pos_unique(nt, p);
    }
}

/// Mapping a key keeps keys unique, and the key then gives the new id.
proof fn lemma_index_put(index: Seq<(Seq<char>, Seq<char>)>, key: Seq<char>, id: Seq<char>)
    requires
        keys_unique(index),
    ensures
        keys_unique(index_put(index, key, id)),
        index_get(index_put(index, key, id), key) == Some(id),
{
    let ix = index_put(index, key, id);
    if has_key(index, key) {
        let p = key_pos(index, key);
        assert forall|a: int, b: int| 0 <= a < b < ix.len() implies ix[a].0 != ix[b].0 by {
            assert(index[a].0 == ix[a].0 && index[b].0 == ix[b].0);
        }
        lemma_key_pos_unique(ix, p);
    } else {
        let p = index.len() as int;
        assert forall|a: int, b: int| 0 <= a < b < ix.len() implies ix[a].0 != ix[b].0 by {
            if b == p {
                assert(ix[a] == index[a]);
                if index[a].0 == key {
                    assert(has_key(index, key));
                }
            } else {
                assert(ix[a] == index[a] && ix[b] == index[b]);
            }
        }
        lemma_key_pos_unique(ix, p);
    }
}

// ---------------------------------------------------------------------------
// Laws
// ---------------------------------------------------------------------------

/// The decimal form of a number is digits only and reads back as the number.
proof fn lemma_decimal_chars_value(n: nat)
    ensures
        decimal_chars(n).len() >= 1,
        all_digit_chars(decimal_chars(n)),
        crate::statement::digits_value(decimal_chars(n)) == n,
    decreases n,
{
    let d = decimal_chars(n);
    if n < 10 {
        assert(d[0] == (48 + n) as u8 as char);
        assert(d.drop_last().len() == 0);
        assert(crate::statement::digits_value(d.drop_last()) == 0);
        assert(d.last() as nat == 48 + n);
    } else {
        lemma_decimal_chars_value(n / 10);
        let h = decimal_chars(n / 10);
        assert(d.drop_last() =~= h);
        assert(d.last() == (48 + n % 10) as u8 as char);
        assert(d.last() as nat == 48 + n % 10);
        assert forall|i: int| 0 <= i < d.len() implies crate::statement::is_digit_char(#[trigger] d[i]) by {
            if i < d.len() - 1 {
                assert(d[i] == h[i]);
            }
        }
        assert((n / 10) * 10 + n % 10 == n) by (nonlinear_arith);
    }
}

/// The last `-` of a text is the one after which no other comes.
proof fn lemma_last_dash_at(s: Seq<char>, k: int)
    requires
        0 <= k < s.len(),
        s[k] == '-',
        forall|j: int| k < j < s.len() ==> s[j] != '-',
    ensures
        last_dash(s) == Some(k),
    decreases s.len(),
{
    if k < s.len() - 1 {
        let init = s.drop_last();
        assert forall|j: int| k < j < init.len() implies init[j] != '-' by {
            assert(init[j] == s[j]);
        }
        lemma_last_dash_at(init, k);
    }
}

/// A new task's id ends in its sequence number, so applying its `Enqueued`
/// command (live or on replay) restores the sequence number that created it.
pub proof fn law_task_id_carries_sequence(now: u64, seq: u64)
    ensures
        spec_parse_sequence(task_id_for(now, seq)) == seq,
{
    reveal_strlit("task-");
    reveal_strlit("-");
    let a = "task-"@ + decimal_chars(now as nat);
    let d = decimal_chars(seq as nat);
    let s = task_id_for(now, seq);
    lemma_decimal_chars_value(seq as nat);
    assert(s =~= a + seq!['-'] + d);
    let k = a.len() as int;
    assert(s[k] == '-');
    assert forall|j: int| k < j < s.len() implies s[j] != '-' by {
        assert(s[j] == d[j - k - 1]);
        assert(crate::statement::is_digit_char(d[j - k - 1]));
    }
    lemma_last_dash_at(s, k);
    assert(last_segment(s) =~= d);
    assert(crate::statement::is_digit_char(d[0]));
}

/// Enqueueing under one idempotency key twice gives the first task back:
/// once the first enqueue's new task is logged and applied, a second enqueue
/// under that key, with any payload and at any time, returns that same task
/// and changes nothing.
pub proof fn law_enqueue_is_idempotent(
    q: QueueView,
    key: Seq<char>,
    payload: Seq<char>,
    other_payload: Seq<char>,
    now: u64,
    later: u64,
)
    requires
        queue_wf(q),
        index_get(q.index, key) is None ==> q.sequence < u64::MAX,
    ensures
        ({
            let (q1, r1) = spec_enqueue(q, key, payload, now);
            match r1 {
                Ok(EnqueueOutcomeView::Created(t)) => {
                    let q2 = spec_apply(q1, WalCommandView::Enqueued(t));
                    &&& queue_wf(q2)
                    &&& q2.sequence == q1.sequence
                    &&& spec_enqueue(q2, key, other_payload, later) == (q2, Ok::<EnqueueOutcomeView, QueueErrorView>(EnqueueOutcomeView::Existing(t)))
                },
                Ok(EnqueueOutcomeView::Existing(t)) => spec_enqueue(q1, key, other_payload, later) == (
                    q1,
                    Ok::<EnqueueOutcomeView, QueueErrorView>(EnqueueOutcomeView::Existing(t)),
                ),
                Err(_) => false,
            }
        }),
{
    match index_get(q.index, key) {
        Some(id) => {
            let p = key_pos(q.index, key);
            assert(has_task(q.tasks, q.index[p].1));
        },
        None => {
            let seq = (q.sequence + 1) as u64;
            let t = new_task(key, payload, now, seq);
            let q1 = QueueView { sequence: seq, ..q };
            let q2 = spec_apply(q1, WalCommandView::Enqueued(t));
            lemma_index_put(q.index, key, t.id);
            lemma_upsert_sorted(q.tasks, t);
            law_task_id_carries_sequence(now, seq);
            assert(find_task(q2.tasks, t.id) == Some(t));
            assert(index_get(q2.index, key) == Some(t.id));
            assert forall|i: int| 0 <= i < q2.index.len() implies has_task(q2.tasks, (#[trigger] q2.index[i]).1) by {
                if has_key(q.index, key) {
                } else if i < q.index.len() {
                    assert(q2.index[i] == q.index[i]);
                    assert(has_task(q.tasks, q.index[i].1));
                }
                lemma_upsert_has(q.tasks, t, q2.index[i].1);
            }
        },
    }
}

/// The tasks, the idempotency index and the sequence number follow from the
/// logged commands alone: two queues that agree on them agree on them again
/// after the same commands, whatever their ready queues hold. So a queue that
/// replays its log holds the tasks of the queue that wrote it.
pub proof fn law_log_determines_tasks(q1: QueueView, q2: QueueView, cs: Seq<WalCommandView>)
    requires
        q1.tasks == q2.tasks,
        q1.index == q2.index,
        q1.sequence == q2.sequence,
    ensures
        apply_all(q1, cs).tasks == apply_all(q2, cs).tasks,
        apply_all(q1, cs).index == apply_all(q2, cs).index,
        apply_all(q1, cs).sequence == apply_all(q2, cs).sequence,
    decreases cs.len(),
{
    if cs.len() > 0 {
        law_log_determines_tasks(q1, q2, cs.drop_last());
    }
}

/// Every task is counted in exactly one state.
pub proof fn law_stats_count_every_task(tasks: Seq<TaskView>)
    ensures
        count_kind(tasks, 0) + count_kind(tasks, 1) + count_kind(tasks, 2) + count_kind(tasks, 3) == tasks.len(),
    decreases tasks.len(),
{
    if tasks.len() > 0 {
        law_stats_count_every_task(tasks.drop_last());
    }
}

/// Changing one task by a change that keeps ids: that task is found changed,
/// every other task is found as before.
proof fn lemma_change_task_find(ts: Seq<TaskView>, id: Seq<char>, f: spec_fn(TaskView) -> TaskView, x: Seq<char>)
    requires
        tasks_sorted(ts),
        forall|t: TaskView| (#[trigger] f(t)).id == t.id,
    ensures
        tasks_sorted(change_task(ts, id, f)),
        find_task(change_task(ts, id, f), x) == (if x == id {
            match find_task(ts, x) {
                Some(t) => Some(f(t)),
                None => None,
            }
        } else {
            find_task(ts, x)
        }),
{
    if has_task(ts, id) {
        let p = task_pos(ts, id);
        let nt = change_task(ts, id, f);
        assert(nt[p].id == ts[p].id);
        lemma_same_ids(ts, nt);
        lemma_same_ids(nt, ts);
        if has_task(ts, x) {
            let j = task_pos(ts, x);
            lemma_task_pos_unique(nt, j);
            if x == id {
                assert(j == p);
            } else {
                assert(j != p);
            }
        }
    }
}

/// A lease hands out the first waiting task: applying the lease command marks
/// it leased to the worker until the lease runs out, one attempt more. When no
/// lease is handed out, no id in the ready queue names a waiting task.
pub proof fn law_lease_takes_waiting_task(q: QueueView, worker_id: Seq<char>, lease_ms: u64, now: u64)
    requires
        queue_wf(q),
    ensures
        ({
            let (q1, c) = spec_take_lease(q, worker_id, lease_ms, now);
            match c {
                Some(cmd) => {
                    let id = q.ready[first_ready(q.tasks, q.ready)];
                    &&& cmd matches WalCommandView::Leased { task_id, .. } && task_id == id
                    &&& find_task(q.tasks, id) matches Some(t) && t.state is Queued && find_task(spec_apply(q1, cmd).tasks, id) == Some(TaskView {
                        state: TaskStateView::Leased { worker_id, lease_expires_at_ms: lease_expiry(now, lease_ms) },
                        updated_at_ms: now,
                        attempts: (t.attempts + 1) as u32,
                        ..t
                    })
                },
                None => forall|j: int| 0 <= j < q.ready.len() ==> !is_ready_task(q.tasks, #[trigger] q.ready[j]),
            }
        }),
{
    lemma_first_ready(q.tasks, q.ready);
    let k = first_ready(q.tasks, q.ready);
    if k < q.ready.len() {
        let id = q.ready[k];
        let (q1, c) = spec_take_lease(q, worker_id, lease_ms, now);
        let cmd = c->0;
        let t = find_task(q.tasks, id)->0;
        let f = |u: TaskView| TaskView {
            state: TaskStateView::Leased { worker_id, lease_expires_at_ms: lease_expiry(now, lease_ms) },
            updated_at_ms: now,
            attempts: (t.attempts + 1) as u32,
            ..u
        };
        lemma_change_task_find(q.tasks, id, f, id);
        assert(spec_apply(q1, cmd).tasks == change_task(q.tasks, id, f));
    }
}

/// Acknowledging a leased task completes it.
pub proof fn law_ack_completes_leased_task(q: QueueView, id: Seq<char>, now: u64)
    requires
        queue_wf(q),
        find_task(q.tasks, id) matches Some(t) && t.state is Leased,
    ensures
        spec_ack(q, id, now) == Ok::<WalCommandView, QueueErrorView>(WalCommandView::Acked { task_id: id, updated_at_ms: now }),
        find_task(spec_apply(q, WalCommandView::Acked { task_id: id, updated_at_ms: now }).tasks, id) == Some(TaskView {
            state: TaskStateView::Completed,
            updated_at_ms: now,
            ..find_task(q.tasks, id)->0
        }),
{
    let f = |u: TaskView| TaskView { state: TaskStateView::Completed, updated_at_ms: now, ..u };
    lemma_change_task_find(q.tasks, id, f, id);
}

/// A leased task failed with `requeue` waits again, and when nothing else
/// waits ahead of it in the ready queue the next lease hands it out, one
/// attempt more.
pub proof fn law_requeued_failure_is_leased_again(
    q: QueueView,
    id: Seq<char>,
    reason: Seq<char>,
    now: u64,
    worker_id: Seq<char>,
    lease_ms: u64,
    later: u64,
)
    requires
        queue_wf(q),
        find_task(q.tasks, id) matches Some(t) && t.state is Leased,
        forall|j: int| 0 <= j < q.ready.len() ==> !is_ready_task(q.tasks, #[trigger] q.ready[j]),
    ensures
        ({
            let t = find_task(q.tasks, id)->0;
            let c = WalCommandView::Failed { task_id: id, reason, requeue: true, updated_at_ms: now };
            let q1 = spec_apply(q, c);
            &&& spec_fail(q, id, reason, true, now) == Ok::<WalCommandView, QueueErrorView>(c)
            &&& find_task(q1.tasks, id) == Some(TaskView { state: TaskStateView::Queued, updated_at_ms: now, ..t })
            &&& spec_take_lease(q1, worker_id, lease_ms, later).1 == Some(WalCommandView::Leased {
                task_id: id,
                worker_id,
                lease_expires_at_ms: lease_expiry(later, lease_ms),
                updated_at_ms: later,
                attempts: (t.attempts + 1) as u32,
            })
        }),
{
    let t = find_task(q.tasks, id)->0;
    let c = WalCommandView::Failed { task_id: id, reason, requeue: true, updated_at_ms: now };
    let q1 = spec_apply(q, c);
    let f = |u: TaskView| TaskView { state: TaskStateView::Queued, updated_at_ms: now, ..u };
    assert(q1.tasks == change_task(q.tasks, id, f));
    lemma_change_task_find(q.tasks, id, f, id);
    assert(q1.ready == q.ready.push(id));
    lemma_first_ready(q1.tasks, q1.ready);
    let k = first_ready(q1.tasks, q1.ready);
    assert(is_ready_task(q1.tasks, q1.ready[q1.ready.len() - 1]));
    assert(k < q1.ready.len());
    if q1.ready[k] != id {
        lemma_change_task_find(q.tasks, id, f, q1.ready[k]);
        assert(q1.ready[k] == q.ready[k]);
        assert(!is_ready_task(q.tasks, q.ready[k]));
    }
}

/// A step of a live queue: applying a command once it is logged, deciding an
/// enqueue (which may take a sequence number), or taking a lease off the ready
/// queue. Putting expired leases back is not a step: it is not logged.
pub enum LiveStep {
    Apply(WalCommandView),
    Enqueue { key: Seq<char>, payload: Seq<char>, now: u64 },
    TakeLease { worker_id: Seq<char>, lease_ms: u64, now: u64 },
}

/// The live queue after the steps, in order.
pub open spec fn live_run(q: QueueView, steps: Seq<LiveStep>) -> QueueView
    decreases steps.len(),
{
    if steps.len() == 0 {
        q
    } else {
        let p = live_run(q, steps.drop_last());
        match steps.last() {
            LiveStep::Apply(c) => spec_apply(p, c),
            LiveStep::Enqueue { key, payload, now } => spec_enqueue(p, key, payload, now).0,
            LiveStep::TakeLease { worker_id, lease_ms, now } => spec_take_lease(p, worker_id, lease_ms, now).0,
        }
    }
}

/// The commands the steps logged, in order.
pub open spec fn logged_commands(steps: Seq<LiveStep>) -> Seq<WalCommandView>
    decreases steps.len(),
{
    if steps.len() == 0 {
        Seq::empty()
    } else {
        match steps.last() {
            LiveStep::Apply(c) => logged_commands(steps.drop_last()).push(c),
            _ => logged_commands(steps.drop_last()),
        }
    }
}

/// A queue reopened from its log holds the tasks and the idempotency index of
/// the live queue that wrote the log, whatever enqueues and leases were
/// decided in between.
pub proof fn law_replay_reproduces_live_queue(q: QueueView, steps: Seq<LiveStep>)
    ensures
        spec_replay(q, logged_commands(steps)).tasks == live_run(q, steps).tasks,
        spec_replay(q, logged_commands(steps)).index == live_run(q, steps).index,
    decreases steps.len(),
{
    if steps.len() > 0 {
        law_replay_reproduces_live_queue(q, steps.drop_last());
        let cs = logged_commands(steps.drop_last());
        match steps.last() {
            LiveStep::Apply(c) => {
                assert(logged_commands(steps).drop_last() =~= cs);
            },
            _ => {},
        }
    }
}

/// A task created by an enqueue is the one asked for: it carries the given
/// idempotency key and payload, is queued with no attempts, and was created
/// and updated at the given time, and only a key not yet filed creates one.
/// A known key gives back the task filed under it and changes nothing.
pub proof fn law_enqueue_creates_requested_task(q: QueueView, key: Seq<char>, payload: Seq<char>, now: u64)
    ensures
        spec_enqueue(q, key, payload, now).1 matches Ok(EnqueueOutcomeView::Created(t)) ==> {
            &&& t.idempotency_key == key
            &&& t.payload == payload
            &&& t.attempts == 0
            &&& t.state is Queued
            &&& t.created_at_ms == now
            &&& t.updated_at_ms == now
            &&& index_get(q.index, key) is None
        },
        spec_enqueue(q, key, payload, now).1 matches Ok(EnqueueOutcomeView::Existing(t)) ==> {
            &&& index_get(q.index, key) matches Some(id) && find_task(q.tasks, id) == Some(t)
            &&& spec_enqueue(q, key, payload, now).0 == q
        },
{
}

impl TaskQueue {
    pub fn new() -> (q: TaskQueue)
        ensures
            q@.tasks.len() == 0,
            q@.index.len() == 0,
            q@.ready.len() == 0,
            q@.sequence == 0,
            queue_wf(q@),
    {
        let q = TaskQueue { tasks: Vec::new(), idempotency_index: Vec::new(), ready: VecDeque::new(), sequence: 0 };
        assert(q@.tasks =~= Seq::<TaskView>::empty());
        assert(q@.index =~= Seq::<(Seq<char>, Seq<char>)>::empty());
        assert(q@.ready =~= Seq::<Seq<char>>::empty());
        q
    }

    /// Where the task with id `id` is kept.
    fn find_task_index(&self, id: &str) -> (r: Option<usize>)
        requires
            tasks_sorted(self@.tasks),
        ensures
            match r {
                Some(i) => i < self@.tasks.len() && self@.tasks[i as int].id == id@ && task_pos(self@.tasks, id@) == i
                    && has_task(self@.tasks, id@),
                None => !has_task(self@.tasks, id@),
            },
    {
        let mut i: usize = 0;
        while i < self.tasks.len()
            invariant
                i <= self@.tasks.len(),
                tasks_sorted(self@.tasks),
                forall|k: int| 0 <= k < i ==> (#[trigger] self@.tasks[k]).id != id@,
            decreases self.tasks.len() - i,
        {
            assert(self@.tasks[i as int] == self.tasks@[i as int]@);
            if str_eq(self.tasks[i].id.as_str(), id) {
                proof {
                    lemma_task_pos_unique(self@.tasks, i as int);
                }
                return Some(i);
            }
            i = i + 1;
        }
        None
    }

    /// Where the index entry for `key` is kept.
    fn find_key_index(&self, key: &str) -> (r: Option<usize>)
        requires
            keys_unique(self@.index),
        ensures
            match r {
                Some(i) => i < self@.index.len() && self@.index[i as int].0 == key@ && key_pos(self@.index, key@) == i
                    && has_key(self@.index, key@),
                None => !has_key(self@.index, key@),
            },
    {
        let mut i: usize = 0;
        while i < self.idempotency_index.len()
            invariant
                i <= self@.index.len(),
                keys_unique(self@.index),
                forall|k: int| 0 <= k < i ==> (#[trigger] self@.index[k]).0 != key@,
            decreases self.idempotency_index.len() - i,
        {
            assert(self@.index[i as int] == (self.idempotency_index@[i as int].0@, self.idempotency_index@[i as int].1@));
            if str_eq(self.idempotency_index[i].0.as_str(), key) {
                proof {
                    lemma_key_pos_unique(self@.index, i as int);
                }
                return Some(i);
            }
            i = i + 1;
        }
        None
    }

    fn put_index(&mut self, key: String, id: String)
        requires
            keys_unique(old(self)@.index),
        ensures
            final(self)@ == (QueueView { index: index_put(old(self)@.index, key@, id@), ..old(self)@ }),
            keys_unique(final(self)@.index),
    {
        let ghost old_index = self.idempotency_index@;
        match self.find_key_index(key.as_str()) {
            Some(i) => {
                let ghost kv = key@;
                let ghost iv = id@;
                self.idempotency_index.set(i, (key, id));
                proof {
                    let f = |e: (String, String)| (e.0@, e.1@);
                    assert(self.idempotency_index@.map_values(f) =~= old_index.map_values(f).update(i as int, (kv, iv)));
                    let ix = self@.index;
                    assert forall|a: int, b: int| 0 <= a < b < ix.len() implies ix[a].0 != ix[b].0 by {
                        assert(old_index.map_values(f)[a].0 != old_index.map_values(f)[b].0);
                    }
                }
            },
            None => {
                let ghost kv = key@;
                let ghost iv = id@;
                self.idempotency_index.push((key, id));
                proof {
                    let f = |e: (String, String)| (e.0@, e.1@);
                    assert(self.idempotency_index@.map_values(f) =~= old_index.map_values(f).push((kv, iv)));
                    let ix = self@.index;
                    assert forall|a: int, b: int| 0 <= a < b < ix.len() implies ix[a].0 != ix[b].0 by {
                        if b == ix.len() - 1 {
                            assert(old_index.map_values(f)[a].0 != kv);
                        }
                    }
                }
            },
        }
    }

    fn upsert(&mut self, task: Task)
        requires
            tasks_sorted(old(self)@.tasks),
        ensures
            final(self)@ == (QueueView { tasks: upsert_task(old(self)@.tasks, task@), ..old(self)@ }),
            tasks_sorted(final(self)@.tasks),
    {
        let ghost old_tasks = self.tasks@;
        let ghost ts = self@.tasks;
        let ghost tv = task@;
        let ghost f = |t: Task| t@;
        match self.find_task_index(task.id.as_str()) {
            Some(i) => {
                self.tasks.set(i, task);
                proof {
                    assert(self.tasks@.map_values(f) =~= old_tasks.map_values(f).update(i as int, tv));
                    let nt = self@.tasks;
                    assert forall|a: int, b: int| 0 <= a < b < nt.len() implies id_lt(nt[a].id, nt[b].id) by {
                        assert(ts[a].id == nt[a].id && ts[b].id == nt[b].id);
                    }
                }
            },
            None => {
                let mut p: usize = 0;
                while p < self.tasks.len() && str_less(self.tasks[p].id.as_str(), task.id.as_str())
                    invariant
                        p <= ts.len(),
                        self@.tasks == ts,
                        tv == task@,
                        forall|k: int| 0 <= k < p ==> id_lt(#[trigger] ts[k].id, tv.id),
                    decreases self.tasks.len() - p,
                {
                    assert(ts[p as int] == self.tasks@[p as int]@);
                    p = p + 1;
                }
                proof {
                    assert forall|k: int| p <= k < ts.len() implies id_lt(tv.id, #[trigger] ts[k].id) by {
                        assert(ts[p as int] == self.tasks@[p as int]@);
                        assert(!id_lt(ts[p as int].id, tv.id));
                        lemma_id_order(ts[p as int].id, tv.id, ts[k].id);
                        assert(ts[p as int].id != tv.id);
                        lemma_id_order(tv.id, ts[p as int].id, ts[k].id);
                    }
                    assert forall|k: int| p <= k < ts.len() implies !id_lt(#[trigger] ts[k].id, tv.id) by {
                        lemma_id_order(tv.id, ts[k].id, tv.id);
                    }
                    lemma_count_below(ts, tv.id, p as int);
                }
                self.tasks.insert(p, task);
                proof {
                    assert(self.tasks@.map_values(f) =~= ts.take(p as int) + seq![tv] + ts.skip(p as int));
                    let nt = self@.tasks;
                    assert forall|a: int, b: int| 0 <= a < b < nt.len() implies id_lt(nt[a].id, nt[b].id) by {
                        if b < p {
                        } else if b == p {
                        } else if a < p {
                            lemma_id_order(ts[a].id, tv.id, ts[b - 1].id);
                        } else if a == p {
                        } else {
                        }
                    }
                }
            },
        }
    }

    /// Gives the task at position `i` a new state, update time and attempt count.
    fn restate(&mut self, i: usize, state: TaskState, updated_at_ms: u64, attempts: u32)
        requires
            i < old(self)@.tasks.len(),
        ensures
            final(self)@ == (QueueView {
                tasks: old(self)@.tasks.update(
                    i as int,
                    TaskView { state: state@, updated_at_ms, attempts, ..old(self)@.tasks[i as int] },
                ),
                ..old(self)@
            }),
    {
        let ghost old_tasks = self.tasks@;
        let ghost ts = self@.tasks;
        let ghost sv = state@;
        let t = &mut self.tasks[i];
        t.state = state;
        t.updated_at_ms = updated_at_ms;
        t.attempts = attempts;
        proof {
            let f = |t: Task| t@;
            assert(self.tasks@.map_values(f) =~= old_tasks.map_values(f).update(
                i as int,
                TaskView { state: sv, updated_at_ms, attempts, ..ts[i as int] },
            ));
        }
    }

    /// Applies one logged command, as replay does and as the live queue does
    /// once the command is written.
    pub fn apply(&mut self, command: WalCommand)
        requires
            queue_wf(old(self)@),
        ensures
            final(self)@ == spec_apply(old(self)@, command@),
            queue_wf(final(self)@),
    {
        let ghost q0 = self@;
        match command {
            WalCommand::Enqueued(task) => {
                let ghost tv = task@;
                let n = parse_sequence(task.id.as_str());
                if n > self.sequence {
                    self.sequence = n;
                }
                self.put_index(copy_string(&task.idempotency_key), copy_string(&task.id));
                self.ready.push_back(copy_string(&task.id));
                proof {
                    let f = |s: String| s@;
                    assert(self@.ready =~= q0.ready.push(tv.id));
                }
                self.upsert(task);
                proof {
                    let q = self@;
                    assert forall|i: int| 0 <= i < q.index.len() implies has_task(q.tasks, (#[trigger] q.index[i]).1) by {
                        if has_key(q0.index, tv.idempotency_key) {
                            let p = key_pos(q0.index, tv.idempotency_key);
                            if i != p {
                                assert(has_task(q0.tasks, q0.index[i].1));
                            }
                        } else if i < q0.index.len() {
                            assert(has_task(q0.tasks, q0.index[i].1));
                        }
                        lemma_upsert_has(q0.tasks, tv, q.index[i].1);
                    }
                }
            },
            WalCommand::Leased { task_id, worker_id, lease_expires_at_ms, updated_at_ms, attempts } => {
                if let Some(i) = self.find_task_index(task_id.as_str()) {
                    self.restate(i, TaskState::Leased { worker_id, lease_expires_at_ms }, updated_at_ms, attempts);
                    proof {
                        lemma_same_ids(q0.tasks, self@.tasks);
                    }
                }
            },
            WalCommand::Acked { task_id, updated_at_ms } => {
                if let Some(i) = self.find_task_index(task_id.as_str()) {
                    let attempts = self.tasks[i].attempts;
                    self.restate(i, TaskState::Completed, updated_at_ms, attempts);
                    proof {
                        lemma_same_ids(q0.tasks, self@.tasks);
                    }
                }
            },
            WalCommand::Failed { task_id, reason, requeue, updated_at_ms } => {
                if let Some(i) = self.find_task_index(task_id.as_str()) {
                    let attempts = self.tasks[i].attempts;
                    if requeue {
                        self.restate(i, TaskState::Queued, updated_at_ms, attempts);
                        let ghost idv = task_id@;
                        self.ready.push_back(task_id);
                        proof {
                            assert(self@.ready =~= q0.ready.push(idv));
                        }
                    } else {
                        self.restate(i, TaskState::Failed { reason }, updated_at_ms, attempts);
                    }
                    proof {
                        lemma_same_ids(q0.tasks, self@.tasks);
                    }
                }
            },
        }
    }


    /// The task with the given id, if there is one.
    pub fn get(&self, task_id: &str) -> (r: Option<Task>)
        requires
            queue_wf(self@),
        ensures
            match r {
                Some(t) => find_task(self@.tasks, task_id@) == Some(t@),
                None => find_task(self@.tasks, task_id@) is None,
            },
    {
        match self.find_task_index(task_id) {
            Some(i) => Some(copy_task(&self.tasks[i])),
            None => None,
        }
    }

    /// How many tasks are in each state.
    pub fn stats(&self) -> (st: QueueStats)
        ensures
            st.queued == count_kind(self@.tasks, 0),
            st.leased == count_kind(self@.tasks, 1),
            st.completed == count_kind(self@.tasks, 2),
            st.failed == count_kind(self@.tasks, 3),
    {
        let ghost ts = self@.tasks;
        let mut st = QueueStats { queued: 0, leased: 0, completed: 0, failed: 0 };
        let mut i: usize = 0;
        while i < self.tasks.len()
            invariant
                i <= ts.len(),
                ts == self@.tasks,
                st.queued == count_kind(ts.take(i as int), 0),
                st.leased == count_kind(ts.take(i as int), 1),
                st.completed == count_kind(ts.take(i as int), 2),
                st.failed == count_kind(ts.take(i as int), 3),
            decreases ts.len() - i,
        {
            proof {
                assert(ts.take(i + 1).drop_last() =~= ts.take(i as int));
                assert(ts[i as int] == self.tasks@[i as int]@);
                lemma_count_kind_le(ts.take(i as int), 0);
                lemma_count_kind_le(ts.take(i as int), 1);
                lemma_count_kind_le(ts.take(i as int), 2);
                lemma_count_kind_le(ts.take(i as int), 3);
            }
            match &self.tasks[i].state {
                TaskState::Queued => st.queued = st.queued + 1,
                TaskState::Leased { .. } => st.leased = st.leased + 1,
                TaskState::Completed => st.completed = st.completed + 1,
                TaskState::Failed { .. } => st.failed = st.failed + 1,
            }
            i = i + 1;
        }
        assert(ts.take(ts.len() as int) =~= ts);
        st
    }

    /// Refills the ready queue with the queued tasks, in task-id order.
    pub fn rebuild_ready_queue(&mut self)
        requires
            queue_wf(old(self)@),
        ensures
            final(self)@ == (QueueView { ready: queued_ids(old(self)@.tasks), ..old(self)@ }),
            queue_wf(final(self)@),
    {
        let ghost ts = self@.tasks;
        let mut ready: VecDeque<String> = VecDeque::new();
        let mut i: usize = 0;
        while i < self.tasks.len()
            invariant
                i <= ts.len(),
                ts == self@.tasks,
                ready@.map_values(|s: String| s@) == queued_ids(ts.take(i as int)),
            decreases ts.len() - i,
        {
            proof {
                assert(ts.take(i + 1).drop_last() =~= ts.take(i as int));
                assert(ts[i as int] == self.tasks@[i as int]@);
            }
            let ghost before = ready@;
            if let TaskState::Queued = &self.tasks[i].state {
                ready.push_back(copy_string(&self.tasks[i].id));
                assert(ready@.map_values(|s: String| s@) =~= before.map_values(|s: String| s@).push(ts[i as int].id));
            }
            i = i + 1;
        }
        assert(ts.take(ts.len() as int) =~= ts);
        self.ready = ready;
    }

    /// Puts every task whose lease has run out at `now` back in the queue.
    pub fn requeue_expired_leases_at(&mut self, now: u64)
        requires
            queue_wf(old(self)@),
        ensures
            final(self)@ == spec_requeue(old(self)@, now),
            queue_wf(final(self)@),
    {
        let ghost q0 = self@;
        let ghost ts = q0.tasks;
        let mut i: usize = 0;
        while i < self.tasks.len()
            invariant
                i <= ts.len(),
                self@.tasks.len() == ts.len(),
                self@.index == q0.index,
                self@.sequence == q0.sequence,
                forall|j: int| 0 <= j < i ==> (#[trigger] self@.tasks[j]) == requeue_task(ts[j], now),
                forall|j: int| i <= j < ts.len() ==> (#[trigger] self@.tasks[j]) == ts[j],
                self@.ready == q0.ready + expired_ids(ts.take(i as int), now),
            decreases ts.len() - i,
        {
            proof {
                assert(ts.take(i + 1).drop_last() =~= ts.take(i as int));
                assert(self@.tasks[i as int] == self.tasks@[i as int]@);
            }
            let expired = match &self.tasks[i].state {
                TaskState::Leased { lease_expires_at_ms, .. } => *lease_expires_at_ms <= now,
                _ => false,
            };
            if expired {
                let attempts = self.tasks[i].attempts;
                let id = copy_string(&self.tasks[i].id);
                assert(id@ == ts[i as int].id);
                let ghost before = self@.ready;
                self.restate(i, TaskState::Queued, now, attempts);
                self.ready.push_back(id);
                proof {
                    assert(self@.ready =~= before.push(ts[i as int].id));
                    assert(self@.ready =~= q0.ready + expired_ids(ts.take(i + 1), now));
                }
            } else {
                proof {
                    assert(expired_ids(ts.take(i + 1), now) == expired_ids(ts.take(i as int), now));
                }
            }
            i = i + 1;
        }
        proof {
            assert(ts.take(ts.len() as int) =~= ts);
            assert(self@.tasks =~= ts.map_values(|t: TaskView| requeue_task(t, now)));
            lemma_same_ids(ts, self@.tasks);
        }
    }

    /// Puts every task whose lease has run out back in the queue, reading the
    /// time from the system clock.
    pub fn requeue_expired_leases(&mut self)
        requires
            queue_wf(old(self)@),
        ensures
            exists|now: u64| final(self)@ == spec_requeue(old(self)@, now),
            queue_wf(final(self)@),
    {
        let now = now_ms();
        self.requeue_expired_leases_at(now);
    }


    /// Enqueueing at `now`. A known idempotency key gives back the task filed
    /// under it and changes nothing; a new key takes the next sequence number
    /// and gives a new task, which the caller logs and then applies.
    pub fn enqueue_at(&mut self, idempotency_key: String, payload: String, now: u64) -> (r: Result<EnqueueOutcome, QueueError>)
        requires
            queue_wf(old(self)@),
            index_get(old(self)@.index, idempotency_key@) is None ==> old(self)@.sequence < u64::MAX,
        ensures
            (final(self)@, outcome_result(r)) == spec_enqueue(old(self)@, idempotency_key@, payload@, now),
            queue_wf(final(self)@),
    {
        let ghost q0 = self@;
        match self.find_key_index(idempotency_key.as_str()) {
            Some(k) => {
                proof {
                    assert(self@.index[k as int] == (self.idempotency_index@[k as int].0@, self.idempotency_index@[k as int].1@));
                }
                match self.find_task_index(self.idempotency_index[k].1.as_str()) {
                    Some(i) => Ok(EnqueueOutcome::Existing(copy_task(&self.tasks[i]))),
                    None => Err(QueueError::MissingIndexedTask),
                }
            },
            None => {
                self.sequence = self.sequence + 1;
                let mut id = with_decimal("task-", now);
                let tail = with_decimal("-", self.sequence);
                id.append(tail.as_str());
                let task = Task {
                    id,
                    idempotency_key,
                    payload,
                    attempts: 0,
                    created_at_ms: now,
                    updated_at_ms: now,
                    state: TaskState::Queued,
                };
                assert(task@.id =~= task_id_for(now, self.sequence));
                Ok(EnqueueOutcome::Created(task))
            },
        }
    }

    /// Enqueueing, reading the time from the system clock.
    pub fn enqueue(&mut self, idempotency_key: String, payload: String) -> (r: Result<EnqueueOutcome, QueueError>)
        requires
            queue_wf(old(self)@),
            index_get(old(self)@.index, idempotency_key@) is None ==> old(self)@.sequence < u64::MAX,
        ensures
            exists|now: u64| (final(self)@, outcome_result(r)) == spec_enqueue(old(self)@, idempotency_key@, payload@, now),
            queue_wf(final(self)@),
    {
        let now = now_ms();
        self.enqueue_at(idempotency_key, payload, now)
    }

    /// Takes ids off the ready queue until one names a queued task, and gives
    /// the command that leases it to `worker_id` at `now` for `lease_ms`.
    /// The caller logs the command and then applies it.
    pub fn take_lease(&mut self, worker_id: String, lease_ms: u64, now: u64) -> (r: Option<WalCommand>)
        requires
            queue_wf(old(self)@),
            queued_attempts_bounded(old(self)@.tasks),
        ensures
            (final(self)@, command_option(r)) == spec_take_lease(old(self)@, worker_id@, lease_ms, now),
            queue_wf(final(self)@),
    {
        let ghost q0 = self@;
        let ghost k0 = first_ready(q0.tasks, q0.ready);
        proof {
            lemma_first_ready(q0.tasks, q0.ready);
            assert(q0.ready.skip(0) =~= q0.ready);
        }
        let ghost mut j: int = 0;
        loop
            invariant
                0 <= j <= k0,
                k0 == first_ready(q0.tasks, q0.ready),
                0 <= k0 <= q0.ready.len(),
                k0 < q0.ready.len() ==> is_ready_task(q0.tasks, q0.ready[k0]),
                forall|m: int| 0 <= m < k0 ==> !is_ready_task(q0.tasks, #[trigger] q0.ready[m]),
                self@ == (QueueView { ready: q0.ready.skip(j), ..q0 }),
                queue_wf(q0),
                queued_attempts_bounded(q0.tasks),
                q0 == old(self)@,
            decreases q0.ready.len() - j,
        {
            let ghost before = self.ready@;
            match self.ready.pop_front() {
                None => {
                    proof {
                        assert(before.map_values(|s: String| s@).len() == before.len());
                        assert(q0.ready.skip(j).len() == 0);
                        assert(j == k0);
                        assert(self@.ready =~= Seq::<Seq<char>>::empty());
                        assert(self@ == (QueueView { ready: Seq::empty(), ..q0 }));
                    }
                    return None;
                },
                Some(task_id) => {
                    proof {
                        let bm = before.map_values(|s: String| s@);
                        assert(bm == q0.ready.skip(j));
                        assert(bm.len() == before.len());
                        assert(j < q0.ready.len());
                        assert(bm[0] == before[0]@);
                        assert(task_id@ == q0.ready[j]);
                        assert(self.ready@ == before.subrange(1, before.len() as int));
                        let am = self.ready@.map_values(|s: String| s@);
                        assert forall|m: int| 0 <= m < am.len() implies am[m] == q0.ready.skip(j + 1)[m] by {
                            assert(am[m] == self.ready@[m]@);
                            assert(self.ready@[m] == before[m + 1]);
                            assert(bm[m + 1] == before[m + 1]@);
                            assert(bm[m + 1] == q0.ready[j + 1 + m]);
                        }
                        assert(am =~= q0.ready.skip(j + 1));
                    }
                    match self.find_task_index(task_id.as_str()) {
                        Some(i) => {
                            assert(self@.tasks[i as int] == self.tasks@[i as int]@);
                            if let TaskState::Queued = &self.tasks[i].state {
                                proof {
                                    assert(is_ready_task(q0.tasks, q0.ready[j]));
                                    assert(j == k0);
                                }
                                let attempts = self.tasks[i].attempts + 1;
                                let lease_expires_at_ms = now.saturating_add(lease_ms);
                                proof {
                                    j = j + 1;
                                }
                                return Some(WalCommand::Leased {
                                    task_id,
                                    worker_id,
                                    lease_expires_at_ms,
                                    updated_at_ms: now,
                                    attempts,
                                });
                            }
                        },
                        None => {},
                    }
                    proof {
                        assert(!is_ready_task(q0.tasks, q0.ready[j]));
                        if j == k0 {
                            assert(k0 < q0.ready.len());
                        }
                        j = j + 1;
                    }
                },
            }
        }
    }

    /// Leasing the next queued task: leases that have run out are put back
    /// first, then the next queued task is leased to `worker_id` for
    /// `lease_ms`; the time is read from the system clock each time.
    pub fn lease_next(&mut self, worker_id: String, lease_ms: u64) -> (r: Option<WalCommand>)
        requires
            queue_wf(old(self)@),
            attempts_bounded(old(self)@.tasks),
        ensures
            exists|expired_at: u64, now: u64|
                (final(self)@, command_option(r)) == spec_take_lease(spec_requeue(old(self)@, expired_at), worker_id@, lease_ms, now),
            queue_wf(final(self)@),
    {
        let ghost q0 = self@;
        self.requeue_expired_leases();
        let ghost expired_at = choose|t: u64| self@ == spec_requeue(q0, t);
        proof {
            assert forall|i: int| 0 <= i < self@.tasks.len() && (#[trigger] self@.tasks[i]).state is Queued implies self@.tasks[i].attempts < u32::MAX by {
                assert(self@.tasks[i] == requeue_task(q0.tasks[i], expired_at));
                assert(q0.tasks[i].state is Queued || q0.tasks[i].state is Leased);
            }
        }
        let now = now_ms();
        self.take_lease(worker_id, lease_ms, now)
    }

    /// Checks that the task may be acknowledged at `now` and gives the command
    /// to log; the caller logs it and then applies it.
    pub fn ack_at(&self, task_id: String, now: u64) -> (r: Result<WalCommand, QueueError>)
        requires
            queue_wf(self@),
        ensures
            command_result(r) == spec_ack(self@, task_id@, now),
    {
        match self.find_task_index(task_id.as_str()) {
            None => Err(QueueError::UnknownTask { task_id }),
            Some(i) => {
                assert(self@.tasks[i as int] == self.tasks@[i as int]@);
                if let TaskState::Leased { .. } = &self.tasks[i].state {
                    Ok(WalCommand::Acked { task_id, updated_at_ms: now })
                } else {
                    Err(QueueError::NotLeased { task_id, action: "ack" })
                }
            },
        }
    }

    /// Acknowledging, reading the time from the system clock.
    pub fn ack(&self, task_id: String) -> (r: Result<WalCommand, QueueError>)
        requires
            queue_wf(self@),
        ensures
            exists|now: u64| command_result(r) == spec_ack(self@, task_id@, now),
    {
        let now = now_ms();
        self.ack_at(task_id, now)
    }

    /// Checks that the task may be failed at `now` and gives the command to
    /// log; with `requeue` the task goes back in the queue when it is applied.
    pub fn fail_at(&self, task_id: String, reason: String, requeue: bool, now: u64) -> (r: Result<WalCommand, QueueError>)
        requires
            queue_wf(self@),
        ensures
            command_result(r) == spec_fail(self@, task_id@, reason@, requeue, now),
    {
        match self.find_task_index(task_id.as_str()) {
            None => Err(QueueError::UnknownTask { task_id }),
            Some(i) => {
                assert(self@.tasks[i as int] == self.tasks@[i as int]@);
                if let TaskState::Leased { .. } = &self.tasks[i].state {
                    Ok(WalCommand::Failed { task_id, reason, requeue, updated_at_ms: now })
                } else {
                    Err(QueueError::NotLeased { task_id, action: "fail" })
                }
            },
        }
    }

    /// Failing, reading the time from the system clock.
    pub fn fail(&self, task_id: String, reason: String, requeue: bool) -> (r: Result<WalCommand, QueueError>)
        requires
            queue_wf(self@),
        ensures
            exists|now: u64| command_result(r) == spec_fail(self@, task_id@, reason@, requeue, now),
    {
        let now = now_ms();
        self.fail_at(task_id, reason, requeue, now)
    }


    /// Replays logged commands: applies each in order, then rebuilds the ready
    /// queue from the tasks that are queued.
    pub fn replay(&mut self, commands: Vec<WalCommand>)
        requires
            queue_wf(old(self)@),
        ensures
            final(self)@ == spec_replay(old(self)@, commands@.map_values(|c: WalCommand| c@)),
            queue_wf(final(self)@),
    {
        let ghost q0 = self@;
        let ghost cs = commands@.map_values(|c: WalCommand| c@);
        for c in it: commands.into_iter()
            invariant
                queue_wf(self@),
                it.seq() == commands@,
                cs == commands@.map_values(|c: WalCommand| c@),
                self@ == apply_all(q0, cs.take(it.index() as int)),
        {
            proof {
                assert(cs.take(it.index() + 1).drop_last() =~= cs.take(it.index() as int));
            }
            self.apply(c);
        }
        assert(cs.take(cs.len() as int) =~= cs);
        self.rebuild_ready_queue();
    }

}

/// The text of a queue error.
pub open spec fn queue_error_text(e: QueueErrorView) -> Seq<char> {
    match e {
        QueueErrorView::UnknownTask { task_id } => "unknown task id: "@ + task_id,
        QueueErrorView::NotLeased { task_id, action } => "task must be leased before "@ + action + ": "@ + task_id,
        QueueErrorView::MissingIndexedTask => "idempotency index points to missing task"@,
    }
}

impl QueueError {
    /// The error as text.
    pub fn message(&self) -> (m: String)
        ensures
            m@ == queue_error_text(self@),
    {
        match self {
            QueueError::UnknownTask { task_id } => {
                let mut m = String::from_str("unknown task id: ");
                m.append(task_id.as_str());
                m
            },
            QueueError::NotLeased { task_id, action } => {
                let mut m = String::from_str("task must be leased before ");
                m.append(action);
                m.append(": ");
                m.append(task_id.as_str());
                m
            },
            QueueError::MissingIndexedTask => String::from_str("idempotency index points to missing task"),
        }
    }
}

} // verus!
