//! The parent/subtask status coupling: what a parent is, given its children,
//! and which writes a status change plans, in the order they are applied.
//!
//! **Up**: every time a child's status changes, the parent's status is
//! re-derived from the *combined* state of all its children, and the
//! re-derivation climbs, up to the root, and stops at the first ancestor that
//! does not change.
//!
//! **Down**: when a parent flips to `Completed` or `Cancelled`, the descendants
//! follow, respecting prior decisions: a cancelled descendant of a completed
//! parent stays cancelled, a completed descendant of a cancelled parent stays
//! completed.
//!
//! The order is the contract: the writes are applied one by one. The root comes
//! first, then the descendants in a stack walk (all children of a node, then
//! the LAST child's subtree, then the ones before it), then the ancestors
//! nearest first. An empty `parent_id` is no parent, an empty today is no
//! today, and an empty `scheduled_date` counts as dated.

use vstd::prelude::*;

use crate::text::{contains_text, lemma_texts_push, optional_str, optional_text, same, texts};
use crate::types::TaskStatus;

verus! {

/// What the planners read of a task. Of `scheduled_date` only the presence
/// matters.
#[derive(Debug, Clone, PartialEq, Eq)]
pub struct CascadeTask {
    pub id: String,
    pub status: TaskStatus,
    pub parent_id: Option<String>,
    pub scheduled_date: Option<String>,
}

/// How the planners behave.
#[derive(Debug, Clone, PartialEq, Eq)]
pub struct CascadeOptions {
    /// The parent/subtask coupling; off degrades [`plan_status_cascade`] to the
    /// single root write and [`plan_ancestor_recompute`] to nothing.
    pub cascade_enabled: bool,
    /// Today as `YYYY-MM-DD`, present only when the "started, so pin to today"
    /// rule applies. Independent of the coupling.
    pub today: Option<String>,
}

impl Default for CascadeOptions {
    fn default() -> (r: CascadeOptions)
        ensures
            r.cascade_enabled,
            r.today is None,
    {
        CascadeOptions { cascade_enabled: true, today: None }
    }
}

/// The question [`plan_status_cascade`] answers.
#[derive(Debug, Clone, PartialEq, Eq)]
pub struct CascadeInput {
    pub tasks: Vec<CascadeTask>,
    /// The task whose status changes.
    pub task_id: String,
    /// What it changes to.
    pub status: TaskStatus,
    pub options: CascadeOptions,
}

/// The question [`plan_ancestor_recompute`] answers.
#[derive(Debug, Clone, PartialEq, Eq)]
pub struct RecomputeInput {
    pub tasks: Vec<CascadeTask>,
    /// The parent to re-derive first; the climb continues above it.
    pub parent_id: String,
    pub options: CascadeOptions,
}

/// The question [`auto_date_on_start`] answers.
#[derive(Debug, Clone, PartialEq, Eq)]
pub struct AutoDateInput {
    pub status: TaskStatus,
    pub scheduled_date: Option<String>,
    pub today: Option<String>,
}

/// One write to apply: `task_id` becomes `status`; when `scheduled_date` is
/// set, the task's scheduled day becomes it too.
#[derive(Debug, Clone, PartialEq, Eq)]
pub struct StatusWrite {
    pub task_id: String,
    pub status: TaskStatus,
    pub scheduled_date: Option<String>,
}

/// What a [`StatusWrite`] holds.
pub struct WriteText {
    pub task_id: Seq<char>,
    pub status: TaskStatus,
    pub scheduled_date: Option<Seq<char>>,
}

impl View for StatusWrite {
    type V = WriteText;

    open spec fn view(&self) -> WriteText {
        WriteText {
            task_id: self.task_id@,
            status: self.status,
            scheduled_date: optional_text(self.scheduled_date),
        }
    }
}

/// What a list of writes holds.
pub open spec fn write_texts(v: Seq<StatusWrite>) -> Seq<WriteText> {
    Seq::new(v.len(), |i: int| v[i]@)
}

proof fn lemma_write_push(v: Seq<StatusWrite>, w: StatusWrite)
    ensures
        write_texts(v.push(w)) == write_texts(v).push(w@),
{
    assert(write_texts(v.push(w)) =~= write_texts(v).push(w@));
}

/// A text that says something.
pub open spec fn said(o: Option<Seq<char>>) -> Option<Seq<char>> {
    match o {
        Some(s) => if s.len() > 0 {
            Some(s)
        } else {
            None
        },
        None => None,
    }
}

/// The day to pin: today, when a task without a day goes into progress.
pub open spec fn pinned_day(
    status: TaskStatus,
    scheduled_date: Option<Seq<char>>,
    today: Option<Seq<char>>,
) -> Option<Seq<char>> {
    if status is InProgress && scheduled_date is None {
        said(today)
    } else {
        None
    }
}

/// The "started, so pin to today" rule: the day to pin when `status` moves a
/// task into progress, a today is given, and the task has no scheduled day;
/// `None` leaves the date alone.
pub fn auto_date_on_start(
    status: TaskStatus,
    scheduled_date: Option<&str>,
    today: Option<&str>,
) -> (r: Option<String>)
    ensures
        optional_text(r) == pinned_day(status, optional_str(scheduled_date), optional_str(today)),
{
    let started = match status {
        TaskStatus::InProgress => true,
        _ => false,
    };
    if !started || scheduled_date.is_some() {
        return None;
    }
    match today {
        Some(day) => if day.is_empty() {
            None
        } else {
            Some(day.to_owned())
        },
        None => None,
    }
}

/// A parent's status, derived from its children; nothing where it has none.
///
/// Presence decides, never count: any child in progress, or one completed
/// beside one open, is work in progress; with nothing open left the parent is
/// completed if any child is, else cancelled; else it is open.
pub open spec fn derived_status(children: Seq<TaskStatus>) -> Option<TaskStatus> {
    if children.len() == 0 {
        None
    } else if children.contains(TaskStatus::InProgress) {
        Some(TaskStatus::InProgress)
    } else if children.contains(TaskStatus::Completed) && children.contains(TaskStatus::Open) {
        Some(TaskStatus::InProgress)
    } else if children.contains(TaskStatus::Open) {
        Some(TaskStatus::Open)
    } else if children.contains(TaskStatus::Completed) {
        Some(TaskStatus::Completed)
    } else {
        Some(TaskStatus::Cancelled)
    }
}

fn has_status(children: &[TaskStatus], status: TaskStatus) -> (r: bool)
    ensures
        r == children@.contains(status),
{
    let mut i: usize = 0;
    while i < children.len()
        invariant
            i <= children.len(),
            forall|j: int| 0 <= j < i ==> children@[j] != status,
        decreases children.len() - i,
    {
        if children[i] == status {
            return true;
        }
        i = i + 1;
    }
    false
}

/// A parent's status, derived from its children; `None` when there are none.
pub fn derive_status_from_children(children: &[TaskStatus]) -> (r: Option<TaskStatus>)
    ensures
        r == derived_status(children@),
{
    if children.len() == 0 {
        return None;
    }
    let open = has_status(children, TaskStatus::Open);
    let completed = has_status(children, TaskStatus::Completed);
    if has_status(children, TaskStatus::InProgress) || (completed && open) {
        Some(TaskStatus::InProgress)
    } else if open {
        Some(TaskStatus::Open)
    } else if completed {
        Some(TaskStatus::Completed)
    } else {
        Some(TaskStatus::Cancelled)
    }
}

// ---------------------------------------------------------------------------
// Rows and what is decided about them
// ---------------------------------------------------------------------------

/// The last of the first `n` rows with this id.
pub open spec fn row_of(tasks: Seq<CascadeTask>, id: Seq<char>, n: int) -> Option<int>
    decreases n,
{
    if n <= 0 {
        None
    } else if tasks[n - 1].id@ == id {
        Some(n - 1)
    } else {
        row_of(tasks, id, n - 1)
    }
}

/// The row with this id; of several, the last.
pub open spec fn row_with(tasks: Seq<CascadeTask>, id: Seq<char>) -> Option<int> {
    row_of(tasks, id, tasks.len() as int)
}

/// The parent of a task. An empty one is none.
pub open spec fn parent_of(task: CascadeTask) -> Option<Seq<char>> {
    said(optional_text(task.parent_id))
}

/// The rows among the first `n` whose parent is `id`, in order.
pub open spec fn kids_of(tasks: Seq<CascadeTask>, id: Seq<char>, n: int) -> Seq<int>
    decreases n,
{
    if n <= 0 {
        Seq::empty()
    } else {
        let before = kids_of(tasks, id, n - 1);
        if parent_of(tasks[n - 1]) == Some(id) {
            before.push(n - 1)
        } else {
            before
        }
    }
}

/// The status the writes decide for a task: that of its last write.
pub open spec fn decided(writes: Seq<WriteText>, id: Seq<char>) -> Option<TaskStatus>
    decreases writes.len(),
{
    if writes.len() == 0 {
        None
    } else if writes.last().task_id == id {
        Some(writes.last().status)
    } else {
        decided(writes.drop_last(), id)
    }
}

/// The status of a task once the writes are applied.
pub open spec fn status_after(
    tasks: Seq<CascadeTask>,
    writes: Seq<WriteText>,
    id: Seq<char>,
) -> Option<TaskStatus> {
    match decided(writes, id) {
        Some(status) => Some(status),
        None => match row_with(tasks, id) {
            Some(k) => Some(tasks[k].status),
            None => None,
        },
    }
}

/// A write for a task in the list, with the day it may have to be pinned to.
pub open spec fn write_for(
    task: CascadeTask,
    id: Seq<char>,
    status: TaskStatus,
    today: Option<Seq<char>>,
) -> WriteText {
    WriteText {
        task_id: id,
        status,
        scheduled_date: pinned_day(status, optional_text(task.scheduled_date), today),
    }
}

/// A write without a day.
pub open spec fn bare_write(id: Seq<char>, status: TaskStatus) -> WriteText {
    WriteText { task_id: id, status, scheduled_date: None }
}

/// The statuses of the children of a task once the writes are applied.
pub open spec fn kid_statuses(
    tasks: Seq<CascadeTask>,
    writes: Seq<WriteText>,
    kids: Seq<int>,
) -> Seq<TaskStatus> {
    kids.map_values(
        |k: int|
            match decided(writes, tasks[k].id@) {
                Some(status) => status,
                None => tasks[k].status,
            },
    )
}

/// What a task becomes by its children, the writes applied.
pub open spec fn derived_for(
    tasks: Seq<CascadeTask>,
    writes: Seq<WriteText>,
    id: Seq<char>,
) -> Option<TaskStatus> {
    derived_status(kid_statuses(tasks, writes, kids_of(tasks, id, tasks.len() as int)))
}

// ---------------------------------------------------------------------------
// Down
// ---------------------------------------------------------------------------

/// A walk down: what is still to be expanded, what was seen, and the writes.
pub struct Walk {
    pub stack: Seq<Seq<char>>,
    pub seen: Seq<Seq<char>>,
    pub writes: Seq<WriteText>,
}

/// The end a descendant may have come to that is left alone.
pub open spec fn opposite(target: TaskStatus) -> TaskStatus {
    if target is Completed {
        TaskStatus::Cancelled
    } else {
        TaskStatus::Completed
    }
}

/// The walk after it has met a child: one met before is passed over, one that
/// came to the other end stays there with all below it, and any other one is
/// written where it has to be and expanded later.
pub open spec fn met(
    tasks: Seq<CascadeTask>,
    walk: Walk,
    target: TaskStatus,
    kid: int,
) -> Walk {
    let id = tasks[kid].id@;
    if walk.seen.contains(id) {
        walk
    } else {
        let seen = walk.seen.push(id);
        let status = status_after(tasks, walk.writes, id);
        if status == Some(opposite(target)) {
            Walk { seen, ..walk }
        } else if status == Some(target) {
            Walk { seen, stack: walk.stack.push(id), ..walk }
        } else {
            Walk {
                seen,
                stack: walk.stack.push(id),
                writes: walk.writes.push(bare_write(id, target)),
            }
        }
    }
}

/// The walk after it has met children in order.
pub open spec fn met_all(
    tasks: Seq<CascadeTask>,
    walk: Walk,
    target: TaskStatus,
    kids: Seq<int>,
) -> Walk
    decreases kids.len(),
{
    if kids.len() == 0 {
        walk
    } else {
        met(tasks, met_all(tasks, walk, target, kids.drop_last()), target, kids.last())
    }
}

/// The walk after it has expanded the last of its stack.
pub open spec fn expanded(tasks: Seq<CascadeTask>, walk: Walk, target: TaskStatus) -> Walk {
    let id = walk.stack.last();
    met_all(
        tasks,
        Walk { stack: walk.stack.drop_last(), ..walk },
        target,
        kids_of(tasks, id, tasks.len() as int),
    )
}

/// The walk when nothing is left to expand. Every task is put on the stack at
/// most once, so there are no more expansions than tasks beside the root's.
pub open spec fn walked(
    tasks: Seq<CascadeTask>,
    walk: Walk,
    target: TaskStatus,
    left: nat,
) -> Walk
    decreases left,
{
    if walk.stack.len() == 0 {
        walk
    } else if left == 0 {
        expanded(tasks, walk, target)
    } else {
        walked(tasks, expanded(tasks, walk, target), target, (left - 1) as nat)
    }
}

// ---------------------------------------------------------------------------
// Up
// ---------------------------------------------------------------------------

/// The writes after climbing from a task: each ancestor is re-derived, and the
/// climb stops at the first that does not change, at an orphan, and before it
/// would come by an id again.
pub open spec fn climbed(
    tasks: Seq<CascadeTask>,
    from: int,
    passed: Seq<Seq<char>>,
    writes: Seq<WriteText>,
    today: Option<Seq<char>>,
    left: nat,
) -> Seq<WriteText>
    decreases left,
{
    match parent_of(tasks[from]) {
        None => writes,
        Some(id) => match row_with(tasks, id) {
            None => writes,
            Some(parent) => if left == 0 || passed.contains(id) {
                writes
            } else {
                match derived_for(tasks, writes, id) {
                    None => writes,
                    Some(derived) => if status_after(tasks, writes, id) == Some(derived) {
                        writes
                    } else {
                        climbed(
                            tasks,
                            parent,
                            passed.push(id),
                            writes.push(write_for(tasks[parent], id, derived, today)),
                            today,
                            (left - 1) as nat,
                        )
                    },
                }
            },
        },
    }
}

/// The root's own write, where it changes anything.
pub open spec fn root_writes(
    tasks: Seq<CascadeTask>,
    task_id: Seq<char>,
    status: TaskStatus,
    today: Option<Seq<char>>,
) -> Seq<WriteText> {
    match row_with(tasks, task_id) {
        Some(k) => if tasks[k].status == status {
            Seq::empty()
        } else {
            seq![write_for(tasks[k], task_id, status, today)]
        },
        None => seq![bare_write(task_id, status)],
    }
}

/// The writes of the root and its descendants.
pub open spec fn down_writes(
    tasks: Seq<CascadeTask>,
    task_id: Seq<char>,
    status: TaskStatus,
    today: Option<Seq<char>>,
) -> Seq<WriteText> {
    let writes = root_writes(tasks, task_id, status, today);
    if status.terminal() {
        walked(
            tasks,
            Walk { stack: seq![task_id], seen: seq![task_id], writes },
            status,
            tasks.len(),
        ).writes
    } else {
        writes
    }
}

/// Every write a status change plans.
pub open spec fn cascade(
    tasks: Seq<CascadeTask>,
    task_id: Seq<char>,
    status: TaskStatus,
    enabled: bool,
    today: Option<Seq<char>>,
) -> Seq<WriteText> {
    if !enabled {
        if row_with(tasks, task_id) is None {
            Seq::empty()
        } else {
            root_writes(tasks, task_id, status, today)
        }
    } else {
        let writes = down_writes(tasks, task_id, status, today);
        match row_with(tasks, task_id) {
            Some(root) => climbed(tasks, root, seq![task_id], writes, today, tasks.len()),
            None => writes,
        }
    }
}

/// The writes after re-deriving a task and the ancestors above it. One that
/// does not change does NOT end the climb.
pub open spec fn recomputed(
    tasks: Seq<CascadeTask>,
    id: Seq<char>,
    passed: Seq<Seq<char>>,
    writes: Seq<WriteText>,
    today: Option<Seq<char>>,
    left: nat,
) -> Seq<WriteText>
    decreases left,
{
    if passed.contains(id) {
        writes
    } else {
        match row_with(tasks, id) {
            None => writes,
            Some(at) => match derived_for(tasks, writes, id) {
                None => writes,
                Some(derived) => {
                    let after = if status_after(tasks, writes, id) == Some(derived) {
                        writes
                    } else {
                        writes.push(write_for(tasks[at], id, derived, today))
                    };
                    match parent_of(tasks[at]) {
                        None => after,
                        Some(parent) => if left == 0 {
                            after
                        } else {
                            recomputed(
                                tasks,
                                parent,
                                passed.push(id),
                                after,
                                today,
                                (left - 1) as nat,
                            )
                        },
                    }
                },
            },
        }
    }
}

// ---------------------------------------------------------------------------
// Planning
// ---------------------------------------------------------------------------

fn find_row(tasks: &[CascadeTask], id: &str) -> (r: Option<usize>)
    ensures
        match r {
            Some(k) => row_with(tasks@, id@) == Some(k as int) && k < tasks@.len()
                && tasks@[k as int].id@ == id@,
            None => row_with(tasks@, id@) is None,
        },
{
    let mut n: usize = tasks.len();
    while n > 0
        invariant
            n <= tasks.len(),
            row_with(tasks@, id@) == row_of(tasks@, id@, n as int),
        decreases n,
    {
        if same(tasks[n - 1].id.as_str(), id) {
            return Some(n - 1);
        }
        n = n - 1;
    }
    None
}

fn find_parent(task: &CascadeTask) -> (r: Option<&str>)
    ensures
        optional_str(r) == parent_of(*task),
{
    match &task.parent_id {
        Some(p) => if p.as_str().is_empty() {
            None
        } else {
            Some(p.as_str())
        },
        None => None,
    }
}

/// What positions mean.
spec fn as_ints(v: Seq<usize>) -> Seq<int> {
    v.map_values(|k: usize| k as int)
}

fn find_kids(tasks: &[CascadeTask], id: &str) -> (r: Vec<usize>)
    ensures
        as_ints(r@) == kids_of(tasks@, id@, tasks@.len() as int),
        forall|k: int| 0 <= k < r@.len() ==> (#[trigger] r@[k]) < tasks@.len(),
{
    let mut out: Vec<usize> = Vec::new();
    let mut i: usize = 0;
    assert(as_ints(out@) =~= Seq::empty());
    while i < tasks.len()
        invariant
            i <= tasks.len(),
            as_ints(out@) == kids_of(tasks@, id@, i as int),
            forall|k: int| 0 <= k < out@.len() ==> (#[trigger] out@[k]) < tasks@.len(),
        decreases tasks.len() - i,
    {
        let under = match find_parent(&tasks[i]) {
            Some(p) => same(p, id),
            None => false,
        };
        if under {
            let ghost before = as_ints(out@);
            out.push(i);
            assert(as_ints(out@) =~= before.push(i as int));
        }
        i = i + 1;
    }
    out
}

fn find_decided(writes: &[StatusWrite], id: &str) -> (r: Option<TaskStatus>)
    ensures
        r == decided(write_texts(writes@), id@),
{
    let ghost all = write_texts(writes@);
    let mut n: usize = writes.len();
    assert(all.take(n as int) =~= all);
    while n > 0
        invariant
            n <= writes.len(),
            all == write_texts(writes@),
            decided(all, id@) == decided(all.take(n as int), id@),
        decreases n,
    {
        assert(all.take(n as int).last() == writes@[n - 1]@);
        assert(all.take(n as int).drop_last() =~= all.take(n - 1));
        if same(writes[n - 1].task_id.as_str(), id) {
            return Some(writes[n - 1].status);
        }
        n = n - 1;
    }
    None
}

fn find_status(tasks: &[CascadeTask], writes: &[StatusWrite], id: &str) -> (r: Option<TaskStatus>)
    ensures
        r == status_after(tasks@, write_texts(writes@), id@),
{
    match find_decided(writes, id) {
        Some(status) => Some(status),
        None => match find_row(tasks, id) {
            Some(k) => Some(tasks[k].status),
            None => None,
        },
    }
}

fn derive_for(tasks: &[CascadeTask], writes: &[StatusWrite], id: &str) -> (r: Option<TaskStatus>)
    ensures
        r == derived_for(tasks@, write_texts(writes@), id@),
{
    let kids = find_kids(tasks, id);
    let ghost places = kids_of(tasks@, id@, tasks@.len() as int);
    let ghost wanted = kid_statuses(tasks@, write_texts(writes@), places);
    let mut statuses: Vec<TaskStatus> = Vec::new();
    let mut i: usize = 0;
    assert(as_ints(kids@).len() == kids@.len());
    while i < kids.len()
        invariant
            i <= kids.len(),
            as_ints(kids@) == places,
            places.len() == kids@.len(),
            wanted == kid_statuses(tasks@, write_texts(writes@), places),
            statuses@ == wanted.take(i as int),
            forall|k: int| 0 <= k < kids@.len() ==> (#[trigger] kids@[k]) < tasks@.len(),
        decreases kids.len() - i,
    {
        let at: usize = kids[i];
        assert(as_ints(kids@)[i as int] == at as int);
        let status = match find_decided(writes, tasks[at].id.as_str()) {
            Some(status) => status,
            None => tasks[at].status,
        };
        statuses.push(status);
        i = i + 1;
        assert(statuses@ =~= wanted.take(i as int));
    }
    assert(statuses@ =~= wanted);
    derive_status_from_children(statuses.as_slice())
}

fn text_of(o: &Option<String>) -> (r: Option<&str>)
    ensures
        optional_str(r) == optional_text(*o),
{
    match o {
        Some(s) => Some(s.as_str()),
        None => None,
    }
}

fn write(task: &CascadeTask, id: &str, status: TaskStatus, options: &CascadeOptions) -> (r:
    StatusWrite)
    ensures
        r@ == write_for(*task, id@, status, optional_text(options.today)),
{
    StatusWrite {
        task_id: id.to_owned(),
        status,
        scheduled_date: auto_date_on_start(
            status,
            text_of(&task.scheduled_date),
            text_of(&options.today),
        ),
    }
}

fn plain_write(id: &str, status: TaskStatus) -> (r: StatusWrite)
    ensures
        r@ == bare_write(id@, status),
{
    StatusWrite { task_id: id.to_owned(), status, scheduled_date: None }
}

fn plan_root(
    tasks: &[CascadeTask],
    task_id: &str,
    status: TaskStatus,
    options: &CascadeOptions,
) -> (r: Vec<StatusWrite>)
    ensures
        write_texts(r@) == root_writes(tasks@, task_id@, status, optional_text(options.today)),
{
    let mut writes: Vec<StatusWrite> = Vec::new();
    match find_row(tasks, task_id) {
        Some(k) => {
            if tasks[k].status != status {
                writes.push(write(&tasks[k], task_id, status, options));
            }
        },
        None => {
            writes.push(plain_write(task_id, status));
        },
    }
    assert(write_texts(writes@) =~= root_writes(
        tasks@,
        task_id@,
        status,
        optional_text(options.today),
    ));
    writes
}

struct Down {
    stack: Vec<String>,
    seen: Vec<String>,
    writes: Vec<StatusWrite>,
}

impl View for Down {
    type V = Walk;

    closed spec fn view(&self) -> Walk {
        Walk {
            stack: texts(self.stack@),
            seen: texts(self.seen@),
            writes: write_texts(self.writes@),
        }
    }
}

fn meet(tasks: &[CascadeTask], walk: Down, target: TaskStatus, kid: usize) -> (r: Down)
    requires
        kid < tasks@.len(),
    ensures
        r@ == met(tasks@, walk@, target, kid as int),
{
    let id = tasks[kid].id.as_str();
    if contains_text(walk.seen.as_slice(), id) {
        return walk;
    }
    let mut walk = walk;
    let name = tasks[kid].id.clone();
    let again = tasks[kid].id.clone();
    proof {
        lemma_texts_push(walk.seen@, name);
        lemma_texts_push(walk.stack@, again);
    }
    walk.seen.push(name);
    let other = match target {
        TaskStatus::Completed => TaskStatus::Cancelled,
        _ => TaskStatus::Completed,
    };
    let status = find_status(tasks, walk.writes.as_slice(), id);
    let left_alone = match status {
        Some(s) => s == other,
        None => false,
    };
    if left_alone {
        return walk;
    }
    let there = match status {
        Some(s) => s == target,
        None => false,
    };
    if !there {
        let w = plain_write(id, target);
        proof {
            lemma_write_push(walk.writes@, w);
        }
        walk.writes.push(w);
    }
    walk.stack.push(again);
    walk
}

fn expand(tasks: &[CascadeTask], walk: Down, target: TaskStatus) -> (r: Down)
    requires
        walk@.stack.len() > 0,
    ensures
        r@ == expanded(tasks@, walk@, target),
{
    let ghost before = walk@;
    let mut walk = walk;
    let top: usize = walk.stack.len() - 1;
    let id = walk.stack[top].clone();
    assert(before.stack.last() == id@);
    walk.stack.truncate(top);
    assert(texts(walk.stack@) =~= before.stack.drop_last());
    let kids = find_kids(tasks, id.as_str());
    let ghost places = kids_of(tasks@, id@, tasks@.len() as int);
    let ghost start = walk@;
    assert(start == Walk { stack: before.stack.drop_last(), ..before });
    assert(as_ints(kids@).len() == kids@.len());
    let mut i: usize = 0;
    while i < kids.len()
        invariant
            i <= kids.len(),
            as_ints(kids@) == places,
            places.len() == kids@.len(),
            walk@ == met_all(tasks@, start, target, places.take(i as int)),
            forall|k: int| 0 <= k < kids@.len() ==> (#[trigger] kids@[k]) < tasks@.len(),
        decreases kids.len() - i,
    {
        assert(places.take(i as int + 1).drop_last() =~= places.take(i as int));
        let at: usize = kids[i];
        assert(as_ints(kids@)[i as int] == at as int);
        walk = meet(tasks, walk, target, at);
        i = i + 1;
    }
    assert(places.take(i as int) =~= places);
    walk
}

fn walk_down(tasks: &[CascadeTask], from: Down, target: TaskStatus) -> (r: Down)
    ensures
        r@ == walked(tasks@, from@, target, tasks@.len()),
{
    let ghost begin = from@;
    let mut walk = from;
    let mut left: usize = tasks.len();
    loop
        invariant
            begin == from@,
            walked(tasks@, begin, target, tasks@.len()) == walked(
                tasks@,
                walk@,
                target,
                left as nat,
            ),
        decreases left,
    {
        if walk.stack.len() == 0 {
            return walk;
        }
        walk = expand(tasks, walk, target);
        if left == 0 {
            return walk;
        }
        left = left - 1;
    }
}

fn plan_down(
    tasks: &[CascadeTask],
    task_id: &str,
    status: TaskStatus,
    options: &CascadeOptions,
) -> (r: Vec<StatusWrite>)
    ensures
        write_texts(r@) == down_writes(tasks@, task_id@, status, optional_text(options.today)),
{
    let writes = plan_root(tasks, task_id, status, options);
    if !status.is_terminal() {
        return writes;
    }
    let mut stack: Vec<String> = Vec::new();
    stack.push(task_id.to_owned());
    let mut seen: Vec<String> = Vec::new();
    seen.push(task_id.to_owned());
    assert(texts(stack@) =~= seq![task_id@]);
    assert(texts(seen@) =~= seq![task_id@]);
    let walk = Down { stack, seen, writes };
    walk_down(tasks, walk, status).writes
}

fn climb(
    tasks: &[CascadeTask],
    task_id: &str,
    root: usize,
    planned: Vec<StatusWrite>,
    options: &CascadeOptions,
) -> (r: Vec<StatusWrite>)
    requires
        root < tasks@.len(),
    ensures
        write_texts(r@) == climbed(
            tasks@,
            root as int,
            seq![task_id@],
            write_texts(planned@),
            optional_text(options.today),
            tasks@.len(),
        ),
{
    let ghost start = write_texts(planned@);
    let ghost today = optional_text(options.today);
    let mut writes = planned;
    let mut passed: Vec<String> = Vec::new();
    passed.push(task_id.to_owned());
    assert(texts(passed@) =~= seq![task_id@]);
    let mut from: usize = root;
    let mut left: usize = tasks.len();
    loop
        invariant
            from < tasks@.len(),
            start == write_texts(planned@),
            today == optional_text(options.today),
            climbed(tasks@, root as int, seq![task_id@], start, today, tasks@.len()) == climbed(
                tasks@,
                from as int,
                texts(passed@),
                write_texts(writes@),
                today,
                left as nat,
            ),
        decreases left,
    {
        let id = match find_parent(&tasks[from]) {
            Some(id) => id,
            None => {
                return writes;
            },
        };
        let parent = match find_row(tasks, id) {
            Some(k) => k,
            None => {
                return writes;
            },
        };
        if left == 0 || contains_text(passed.as_slice(), id) {
            return writes;
        }
        let derived = match derive_for(tasks, writes.as_slice(), id) {
            Some(status) => status,
            None => {
                return writes;
            },
        };
        if let Some(now) = find_status(tasks, writes.as_slice(), id) {
            if now == derived {
                return writes;
            }
        }
        let w = write(&tasks[parent], id, derived, options);
        let name = id.to_owned();
        proof {
            lemma_write_push(writes@, w);
            lemma_texts_push(passed@, name);
        }
        writes.push(w);
        passed.push(name);
        from = parent;
        left = left - 1;
    }
}

/// Every write a single status change plans: `task_id` becomes `status`;
/// descendants follow, ancestors are re-derived. Writes that would change
/// nothing are left out. With the coupling off, only the root write remains;
/// the pin-to-today rule still applies to it. A root that is not in the list
/// still gets its write while the coupling is on, without a date, and its
/// children in the list still follow.
pub fn plan_status_cascade(
    tasks: &[CascadeTask],
    task_id: &str,
    status: TaskStatus,
    options: &CascadeOptions,
) -> (r: Vec<StatusWrite>)
    ensures
        write_texts(r@) == cascade(
            tasks@,
            task_id@,
            status,
            options.cascade_enabled,
            optional_text(options.today),
        ),
{
    let root = find_row(tasks, task_id);
    if !options.cascade_enabled {
        if root.is_none() {
            let none: Vec<StatusWrite> = Vec::new();
            assert(write_texts(none@) =~= Seq::empty());
            return none;
        }
        return plan_root(tasks, task_id, status, options);
    }
    let writes = plan_down(tasks, task_id, status, options);
    match root {
        Some(k) => climb(tasks, task_id, k, writes, options),
        None => writes,
    }
}

/// The ancestors re-derived after a change that is no status change, a subtask
/// created or deleted, starting at `parent_id` and climbing to the root. An
/// ancestor that does not change does NOT end the climb. Nothing with the
/// coupling off, nothing for a parent that is not in the list or has no
/// children.
pub fn plan_ancestor_recompute(
    tasks: &[CascadeTask],
    parent_id: &str,
    options: &CascadeOptions,
) -> (r: Vec<StatusWrite>)
    ensures
        write_texts(r@) == if !options.cascade_enabled || parent_id@.len() == 0 {
            Seq::empty()
        } else {
            recomputed(
                tasks@,
                parent_id@,
                Seq::empty(),
                Seq::empty(),
                optional_text(options.today),
                tasks@.len(),
            )
        },
{
    let ghost today = optional_text(options.today);
    let mut writes: Vec<StatusWrite> = Vec::new();
    assert(write_texts(writes@) =~= Seq::empty());
    if !options.cascade_enabled || parent_id.is_empty() {
        return writes;
    }
    let mut passed: Vec<String> = Vec::new();
    assert(texts(passed@) =~= Seq::empty());
    let mut id: &str = parent_id;
    let mut left: usize = tasks.len();
    loop
        invariant
            today == optional_text(options.today),
            options.cascade_enabled,
            parent_id@.len() > 0,
            recomputed(
                tasks@,
                parent_id@,
                Seq::empty(),
                Seq::empty(),
                today,
                tasks@.len(),
            ) == recomputed(
                tasks@,
                id@,
                texts(passed@),
                write_texts(writes@),
                today,
                left as nat,
            ),
        decreases left,
    {
        if contains_text(passed.as_slice(), id) {
            return writes;
        }
        let at = match find_row(tasks, id) {
            Some(k) => k,
            None => {
                return writes;
            },
        };
        let derived = match derive_for(tasks, writes.as_slice(), id) {
            Some(status) => status,
            None => {
                return writes;
            },
        };
        let unchanged = match find_status(tasks, writes.as_slice(), id) {
            Some(now) => now == derived,
            None => false,
        };
        if !unchanged {
            let w = write(&tasks[at], id, derived, options);
            proof {
                lemma_write_push(writes@, w);
            }
            writes.push(w);
        }
        let parent = match find_parent(&tasks[at]) {
            Some(p) => p,
            None => {
                return writes;
            },
        };
        if left == 0 {
            return writes;
        }
        let name = id.to_owned();
        proof {
            lemma_texts_push(passed@, name);
        }
        passed.push(name);
        id = parent;
        left = left - 1;
    }
}

// ---------------------------------------------------------------------------
// Laws
// ---------------------------------------------------------------------------

/// Each write changes what held before it.
pub open spec fn every_write_counts(tasks: Seq<CascadeTask>, writes: Seq<WriteText>) -> bool {
    forall|i: int|
        0 <= i < writes.len() ==> status_after(
            tasks,
            #[trigger] writes.take(i),
            writes[i].task_id,
        ) != Some(writes[i].status)
}

proof fn lemma_counts_push(tasks: Seq<CascadeTask>, writes: Seq<WriteText>, w: WriteText)
    requires
        every_write_counts(tasks, writes),
        status_after(tasks, writes, w.task_id) != Some(w.status),
    ensures
        every_write_counts(tasks, writes.push(w)),
{
    let all = writes.push(w);
    assert forall|i: int| 0 <= i < all.len() implies status_after(
        tasks,
        #[trigger] all.take(i),
        all[i].task_id,
    ) != Some(all[i].status) by {
        if i < writes.len() {
            assert(all.take(i) =~= writes.take(i));
        } else {
            assert(all.take(i) =~= writes);
        }
    }
}

proof fn lemma_counts_met(
    tasks: Seq<CascadeTask>,
    walk: Walk,
    target: TaskStatus,
    kids: Seq<int>,
)
    requires
        every_write_counts(tasks, walk.writes),
    ensures
        every_write_counts(tasks, met_all(tasks, walk, target, kids).writes),
    decreases kids.len(),
{
    if kids.len() > 0 {
        lemma_counts_met(tasks, walk, target, kids.drop_last());
        let before = met_all(tasks, walk, target, kids.drop_last());
        let id = tasks[kids.last()].id@;
        if status_after(tasks, before.writes, id) != Some(target) {
            lemma_counts_push(tasks, before.writes, bare_write(id, target));
        }
    }
}

proof fn lemma_counts_walked(
    tasks: Seq<CascadeTask>,
    walk: Walk,
    target: TaskStatus,
    left: nat,
)
    requires
        every_write_counts(tasks, walk.writes),
    ensures
        every_write_counts(tasks, walked(tasks, walk, target, left).writes),
    decreases left,
{
    if walk.stack.len() > 0 {
        let popped = Walk { stack: walk.stack.drop_last(), ..walk };
        lemma_counts_met(
            tasks,
            popped,
            target,
            kids_of(tasks, walk.stack.last(), tasks.len() as int),
        );
        if left > 0 {
            lemma_counts_walked(tasks, expanded(tasks, walk, target), target, (left - 1) as nat);
        }
    }
}

proof fn lemma_counts_climbed(
    tasks: Seq<CascadeTask>,
    from: int,
    passed: Seq<Seq<char>>,
    writes: Seq<WriteText>,
    today: Option<Seq<char>>,
    left: nat,
)
    requires
        every_write_counts(tasks, writes),
    ensures
        every_write_counts(tasks, climbed(tasks, from, passed, writes, today, left)),
    decreases left,
{
    if let Some(id) = parent_of(tasks[from]) {
        if let Some(parent) = row_with(tasks, id) {
            if let Some(derived) = derived_for(tasks, writes, id) {
                if left > 0 && !passed.contains(id) && status_after(tasks, writes, id) != Some(
                    derived,
                ) {
                    let w = write_for(tasks[parent], id, derived, today);
                    lemma_counts_push(tasks, writes, w);
                    lemma_counts_climbed(
                        tasks,
                        parent,
                        passed.push(id),
                        writes.push(w),
                        today,
                        (left - 1) as nat,
                    );
                }
            }
        }
    }
}

proof fn lemma_counts_recomputed(
    tasks: Seq<CascadeTask>,
    id: Seq<char>,
    passed: Seq<Seq<char>>,
    writes: Seq<WriteText>,
    today: Option<Seq<char>>,
    left: nat,
)
    requires
        every_write_counts(tasks, writes),
    ensures
        every_write_counts(tasks, recomputed(tasks, id, passed, writes, today, left)),
    decreases left,
{
    if let Some(at) = row_with(tasks, id) {
        if let Some(derived) = derived_for(tasks, writes, id) {
            let w = write_for(tasks[at], id, derived, today);
            let after = if status_after(tasks, writes, id) == Some(derived) {
                writes
            } else {
                writes.push(w)
            };
            if status_after(tasks, writes, id) != Some(derived) {
                lemma_counts_push(tasks, writes, w);
            }
            if let Some(parent) = parent_of(tasks[at]) {
                if left > 0 {
                    lemma_counts_recomputed(
                        tasks,
                        parent,
                        passed.push(id),
                        after,
                        today,
                        (left - 1) as nat,
                    );
                }
            }
        }
    }
}

/// No planned write repeats what already holds: at the moment it is applied,
/// after all the writes before it, it changes the status of its task.
pub proof fn every_planned_write_changes_something(
    tasks: Seq<CascadeTask>,
    id: Seq<char>,
    status: TaskStatus,
    enabled: bool,
    today: Option<Seq<char>>,
)
    ensures
        every_write_counts(tasks, cascade(tasks, id, status, enabled, today)),
        every_write_counts(
            tasks,
            recomputed(tasks, id, Seq::empty(), Seq::empty(), today, tasks.len()),
        ),
{
    let root = root_writes(tasks, id, status, today);
    lemma_row_of(tasks, id, tasks.len() as int);
    assert(every_write_counts(tasks, Seq::empty()));
    if root.len() > 0 {
        lemma_counts_push(tasks, Seq::empty(), root[0]);
        assert(root =~= Seq::empty().push(root[0]));
    } else {
        assert(root =~= Seq::empty());
    }
    lemma_counts_walked(
        tasks,
        Walk { stack: seq![id], seen: seq![id], writes: root },
        status,
        tasks.len(),
    );
    if let Some(k) = row_with(tasks, id) {
        lemma_counts_climbed(
            tasks,
            k,
            seq![id],
            down_writes(tasks, id, status, today),
            today,
            tasks.len(),
        );
    }
    lemma_counts_recomputed(tasks, id, Seq::empty(), Seq::empty(), today, tasks.len());
}

proof fn lemma_row_of(tasks: Seq<CascadeTask>, id: Seq<char>, n: int)
    requires
        n <= tasks.len(),
    ensures
        match row_of(tasks, id, n) {
            Some(k) => 0 <= k < n && tasks[k].id@ == id,
            None => forall|k: int| 0 <= k < n ==> (#[trigger] tasks[k]).id@ != id,
        },
    decreases n,
{
    if n > 0 && tasks[n - 1].id@ != id {
        lemma_row_of(tasks, id, n - 1);
    }
}

proof fn lemma_kids(tasks: Seq<CascadeTask>, id: Seq<char>, n: int)
    requires
        n <= tasks.len(),
    ensures
        forall|i: int|
            0 <= i < kids_of(tasks, id, n).len() ==> 0 <= #[trigger] kids_of(tasks, id, n)[i] < n,
    decreases n,
{
    if n > 0 {
        lemma_kids(tasks, id, n - 1);
        let before = kids_of(tasks, id, n - 1);
        assert forall|i: int| 0 <= i < kids_of(tasks, id, n).len() implies 0
            <= #[trigger] kids_of(tasks, id, n)[i] < n by {
            if i < before.len() {
                assert(0 <= before[i] < n - 1);
                assert(kids_of(tasks, id, n)[i] == before[i]);
            }
        }
    }
}

/// What holds of a walk at every step: the root was seen first, nothing is
/// seen twice, and beyond what was written before, only unsettled tasks that
/// were seen are written.
spec fn walking(
    tasks: Seq<CascadeTask>,
    root: Seq<char>,
    first: Seq<WriteText>,
    target: TaskStatus,
    walk: Walk,
) -> bool {
    &&& walk.seen.len() > 0
    &&& walk.seen[0] == root
    &&& walk.seen.no_duplicates()
    &&& forall|i: int|
        0 < i < walk.seen.len() ==> row_with(tasks, #[trigger] walk.seen[i]) is Some
    &&& first.len() <= walk.writes.len()
    &&& first == walk.writes.take(first.len() as int)
    &&& forall|i: int|
        first.len() <= i < walk.writes.len() ==> {
            let w = #[trigger] walk.writes[i];
            &&& walk.seen.contains(w.task_id)
            &&& w == bare_write(w.task_id, target)
            &&& unsettled(tasks, w.task_id, target)
        }
}

/// A task that came to neither end yet, as far as a change to `target` goes.
pub open spec fn unsettled(tasks: Seq<CascadeTask>, id: Seq<char>, target: TaskStatus) -> bool {
    match row_with(tasks, id) {
        Some(k) => tasks[k].status != target && tasks[k].status != opposite(target),
        None => false,
    }
}

proof fn lemma_decided_none(writes: Seq<WriteText>, id: Seq<char>)
    requires
        forall|i: int| 0 <= i < writes.len() ==> (#[trigger] writes[i]).task_id != id,
    ensures
        decided(writes, id) is None,
    decreases writes.len(),
{
    if writes.len() > 0 {
        assert(writes.last() == writes[writes.len() - 1]);
        assert forall|i: int| 0 <= i < writes.drop_last().len() implies (
        #[trigger] writes.drop_last()[i]).task_id != id by {
            assert(writes.drop_last()[i] == writes[i]);
        }
        lemma_decided_none(writes.drop_last(), id);
    }
}

proof fn lemma_walking_met(
    tasks: Seq<CascadeTask>,
    root: Seq<char>,
    first: Seq<WriteText>,
    target: TaskStatus,
    walk: Walk,
    kid: int,
)
    requires
        walking(tasks, root, first, target, walk),
        forall|i: int| 0 <= i < first.len() ==> (#[trigger] first[i]).task_id == root,
        0 <= kid < tasks.len(),
    ensures
        walking(tasks, root, first, target, met(tasks, walk, target, kid)),
        met(tasks, walk, target, kid).stack.len() - met(tasks, walk, target, kid).seen.len()
            <= walk.stack.len() - walk.seen.len(),
{
    let id = tasks[kid].id@;
    lemma_row_of(tasks, id, tasks.len() as int);
    if !walk.seen.contains(id) {
        let after = met(tasks, walk, target, kid);
        assert forall|i: int| 0 <= i < walk.writes.len() implies (
        #[trigger] walk.writes[i]).task_id != id by {
            if i < first.len() {
                assert(walk.writes[i] == first[i]);
                assert(walk.seen.contains(walk.seen[0]));
            }
        }
        lemma_decided_none(walk.writes, id);
        assert(after.seen =~= walk.seen.push(id));
        assert(after.seen.no_duplicates());
        assert(after.writes.take(first.len() as int) =~= first);
        assert forall|i: int| 0 < i < after.seen.len() implies row_with(
            tasks,
            #[trigger] after.seen[i],
        ) is Some by {
            if i < walk.seen.len() {
                assert(after.seen[i] == walk.seen[i]);
            }
        }
        assert forall|i: int| first.len() <= i < after.writes.len() implies ({
            let w = #[trigger] after.writes[i];
            &&& after.seen.contains(w.task_id)
            &&& w == bare_write(w.task_id, target)
            &&& unsettled(tasks, w.task_id, target)
        }) by {
            if i < walk.writes.len() {
                assert(after.writes[i] == walk.writes[i]);
                let at = choose|j: int|
                    0 <= j < walk.seen.len() && walk.seen[j] == walk.writes[i].task_id;
                assert(after.seen[at] == walk.seen[at]);
            } else {
                assert(after.seen.last() == id);
                assert(after.seen[after.seen.len() - 1] == id);
            }
        }
    }
}

proof fn lemma_walking_met_all(
    tasks: Seq<CascadeTask>,
    root: Seq<char>,
    first: Seq<WriteText>,
    target: TaskStatus,
    walk: Walk,
    kids: Seq<int>,
)
    requires
        walking(tasks, root, first, target, walk),
        forall|i: int| 0 <= i < first.len() ==> (#[trigger] first[i]).task_id == root,
        forall|i: int| 0 <= i < kids.len() ==> 0 <= #[trigger] kids[i] < tasks.len(),
    ensures
        walking(tasks, root, first, target, met_all(tasks, walk, target, kids)),
        met_all(tasks, walk, target, kids).stack.len() - met_all(
            tasks,
            walk,
            target,
            kids,
        ).seen.len() <= walk.stack.len() - walk.seen.len(),
    decreases kids.len(),
{
    if kids.len() > 0 {
        let front = kids.drop_last();
        assert forall|i: int| 0 <= i < front.len() implies 0 <= #[trigger] front[i]
            < tasks.len() by {
            assert(front[i] == kids[i]);
        }
        lemma_walking_met_all(tasks, root, first, target, walk, front);
        assert(kids.last() == kids[kids.len() - 1]);
        lemma_walking_met(
            tasks,
            root,
            first,
            target,
            met_all(tasks, walk, target, front),
            kids.last(),
        );
    }
}

/// Whatever was seen, there are no more of it than tasks, beside the root.
proof fn lemma_seen_bound(
    tasks: Seq<CascadeTask>,
    root: Seq<char>,
    first: Seq<WriteText>,
    target: TaskStatus,
    walk: Walk,
)
    requires
        walking(tasks, root, first, target, walk),
    ensures
        walk.seen.len() <= tasks.len() + 1,
{
    let rest = walk.seen.skip(1);
    let ids = Seq::new(tasks.len(), |i: int| tasks[i].id@);
    assert(rest.no_duplicates());
    assert forall|x: Seq<char>| rest.to_set().contains(x) implies ids.to_set().contains(x) by {
        let i = choose|i: int| 0 <= i < rest.len() && rest[i] == x;
        assert(rest[i] == walk.seen[i + 1]);
        lemma_row_of(tasks, x, tasks.len() as int);
        assert(ids[row_with(tasks, x).unwrap()] == x);
    }
    rest.unique_seq_to_set();
    ids.lemma_cardinality_of_set();
    vstd::seq_lib::seq_to_set_is_finite(ids);
    vstd::set_lib::lemma_len_subset(rest.to_set(), ids.to_set());
}

proof fn lemma_walked(
    tasks: Seq<CascadeTask>,
    root: Seq<char>,
    first: Seq<WriteText>,
    target: TaskStatus,
    walk: Walk,
    left: nat,
)
    requires
        walking(tasks, root, first, target, walk),
        forall|i: int| 0 <= i < first.len() ==> (#[trigger] first[i]).task_id == root,
        walk.stack.len() - walk.seen.len() + tasks.len() <= left,
    ensures
        walking(tasks, root, first, target, walked(tasks, walk, target, left)),
        walked(tasks, walk, target, left).stack.len() == 0,
    decreases left,
{
    if walk.stack.len() > 0 {
        let popped = Walk { stack: walk.stack.drop_last(), ..walk };
        let kids = kids_of(tasks, walk.stack.last(), tasks.len() as int);
        lemma_kids(tasks, walk.stack.last(), tasks.len() as int);
        lemma_walking_met_all(tasks, root, first, target, popped, kids);
        let next = expanded(tasks, walk, target);
        lemma_seen_bound(tasks, root, first, target, next);
        if left > 0 {
            lemma_walked(tasks, root, first, target, next, (left - 1) as nat);
        }
    }
}

/// The way down leaves no node unexpanded and respects prior decisions: after
/// the root's own write, only tasks that came to neither end are written, each
/// of them to the target and without a day. A descendant that is already
/// completed or cancelled is never written.
pub proof fn settled_descendants_are_left_alone(
    tasks: Seq<CascadeTask>,
    id: Seq<char>,
    status: TaskStatus,
    today: Option<Seq<char>>,
)
    requires
        status.terminal(),
    ensures
        walked(
            tasks,
            Walk {
                stack: seq![id],
                seen: seq![id],
                writes: root_writes(tasks, id, status, today),
            },
            status,
            tasks.len(),
        ).stack.len() == 0,
        ({
            let first = root_writes(tasks, id, status, today);
            let writes = down_writes(tasks, id, status, today);
            &&& first.len() <= writes.len()
            &&& writes.take(first.len() as int) == first
            &&& forall|i: int|
                first.len() <= i < writes.len() ==> {
                    let w = #[trigger] writes[i];
                    &&& unsettled(tasks, w.task_id, status)
                    &&& w == bare_write(w.task_id, status)
                }
        }),
{
    let first = root_writes(tasks, id, status, today);
    let walk = Walk { stack: seq![id], seen: seq![id], writes: first };
    assert(first.take(first.len() as int) =~= first);
    lemma_walked(tasks, id, first, status, walk, tasks.len());
}

/// With the coupling off, no other task than the root is written.
pub proof fn without_the_coupling_only_the_root_is_written(
    tasks: Seq<CascadeTask>,
    id: Seq<char>,
    status: TaskStatus,
    today: Option<Seq<char>>,
)
    ensures
        cascade(tasks, id, status, false, today).len() <= 1,
        forall|i: int|
            0 <= i < cascade(tasks, id, status, false, today).len() ==> (#[trigger] cascade(
                tasks,
                id,
                status,
                false,
                today,
            )[i]).task_id == id,
{
}

/// A parent of settled children is settled, and one with work under way or
/// left is not.
pub proof fn a_parent_is_settled_with_its_children(children: Seq<TaskStatus>)
    requires
        children.len() > 0,
    ensures
        derived_status(children).unwrap().terminal() <==> forall|i: int|
            0 <= i < children.len() ==> (#[trigger] children[i]).terminal(),
{
    assert(children[0] == children.first());
    if children.contains(TaskStatus::InProgress) {
        let i = choose|i: int| 0 <= i < children.len() && children[i] == TaskStatus::InProgress;
        assert(!children[i].terminal());
    }
    if children.contains(TaskStatus::Open) {
        let i = choose|i: int| 0 <= i < children.len() && children[i] == TaskStatus::Open;
        assert(!children[i].terminal());
    }
    assert forall|i: int|
        0 <= i < children.len() && !children.contains(TaskStatus::InProgress)
            && !children.contains(TaskStatus::Open) implies (#[trigger] children[i]).terminal() by {
        assert(children.contains(children[i]));
    }
}

// ---------------------------------------------------------------------------
// What is looked up
// ---------------------------------------------------------------------------

/// An id means the last row that has it, and its status is that of the last
/// write to it, or its row's where none is written.
pub proof fn an_id_means_its_last_row(
    tasks: Seq<CascadeTask>,
    writes: Seq<WriteText>,
    id: Seq<char>,
)
    ensures
        match row_with(tasks, id) {
            Some(k) => 0 <= k < tasks.len() && tasks[k].id@ == id && forall|j: int|
                k < j < tasks.len() ==> (#[trigger] tasks[j]).id@ != id,
            None => forall|j: int| 0 <= j < tasks.len() ==> (#[trigger] tasks[j]).id@ != id,
        },
        forall|i: int|
            0 <= i < writes.len() && (#[trigger] writes[i]).task_id == id && (forall|j: int|
                i < j < writes.len() ==> (#[trigger] writes[j]).task_id != id) ==> status_after(
                tasks,
                writes,
                id,
            ) == Some(writes[i].status),
        (forall|i: int| 0 <= i < writes.len() ==> (#[trigger] writes[i]).task_id != id) ==> (
        status_after(tasks, writes, id) == match row_with(tasks, id) {
            Some(k) => Some(tasks[k].status),
            None => None,
        }),
{
    lemma_row_of(tasks, id, tasks.len() as int);
    lemma_row_is_last(tasks, id, tasks.len() as int);
    if forall|i: int| 0 <= i < writes.len() ==> (#[trigger] writes[i]).task_id != id {
        lemma_decided_none(writes, id);
    }
    assert forall|i: int|
        0 <= i < writes.len() && (#[trigger] writes[i]).task_id == id && (forall|j: int|
            i < j < writes.len() ==> (#[trigger] writes[j]).task_id != id) implies status_after(
        tasks,
        writes,
        id,
    ) == Some(writes[i].status) by {
        lemma_decided_last(writes, id, i);
    }
}

proof fn lemma_row_is_last(tasks: Seq<CascadeTask>, id: Seq<char>, n: int)
    requires
        n <= tasks.len(),
    ensures
        row_of(tasks, id, n) matches Some(k) ==> forall|j: int|
            k < j < n ==> (#[trigger] tasks[j]).id@ != id,
    decreases n,
{
    if n > 0 && tasks[n - 1].id@ != id {
        lemma_row_is_last(tasks, id, n - 1);
    }
}

proof fn lemma_decided_last(writes: Seq<WriteText>, id: Seq<char>, i: int)
    requires
        0 <= i < writes.len(),
        writes[i].task_id == id,
        forall|j: int| i < j < writes.len() ==> (#[trigger] writes[j]).task_id != id,
    ensures
        decided(writes, id) == Some(writes[i].status),
    decreases writes.len(),
{
    if i < writes.len() - 1 {
        let front = writes.drop_last();
        assert(writes[writes.len() - 1].task_id != id);
        assert forall|j: int| i < j < front.len() implies (#[trigger] front[j]).task_id != id by {
            assert(writes[j].task_id != id);
        }
        lemma_decided_last(front, id, i);
    }
}

/// A task hangs under the one it names, and an empty name is none.
pub open spec fn hangs_under(task: CascadeTask, id: Seq<char>) -> bool {
    id.len() > 0 && optional_text(task.parent_id) == Some(id)
}

/// The children of a task are exactly the rows that hang under it, each once and
/// in their order.
pub proof fn children_are_those_that_hang_under(tasks: Seq<CascadeTask>, id: Seq<char>)
    ensures
        forall|k: int|
            #![trigger kids_of(tasks, id, tasks.len() as int).contains(k)]
            #![trigger tasks[k]]
            kids_of(tasks, id, tasks.len() as int).contains(k) <==> 0 <= k < tasks.len()
                && hangs_under(tasks[k], id),
        forall|i: int, j: int|
            0 <= i < j < kids_of(tasks, id, tasks.len() as int).len() ==> #[trigger] kids_of(
                tasks,
                id,
                tasks.len() as int,
            )[i] < #[trigger] kids_of(tasks, id, tasks.len() as int)[j],
{
    let kids = kids_of(tasks, id, tasks.len() as int);
    assert forall|k: int|
        #![trigger kids.contains(k)]
        #![trigger tasks[k]]
        kids.contains(k) <==> 0 <= k < tasks.len() && hangs_under(tasks[k], id) by {
        lemma_kid(tasks, id, tasks.len() as int, k);
    }
    lemma_kids_ordered(tasks, id, tasks.len() as int);
}

proof fn lemma_kid(tasks: Seq<CascadeTask>, id: Seq<char>, n: int, k: int)
    requires
        n <= tasks.len(),
    ensures
        kids_of(tasks, id, n).contains(k) <==> 0 <= k < n && hangs_under(tasks[k], id),
    decreases n,
{
    if n > 0 {
        lemma_kid(tasks, id, n - 1, k);
        let before = kids_of(tasks, id, n - 1);
        let all = kids_of(tasks, id, n);
        if hangs_under(tasks[n - 1], id) {
            assert(all == before.push(n - 1));
            assert(all[before.len() as int] == n - 1);
            if before.contains(k) {
                let i = choose|i: int| 0 <= i < before.len() && before[i] == k;
                assert(all[i] == k);
            }
            if all.contains(k) {
                let i = choose|i: int| 0 <= i < all.len() && all[i] == k;
                if i < before.len() {
                    assert(before[i] == k);
                }
            }
        }
    }
}

proof fn lemma_kids_ordered(tasks: Seq<CascadeTask>, id: Seq<char>, n: int)
    requires
        n <= tasks.len(),
    ensures
        forall|i: int, j: int|
            0 <= i < j < kids_of(tasks, id, n).len() ==> #[trigger] kids_of(tasks, id, n)[i]
                < #[trigger] kids_of(tasks, id, n)[j],
    decreases n,
{
    if n > 0 {
        lemma_kids_ordered(tasks, id, n - 1);
        lemma_kids(tasks, id, n - 1);
        let before = kids_of(tasks, id, n - 1);
        let all = kids_of(tasks, id, n);
        assert forall|i: int, j: int| 0 <= i < j < all.len() implies #[trigger] all[i]
            < #[trigger] all[j] by {
            assert(all[i] == before[i]);
            if j < before.len() {
                assert(all[j] == before[j]);
            }
        }
    }
}

// ---------------------------------------------------------------------------
// What a parent is
// ---------------------------------------------------------------------------

/// Presence decides what a parent is, never count and never order: it is in
/// progress with any child in progress, or with one completed beside one open;
/// open with an open child and none completed or in progress; completed with a
/// completed child and none unfinished; cancelled where all children are; and
/// without children there is nothing to say.
pub proof fn presence_decides_what_a_parent_is(children: Seq<TaskStatus>)
    ensures
        ({
            let busy = exists|i: int| 0 <= i < children.len() && (#[trigger] children[i]) is InProgress;
            let open = exists|i: int| 0 <= i < children.len() && (#[trigger] children[i]) is Open;
            let done = exists|i: int| 0 <= i < children.len() && (#[trigger] children[i]) is Completed;
            &&& derived_status(children) is None <==> children.len() == 0
            &&& derived_status(children) == Some(TaskStatus::InProgress) <==> busy || (done && open)
            &&& derived_status(children) == Some(TaskStatus::Open) <==> open && !busy && !done
            &&& derived_status(children) == Some(TaskStatus::Completed) <==> done && !busy && !open
            &&& derived_status(children) == Some(TaskStatus::Cancelled) <==> children.len() > 0
                && forall|i: int| 0 <= i < children.len() ==> (#[trigger] children[i]) is Cancelled
        }),
{
    lemma_presence(children, TaskStatus::InProgress);
    lemma_presence(children, TaskStatus::Open);
    lemma_presence(children, TaskStatus::Completed);
    if children.len() > 0 {
        assert(children[0] == children[0]);
    }
}

proof fn lemma_presence(children: Seq<TaskStatus>, status: TaskStatus)
    ensures
        children.contains(status) <==> exists|i: int|
            0 <= i < children.len() && (#[trigger] children[i]) == status,
{
}

/// A row hangs under the task that stands at this status once the writes are
/// applied.
pub open spec fn has_child(
    tasks: Seq<CascadeTask>,
    writes: Seq<WriteText>,
    id: Seq<char>,
    status: TaskStatus,
) -> bool {
    exists|k: int|
        0 <= k < tasks.len() && hangs_under(#[trigger] tasks[k], id) && status == match decided(
            writes,
            tasks[k].id@,
        ) {
            Some(written) => written,
            None => tasks[k].status,
        }
}

/// What a task becomes by its children is what their statuses make it: those of
/// the rows that hang under it, each as the last write to it left it.
pub proof fn a_parent_is_what_its_children_make_it(
    tasks: Seq<CascadeTask>,
    writes: Seq<WriteText>,
    id: Seq<char>,
)
    ensures
        ({
            let busy = has_child(tasks, writes, id, TaskStatus::InProgress);
            let open = has_child(tasks, writes, id, TaskStatus::Open);
            let done = has_child(tasks, writes, id, TaskStatus::Completed);
            let dropped = has_child(tasks, writes, id, TaskStatus::Cancelled);
            let derived = derived_for(tasks, writes, id);
            &&& derived is None <==> !busy && !open && !done && !dropped
            &&& derived == Some(TaskStatus::InProgress) <==> busy || (done && open)
            &&& derived == Some(TaskStatus::Open) <==> open && !busy && !done
            &&& derived == Some(TaskStatus::Completed) <==> done && !busy && !open
            &&& derived == Some(TaskStatus::Cancelled) <==> dropped && !busy && !open && !done
        }),
{
    let kids = kids_of(tasks, id, tasks.len() as int);
    let children = kid_statuses(tasks, writes, kids);
    lemma_children(tasks, writes, id, TaskStatus::InProgress);
    lemma_children(tasks, writes, id, TaskStatus::Open);
    lemma_children(tasks, writes, id, TaskStatus::Completed);
    lemma_children(tasks, writes, id, TaskStatus::Cancelled);
    if children.len() > 0 {
        assert(children.contains(children[0]));
    }
}

proof fn lemma_children(
    tasks: Seq<CascadeTask>,
    writes: Seq<WriteText>,
    id: Seq<char>,
    status: TaskStatus,
)
    ensures
        kid_statuses(tasks, writes, kids_of(tasks, id, tasks.len() as int)).contains(status)
            <==> has_child(tasks, writes, id, status),
{
    let kids = kids_of(tasks, id, tasks.len() as int);
    let children = kid_statuses(tasks, writes, kids);
    children_are_those_that_hang_under(tasks, id);
    if children.contains(status) {
        let i = choose|i: int| 0 <= i < children.len() && children[i] == status;
        assert(kids.contains(kids[i]));
        assert(hangs_under(tasks[kids[i]], id));
    }
    if has_child(tasks, writes, id, status) {
        let k = choose|k: int|
            0 <= k < tasks.len() && hangs_under(#[trigger] tasks[k], id) && status == match decided(
                writes,
                tasks[k].id@,
            ) {
                Some(written) => written,
                None => tasks[k].status,
            };
        assert(kids.contains(k));
        let i = choose|i: int| 0 <= i < kids.len() && kids[i] == k;
        assert(children[i] == status);
    }
}

/// A day is pinned exactly where a task without one goes into progress on a
/// known day, and it is that day.
pub proof fn a_day_is_pinned_when_work_starts(
    status: TaskStatus,
    scheduled_date: Option<Seq<char>>,
    today: Option<Seq<char>>,
)
    ensures
        pinned_day(status, scheduled_date, today) is Some <==> status is InProgress
            && scheduled_date is None && today is Some && today.unwrap().len() > 0,
        pinned_day(status, scheduled_date, today) is Some ==> pinned_day(
            status,
            scheduled_date,
            today,
        ) == today,
{
}

// ---------------------------------------------------------------------------
// The root
// ---------------------------------------------------------------------------

/// The root is written first, and once: where its status changes, or where it is
/// not in the list and the coupling is on. The day goes with it where it starts.
pub proof fn the_root_is_written_first(
    tasks: Seq<CascadeTask>,
    id: Seq<char>,
    status: TaskStatus,
    enabled: bool,
    today: Option<Seq<char>>,
)
    ensures
        ({
            let writes = cascade(tasks, id, status, enabled, today);
            let wanted = match row_with(tasks, id) {
                Some(k) => tasks[k].status != status,
                None => enabled,
            };
            &&& wanted ==> writes.len() > 0 && writes[0].task_id == id && writes[0].status == status
                && writes[0].scheduled_date == match row_with(tasks, id) {
                Some(k) => if status is InProgress && tasks[k].scheduled_date is None && today
                    is Some && today.unwrap().len() > 0 {
                    today
                } else {
                    None
                },
                None => None,
            }
            &&& !enabled ==> writes.len() == if wanted {
                1int
            } else {
                0int
            }
            &&& forall|i: int|
                0 <= i < writes.len() && (i > 0 || !wanted) ==> (#[trigger] writes[i]).task_id != id
        }),
{
    let writes = cascade(tasks, id, status, enabled, today);
    if enabled {
        let first = root_writes(tasks, id, status, today);
        let down = down_writes(tasks, id, status, today);
        lemma_down(tasks, id, status, today);
        if let Some(root) = row_with(tasks, id) {
            assert(seq![id][0] == id);
            lemma_climb_avoids(tasks, root, seq![id], down, today, tasks.len(), id);
        }
        assert(writes.take(down.len() as int) =~= down);
        assert forall|i: int|
            0 <= i < writes.len() && i >= first.len() implies (#[trigger] writes[i]).task_id
            != id by {
            if i < down.len() {
                assert(writes[i] == down[i]);
            }
        }
        if first.len() > 0 {
            assert(down[0] == first[0]);
            assert(writes[0] == down[0]);
        }
    }
}

/// What the way down leaves.
proof fn lemma_down(
    tasks: Seq<CascadeTask>,
    id: Seq<char>,
    status: TaskStatus,
    today: Option<Seq<char>>,
)
    ensures
        ({
            let first = root_writes(tasks, id, status, today);
            let down = down_writes(tasks, id, status, today);
            &&& first.len() <= down.len()
            &&& down.take(first.len() as int) == first
            &&& first.len() <= 1
            &&& first.len() == 1 ==> down[0] == first[0]
            &&& forall|i: int| first.len() <= i < down.len() ==> (#[trigger] down[i]).task_id != id
        }),
{
    let first = root_writes(tasks, id, status, today);
    let walk = Walk { stack: seq![id], seen: seq![id], writes: first };
    assert(first.take(first.len() as int) =~= first);
    let down = down_writes(tasks, id, status, today);
    if status.terminal() {
        lemma_walked(tasks, id, first, status, walk, tasks.len());
        lemma_covering_start(tasks, id, status, walk);
        lemma_covered(tasks, id, first, status, walk, tasks.len());
    }
    if first.len() == 1 {
        assert(down.take(first.len() as int)[0] == down[0]);
    }
}

/// The climb adds to what is written, and never comes by an id it has passed.
proof fn lemma_climb_avoids(
    tasks: Seq<CascadeTask>,
    from: int,
    passed: Seq<Seq<char>>,
    writes: Seq<WriteText>,
    today: Option<Seq<char>>,
    left: nat,
    id: Seq<char>,
)
    requires
        passed.contains(id),
    ensures
        ({
            let all = climbed(tasks, from, passed, writes, today, left);
            &&& writes.len() <= all.len()
            &&& all.take(writes.len() as int) == writes
            &&& forall|i: int| writes.len() <= i < all.len() ==> (#[trigger] all[i]).task_id != id
        }),
    decreases left,
{
    let all = climbed(tasks, from, passed, writes, today, left);
    assert(writes.take(writes.len() as int) =~= writes);
    if let Some(up) = parent_of(tasks[from]) {
        if let Some(parent) = row_with(tasks, up) {
            if left > 0 && !passed.contains(up) {
                if let Some(derived) = derived_for(tasks, writes, up) {
                    if status_after(tasks, writes, up) != Some(derived) {
                        let more = writes.push(write_for(tasks[parent], up, derived, today));
                        let at = choose|k: int| 0 <= k < passed.len() && passed[k] == id;
                        assert(passed.push(up)[at] == id);
                        lemma_climb_avoids(
                            tasks,
                            parent,
                            passed.push(up),
                            more,
                            today,
                            (left - 1) as nat,
                            id,
                        );
                        assert(all.take(writes.len() as int) =~= all.take(more.len() as int).take(
                            writes.len() as int,
                        ));
                        assert(more.take(writes.len() as int) =~= writes);
                        assert(all.take(more.len() as int)[writes.len() as int]
                            == more[writes.len() as int]);
                        assert(up != id);
                    }
                }
            }
        }
    }
}

// ---------------------------------------------------------------------------
// The descendants
// ---------------------------------------------------------------------------

/// The status a task has before anything is written.
pub open spec fn status_before(tasks: Seq<CascadeTask>, id: Seq<char>) -> Option<TaskStatus> {
    match row_with(tasks, id) {
        Some(k) => Some(tasks[k].status),
        None => None,
    }
}

/// A task came to the other end than the one it is taken to.
pub open spec fn is_decided_otherwise(
    tasks: Seq<CascadeTask>,
    id: Seq<char>,
    target: TaskStatus,
) -> bool {
    status_before(tasks, id) matches Some(now) && now != target && (now is Completed
        || now is Cancelled)
}

/// A line of descent from a task: each row hangs under the one before, and none
/// of them, but for the task itself, came to the other end.
pub open spec fn leads_down(
    tasks: Seq<CascadeTask>,
    root: Seq<char>,
    target: TaskStatus,
    line: Seq<int>,
) -> bool {
    &&& line.len() > 0
    &&& forall|k: int| 0 <= k < line.len() ==> 0 <= #[trigger] line[k] < tasks.len()
    &&& hangs_under(tasks[line[0]], root)
    &&& forall|k: int, l: int|
        0 <= k && l == k + 1 && l < line.len() ==> hangs_under(
            tasks[#[trigger] line[l]],
            tasks[#[trigger] line[k]].id@,
        )
    &&& forall|k: int|
        0 <= k < line.len() ==> tasks[#[trigger] line[k]].id@ == root || !is_decided_otherwise(
            tasks,
            tasks[line[k]].id@,
            target,
        )
}

/// The line leads to a task.
pub open spec fn leads_to(
    tasks: Seq<CascadeTask>,
    root: Seq<char>,
    target: TaskStatus,
    line: Seq<int>,
    id: Seq<char>,
) -> bool {
    leads_down(tasks, root, target, line) && tasks[line.last()].id@ == id
}

/// What holds of a walk beside what is written: the root and all that was met
/// stand in a line of descent; what is not to be expanded any more, but for
/// `open`, has all its children met; and what was met unsettled is written.
spec fn covering(
    tasks: Seq<CascadeTask>,
    root: Seq<char>,
    target: TaskStatus,
    before: int,
    walk: Walk,
    open: Option<Seq<char>>,
) -> bool {
    &&& forall|i: int|
        before <= i < walk.writes.len() ==> (#[trigger] walk.writes[i]).task_id != root
    &&& forall|i: int, k: int|
        0 <= i < walk.seen.len() && 0 <= k < tasks.len() && Some(#[trigger] walk.seen[i]) != open
            && hangs_under(#[trigger] tasks[k], walk.seen[i]) && !walk.stack.contains(walk.seen[i])
            && (i == 0 || !is_decided_otherwise(tasks, walk.seen[i], target))
            ==> walk.seen.contains(tasks[k].id@)
    &&& forall|i: int|
        0 < i < walk.seen.len() && unsettled(tasks, #[trigger] walk.seen[i], target)
            ==> walk.writes.contains(bare_write(walk.seen[i], target))
    &&& forall|i: int|
        0 < i < walk.seen.len() ==> is_below(tasks, root, target, #[trigger] walk.seen[i])
    &&& forall|i: int|
        0 <= i < walk.stack.len() ==> #[trigger] walk.stack[i] == root || (is_below(
            tasks,
            root,
            target,
            walk.stack[i],
        ) && !is_decided_otherwise(tasks, walk.stack[i], target))
}

/// A line of descent whose upper part is free leads to the task.
spec fn is_below(
    tasks: Seq<CascadeTask>,
    root: Seq<char>,
    target: TaskStatus,
    id: Seq<char>,
) -> bool {
    exists|line: Seq<int>| #[trigger] is_near(tasks, root, target, line) && tasks[line.last()].id@
        == id
}

/// A line of descent that may end on a task that came to the other end.
spec fn is_near(
    tasks: Seq<CascadeTask>,
    root: Seq<char>,
    target: TaskStatus,
    line: Seq<int>,
) -> bool {
    &&& line.len() > 0
    &&& 0 <= line.last() < tasks.len()
    &&& if line.len() == 1 {
        hangs_under(tasks[line[0]], root)
    } else {
        leads_down(tasks, root, target, line.drop_last()) && hangs_under(
            tasks[line.last()],
            tasks[line[line.len() - 2]].id@,
        )
    }
}

proof fn lemma_near_is_line(
    tasks: Seq<CascadeTask>,
    root: Seq<char>,
    target: TaskStatus,
    line: Seq<int>,
)
    requires
        is_near(tasks, root, target, line),
        tasks[line.last()].id@ == root || !is_decided_otherwise(
            tasks,
            tasks[line.last()].id@,
            target,
        ),
    ensures
        leads_down(tasks, root, target, line),
{
    let front = line.drop_last();
    let last = line.len() - 1;
    assert forall|k: int| 0 <= k < line.len() implies 0 <= #[trigger] line[k] < tasks.len() by {
        if k < last {
            assert(front[k] == line[k]);
        }
    }
    assert forall|k: int, l: int| 0 <= k && l == k + 1 && l < line.len() implies hangs_under(
        tasks[#[trigger] line[l]],
        tasks[#[trigger] line[k]].id@,
    ) by {
        assert(front[k] == line[k]);
        if l < last {
            assert(front[l] == line[l]);
        }
    }
    assert forall|k: int| 0 <= k < line.len() implies tasks[#[trigger] line[k]].id@ == root
        || !is_decided_otherwise(tasks, tasks[line[k]].id@, target) by {
        if k < last {
            assert(front[k] == line[k]);
        }
    }
    if line.len() > 1 {
        assert(front[0] == line[0]);
    }
}

proof fn lemma_below_kid(
    tasks: Seq<CascadeTask>,
    root: Seq<char>,
    target: TaskStatus,
    id: Seq<char>,
    kid: int,
)
    requires
        0 <= kid < tasks.len(),
        hangs_under(tasks[kid], id),
        id == root || (is_below(tasks, root, target, id) && !is_decided_otherwise(
            tasks,
            id,
            target,
        )),
    ensures
        is_below(tasks, root, target, tasks[kid].id@),
{
    if id == root {
        let line = seq![kid];
        assert(is_near(tasks, root, target, line));
    } else {
        let upper = choose|line: Seq<int>| #[trigger]
            is_near(tasks, root, target, line) && tasks[line.last()].id@ == id;
        lemma_near_is_line(tasks, root, target, upper);
        let line = upper.push(kid);
        assert(line.drop_last() =~= upper);
        assert(line[line.len() - 2] == upper.last());
        assert(is_near(tasks, root, target, line));
    }
}

proof fn lemma_covering_start(
    tasks: Seq<CascadeTask>,
    root: Seq<char>,
    target: TaskStatus,
    walk: Walk,
)
    requires
        walk.stack == seq![root],
        walk.seen == seq![root],
    ensures
        covering(tasks, root, target, walk.writes.len() as int, walk, None),
{
    assert(walk.stack[0] == root);
    assert(walk.stack.contains(root));
}

proof fn lemma_covering_met(
    tasks: Seq<CascadeTask>,
    root: Seq<char>,
    first: Seq<WriteText>,
    target: TaskStatus,
    walk: Walk,
    open: Seq<char>,
    kid: int,
)
    requires
        walking(tasks, root, first, target, walk),
        covering(tasks, root, target, first.len() as int, walk, Some(open)),
        target.terminal(),
        forall|i: int| 0 <= i < first.len() ==> (#[trigger] first[i]).task_id == root,
        0 <= kid < tasks.len(),
        hangs_under(tasks[kid], open),
        open == root || (is_below(tasks, root, target, open) && !is_decided_otherwise(
            tasks,
            open,
            target,
        )),
    ensures
        covering(
            tasks,
            root,
            target,
            first.len() as int,
            met(tasks, walk, target, kid),
            Some(open),
        ),
        met(tasks, walk, target, kid).seen.contains(tasks[kid].id@),
        forall|x: Seq<char>|
            walk.seen.contains(x) ==> #[trigger] met(tasks, walk, target, kid).seen.contains(x),
{
    let id = tasks[kid].id@;
    let after = met(tasks, walk, target, kid);
    lemma_row_of(tasks, id, tasks.len() as int);
    if !walk.seen.contains(id) {
        assert forall|i: int| 0 <= i < walk.writes.len() implies (
        #[trigger] walk.writes[i]).task_id != id by {
            if i < first.len() {
                assert(walk.writes.take(first.len() as int)[i] == walk.writes[i]);
                assert(walk.writes[i] == first[i]);
                assert(walk.seen.contains(walk.seen[0]));
            }
        }
        lemma_decided_none(walk.writes, id);
        lemma_below_kid(tasks, root, target, open, kid);
        assert(after.seen == walk.seen.push(id));
        assert(after.seen[walk.seen.len() as int] == id);
        assert forall|x: Seq<char>| walk.seen.contains(x) implies #[trigger] after.seen.contains(
            x,
        ) by {
            let j = choose|j: int| 0 <= j < walk.seen.len() && walk.seen[j] == x;
            assert(after.seen[j] == x);
        }
        assert forall|x: Seq<char>| walk.stack.contains(x) implies #[trigger] after.stack.contains(
            x,
        ) by {
            let j = choose|j: int| 0 <= j < walk.stack.len() && walk.stack[j] == x;
            assert(after.stack[j] == x);
        }
        assert forall|i: int| first.len() <= i < after.writes.len() implies (
        #[trigger] after.writes[i]).task_id != root by {
            if i < walk.writes.len() {
                assert(after.writes[i] == walk.writes[i]);
            } else {
                assert(walk.seen.contains(walk.seen[0]));
            }
        }
        assert(!is_decided_otherwise(tasks, id, target) ==> after.stack.contains(id)) by {
            if after.stack.len() > walk.stack.len() {
                assert(after.stack[walk.stack.len() as int] == id);
            }
        }
        assert forall|i: int, k: int|
            0 <= i < after.seen.len() && 0 <= k < tasks.len() && Some(#[trigger] after.seen[i])
                != Some(open)
                && hangs_under(#[trigger] tasks[k], after.seen[i]) && !after.stack.contains(
                after.seen[i],
            ) && (i == 0 || !is_decided_otherwise(tasks, after.seen[i], target)) implies
            after.seen.contains(tasks[k].id@) by {
            if i < walk.seen.len() {
                assert(after.seen[i] == walk.seen[i]);
                assert(walk.seen.contains(tasks[k].id@));
            }
        }
        assert forall|i: int|
            0 < i < after.seen.len() && unsettled(tasks, #[trigger] after.seen[i], target) implies
            after.writes.contains(bare_write(after.seen[i], target)) by {
            if i < walk.seen.len() {
                assert(after.seen[i] == walk.seen[i]);
                let w = bare_write(walk.seen[i], target);
                assert(walk.writes.contains(w));
                let j = choose|j: int| 0 <= j < walk.writes.len() && walk.writes[j] == w;
                assert(after.writes[j] == w);
            } else {
                assert(after.writes[walk.writes.len() as int] == bare_write(id, target));
            }
        }
        assert forall|i: int| 0 < i < after.seen.len() implies is_below(
            tasks,
            root,
            target,
            #[trigger] after.seen[i],
        ) by {
            if i < walk.seen.len() {
                assert(after.seen[i] == walk.seen[i]);
            }
        }
        assert forall|i: int| 0 <= i < after.stack.len() implies #[trigger] after.stack[i] == root
            || (is_below(tasks, root, target, after.stack[i]) && !is_decided_otherwise(
            tasks,
            after.stack[i],
            target,
        )) by {
            if i < walk.stack.len() {
                assert(after.stack[i] == walk.stack[i]);
            }
        }
    }
}

proof fn lemma_covering_met_all(
    tasks: Seq<CascadeTask>,
    root: Seq<char>,
    first: Seq<WriteText>,
    target: TaskStatus,
    walk: Walk,
    open: Seq<char>,
    kids: Seq<int>,
)
    requires
        walking(tasks, root, first, target, walk),
        covering(tasks, root, target, first.len() as int, walk, Some(open)),
        target.terminal(),
        forall|i: int| 0 <= i < first.len() ==> (#[trigger] first[i]).task_id == root,
        forall|i: int|
            0 <= i < kids.len() ==> 0 <= #[trigger] kids[i] < tasks.len() && hangs_under(
                tasks[kids[i]],
                open,
            ),
        open == root || (is_below(tasks, root, target, open) && !is_decided_otherwise(
            tasks,
            open,
            target,
        )),
    ensures
        covering(
            tasks,
            root,
            target,
            first.len() as int,
            met_all(tasks, walk, target, kids),
            Some(open),
        ),
        forall|i: int|
            0 <= i < kids.len() ==> met_all(tasks, walk, target, kids).seen.contains(
                tasks[#[trigger] kids[i]].id@,
            ),
    decreases kids.len(),
{
    if kids.len() > 0 {
        let front = kids.drop_last();
        assert forall|i: int| 0 <= i < front.len() implies 0 <= #[trigger] front[i] < tasks.len()
            && hangs_under(tasks[front[i]], open) by {
            assert(front[i] == kids[i]);
        }
        lemma_covering_met_all(tasks, root, first, target, walk, open, front);
        lemma_walking_met_all(tasks, root, first, target, walk, front);
        let mid = met_all(tasks, walk, target, front);
        assert(kids.last() == kids[kids.len() - 1]);
        lemma_covering_met(tasks, root, first, target, mid, open, kids.last());
        assert forall|i: int| 0 <= i < kids.len() implies met_all(
            tasks,
            walk,
            target,
            kids,
        ).seen.contains(tasks[#[trigger] kids[i]].id@) by {
            if i < front.len() {
                assert(front[i] == kids[i]);
                assert(mid.seen.contains(tasks[front[i]].id@));
            }
        }
    }
}

proof fn lemma_covered(
    tasks: Seq<CascadeTask>,
    root: Seq<char>,
    first: Seq<WriteText>,
    target: TaskStatus,
    walk: Walk,
    left: nat,
)
    requires
        walking(tasks, root, first, target, walk),
        covering(tasks, root, target, first.len() as int, walk, None),
        target.terminal(),
        forall|i: int| 0 <= i < first.len() ==> (#[trigger] first[i]).task_id == root,
        walk.stack.len() - walk.seen.len() + tasks.len() <= left,
    ensures
        covering(
            tasks,
            root,
            target,
            first.len() as int,
            walked(tasks, walk, target, left),
            None,
        ),
    decreases left,
{
    if walk.stack.len() > 0 {
        let open = walk.stack.last();
        let popped = Walk { stack: walk.stack.drop_last(), ..walk };
        let kids = kids_of(tasks, open, tasks.len() as int);
        assert(walk.stack[walk.stack.len() - 1] == open);
        lemma_kids(tasks, open, tasks.len() as int);
        children_are_those_that_hang_under(tasks, open);
        assert forall|i: int| 0 <= i < kids.len() implies 0 <= #[trigger] kids[i] < tasks.len()
            && hangs_under(tasks[kids[i]], open) by {
            assert(kids.contains(kids[i]));
        }
        assert forall|x: Seq<char>| #[trigger] walk.stack.contains(x) && x != open implies
            popped.stack.contains(x) by {
            let j = choose|j: int| 0 <= j < walk.stack.len() && walk.stack[j] == x;
            assert(popped.stack[j] == x);
        }
        assert(covering(tasks, root, target, first.len() as int, popped, Some(open)));
        lemma_walking_met_all(tasks, root, first, target, popped, kids);
        lemma_covering_met_all(tasks, root, first, target, popped, open, kids);
        let next = expanded(tasks, walk, target);
        assert forall|i: int, k: int|
            0 <= i < next.seen.len() && 0 <= k < tasks.len() && hangs_under(
                #[trigger] tasks[k],
                #[trigger] next.seen[i],
            ) && !next.stack.contains(next.seen[i]) && (i == 0 || !is_decided_otherwise(
                tasks,
                next.seen[i],
                target,
            )) implies next.seen.contains(tasks[k].id@) by {
            if next.seen[i] == open {
                assert(kids.contains(k));
                let j = choose|j: int| 0 <= j < kids.len() && kids[j] == k;
                assert(next.seen.contains(tasks[kids[j]].id@));
            }
        }
        lemma_seen_bound(tasks, root, first, target, next);
        if left > 0 {
            lemma_covered(tasks, root, first, target, next, (left - 1) as nat);
        }
    }
}

/// A line of descent leads only to what was met.
proof fn lemma_line_is_met(
    tasks: Seq<CascadeTask>,
    root: Seq<char>,
    first: Seq<WriteText>,
    target: TaskStatus,
    walk: Walk,
    line: Seq<int>,
    k: int,
)
    requires
        walking(tasks, root, first, target, walk),
        covering(tasks, root, target, first.len() as int, walk, None),
        walk.stack.len() == 0,
        leads_down(tasks, root, target, line),
        0 <= k < line.len(),
    ensures
        walk.seen.contains(tasks[line[k]].id@),
    decreases k,
{
    let upper = if k == 0 {
        root
    } else {
        tasks[line[k - 1]].id@
    };
    if k > 0 {
        lemma_line_is_met(tasks, root, first, target, walk, line, k - 1);
        assert(hangs_under(tasks[line[k]], tasks[line[k - 1]].id@));
        assert(tasks[line[k - 1]].id@ == root || !is_decided_otherwise(
            tasks,
            tasks[line[k - 1]].id@,
            target,
        ));
    } else {
        assert(walk.seen[0] == root);
    }
    let i = choose|i: int|
        0 <= i < walk.seen.len() && walk.seen[i] == upper && (upper == root ==> i == 0);
    assert(walk.seen.contains(upper));
    if upper == root {
        assert(walk.seen[0] == root);
    }
    assert(0 <= i < walk.seen.len() && walk.seen[i] == upper);
    assert(hangs_under(tasks[line[k]], walk.seen[i]));
}

/// Descendants follow. When a task is completed or cancelled with the coupling
/// on, a write takes another task there exactly where a line of descent leads to
/// it on which nothing came to the other end, and it is still open or in
/// progress itself. These writes carry no day, and they stand between the root's
/// and the ancestors'.
pub proof fn descendants_follow(
    tasks: Seq<CascadeTask>,
    id: Seq<char>,
    status: TaskStatus,
    today: Option<Seq<char>>,
) -> (down: int)
    requires
        status is Completed || status is Cancelled,
    ensures
        ({
            let writes = cascade(tasks, id, status, true, today);
            let first: int = if status_before(tasks, id) == Some(status) {
                0
            } else {
                1
            };
            &&& first <= down <= writes.len()
            &&& down == down_writes(tasks, id, status, today).len()
            &&& forall|i: int|
                first <= i < down ==> {
                    let w = #[trigger] writes[i];
                    &&& w.status == status
                    &&& w.scheduled_date is None
                    &&& w.task_id != id
                    &&& status_before(tasks, w.task_id) == Some(TaskStatus::Open) || status_before(
                        tasks,
                        w.task_id,
                    ) == Some(TaskStatus::InProgress)
                    &&& exists|line: Seq<int>| #[trigger]
                        leads_to(tasks, id, status, line, w.task_id)
                }
            &&& forall|line: Seq<int>|
                #![trigger leads_down(tasks, id, status, line)]
                leads_down(tasks, id, status, line) && tasks[line.last()].id@ != id && (
                status_before(tasks, tasks[line.last()].id@) == Some(TaskStatus::Open)
                    || status_before(tasks, tasks[line.last()].id@) == Some(
                    TaskStatus::InProgress,
                )) ==> exists|i: int|
                    first <= i < down && (#[trigger] writes[i]).task_id
                        == tasks[line.last()].id@
        }),
{
    let writes = cascade(tasks, id, status, true, today);
    let first = root_writes(tasks, id, status, today);
    let start = Walk { stack: seq![id], seen: seq![id], writes: first };
    let down = down_writes(tasks, id, status, today);
    let end = walked(tasks, start, status, tasks.len());
    assert(first.take(first.len() as int) =~= first);
    lemma_row_of(tasks, id, tasks.len() as int);
    lemma_walked(tasks, id, first, status, start, tasks.len());
    lemma_covering_start(tasks, id, status, start);
    lemma_covered(tasks, id, first, status, start, tasks.len());
    assert(down == end.writes);
    if let Some(root) = row_with(tasks, id) {
        assert(seq![id][0] == id);
        lemma_climb_avoids(tasks, root, seq![id], down, today, tasks.len(), id);
    }
    assert(writes.take(down.len() as int) =~= down);
    assert forall|i: int| 0 <= i < down.len() implies #[trigger] writes[i] == down[i] by {
        assert(writes.take(down.len() as int)[i] == down[i]);
    }
    assert forall|i: int| first.len() <= i < down.len() implies ({
        let w = #[trigger] writes[i];
        &&& w.status == status
        &&& w.scheduled_date is None
        &&& w.task_id != id
        &&& status_before(tasks, w.task_id) == Some(TaskStatus::Open) || status_before(
            tasks,
            w.task_id,
        ) == Some(TaskStatus::InProgress)
        &&& exists|line: Seq<int>| #[trigger] leads_to(tasks, id, status, line, w.task_id)
    }) by {
        let w = down[i];
        assert(end.writes[i] == w);
        assert(unsettled(tasks, w.task_id, status));
        let at = choose|j: int| 0 <= j < end.seen.len() && end.seen[j] == w.task_id;
        assert(at > 0);
        assert(is_below(tasks, id, status, end.seen[at]));
        let line = choose|line: Seq<int>| #[trigger]
            is_near(tasks, id, status, line) && tasks[line.last()].id@ == w.task_id;
        lemma_near_is_line(tasks, id, status, line);
        assert(leads_to(tasks, id, status, line, w.task_id));
    }
    assert forall|line: Seq<int>|
        #![trigger leads_down(tasks, id, status, line)]
        leads_down(tasks, id, status, line) && tasks[line.last()].id@ != id && (status_before(
            tasks,
            tasks[line.last()].id@,
        ) == Some(TaskStatus::Open) || status_before(tasks, tasks[line.last()].id@) == Some(
            TaskStatus::InProgress,
        )) implies exists|i: int|
        first.len() <= i < down.len() && (#[trigger] writes[i]).task_id
            == tasks[line.last()].id@ by {
        let x = tasks[line.last()].id@;
        lemma_line_is_met(tasks, id, first, status, end, line, line.len() - 1);
        let at = choose|j: int| 0 <= j < end.seen.len() && end.seen[j] == x;
        assert(at > 0);
        assert(unsettled(tasks, end.seen[at], status));
        assert(end.writes.contains(bare_write(x, status)));
        let i = choose|i: int| 0 <= i < end.writes.len() && end.writes[i] == bare_write(x, status);
        if i < first.len() {
            assert(end.writes.take(first.len() as int)[i] == first[i]);
        }
        assert(writes[i].task_id == x);
    }
    down.len() as int
}

/// A task that goes back to open or in progress takes no other task with it.
pub proof fn reopening_takes_nothing_along(
    tasks: Seq<CascadeTask>,
    id: Seq<char>,
    status: TaskStatus,
    today: Option<Seq<char>>,
)
    requires
        status is Open || status is InProgress,
        row_with(tasks, id) matches Some(k) ==> parent_of(tasks[k]) is None,
    ensures
        forall|i: int|
            0 <= i < cascade(tasks, id, status, true, today).len() ==> (#[trigger] cascade(
                tasks,
                id,
                status,
                true,
                today,
            )[i]).task_id == id,
{
}

// ---------------------------------------------------------------------------
// The ancestors
// ---------------------------------------------------------------------------

/// A climb from a row: each row of it is that of the parent the one before
/// names, and no id is met twice.
pub open spec fn climbs(tasks: Seq<CascadeTask>, from: int, line: Seq<int>) -> bool {
    &&& forall|k: int| 0 <= k < line.len() ==> 0 <= #[trigger] line[k] < tasks.len()
    &&& line.len() > 0 ==> hangs_under(tasks[from], tasks[line[0]].id@) && row_with(
        tasks,
        tasks[line[0]].id@,
    ) == Some(line[0])
    &&& forall|k: int, l: int|
        0 <= k && l == k + 1 && l < line.len() ==> hangs_under(
            tasks[#[trigger] line[k]],
            tasks[#[trigger] line[l]].id@,
        ) && row_with(tasks, tasks[line[l]].id@) == Some(line[l])
}

/// Ancestors are re-derived, nearest first: behind the writes of the root and
/// the descendants, each write takes the next ancestor to what its children make
/// it, the writes before it counted, with the day where that starts it. The
/// climb ends where there is no parent, where it is not in the list or was passed
/// already, and at the first ancestor that stays what it is.
pub proof fn ancestors_are_derived_nearest_first(
    tasks: Seq<CascadeTask>,
    id: Seq<char>,
    root: int,
    status: TaskStatus,
    today: Option<Seq<char>>,
) -> (r: (int, Seq<int>))
    requires
        row_with(tasks, id) == Some(root),
    ensures
        ({
            let writes = cascade(tasks, id, status, true, today);
            let (down, line) = r;
            &&& down + line.len() == writes.len()
            &&& down == down_writes(tasks, id, status, today).len()
            &&& status is Open || status is InProgress ==> down <= 1
            &&& climbs(tasks, root, line)
            &&& forall|j: int|
                0 <= j < line.len() ==> {
                    let w = #[trigger] writes[down + j];
                    &&& w.task_id == tasks[line[j]].id@
                    &&& derived_for(tasks, writes.take(down + j), w.task_id) == Some(w.status)
                    &&& w.scheduled_date == pinned_day(
                        w.status,
                        optional_text(tasks[line[j]].scheduled_date),
                        today,
                    )
                }
            &&& {
                let last = if line.len() == 0 {
                    root
                } else {
                    line.last()
                };
                match parent_of(tasks[last]) {
                    None => true,
                    Some(up) => row_with(tasks, up) is None || up == id || (exists|k: int|
                        0 <= k < line.len() && tasks[#[trigger] line[k]].id@ == up) || derived_for(
                        tasks,
                        writes,
                        up,
                    ) is None || derived_for(tasks, writes, up) == status_after(tasks, writes, up),
                }
            }
        }),
{
    let down = down_writes(tasks, id, status, today);
    lemma_row_of(tasks, id, tasks.len() as int);
    let line = lemma_climbed(tasks, root, seq![id], down, today, tasks.len());
    (down.len() as int, line)
}

proof fn lemma_passed_bound(tasks: Seq<CascadeTask>, passed: Seq<Seq<char>>)
    requires
        passed.no_duplicates(),
        forall|i: int| 0 <= i < passed.len() ==> row_with(tasks, #[trigger] passed[i]) is Some,
    ensures
        passed.len() <= tasks.len(),
{
    let ids = Seq::new(tasks.len(), |i: int| tasks[i].id@);
    assert forall|x: Seq<char>| passed.to_set().contains(x) implies ids.to_set().contains(x) by {
        let i = choose|i: int| 0 <= i < passed.len() && passed[i] == x;
        assert(row_with(tasks, passed[i]) is Some);
        lemma_row_of(tasks, x, tasks.len() as int);
        assert(ids[row_with(tasks, x).unwrap()] == x);
    }
    passed.unique_seq_to_set();
    ids.lemma_cardinality_of_set();
    vstd::seq_lib::seq_to_set_is_finite(ids);
    vstd::set_lib::lemma_len_subset(passed.to_set(), ids.to_set());
}

proof fn lemma_climbed(
    tasks: Seq<CascadeTask>,
    from: int,
    passed: Seq<Seq<char>>,
    writes: Seq<WriteText>,
    today: Option<Seq<char>>,
    left: nat,
) -> (line: Seq<int>)
    requires
        0 <= from < tasks.len(),
        passed.no_duplicates(),
        passed.len() > 0,
        forall|i: int| 0 <= i < passed.len() ==> row_with(tasks, #[trigger] passed[i]) is Some,
        left + passed.len() == tasks.len() + 1,
    ensures
        ({
            let all = climbed(tasks, from, passed, writes, today, left);
            &&& all.len() == writes.len() + line.len()
            &&& all.take(writes.len() as int) == writes
            &&& climbs(tasks, from, line)
            &&& forall|j: int|
                0 <= j < line.len() ==> {
                    let w = #[trigger] all[writes.len() + j];
                    &&& w.task_id == tasks[line[j]].id@
                    &&& derived_for(tasks, all.take(writes.len() + j), w.task_id) == Some(w.status)
                    &&& w.scheduled_date == pinned_day(
                        w.status,
                        optional_text(tasks[line[j]].scheduled_date),
                        today,
                    )
                }
            &&& {
                let last = if line.len() == 0 {
                    from
                } else {
                    line.last()
                };
                match parent_of(tasks[last]) {
                    None => true,
                    Some(up) => row_with(tasks, up) is None || passed.contains(up) || (exists|
                        k: int,
                    |
                        0 <= k < line.len() && tasks[#[trigger] line[k]].id@ == up) || derived_for(
                        tasks,
                        all,
                        up,
                    ) is None || derived_for(tasks, all, up) == status_after(tasks, all, up),
                }
            }
        }),
    decreases left,
{
    let all = climbed(tasks, from, passed, writes, today, left);
    lemma_passed_bound(tasks, passed);
    assert(writes.take(writes.len() as int) =~= writes);
    let mut line = Seq::<int>::empty();
    if let Some(up) = parent_of(tasks[from]) {
        lemma_row_of(tasks, up, tasks.len() as int);
        if let Some(parent) = row_with(tasks, up) {
            if !passed.contains(up) {
                if let Some(derived) = derived_for(tasks, writes, up) {
                    if status_after(tasks, writes, up) != Some(derived) {
                        let w = write_for(tasks[parent], up, derived, today);
                        let more = writes.push(w);
                        let further = passed.push(up);
                        assert(further.no_duplicates()) by {
                            assert forall|a: int, b: int|
                                0 <= a < b < further.len() implies further[a] != further[b] by {
                                if b == passed.len() {
                                    assert(passed.contains(passed[a]));
                                }
                            }
                        }
                        let rest = lemma_climbed(
                            tasks,
                            parent,
                            further,
                            more,
                            today,
                            (left - 1) as nat,
                        );
                        line = seq![parent] + rest;
                        assert(all.take(more.len() as int) == more);
                        assert(all.take(writes.len() as int) =~= writes) by {
                            assert(all.take(writes.len() as int) =~= all.take(
                                more.len() as int,
                            ).take(writes.len() as int));
                            assert(more.take(writes.len() as int) =~= writes);
                        }
                        assert(all.take(more.len() as int)[writes.len() as int] == w);
                        assert forall|j: int| 0 <= j < line.len() implies ({
                            let w = #[trigger] all[writes.len() + j];
                            &&& w.task_id == tasks[line[j]].id@
                            &&& derived_for(tasks, all.take(writes.len() + j), w.task_id) == Some(
                                w.status,
                            )
                            &&& w.scheduled_date == pinned_day(
                                w.status,
                                optional_text(tasks[line[j]].scheduled_date),
                                today,
                            )
                        }) by {
                            if j > 0 {
                                assert(line[j] == rest[j - 1]);
                                assert(all[more.len() + (j - 1)] == all[writes.len() + j]);
                                assert(all.take(more.len() + (j - 1)) =~= all.take(
                                    writes.len() + j,
                                ));
                            }
                        }
                        assert forall|k: int, l: int|
                            0 <= k && l == k + 1 && l < line.len() implies hangs_under(
                            tasks[#[trigger] line[k]],
                            tasks[#[trigger] line[l]].id@,
                        ) && row_with(tasks, tasks[line[l]].id@) == Some(line[l]) by {
                            assert(line[l] == rest[l - 1]);
                            if k > 0 {
                                assert(line[k] == rest[k - 1]);
                            }
                        }
                        assert forall|k: int| 0 <= k < line.len() implies 0 <= #[trigger] line[k]
                            < tasks.len() by {
                            if k > 0 {
                                assert(line[k] == rest[k - 1]);
                            }
                        }
                        let last = line.last();
                        if rest.len() > 0 {
                            assert(rest.last() == last);
                        }
                        if let Some(top) = parent_of(tasks[last]) {
                            if further.contains(top) && !passed.contains(top) {
                                let k = choose|k: int| 0 <= k < further.len() && further[k] == top;
                                if k < passed.len() {
                                    assert(passed[k] == top);
                                }
                                assert(tasks[line[0]].id@ == top);
                            }
                            if exists|k: int|
                                0 <= k < rest.len() && tasks[#[trigger] rest[k]].id@ == top {
                                let k = choose|k: int|
                                    0 <= k < rest.len() && tasks[#[trigger] rest[k]].id@ == top;
                                assert(line[k + 1] == rest[k]);
                            }
                        }
                    }
                }
            }
        }
    }
    line
}

/// Re-deriving climbs all the way: every row from the given one upward is taken
/// to what its children make it, the writes before it counted, and one that
/// stays what it is does not end the climb. It ends where there is no parent,
/// where it is not in the list or was passed already, and at a row without
/// children. `at` counts the writes that stand before each row's.
pub proof fn re_deriving_climbs_all_the_way(
    tasks: Seq<CascadeTask>,
    id: Seq<char>,
    today: Option<Seq<char>>,
) -> (r: (Seq<int>, Seq<int>))
    ensures
        ({
            let writes = recomputed(tasks, id, Seq::empty(), Seq::empty(), today, tasks.len());
            let (line, at) = r;
            &&& at.len() == line.len() + 1
            &&& at[0] == 0
            &&& at.last() == writes.len()
            &&& line.len() == 0 ==> row_with(tasks, id) is None || derived_for(
                tasks,
                Seq::empty(),
                id,
            ) is None
            &&& line.len() > 0 ==> row_with(tasks, id) == Some(line[0]) && climbs(
                tasks,
                line[0],
                line.skip(1),
            )
            &&& forall|k: int|
                0 <= k < line.len() ==> re_derived(
                    tasks,
                    writes,
                    today,
                    #[trigger] line[k],
                    at[k],
                    at[k + 1],
                )
            &&& line.len() > 0 ==> match parent_of(tasks[line.last()]) {
                None => true,
                Some(up) => row_with(tasks, up) is None || derived_for(tasks, writes, up) is None
                    || exists|k: int| 0 <= k < line.len() && tasks[#[trigger] line[k]].id@ == up,
            }
        }),
{
    lemma_recomputed(tasks, id, Seq::empty(), Seq::empty(), today, tasks.len())
}

/// What becomes of a row: one write where its children make it something else,
/// none where it is that already.
pub open spec fn re_derived(
    tasks: Seq<CascadeTask>,
    writes: Seq<WriteText>,
    today: Option<Seq<char>>,
    row: int,
    from: int,
    to: int,
) -> bool {
    let id = tasks[row].id@;
    let before = writes.take(from);
    &&& 0 <= from <= to <= writes.len()
    &&& derived_for(tasks, before, id) is Some
    &&& if status_after(tasks, before, id) == derived_for(tasks, before, id) {
        to == from
    } else {
        to == from + 1 && writes[from].task_id == id && Some(writes[from].status) == derived_for(
            tasks,
            before,
            id,
        ) && writes[from].scheduled_date == pinned_day(
            writes[from].status,
            optional_text(tasks[row].scheduled_date),
            today,
        )
    }
}

proof fn lemma_recomputed(
    tasks: Seq<CascadeTask>,
    id: Seq<char>,
    passed: Seq<Seq<char>>,
    writes: Seq<WriteText>,
    today: Option<Seq<char>>,
    left: nat,
) -> (r: (Seq<int>, Seq<int>))
    requires
        passed.no_duplicates(),
        forall|i: int| 0 <= i < passed.len() ==> row_with(tasks, #[trigger] passed[i]) is Some,
        left + passed.len() == tasks.len(),
    ensures
        ({
            let all = recomputed(tasks, id, passed, writes, today, left);
            let (line, at) = r;
            &&& all.len() >= writes.len()
            &&& all.take(writes.len() as int) == writes
            &&& at.len() == line.len() + 1
            &&& at[0] == writes.len()
            &&& at.last() == all.len()
            &&& line.len() == 0 ==> all == writes && (row_with(tasks, id) is None || derived_for(
                tasks,
                writes,
                id,
            ) is None || passed.contains(id))
            &&& line.len() > 0 ==> row_with(tasks, id) == Some(line[0]) && climbs(
                tasks,
                line[0],
                line.skip(1),
            )
            &&& forall|k: int| 0 <= k < line.len() ==> 0 <= #[trigger] line[k] < tasks.len()
            &&& forall|k: int|
                0 <= k < line.len() ==> re_derived(
                    tasks,
                    all,
                    today,
                    #[trigger] line[k],
                    at[k],
                    at[k + 1],
                )
            &&& line.len() > 0 ==> match parent_of(tasks[line.last()]) {
                None => true,
                Some(up) => row_with(tasks, up) is None || derived_for(tasks, all, up) is None
                    || passed.contains(up) || exists|k: int|
                    0 <= k < line.len() && tasks[#[trigger] line[k]].id@ == up,
            }
        }),
    decreases left,
{
    let all = recomputed(tasks, id, passed, writes, today, left);
    let none = Seq::<int>::empty();
    assert(writes.take(writes.len() as int) =~= writes);
    lemma_row_of(tasks, id, tasks.len() as int);
    let mut line = none;
    let mut at = seq![writes.len() as int];
    if !passed.contains(id) {
        if let Some(row) = row_with(tasks, id) {
            if let Some(derived) = derived_for(tasks, writes, id) {
                let w = write_for(tasks[row], id, derived, today);
                let after = if status_after(tasks, writes, id) == Some(derived) {
                    writes
                } else {
                    writes.push(w)
                };
                assert(after.take(writes.len() as int) =~= writes);
                let further = passed.push(id);
                assert(further.no_duplicates()) by {
                    assert forall|a: int, b: int| 0 <= a < b < further.len() implies further[a]
                        != further[b] by {
                        if b == passed.len() {
                            assert(passed.contains(passed[a]));
                        }
                    }
                }
                lemma_passed_bound(tasks, further);
                match parent_of(tasks[row]) {
                    None => {
                        line = seq![row];
                        at = seq![writes.len() as int, after.len() as int];
                        assert(line.skip(1) =~= none);
                    },
                    Some(up) => {
                        let (rest, rest_at) = lemma_recomputed(
                            tasks,
                            up,
                            further,
                            after,
                            today,
                            (left - 1) as nat,
                        );
                        line = seq![row] + rest;
                        at = seq![writes.len() as int] + rest_at;
                        assert(line.skip(1) =~= rest);
                        assert(all.take(writes.len() as int) =~= writes) by {
                            assert(all.take(writes.len() as int) =~= all.take(
                                after.len() as int,
                            ).take(writes.len() as int));
                        }
                        if after.len() > writes.len() {
                            assert(all.take(after.len() as int)[writes.len() as int] == w);
                        }
                        assert(at.last() == rest_at.last());
                        assert forall|k: int| 0 <= k < line.len() implies re_derived(
                            tasks,
                            all,
                            today,
                            #[trigger] line[k],
                            at[k],
                            at[k + 1],
                        ) && 0 <= line[k] < tasks.len() by {
                            if k > 0 {
                                assert(line[k] == rest[k - 1]);
                                assert(at[k] == rest_at[k - 1]);
                                assert(at[k + 1] == rest_at[k]);
                            } else {
                                assert(at[1] == rest_at[0]);
                            }
                        }
                        if rest.len() > 0 {
                            lemma_row_of(tasks, up, tasks.len() as int);
                            assert(rest[0] == line[1]);
                            let tail = rest.skip(1);
                            assert forall|k: int, l: int|
                                0 <= k && l == k + 1 && l < rest.len() implies hangs_under(
                                tasks[#[trigger] rest[k]],
                                tasks[#[trigger] rest[l]].id@,
                            ) && row_with(tasks, tasks[rest[l]].id@) == Some(rest[l]) by {
                                assert(tail[l - 1] == rest[l]);
                                if k > 0 {
                                    assert(tail[k - 1] == rest[k]);
                                }
                            }
                            assert(climbs(tasks, row, rest));
                            assert(line.last() == rest.last());
                            if let Some(top) = parent_of(tasks[line.last()]) {
                                if further.contains(top) && !passed.contains(top) {
                                    let k = choose|k: int|
                                        0 <= k < further.len() && further[k] == top;
                                    if k < passed.len() {
                                        assert(passed[k] == top);
                                    }
                                    assert(tasks[line[0]].id@ == top);
                                }
                                if exists|k: int|
                                    0 <= k < rest.len() && tasks[#[trigger] rest[k]].id@ == top {
                                    let k = choose|k: int|
                                        0 <= k < rest.len() && tasks[#[trigger] rest[k]].id@ == top;
                                    assert(line[k + 1] == rest[k]);
                                }
                            }
                        } else {
                            assert(climbs(tasks, row, rest));
                            assert(line.last() == row);
                            if further.contains(up) && !passed.contains(up) {
                                let k = choose|k: int| 0 <= k < further.len() && further[k] == up;
                                if k < passed.len() {
                                    assert(passed[k] == up);
                                }
                                assert(tasks[line[0]].id@ == up);
                            }
                        }
                    },
                }
            }
        }
    }
    (line, at)
}

} // verus!
