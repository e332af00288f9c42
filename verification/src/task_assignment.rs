//! Who a task belongs to.
//!
//! One rule, used wherever ownership is decided: does a task ring for me,
//! is it offered to me, was it done by me or by others. Beside it stand who
//! holds a task after a status change, how many people a list can hold on one
//! task, and what a list of assignees is trimmed to when a task moves. The
//! rules compare ids alone, and the answers are positions or a state, never a
//! user.

use vstd::prelude::*;

use crate::text::{optional_str, same, texts};
use crate::types::{TaskAssignment, TaskStatus, TaskUser};

verus! {

/// The ids of users, in order.
pub open spec fn user_ids(users: Seq<TaskUser>) -> Seq<Seq<char>> {
    Seq::new(users.len(), |i: int| users[i].id@)
}

/// The id of an optional user.
pub open spec fn optional_user_id(user: Option<&TaskUser>) -> Option<Seq<char>> {
    match user {
        Some(u) => Some(u.id@),
        None => None,
    }
}

/// A task is mine to act on unless it is assigned, and to others only. Without
/// an identity everything is mine.
pub open spec fn is_mine(assignees: Seq<Seq<char>>, me: Option<Seq<char>>) -> bool {
    match me {
        None => true,
        Some(id) => assignees.len() == 0 || assignees.contains(id),
    }
}

/// Is a task mine to act on?
///
/// False ONLY when it is assigned to concrete OTHER people and not to me: in a
/// shared list a colleague's task must not ring for me, must not be offered to
/// me, and must not be counted among the things I finished. It is still
/// visible: this decides ownership, not visibility.
pub fn is_mine_or_unassigned(assignees: &[TaskUser], me: Option<&TaskUser>) -> (r: bool)
    ensures
        r == is_mine(user_ids(assignees@), optional_user_id(me)),
{
    let own = match me {
        Some(user) => user,
        None => {
            return true;
        },
    };
    let ghost ids = user_ids(assignees@);
    let mut i: usize = 0;
    while i < assignees.len()
        invariant
            i <= assignees.len(),
            ids == user_ids(assignees@),
            optional_user_id(me) == Some(own.id@),
            forall|j: int| 0 <= j < i ==> #[trigger] ids[j] != own.id@,
        decreases assignees.len() - i,
    {
        if same(assignees[i].id.as_str(), own.id.as_str()) {
            assert(ids[i as int] == own.id@);
            return true;
        }
        i = i + 1;
    }
    assignees.len() == 0
}

/// [`is_mine_or_unassigned`] over ids.
pub fn mine_or_unassigned(assignees: &[String], me: Option<&str>) -> (r: bool)
    ensures
        r == is_mine(texts(assignees@), optional_str(me)),
{
    let own = match me {
        Some(id) => id,
        None => {
            return true;
        },
    };
    let ghost ids = texts(assignees@);
    let mut i: usize = 0;
    while i < assignees.len()
        invariant
            i <= assignees.len(),
            ids == texts(assignees@),
            optional_str(me) == Some(own@),
            forall|j: int| 0 <= j < i ==> #[trigger] ids[j] != own@,
        decreases assignees.len() - i,
    {
        if same(assignees[i].as_str(), own) {
            assert(ids[i as int] == own@);
            return true;
        }
        i = i + 1;
    }
    assignees.len() == 0
}

/// The question [`self_assign_on_status_change`] answers. A user is its id.
#[derive(Debug, Clone, PartialEq, Eq)]
pub struct SelfAssignInput {
    /// The status the task changes to.
    pub status: TaskStatus,
    /// The assignee ids as the task carries them, in order.
    pub assignees: Vec<String>,
    /// The account's own id, or none when the adapter reports no identity.
    pub me: Option<String>,
    /// The user's setting.
    pub enabled: bool,
}

/// Who holds the task afterwards: nothing changes, I take it, or these of the
/// given assignees stay (positions into the input, in order).
#[derive(Debug, Clone, PartialEq, Eq)]
pub enum SelfAssignOutcome {
    Unchanged,
    AssignMe,
    Keep { positions: Vec<usize> },
}

/// What a [`SelfAssignOutcome`] says.
pub enum HoldersAfter {
    Unchanged,
    AssignMe,
    Keep(Seq<usize>),
}

impl View for SelfAssignOutcome {
    type V = HoldersAfter;

    open spec fn view(&self) -> HoldersAfter {
        match *self {
            SelfAssignOutcome::Unchanged => HoldersAfter::Unchanged,
            SelfAssignOutcome::AssignMe => HoldersAfter::AssignMe,
            SelfAssignOutcome::Keep { positions } => HoldersAfter::Keep(positions@),
        }
    }
}

/// The positions of those who are not `me`, in order.
pub open spec fn others_than(assignees: Seq<Seq<char>>, me: Seq<char>) -> Seq<usize>
    decreases assignees.len(),
{
    if assignees.len() == 0 {
        Seq::empty()
    } else {
        let before = others_than(assignees.drop_last(), me);
        if assignees.last() == me {
            before
        } else {
            before.push((assignees.len() - 1) as usize)
        }
    }
}

/// Who holds a task after it changes to `status`: I take one that nobody owns
/// when it is started or finished, and step back from one I hold when it is
/// reopened.
pub open spec fn holders_after(
    status: TaskStatus,
    assignees: Seq<Seq<char>>,
    me: Option<Seq<char>>,
    enabled: bool,
) -> HoldersAfter {
    match me {
        Some(id) => if !enabled {
            HoldersAfter::Unchanged
        } else if (status is InProgress || status is Completed) && assignees.len() == 0 {
            HoldersAfter::AssignMe
        } else if status is Open && assignees.contains(id) {
            HoldersAfter::Keep(others_than(assignees, id))
        } else {
            HoldersAfter::Unchanged
        },
        None => HoldersAfter::Unchanged,
    }
}

/// The new holders of a task after it changes to `status`, in shared lists
/// where the adapter knows "me".
///
/// Only with `enabled` and an identity. The step-back removes ONLY me, every
/// copy of me, and keeps the colleagues in their order. `cancelled` is neither
/// taking nor stepping back.
pub fn self_assign_on_status_change(
    status: TaskStatus,
    assignee_ids: &[String],
    me: Option<&str>,
    enabled: bool,
) -> (r: SelfAssignOutcome)
    ensures
        r@ == holders_after(status, texts(assignee_ids@), optional_str(me), enabled),
{
    if !enabled {
        return SelfAssignOutcome::Unchanged;
    }
    let me = match me {
        Some(id) => id,
        None => {
            return SelfAssignOutcome::Unchanged;
        },
    };
    let active = match status {
        TaskStatus::InProgress | TaskStatus::Completed => true,
        _ => false,
    };
    if active && assignee_ids.len() == 0 {
        return SelfAssignOutcome::AssignMe;
    }
    let reopened = match status {
        TaskStatus::Open => true,
        _ => false,
    };
    if !reopened || !crate::text::contains_text(assignee_ids, me) {
        return SelfAssignOutcome::Unchanged;
    }
    let ghost ids = texts(assignee_ids@);
    let mut positions: Vec<usize> = Vec::new();
    let mut i: usize = 0;
    while i < assignee_ids.len()
        invariant
            i <= assignee_ids.len(),
            ids == texts(assignee_ids@),
            positions@ == others_than(ids.take(i as int), me@),
        decreases assignee_ids.len() - i,
    {
        assert(ids.take(i as int + 1).drop_last() =~= ids.take(i as int));
        if !same(assignee_ids[i].as_str(), me) {
            positions.push(i);
        }
        i = i + 1;
    }
    assert(ids.take(i as int) =~= ids);
    SelfAssignOutcome::Keep { positions }
}

/// Those who stay are exactly those who are not `me`, in their order.
pub proof fn stepping_back_removes_only_me(assignees: Seq<Seq<char>>, me: Seq<char>)
    requires
        assignees.len() <= usize::MAX,
    ensures
        forall|k: int|
            0 <= k < assignees.len() ==> (others_than(assignees, me).contains(k as usize)
                <==> assignees[k] != me),
        forall|i: int, j: int|
            0 <= i < j < others_than(assignees, me).len() ==> others_than(assignees, me)[i]
                < others_than(assignees, me)[j],
        forall|i: int|
            0 <= i < others_than(assignees, me).len() ==> (#[trigger] others_than(
                assignees,
                me,
            )[i]) < assignees.len(),
    decreases assignees.len(),
{
    if assignees.len() > 0 {
        let front = assignees.drop_last();
        stepping_back_removes_only_me(front, me);
        let before = others_than(front, me);
        let all = others_than(assignees, me);
        assert forall|k: int| 0 <= k < assignees.len() implies (all.contains(k as usize)
            <==> assignees[k] != me) by {
            if k < front.len() {
                assert(front[k] == assignees[k]);
                if before.contains(k as usize) {
                    let m = choose|m: int| 0 <= m < before.len() && before[m] == k as usize;
                    assert(all[m] == k as usize);
                }
                if all.contains(k as usize) {
                    let m = choose|m: int| 0 <= m < all.len() && all[m] == k as usize;
                    assert(m < before.len());
                    assert(before[m] == k as usize);
                }
            } else {
                if assignees[k] != me {
                    assert(all[all.len() - 1] == k as usize);
                } else if all.contains(k as usize) {
                    let m = choose|m: int| 0 <= m < all.len() && all[m] == k as usize;
                    assert(before[m] < front.len());
                }
            }
        }
    }
}

/// The slice of a list's capabilities this rule reads.
#[derive(Debug, Clone, PartialEq, Eq)]
pub struct AssignmentCapabilities {
    pub task_assignment: TaskAssignment,
}

/// The question [`task_assignment_mode`] answers.
#[derive(Debug, Clone, PartialEq, Eq)]
pub struct AssignmentModeInput {
    /// The list's capabilities, or none when the list has none or is unknown.
    pub capabilities: Option<AssignmentCapabilities>,
}

/// How many people a list can hold on one task. Absent capabilities mean
/// nobody: an adapter that has not said it can assign is taken at its word.
pub fn task_assignment_mode(capabilities: Option<&AssignmentCapabilities>) -> (r: TaskAssignment)
    ensures
        r == match capabilities {
            Some(c) => c.task_assignment,
            None => TaskAssignment::Unassignable,
        },
{
    match capabilities {
        Some(c) => c.task_assignment,
        None => TaskAssignment::Unassignable,
    }
}

/// The question [`clamp_assignees`] answers.
#[derive(Debug, Clone, PartialEq, Eq)]
pub struct ClampAssigneesInput {
    pub mode: TaskAssignment,
    /// The assignee ids as the form holds them, in order.
    pub assignees: Vec<String>,
}

/// Which of `count` assignees a list in `mode` can hold: positions, in order.
/// `Single` keeps the FIRST. A list that cannot assign is deliberately NOT
/// emptied: the task may still carry assignees another client wrote, and
/// clearing them would destroy what the user was never shown.
pub fn clamp_assignees(mode: TaskAssignment, count: usize) -> (r: Vec<usize>)
    ensures
        r@.len() == if mode is Single && count > 1 {
            1
        } else {
            count as int
        },
        forall|i: int| 0 <= i < r@.len() ==> #[trigger] r@[i] == i,
{
    let kept: usize = match mode {
        TaskAssignment::Single => if count > 1 {
            1
        } else {
            count
        },
        TaskAssignment::Unassignable | TaskAssignment::Multiple => count,
    };
    let mut out: Vec<usize> = Vec::new();
    let mut i: usize = 0;
    while i < kept
        invariant
            i <= kept,
            out@.len() == i,
            forall|j: int| 0 <= j < i ==> #[trigger] out@[j] == j,
        decreases kept - i,
    {
        out.push(i);
        i = i + 1;
    }
    out
}

/// A task is someone else's exactly where the account is known, people hold it,
/// and the account is none of them.
pub proof fn whose_a_task_is(assignees: Seq<Seq<char>>, me: Option<Seq<char>>)
    ensures
        !is_mine(assignees, me) <==> me is Some && assignees.len() > 0 && forall|i: int|
            0 <= i < assignees.len() ==> #[trigger] assignees[i] != me->0,
{
}

/// The ids that hold a task after a change.
pub open spec fn holders(
    assignees: Seq<Seq<char>>,
    me: Seq<char>,
    after: HoldersAfter,
) -> Seq<Seq<char>> {
    match after {
        HoldersAfter::Unchanged => assignees,
        HoldersAfter::AssignMe => seq![me],
        HoldersAfter::Keep(at) => Seq::new(at.len(), |i: int| assignees[at[i] as int]),
    }
}

/// With the setting on and the account known: a task nobody holds is mine once it
/// is started or finished, a task that is reopened is not mine any more, and
/// nobody else comes or goes. In every other case nothing changes.
pub proof fn taking_and_stepping_back(
    status: TaskStatus,
    assignees: Seq<Seq<char>>,
    me: Option<Seq<char>>,
    enabled: bool,
    other: Seq<char>,
)
    requires
        assignees.len() <= usize::MAX,
    ensures
        ({
            let after = holders_after(status, assignees, me, enabled);
            let on = enabled && me is Some;
            let now = holders(assignees, me->0, after);
            let working = status is InProgress || status is Completed;
            &&& !on ==> after is Unchanged
            &&& on && working && assignees.len() == 0 ==> now == seq![me->0]
            &&& on && working && assignees.len() > 0 ==> after is Unchanged
            &&& on && status is Open ==> !now.contains(me->0)
            &&& on && status is Open && !assignees.contains(me->0) ==> after is Unchanged
            &&& status is Cancelled ==> after is Unchanged
            &&& on && other != me->0 ==> (now.contains(other) <==> assignees.contains(other))
        }),
{
    let after = holders_after(status, assignees, me, enabled);
    if me is Some {
        let id = me->0;
        let now = holders(assignees, id, after);
        if after is Keep {
            let at = others_than(assignees, id);
            stepping_back_removes_only_me(assignees, id);
            assert forall|i: int| 0 <= i < now.len() implies #[trigger] now[i] != id by {
                let p = at[i];
                assert(at.contains(p));
                assert(p < assignees.len());
                assert(at.contains(p as int as usize));
                assert(assignees[p as int] != id);
            }
            if assignees.contains(other) && other != id {
                let k = choose|k: int| 0 <= k < assignees.len() && assignees[k] == other;
                assert(at.contains(k as usize));
                let i = choose|i: int| 0 <= i < at.len() && at[i] == k as usize;
                assert(now[i] == other);
            }
            if now.contains(other) {
                let i = choose|i: int| 0 <= i < now.len() && now[i] == other;
                assert(at[i] < assignees.len());
                assert(assignees[at[i] as int] == other);
            }
        } else if after is AssignMe {
            assert(now[0] == id);
        }
    }
}

} // verus!
