//! The day start: which tasks are overdue, which slipped, which get pinned to
//! today, which are reminded and in which group, how many days remain to a
//! deadline, what "move to today" does to a task's dates, and whether a
//! day-start checker fires now.
//!
//! A morning on the phone and the same morning on the desktop have to offer the
//! same tasks, so the rules live here, once. The answer is POSITIONS into the
//! given tasks, days and yes/no, never wording, and nothing here reads a clock:
//! the day, and for the fire gate the local time, travel in.
//!
//! A day is `YYYY-MM-DD`. The selectors COMPARE keys as text, by UTF-16 code
//! unit, so even a key that is not a day has its place. Only
//! [`days_until_deadline`] reads a key as a date, and it reads it strictly:
//! four ASCII digits, two, two, a real calendar day, and a year of at least
//! 100.
//!
//! An empty date is no date, an empty parent id ends a climb, and an empty time
//! still counts as a time.
//!
//! A parent cycle, which an external provider can deliver, ends every walk: a
//! walk down expands each id at most once, and a climb stops at an id it has
//! already passed.

use vstd::prelude::*;

use crate::civil::{days_between, Date, Ymd};
use crate::order::{all_below, lemma_kept, lemma_those, pick, positions, positions_below, those};
use crate::task_assignment::{is_mine, mine_or_unassigned};
use crate::text::{
    all_digits, chars_of, contains_text, digits_up_to, digits_value, lemma_texts_push, optional_str,
    optional_text, same, split_first, split_once, texts, units_before, units_of, units_precede,
};
use crate::types::TaskStatus;

verus! {

/// What the day-start rules read of a task. A user is its id: ownership
/// compares ids alone.
#[derive(Debug, Clone, PartialEq, Eq)]
pub struct DayStartTask {
    pub id: String,
    pub list_id: String,
    pub status: TaskStatus,
    pub parent_id: Option<String>,
    /// `YYYY-MM-DD`, compared as text.
    pub scheduled_date: Option<String>,
    /// Only its presence is read.
    pub scheduled_time: Option<String>,
    /// `YYYY-MM-DD`, compared as text; read as a date for the countdown.
    pub deadline_date: Option<String>,
    /// The task's own countdown window in whole days; honoured when at least
    /// one.
    pub deadline_reminder_days: Option<u64>,
    /// The assignees' user ids.
    pub assignees: Vec<String>,
}

/// The account's own user id in one list, or none. A list the question does
/// not name has no identity, and a task in it is offered whoever holds it.
#[derive(Debug, Clone, PartialEq, Eq)]
pub struct DayStartIdentity {
    pub list_id: String,
    pub me: Option<String>,
}

/// The four reminder settings.
#[derive(Debug, Clone, PartialEq, Eq)]
pub struct DayStartReminderSettings {
    pub remind_untimed_today: bool,
    pub remind_deadline_arrived: bool,
    pub remind_deadline_countdown: bool,
    /// The global countdown window in whole days; valid when at least one.
    pub deadline_countdown_days: Option<u64>,
}

/// What a list does at day start with a task whose plan lapsed.
#[derive(Debug, Clone, Copy, PartialEq, Eq, Structural)]
pub enum CarryOverDefault {
    /// Ask in the review.
    Ask,
    /// Move it to today, silently.
    Today,
    /// Move it to the backlog, silently.
    Backlog,
}

impl Default for CarryOverDefault {
    fn default() -> (r: CarryOverDefault)
        ensures
            r is Ask,
    {
        CarryOverDefault::Ask
    }
}

/// One list's day-start settings, resolved. A list the question does not name
/// neither couples nor carries: its slipped rows are asked.
#[derive(Debug, Clone, PartialEq, Eq)]
pub struct DayStartListSettings {
    pub list_id: String,
    /// The parent/subtask status coupling.
    pub cascade: bool,
    pub carry_over_default: CarryOverDefault,
}

/// A task's dates after "move to today": the deadline is today, and the plan
/// is today only when it had lapsed; absent, the plan stays as it was.
#[derive(Debug, Clone, PartialEq, Eq)]
pub struct DayStartMoved {
    pub deadline_date: String,
    pub scheduled_date: Option<String>,
}

/// The three reminder groups, as positions, each task in at most one.
#[derive(Debug, Clone, PartialEq, Eq)]
pub struct DayStartReminderGroups {
    pub untimed: Vec<usize>,
    pub due_today: Vec<usize>,
    pub countdown: Vec<usize>,
}

/// What [`DayStartReminderGroups`] holds.
#[verifier::ext_equal]
pub struct Reminders {
    pub untimed: Seq<usize>,
    pub due_today: Seq<usize>,
    pub countdown: Seq<usize>,
}

impl View for DayStartReminderGroups {
    type V = Reminders;

    open spec fn view(&self) -> Reminders {
        Reminders {
            untimed: self.untimed@,
            due_today: self.due_today@,
            countdown: self.countdown@,
        }
    }
}

/// The morning, as positions: see [`plan`].
#[derive(Debug, Clone, PartialEq, Eq)]
pub struct DayStartPlan {
    pub overdue: Vec<usize>,
    /// Slipped rows the review asks about.
    pub ask: Vec<usize>,
    /// Slipped rows carried to today, silently.
    pub today: Vec<usize>,
    /// Slipped rows carried to the backlog, silently.
    pub backlog: Vec<usize>,
    /// What the today batch writes: each row, then what it brings along.
    pub today_targets: Vec<usize>,
    /// What the backlog batch writes.
    pub backlog_targets: Vec<usize>,
    pub reminders: DayStartReminderGroups,
    /// What opens the review: overdue, asked, and every reminder.
    pub surfaced: usize,
}

/// What a [`DayStartPlan`] holds.
#[verifier::ext_equal]
pub struct Morning {
    pub overdue: Seq<usize>,
    pub ask: Seq<usize>,
    pub today: Seq<usize>,
    pub backlog: Seq<usize>,
    pub today_targets: Seq<usize>,
    pub backlog_targets: Seq<usize>,
    pub reminders: Reminders,
    pub surfaced: nat,
}

impl View for DayStartPlan {
    type V = Morning;

    open spec fn view(&self) -> Morning {
        Morning {
            overdue: self.overdue@,
            ask: self.ask@,
            today: self.today@,
            backlog: self.backlog@,
            today_targets: self.today_targets@,
            backlog_targets: self.backlog_targets@,
            reminders: self.reminders@,
            surfaced: self.surfaced as nat,
        }
    }
}

// ---------------------------------------------------------------------------
// Reading
// ---------------------------------------------------------------------------

/// Still to be done.
pub open spec fn actionable(status: TaskStatus) -> bool {
    status is Open || status is InProgress
}

fn is_actionable(status: TaskStatus) -> (r: bool)
    ensures
        r == actionable(status),
        r == !status.terminal(),
{
    match status {
        TaskStatus::Open => true,
        TaskStatus::InProgress => true,
        _ => false,
    }
}

/// A text that is there and says something.
pub open spec fn present(value: Option<String>) -> Option<Seq<char>> {
    match value {
        Some(s) => if s@.len() > 0 {
            Some(s@)
        } else {
            None
        },
        None => None,
    }
}

fn take_present(value: &Option<String>) -> (r: Option<&str>)
    ensures
        optional_str(r) == present(*value),
{
    match value {
        Some(s) => if s.as_str().is_empty() {
            None
        } else {
            Some(s.as_str())
        },
        None => None,
    }
}

/// Whether one day key comes before another.
pub open spec fn earlier(a: Seq<char>, b: Seq<char>) -> bool {
    units_precede(units_of(a), units_of(b))
}

/// Whether an optional text is this one.
fn is_text(value: &Option<String>, wanted: &str) -> (r: bool)
    ensures
        r == (optional_text(*value) == Some(wanted@)),
{
    match value {
        Some(s) => same(s.as_str(), wanted),
        None => false,
    }
}

/// The day a `YYYY-MM-DD` key names: ten ASCII characters, a real calendar day,
/// a year of at least 100.
pub open spec fn day_key(key: Seq<char>) -> Option<Ymd> {
    if key.len() == 10 && key[4] == '-' && key[7] == '-' && all_digits(key.subrange(0, 4))
        && all_digits(key.subrange(5, 7)) && all_digits(key.subrange(8, 10)) {
        let day = Ymd {
            year: digits_value(key.subrange(0, 4)) as int,
            month: digits_value(key.subrange(5, 7)) as int,
            day: digits_value(key.subrange(8, 10)) as int,
        };
        if day.year >= 100 && day.valid() {
            Some(day)
        } else {
            None
        }
    } else {
        None
    }
}

proof fn lemma_few_digits(s: Seq<char>)
    requires
        s.len() <= 4,
        all_digits(s),
    ensures
        digits_value(s) <= 9999,
{
    reveal_with_fuel(digits_value, 5);
}

fn read_digits(chars: &[char], from: usize, to: usize) -> (r: Option<u32>)
    requires
        from < to <= chars@.len(),
        to - from <= 4,
    ensures
        match r {
            Some(n) => all_digits(chars@.subrange(from as int, to as int)) && digits_value(
                chars@.subrange(from as int, to as int),
            ) == n && n <= 9999,
            None => !all_digits(chars@.subrange(from as int, to as int)),
        },
{
    let part = &chars[from..to];
    assert(part@ =~= chars@.subrange(from as int, to as int));
    proof {
        if all_digits(part@) {
            lemma_few_digits(part@);
        }
    }
    match digits_up_to(part, 9999) {
        Some(n) => Some(n as u32),
        None => None,
    }
}

pub fn parse_day_key(key: &str) -> (r: Option<Date>)
    ensures
        match r {
            Some(d) => day_key(key@) == Some(d@),
            None => day_key(key@) is None,
        },
{
    let chars = chars_of(key);
    if chars.len() != 10 || chars[4] != '-' || chars[7] != '-' {
        return None;
    }
    let year: u32 = match read_digits(chars.as_slice(), 0, 4) {
        Some(n) => n,
        None => {
            return None;
        },
    };
    let month: u32 = match read_digits(chars.as_slice(), 5, 7) {
        Some(n) => n,
        None => {
            return None;
        },
    };
    let day: u32 = match read_digits(chars.as_slice(), 8, 10) {
        Some(n) => n,
        None => {
            return None;
        },
    };
    if year < 100 {
        return None;
    }
    Date::from_ymd_opt(year as i32, month, day)
}

// ---------------------------------------------------------------------------
// Who the account is
// ---------------------------------------------------------------------------

/// The account's user id in a list, by the first `n` identities; of several for
/// one list, the last.
pub open spec fn me_among(identities: Seq<DayStartIdentity>, list_id: Seq<char>, n: int) -> Option<
    Seq<char>,
>
    decreases n,
{
    if n <= 0 {
        None
    } else if identities[n - 1].list_id@ == list_id {
        optional_text(identities[n - 1].me)
    } else {
        me_among(identities, list_id, n - 1)
    }
}

/// Not a task held by concrete OTHER people: someone else handles those.
pub open spec fn offered(identities: Seq<DayStartIdentity>, row: DayStartTask) -> bool {
    is_mine(
        texts(row.assignees@),
        me_among(identities, row.list_id@, identities.len() as int),
    )
}

fn is_offered(identities: &[DayStartIdentity], row: &DayStartTask) -> (r: bool)
    ensures
        r == offered(identities@, *row),
{
    let mut n: usize = identities.len();
    while n > 0
        invariant
            n <= identities.len(),
            me_among(identities@, row.list_id@, identities@.len() as int) == me_among(
                identities@,
                row.list_id@,
                n as int,
            ),
        decreases n,
    {
        if same(identities[n - 1].list_id.as_str(), row.list_id.as_str()) {
            let me = match &identities[n - 1].me {
                Some(id) => Some(id.as_str()),
                None => None,
            };
            return mine_or_unassigned(row.assignees.as_slice(), me);
        }
        n = n - 1;
    }
    mine_or_unassigned(row.assignees.as_slice(), None)
}

// ---------------------------------------------------------------------------
// The walk down
// ---------------------------------------------------------------------------

/// The rows among the first `n` whose parent is `id`, in order.
pub open spec fn children_of(rows: Seq<DayStartTask>, id: Seq<char>, n: int) -> Seq<usize>
    decreases n,
{
    if n <= 0 {
        Seq::empty()
    } else {
        let before = children_of(rows, id, n - 1);
        if optional_text(rows[n - 1].parent_id) == Some(id) {
            before.push((n - 1) as usize)
        } else {
            before
        }
    }
}

/// A walk down: what is still to be expanded, which ids were seen, and the rows
/// that were met.
pub struct Descent {
    pub stack: Seq<Seq<char>>,
    pub seen: Seq<Seq<char>>,
    pub met: Seq<usize>,
}

/// The walk after noting a child: an id is expanded once.
pub open spec fn noted(rows: Seq<DayStartTask>, walk: Descent, child: usize) -> Descent {
    let id = rows[child as int].id@;
    if walk.seen.contains(id) {
        walk
    } else {
        Descent { stack: walk.stack.push(id), seen: walk.seen.push(id), ..walk }
    }
}

/// The walk after noting children in order.
pub open spec fn noted_all(
    rows: Seq<DayStartTask>,
    walk: Descent,
    children: Seq<usize>,
) -> Descent
    decreases children.len(),
{
    if children.len() == 0 {
        walk
    } else {
        noted(rows, noted_all(rows, walk, children.drop_last()), children.last())
    }
}

/// The walk after expanding the last of its stack: all its children are met.
pub open spec fn stepped(rows: Seq<DayStartTask>, walk: Descent) -> Descent {
    let children = children_of(rows, walk.stack.last(), rows.len() as int);
    noted_all(
        rows,
        Descent {
            stack: walk.stack.drop_last(),
            seen: walk.seen,
            met: walk.met + children,
        },
        children,
    )
}

/// The walk when nothing is left to expand. Every id is put on the stack at
/// most once, so there are no more steps than rows beside the root's.
pub open spec fn descended(rows: Seq<DayStartTask>, walk: Descent, left: nat) -> Descent
    decreases left,
{
    if walk.stack.len() == 0 {
        walk
    } else if left == 0 {
        stepped(rows, walk)
    } else {
        descended(rows, stepped(rows, walk), (left - 1) as nat)
    }
}

/// The walk at its root.
pub open spec fn at_root(root: Seq<char>) -> Descent {
    Descent { stack: seq![root], seen: seq![root], met: Seq::empty() }
}

/// The rows below a root in the order of a stack walk: all children of a node,
/// then the LAST child's subtree, then the ones before it.
pub open spec fn below_in_order(rows: Seq<DayStartTask>, root: Seq<char>) -> Seq<usize> {
    descended(rows, at_root(root), rows.len()).met
}

/// Whether a row stands `depth` rows and one link below `root`: each link goes
/// from a row to any row that bears its parent's id.
pub open spec fn is_below_by(
    rows: Seq<DayStartTask>,
    root: Seq<char>,
    row: int,
    depth: nat,
) -> bool
    decreases depth,
{
    if depth == 0 {
        optional_text(rows[row].parent_id) == Some(root)
    } else {
        exists|above: int|
            0 <= above < rows.len() && optional_text(rows[row].parent_id) == Some(
                (#[trigger] rows[above]).id@,
            ) && is_below_by(rows, root, above, (depth - 1) as nat)
    }
}

/// Whether a row stands anywhere below `root`.
pub open spec fn is_below(rows: Seq<DayStartTask>, root: Seq<char>, row: int) -> bool {
    exists|depth: nat| #[trigger] is_below_by(rows, root, row, depth)
}

/// Whether something below `root` is still to be done.
pub open spec fn is_project(rows: Seq<DayStartTask>, root: Seq<char>) -> bool {
    exists|row: int|
        0 <= row < rows.len() && actionable((#[trigger] rows[row]).status) && is_below(
            rows,
            root,
            row,
        )
}

/// The rows below `root` that are still to be done and offered to the account,
/// in the order of the walk. The root is never its own descendant.
pub open spec fn actionable_below(
    rows: Seq<DayStartTask>,
    root: Seq<char>,
    identities: Seq<DayStartIdentity>,
) -> Seq<usize> {
    those(below_in_order(rows, root), comes_along(rows, root, identities))
}

/// Which rows a root brings along.
pub open spec fn comes_along(
    rows: Seq<DayStartTask>,
    root: Seq<char>,
    identities: Seq<DayStartIdentity>,
) -> spec_fn(usize) -> bool {
    |i: usize|
        rows[i as int].id@ != root && actionable(rows[i as int].status) && offered(
            identities,
            rows[i as int],
        )
}

proof fn lemma_children(rows: Seq<DayStartTask>, id: Seq<char>, n: int)
    requires
        0 <= n <= rows.len() <= usize::MAX,
    ensures
        all_below(children_of(rows, id, n), n),
        forall|k: usize|
            k < n ==> (children_of(rows, id, n).contains(k) <==> optional_text(
                (#[trigger] rows[k as int]).parent_id,
            ) == Some(id)),
    decreases n,
{
    if n > 0 {
        lemma_children(rows, id, n - 1);
        let before = children_of(rows, id, n - 1);
        let after = children_of(rows, id, n);
        assert forall|i: int| 0 <= i < after.len() implies (#[trigger] after[i]) < n by {
            if i < before.len() {
                assert(after[i] == before[i]);
            }
        }
        assert forall|k: usize| k < n implies (after.contains(k) <==> optional_text(
            (#[trigger] rows[k as int]).parent_id,
        ) == Some(id)) by {
            if k < n - 1 {
                if before.contains(k) {
                    let i = choose|i: int| 0 <= i < before.len() && before[i] == k;
                    assert(after[i] == k);
                }
                if after.contains(k) {
                    let i = choose|i: int| 0 <= i < after.len() && after[i] == k;
                    assert(i < before.len());
                    assert(before[i] == k);
                }
            } else {
                if optional_text(rows[n - 1].parent_id) == Some(id) {
                    assert(after[before.len() as int] == k);
                } else if after.contains(k) {
                    let i = choose|i: int| 0 <= i < before.len() && before[i] == k;
                    assert(before[i] < n - 1);
                }
            }
        }
    }
}

/// What holds of a walk at every step.
spec fn descending(rows: Seq<DayStartTask>, root: Seq<char>, walk: Descent) -> bool {
    &&& walk.seen.len() > 0
    &&& walk.seen[0] == root
    &&& walk.seen.no_duplicates()
    &&& forall|i: int|
        0 < i < walk.seen.len() ==> reached(rows, root, #[trigger] walk.seen[i])
    &&& forall|i: int|
        0 <= i < walk.stack.len() ==> walk.seen.contains(#[trigger] walk.stack[i])
    &&& all_below(walk.met, rows.len() as int)
    &&& forall|i: int|
        0 <= i < walk.met.len() ==> is_below(rows, root, #[trigger] walk.met[i] as int)
            && walk.seen.contains(rows[walk.met[i] as int].id@)
    &&& forall|x: Seq<char>| #[trigger]
        walk.seen.contains(x) ==> walk.stack.contains(x) || expanded_in(rows, walk.met, x)
}

/// Some row that bears this id stands below the root.
spec fn reached(rows: Seq<DayStartTask>, root: Seq<char>, id: Seq<char>) -> bool {
    exists|j: int|
        0 <= j < rows.len() && (#[trigger] rows[j]).id@ == id && is_below(rows, root, j)
}

/// All children of an id were met.
spec fn expanded_in(rows: Seq<DayStartTask>, met: Seq<usize>, id: Seq<char>) -> bool {
    forall|k: usize|
        k < rows.len() && optional_text((#[trigger] rows[k as int]).parent_id) == Some(id)
            ==> met.contains(k)
}

proof fn lemma_noted_all(rows: Seq<DayStartTask>, walk: Descent, children: Seq<usize>)
    requires
        walk.seen.no_duplicates(),
        forall|i: int|
            0 <= i < walk.stack.len() ==> walk.seen.contains(#[trigger] walk.stack[i]),
    ensures
        ({
            let after = noted_all(rows, walk, children);
            &&& after.met == walk.met
            &&& after.seen.no_duplicates()
            &&& after.stack.len() - after.seen.len() == walk.stack.len() - walk.seen.len()
            &&& walk.seen.len() <= after.seen.len()
            &&& after.seen.take(walk.seen.len() as int) == walk.seen
            &&& walk.stack.len() <= after.stack.len()
            &&& after.stack.take(walk.stack.len() as int) == walk.stack
            &&& forall|i: int|
                0 <= i < after.stack.len() ==> after.seen.contains(#[trigger] after.stack[i])
            &&& forall|i: int|
                walk.seen.len() <= i < after.seen.len() ==> after.stack.contains(
                    #[trigger] after.seen[i],
                ) && exists|k: int|
                    0 <= k < children.len() && rows[#[trigger] children[k] as int].id@
                        == after.seen[i]
            &&& forall|k: int|
                0 <= k < children.len() ==> after.seen.contains(
                    rows[#[trigger] children[k] as int].id@,
                )
        }),
    decreases children.len(),
{
    if children.len() == 0 {
        assert(walk.seen.take(walk.seen.len() as int) =~= walk.seen);
        assert(walk.stack.take(walk.stack.len() as int) =~= walk.stack);
    } else {
        let front = children.drop_last();
        lemma_noted_all(rows, walk, front);
        let mid = noted_all(rows, walk, front);
        let after = noted_all(rows, walk, children);
        let id = rows[children.last() as int].id@;
        assert(children[children.len() - 1] == children.last());
        if mid.seen.contains(id) {
            assert(after == mid);
        } else {
            assert(after.seen == mid.seen.push(id));
            assert(after.stack == mid.stack.push(id));
            assert(after.seen[mid.seen.len() as int] == id);
            assert(after.stack[mid.stack.len() as int] == id);
            assert(after.seen.take(walk.seen.len() as int) =~= mid.seen.take(
                walk.seen.len() as int,
            ));
            assert(after.stack.take(walk.stack.len() as int) =~= mid.stack.take(
                walk.stack.len() as int,
            ));
            assert forall|x: Seq<char>| mid.seen.contains(x) implies after.seen.contains(x) by {
                let i = choose|i: int| 0 <= i < mid.seen.len() && mid.seen[i] == x;
                assert(after.seen[i] == x);
            }
            assert forall|x: Seq<char>| mid.stack.contains(x) implies after.stack.contains(x) by {
                let i = choose|i: int| 0 <= i < mid.stack.len() && mid.stack[i] == x;
                assert(after.stack[i] == x);
            }
            assert forall|i: int| 0 <= i < after.stack.len() implies after.seen.contains(
                #[trigger] after.stack[i],
            ) by {
                if i < mid.stack.len() {
                    assert(after.stack[i] == mid.stack[i]);
                }
            }
        }
        assert forall|i: int| walk.seen.len() <= i < after.seen.len() implies after.stack.contains(
            #[trigger] after.seen[i],
        ) && exists|k: int|
            0 <= k < children.len() && rows[#[trigger] children[k] as int].id@
                == after.seen[i] by {
            if i < mid.seen.len() {
                assert(after.seen[i] == mid.seen[i]);
                let k = choose|k: int|
                    0 <= k < front.len() && rows[#[trigger] front[k] as int].id@ == mid.seen[i];
                assert(children[k] == front[k]);
            }
        }
        assert forall|k: int| 0 <= k < children.len() implies after.seen.contains(
            rows[#[trigger] children[k] as int].id@,
        ) by {
            if k < front.len() {
                assert(children[k] == front[k]);
            }
        }
    }
}

proof fn lemma_stepped(rows: Seq<DayStartTask>, root: Seq<char>, walk: Descent)
    requires
        descending(rows, root, walk),
        walk.stack.len() > 0,
        rows.len() <= usize::MAX,
    ensures
        descending(rows, root, stepped(rows, walk)),
        stepped(rows, walk).stack.len() - stepped(rows, walk).seen.len() == walk.stack.len()
            - walk.seen.len() - 1,
{
    let id = walk.stack.last();
    let children = children_of(rows, id, rows.len() as int);
    let popped = Descent {
        stack: walk.stack.drop_last(),
        seen: walk.seen,
        met: walk.met + children,
    };
    lemma_children(rows, id, rows.len() as int);
    lemma_noted_all(rows, popped, children);
    let after = stepped(rows, walk);
    assert(walk.stack[walk.stack.len() - 1] == id);
    assert(walk.seen.contains(id));
    assert forall|x: Seq<char>| walk.seen.contains(x) implies after.seen.contains(x) by {
        let i = choose|i: int| 0 <= i < walk.seen.len() && walk.seen[i] == x;
        assert(after.seen.take(walk.seen.len() as int)[i] == after.seen[i]);
    }
    // Every child of the expanded id stands below the root.
    assert forall|k: int| 0 <= k < children.len() implies is_below(
        rows,
        root,
        #[trigger] children[k] as int,
    ) by {
        let child = children[k];
        assert(children.contains(child));
        assert(optional_text(rows[child as int].parent_id) == Some(id));
        if id == root {
            assert(is_below_by(rows, root, child as int, 0));
        } else {
            let i = choose|i: int| 0 <= i < walk.seen.len() && walk.seen[i] == id;
            assert(reached(rows, root, walk.seen[i]));
            let j = choose|j: int|
                0 <= j < rows.len() && (#[trigger] rows[j]).id@ == id && is_below(rows, root, j);
            let depth = choose|depth: nat| #[trigger] is_below_by(rows, root, j, depth);
            assert(is_below_by(rows, root, child as int, depth + 1));
        }
    }
    assert forall|i: int| 0 < i < after.seen.len() implies reached(
        rows,
        root,
        #[trigger] after.seen[i],
    ) by {
        if i < walk.seen.len() {
            assert(after.seen.take(walk.seen.len() as int)[i] == after.seen[i]);
            assert(reached(rows, root, walk.seen[i]));
        } else {
            let k = choose|k: int|
                0 <= k < children.len() && rows[#[trigger] children[k] as int].id@
                    == after.seen[i];
            assert(rows[children[k] as int].id@ == after.seen[i]);
        }
    }
    assert(after.seen[0] == after.seen.take(walk.seen.len() as int)[0]);
    assert forall|i: int| 0 <= i < after.met.len() implies is_below(
        rows,
        root,
        #[trigger] after.met[i] as int,
    ) && after.seen.contains(rows[after.met[i] as int].id@) by {
        if i < walk.met.len() {
            assert(after.met[i] == walk.met[i]);
        } else {
            assert(after.met[i] == children[i - walk.met.len()]);
        }
    }
    assert forall|i: int| 0 <= i < after.met.len() implies (#[trigger] after.met[i])
        < rows.len() by {
        if i < walk.met.len() {
            assert(after.met[i] == walk.met[i]);
        } else {
            assert(after.met[i] == children[i - walk.met.len()]);
        }
    }
    assert forall|x: Seq<char>| #[trigger] after.seen.contains(x) implies after.stack.contains(x)
        || expanded_in(rows, after.met, x) by {
        let i = choose|i: int| 0 <= i < after.seen.len() && after.seen[i] == x;
        if i < walk.seen.len() {
            assert(after.seen.take(walk.seen.len() as int)[i] == after.seen[i]);
            assert(walk.seen.contains(x));
            if x == id {
                assert forall|k: usize|
                    k < rows.len() && optional_text((#[trigger] rows[k as int]).parent_id) == Some(
                        x,
                    ) implies after.met.contains(k) by {
                    assert(children.contains(k));
                    let c = choose|c: int| 0 <= c < children.len() && children[c] == k;
                    assert(after.met[walk.met.len() + c] == k);
                }
            } else if walk.stack.contains(x) {
                let s = choose|s: int| 0 <= s < walk.stack.len() && walk.stack[s] == x;
                assert(popped.stack[s] == x);
                assert(after.stack.take(popped.stack.len() as int)[s] == after.stack[s]);
            } else {
                assert(expanded_in(rows, walk.met, x));
                assert forall|k: usize|
                    k < rows.len() && optional_text((#[trigger] rows[k as int]).parent_id) == Some(
                        x,
                    ) implies after.met.contains(k) by {
                    assert(walk.met.contains(k));
                    let c = choose|c: int| 0 <= c < walk.met.len() && walk.met[c] == k;
                    assert(after.met[c] == k);
                }
            }
        }
    }
}

proof fn lemma_seen_bound(rows: Seq<DayStartTask>, root: Seq<char>, walk: Descent)
    requires
        descending(rows, root, walk),
    ensures
        walk.seen.len() <= rows.len() + 1,
{
    let rest = walk.seen.skip(1);
    assert(rest.no_duplicates());
    assert forall|i: int| 0 <= i < rest.len() implies borne(rows, #[trigger] rest[i]) by {
        assert(rest[i] == walk.seen[i + 1]);
        assert(reached(rows, root, walk.seen[i + 1]));
    }
    lemma_distinct_ids(rows, rest);
}

/// Whether some row bears this id.
spec fn borne(rows: Seq<DayStartTask>, id: Seq<char>) -> bool {
    exists|j: int| 0 <= j < rows.len() && (#[trigger] rows[j]).id@ == id
}

/// There are no more distinct ids than rows.
proof fn lemma_distinct_ids(rows: Seq<DayStartTask>, list: Seq<Seq<char>>)
    requires
        list.no_duplicates(),
        forall|i: int| 0 <= i < list.len() ==> borne(rows, #[trigger] list[i]),
    ensures
        list.len() <= rows.len(),
{
    let ids = Seq::new(rows.len(), |i: int| rows[i].id@);
    assert forall|x: Seq<char>| list.to_set().contains(x) implies ids.to_set().contains(x) by {
        let i = choose|i: int| 0 <= i < list.len() && list[i] == x;
        assert(borne(rows, list[i]));
        let j = choose|j: int| 0 <= j < rows.len() && (#[trigger] rows[j]).id@ == x;
        assert(ids[j] == x);
    }
    list.unique_seq_to_set();
    ids.lemma_cardinality_of_set();
    vstd::seq_lib::seq_to_set_is_finite(ids);
    vstd::set_lib::lemma_len_subset(list.to_set(), ids.to_set());
}

proof fn lemma_descended(rows: Seq<DayStartTask>, root: Seq<char>, walk: Descent, left: nat)
    requires
        descending(rows, root, walk),
        rows.len() <= usize::MAX,
        walk.stack.len() - walk.seen.len() + rows.len() <= left,
    ensures
        descending(rows, root, descended(rows, walk, left)),
        descended(rows, walk, left).stack.len() == 0,
    decreases left,
{
    if walk.stack.len() > 0 {
        lemma_stepped(rows, root, walk);
        lemma_seen_bound(rows, root, stepped(rows, walk));
        if left > 0 {
            lemma_descended(rows, root, stepped(rows, walk), (left - 1) as nat);
        }
    }
}

proof fn lemma_meets_below(
    rows: Seq<DayStartTask>,
    root: Seq<char>,
    walk: Descent,
    row: usize,
    depth: nat,
)
    requires
        descending(rows, root, walk),
        walk.stack.len() == 0,
        row < rows.len() <= usize::MAX,
        is_below_by(rows, root, row as int, depth),
    ensures
        walk.met.contains(row),
    decreases depth,
{
    if depth == 0 {
        assert(walk.seen.contains(walk.seen[0]));
        assert(expanded_in(rows, walk.met, root));
    } else {
        let above = choose|above: int|
            0 <= above < rows.len() && optional_text(rows[row as int].parent_id) == Some(
                (#[trigger] rows[above]).id@,
            ) && is_below_by(rows, root, above, (depth - 1) as nat);
        lemma_meets_below(rows, root, walk, above as usize, (depth - 1) as nat);
        let i = choose|i: int| 0 <= i < walk.met.len() && walk.met[i] == above as usize;
        assert(walk.seen.contains(rows[walk.met[i] as int].id@));
        assert(expanded_in(rows, walk.met, rows[above].id@));
    }
}

/// The walk meets exactly the rows below its root, whatever cycles the parent
/// links make.
pub proof fn the_walk_meets_what_is_below(rows: Seq<DayStartTask>, root: Seq<char>)
    requires
        rows.len() <= usize::MAX,
    ensures
        all_below(below_in_order(rows, root), rows.len() as int),
        forall|row: usize|
            row < rows.len() ==> (#[trigger] below_in_order(rows, root).contains(row)
                <==> is_below(rows, root, row as int)),
{
    let start = at_root(root);
    assert(descending(rows, root, start)) by {
        assert forall|x: Seq<char>| #[trigger] start.seen.contains(x) implies start.stack.contains(
            x,
        ) by {
            assert(start.stack =~= start.seen);
        }
        assert forall|i: int| 0 <= i < start.stack.len() implies start.seen.contains(
            #[trigger] start.stack[i],
        ) by {
            assert(start.seen[i] == start.stack[i]);
        }
    }
    lemma_descended(rows, root, start, rows.len());
    let end = descended(rows, start, rows.len());
    assert forall|row: usize| row < rows.len() implies (#[trigger] below_in_order(
        rows,
        root,
    ).contains(row) <==> is_below(rows, root, row as int)) by {
        if end.met.contains(row) {
            let i = choose|i: int| 0 <= i < end.met.len() && end.met[i] == row;
            assert(is_below(rows, root, end.met[i] as int));
        }
        if is_below(rows, root, row as int) {
            let depth = choose|depth: nat| #[trigger] is_below_by(rows, root, row as int, depth);
            lemma_meets_below(rows, root, end, row, depth);
        }
    }
}

fn find_children(rows: &[DayStartTask], id: &str) -> (r: Vec<usize>)
    ensures
        r@ == children_of(rows@, id@, rows@.len() as int),
        all_below(r@, rows@.len() as int),
{
    let mut out: Vec<usize> = Vec::new();
    let mut i: usize = 0;
    while i < rows.len()
        invariant
            i <= rows.len(),
            out@ == children_of(rows@, id@, i as int),
            all_below(out@, i as int),
        decreases rows.len() - i,
    {
        let ghost before = out@;
        if is_text(&rows[i].parent_id, id) {
            out.push(i);
        }
        i = i + 1;
        assert forall|k: int| 0 <= k < out@.len() implies (#[trigger] out@[k]) < i by {
            if k < before.len() {
                assert(out@[k] == before[k]);
            }
        }
    }
    out
}

struct Walking {
    stack: Vec<String>,
    seen: Vec<String>,
    met: Vec<usize>,
}

impl View for Walking {
    type V = Descent;

    closed spec fn view(&self) -> Descent {
        Descent { stack: texts(self.stack@), seen: texts(self.seen@), met: self.met@ }
    }
}

fn step(rows: &[DayStartTask], from: Walking) -> (r: Walking)
    requires
        from@.stack.len() > 0,
        all_below(from.met@, rows@.len() as int),
    ensures
        r@ == stepped(rows@, from@),
        all_below(r.met@, rows@.len() as int),
{
    let ghost before = from@;
    let mut walk = from;
    let top: usize = walk.stack.len() - 1;
    let id = walk.stack[top].clone();
    assert(before.stack.last() == id@);
    walk.stack.truncate(top);
    assert(texts(walk.stack@) =~= before.stack.drop_last());
    let children = find_children(rows, id.as_str());
    let mut i: usize = 0;
    while i < children.len()
        invariant
            i <= children.len(),
            all_below(children@, rows@.len() as int),
            all_below(walk.met@, rows@.len() as int),
            texts(walk.stack@) == before.stack.drop_last(),
            texts(walk.seen@) == before.seen,
            walk.met@ == before.met + children@.take(i as int),
        decreases children.len() - i,
    {
        let ghost met = walk.met@;
        walk.met.push(children[i]);
        i = i + 1;
        assert(walk.met@ =~= before.met + children@.take(i as int));
        assert forall|k: int| 0 <= k < walk.met@.len() implies (#[trigger] walk.met@[k])
            < rows@.len() by {
            if k < met.len() {
                assert(walk.met@[k] == met[k]);
            }
        }
    }
    assert(children@.take(i as int) =~= children@);
    let ghost start = walk@;
    let mut k: usize = 0;
    while k < children.len()
        invariant
            k <= children.len(),
            all_below(children@, rows@.len() as int),
            all_below(walk.met@, rows@.len() as int),
            walk@ == noted_all(rows@, start, children@.take(k as int)),
        decreases children.len() - k,
    {
        assert(children@.take(k as int + 1).drop_last() =~= children@.take(k as int));
        let at: usize = children[k];
        assert(children@.take(k as int + 1).last() == at);
        if !contains_text(walk.seen.as_slice(), rows[at].id.as_str()) {
            let name = rows[at].id.clone();
            let again = rows[at].id.clone();
            proof {
                lemma_texts_push(walk.seen@, name);
                lemma_texts_push(walk.stack@, again);
            }
            walk.seen.push(name);
            walk.stack.push(again);
        }
        k = k + 1;
    }
    assert(children@.take(k as int) =~= children@);
    walk
}

fn walk_below(rows: &[DayStartTask], root: &str) -> (r: Vec<usize>)
    ensures
        r@ == below_in_order(rows@, root@),
        all_below(r@, rows@.len() as int),
{
    let mut stack: Vec<String> = Vec::new();
    stack.push(root.to_owned());
    let mut seen: Vec<String> = Vec::new();
    seen.push(root.to_owned());
    assert(texts(stack@) =~= seq![root@]);
    assert(texts(seen@) =~= seq![root@]);
    let mut walk = Walking { stack, seen, met: Vec::new() };
    assert(walk.met@ =~= Seq::empty());
    let mut left: usize = rows.len();
    loop
        invariant
            all_below(walk.met@, rows@.len() as int),
            descended(rows@, at_root(root@), rows@.len()) == descended(
                rows@,
                walk@,
                left as nat,
            ),
        decreases left,
    {
        if walk.stack.len() == 0 {
            return walk.met;
        }
        walk = step(rows, walk);
        if left == 0 {
            return walk.met;
        }
        left = left - 1;
    }
}

/// Whether `root_id` still has an actionable task anywhere below it: a
/// "project" parent, whose subtasks are the asked-about units.
pub fn has_actionable_descendants(tasks: &[DayStartTask], root_id: &str) -> (r: bool)
    ensures
        r == is_project(tasks@, root_id@),
{
    let end: usize = tasks.len();
    let met = walk_below(tasks, root_id);
    proof {
        the_walk_meets_what_is_below(tasks@, root_id@);
    }
    let mut i: usize = 0;
    while i < met.len()
        invariant
            i <= met.len(),
            end == tasks@.len(),
            met@ == below_in_order(tasks@, root_id@),
            all_below(met@, tasks@.len() as int),
            forall|row: usize|
                row < tasks@.len() ==> (#[trigger] below_in_order(tasks@, root_id@).contains(row)
                    <==> is_below(tasks@, root_id@, row as int)),
            forall|k: int| 0 <= k < i ==> !actionable(tasks@[#[trigger] met@[k] as int].status),
        decreases met.len() - i,
    {
        let at: usize = met[i];
        if is_actionable(tasks[at].status) {
            assert(met@.contains(at));
            assert(actionable(tasks@[at as int].status));
            return true;
        }
        i = i + 1;
    }
    assert forall|row: int|
        0 <= row < tasks@.len() && actionable((#[trigger] tasks@[row]).status) implies !is_below(
        tasks@,
        root_id@,
        row,
    ) by {
        let at = row as usize;
        if below_in_order(tasks@, root_id@).contains(at) {
            let k = choose|k: int| 0 <= k < met@.len() && met@[k] == at;
            assert(!actionable(tasks@[met@[k] as int].status));
        }
    }
    false
}

fn find_actionable_below(
    tasks: &[DayStartTask],
    root_id: &str,
    identities: &[DayStartIdentity],
) -> (r: Vec<usize>)
    ensures
        r@ == actionable_below(tasks@, root_id@, identities@),
        all_below(r@, tasks@.len() as int),
{
    let met = walk_below(tasks, root_id);
    let ghost keep = comes_along(tasks@, root_id@, identities@);
    let wanted = |i: usize| -> (c: bool)
        requires
            i < tasks@.len(),
        ensures
            c == keep(i),
        {
            !same(tasks[i].id.as_str(), root_id) && is_actionable(tasks[i].status) && is_offered(
                identities,
                &tasks[i],
            )
        };
    pick(met.as_slice(), tasks.len(), wanted, Ghost(keep))
}

/// The actionable (open or in progress) tasks anywhere below `root_id`: what a
/// verdict on a parent row drags along, leaving settled ones alone.
pub fn actionable_descendants(tasks: &[DayStartTask], root_id: &str) -> (r: Vec<usize>)
    ensures
        r@ == actionable_below(tasks@, root_id@, Seq::empty()),
        all_below(r@, tasks@.len() as int),
{
    let nobody: Vec<DayStartIdentity> = Vec::new();
    assert(nobody@ =~= Seq::empty());
    find_actionable_below(tasks, root_id, nobody.as_slice())
}

/// [`actionable_descendants`] for each of `root_ids`, in the order given. With
/// identities, only the tasks that are mine or nobody's come along; the
/// carry-over batches pass them.
pub fn actionable_descendants_of(
    tasks: &[DayStartTask],
    root_ids: &[String],
    identities: &[DayStartIdentity],
) -> (r: Vec<Vec<usize>>)
    ensures
        r@.len() == root_ids@.len(),
        forall|k: int|
            0 <= k < r@.len() ==> (#[trigger] r@[k])@ == actionable_below(
                tasks@,
                root_ids@[k]@,
                identities@,
            ),
{
    let mut out: Vec<Vec<usize>> = Vec::new();
    let mut i: usize = 0;
    while i < root_ids.len()
        invariant
            i <= root_ids.len(),
            out@.len() == i,
            forall|k: int|
                0 <= k < out@.len() ==> (#[trigger] out@[k])@ == actionable_below(
                    tasks@,
                    root_ids@[k]@,
                    identities@,
                ),
        decreases root_ids.len() - i,
    {
        let below = find_actionable_below(tasks, root_ids[i].as_str(), identities);
        out.push(below);
        i = i + 1;
    }
    out
}

// ---------------------------------------------------------------------------
// The rules
// ---------------------------------------------------------------------------

/// Still to be done, not a project, and offered to the account.
pub open spec fn asked_about(
    rows: Seq<DayStartTask>,
    identities: Seq<DayStartIdentity>,
    row: DayStartTask,
) -> bool {
    !row.status.terminal() && !is_project(rows, row.id@) && offered(identities, row)
}

fn is_asked_about(
    rows: &[DayStartTask],
    identities: &[DayStartIdentity],
    row: &DayStartTask,
) -> (r: bool)
    ensures
        r == asked_about(rows@, identities@, *row),
{
    is_actionable(row.status) && !has_actionable_descendants(rows, row.id.as_str()) && is_offered(
        identities,
        row,
    )
}

/// A deadline strictly before `today` of a task that is asked about.
pub open spec fn is_overdue(
    rows: Seq<DayStartTask>,
    today: Seq<char>,
    identities: Seq<DayStartIdentity>,
    row: DayStartTask,
) -> bool {
    match present(row.deadline_date) {
        Some(deadline) => earlier(deadline, today) && asked_about(rows, identities, row),
        None => false,
    }
}

pub open spec fn overdue_rows(
    rows: Seq<DayStartTask>,
    today: Seq<char>,
    identities: Seq<DayStartIdentity>,
) -> Seq<usize> {
    those(
        positions(rows.len() as int),
        |i: usize| is_overdue(rows, today, identities, rows[i as int]),
    )
}

/// A deadline strictly before `today`, still actionable, not a "project"
/// parent (it returns once its subtasks are settled), and not a task held only
/// by others. A lapsed plan alone is no missed commitment.
pub fn overdue(tasks: &[DayStartTask], today: &str, identities: &[DayStartIdentity]) -> (r: Vec<
    usize,
>)
    ensures
        r@ == overdue_rows(tasks@, today@, identities@),
        all_below(r@, tasks@.len() as int),
{
    let ghost keep = |i: usize| is_overdue(tasks@, today@, identities@, tasks@[i as int]);
    let wanted = |i: usize| -> (c: bool)
        requires
            i < tasks@.len(),
        ensures
            c == keep(i),
        {
            match take_present(&tasks[i].deadline_date) {
                Some(deadline) => units_before(deadline, today) && is_asked_about(
                    tasks,
                    identities,
                    &tasks[i],
                ),
                None => false,
            }
        };
    let all = positions_below(tasks.len());
    pick(all.as_slice(), tasks.len(), wanted, Ghost(keep))
}

/// Whether one of the rows at these positions bears an id.
pub open spec fn has_id(rows: Seq<DayStartTask>, at: Seq<usize>, id: Seq<char>) -> bool {
    exists|k: int| 0 <= k < at.len() && rows[#[trigger] at[k] as int].id@ == id
}

fn holds_id(rows: &[DayStartTask], at: &[usize], id: &str) -> (r: bool)
    requires
        all_below(at@, rows@.len() as int),
    ensures
        r == has_id(rows@, at@, id@),
{
    let mut i: usize = 0;
    while i < at.len()
        invariant
            i <= at.len(),
            all_below(at@, rows@.len() as int),
            forall|k: int| 0 <= k < i ==> rows@[#[trigger] at@[k] as int].id@ != id@,
        decreases at.len() - i,
    {
        let k: usize = at[i];
        if same(rows[k].id.as_str(), id) {
            assert(rows@[at@[i as int] as int].id@ == id@);
            return true;
        }
        i = i + 1;
    }
    false
}

/// A plan strictly before `today` of a task that is not settled, not overdue
/// for anyone, and offered to the account.
pub open spec fn is_slipped(
    rows: Seq<DayStartTask>,
    today: Seq<char>,
    identities: Seq<DayStartIdentity>,
    row: DayStartTask,
) -> bool {
    match present(row.scheduled_date) {
        Some(plan) => !row.status.terminal() && !has_id(
            rows,
            overdue_rows(rows, today, Seq::empty()),
            row.id@,
        ) && earlier(plan, today) && offered(identities, row),
        None => false,
    }
}

pub open spec fn slipped_rows(
    rows: Seq<DayStartTask>,
    today: Seq<char>,
    identities: Seq<DayStartIdentity>,
) -> Seq<usize> {
    those(
        positions(rows.len() as int),
        |i: usize| is_slipped(rows, today, identities, rows[i as int]),
    )
}

/// The last of the first `n` rows that bears an id.
pub open spec fn last_row(rows: Seq<DayStartTask>, id: Seq<char>, n: int) -> Option<int>
    decreases n,
{
    if n <= 0 {
        None
    } else if rows[n - 1].id@ == id {
        Some(n - 1)
    } else {
        last_row(rows, id, n - 1)
    }
}

/// The parent of whatever bears an id. Of several rows the last one counts.
pub open spec fn parent_of_id(rows: Seq<DayStartTask>, id: Seq<char>) -> Option<Seq<char>> {
    match last_row(rows, id, rows.len() as int) {
        Some(k) => present(rows[k].parent_id),
        None => None,
    }
}

/// The id `height` links above the parent of a row.
pub open spec fn ancestor(rows: Seq<DayStartTask>, row: DayStartTask, height: nat) -> Option<
    Seq<char>,
>
    decreases height,
{
    if height == 0 {
        present(row.parent_id)
    } else {
        match ancestor(rows, row, (height - 1) as nat) {
            Some(id) => parent_of_id(rows, id),
            None => None,
        }
    }
}

/// Whether an ancestor of a row is among the rows at these positions.
pub open spec fn has_ancestor_in(
    rows: Seq<DayStartTask>,
    at: Seq<usize>,
    row: DayStartTask,
) -> bool {
    exists|height: nat|
        match #[trigger] ancestor(rows, row, height) {
            Some(id) => has_id(rows, at, id),
            None => false,
        }
}

pub open spec fn carried_rows(
    rows: Seq<DayStartTask>,
    today: Seq<char>,
    identities: Seq<DayStartIdentity>,
    coupled: Seq<Seq<char>>,
) -> Seq<usize> {
    let slipped = slipped_rows(rows, today, identities);
    those(
        slipped,
        |i: usize|
            !(coupled.contains(rows[i as int].list_id@) && has_ancestor_in(
                rows,
                slipped,
                rows[i as int],
            )),
    )
}

fn find_parent_of_id<'a>(rows: &'a [DayStartTask], id: &str) -> (r: Option<&'a str>)
    ensures
        optional_str(r) == parent_of_id(rows@, id@),
        r is Some ==> borne(rows@, id@),
{
    let mut n: usize = rows.len();
    while n > 0
        invariant
            n <= rows.len(),
            last_row(rows@, id@, rows@.len() as int) == last_row(rows@, id@, n as int),
        decreases n,
    {
        if same(rows[n - 1].id.as_str(), id) {
            assert(rows@[n - 1].id@ == id@);
            return take_present(&rows[n - 1].parent_id);
        }
        n = n - 1;
    }
    None
}

/// A climb that comes back to an id it has passed finds nothing new.
proof fn lemma_cycle(rows: Seq<DayStartTask>, row: DayStartTask, back: nat, at: nat, k: nat)
    requires
        back < at,
        ancestor(rows, row, back) == ancestor(rows, row, at),
    ensures
        exists|j: nat| j < at && ancestor(rows, row, k) == #[trigger] ancestor(rows, row, j),
    decreases k,
{
    if k < at {
        assert(ancestor(rows, row, k) == ancestor(rows, row, k));
    } else if k == at {
        assert(ancestor(rows, row, k) == ancestor(rows, row, back));
    } else {
        lemma_cycle(rows, row, back, at, (k - 1) as nat);
        let j = choose|j: nat|
            j < at && ancestor(rows, row, (k - 1) as nat) == #[trigger] ancestor(rows, row, j);
        assert(ancestor(rows, row, k) == ancestor(rows, row, j + 1));
        if j + 1 == at {
            assert(ancestor(rows, row, k) == ancestor(rows, row, back));
        }
    }
}

/// Above the end of a chain there is nothing.
proof fn lemma_chain_end(rows: Seq<DayStartTask>, row: DayStartTask, at: nat, k: nat)
    requires
        ancestor(rows, row, at) is None,
        at <= k,
    ensures
        ancestor(rows, row, k) is None,
    decreases k,
{
    if at < k {
        lemma_chain_end(rows, row, at, (k - 1) as nat);
    }
}

fn climbs_to(rows: &[DayStartTask], at: &[usize], row: &DayStartTask) -> (r: bool)
    requires
        all_below(at@, rows@.len() as int),
    ensures
        r == has_ancestor_in(rows@, at@, *row),
{
    let end: usize = rows.len();
    let mut climbed: Vec<String> = Vec::new();
    let mut parent = take_present(&row.parent_id);
    assert(texts(climbed@) =~= Seq::empty());
    loop
        invariant
            end == rows@.len(),
            all_below(at@, rows@.len() as int),
            texts(climbed@).no_duplicates(),
            optional_str(parent) == ancestor(rows@, *row, climbed@.len()),
            forall|k: int|
                0 <= k < climbed@.len() ==> ancestor(rows@, *row, k as nat) == Some(
                    #[trigger] texts(climbed@)[k],
                ) && !has_id(rows@, at@, texts(climbed@)[k]),
            parent is Some ==> forall|k: int|
                0 <= k < climbed@.len() ==> borne(rows@, #[trigger] texts(climbed@)[k]),
            climbed@.len() <= rows@.len() + 1,
        decreases rows@.len() + 1 - climbed@.len(),
    {
        let ghost n = climbed@.len();
        let id = match parent {
            Some(id) => id,
            None => {
                proof {
                    assert forall|height: nat|
                        match #[trigger] ancestor(rows@, *row, height) {
                            Some(x) => !has_id(rows@, at@, x),
                            None => true,
                        } by {
                        if height < n {
                            assert(ancestor(rows@, *row, height) == Some(
                                texts(climbed@)[height as int],
                            ));
                        } else {
                            lemma_chain_end(rows@, *row, n, height);
                        }
                    }
                }
                return false;
            },
        };
        if holds_id(rows, at, id) {
            assert(ancestor(rows@, *row, n) == Some(id@));
            return true;
        }
        if contains_text(climbed.as_slice(), id) {
            proof {
                let back = choose|k: int| 0 <= k < n && texts(climbed@)[k] == id@;
                assert forall|height: nat|
                    match #[trigger] ancestor(rows@, *row, height) {
                        Some(x) => !has_id(rows@, at@, x),
                        None => true,
                    } by {
                    lemma_cycle(rows@, *row, back as nat, n, height);
                    let j = choose|j: nat|
                        j < n && ancestor(rows@, *row, height) == #[trigger] ancestor(
                            rows@,
                            *row,
                            j,
                        );
                    assert(ancestor(rows@, *row, j) == Some(texts(climbed@)[j as int]));
                }
            }
            return false;
        }
        proof {
            lemma_distinct_ids(rows@, texts(climbed@));
        }
        let name = id.to_owned();
        let ghost before = texts(climbed@);
        proof {
            lemma_texts_push(climbed@, name);
        }
        climbed.push(name);
        parent = find_parent_of_id(rows, id);
        assert(texts(climbed@) == before.push(id@));
        assert(texts(climbed@).no_duplicates());
        assert forall|k: int| 0 <= k < climbed@.len() implies ancestor(rows@, *row, k as nat)
            == Some(#[trigger] texts(climbed@)[k]) && !has_id(
            rows@,
            at@,
            texts(climbed@)[k],
        ) by {
            if k < n {
                assert(texts(climbed@)[k] == before[k]);
            }
        }
        assert(parent is Some ==> forall|k: int|
            0 <= k < climbed@.len() ==> borne(rows@, #[trigger] texts(climbed@)[k])) by {
            if parent is Some {
                assert forall|k: int| 0 <= k < climbed@.len() implies borne(
                    rows@,
                    #[trigger] texts(climbed@)[k],
                ) by {
                    if k < n {
                        assert(texts(climbed@)[k] == before[k]);
                    }
                }
            }
        }
    }
}

/// A plan strictly before `today`, still actionable, not overdue (the deadline
/// section settles those), and not a task held only by others. In a list whose
/// status coupling is on, a slipped task below a slipped ancestor is left out:
/// the user decides at the root of the slipped subtree. Only the task's own
/// list is asked; the ancestor may live anywhere.
pub fn carried_over(
    tasks: &[DayStartTask],
    today: &str,
    identities: &[DayStartIdentity],
    coupled_lists: &[String],
) -> (r: Vec<usize>)
    ensures
        r@ == carried_rows(tasks@, today@, identities@, texts(coupled_lists@)),
        all_below(r@, tasks@.len() as int),
{
    let nobody: Vec<DayStartIdentity> = Vec::new();
    assert(nobody@ =~= Seq::empty());
    // Overdue for anyone: a colleague's overdue task is not carried either.
    let late = overdue(tasks, today, nobody.as_slice());
    let ghost keep = |i: usize| is_slipped(tasks@, today@, identities@, tasks@[i as int]);
    let wanted = |i: usize| -> (c: bool)
        requires
            i < tasks@.len(),
        ensures
            c == keep(i),
        {
            match take_present(&tasks[i].scheduled_date) {
                Some(plan) => is_actionable(tasks[i].status) && !holds_id(
                    tasks,
                    late.as_slice(),
                    tasks[i].id.as_str(),
                ) && units_before(plan, today) && is_offered(identities, &tasks[i]),
                None => false,
            }
        };
    let all = positions_below(tasks.len());
    let slipped = pick(all.as_slice(), tasks.len(), wanted, Ghost(keep));
    let ghost coupled = texts(coupled_lists@);
    let ghost on_top = |i: usize|
        !(coupled.contains(tasks@[i as int].list_id@) && has_ancestor_in(
            tasks@,
            slipped@,
            tasks@[i as int],
        ));
    let topmost = |i: usize| -> (c: bool)
        requires
            i < tasks@.len(),
        ensures
            c == on_top(i),
        {
            !(contains_text(coupled_lists, tasks[i].list_id.as_str()) && climbs_to(
                tasks,
                slipped.as_slice(),
                &tasks[i],
            ))
        };
    pick(slipped.as_slice(), tasks.len(), topmost, Ghost(on_top))
}

/// The text `moved_to_today` writes for a plan: today, when the plan lapsed.
pub open spec fn moved_plan(today: Seq<char>, scheduled_date: Option<Seq<char>>) -> Option<
    Seq<char>,
> {
    match scheduled_date {
        Some(plan) => if plan.len() > 0 && earlier(plan, today) {
            Some(today)
        } else {
            None
        },
        None => None,
    }
}

/// "Move the lapsed deadline to today": the deadline is `today`, and a plan
/// strictly before today comes along (a task due today and planned for
/// yesterday describes nothing anyone can act on). A plan that is today or
/// still ahead is the user's own arrangement and stays.
pub fn moved_to_today(today: &str, scheduled_date: Option<&str>) -> (r: DayStartMoved)
    ensures
        r.deadline_date@ == today@,
        optional_text(r.scheduled_date) == moved_plan(today@, optional_str(scheduled_date)),
{
    let lapsed = match scheduled_date {
        Some(plan) => !plan.is_empty() && units_before(plan, today),
        None => false,
    };
    DayStartMoved {
        deadline_date: today.to_owned(),
        scheduled_date: if lapsed {
            Some(today.to_owned())
        } else {
            None
        },
    }
}

pub open spec fn pin_rows(
    rows: Seq<DayStartTask>,
    today: Seq<char>,
    identities: Seq<DayStartIdentity>,
) -> Seq<usize> {
    those(
        positions(rows.len() as int),
        |i: usize|
            present(rows[i as int].deadline_date) == Some(today) && optional_text(
                rows[i as int].scheduled_date,
            ) != Some(today) && asked_about(rows, identities, rows[i as int]),
    )
}

/// The silent "by"-deadline pin: due `today`, still actionable, not already
/// planned for today (which keeps the batch idempotent across launches), not
/// a "project" parent, not a task held only by others.
pub fn deadline_pin_targets(
    tasks: &[DayStartTask],
    today: &str,
    identities: &[DayStartIdentity],
) -> (r: Vec<usize>)
    ensures
        r@ == pin_rows(tasks@, today@, identities@),
        all_below(r@, tasks@.len() as int),
{
    let ghost keep = |i: usize|
        present(tasks@[i as int].deadline_date) == Some(today@) && optional_text(
            tasks@[i as int].scheduled_date,
        ) != Some(today@) && asked_about(tasks@, identities@, tasks@[i as int]);
    let wanted = |i: usize| -> (c: bool)
        requires
            i < tasks@.len(),
        ensures
            c == keep(i),
        {
            let due = match take_present(&tasks[i].deadline_date) {
                Some(deadline) => same(deadline, today),
                None => false,
            };
            due && !is_text(&tasks[i].scheduled_date, today) && is_asked_about(
                tasks,
                identities,
                &tasks[i],
            )
        };
    let all = positions_below(tasks.len());
    pick(all.as_slice(), tasks.len(), wanted, Ghost(keep))
}

/// The whole days from one day key until another, where both are days.
pub open spec fn days_left(deadline_date: Option<Seq<char>>, from: Seq<char>) -> Option<int> {
    match deadline_date {
        Some(deadline) => match (day_key(deadline), day_key(from)) {
            (Some(end), Some(start)) => Some(end.number() - start.number()),
            _ => None,
        },
        None => None,
    }
}

/// Whole days from `from` until the deadline: 0 on the day, negative when
/// past, none without a deadline, or when either is not a day, rather than a
/// confident wrong number.
pub fn days_until_deadline(deadline_date: Option<&str>, from: &str) -> (r: Option<i64>)
    ensures
        match r {
            Some(n) => days_left(optional_str(deadline_date), from@) == Some(n as int),
            None => days_left(optional_str(deadline_date), from@) is None,
        },
{
    let deadline = match deadline_date {
        Some(d) => d,
        None => {
            return None;
        },
    };
    let start = match parse_day_key(from) {
        Some(d) => d,
        None => {
            return None;
        },
    };
    match parse_day_key(deadline) {
        Some(end) => Some(days_between(start, end)),
        None => None,
    }
}

pub open spec fn untimed_rows(
    rows: Seq<DayStartTask>,
    today: Seq<char>,
    identities: Seq<DayStartIdentity>,
) -> Seq<usize> {
    those(
        positions(rows.len() as int),
        |i: usize|
            optional_text(rows[i as int].scheduled_date) == Some(today)
                && rows[i as int].scheduled_time is None && asked_about(
                rows,
                identities,
                rows[i as int],
            ),
    )
}

/// Planned for `today` with no time of day: a timed task already shows on the
/// timeline.
pub fn untimed_today(
    tasks: &[DayStartTask],
    today: &str,
    identities: &[DayStartIdentity],
) -> (r: Vec<usize>)
    ensures
        r@ == untimed_rows(tasks@, today@, identities@),
        all_below(r@, tasks@.len() as int),
{
    let ghost keep = |i: usize|
        optional_text(tasks@[i as int].scheduled_date) == Some(today@)
            && tasks@[i as int].scheduled_time is None && asked_about(
            tasks@,
            identities@,
            tasks@[i as int],
        );
    let wanted = |i: usize| -> (c: bool)
        requires
            i < tasks@.len(),
        ensures
            c == keep(i),
        {
            is_text(&tasks[i].scheduled_date, today) && tasks[i].scheduled_time.is_none()
                && is_asked_about(tasks, identities, &tasks[i])
        };
    let all = positions_below(tasks.len());
    pick(all.as_slice(), tasks.len(), wanted, Ghost(keep))
}

pub open spec fn due_rows(
    rows: Seq<DayStartTask>,
    today: Seq<char>,
    identities: Seq<DayStartIdentity>,
) -> Seq<usize> {
    those(
        positions(rows.len() as int),
        |i: usize|
            optional_text(rows[i as int].deadline_date) == Some(today) && asked_about(
                rows,
                identities,
                rows[i as int],
            ),
    )
}

/// Due `today`: reminded whether or not it is already planned for today.
pub fn deadline_arrived(
    tasks: &[DayStartTask],
    today: &str,
    identities: &[DayStartIdentity],
) -> (r: Vec<usize>)
    ensures
        r@ == due_rows(tasks@, today@, identities@),
        all_below(r@, tasks@.len() as int),
{
    let ghost keep = |i: usize|
        optional_text(tasks@[i as int].deadline_date) == Some(today@) && asked_about(
            tasks@,
            identities@,
            tasks@[i as int],
        );
    let wanted = |i: usize| -> (c: bool)
        requires
            i < tasks@.len(),
        ensures
            c == keep(i),
        {
            is_text(&tasks[i].deadline_date, today) && is_asked_about(tasks, identities, &tasks[i])
        };
    let all = positions_below(tasks.len());
    pick(all.as_slice(), tasks.len(), wanted, Ghost(keep))
}

/// The window that counts for a task: its own when it is at least one day,
/// else the global one on the same terms.
pub open spec fn window_of(own: Option<u64>, global: Option<u64>) -> Option<u64> {
    match own {
        Some(n) if n >= 1 => Some(n),
        _ => match global {
            Some(n) if n >= 1 => Some(n),
            _ => None,
        },
    }
}

fn valid_window(days: Option<u64>) -> (r: Option<u64>)
    ensures
        r == window_of(days, None),
{
    match days {
        Some(n) => if n >= 1 {
            Some(n)
        } else {
            None
        },
        None => None,
    }
}

/// A deadline between one day and the window's days away.
pub open spec fn counts_down(row: DayStartTask, today: Seq<char>, global: Option<u64>) -> bool {
    match (
        window_of(row.deadline_reminder_days, global),
        days_left(optional_text(row.deadline_date), today),
    ) {
        (Some(window), Some(days)) => 1 <= days <= window,
        _ => false,
    }
}

pub open spec fn countdown_rows(
    rows: Seq<DayStartTask>,
    today: Seq<char>,
    identities: Seq<DayStartIdentity>,
    global: Option<u64>,
) -> Seq<usize> {
    those(
        positions(rows.len() as int),
        |i: usize|
            counts_down(rows[i as int], today, global) && asked_about(
                rows,
                identities,
                rows[i as int],
            ),
    )
}

fn is_counting_down(row: &DayStartTask, today: &str, global: Option<u64>) -> (r: bool)
    ensures
        r == counts_down(*row, today@, global),
{
    let window: u64 = match valid_window(row.deadline_reminder_days) {
        Some(n) => n,
        None => match valid_window(global) {
            Some(n) => n,
            None => {
                return false;
            },
        },
    };
    let deadline = match &row.deadline_date {
        Some(d) => Some(d.as_str()),
        None => None,
    };
    match days_until_deadline(deadline, today) {
        Some(days) => days >= 1 && days as u64 <= window,
        None => false,
    }
}

/// A deadline between one and the window's days away, inclusive, so a window
/// of 3 reminds three, two and one day before. A task's own window wins when
/// valid; otherwise the global one, and without either nothing is reminded.
/// The deadline day itself is [`deadline_arrived`].
pub fn deadline_countdown(
    tasks: &[DayStartTask],
    today: &str,
    identities: &[DayStartIdentity],
    days_until: Option<u64>,
) -> (r: Vec<usize>)
    ensures
        r@ == countdown_rows(tasks@, today@, identities@, days_until),
        all_below(r@, tasks@.len() as int),
{
    let ghost keep = |i: usize|
        counts_down(tasks@[i as int], today@, days_until) && asked_about(
            tasks@,
            identities@,
            tasks@[i as int],
        );
    let wanted = |i: usize| -> (c: bool)
        requires
            i < tasks@.len(),
        ensures
            c == keep(i),
        {
            is_counting_down(&tasks[i], today, days_until) && is_asked_about(
                tasks,
                identities,
                &tasks[i],
            )
        };
    let all = positions_below(tasks.len());
    pick(all.as_slice(), tasks.len(), wanted, Ghost(keep))
}

/// The rows of a group that is on, without those that share an id with a row
/// of an earlier group.
pub open spec fn not_yet(
    rows: Seq<DayStartTask>,
    on: bool,
    group: Seq<usize>,
    first: Seq<usize>,
    second: Seq<usize>,
) -> Seq<usize> {
    if on {
        those(
            group,
            |i: usize|
                !has_id(rows, first, rows[i as int].id@) && !has_id(
                    rows,
                    second,
                    rows[i as int].id@,
                ),
        )
    } else {
        Seq::empty()
    }
}

pub open spec fn reminders_for(
    rows: Seq<DayStartTask>,
    today: Seq<char>,
    identities: Seq<DayStartIdentity>,
    settings: DayStartReminderSettings,
) -> Reminders {
    let none: Seq<usize> = Seq::empty();
    let due_today = not_yet(
        rows,
        settings.remind_deadline_arrived,
        due_rows(rows, today, identities),
        none,
        none,
    );
    let untimed = not_yet(
        rows,
        settings.remind_untimed_today,
        untimed_rows(rows, today, identities),
        due_today,
        none,
    );
    let countdown = not_yet(
        rows,
        settings.remind_deadline_countdown,
        countdown_rows(rows, today, identities, settings.deadline_countdown_days),
        due_today,
        untimed,
    );
    Reminders { untimed, due_today, countdown }
}

fn leave_out(
    rows: &[DayStartTask],
    on: bool,
    group: &[usize],
    first: &[usize],
    second: &[usize],
) -> (r: Vec<usize>)
    requires
        all_below(group@, rows@.len() as int),
        all_below(first@, rows@.len() as int),
        all_below(second@, rows@.len() as int),
    ensures
        r@ == not_yet(rows@, on, group@, first@, second@),
        all_below(r@, rows@.len() as int),
{
    if !on {
        return Vec::new();
    }
    let ghost keep = |i: usize|
        !has_id(rows@, first@, rows@[i as int].id@) && !has_id(
            rows@,
            second@,
            rows@[i as int].id@,
        );
    let wanted = |i: usize| -> (c: bool)
        requires
            i < rows@.len(),
        ensures
            c == keep(i),
        {
            !holds_id(rows, first, rows[i].id.as_str()) && !holds_id(
                rows,
                second,
                rows[i].id.as_str(),
            )
        };
    pick(group, rows.len(), wanted, Ghost(keep))
}

/// The three reminders for `today`, each behind its own toggle, and each task
/// in exactly one group: due today, then planned today, then counting down,
/// decided by id, and only against the groups that are on.
pub fn reminder_groups(
    tasks: &[DayStartTask],
    today: &str,
    identities: &[DayStartIdentity],
    settings: &DayStartReminderSettings,
) -> (r: DayStartReminderGroups)
    ensures
        r@ == reminders_for(tasks@, today@, identities@, *settings),
        all_below(r.untimed@, tasks@.len() as int),
        all_below(r.due_today@, tasks@.len() as int),
        all_below(r.countdown@, tasks@.len() as int),
{
    let none: Vec<usize> = Vec::new();
    assert(none@ =~= Seq::empty());
    let due = deadline_arrived(tasks, today, identities);
    let due_today = leave_out(
        tasks,
        settings.remind_deadline_arrived,
        due.as_slice(),
        none.as_slice(),
        none.as_slice(),
    );
    let planned = untimed_today(tasks, today, identities);
    let untimed = leave_out(
        tasks,
        settings.remind_untimed_today,
        planned.as_slice(),
        due_today.as_slice(),
        none.as_slice(),
    );
    let counting = deadline_countdown(
        tasks,
        today,
        identities,
        settings.deadline_countdown_days,
    );
    let countdown = leave_out(
        tasks,
        settings.remind_deadline_countdown,
        counting.as_slice(),
        due_today.as_slice(),
        untimed.as_slice(),
    );
    DayStartReminderGroups { untimed, due_today, countdown }
}

// ---------------------------------------------------------------------------
// The plan
// ---------------------------------------------------------------------------

/// The settings of a list among the first `n`; of several, the last.
pub open spec fn settings_at(lists: Seq<DayStartListSettings>, list_id: Seq<char>, n: int) -> Option<
    int,
>
    decreases n,
{
    if n <= 0 {
        None
    } else if lists[n - 1].list_id@ == list_id {
        Some(n - 1)
    } else {
        settings_at(lists, list_id, n - 1)
    }
}

/// Whether the list of a row couples parents and subtasks.
pub open spec fn couples(lists: Seq<DayStartListSettings>, row: DayStartTask) -> bool {
    match settings_at(lists, row.list_id@, lists.len() as int) {
        Some(k) => lists[k].cascade,
        None => false,
    }
}

/// What the list of a row does with a lapsed plan.
pub open spec fn carry(lists: Seq<DayStartListSettings>, row: DayStartTask) -> CarryOverDefault {
    match settings_at(lists, row.list_id@, lists.len() as int) {
        Some(k) => lists[k].carry_over_default,
        None => CarryOverDefault::Ask,
    }
}

/// The lists that couple, by name.
pub open spec fn coupled_names(lists: Seq<DayStartListSettings>) -> Seq<Seq<char>>
    decreases lists.len(),
{
    if lists.len() == 0 {
        Seq::empty()
    } else if lists.last().cascade {
        coupled_names(lists.drop_last()).push(lists.last().list_id@)
    } else {
        coupled_names(lists.drop_last())
    }
}

/// What a silently carried row brings along.
pub open spec fn brought(
    rows: Seq<DayStartTask>,
    identities: Seq<DayStartIdentity>,
    lists: Seq<DayStartListSettings>,
    i: usize,
) -> Seq<usize> {
    if carry(lists, rows[i as int]) is Ask || !couples(lists, rows[i as int]) {
        Seq::empty()
    } else {
        actionable_below(rows, rows[i as int].id@, identities)
    }
}

/// Whether a row is brought along by one of the slipped rows: the parent
/// decides, and it is not a row of its own.
pub open spec fn is_taken(
    rows: Seq<DayStartTask>,
    identities: Seq<DayStartIdentity>,
    lists: Seq<DayStartListSettings>,
    slipped: Seq<usize>,
    i: usize,
) -> bool {
    exists|k: int|
        0 <= k < slipped.len() && brought(
            rows,
            identities,
            lists,
            #[trigger] slipped[k],
        ).contains(i)
}

/// The slipped rows that stand for themselves in lists with this default.
pub open spec fn carried_as(
    rows: Seq<DayStartTask>,
    identities: Seq<DayStartIdentity>,
    lists: Seq<DayStartListSettings>,
    slipped: Seq<usize>,
    how: CarryOverDefault,
) -> Seq<usize> {
    those(
        slipped,
        |i: usize|
            !is_taken(rows, identities, lists, slipped, i) && carry(lists, rows[i as int]) == how,
    )
}

/// Where among the first `n` targets an id stands.
pub open spec fn slot_of(rows: Seq<DayStartTask>, out: Seq<usize>, id: Seq<char>, n: int) -> Option<
    int,
>
    decreases n,
{
    if n <= 0 {
        None
    } else if rows[out[n - 1] as int].id@ == id {
        Some(n - 1)
    } else {
        slot_of(rows, out, id, n - 1)
    }
}

/// The targets with a row put in: a later row with an id already collected
/// takes the earlier one's place.
pub open spec fn placed(rows: Seq<DayStartTask>, out: Seq<usize>, i: usize) -> Seq<usize> {
    match slot_of(rows, out, rows[i as int].id@, out.len() as int) {
        Some(at) => out.update(at, i),
        None => out.push(i),
    }
}

pub open spec fn placed_all(
    rows: Seq<DayStartTask>,
    out: Seq<usize>,
    items: Seq<usize>,
) -> Seq<usize>
    decreases items.len(),
{
    if items.len() == 0 {
        out
    } else {
        placed(rows, placed_all(rows, out, items.drop_last()), items.last())
    }
}

/// What a batch writes: each root, then what it brings along.
pub open spec fn batch_targets(
    rows: Seq<DayStartTask>,
    identities: Seq<DayStartIdentity>,
    lists: Seq<DayStartListSettings>,
    roots: Seq<usize>,
) -> Seq<usize>
    decreases roots.len(),
{
    if roots.len() == 0 {
        Seq::empty()
    } else {
        placed_all(
            rows,
            placed(
                rows,
                batch_targets(rows, identities, lists, roots.drop_last()),
                roots.last(),
            ),
            brought(rows, identities, lists, roots.last()),
        )
    }
}

/// The whole morning.
pub open spec fn morning(
    rows: Seq<DayStartTask>,
    today: Seq<char>,
    identities: Seq<DayStartIdentity>,
    lists: Seq<DayStartListSettings>,
    settings: DayStartReminderSettings,
) -> Morning {
    let slipped = carried_rows(rows, today, identities, coupled_names(lists));
    let late = overdue_rows(rows, today, identities);
    let ask = carried_as(rows, identities, lists, slipped, CarryOverDefault::Ask);
    let today_rows = carried_as(rows, identities, lists, slipped, CarryOverDefault::Today);
    let backlog = carried_as(rows, identities, lists, slipped, CarryOverDefault::Backlog);
    let reminders = reminders_for(rows, today, identities, settings);
    Morning {
        overdue: late,
        ask,
        today: today_rows,
        backlog,
        today_targets: batch_targets(rows, identities, lists, today_rows),
        backlog_targets: batch_targets(rows, identities, lists, backlog),
        reminders,
        surfaced: late.len() + ask.len() + reminders.untimed.len() + reminders.due_today.len()
            + reminders.countdown.len(),
    }
}

fn find_settings(lists: &[DayStartListSettings], list_id: &str) -> (r: Option<usize>)
    ensures
        match r {
            Some(k) => settings_at(lists@, list_id@, lists@.len() as int) == Some(k as int) && k
                < lists@.len(),
            None => settings_at(lists@, list_id@, lists@.len() as int) is None,
        },
{
    let mut n: usize = lists.len();
    while n > 0
        invariant
            n <= lists.len(),
            settings_at(lists@, list_id@, lists@.len() as int) == settings_at(
                lists@,
                list_id@,
                n as int,
            ),
        decreases n,
    {
        if same(lists[n - 1].list_id.as_str(), list_id) {
            return Some(n - 1);
        }
        n = n - 1;
    }
    None
}

fn find_carry(lists: &[DayStartListSettings], row: &DayStartTask) -> (r: CarryOverDefault)
    ensures
        r == carry(lists@, *row),
{
    match find_settings(lists, row.list_id.as_str()) {
        Some(k) => lists[k].carry_over_default,
        None => CarryOverDefault::Ask,
    }
}

fn names_of_coupled(lists: &[DayStartListSettings]) -> (r: Vec<String>)
    ensures
        texts(r@) == coupled_names(lists@),
{
    let mut out: Vec<String> = Vec::new();
    assert(texts(out@) =~= Seq::empty());
    let mut i: usize = 0;
    while i < lists.len()
        invariant
            i <= lists.len(),
            texts(out@) == coupled_names(lists@.take(i as int)),
        decreases lists.len() - i,
    {
        assert(lists@.take(i as int + 1).drop_last() =~= lists@.take(i as int));
        if lists[i].cascade {
            let name = lists[i].list_id.clone();
            proof {
                lemma_texts_push(out@, name);
            }
            out.push(name);
        }
        i = i + 1;
    }
    assert(lists@.take(i as int) =~= lists@);
    out
}

fn find_brought(
    tasks: &[DayStartTask],
    identities: &[DayStartIdentity],
    lists: &[DayStartListSettings],
    at: usize,
) -> (r: Vec<usize>)
    requires
        at < tasks@.len(),
    ensures
        r@ == brought(tasks@, identities@, lists@, at),
        all_below(r@, tasks@.len() as int),
{
    let carries = match find_carry(lists, &tasks[at]) {
        CarryOverDefault::Ask => false,
        _ => true,
    };
    let coupled = match find_settings(lists, tasks[at].list_id.as_str()) {
        Some(k) => lists[k].cascade,
        None => false,
    };
    if carries && coupled {
        find_actionable_below(tasks, tasks[at].id.as_str(), identities)
    } else {
        Vec::new()
    }
}

fn holds_position(list: &[usize], wanted: usize) -> (r: bool)
    ensures
        r == list@.contains(wanted),
{
    let mut i: usize = 0;
    while i < list.len()
        invariant
            i <= list.len(),
            forall|k: int| 0 <= k < i ==> list@[k] != wanted,
        decreases list.len() - i,
    {
        if list[i] == wanted {
            return true;
        }
        i = i + 1;
    }
    false
}

fn place(tasks: &[DayStartTask], out: &mut Vec<usize>, at: usize)
    requires
        at < tasks@.len(),
        all_below(old(out)@, tasks@.len() as int),
    ensures
        final(out)@ == placed(tasks@, old(out)@, at),
        all_below(final(out)@, tasks@.len() as int),
{
    let ghost before = out@;
    let mut n: usize = out.len();
    while n > 0
        invariant
            n <= out.len(),
            at < tasks@.len(),
            out@ == before,
            before == old(out)@,
            all_below(before, tasks@.len() as int),
            slot_of(tasks@, before, tasks@[at as int].id@, before.len() as int) == slot_of(
                tasks@,
                before,
                tasks@[at as int].id@,
                n as int,
            ),
        decreases n,
    {
        let there: usize = out[n - 1];
        if same(tasks[there].id.as_str(), tasks[at].id.as_str()) {
            out.set(n - 1, at);
            return;
        }
        n = n - 1;
    }
    out.push(at);
    assert forall|k: int| 0 <= k < out@.len() implies (#[trigger] out@[k]) < tasks@.len() by {
        if k < before.len() {
            assert(out@[k] == before[k]);
        }
    }
}

fn place_all(tasks: &[DayStartTask], out: &mut Vec<usize>, items: &[usize])
    requires
        all_below(old(out)@, tasks@.len() as int),
        all_below(items@, tasks@.len() as int),
    ensures
        final(out)@ == placed_all(tasks@, old(out)@, items@),
        all_below(final(out)@, tasks@.len() as int),
{
    let ghost before = out@;
    let mut i: usize = 0;
    while i < items.len()
        invariant
            i <= items.len(),
            all_below(out@, tasks@.len() as int),
            all_below(items@, tasks@.len() as int),
            out@ == placed_all(tasks@, before, items@.take(i as int)),
        decreases items.len() - i,
    {
        assert(items@.take(i as int + 1).drop_last() =~= items@.take(i as int));
        let at: usize = items[i];
        place(tasks, out, at);
        i = i + 1;
    }
    assert(items@.take(i as int) =~= items@);
}

fn taken(below: &[Vec<usize>], at: usize) -> (r: bool)
    ensures
        r == exists|k: int| 0 <= k < below@.len() && (#[trigger] below@[k])@.contains(at),
{
    let mut i: usize = 0;
    while i < below.len()
        invariant
            i <= below.len(),
            forall|k: int| 0 <= k < i ==> !(#[trigger] below@[k])@.contains(at),
        decreases below.len() - i,
    {
        if holds_position(below[i].as_slice(), at) {
            return true;
        }
        i = i + 1;
    }
    false
}

/// The whole morning for `today`: the overdue tasks, the slipped rows split
/// by each list's carry-over default, what the silent batches write, the
/// reminder groups, and the count that opens the review. Rows keep their input
/// order within each part. A batch writes each of its rows and, where the row's
/// list couples, the actionable tasks below it that are mine or nobody's; a
/// slipped row one of them brings along is that root's and leaves its own part.
/// Targets are keyed by id: a later row with an id already collected takes the
/// earlier one's place.
///
/// The bound on the tasks is the machine's: a task takes more than five bytes,
/// so no slice of them is longer.
pub fn plan(
    tasks: &[DayStartTask],
    today: &str,
    identities: &[DayStartIdentity],
    lists: &[DayStartListSettings],
    settings: &DayStartReminderSettings,
) -> (r: DayStartPlan)
    requires
        5 * tasks@.len() <= usize::MAX,
    ensures
        r@ == morning(tasks@, today@, identities@, lists@, *settings),
{
    let late = overdue(tasks, today, identities);
    let coupled = names_of_coupled(lists);
    let slipped = carried_over(tasks, today, identities, coupled.as_slice());
    let ghost wanted = slipped@;
    let ghost on_ask = |i: usize|
        !is_taken(tasks@, identities@, lists@, wanted, i) && carry(lists@, tasks@[i as int])
            == CarryOverDefault::Ask;
    let ghost on_today = |i: usize|
        !is_taken(tasks@, identities@, lists@, wanted, i) && carry(lists@, tasks@[i as int])
            == CarryOverDefault::Today;
    let ghost on_backlog = |i: usize|
        !is_taken(tasks@, identities@, lists@, wanted, i) && carry(lists@, tasks@[i as int])
            == CarryOverDefault::Backlog;

    // What each silently carried row brings along.
    let mut below: Vec<Vec<usize>> = Vec::new();
    let mut k: usize = 0;
    while k < slipped.len()
        invariant
            k <= slipped.len(),
            below@.len() == k,
            all_below(slipped@, tasks@.len() as int),
            forall|j: int|
                0 <= j < k ==> (#[trigger] below@[j])@ == brought(
                    tasks@,
                    identities@,
                    lists@,
                    slipped@[j],
                ) && all_below(below@[j]@, tasks@.len() as int),
        decreases slipped.len() - k,
    {
        let at: usize = slipped[k];
        let along = find_brought(tasks, identities, lists, at);
        below.push(along);
        k = k + 1;
    }

    let mut ask: Vec<usize> = Vec::new();
    let mut today_rows: Vec<usize> = Vec::new();
    let mut backlog: Vec<usize> = Vec::new();
    let mut today_targets: Vec<usize> = Vec::new();
    let mut backlog_targets: Vec<usize> = Vec::new();
    let mut i: usize = 0;
    while i < slipped.len()
        invariant
            i <= slipped.len(),
            wanted == slipped@,
            below@.len() == slipped@.len(),
            all_below(slipped@, tasks@.len() as int),
            forall|j: int|
                0 <= j < below@.len() ==> (#[trigger] below@[j])@ == brought(
                    tasks@,
                    identities@,
                    lists@,
                    slipped@[j],
                ) && all_below(below@[j]@, tasks@.len() as int),
            on_ask == (|i: usize|
                !is_taken(tasks@, identities@, lists@, wanted, i) && carry(
                    lists@,
                    tasks@[i as int],
                ) == CarryOverDefault::Ask),
            on_today == (|i: usize|
                !is_taken(tasks@, identities@, lists@, wanted, i) && carry(
                    lists@,
                    tasks@[i as int],
                ) == CarryOverDefault::Today),
            on_backlog == (|i: usize|
                !is_taken(tasks@, identities@, lists@, wanted, i) && carry(
                    lists@,
                    tasks@[i as int],
                ) == CarryOverDefault::Backlog),
            ask@ == those(wanted.take(i as int), on_ask),
            today_rows@ == those(wanted.take(i as int), on_today),
            backlog@ == those(wanted.take(i as int), on_backlog),
            all_below(today_targets@, tasks@.len() as int),
            all_below(backlog_targets@, tasks@.len() as int),
            today_targets@ == batch_targets(tasks@, identities@, lists@, today_rows@),
            backlog_targets@ == batch_targets(tasks@, identities@, lists@, backlog@),
        decreases slipped.len() - i,
    {
        assert(wanted.take(i as int + 1).drop_last() =~= wanted.take(i as int));
        let at: usize = slipped[i];
        assert(wanted.take(i as int + 1).last() == at);
        let gone = taken(below.as_slice(), at);
        proof {
            if gone {
                let j = choose|j: int|
                    0 <= j < below@.len() && (#[trigger] below@[j])@.contains(at);
                assert(brought(tasks@, identities@, lists@, wanted[j]).contains(at));
            }
            if is_taken(tasks@, identities@, lists@, wanted, at) {
                let j = choose|j: int|
                    0 <= j < wanted.len() && brought(
                        tasks@,
                        identities@,
                        lists@,
                        #[trigger] wanted[j],
                    ).contains(at);
                assert(below@[j]@.contains(at));
            }
        }
        assert(gone == is_taken(tasks@, identities@, lists@, wanted, at));
        if !gone {
            match find_carry(lists, &tasks[at]) {
                CarryOverDefault::Ask => {
                    ask.push(at);
                },
                CarryOverDefault::Today => {
                    let ghost before = today_rows@;
                    today_rows.push(at);
                    assert(today_rows@.drop_last() =~= before);
                    place(tasks, &mut today_targets, at);
                    place_all(tasks, &mut today_targets, below[i].as_slice());
                },
                CarryOverDefault::Backlog => {
                    let ghost before = backlog@;
                    backlog.push(at);
                    assert(backlog@.drop_last() =~= before);
                    place(tasks, &mut backlog_targets, at);
                    place_all(tasks, &mut backlog_targets, below[i].as_slice());
                },
            }
        }
        i = i + 1;
    }
    assert(wanted.take(i as int) =~= wanted);

    let reminders = reminder_groups(tasks, today, identities, settings);
    proof {
        lemma_part_bounds(tasks@, today@, identities@, coupled_names(lists@), *settings);
        lemma_those(wanted, on_ask);
    }
    let surfaced: usize = late.len() + ask.len() + reminders.untimed.len()
        + reminders.due_today.len() + reminders.countdown.len();
    DayStartPlan {
        overdue: late,
        ask,
        today: today_rows,
        backlog,
        today_targets,
        backlog_targets,
        reminders,
        surfaced,
    }
}

/// No part of the morning holds more rows than there are.
proof fn lemma_part_bounds(
    rows: Seq<DayStartTask>,
    today: Seq<char>,
    identities: Seq<DayStartIdentity>,
    coupled: Seq<Seq<char>>,
    settings: DayStartReminderSettings,
)
    ensures
        overdue_rows(rows, today, identities).len() <= rows.len(),
        carried_rows(rows, today, identities, coupled).len() <= rows.len(),
        reminders_for(rows, today, identities, settings).untimed.len() <= rows.len(),
        reminders_for(rows, today, identities, settings).due_today.len() <= rows.len(),
        reminders_for(rows, today, identities, settings).countdown.len() <= rows.len(),
{
    assert forall|list: Seq<usize>, keep: spec_fn(usize) -> bool| #[trigger]
        those(list, keep).len() <= list.len() by {
        lemma_those(list, keep);
    }
}

// ---------------------------------------------------------------------------
// The fire gate
// ---------------------------------------------------------------------------

/// The hours and minutes of an `HH:MM` trigger: one or two ASCII digits, a
/// colon, exactly two, nothing else.
pub open spec fn trigger_time(trigger: Seq<char>) -> Option<(nat, nat)> {
    match split_first(trigger, ':') {
        Some((hours, minutes)) => if 1 <= hours.len() <= 2 && minutes.len() == 2 && all_digits(
            hours,
        ) && all_digits(minutes) {
            Some((digits_value(hours), digits_value(minutes)))
        } else {
            None
        },
        None => None,
    }
}

/// Whether a checker with this trigger fires now.
pub open spec fn fires(
    trigger: Seq<char>,
    last_fired: Option<Seq<char>>,
    today: Seq<char>,
    now_hour: u32,
    now_minute: u32,
) -> bool {
    if trigger == "app-start"@ {
        last_fired is None
    } else if last_fired == Some(today) {
        false
    } else {
        match trigger_time(trigger) {
            Some((hours, minutes)) => if hours > 23 || minutes > 59 {
                true
            } else {
                now_hour > hours || (now_hour == hours && now_minute >= minutes)
            },
            None => true,
        }
    }
}

fn parse_trigger(trigger: &str) -> (r: Option<(u32, u32)>)
    ensures
        match r {
            Some((h, m)) => trigger_time(trigger@) == Some((h as nat, m as nat)),
            None => trigger_time(trigger@) is None,
        },
{
    let (hours, minutes) = match split_once(trigger, ':') {
        Some(pair) => pair,
        None => {
            return None;
        },
    };
    let h = chars_of(hours.as_str());
    let m = chars_of(minutes.as_str());
    if h.len() < 1 || h.len() > 2 || m.len() != 2 {
        return None;
    }
    assert(h@.subrange(0, h@.len() as int) =~= h@);
    assert(m@.subrange(0, 2) =~= m@);
    match (read_digits(h.as_slice(), 0, h.len()), read_digits(m.as_slice(), 0, 2)) {
        (Some(a), Some(b)) => Some((a, b)),
        _ => None,
    }
}

/// Whether a day-start checker fires now. `app-start` fires once, ever: only
/// while no day was recorded. `HH:MM` fires once a day, when the local clock
/// has reached it; a trigger that is not one fires at once, because an
/// unreadable setting must never silence the day start.
pub fn should_fire_today(
    trigger: &str,
    last_fired: Option<&str>,
    today: &str,
    now_hour: u32,
    now_minute: u32,
) -> (r: bool)
    ensures
        r == fires(trigger@, optional_str(last_fired), today@, now_hour, now_minute),
{
    if same(trigger, "app-start") {
        return last_fired.is_none();
    }
    if let Some(day) = last_fired {
        if same(day, today) {
            return false;
        }
    }
    match parse_trigger(trigger) {
        Some((hours, minutes)) => if hours > 23 || minutes > 59 {
            true
        } else {
            now_hour > hours || (now_hour == hours && now_minute >= minutes)
        },
        None => true,
    }
}

// ---------------------------------------------------------------------------
// One question, one answer
// ---------------------------------------------------------------------------

/// One question to the day-start rules. `today` is the day asked about: the
/// wall-clock day, or a future one the scheduler anchors to.
#[derive(Debug, Clone, PartialEq, Eq)]
pub enum DayStartQuestion {
    /// Positions, see [`overdue`].
    Overdue { tasks: Vec<DayStartTask>, today: String, identities: Vec<DayStartIdentity> },
    /// Positions, see [`carried_over`].
    CarriedOver {
        tasks: Vec<DayStartTask>,
        today: String,
        identities: Vec<DayStartIdentity>,
        /// The lists whose status coupling is on.
        coupled_lists: Vec<String>,
    },
    /// Positions, see [`actionable_descendants`].
    ActionableDescendants { tasks: Vec<DayStartTask>, root_id: String },
    /// Positions per root, see [`actionable_descendants_of`].
    ActionableDescendantsOf {
        tasks: Vec<DayStartTask>,
        root_ids: Vec<String>,
        /// With identities, only tasks that are mine or nobody's come along.
        identities: Vec<DayStartIdentity>,
    },
    /// Yes or no, see [`has_actionable_descendants`].
    HasActionableDescendants { tasks: Vec<DayStartTask>, root_id: String },
    /// [`DayStartMoved`], see [`moved_to_today`].
    MovedToToday { today: String, scheduled_date: Option<String> },
    /// Positions, see [`deadline_pin_targets`].
    DeadlinePinTargets {
        tasks: Vec<DayStartTask>,
        today: String,
        identities: Vec<DayStartIdentity>,
    },
    /// Days or none, see [`days_until_deadline`].
    DaysUntilDeadline { deadline_date: Option<String>, from: String },
    /// Positions, see [`untimed_today`].
    UntimedToday { tasks: Vec<DayStartTask>, today: String, identities: Vec<DayStartIdentity> },
    /// Positions, see [`deadline_arrived`].
    DeadlineArrived { tasks: Vec<DayStartTask>, today: String, identities: Vec<DayStartIdentity> },
    /// Positions, see [`deadline_countdown`].
    DeadlineCountdown {
        tasks: Vec<DayStartTask>,
        today: String,
        identities: Vec<DayStartIdentity>,
        /// The global window; valid when at least one day.
        days_until: Option<u64>,
    },
    /// [`DayStartReminderGroups`], see [`reminder_groups`].
    ReminderGroups {
        tasks: Vec<DayStartTask>,
        today: String,
        identities: Vec<DayStartIdentity>,
        settings: DayStartReminderSettings,
    },
    /// Yes or no, see [`should_fire_today`].
    ShouldFire {
        /// `app-start` or `HH:MM`.
        trigger: String,
        /// The day the checker last fired, if ever.
        last_fired: Option<String>,
        today: String,
        /// The local wall-clock time.
        now_hour: u32,
        now_minute: u32,
    },
    /// [`DayStartPlan`], see [`plan`].
    Plan {
        tasks: Vec<DayStartTask>,
        today: String,
        identities: Vec<DayStartIdentity>,
        /// Every list the tasks live in.
        lists: Vec<DayStartListSettings>,
        settings: DayStartReminderSettings,
    },
}

/// What a [`DayStartQuestion`] is answered.
#[derive(Debug, Clone, PartialEq, Eq)]
pub enum DayStartAnswer {
    Positions(Vec<usize>),
    PositionsPerRoot(Vec<Vec<usize>>),
    YesNo(bool),
    Moved(DayStartMoved),
    Days(Option<i64>),
    Groups(DayStartReminderGroups),
    Plan(DayStartPlan),
}

fn str_of(o: &Option<String>) -> (r: Option<&str>)
    ensures
        optional_str(r) == optional_text(*o),
{
    match o {
        Some(s) => Some(s.as_str()),
        None => None,
    }
}

/// Whether an answer is that of the question's rule.
pub open spec fn answers(question: DayStartQuestion, answer: DayStartAnswer) -> bool {
    match question {
        DayStartQuestion::Overdue { tasks, today, identities } => answer
            matches DayStartAnswer::Positions(at) && at@ == overdue_rows(
            tasks@,
            today@,
            identities@,
        ),
        DayStartQuestion::CarriedOver { tasks, today, identities, coupled_lists } => answer
            matches DayStartAnswer::Positions(at) && at@ == carried_rows(
            tasks@,
            today@,
            identities@,
            texts(coupled_lists@),
        ),
        DayStartQuestion::ActionableDescendants { tasks, root_id } => answer
            matches DayStartAnswer::Positions(at) && at@ == actionable_below(
            tasks@,
            root_id@,
            Seq::empty(),
        ),
        DayStartQuestion::ActionableDescendantsOf { tasks, root_ids, identities } => answer
            matches DayStartAnswer::PositionsPerRoot(lists) && lists@.len() == root_ids@.len()
            && forall|k: int|
            0 <= k < lists@.len() ==> (#[trigger] lists@[k])@ == actionable_below(
                tasks@,
                root_ids@[k]@,
                identities@,
            ),
        DayStartQuestion::HasActionableDescendants { tasks, root_id } => answer
            == DayStartAnswer::YesNo(is_project(tasks@, root_id@)),
        DayStartQuestion::MovedToToday { today, scheduled_date } => answer
            matches DayStartAnswer::Moved(moved) && moved.deadline_date@ == today@ && optional_text(
            moved.scheduled_date,
        ) == moved_plan(today@, optional_text(scheduled_date)),
        DayStartQuestion::DeadlinePinTargets { tasks, today, identities } => answer
            matches DayStartAnswer::Positions(at) && at@ == pin_rows(tasks@, today@, identities@),
        DayStartQuestion::DaysUntilDeadline { deadline_date, from } => answer
            matches DayStartAnswer::Days(days) && match days {
            Some(n) => days_left(optional_text(deadline_date), from@) == Some(n as int),
            None => days_left(optional_text(deadline_date), from@) is None,
        },
        DayStartQuestion::UntimedToday { tasks, today, identities } => answer
            matches DayStartAnswer::Positions(at) && at@ == untimed_rows(
            tasks@,
            today@,
            identities@,
        ),
        DayStartQuestion::DeadlineArrived { tasks, today, identities } => answer
            matches DayStartAnswer::Positions(at) && at@ == due_rows(tasks@, today@, identities@),
        DayStartQuestion::DeadlineCountdown { tasks, today, identities, days_until } => answer
            matches DayStartAnswer::Positions(at) && at@ == countdown_rows(
            tasks@,
            today@,
            identities@,
            days_until,
        ),
        DayStartQuestion::ReminderGroups { tasks, today, identities, settings } => answer
            matches DayStartAnswer::Groups(groups) && groups@ == reminders_for(
            tasks@,
            today@,
            identities@,
            settings,
        ),
        DayStartQuestion::ShouldFire { trigger, last_fired, today, now_hour, now_minute } => answer
            == DayStartAnswer::YesNo(
            fires(trigger@, optional_text(last_fired), today@, now_hour, now_minute),
        ),
        DayStartQuestion::Plan { tasks, today, identities, lists, settings } => answer
            matches DayStartAnswer::Plan(plan) && plan@ == morning(
            tasks@,
            today@,
            identities@,
            lists@,
            settings,
        ),
    }
}

/// The day-start rules behind one door: a question in, its rule's answer out.
/// The bound on a plan's tasks is that of [`plan`].
pub fn answer_day_start(question: &DayStartQuestion) -> (r: DayStartAnswer)
    requires
        question matches DayStartQuestion::Plan { tasks, .. } ==> 5 * tasks@.len() <= usize::MAX,
    ensures
        answers(*question, r),
{
    match question {
        DayStartQuestion::Overdue { tasks, today, identities } => DayStartAnswer::Positions(
            overdue(tasks.as_slice(), today.as_str(), identities.as_slice()),
        ),
        DayStartQuestion::CarriedOver { tasks, today, identities, coupled_lists } =>
            DayStartAnswer::Positions(
            carried_over(
                tasks.as_slice(),
                today.as_str(),
                identities.as_slice(),
                coupled_lists.as_slice(),
            ),
        ),
        DayStartQuestion::ActionableDescendants { tasks, root_id } => DayStartAnswer::Positions(
            actionable_descendants(tasks.as_slice(), root_id.as_str()),
        ),
        DayStartQuestion::ActionableDescendantsOf { tasks, root_ids, identities } =>
            DayStartAnswer::PositionsPerRoot(
            actionable_descendants_of(
                tasks.as_slice(),
                root_ids.as_slice(),
                identities.as_slice(),
            ),
        ),
        DayStartQuestion::HasActionableDescendants { tasks, root_id } => DayStartAnswer::YesNo(
            has_actionable_descendants(tasks.as_slice(), root_id.as_str()),
        ),
        DayStartQuestion::MovedToToday { today, scheduled_date } => DayStartAnswer::Moved(
            moved_to_today(today.as_str(), str_of(scheduled_date)),
        ),
        DayStartQuestion::DeadlinePinTargets { tasks, today, identities } =>
            DayStartAnswer::Positions(
            deadline_pin_targets(tasks.as_slice(), today.as_str(), identities.as_slice()),
        ),
        DayStartQuestion::DaysUntilDeadline { deadline_date, from } => DayStartAnswer::Days(
            days_until_deadline(str_of(deadline_date), from.as_str()),
        ),
        DayStartQuestion::UntimedToday { tasks, today, identities } => DayStartAnswer::Positions(
            untimed_today(tasks.as_slice(), today.as_str(), identities.as_slice()),
        ),
        DayStartQuestion::DeadlineArrived { tasks, today, identities } =>
            DayStartAnswer::Positions(
            deadline_arrived(tasks.as_slice(), today.as_str(), identities.as_slice()),
        ),
        DayStartQuestion::DeadlineCountdown { tasks, today, identities, days_until } =>
            DayStartAnswer::Positions(
            deadline_countdown(
                tasks.as_slice(),
                today.as_str(),
                identities.as_slice(),
                *days_until,
            ),
        ),
        DayStartQuestion::ReminderGroups { tasks, today, identities, settings } =>
            DayStartAnswer::Groups(
            reminder_groups(tasks.as_slice(), today.as_str(), identities.as_slice(), settings),
        ),
        DayStartQuestion::ShouldFire { trigger, last_fired, today, now_hour, now_minute } =>
            DayStartAnswer::YesNo(
            should_fire_today(
                trigger.as_str(),
                str_of(last_fired),
                today.as_str(),
                *now_hour,
                *now_minute,
            ),
        ),
        DayStartQuestion::Plan { tasks, today, identities, lists, settings } =>
            DayStartAnswer::Plan(
            plan(
                tasks.as_slice(),
                today.as_str(),
                identities.as_slice(),
                lists.as_slice(),
                settings,
            ),
        ),
    }
}

// ---------------------------------------------------------------------------
// Laws
// ---------------------------------------------------------------------------

/// No id is reminded in two groups.
pub proof fn a_task_is_reminded_in_one_group(
    rows: Seq<DayStartTask>,
    today: Seq<char>,
    identities: Seq<DayStartIdentity>,
    settings: DayStartReminderSettings,
    id: Seq<char>,
)
    ensures
        ({
            let groups = reminders_for(rows, today, identities, settings);
            &&& !(has_id(rows, groups.due_today, id) && has_id(rows, groups.untimed, id))
            &&& !(has_id(rows, groups.due_today, id) && has_id(rows, groups.countdown, id))
            &&& !(has_id(rows, groups.untimed, id) && has_id(rows, groups.countdown, id))
        }),
{
    let groups = reminders_for(rows, today, identities, settings);
    let none: Seq<usize> = Seq::empty();
    lemma_not_yet(
        rows,
        settings.remind_untimed_today,
        untimed_rows(rows, today, identities),
        groups.due_today,
        none,
        id,
    );
    lemma_not_yet(
        rows,
        settings.remind_deadline_countdown,
        countdown_rows(rows, today, identities, settings.deadline_countdown_days),
        groups.due_today,
        groups.untimed,
        id,
    );
}

proof fn lemma_not_yet(
    rows: Seq<DayStartTask>,
    on: bool,
    group: Seq<usize>,
    first: Seq<usize>,
    second: Seq<usize>,
    id: Seq<char>,
)
    ensures
        has_id(rows, not_yet(rows, on, group, first, second), id) ==> !has_id(rows, first, id)
            && !has_id(rows, second, id),
{
    let left = not_yet(rows, on, group, first, second);
    let keep = |i: usize|
        !has_id(rows, first, rows[i as int].id@) && !has_id(rows, second, rows[i as int].id@);
    if has_id(rows, left, id) {
        let k = choose|k: int| 0 <= k < left.len() && rows[#[trigger] left[k] as int].id@ == id;
        lemma_kept(group, keep, left[k]);
        assert(left == those(group, keep));
        assert(left.contains(left[k]));
        assert(keep(left[k]));
    }
}

/// A slipped row is never one that is overdue: the deadline section settles
/// those.
pub proof fn what_slipped_is_not_overdue(
    rows: Seq<DayStartTask>,
    today: Seq<char>,
    identities: Seq<DayStartIdentity>,
    coupled: Seq<Seq<char>>,
    i: usize,
)
    requires
        carried_rows(rows, today, identities, coupled).contains(i),
    ensures
        !overdue_rows(rows, today, identities).contains(i),
{
    let slipped = slipped_rows(rows, today, identities);
    lemma_kept(
        slipped,
        |i: usize|
            !(coupled.contains(rows[i as int].list_id@) && has_ancestor_in(
                rows,
                slipped,
                rows[i as int],
            )),
        i,
    );
    let all = positions(rows.len() as int);
    let is_it = |i: usize| is_slipped(rows, today, identities, rows[i as int]);
    lemma_kept(all, is_it, i);
    assert(is_it(i));
    let late = |i: usize| is_overdue(rows, today, identities, rows[i as int]);
    lemma_kept(all, late, i);
    if overdue_rows(rows, today, identities).contains(i) {
        let anyone: Seq<DayStartIdentity> = Seq::empty();
        let late_for_anyone = |i: usize| is_overdue(rows, today, anyone, rows[i as int]);
        lemma_kept(all, late_for_anyone, i);
        assert(late(i));
        assert(offered(anyone, rows[i as int]));
        assert(late_for_anyone(i));
        let found = overdue_rows(rows, today, anyone);
        assert(found.contains(i));
        let k = choose|k: int| 0 <= k < found.len() && found[k] == i;
        assert(rows[found[k] as int].id@ == rows[i as int].id@);
    }
}

/// Every slipped row has one place: it is brought along by another, or it is
/// asked about, or carried to today, or carried to the backlog, and no two of
/// these.
pub proof fn every_slipped_row_has_one_place(
    rows: Seq<DayStartTask>,
    identities: Seq<DayStartIdentity>,
    lists: Seq<DayStartListSettings>,
    slipped: Seq<usize>,
    i: usize,
)
    requires
        slipped.contains(i),
    ensures
        ({
            let asked = carried_as(rows, identities, lists, slipped, CarryOverDefault::Ask);
            let now = carried_as(rows, identities, lists, slipped, CarryOverDefault::Today);
            let later = carried_as(rows, identities, lists, slipped, CarryOverDefault::Backlog);
            let along = is_taken(rows, identities, lists, slipped, i);
            &&& along || asked.contains(i) || now.contains(i) || later.contains(i)
            &&& !(along && (asked.contains(i) || now.contains(i) || later.contains(i)))
            &&& !(asked.contains(i) && now.contains(i))
            &&& !(asked.contains(i) && later.contains(i))
            &&& !(now.contains(i) && later.contains(i))
        }),
{
    lemma_carried_as(rows, identities, lists, slipped, CarryOverDefault::Ask, i);
    lemma_carried_as(rows, identities, lists, slipped, CarryOverDefault::Today, i);
    lemma_carried_as(rows, identities, lists, slipped, CarryOverDefault::Backlog, i);
}

proof fn lemma_carried_as(
    rows: Seq<DayStartTask>,
    identities: Seq<DayStartIdentity>,
    lists: Seq<DayStartListSettings>,
    slipped: Seq<usize>,
    how: CarryOverDefault,
    i: usize,
)
    ensures
        carried_as(rows, identities, lists, slipped, how).contains(i) <==> slipped.contains(i)
            && !is_taken(rows, identities, lists, slipped, i) && carry(lists, rows[i as int])
            == how,
{
    let keep = |i: usize|
        !is_taken(rows, identities, lists, slipped, i) && carry(lists, rows[i as int]) == how;
    lemma_kept(slipped, keep, i);
}

/// No two of these rows bear the same id.
pub open spec fn ids_differ(rows: Seq<DayStartTask>, at: Seq<usize>) -> bool {
    forall|j: int, k: int|
        0 <= j < k < at.len() ==> rows[#[trigger] at[j] as int].id@ != rows[
        #[trigger] at[k] as int].id@
}

proof fn lemma_slot(rows: Seq<DayStartTask>, out: Seq<usize>, id: Seq<char>, n: int)
    requires
        0 <= n <= out.len(),
    ensures
        match slot_of(rows, out, id, n) {
            Some(k) => 0 <= k < n && rows[out[k] as int].id@ == id,
            None => forall|k: int| 0 <= k < n ==> rows[#[trigger] out[k] as int].id@ != id,
        },
    decreases n,
{
    if n > 0 && rows[out[n - 1] as int].id@ != id {
        lemma_slot(rows, out, id, n - 1);
    }
}

proof fn lemma_placed(rows: Seq<DayStartTask>, out: Seq<usize>, items: Seq<usize>)
    requires
        ids_differ(rows, out),
    ensures
        ids_differ(rows, placed_all(rows, out, items)),
    decreases items.len(),
{
    if items.len() > 0 {
        lemma_placed(rows, out, items.drop_last());
        let before = placed_all(rows, out, items.drop_last());
        lemma_slot(rows, before, rows[items.last() as int].id@, before.len() as int);
    }
}

/// A batch writes each id once.
pub proof fn a_batch_writes_each_id_once(
    rows: Seq<DayStartTask>,
    identities: Seq<DayStartIdentity>,
    lists: Seq<DayStartListSettings>,
    roots: Seq<usize>,
)
    ensures
        ids_differ(rows, batch_targets(rows, identities, lists, roots)),
    decreases roots.len(),
{
    if roots.len() > 0 {
        a_batch_writes_each_id_once(rows, identities, lists, roots.drop_last());
        let before = batch_targets(rows, identities, lists, roots.drop_last());
        lemma_slot(rows, before, rows[roots.last() as int].id@, before.len() as int);
        lemma_placed(
            rows,
            placed(rows, before, roots.last()),
            brought(rows, identities, lists, roots.last()),
        );
    }
}

/// Every row bears an id of its own.
pub open spec fn own_ids(rows: Seq<DayStartTask>) -> bool {
    &&& forall|j: int, k: int|
        0 <= j < k < rows.len() ==> (#[trigger] rows[j]).id@ != (#[trigger] rows[k]).id@
    &&& forall|j: int| 0 <= j < rows.len() ==> (#[trigger] rows[j]).id@.len() > 0
}

proof fn lemma_last_row(rows: Seq<DayStartTask>, id: Seq<char>, at: int, n: int)
    requires
        own_ids(rows),
        0 <= at < n <= rows.len(),
        rows[at].id@ == id,
    ensures
        last_row(rows, id, n) == Some(at),
    decreases n,
{
    if n - 1 != at {
        assert(rows[at].id@ != rows[n - 1].id@);
        lemma_last_row(rows, id, at, n - 1);
    }
}

proof fn lemma_below_has_ancestor(
    rows: Seq<DayStartTask>,
    root: Seq<char>,
    row: int,
    depth: nat,
)
    requires
        own_ids(rows),
        root.len() > 0,
        0 <= row < rows.len(),
        is_below_by(rows, root, row, depth),
    ensures
        ancestor(rows, rows[row], depth) == Some(root),
    decreases depth,
{
    if depth > 0 {
        let above = choose|above: int|
            0 <= above < rows.len() && optional_text(rows[row].parent_id) == Some(
                (#[trigger] rows[above]).id@,
            ) && is_below_by(rows, root, above, (depth - 1) as nat);
        lemma_below_has_ancestor(rows, root, above, (depth - 1) as nat);
        lemma_last_row(rows, rows[above].id@, above, rows.len() as int);
        lemma_ancestor_shift(rows, row, above, (depth - 1) as nat);
    }
}

/// What stands above a row's parent stands one link higher above the row.
proof fn lemma_ancestor_shift(rows: Seq<DayStartTask>, row: int, above: int, height: nat)
    requires
        own_ids(rows),
        0 <= above < rows.len(),
        optional_text(rows[row].parent_id) == Some(rows[above].id@),
    ensures
        ancestor(rows, rows[row], height + 1) == ancestor(rows, rows[above], height),
    decreases height,
{
    lemma_last_row(rows, rows[above].id@, above, rows.len() as int);
    if height > 0 {
        lemma_ancestor_shift(rows, row, above, (height - 1) as nat);
    } else {
        assert(ancestor(rows, rows[row], 0) == Some(rows[above].id@));
    }
}

proof fn lemma_coupled_names(lists: Seq<DayStartListSettings>, k: int)
    requires
        0 <= k < lists.len(),
        lists[k].cascade,
    ensures
        coupled_names(lists).contains(lists[k].list_id@),
    decreases lists.len(),
{
    let before = coupled_names(lists.drop_last());
    let all = coupled_names(lists);
    if k == lists.len() - 1 {
        assert(all[before.len() as int] == lists[k].list_id@);
    } else {
        assert(lists.drop_last()[k] == lists[k]);
        lemma_coupled_names(lists.drop_last(), k);
        let i = choose|i: int| 0 <= i < before.len() && before[i] == lists[k].list_id@;
        assert(all[i] == before[i]);
    }
}

proof fn lemma_settings_at(lists: Seq<DayStartListSettings>, list_id: Seq<char>, n: int)
    requires
        0 <= n <= lists.len(),
    ensures
        settings_at(lists, list_id, n) matches Some(k) ==> 0 <= k < n && lists[k].list_id@
            == list_id,
    decreases n,
{
    if n > 0 && lists[n - 1].list_id@ != list_id {
        lemma_settings_at(lists, list_id, n - 1);
    }
}

proof fn lemma_actionable_below(
    rows: Seq<DayStartTask>,
    root: Seq<char>,
    identities: Seq<DayStartIdentity>,
    i: usize,
)
    ensures
        actionable_below(rows, root, identities).contains(i) ==> below_in_order(
            rows,
            root,
        ).contains(i),
{
    lemma_kept(below_in_order(rows, root), comes_along(rows, root, identities), i);
}

/// Taking never goes both ways: a slipped row that is brought along by another
/// brings nothing itself, where every row bears an id of its own.
pub proof fn a_row_brought_along_brings_nothing(
    rows: Seq<DayStartTask>,
    today: Seq<char>,
    identities: Seq<DayStartIdentity>,
    lists: Seq<DayStartListSettings>,
    i: usize,
)
    requires
        own_ids(rows),
        rows.len() <= usize::MAX,
        carried_rows(rows, today, identities, coupled_names(lists)).contains(i),
        is_taken(
            rows,
            identities,
            lists,
            carried_rows(rows, today, identities, coupled_names(lists)),
            i,
        ),
    ensures
        brought(rows, identities, lists, i) == Seq::<usize>::empty(),
{
    let coupled = coupled_names(lists);
    let slipped = slipped_rows(rows, today, identities);
    let carried = carried_rows(rows, today, identities, coupled);
    let topmost = |i: usize|
        !(coupled.contains(rows[i as int].list_id@) && has_ancestor_in(
            rows,
            slipped,
            rows[i as int],
        ));
    lemma_kept(slipped, topmost, i);
    let k = choose|k: int|
        0 <= k < carried.len() && brought(rows, identities, lists, #[trigger] carried[k]).contains(
            i,
        );
    let root = carried[k];
    lemma_kept(slipped, topmost, root);
    assert(carried.contains(root));
    assert(slipped.contains(root));
    let is_it = |i: usize| is_slipped(rows, today, identities, rows[i as int]);
    lemma_kept(positions(rows.len() as int), is_it, root);
    lemma_kept(positions(rows.len() as int), is_it, i);
    let all = positions(rows.len() as int);
    let p = choose|p: int| 0 <= p < all.len() && all[p] == i;
    assert(i < rows.len());
    let q = choose|q: int| 0 <= q < all.len() && all[q] == root;
    assert(root < rows.len());
    let id = rows[root as int].id@;
    lemma_actionable_below(rows, id, identities, i);
    the_walk_meets_what_is_below(rows, id);
    assert(!Seq::<usize>::empty().contains(i));
    assert(below_in_order(rows, id).contains(i));
    assert(is_below(rows, id, i as int));
    let depth = choose|depth: nat| #[trigger] is_below_by(rows, id, i as int, depth);
    lemma_below_has_ancestor(rows, id, i as int, depth);
    let at = choose|at: int| 0 <= at < slipped.len() && slipped[at] == root;
    assert(rows[slipped[at] as int].id@ == id);
    assert(has_id(rows, slipped, id));
    assert(has_ancestor_in(rows, slipped, rows[i as int]));
    assert(topmost(i));
    lemma_settings_at(lists, rows[i as int].list_id@, lists.len() as int);
    if couples(lists, rows[i as int]) {
        let s = settings_at(lists, rows[i as int].list_id@, lists.len() as int).unwrap();
        lemma_coupled_names(lists, s);
    }
}

} // verus!
