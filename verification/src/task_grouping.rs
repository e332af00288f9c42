//! Grouping the task view: which group a task lands in, in which order, under
//! which header, at what depth, and whether a collapse hides it.
//!
//! The answer is a flat list of [`Row`]s in depth-first order: a real task by
//! its id, or a synthetic header carrying its [`GroupKind`], its count(s) and
//! the ids it points at. It never carries a title. The synthetic header ids
//! are part of the contract: they are persisted as collapse keys.
//!
//! In `State` mode: overdue (a fixed day already past), today, the backlog (no
//! planned day; by list, then section), the future (a fixed future day, or a
//! backlog task whose `resurface_date` is still ahead), done, cancelled. In
//! `List` mode every open task sits in its list (with sections) regardless of
//! state; only the two terminal groups stay separate. Subtasks follow their
//! parent depth-first in either mode, and a terminal subtask under an open
//! parent stays inline.

use vstd::prelude::*;

use crate::civil::{optional_day, Date, Instant, Moment, Ymd};
use crate::collation::{
    language_of, name_comes_first, name_first, title_comes_first, title_first, CollationLanguage,
};
use crate::order::{
    all_below, in_order, lemma_those, pick, positions, positions_below, stable_order, those,
};
use crate::task_assignment::{is_mine, is_mine_or_unassigned, optional_user_id, user_ids};
use crate::text::{contains_text, lemma_texts_push, optional_text, same, texts};
use crate::types::{Section, TaskStatus, TaskUser};

verus! {

/// The id of the "done" header.
pub const DONE_GROUP_ID: &'static str = "__aperio_done_group__";

/// The id of the "backlog" header.
pub const BACKLOG_GROUP_ID: &'static str = "__aperio_backlog_group__";

/// The id of the "future" header.
pub const DEFERRED_GROUP_ID: &'static str = "__aperio_deferred_group__";

/// The id of the "overdue" header.
pub const OVERDUE_GROUP_ID: &'static str = "__aperio_overdue_group__";

/// The id of the "today" header.
pub const TODAY_GROUP_ID: &'static str = "__aperio_today_group__";

/// The id of the "cancelled" header.
pub const CANCELLED_GROUP_ID: &'static str = "__aperio_cancelled_group__";

/// What the rule reads of a task.
#[derive(Debug, Clone, PartialEq, Eq)]
pub struct GroupableTask {
    pub id: String,
    pub list_id: String,
    pub title: String,
    pub status: TaskStatus,
    /// The priority band the task sorts in, the first band being 0. How many
    /// bands there are is the user's setting.
    pub band: u32,
    pub scheduled_date: Option<Date>,
    pub resurface_date: Option<Date>,
    pub parent_id: Option<String>,
    pub section_id: Option<String>,
    pub assignees: Vec<TaskUser>,
    pub updated_at: Instant,
    pub completed_at: Option<Instant>,
}

/// How the top level is grouped.
#[derive(Debug, Clone, Copy, PartialEq, Eq, Structural)]
pub enum GroupBy {
    /// By lifecycle.
    State,
    /// Every open task in its own list (and sections), regardless of state;
    /// only the terminal groups stay separate.
    List,
}

impl Default for GroupBy {
    fn default() -> (r: GroupBy)
        ensures
            r == GroupBy::State,
    {
        GroupBy::State
    }
}

/// A list's display name.
#[derive(Debug, Clone, PartialEq, Eq)]
pub struct ListName {
    pub list_id: String,
    pub name: String,
}

/// A list's sections.
#[derive(Debug, Clone, PartialEq, Eq)]
pub struct ListSections {
    pub list_id: String,
    pub sections: Vec<Section>,
}

/// The connected user of a list.
#[derive(Debug, Clone, PartialEq, Eq)]
pub struct ListUser {
    pub list_id: String,
    pub user: Option<TaskUser>,
}

/// Everything the rule needs, and nothing it does not.
#[derive(Debug, Clone, PartialEq, Eq)]
pub struct GroupingInput {
    pub tasks: Vec<GroupableTask>,
    /// Names of lists. A list absent here is named, and ordered, by its id.
    pub lists: Vec<ListName>,
    /// The sections of lists, in any order: they are sorted by name here.
    pub sections: Vec<ListSections>,
    /// The day the deferred gate and the time groups compare against.
    pub today: Date,
    /// The connected users of lists, for the mine/others split. A list absent
    /// here or without a user is a personal one: everything counts as mine.
    pub current_user_by_list: Vec<ListUser>,
    pub group_by: GroupBy,
    /// Ids whose children are hidden: task ids and header ids alike.
    pub collapsed: Vec<String>,
    /// The language tag, for the collation of titles and names.
    pub language: String,
}

/// What kind of header a synthetic row is.
#[derive(Debug, Clone, Copy, PartialEq, Eq, Structural)]
pub enum GroupKind {
    Backlog,
    List,
    Section,
    Done,
    Deferred,
    Overdue,
    Today,
    Cancelled,
}

/// What it takes to word a header, and to find it again.
#[derive(Debug, Clone, PartialEq, Eq)]
pub struct GroupHead {
    pub kind: GroupKind,
    /// The enclosing header's id; `None` at the top level.
    pub parent_id: Option<String>,
    /// The owning list, for list and section headers.
    pub list_id: Option<String>,
    /// The section, for section headers.
    pub section_id: Option<String>,
    /// Tasks under this header. The whole subtree for the active groups; the
    /// top-level items only for the terminal ones.
    pub count: usize,
    /// Present only when the done group splits: tasks that are mine or
    /// nobody's.
    pub mine: Option<usize>,
    /// Present only when the done group splits: tasks assigned to others.
    pub others: Option<usize>,
}

/// One row of the flattened tree, in depth-first order.
#[derive(Debug, Clone, PartialEq, Eq)]
pub struct Row {
    /// A task id, or a synthetic header id.
    pub id: String,
    /// 0 at the top; one more per nesting level.
    pub depth: usize,
    /// An ancestor is collapsed. The row stays in the list so the index space
    /// is stable across a collapse.
    pub hidden: bool,
    pub has_children: bool,
    /// Present when the row is a header rather than a task.
    pub group: Option<GroupHead>,
}

/// What a [`GroupHead`] holds.
pub struct HeadText {
    pub kind: GroupKind,
    pub parent_id: Option<Seq<char>>,
    pub list_id: Option<Seq<char>>,
    pub section_id: Option<Seq<char>>,
    pub count: int,
    pub mine: Option<usize>,
    pub others: Option<usize>,
}

/// What a [`Row`] holds.
pub struct RowText {
    pub id: Seq<char>,
    pub depth: int,
    pub hidden: bool,
    pub has_children: bool,
    pub group: Option<HeadText>,
}

impl View for GroupHead {
    type V = HeadText;

    open spec fn view(&self) -> HeadText {
        HeadText {
            kind: self.kind,
            parent_id: optional_text(self.parent_id),
            list_id: optional_text(self.list_id),
            section_id: optional_text(self.section_id),
            count: self.count as int,
            mine: self.mine,
            others: self.others,
        }
    }
}

impl View for Row {
    type V = RowText;

    open spec fn view(&self) -> RowText {
        RowText {
            id: self.id@,
            depth: self.depth as int,
            hidden: self.hidden,
            has_children: self.has_children,
            group: match self.group {
                Some(g) => Some(g@),
                None => None,
            },
        }
    }
}

/// What a list of rows holds.
pub open spec fn row_texts(rows: Seq<Row>) -> Seq<RowText> {
    Seq::new(rows.len(), |i: int| rows[i]@)
}

proof fn lemma_row_push(rows: Seq<Row>, row: Row)
    ensures
        row_texts(rows.push(row)) == row_texts(rows).push(row@),
{
    assert(row_texts(rows.push(row)) =~= row_texts(rows).push(row@));
}

/// A backlog task is **deferred** when its `resurface_date` is strictly after
/// `today`.
pub open spec fn is_deferred(resurface: Option<Ymd>, today: Ymd) -> bool {
    match resurface {
        Some(day) => today.before(day),
        None => false,
    }
}

/// Whether a task is waiting to come back and is held out of the active
/// backlog. One gate for every backlog surface.
pub fn is_task_deferred(resurface_date: Option<Date>, today: Date) -> (r: bool)
    ensures
        r == is_deferred(optional_day(resurface_date), today@),
{
    match resurface_date {
        Some(day) => today.before(&day),
        None => false,
    }
}

// ---------------------------------------------------------------------------
// Parents and children
// ---------------------------------------------------------------------------

/// A task in the snapshot has this id.
pub open spec fn has_id(tasks: Seq<GroupableTask>, id: Seq<char>) -> bool {
    exists|i: int| 0 <= i < tasks.len() && (#[trigger] tasks[i]).id@ == id
}

/// The parent a task hangs under. One that is not in the snapshot is none.
pub open spec fn parent_of(tasks: Seq<GroupableTask>, i: int) -> Option<Seq<char>> {
    match optional_text(tasks[i].parent_id) {
        Some(p) => if has_id(tasks, p) {
            Some(p)
        } else {
            None
        },
        None => None,
    }
}

/// The tasks among the first `n` that hang under `id`, as they came.
pub open spec fn hanging_under(
    tasks: Seq<GroupableTask>,
    cuts: Seq<(Seq<char>, Seq<char>)>,
    id: Seq<char>,
    n: int,
) -> Seq<usize>
    decreases n,
{
    if n <= 0 {
        Seq::empty()
    } else {
        let before = hanging_under(tasks, cuts, id, n - 1);
        if parent_of(tasks, n - 1) == Some(id) && !cuts.contains((id, tasks[n - 1].id@)) {
            before.push((n - 1) as usize)
        } else {
            before
        }
    }
}

/// The tasks that hang under `id`, as they came. A link that was cut counts no
/// more.
pub open spec fn children_of(
    tasks: Seq<GroupableTask>,
    cuts: Seq<(Seq<char>, Seq<char>)>,
    id: Seq<char>,
) -> Seq<usize> {
    hanging_under(tasks, cuts, id, tasks.len() as int)
}

/// The tasks among the first `n` that hang under none, as they came.
pub open spec fn roots(tasks: Seq<GroupableTask>, n: int) -> Seq<usize>
    decreases n,
{
    if n <= 0 {
        Seq::empty()
    } else {
        let before = roots(tasks, n - 1);
        if parent_of(tasks, n - 1) is None {
            before.push((n - 1) as usize)
        } else {
            before
        }
    }
}

// ---------------------------------------------------------------------------
// The cycle guard
// ---------------------------------------------------------------------------
//
// Parent links can come from outside, and a parent CYCLE has no top-level
// member: without the guard every task in it, and everything below, would
// vanish. Each task that nothing at the top leads to has its chain of parents
// chased onto the cycle, and the member found there is promoted to the top,
// its link to its parent cut.

/// The ids reached from a task, after those already reached. No chain of new
/// ids is longer than the tasks are many, which is what `depth` allows.
pub open spec fn reached_from(
    tasks: Seq<GroupableTask>,
    cuts: Seq<(Seq<char>, Seq<char>)>,
    i: usize,
    reached: Seq<Seq<char>>,
    depth: nat,
) -> Seq<Seq<char>>
    decreases depth, 0int, 0int,
{
    let id = tasks[i as int].id@;
    if depth == 0 || reached.contains(id) {
        reached
    } else {
        reached_from_all(tasks, cuts, children_of(tasks, cuts, id), reached.push(id), (depth - 1) as nat)
    }
}

/// The ids reached from a list of tasks.
pub open spec fn reached_from_all(
    tasks: Seq<GroupableTask>,
    cuts: Seq<(Seq<char>, Seq<char>)>,
    list: Seq<usize>,
    reached: Seq<Seq<char>>,
    depth: nat,
) -> Seq<Seq<char>>
    decreases depth, 1int, list.len(),
{
    if list.len() == 0 {
        reached
    } else {
        reached_from(
            tasks,
            cuts,
            list.last(),
            reached_from_all(tasks, cuts, list.drop_last(), reached, depth),
            depth,
        )
    }
}

/// The last task among the first `n` with this id.
pub open spec fn last_with_id(tasks: Seq<GroupableTask>, id: Seq<char>, n: int) -> Option<usize>
    decreases n,
{
    if n <= 0 {
        None
    } else if tasks[n - 1].id@ == id {
        Some((n - 1) as usize)
    } else {
        last_with_id(tasks, id, n - 1)
    }
}

/// The member of a cycle that the chain of parents above `i` leads onto: the
/// one whose parent would be walked again.
pub open spec fn cycle_member(
    tasks: Seq<GroupableTask>,
    i: usize,
    walked: Seq<Seq<char>>,
    steps: nat,
) -> usize
    decreases steps,
{
    match optional_text(tasks[i as int].parent_id) {
        None => i,
        Some(parent) => match last_with_id(tasks, parent, tasks.len() as int) {
            None => i,
            Some(p) => if steps == 0 || walked.contains(parent) {
                i
            } else {
                cycle_member(tasks, p, walked.push(parent), (steps - 1) as nat)
            },
        },
    }
}

/// How far the guard has come.
pub struct Guard {
    /// The tasks at the top.
    pub top: Seq<usize>,
    /// The cut links, as parent and child.
    pub cuts: Seq<(Seq<char>, Seq<char>)>,
    /// The ids that the top leads to.
    pub reached: Seq<Seq<char>>,
}

/// The guard after it has looked at the first `n` tasks.
pub open spec fn guarded(tasks: Seq<GroupableTask>, n: int) -> Guard
    decreases n,
{
    if n <= 0 {
        let top = roots(tasks, tasks.len() as int);
        Guard {
            top,
            cuts: Seq::empty(),
            reached: reached_from_all(tasks, Seq::empty(), top, Seq::empty(), tasks.len()),
        }
    } else {
        let before = guarded(tasks, n - 1);
        let id = tasks[n - 1].id@;
        if before.reached.contains(id) {
            before
        } else {
            let member = cycle_member(tasks, (n - 1) as usize, seq![id], tasks.len());
            let cuts = match optional_text(tasks[member as int].parent_id) {
                Some(parent) => before.cuts.push((parent, tasks[member as int].id@)),
                None => before.cuts,
            };
            Guard {
                top: before.top.push(member),
                cuts,
                reached: reached_from(tasks, cuts, member, before.reached, tasks.len()),
            }
        }
    }
}

/// The top level and the cut links once every task is led to.
pub open spec fn settled(tasks: Seq<GroupableTask>) -> Guard {
    guarded(tasks, tasks.len() as int)
}

struct Cut {
    parent: String,
    child: String,
}

spec fn cut_texts(cuts: Seq<Cut>) -> Seq<(Seq<char>, Seq<char>)> {
    Seq::new(cuts.len(), |i: int| (cuts[i].parent@, cuts[i].child@))
}

fn is_cut(cuts: &[Cut], parent: &str, child: &str) -> (r: bool)
    ensures
        r == cut_texts(cuts@).contains((parent@, child@)),
{
    let ghost all = cut_texts(cuts@);
    let mut i: usize = 0;
    while i < cuts.len()
        invariant
            i <= cuts.len(),
            all == cut_texts(cuts@),
            forall|j: int| 0 <= j < i ==> #[trigger] all[j] != (parent@, child@),
        decreases cuts.len() - i,
    {
        if same(cuts[i].parent.as_str(), parent) && same(cuts[i].child.as_str(), child) {
            assert(all[i as int] == (parent@, child@));
            return true;
        }
        i = i + 1;
    }
    false
}

fn any_with_id(tasks: &[GroupableTask], id: &str) -> (r: bool)
    ensures
        r == has_id(tasks@, id@),
{
    let mut i: usize = 0;
    while i < tasks.len()
        invariant
            i <= tasks.len(),
            forall|j: int| 0 <= j < i ==> (#[trigger] tasks@[j]).id@ != id@,
        decreases tasks.len() - i,
    {
        if same(tasks[i].id.as_str(), id) {
            return true;
        }
        i = i + 1;
    }
    false
}

/// Whether the task at `i` hangs under `id`.
fn hangs_under(tasks: &[GroupableTask], i: usize, id: &str) -> (r: bool)
    requires
        i < tasks@.len(),
    ensures
        r == (parent_of(tasks@, i as int) == Some(id@)),
{
    match &tasks[i].parent_id {
        Some(p) => same(p.as_str(), id) && any_with_id(tasks, id),
        None => false,
    }
}

proof fn lemma_hanging_below(
    tasks: Seq<GroupableTask>,
    cuts: Seq<(Seq<char>, Seq<char>)>,
    id: Seq<char>,
    n: int,
)
    requires
        0 <= n <= tasks.len(),
        tasks.len() <= usize::MAX,
    ensures
        all_below(hanging_under(tasks, cuts, id, n), n),
    decreases n,
{
    if n > 0 {
        lemma_hanging_below(tasks, cuts, id, n - 1);
        let before = hanging_under(tasks, cuts, id, n - 1);
        assert(forall|k: int| 0 <= k < before.len() ==> (#[trigger] before[k]) < n - 1);
    }
}

fn children(tasks: &[GroupableTask], cuts: &[Cut], id: &str) -> (r: Vec<usize>)
    ensures
        r@ == children_of(tasks@, cut_texts(cuts@), id@),
        all_below(r@, tasks@.len() as int),
{
    let mut out: Vec<usize> = Vec::new();
    let mut i: usize = 0;
    while i < tasks.len()
        invariant
            i <= tasks.len(),
            out@ == hanging_under(tasks@, cut_texts(cuts@), id@, i as int),
        decreases tasks.len() - i,
    {
        if hangs_under(tasks, i, id) && !is_cut(cuts, id, tasks[i].id.as_str()) {
            out.push(i);
        }
        i = i + 1;
    }
    proof {
        lemma_hanging_below(tasks@, cut_texts(cuts@), id@, tasks@.len() as int);
    }
    out
}

proof fn lemma_roots_below(tasks: Seq<GroupableTask>, n: int)
    requires
        0 <= n <= tasks.len(),
        tasks.len() <= usize::MAX,
    ensures
        all_below(roots(tasks, n), n),
    decreases n,
{
    if n > 0 {
        lemma_roots_below(tasks, n - 1);
        let before = roots(tasks, n - 1);
        assert(forall|k: int| 0 <= k < before.len() ==> (#[trigger] before[k]) < n - 1);
    }
}

fn top_tasks(tasks: &[GroupableTask]) -> (r: Vec<usize>)
    ensures
        r@ == roots(tasks@, tasks@.len() as int),
        all_below(r@, tasks@.len() as int),
{
    let mut out: Vec<usize> = Vec::new();
    let mut i: usize = 0;
    while i < tasks.len()
        invariant
            i <= tasks.len(),
            out@ == roots(tasks@, i as int),
        decreases tasks.len() - i,
    {
        let has_parent = match &tasks[i].parent_id {
            Some(p) => any_with_id(tasks, p.as_str()),
            None => false,
        };
        if !has_parent {
            out.push(i);
        }
        i = i + 1;
    }
    proof {
        lemma_roots_below(tasks@, tasks@.len() as int);
    }
    out
}

fn mark_reachable(
    tasks: &[GroupableTask],
    cuts: &[Cut],
    at: usize,
    reached: Vec<String>,
    depth: usize,
) -> (r: Vec<String>)
    requires
        at < tasks@.len(),
    ensures
        texts(r@) == reached_from(
            tasks@,
            cut_texts(cuts@),
            at,
            texts(reached@),
            depth as nat,
        ),
    decreases depth, 0int,
{
    if depth == 0 || contains_text(reached.as_slice(), tasks[at].id.as_str()) {
        return reached;
    }
    let mut reached = reached;
    let id = tasks[at].id.clone();
    proof {
        lemma_texts_push(reached@, id);
    }
    reached.push(id);
    let kids = children(tasks, cuts, tasks[at].id.as_str());
    mark_all_reachable(tasks, cuts, kids.as_slice(), reached, depth - 1)
}

fn mark_all_reachable(
    tasks: &[GroupableTask],
    cuts: &[Cut],
    list: &[usize],
    reached: Vec<String>,
    depth: usize,
) -> (r: Vec<String>)
    requires
        all_below(list@, tasks@.len() as int),
    ensures
        texts(r@) == reached_from_all(
            tasks@,
            cut_texts(cuts@),
            list@,
            texts(reached@),
            depth as nat,
        ),
    decreases depth, 1int,
{
    let ghost start = texts(reached@);
    let mut reached = reached;
    let mut i: usize = 0;
    while i < list.len()
        invariant
            i <= list.len(),
            all_below(list@, tasks@.len() as int),
            texts(reached@) == reached_from_all(
                tasks@,
                cut_texts(cuts@),
                list@.take(i as int),
                start,
                depth as nat,
            ),
        decreases list.len() - i,
    {
        assert(list@.take(i as int + 1).drop_last() =~= list@.take(i as int));
        reached = mark_reachable(tasks, cuts, list[i], reached, depth);
        i = i + 1;
    }
    assert(list@.take(i as int) =~= list@);
    reached
}

fn find_last(tasks: &[GroupableTask], id: &str) -> (r: Option<usize>)
    ensures
        r == last_with_id(tasks@, id@, tasks@.len() as int),
        r matches Some(p) ==> p < tasks@.len() && tasks@[p as int].id@ == id@,
{
    let mut n: usize = tasks.len();
    while n > 0
        invariant
            n <= tasks.len(),
            last_with_id(tasks@, id@, tasks@.len() as int) == last_with_id(tasks@, id@, n as int),
        decreases n,
    {
        if same(tasks[n - 1].id.as_str(), id) {
            return Some(n - 1);
        }
        n = n - 1;
    }
    None
}

fn find_member(tasks: &[GroupableTask], from: usize) -> (r: usize)
    requires
        from < tasks@.len(),
    ensures
        r == cycle_member(tasks@, from, seq![tasks@[from as int].id@], tasks@.len()),
        r < tasks@.len(),
{
    let mut walked: Vec<String> = Vec::new();
    walked.push(tasks[from].id.clone());
    assert(texts(walked@) =~= seq![tasks@[from as int].id@]);
    let mut member: usize = from;
    let mut steps: usize = tasks.len();
    loop
        invariant
            member < tasks@.len(),
            cycle_member(tasks@, from, seq![tasks@[from as int].id@], tasks@.len())
                == cycle_member(tasks@, member, texts(walked@), steps as nat),
        decreases steps,
    {
        let parent = match &tasks[member].parent_id {
            Some(p) => p,
            None => {
                return member;
            },
        };
        let next = match find_last(tasks, parent.as_str()) {
            Some(p) => p,
            None => {
                return member;
            },
        };
        if steps == 0 || contains_text(walked.as_slice(), parent.as_str()) {
            return member;
        }
        let name = parent.clone();
        proof {
            lemma_texts_push(walked@, name);
        }
        walked.push(name);
        member = next;
        steps = steps - 1;
    }
}

struct Settled {
    top: Vec<usize>,
    cuts: Vec<Cut>,
}

fn settle(tasks: &[GroupableTask]) -> (r: Settled)
    ensures
        r.top@ == settled(tasks@).top,
        cut_texts(r.cuts@) == settled(tasks@).cuts,
        all_below(r.top@, tasks@.len() as int),
{
    let mut top = top_tasks(tasks);
    let mut cuts: Vec<Cut> = Vec::new();
    assert(cut_texts(cuts@) =~= Seq::empty());
    let none: Vec<String> = Vec::new();
    assert(texts(none@) =~= Seq::empty());
    let mut reached = mark_all_reachable(
        tasks,
        cuts.as_slice(),
        top.as_slice(),
        none,
        tasks.len(),
    );
    let mut i: usize = 0;
    while i < tasks.len()
        invariant
            i <= tasks.len(),
            all_below(top@, tasks@.len() as int),
            guarded(tasks@, i as int) == (Guard {
                top: top@,
                cuts: cut_texts(cuts@),
                reached: texts(reached@),
            }),
        decreases tasks.len() - i,
    {
        if !contains_text(reached.as_slice(), tasks[i].id.as_str()) {
            let member = find_member(tasks, i);
            if let Some(parent) = &tasks[member].parent_id {
                let ghost before = cut_texts(cuts@);
                cuts.push(Cut { parent: parent.clone(), child: tasks[member].id.clone() });
                assert(cut_texts(cuts@) =~= before.push(
                    (parent@, tasks@[member as int].id@),
                ));
            }
            top.push(member);
            reached = mark_reachable(tasks, cuts.as_slice(), member, reached, tasks.len());
        }
        i = i + 1;
    }
    Settled { top, cuts }
}

// ---------------------------------------------------------------------------
// Order, counts and task rows
// ---------------------------------------------------------------------------

/// Sibling order everywhere: priority band first, then the title, natural.
pub open spec fn task_order(input: GroupingInput) -> spec_fn(usize, usize) -> bool {
    |a: usize, b: usize|
        {
            let x = input.tasks@[a as int];
            let y = input.tasks@[b as int];
            x.band < y.band || x.band == y.band && title_first(
                x.title@,
                y.title@,
                language_of(input.language@),
            )
        }
}

/// The subtasks of a task, in sibling order.
pub open spec fn subtasks(
    input: GroupingInput,
    cuts: Seq<(Seq<char>, Seq<char>)>,
    id: Seq<char>,
) -> Seq<usize> {
    in_order(children_of(input.tasks@, cuts, id), task_order(input))
}

/// A task and everything below it. No line of descent is longer than the tasks
/// are many, which is what `depth` allows.
pub open spec fn family_of(
    tasks: Seq<GroupableTask>,
    cuts: Seq<(Seq<char>, Seq<char>)>,
    i: usize,
    depth: nat,
) -> Seq<usize>
    decreases depth, 0int, 0int,
{
    if depth == 0 {
        Seq::empty()
    } else {
        seq![i] + families(
            tasks,
            cuts,
            children_of(tasks, cuts, tasks[i as int].id@),
            (depth - 1) as nat,
        )
    }
}

/// Tasks and everything below them.
pub open spec fn families(
    tasks: Seq<GroupableTask>,
    cuts: Seq<(Seq<char>, Seq<char>)>,
    list: Seq<usize>,
    depth: nat,
) -> Seq<usize>
    decreases depth, 1int, list.len(),
{
    if list.len() == 0 {
        Seq::empty()
    } else {
        families(tasks, cuts, list.drop_last(), depth) + family_of(
            tasks,
            cuts,
            list.last(),
            depth,
        )
    }
}

/// How many tasks stand under a header with these tasks: they and their
/// subtasks.
pub open spec fn total_under(
    input: GroupingInput,
    cuts: Seq<(Seq<char>, Seq<char>)>,
    list: Seq<usize>,
) -> int {
    families(input.tasks@, cuts, list, input.tasks@.len()).len() as int
}

pub open spec fn is_collapsed(input: GroupingInput, id: Seq<char>) -> bool {
    texts(input.collapsed@).contains(id)
}

/// The rows of a task: its own, then those of its subtasks one level deeper.
pub open spec fn task_rows(
    input: GroupingInput,
    cuts: Seq<(Seq<char>, Seq<char>)>,
    i: usize,
    level: int,
    hidden: bool,
    depth: nat,
) -> Seq<RowText>
    decreases depth, 0int, 0int,
{
    if depth == 0 {
        Seq::empty()
    } else {
        let id = input.tasks@[i as int].id@;
        let kids = subtasks(input, cuts, id);
        seq![RowText { id, depth: level, hidden, has_children: kids.len() > 0, group: None }]
            + rows_of_tasks(
            input,
            cuts,
            kids,
            level + 1,
            hidden || is_collapsed(input, id),
            (depth - 1) as nat,
        )
    }
}

/// The rows of tasks, one after the other.
pub open spec fn rows_of_tasks(
    input: GroupingInput,
    cuts: Seq<(Seq<char>, Seq<char>)>,
    list: Seq<usize>,
    level: int,
    hidden: bool,
    depth: nat,
) -> Seq<RowText>
    decreases depth, 1int, list.len(),
{
    if list.len() == 0 {
        Seq::empty()
    } else {
        rows_of_tasks(input, cuts, list.drop_last(), level, hidden, depth) + task_rows(
            input,
            cuts,
            list.last(),
            level,
            hidden,
            depth,
        )
    }
}

fn sort_tasks(input: &GroupingInput, list: &[usize]) -> (r: Vec<usize>)
    requires
        all_below(list@, input.tasks@.len() as int),
    ensures
        r@ == in_order(list@, task_order(*input)),
        all_below(r@, input.tasks@.len() as int),
        r@.len() == list@.len(),
{
    let language = CollationLanguage::from_tag(input.language.as_str());
    let tasks = &input.tasks;
    let first = |a: usize, b: usize| -> (c: bool)
        requires
            a < tasks@.len(),
            b < tasks@.len(),
        ensures
            c == (tasks@[a as int].band < tasks@[b as int].band || tasks@[a as int].band
                == tasks@[b as int].band && title_first(
                tasks@[a as int].title@,
                tasks@[b as int].title@,
                language,
            )),
        {
            tasks[a].band < tasks[b].band || (tasks[a].band == tasks[b].band && title_comes_first(
                tasks[a].title.as_str(),
                tasks[b].title.as_str(),
                language,
            ))
        };
    stable_order(list, input.tasks.len(), first, Ghost(task_order(*input)))
}

fn push_family(
    tasks: &[GroupableTask],
    cuts: &[Cut],
    at: usize,
    depth: usize,
    out: &mut Vec<usize>,
)
    requires
        at < tasks@.len(),
    ensures
        final(out)@ == old(out)@ + family_of(tasks@, cut_texts(cuts@), at, depth as nat),
    decreases depth, 0int,
{
    if depth > 0 {
        out.push(at);
        let kids = children(tasks, cuts, tasks[at].id.as_str());
        push_families(tasks, cuts, kids.as_slice(), depth - 1, out);
        assert(out@ =~= old(out)@ + family_of(tasks@, cut_texts(cuts@), at, depth as nat));
    } else {
        assert(out@ =~= old(out)@ + Seq::empty());
    }
}

fn push_families(
    tasks: &[GroupableTask],
    cuts: &[Cut],
    list: &[usize],
    depth: usize,
    out: &mut Vec<usize>,
)
    requires
        all_below(list@, tasks@.len() as int),
    ensures
        final(out)@ == old(out)@ + families(tasks@, cut_texts(cuts@), list@, depth as nat),
    decreases depth, 1int,
{
    let ghost start = out@;
    let mut i: usize = 0;
    assert(out@ =~= start + Seq::empty());
    while i < list.len()
        invariant
            i <= list.len(),
            all_below(list@, tasks@.len() as int),
            out@ == start + families(
                tasks@,
                cut_texts(cuts@),
                list@.take(i as int),
                depth as nat,
            ),
        decreases list.len() - i,
    {
        assert(list@.take(i as int + 1).drop_last() =~= list@.take(i as int));
        push_family(tasks, cuts, list[i], depth, out);
        i = i + 1;
        assert(out@ =~= start + families(
            tasks@,
            cut_texts(cuts@),
            list@.take(i as int),
            depth as nat,
        ));
    }
    assert(list@.take(i as int) =~= list@);
}

fn count_under(input: &GroupingInput, cuts: &[Cut], list: &[usize]) -> (r: usize)
    requires
        all_below(list@, input.tasks@.len() as int),
    ensures
        r == total_under(*input, cut_texts(cuts@), list@),
{
    let mut all: Vec<usize> = Vec::new();
    push_families(input.tasks.as_slice(), cuts, list, input.tasks.len(), &mut all);
    assert(all@ =~= families(
        input.tasks@,
        cut_texts(cuts@),
        list@,
        input.tasks@.len(),
    ));
    all.len()
}

fn emit_task(
    input: &GroupingInput,
    cuts: &[Cut],
    at: usize,
    level: usize,
    hidden: bool,
    depth: usize,
    rows: &mut Vec<Row>,
)
    requires
        at < input.tasks@.len(),
        level + depth <= usize::MAX,
    ensures
        row_texts(final(rows)@) == row_texts(old(rows)@) + task_rows(
            *input,
            cut_texts(cuts@),
            at,
            level as int,
            hidden,
            depth as nat,
        ),
    decreases depth, 0int,
{
    if depth > 0 {
        let id = input.tasks[at].id.as_str();
        let bucket = children(input.tasks.as_slice(), cuts, id);
        let kids = sort_tasks(input, bucket.as_slice());
        let row = Row {
            id: id.to_owned(),
            depth: level,
            hidden,
            has_children: kids.len() > 0,
            group: None,
        };
        proof {
            lemma_row_push(rows@, row);
        }
        rows.push(row);
        let below = hidden || contains_text(input.collapsed.as_slice(), id);
        emit_tasks(input, cuts, kids.as_slice(), level + 1, below, depth - 1, rows);
        assert(row_texts(rows@) =~= row_texts(old(rows)@) + task_rows(
            *input,
            cut_texts(cuts@),
            at,
            level as int,
            hidden,
            depth as nat,
        ));
    } else {
        assert(row_texts(rows@) =~= row_texts(old(rows)@) + Seq::empty());
    }
}

fn emit_tasks(
    input: &GroupingInput,
    cuts: &[Cut],
    list: &[usize],
    level: usize,
    hidden: bool,
    depth: usize,
    rows: &mut Vec<Row>,
)
    requires
        all_below(list@, input.tasks@.len() as int),
        level + depth <= usize::MAX,
    ensures
        row_texts(final(rows)@) == row_texts(old(rows)@) + rows_of_tasks(
            *input,
            cut_texts(cuts@),
            list@,
            level as int,
            hidden,
            depth as nat,
        ),
    decreases depth, 1int,
{
    let ghost start = row_texts(rows@);
    let mut i: usize = 0;
    assert(row_texts(rows@) =~= start + Seq::empty());
    while i < list.len()
        invariant
            i <= list.len(),
            all_below(list@, input.tasks@.len() as int),
            level + depth <= usize::MAX,
            row_texts(rows@) == start + rows_of_tasks(
                *input,
                cut_texts(cuts@),
                list@.take(i as int),
                level as int,
                hidden,
                depth as nat,
            ),
        decreases list.len() - i,
    {
        assert(list@.take(i as int + 1).drop_last() =~= list@.take(i as int));
        emit_task(input, cuts, list[i], level, hidden, depth, rows);
        i = i + 1;
        assert(row_texts(rows@) =~= start + rows_of_tasks(
            *input,
            cut_texts(cuts@),
            list@.take(i as int),
            level as int,
            hidden,
            depth as nat,
        ));
    }
    assert(list@.take(i as int) =~= list@);
}

// ---------------------------------------------------------------------------
// Lists and sections
// ---------------------------------------------------------------------------

/// The place of a list in the sections; of several entries, the last one counts.
pub open spec fn sections_place(input: GroupingInput, list_id: Seq<char>, n: int) -> Option<int>
    decreases n,
{
    if n <= 0 {
        None
    } else if input.sections@[n - 1].list_id@ == list_id {
        Some(n - 1)
    } else {
        sections_place(input, list_id, n - 1)
    }
}

/// The sections of a list.
pub open spec fn sections_of(input: GroupingInput, list_id: Seq<char>) -> Seq<Section> {
    match sections_place(input, list_id, input.sections@.len() as int) {
        Some(k) => input.sections@[k].sections@,
        None => Seq::empty(),
    }
}

/// A section has this id.
pub open spec fn is_section(sections: Seq<Section>, id: Seq<char>) -> bool {
    exists|i: int| 0 <= i < sections.len() && (#[trigger] sections[i]).id@ == id
}

/// The tasks that stand in none of the sections.
pub open spec fn unsectioned(
    input: GroupingInput,
    items: Seq<usize>,
    sections: Seq<Section>,
) -> Seq<usize> {
    those(
        items,
        |i: usize|
            match optional_text(input.tasks@[i as int].section_id) {
                Some(id) => !is_section(sections, id),
                None => true,
            },
    )
}

/// The tasks that stand in the section `id`.
pub open spec fn in_section(input: GroupingInput, items: Seq<usize>, id: Seq<char>) -> Seq<usize> {
    those(items, |i: usize| optional_text(input.tasks@[i as int].section_id) == Some(id))
}

/// Sections in the order of their names.
pub open spec fn sections_by_name(input: GroupingInput, sections: Seq<Section>) -> Seq<usize> {
    in_order(
        positions(sections.len() as int),
        |a: usize, b: usize|
            title_first(
                sections[a as int].name@,
                sections[b as int].name@,
                language_of(input.language@),
            ),
    )
}

/// A header without a mine/others split.
pub open spec fn header(
    id: Seq<char>,
    level: int,
    hidden: bool,
    kind: GroupKind,
    parent_id: Option<Seq<char>>,
    list_id: Option<Seq<char>>,
    section_id: Option<Seq<char>>,
    count: int,
) -> RowText {
    RowText {
        id,
        depth: level,
        hidden,
        has_children: true,
        group: Some(
            HeadText { kind, parent_id, list_id, section_id, count, mine: None, others: None },
        ),
    }
}

/// The rows of one section: its header and its tasks, or nothing where it has
/// none.
pub open spec fn section_rows(
    input: GroupingInput,
    cuts: Seq<(Seq<char>, Seq<char>)>,
    place: ListPlace,
    items: Seq<usize>,
    section: Seq<char>,
) -> Seq<RowText> {
    let mine = in_section(input, items, section);
    let id = "grp:sec:"@ + place.scope + ":"@ + section;
    let hidden = place.hidden || is_collapsed(input, place.id);
    if mine.len() == 0 {
        Seq::empty()
    } else {
        seq![
            header(
                id,
                place.level + 1,
                hidden,
                GroupKind::Section,
                Some(place.id),
                Some(place.list_id),
                Some(section),
                total_under(input, cuts, mine),
            ),
        ] + rows_of_tasks(
            input,
            cuts,
            mine,
            place.level + 2,
            hidden || is_collapsed(input, id),
            input.tasks@.len(),
        )
    }
}

/// The rows of sections, one after the other.
pub open spec fn rows_of_sections(
    input: GroupingInput,
    cuts: Seq<(Seq<char>, Seq<char>)>,
    place: ListPlace,
    items: Seq<usize>,
    sections: Seq<Section>,
    order: Seq<usize>,
) -> Seq<RowText>
    decreases order.len(),
{
    if order.len() == 0 {
        Seq::empty()
    } else {
        rows_of_sections(input, cuts, place, items, sections, order.drop_last()) + section_rows(
            input,
            cuts,
            place,
            items,
            sections[order.last() as int].id@,
        )
    }
}

/// Where a list's group stands.
pub struct ListPlace {
    /// The header's id.
    pub id: Seq<char>,
    pub list_id: Seq<char>,
    /// What keeps the ids of its sections apart from those of the same list
    /// elsewhere.
    pub scope: Seq<char>,
    /// The enclosing header.
    pub parent: Option<Seq<char>>,
    pub level: int,
    pub hidden: bool,
}

/// The rows of a list: its header, the tasks without a section, then one group
/// for each section that has any, by name.
pub open spec fn list_rows(
    input: GroupingInput,
    cuts: Seq<(Seq<char>, Seq<char>)>,
    place: ListPlace,
    items: Seq<usize>,
) -> Seq<RowText> {
    let sections = sections_of(input, place.list_id);
    seq![
        header(
            place.id,
            place.level,
            place.hidden,
            GroupKind::List,
            place.parent,
            Some(place.list_id),
            None,
            total_under(input, cuts, items),
        ),
    ] + rows_of_tasks(
        input,
        cuts,
        unsectioned(input, items, sections),
        place.level + 1,
        place.hidden || is_collapsed(input, place.id),
        input.tasks@.len(),
    ) + rows_of_sections(
        input,
        cuts,
        place,
        items,
        sections,
        sections_by_name(input, sections),
    )
}

/// The lists that tasks are in, each once, as they came.
pub open spec fn lists_seen(input: GroupingInput, items: Seq<usize>) -> Seq<Seq<char>>
    decreases items.len(),
{
    if items.len() == 0 {
        Seq::empty()
    } else {
        let before = lists_seen(input, items.drop_last());
        let id = input.tasks@[items.last() as int].list_id@;
        if before.contains(id) {
            before
        } else {
            before.push(id)
        }
    }
}

/// A list's name: its own, or its id where it has none. Of several names, the
/// last one counts.
pub open spec fn name_of(input: GroupingInput, list_id: Seq<char>, n: int) -> Seq<char>
    decreases n,
{
    if n <= 0 {
        list_id
    } else if input.lists@[n - 1].list_id@ == list_id {
        input.lists@[n - 1].name@
    } else {
        name_of(input, list_id, n - 1)
    }
}

/// Lists in the order of their names; those that share one stay as they came.
pub open spec fn lists_by_name(input: GroupingInput, lists: Seq<Seq<char>>) -> Seq<usize> {
    let n = input.lists@.len() as int;
    in_order(
        positions(lists.len() as int),
        |a: usize, b: usize|
            name_first(
                name_of(input, lists[a as int], n),
                name_of(input, lists[b as int], n),
                language_of(input.language@),
            ),
    )
}

/// Whether a task is in the list.
pub open spec fn is_in_list(input: GroupingInput, list_id: Seq<char>) -> spec_fn(usize) -> bool {
    |i: usize| input.tasks@[i as int].list_id@ == list_id
}

/// The tasks of a list.
pub open spec fn in_list(input: GroupingInput, items: Seq<usize>, list_id: Seq<char>) -> Seq<
    usize,
> {
    those(items, is_in_list(input, list_id))
}

/// Where the lists of a grouping by list stand.
pub open spec fn list_place(
    input: GroupingInput,
    list_id: Seq<char>,
    in_backlog: bool,
) -> ListPlace {
    if in_backlog {
        ListPlace {
            id: "grp:bl:list:"@ + list_id,
            list_id,
            scope: "bl:"@ + list_id,
            parent: Some(BACKLOG_GROUP_ID@),
            level: 1,
            hidden: is_collapsed(input, BACKLOG_GROUP_ID@),
        }
    } else {
        ListPlace {
            id: "grp:list:"@ + list_id,
            list_id,
            scope: "ls:"@ + list_id,
            parent: None,
            level: 0,
            hidden: false,
        }
    }
}

/// The rows of lists, one after the other.
pub open spec fn rows_of_lists(
    input: GroupingInput,
    cuts: Seq<(Seq<char>, Seq<char>)>,
    items: Seq<usize>,
    lists: Seq<Seq<char>>,
    order: Seq<usize>,
    in_backlog: bool,
) -> Seq<RowText>
    decreases order.len(),
{
    if order.len() == 0 {
        Seq::empty()
    } else {
        let list_id = lists[order.last() as int];
        rows_of_lists(input, cuts, items, lists, order.drop_last(), in_backlog) + list_rows(
            input,
            cuts,
            list_place(input, list_id, in_backlog),
            in_list(input, items, list_id),
        )
    }
}

/// The rows of tasks grouped by list, by list name.
pub open spec fn rows_by_list(
    input: GroupingInput,
    cuts: Seq<(Seq<char>, Seq<char>)>,
    items: Seq<usize>,
    in_backlog: bool,
) -> Seq<RowText> {
    let lists = lists_seen(input, items);
    rows_of_lists(input, cuts, items, lists, lists_by_name(input, lists), in_backlog)
}

// ---------------------------------------------------------------------------
// The groups
// ---------------------------------------------------------------------------

/// A flat group: its header and its tasks straight underneath, or nothing
/// where it has none.
pub open spec fn flat_rows(
    input: GroupingInput,
    cuts: Seq<(Seq<char>, Seq<char>)>,
    id: Seq<char>,
    kind: GroupKind,
    items: Seq<usize>,
) -> Seq<RowText> {
    if items.len() == 0 {
        Seq::empty()
    } else {
        seq![header(id, 0, false, kind, None, None, None, total_under(input, cuts, items))]
            + rows_of_tasks(
            input,
            cuts,
            items,
            1,
            is_collapsed(input, id),
            input.tasks@.len(),
        )
    }
}

/// The backlog: its header, then its lists.
pub open spec fn backlog_rows(
    input: GroupingInput,
    cuts: Seq<(Seq<char>, Seq<char>)>,
    items: Seq<usize>,
) -> Seq<RowText> {
    if items.len() == 0 {
        Seq::empty()
    } else {
        seq![
            header(
                BACKLOG_GROUP_ID@,
                0,
                false,
                GroupKind::Backlog,
                None,
                None,
                None,
                total_under(input, cuts, items),
            ),
        ] + rows_by_list(input, cuts, items, true)
    }
}

/// The place of a list among the connected users; of several entries, the last
/// one counts.
pub open spec fn user_place(input: GroupingInput, list_id: Seq<char>, n: int) -> Option<int>
    decreases n,
{
    if n <= 0 {
        None
    } else if input.current_user_by_list@[n - 1].list_id@ == list_id {
        Some(n - 1)
    } else {
        user_place(input, list_id, n - 1)
    }
}

/// The id of the connected user of a list.
pub open spec fn user_of(input: GroupingInput, list_id: Seq<char>) -> Option<Seq<char>> {
    match user_place(input, list_id, input.current_user_by_list@.len() as int) {
        Some(k) => match input.current_user_by_list@[k].user {
            Some(u) => Some(u.id@),
            None => None,
        },
        None => None,
    }
}

/// The task is mine or nobody's.
pub open spec fn task_is_mine(input: GroupingInput, i: usize) -> bool {
    let task = input.tasks@[i as int];
    is_mine(user_ids(task.assignees@), user_of(input, task.list_id@))
}

/// What a done task sorts by: when it was completed, or when it last changed
/// where that is not known.
pub open spec fn done_moment(task: GroupableTask) -> Moment {
    match task.completed_at {
        Some(at) => at@,
        None => task.updated_at@,
    }
}

/// The done tasks, most recently completed first.
pub open spec fn done_tasks(input: GroupingInput, top: Seq<usize>) -> Seq<usize> {
    in_order(
        those(top, |i: usize| input.tasks@[i as int].status is Completed),
        |a: usize, b: usize|
            done_moment(input.tasks@[b as int]).before(done_moment(input.tasks@[a as int])),
    )
}

/// The cancelled tasks, most recently changed first.
pub open spec fn cancelled_tasks(input: GroupingInput, top: Seq<usize>) -> Seq<usize> {
    in_order(
        those(top, |i: usize| input.tasks@[i as int].status is Cancelled),
        |a: usize, b: usize|
            input.tasks@[b as int].updated_at@.before(input.tasks@[a as int].updated_at@),
    )
}

/// The tasks still to be done, in sibling order.
pub open spec fn open_tasks(input: GroupingInput, top: Seq<usize>) -> Seq<usize> {
    in_order(
        those(top, |i: usize| !input.tasks@[i as int].status.terminal()),
        task_order(input),
    )
}

/// The task waits to come back.
pub open spec fn waits(input: GroupingInput, i: usize) -> bool {
    is_deferred(optional_day(input.tasks@[i as int].resurface_date), input.today@)
}

pub open spec fn planned(input: GroupingInput, i: usize) -> Option<Ymd> {
    optional_day(input.tasks@[i as int].scheduled_date)
}

/// Without a planned day, and not waiting.
pub open spec fn backlog_tasks(input: GroupingInput, open: Seq<usize>) -> Seq<usize> {
    those(open, |i: usize| !waits(input, i) && planned(input, i) is None)
}

/// Planned for a day already past.
pub open spec fn overdue_tasks(input: GroupingInput, open: Seq<usize>) -> Seq<usize> {
    those(
        open,
        |i: usize|
            !waits(input, i) && (planned(input, i) matches Some(d) && d.before(input.today@)),
    )
}

pub open spec fn today_tasks(input: GroupingInput, open: Seq<usize>) -> Seq<usize> {
    those(open, |i: usize| !waits(input, i) && planned(input, i) == Some(input.today@))
}

/// The day a task of the future is ahead for.
pub open spec fn future_day(input: GroupingInput, i: usize) -> Option<Ymd> {
    if waits(input, i) {
        optional_day(input.tasks@[i as int].resurface_date)
    } else {
        planned(input, i)
    }
}

/// Waiting tasks and those planned for a later day, soonest first.
pub open spec fn future_tasks(input: GroupingInput, open: Seq<usize>) -> Seq<usize> {
    in_order(
        those(open, |i: usize| waits(input, i)) + those(
            open,
            |i: usize|
                !waits(input, i) && (planned(input, i) matches Some(d) && input.today@.before(d)),
        ),
        |a: usize, b: usize|
            match (future_day(input, a), future_day(input, b)) {
                (Some(x), Some(y)) => x.before(y),
                _ => false,
            },
    )
}

/// The done group. Its count splits into mine and others when at least one
/// task is somebody else's.
pub open spec fn done_rows(
    input: GroupingInput,
    cuts: Seq<(Seq<char>, Seq<char>)>,
    items: Seq<usize>,
) -> Seq<RowText> {
    let mine = those(items, |i: usize| task_is_mine(input, i)).len();
    let others = items.len() - mine;
    if items.len() == 0 {
        Seq::empty()
    } else {
        seq![
            RowText {
                id: DONE_GROUP_ID@,
                depth: 0,
                hidden: false,
                has_children: true,
                group: Some(
                    HeadText {
                        kind: GroupKind::Done,
                        parent_id: None,
                        list_id: None,
                        section_id: None,
                        count: items.len() as int,
                        mine: if others > 0 {
                            Some(mine as usize)
                        } else {
                            None
                        },
                        others: if others > 0 {
                            Some(others as usize)
                        } else {
                            None
                        },
                    },
                ),
            },
        ] + rows_of_tasks(
            input,
            cuts,
            items,
            1,
            is_collapsed(input, DONE_GROUP_ID@),
            input.tasks@.len(),
        )
    }
}

/// The cancelled group, which counts its top-level tasks.
pub open spec fn cancelled_rows(
    input: GroupingInput,
    cuts: Seq<(Seq<char>, Seq<char>)>,
    items: Seq<usize>,
) -> Seq<RowText> {
    if items.len() == 0 {
        Seq::empty()
    } else {
        seq![
            header(
                CANCELLED_GROUP_ID@,
                0,
                false,
                GroupKind::Cancelled,
                None,
                None,
                None,
                items.len() as int,
            ),
        ] + rows_of_tasks(
            input,
            cuts,
            items,
            1,
            is_collapsed(input, CANCELLED_GROUP_ID@),
            input.tasks@.len(),
        )
    }
}

/// The rows of the open tasks: by list, or by when they are due.
pub open spec fn open_rows(
    input: GroupingInput,
    cuts: Seq<(Seq<char>, Seq<char>)>,
    open: Seq<usize>,
) -> Seq<RowText> {
    match input.group_by {
        GroupBy::List => rows_by_list(input, cuts, open, false),
        GroupBy::State => flat_rows(
            input,
            cuts,
            OVERDUE_GROUP_ID@,
            GroupKind::Overdue,
            overdue_tasks(input, open),
        ) + flat_rows(
            input,
            cuts,
            TODAY_GROUP_ID@,
            GroupKind::Today,
            today_tasks(input, open),
        ) + backlog_rows(input, cuts, backlog_tasks(input, open)) + flat_rows(
            input,
            cuts,
            DEFERRED_GROUP_ID@,
            GroupKind::Deferred,
            future_tasks(input, open),
        ),
    }
}

/// The task view's rows, in depth-first order.
pub open spec fn grouped(input: GroupingInput) -> Seq<RowText> {
    let settled = settled(input.tasks@);
    let open = open_tasks(input, settled.top);
    open_rows(input, settled.cuts, open) + done_rows(
        input,
        settled.cuts,
        done_tasks(input, settled.top),
    ) + cancelled_rows(input, settled.cuts, cancelled_tasks(input, settled.top))
}

// ---------------------------------------------------------------------------
// Building the groups
// ---------------------------------------------------------------------------

struct Place {
    id: String,
    list_id: String,
    scope: String,
    parent: Option<String>,
    level: usize,
    hidden: bool,
}

impl View for Place {
    type V = ListPlace;

    closed spec fn view(&self) -> ListPlace {
        ListPlace {
            id: self.id@,
            list_id: self.list_id@,
            scope: self.scope@,
            parent: optional_text(self.parent),
            level: self.level as int,
            hidden: self.hidden,
        }
    }
}

/// `prefix` followed by `rest`.
fn glued(prefix: &str, rest: &str) -> (r: String)
    ensures
        r@ == prefix@ + rest@,
{
    let mut out: String = String::new();
    out.append(prefix);
    out.append(rest);
    assert(out@ =~= prefix@ + rest@);
    out
}

fn find_sections<'a>(input: &'a GroupingInput, list_id: &str) -> (r: &'a [Section])
    ensures
        r@ == sections_of(*input, list_id@),
{
    let mut n: usize = input.sections.len();
    while n > 0
        invariant
            n <= input.sections.len(),
            sections_place(*input, list_id@, input.sections@.len() as int) == sections_place(
                *input,
                list_id@,
                n as int,
            ),
        decreases n,
    {
        if same(input.sections[n - 1].list_id.as_str(), list_id) {
            return input.sections[n - 1].sections.as_slice();
        }
        n = n - 1;
    }
    let none: &[Section] = &[];
    assert(none@ =~= Seq::empty());
    none
}

fn any_section(sections: &[Section], id: &str) -> (r: bool)
    ensures
        r == is_section(sections@, id@),
{
    let mut i: usize = 0;
    while i < sections.len()
        invariant
            i <= sections.len(),
            forall|j: int| 0 <= j < i ==> (#[trigger] sections@[j]).id@ != id@,
        decreases sections.len() - i,
    {
        if same(sections[i].id.as_str(), id) {
            return true;
        }
        i = i + 1;
    }
    false
}

fn pick_unsectioned(input: &GroupingInput, items: &[usize], sections: &[Section]) -> (r: Vec<
    usize,
>)
    requires
        all_below(items@, input.tasks@.len() as int),
    ensures
        r@ == unsectioned(*input, items@, sections@),
        all_below(r@, input.tasks@.len() as int),
{
    let tasks = &input.tasks;
    let ghost keep = |i: usize|
        match optional_text(input.tasks@[i as int].section_id) {
            Some(id) => !is_section(sections@, id),
            None => true,
        };
    let wanted = |i: usize| -> (c: bool)
        requires
            i < tasks@.len(),
        ensures
            c == match optional_text(tasks@[i as int].section_id) {
                Some(id) => !is_section(sections@, id),
                None => true,
            },
        {
            match &tasks[i].section_id {
                Some(id) => !any_section(sections, id.as_str()),
                None => true,
            }
        };
    pick(items, input.tasks.len(), wanted, Ghost(keep))
}

fn pick_in_section(input: &GroupingInput, items: &[usize], id: &str) -> (r: Vec<usize>)
    requires
        all_below(items@, input.tasks@.len() as int),
    ensures
        r@ == in_section(*input, items@, id@),
        all_below(r@, input.tasks@.len() as int),
{
    let tasks = &input.tasks;
    let ghost keep = |i: usize| optional_text(input.tasks@[i as int].section_id) == Some(id@);
    let wanted = |i: usize| -> (c: bool)
        requires
            i < tasks@.len(),
        ensures
            c == (optional_text(tasks@[i as int].section_id) == Some(id@)),
        {
            match &tasks[i].section_id {
                Some(s) => same(s.as_str(), id),
                None => false,
            }
        };
    pick(items, input.tasks.len(), wanted, Ghost(keep))
}

fn sort_sections(input: &GroupingInput, sections: &[Section]) -> (r: Vec<usize>)
    ensures
        r@ == sections_by_name(*input, sections@),
        all_below(r@, sections@.len() as int),
{
    let language = CollationLanguage::from_tag(input.language.as_str());
    let all = positions_below(sections.len());
    let ghost less = |a: usize, b: usize|
        title_first(
            sections@[a as int].name@,
            sections@[b as int].name@,
            language_of(input.language@),
        );
    let first = |a: usize, b: usize| -> (c: bool)
        requires
            a < sections@.len(),
            b < sections@.len(),
        ensures
            c == title_first(sections@[a as int].name@, sections@[b as int].name@, language),
        { title_comes_first(sections[a].name.as_str(), sections[b].name.as_str(), language) };
    stable_order(all.as_slice(), sections.len(), first, Ghost(less))
}

fn push_header(
    rows: &mut Vec<Row>,
    id: &str,
    level: usize,
    hidden: bool,
    kind: GroupKind,
    parent_id: Option<String>,
    list_id: Option<String>,
    section_id: Option<String>,
    count: usize,
)
    ensures
        row_texts(final(rows)@) == row_texts(old(rows)@).push(
            header(
                id@,
                level as int,
                hidden,
                kind,
                optional_text(parent_id),
                optional_text(list_id),
                optional_text(section_id),
                count as int,
            ),
        ),
{
    let row = Row {
        id: id.to_owned(),
        depth: level,
        hidden,
        has_children: true,
        group: Some(
            GroupHead { kind, parent_id, list_id, section_id, count, mine: None, others: None },
        ),
    };
    proof {
        lemma_row_push(rows@, row);
    }
    rows.push(row);
}

fn emit_section(
    input: &GroupingInput,
    cuts: &[Cut],
    place: &Place,
    items: &[usize],
    section: &str,
    rows: &mut Vec<Row>,
)
    requires
        all_below(items@, input.tasks@.len() as int),
        place.level <= 1,
        input.tasks@.len() <= usize::MAX - 3,
    ensures
        row_texts(final(rows)@) == row_texts(old(rows)@) + section_rows(
            *input,
            cut_texts(cuts@),
            place@,
            items@,
            section@,
        ),
{
    let mine = pick_in_section(input, items, section);
    if mine.len() > 0 {
        let mut id = glued("grp:sec:", place.scope.as_str());
        id.append(":");
        id.append(section);
        assert(id@ =~= "grp:sec:"@ + place@.scope + ":"@ + section@);
        let hidden = place.hidden || contains_text(
            input.collapsed.as_slice(),
            place.id.as_str(),
        );
        push_header(
            rows,
            id.as_str(),
            place.level + 1,
            hidden,
            GroupKind::Section,
            Some(place.id.clone()),
            Some(place.list_id.clone()),
            Some(section.to_owned()),
            count_under(input, cuts, mine.as_slice()),
        );
        let below = hidden || contains_text(input.collapsed.as_slice(), id.as_str());
        emit_tasks(
            input,
            cuts,
            mine.as_slice(),
            place.level + 2,
            below,
            input.tasks.len(),
            rows,
        );
        assert(row_texts(rows@) =~= row_texts(old(rows)@) + section_rows(
            *input,
            cut_texts(cuts@),
            place@,
            items@,
            section@,
        ));
    } else {
        assert(row_texts(rows@) =~= row_texts(old(rows)@) + Seq::empty());
    }
}

fn emit_list(
    input: &GroupingInput,
    cuts: &[Cut],
    place: &Place,
    items: &[usize],
    rows: &mut Vec<Row>,
)
    requires
        all_below(items@, input.tasks@.len() as int),
        place.level <= 1,
        input.tasks@.len() <= usize::MAX - 3,
    ensures
        row_texts(final(rows)@) == row_texts(old(rows)@) + list_rows(
            *input,
            cut_texts(cuts@),
            place@,
            items@,
        ),
{
    let ghost start = row_texts(rows@);
    let parent = match &place.parent {
        Some(p) => Some(p.clone()),
        None => None,
    };
    push_header(
        rows,
        place.id.as_str(),
        place.level,
        place.hidden,
        GroupKind::List,
        parent,
        Some(place.list_id.clone()),
        None,
        count_under(input, cuts, items),
    );
    let ghost after_header = row_texts(rows@);
    let sections = find_sections(input, place.list_id.as_str());
    let loose = pick_unsectioned(input, items, sections);
    let below = place.hidden || contains_text(input.collapsed.as_slice(), place.id.as_str());
    emit_tasks(
        input,
        cuts,
        loose.as_slice(),
        place.level + 1,
        below,
        input.tasks.len(),
        rows,
    );
    let order = sort_sections(input, sections);
    let ghost after_tasks = row_texts(rows@);
    let mut i: usize = 0;
    assert(row_texts(rows@) =~= after_tasks + Seq::empty());
    while i < order.len()
        invariant
            i <= order.len(),
            all_below(items@, input.tasks@.len() as int),
            all_below(order@, sections@.len() as int),
            place.level <= 1,
            input.tasks@.len() <= usize::MAX - 3,
            row_texts(rows@) == after_tasks + rows_of_sections(
                *input,
                cut_texts(cuts@),
                place@,
                items@,
                sections@,
                order@.take(i as int),
            ),
        decreases order.len() - i,
    {
        assert(order@.take(i as int + 1).drop_last() =~= order@.take(i as int));
        let at: usize = order[i];
        emit_section(input, cuts, place, items, sections[at].id.as_str(), rows);
        i = i + 1;
        assert(row_texts(rows@) =~= after_tasks + rows_of_sections(
            *input,
            cut_texts(cuts@),
            place@,
            items@,
            sections@,
            order@.take(i as int),
        ));
    }
    assert(order@.take(i as int) =~= order@);
    assert(row_texts(rows@) =~= start + list_rows(*input, cut_texts(cuts@), place@, items@));
}

fn find_lists(input: &GroupingInput, items: &[usize]) -> (r: Vec<String>)
    requires
        all_below(items@, input.tasks@.len() as int),
    ensures
        texts(r@) == lists_seen(*input, items@),
{
    let mut out: Vec<String> = Vec::new();
    let mut i: usize = 0;
    assert(texts(out@) =~= Seq::empty());
    while i < items.len()
        invariant
            i <= items.len(),
            all_below(items@, input.tasks@.len() as int),
            texts(out@) == lists_seen(*input, items@.take(i as int)),
        decreases items.len() - i,
    {
        assert(items@.take(i as int + 1).drop_last() =~= items@.take(i as int));
        let at: usize = items[i];
        let id = &input.tasks[at].list_id;
        if !contains_text(out.as_slice(), id.as_str()) {
            let id = id.clone();
            proof {
                lemma_texts_push(out@, id);
            }
            out.push(id);
        }
        i = i + 1;
    }
    assert(items@.take(i as int) =~= items@);
    out
}

fn find_name(input: &GroupingInput, list_id: &str) -> (r: String)
    ensures
        r@ == name_of(*input, list_id@, input.lists@.len() as int),
{
    let mut n: usize = input.lists.len();
    while n > 0
        invariant
            n <= input.lists.len(),
            name_of(*input, list_id@, input.lists@.len() as int) == name_of(
                *input,
                list_id@,
                n as int,
            ),
        decreases n,
    {
        if same(input.lists[n - 1].list_id.as_str(), list_id) {
            return input.lists[n - 1].name.clone();
        }
        n = n - 1;
    }
    list_id.to_owned()
}

fn sort_lists(input: &GroupingInput, lists: &[String]) -> (r: Vec<usize>)
    ensures
        r@ == lists_by_name(*input, texts(lists@)),
        all_below(r@, lists@.len() as int),
{
    let language = CollationLanguage::from_tag(input.language.as_str());
    let all = positions_below(lists.len());
    let ghost ids = texts(lists@);
    let ghost n = input.lists@.len() as int;
    let ghost less = |a: usize, b: usize|
        name_first(
            name_of(*input, ids[a as int], n),
            name_of(*input, ids[b as int], n),
            language_of(input.language@),
        );
    let first = |a: usize, b: usize| -> (c: bool)
        requires
            a < lists@.len(),
            b < lists@.len(),
        ensures
            c == name_first(
                name_of(*input, lists@[a as int]@, input.lists@.len() as int),
                name_of(*input, lists@[b as int]@, input.lists@.len() as int),
                language,
            ),
        {
            let x = find_name(input, lists[a].as_str());
            let y = find_name(input, lists[b].as_str());
            name_comes_first(x.as_str(), y.as_str(), language)
        };
    stable_order(all.as_slice(), lists.len(), first, Ghost(less))
}

fn pick_in_list(input: &GroupingInput, items: &[usize], id: &str) -> (r: Vec<usize>)
    requires
        all_below(items@, input.tasks@.len() as int),
    ensures
        r@ == in_list(*input, items@, id@),
        all_below(r@, input.tasks@.len() as int),
{
    let tasks = &input.tasks;
    let ghost keep = is_in_list(*input, id@);
    let wanted = |i: usize| -> (c: bool)
        requires
            i < tasks@.len(),
        ensures
            c == (tasks@[i as int].list_id@ == id@),
        { same(tasks[i].list_id.as_str(), id) };
    pick(items, input.tasks.len(), wanted, Ghost(keep))
}

fn place_list(input: &GroupingInput, list_id: &str, in_backlog: bool) -> (r: Place)
    ensures
        r@ == list_place(*input, list_id@, in_backlog),
        r.level <= 1,
{
    if in_backlog {
        Place {
            id: glued("grp:bl:list:", list_id),
            list_id: list_id.to_owned(),
            scope: glued("bl:", list_id),
            parent: Some(BACKLOG_GROUP_ID.to_owned()),
            level: 1,
            hidden: contains_text(input.collapsed.as_slice(), BACKLOG_GROUP_ID),
        }
    } else {
        Place {
            id: glued("grp:list:", list_id),
            list_id: list_id.to_owned(),
            scope: glued("ls:", list_id),
            parent: None,
            level: 0,
            hidden: false,
        }
    }
}

fn emit_by_list(
    input: &GroupingInput,
    cuts: &[Cut],
    items: &[usize],
    in_backlog: bool,
    rows: &mut Vec<Row>,
)
    requires
        all_below(items@, input.tasks@.len() as int),
        input.tasks@.len() <= usize::MAX - 3,
    ensures
        row_texts(final(rows)@) == row_texts(old(rows)@) + rows_by_list(
            *input,
            cut_texts(cuts@),
            items@,
            in_backlog,
        ),
{
    let ghost start = row_texts(rows@);
    let lists = find_lists(input, items);
    let ghost ids = texts(lists@);
    let order = sort_lists(input, lists.as_slice());
    let mut i: usize = 0;
    assert(row_texts(rows@) =~= start + Seq::empty());
    while i < order.len()
        invariant
            i <= order.len(),
            ids == texts(lists@),
            all_below(items@, input.tasks@.len() as int),
            all_below(order@, lists@.len() as int),
            input.tasks@.len() <= usize::MAX - 3,
            row_texts(rows@) == start + rows_of_lists(
                *input,
                cut_texts(cuts@),
                items@,
                ids,
                order@.take(i as int),
                in_backlog,
            ),
        decreases order.len() - i,
    {
        assert(order@.take(i as int + 1).drop_last() =~= order@.take(i as int));
        let at: usize = order[i];
        let list_id = lists[at].as_str();
        assert(ids[at as int] == list_id@);
        let place = place_list(input, list_id, in_backlog);
        let mine = pick_in_list(input, items, list_id);
        emit_list(input, cuts, &place, mine.as_slice(), rows);
        i = i + 1;
        assert(row_texts(rows@) =~= start + rows_of_lists(
            *input,
            cut_texts(cuts@),
            items@,
            ids,
            order@.take(i as int),
            in_backlog,
        ));
    }
    assert(order@.take(i as int) =~= order@);
}

fn emit_flat(
    input: &GroupingInput,
    cuts: &[Cut],
    id: &str,
    kind: GroupKind,
    items: &[usize],
    rows: &mut Vec<Row>,
)
    requires
        all_below(items@, input.tasks@.len() as int),
        input.tasks@.len() <= usize::MAX - 3,
    ensures
        row_texts(final(rows)@) == row_texts(old(rows)@) + flat_rows(
            *input,
            cut_texts(cuts@),
            id@,
            kind,
            items@,
        ),
{
    if items.len() > 0 {
        push_header(
            rows,
            id,
            0,
            false,
            kind,
            None,
            None,
            None,
            count_under(input, cuts, items),
        );
        let below = contains_text(input.collapsed.as_slice(), id);
        emit_tasks(input, cuts, items, 1, below, input.tasks.len(), rows);
        assert(row_texts(rows@) =~= row_texts(old(rows)@) + flat_rows(
            *input,
            cut_texts(cuts@),
            id@,
            kind,
            items@,
        ));
    } else {
        assert(row_texts(rows@) =~= row_texts(old(rows)@) + Seq::empty());
    }
}

fn emit_backlog(input: &GroupingInput, cuts: &[Cut], items: &[usize], rows: &mut Vec<Row>)
    requires
        all_below(items@, input.tasks@.len() as int),
        input.tasks@.len() <= usize::MAX - 3,
    ensures
        row_texts(final(rows)@) == row_texts(old(rows)@) + backlog_rows(
            *input,
            cut_texts(cuts@),
            items@,
        ),
{
    if items.len() > 0 {
        push_header(
            rows,
            BACKLOG_GROUP_ID,
            0,
            false,
            GroupKind::Backlog,
            None,
            None,
            None,
            count_under(input, cuts, items),
        );
        emit_by_list(input, cuts, items, true, rows);
        assert(row_texts(rows@) =~= row_texts(old(rows)@) + backlog_rows(
            *input,
            cut_texts(cuts@),
            items@,
        ));
    } else {
        assert(row_texts(rows@) =~= row_texts(old(rows)@) + Seq::empty());
    }
}

fn find_user<'a>(input: &'a GroupingInput, list_id: &str) -> (r: Option<&'a TaskUser>)
    ensures
        optional_user_id(r) == user_of(*input, list_id@),
{
    let mut n: usize = input.current_user_by_list.len();
    while n > 0
        invariant
            n <= input.current_user_by_list.len(),
            user_place(*input, list_id@, input.current_user_by_list@.len() as int) == user_place(
                *input,
                list_id@,
                n as int,
            ),
        decreases n,
    {
        if same(input.current_user_by_list[n - 1].list_id.as_str(), list_id) {
            return match &input.current_user_by_list[n - 1].user {
                Some(u) => Some(u),
                None => None,
            };
        }
        n = n - 1;
    }
    None
}

fn pick_mine(input: &GroupingInput, items: &[usize]) -> (r: Vec<usize>)
    requires
        all_below(items@, input.tasks@.len() as int),
    ensures
        r@ == those(items@, |i: usize| task_is_mine(*input, i)),
{
    let tasks = &input.tasks;
    let ghost keep = |i: usize| task_is_mine(*input, i);
    let wanted = |i: usize| -> (c: bool)
        requires
            i < input.tasks@.len(),
        ensures
            c == task_is_mine(*input, i),
        {
            let task = &input.tasks[i];
            is_mine_or_unassigned(
                task.assignees.as_slice(),
                find_user(input, task.list_id.as_str()),
            )
        };
    pick(items, input.tasks.len(), wanted, Ghost(keep))
}

fn done_instant(task: &GroupableTask) -> (r: Instant)
    ensures
        r@ == done_moment(*task),
{
    match task.completed_at {
        Some(at) => at,
        None => task.updated_at,
    }
}

fn pick_done(input: &GroupingInput, top: &[usize]) -> (r: Vec<usize>)
    requires
        all_below(top@, input.tasks@.len() as int),
    ensures
        r@ == done_tasks(*input, top@),
        all_below(r@, input.tasks@.len() as int),
{
    let tasks = &input.tasks;
    let ghost keep = |i: usize| input.tasks@[i as int].status is Completed;
    let wanted = |i: usize| -> (c: bool)
        requires
            i < tasks@.len(),
        ensures
            c == (tasks@[i as int].status is Completed),
        {
            match tasks[i].status {
                TaskStatus::Completed => true,
                _ => false,
            }
        };
    let done = pick(top, input.tasks.len(), wanted, Ghost(keep));
    let ghost less = |a: usize, b: usize|
        done_moment(input.tasks@[b as int]).before(done_moment(input.tasks@[a as int]));
    let first = |a: usize, b: usize| -> (c: bool)
        requires
            a < tasks@.len(),
            b < tasks@.len(),
        ensures
            c == done_moment(tasks@[b as int]).before(done_moment(tasks@[a as int])),
        { done_instant(&tasks[b]).before(&done_instant(&tasks[a])) };
    stable_order(done.as_slice(), input.tasks.len(), first, Ghost(less))
}

fn pick_cancelled(input: &GroupingInput, top: &[usize]) -> (r: Vec<usize>)
    requires
        all_below(top@, input.tasks@.len() as int),
    ensures
        r@ == cancelled_tasks(*input, top@),
        all_below(r@, input.tasks@.len() as int),
{
    let tasks = &input.tasks;
    let ghost keep = |i: usize| input.tasks@[i as int].status is Cancelled;
    let wanted = |i: usize| -> (c: bool)
        requires
            i < tasks@.len(),
        ensures
            c == (tasks@[i as int].status is Cancelled),
        {
            match tasks[i].status {
                TaskStatus::Cancelled => true,
                _ => false,
            }
        };
    let cancelled = pick(top, input.tasks.len(), wanted, Ghost(keep));
    let ghost less = |a: usize, b: usize|
        input.tasks@[b as int].updated_at@.before(input.tasks@[a as int].updated_at@);
    let first = |a: usize, b: usize| -> (c: bool)
        requires
            a < tasks@.len(),
            b < tasks@.len(),
        ensures
            c == tasks@[b as int].updated_at@.before(tasks@[a as int].updated_at@),
        { tasks[b].updated_at.before(&tasks[a].updated_at) };
    stable_order(cancelled.as_slice(), input.tasks.len(), first, Ghost(less))
}

fn pick_open(input: &GroupingInput, top: &[usize]) -> (r: Vec<usize>)
    requires
        all_below(top@, input.tasks@.len() as int),
    ensures
        r@ == open_tasks(*input, top@),
        all_below(r@, input.tasks@.len() as int),
{
    let tasks = &input.tasks;
    let ghost keep = |i: usize| !input.tasks@[i as int].status.terminal();
    let wanted = |i: usize| -> (c: bool)
        requires
            i < tasks@.len(),
        ensures
            c == !tasks@[i as int].status.terminal(),
        { !tasks[i].status.is_terminal() };
    let open = pick(top, input.tasks.len(), wanted, Ghost(keep));
    sort_tasks(input, open.as_slice())
}

/// When an open task is due, relative to today.
#[derive(Clone, Copy, PartialEq, Eq, Structural)]
enum Due {
    Waiting,
    Backlog,
    Overdue,
    Today,
    Later,
}

spec fn due_of(input: GroupingInput, i: usize) -> Due {
    if waits(input, i) {
        Due::Waiting
    } else {
        match planned(input, i) {
            None => Due::Backlog,
            Some(d) => if d.before(input.today@) {
                Due::Overdue
            } else if d == input.today@ {
                Due::Today
            } else {
                Due::Later
            },
        }
    }
}

fn due(input: &GroupingInput, i: usize) -> (r: Due)
    requires
        i < input.tasks@.len(),
    ensures
        r == due_of(*input, i),
        r is Later ==> input.today@.before(planned(*input, i)->0),
{
    let task = &input.tasks[i];
    if is_task_deferred(task.resurface_date, input.today) {
        return Due::Waiting;
    }
    match task.scheduled_date {
        None => Due::Backlog,
        Some(day) => if day.before(&input.today) {
            Due::Overdue
        } else if day.same_day(&input.today) {
            Due::Today
        } else {
            Due::Later
        },
    }
}

fn pick_due(input: &GroupingInput, open: &[usize], when: Due) -> (r: Vec<usize>)
    requires
        all_below(open@, input.tasks@.len() as int),
    ensures
        r@ == those(open@, |i: usize| due_of(*input, i) == when),
        all_below(r@, input.tasks@.len() as int),
{
    let ghost keep = |i: usize| due_of(*input, i) == when;
    let wanted = |i: usize| -> (c: bool)
        requires
            i < input.tasks@.len(),
        ensures
            c == (due_of(*input, i) == when),
        { due(input, i) == when };
    pick(open, input.tasks.len(), wanted, Ghost(keep))
}

/// Two conditions that agree pick the same.
proof fn lemma_those_agree(
    list: Seq<usize>,
    a: spec_fn(usize) -> bool,
    b: spec_fn(usize) -> bool,
)
    requires
        forall|i: int| 0 <= i < list.len() ==> a(#[trigger] list[i]) == b(list[i]),
    ensures
        those(list, a) == those(list, b),
    decreases list.len(),
{
    if list.len() > 0 {
        let front = list.drop_last();
        assert forall|i: int| 0 <= i < front.len() implies a(#[trigger] front[i]) == b(
            front[i],
        ) by {
            assert(front[i] == list[i]);
        }
        lemma_those_agree(front, a, b);
        assert(a(list[list.len() - 1]) == b(list[list.len() - 1]));
    }
}

proof fn lemma_due_groups(input: GroupingInput, open: Seq<usize>)
    ensures
        backlog_tasks(input, open) == those(open, |i: usize| due_of(input, i) == Due::Backlog),
        overdue_tasks(input, open) == those(open, |i: usize| due_of(input, i) == Due::Overdue),
        today_tasks(input, open) == those(open, |i: usize| due_of(input, i) == Due::Today),
        those(open, |i: usize| waits(input, i)) == those(
            open,
            |i: usize| due_of(input, i) == Due::Waiting,
        ),
        those(
            open,
            |i: usize|
                !waits(input, i) && (planned(input, i) matches Some(d) && input.today@.before(d)),
        ) == those(open, |i: usize| due_of(input, i) == Due::Later),
{
    lemma_those_agree(
        open,
        |i: usize| !waits(input, i) && planned(input, i) is None,
        |i: usize| due_of(input, i) == Due::Backlog,
    );
    lemma_those_agree(
        open,
        |i: usize|
            !waits(input, i) && (planned(input, i) matches Some(d) && d.before(input.today@)),
        |i: usize| due_of(input, i) == Due::Overdue,
    );
    lemma_those_agree(
        open,
        |i: usize| !waits(input, i) && planned(input, i) == Some(input.today@),
        |i: usize| due_of(input, i) == Due::Today,
    );
    lemma_those_agree(
        open,
        |i: usize| waits(input, i),
        |i: usize| due_of(input, i) == Due::Waiting,
    );
    lemma_those_agree(
        open,
        |i: usize|
            !waits(input, i) && (planned(input, i) matches Some(d) && input.today@.before(d)),
        |i: usize| due_of(input, i) == Due::Later,
    );
}

fn day_ahead(input: &GroupingInput, i: usize) -> (r: Option<Date>)
    requires
        i < input.tasks@.len(),
    ensures
        optional_day(r) == future_day(*input, i),
{
    let task = &input.tasks[i];
    if is_task_deferred(task.resurface_date, input.today) {
        task.resurface_date
    } else {
        task.scheduled_date
    }
}

fn pick_future(input: &GroupingInput, open: &[usize]) -> (r: Vec<usize>)
    requires
        all_below(open@, input.tasks@.len() as int),
    ensures
        r@ == future_tasks(*input, open@),
        all_below(r@, input.tasks@.len() as int),
{
    proof {
        lemma_due_groups(*input, open@);
    }
    let mut ahead = pick_due(input, open, Due::Waiting);
    let mut later = pick_due(input, open, Due::Later);
    let ghost a = ahead@;
    let ghost b = later@;
    ahead.append(&mut later);
    assert(ahead@ =~= a + b);
    assert(all_below(ahead@, input.tasks@.len() as int)) by {
        assert forall|k: int| 0 <= k < ahead@.len() implies (#[trigger] ahead@[k])
            < input.tasks@.len() by {
            if k < a.len() {
                assert(ahead@[k] == a[k]);
            } else {
                assert(ahead@[k] == b[k - a.len()]);
            }
        }
    }
    let ghost less = |a: usize, b: usize|
        match (future_day(*input, a), future_day(*input, b)) {
            (Some(x), Some(y)) => x.before(y),
            _ => false,
        };
    let first = |a: usize, b: usize| -> (c: bool)
        requires
            a < input.tasks@.len(),
            b < input.tasks@.len(),
        ensures
            c == match (future_day(*input, a), future_day(*input, b)) {
                (Some(x), Some(y)) => x.before(y),
                _ => false,
            },
        {
            match (day_ahead(input, a), day_ahead(input, b)) {
                (Some(x), Some(y)) => x.before(&y),
                _ => false,
            }
        };
    stable_order(ahead.as_slice(), input.tasks.len(), first, Ghost(less))
}

fn emit_done(input: &GroupingInput, cuts: &[Cut], items: &[usize], rows: &mut Vec<Row>)
    requires
        all_below(items@, input.tasks@.len() as int),
        input.tasks@.len() <= usize::MAX - 3,
    ensures
        row_texts(final(rows)@) == row_texts(old(rows)@) + done_rows(
            *input,
            cut_texts(cuts@),
            items@,
        ),
{
    if items.len() > 0 {
        let mine: usize = pick_mine(input, items).len();
        proof {
            lemma_those(items@, |i: usize| task_is_mine(*input, i));
        }
        let others: usize = items.len() - mine;
        let row = Row {
            id: DONE_GROUP_ID.to_owned(),
            depth: 0,
            hidden: false,
            has_children: true,
            group: Some(
                GroupHead {
                    kind: GroupKind::Done,
                    parent_id: None,
                    list_id: None,
                    section_id: None,
                    count: items.len(),
                    mine: if others > 0 {
                        Some(mine)
                    } else {
                        None
                    },
                    others: if others > 0 {
                        Some(others)
                    } else {
                        None
                    },
                },
            ),
        };
        proof {
            lemma_row_push(rows@, row);
        }
        rows.push(row);
        let below = contains_text(input.collapsed.as_slice(), DONE_GROUP_ID);
        emit_tasks(input, cuts, items, 1, below, input.tasks.len(), rows);
        assert(row_texts(rows@) =~= row_texts(old(rows)@) + done_rows(
            *input,
            cut_texts(cuts@),
            items@,
        ));
    } else {
        assert(row_texts(rows@) =~= row_texts(old(rows)@) + Seq::empty());
    }
}

fn emit_cancelled(input: &GroupingInput, cuts: &[Cut], items: &[usize], rows: &mut Vec<Row>)
    requires
        all_below(items@, input.tasks@.len() as int),
        input.tasks@.len() <= usize::MAX - 3,
    ensures
        row_texts(final(rows)@) == row_texts(old(rows)@) + cancelled_rows(
            *input,
            cut_texts(cuts@),
            items@,
        ),
{
    if items.len() > 0 {
        push_header(
            rows,
            CANCELLED_GROUP_ID,
            0,
            false,
            GroupKind::Cancelled,
            None,
            None,
            None,
            items.len(),
        );
        let below = contains_text(input.collapsed.as_slice(), CANCELLED_GROUP_ID);
        emit_tasks(input, cuts, items, 1, below, input.tasks.len(), rows);
        assert(row_texts(rows@) =~= row_texts(old(rows)@) + cancelled_rows(
            *input,
            cut_texts(cuts@),
            items@,
        ));
    } else {
        assert(row_texts(rows@) =~= row_texts(old(rows)@) + Seq::empty());
    }
}

fn emit_open(input: &GroupingInput, cuts: &[Cut], open: &[usize], rows: &mut Vec<Row>)
    requires
        all_below(open@, input.tasks@.len() as int),
        input.tasks@.len() <= usize::MAX - 3,
    ensures
        row_texts(final(rows)@) == row_texts(old(rows)@) + open_rows(
            *input,
            cut_texts(cuts@),
            open@,
        ),
{
    match input.group_by {
        GroupBy::List => {
            emit_by_list(input, cuts, open, false, rows);
        },
        GroupBy::State => {
            proof {
                lemma_due_groups(*input, open@);
            }
            let overdue = pick_due(input, open, Due::Overdue);
            emit_flat(
                input,
                cuts,
                OVERDUE_GROUP_ID,
                GroupKind::Overdue,
                overdue.as_slice(),
                rows,
            );
            let today = pick_due(input, open, Due::Today);
            emit_flat(input, cuts, TODAY_GROUP_ID, GroupKind::Today, today.as_slice(), rows);
            let backlog = pick_due(input, open, Due::Backlog);
            emit_backlog(input, cuts, backlog.as_slice(), rows);
            let future = pick_future(input, open);
            emit_flat(
                input,
                cuts,
                DEFERRED_GROUP_ID,
                GroupKind::Deferred,
                future.as_slice(),
                rows,
            );
            assert(row_texts(rows@) =~= row_texts(old(rows)@) + open_rows(
                *input,
                cut_texts(cuts@),
                open@,
            ));
        },
    }
}

/// The task view's rows, in depth-first order. A row's depth counts the tasks
/// above it and at most three headers, so there is room for that many.
pub fn group_tasks(input: &GroupingInput) -> (r: Vec<Row>)
    requires
        input.tasks@.len() <= usize::MAX - 3,
    ensures
        row_texts(r@) == grouped(*input),
{
    let found = settle(input.tasks.as_slice());
    let cuts = found.cuts.as_slice();
    let top = found.top.as_slice();
    let open = pick_open(input, top);
    let done = pick_done(input, top);
    let cancelled = pick_cancelled(input, top);
    let mut rows: Vec<Row> = Vec::new();
    assert(row_texts(rows@) =~= Seq::empty());
    emit_open(input, cuts, open.as_slice(), &mut rows);
    emit_done(input, cuts, done.as_slice(), &mut rows);
    emit_cancelled(input, cuts, cancelled.as_slice(), &mut rows);
    assert(row_texts(rows@) =~= grouped(*input));
    rows
}

} // verus!
