//! What the task view's rows make: a tree. Each row stands under the one it
//! belongs to, and is hidden exactly where something above it is collapsed.

use vstd::prelude::*;

use crate::civil::optional_day;
use crate::collation::{language_of, title_first};
use crate::order::{in_order, lemma_kept, positions, those};
use crate::task_coverage::{lemma_hanging, lemma_joined, lemma_same_items, lemma_top_is_free};
use crate::task_grouping::{
    backlog_rows, backlog_tasks, cancelled_rows, cancelled_tasks, children_of, done_moment,
    done_rows, done_tasks, flat_rows, future_day, future_tasks, grouped, in_list, in_section,
    is_collapsed, is_in_list, is_section, list_place, list_rows, lists_by_name, lists_seen,
    open_rows, open_tasks, overdue_tasks, planned, rows_by_list, rows_of_lists, rows_of_sections,
    rows_of_tasks, section_rows, sections_by_name, sections_of, settled, subtasks, task_order,
    task_rows, today_tasks, unsectioned, waits, GroupBy, GroupKind, GroupingInput, HeadText,
    ListPlace, RowText, BACKLOG_GROUP_ID, CANCELLED_GROUP_ID, DEFERRED_GROUP_ID, DONE_GROUP_ID,
    OVERDUE_GROUP_ID, TODAY_GROUP_ID,
};
use crate::text::{optional_text, texts};
use crate::types::Section;

verus! {

// ---------------------------------------------------------------------------
// The tree
// ---------------------------------------------------------------------------

/// A row stands above another: it comes before it, and all that follows it up to
/// the other is deeper.
pub open spec fn is_above(rows: Seq<RowText>, j: int, k: int) -> bool {
    0 <= j < k < rows.len() && forall|m: int|
        j < m <= k ==> (#[trigger] rows[m]).depth > rows[j].depth
}

/// The row a row stands directly under.
pub open spec fn is_parent_row(rows: Seq<RowText>, j: int, k: int) -> bool {
    is_above(rows, j, k) && rows[j].depth + 1 == rows[k].depth
}

/// Something above the row is collapsed.
pub open spec fn is_under_collapsed(input: GroupingInput, rows: Seq<RowText>, k: int) -> bool {
    exists|j: int|
        #[trigger] is_above(rows, j, k) && texts(input.collapsed@).contains(rows[j].id)
}

/// A task that is neither completed nor cancelled.
pub open spec fn is_active(input: GroupingInput, t: int) -> bool {
    input.tasks@[t].status is Open || input.tasks@[t].status is InProgress
}

/// A task that comes back on a later day.
pub open spec fn is_waiting(input: GroupingInput, t: int) -> bool {
    optional_day(input.tasks@[t].resurface_date) matches Some(day) && input.today@.before(day)
}

/// A task is in the backlog, where the view is grouped by state.
pub open spec fn is_for_lists(input: GroupingInput, t: int) -> bool {
    is_active(input, t) && (input.group_by is State ==> !is_waiting(input, t)
        && input.tasks@[t].scheduled_date is None)
}

/// A task names a section that its list has.
pub open spec fn is_sectioned(input: GroupingInput, t: int) -> bool {
    optional_text(input.tasks@[t].section_id) matches Some(id) && exists|k: int|
        0 <= k < sections_of(input, input.tasks@[t].list_id@).len() && (#[trigger] sections_of(
            input,
            input.tasks@[t].list_id@,
        )[k]).id@ == id
}

/// A task may stand directly under a row: under the task it names as its parent,
/// or under the header of what it is. The row says that it has children.
pub open spec fn task_fits(input: GroupingInput, parent: RowText, t: int) -> bool {
    let task = input.tasks@[t];
    parent.has_children && match parent.group {
        None => optional_text(task.parent_id) == Some(parent.id),
        Some(head) => match head.kind {
            GroupKind::Done => task.status is Completed,
            GroupKind::Cancelled => task.status is Cancelled,
            GroupKind::Overdue => is_active(input, t) && !is_waiting(input, t) && (optional_day(
                task.scheduled_date,
            ) matches Some(day) && day.before(input.today@)),
            GroupKind::Today => is_active(input, t) && !is_waiting(input, t) && optional_day(
                task.scheduled_date,
            ) == Some(input.today@),
            GroupKind::Deferred => is_active(input, t) && (is_waiting(input, t) || (optional_day(
                task.scheduled_date,
            ) matches Some(day) && input.today@.before(day))),
            GroupKind::List => is_for_lists(input, t) && head.list_id == Some(task.list_id@)
                && !is_sectioned(input, t),
            GroupKind::Section => is_for_lists(input, t) && head.list_id == Some(task.list_id@)
                && head.section_id == optional_text(task.section_id) && is_sectioned(input, t),
            GroupKind::Backlog => false,
        },
    }
}

/// A header may stand where it does: the groups at the top, in a view by state
/// the lists under the backlog and in a view by list at the top, and sections
/// under their list.
pub open spec fn head_fits(
    input: GroupingInput,
    parent: Option<RowText>,
    row: RowText,
    head: HeadText,
) -> bool {
    let scope = if input.group_by is State {
        "bl:"@
    } else {
        "ls:"@
    };
    &&& row.has_children
    &&& head.parent_id == match parent {
        Some(p) => Some(p.id),
        None => None,
    }
    &&& match head.kind {
        GroupKind::Done => parent is None && row.id == DONE_GROUP_ID@,
        GroupKind::Cancelled => parent is None && row.id == CANCELLED_GROUP_ID@,
        GroupKind::Overdue => parent is None && row.id == OVERDUE_GROUP_ID@
            && input.group_by is State,
        GroupKind::Today => parent is None && row.id == TODAY_GROUP_ID@ && input.group_by is State,
        GroupKind::Deferred => parent is None && row.id == DEFERRED_GROUP_ID@
            && input.group_by is State,
        GroupKind::Backlog => parent is None && row.id == BACKLOG_GROUP_ID@
            && input.group_by is State,
        GroupKind::List => head.list_id is Some && head.section_id is None && if input.group_by
            is State {
            is_head(parent, GroupKind::Backlog) && row.id == "grp:bl:list:"@ + head.list_id->0
        } else {
            parent is None && row.id == "grp:list:"@ + head.list_id->0
        },
        GroupKind::Section => head.list_id is Some && head.section_id is Some && is_head(
            parent,
            GroupKind::List,
        ) && parent->0.group->0.list_id == head.list_id && row.id == "grp:sec:"@ + (scope
            + head.list_id->0) + ":"@ + head.section_id->0,
    }
    &&& !(head.kind is List) && !(head.kind is Section) ==> head.list_id is None
        && head.section_id is None
}

/// The row is a header of this kind, with something under it.
pub open spec fn is_head(row: Option<RowText>, kind: GroupKind) -> bool {
    row is Some && row->0.has_children && row->0.group is Some && row->0.group->0.kind == kind
}

/// Some task names this one as its parent.
pub open spec fn is_named_as_parent(input: GroupingInput, id: Seq<char>) -> bool {
    exists|c: int|
        0 <= c < input.tasks@.len() && optional_text((#[trigger] input.tasks@[c]).parent_id)
            == Some(id)
}

/// A row may stand directly under another, or at the top.
pub open spec fn fits(input: GroupingInput, parent: Option<RowText>, row: RowText) -> bool {
    match row.group {
        Some(head) => head_fits(input, parent, row, head),
        None => parent is Some && (row.has_children ==> is_named_as_parent(input, row.id))
            && exists|t: int|
            0 <= t < input.tasks@.len() && (#[trigger] input.tasks@[t]).id@ == row.id && task_fits(
                input,
                parent->0,
                t,
            ),
    }
}

/// Rows that stand under one row, or at the top, with all that stands under
/// them.
spec fn is_forest(
    input: GroupingInput,
    rows: Seq<RowText>,
    level: int,
    hidden: bool,
    parent: Option<RowText>,
) -> bool {
    &&& rows.len() > 0 ==> rows[0].depth == level
    &&& forall|k: int| 0 <= k < rows.len() ==> (#[trigger] rows[k]).depth >= level
    &&& forall|k: int|
        0 <= k < rows.len() ==> ((#[trigger] rows[k]).hidden <==> hidden || is_under_collapsed(
            input,
            rows,
            k,
        ))
    &&& forall|k: int|
        0 <= k < rows.len() && (#[trigger] rows[k]).depth == level ==> fits(input, parent, rows[k])
    &&& forall|k: int|
        0 <= k < rows.len() && (#[trigger] rows[k]).depth > level ==> has_its_place(input, rows, k)
}

/// The row stands under a row that it belongs to.
pub open spec fn has_its_place(input: GroupingInput, rows: Seq<RowText>, k: int) -> bool {
    exists|j: int| #[trigger] is_parent_row(rows, j, k) && fits(input, Some(rows[j]), rows[k])
}

proof fn lemma_nothing(
    input: GroupingInput,
    level: int,
    hidden: bool,
    parent: Option<RowText>,
)
    ensures
        is_forest(input, Seq::empty(), level, hidden, parent),
{
}

pub(crate) proof fn lemma_above_before(a: Seq<RowText>, b: Seq<RowText>, j: int, k: int)
    requires
        k < a.len(),
    ensures
        is_above(a + b, j, k) <==> is_above(a, j, k),
{
    let all = a + b;
    if is_above(a, j, k) {
        assert forall|m: int| j < m <= k implies (#[trigger] all[m]).depth > all[j].depth by {
            assert(all[m] == a[m]);
        }
    }
    if is_above(all, j, k) {
        assert forall|m: int| j < m <= k implies (#[trigger] a[m]).depth > a[j].depth by {
            assert(all[m] == a[m]);
        }
    }
}

pub(crate) proof fn lemma_above_behind(a: Seq<RowText>, b: Seq<RowText>, j: int, k: int)
    requires
        0 <= j,
    ensures
        is_above(a + b, a.len() + j, a.len() + k) <==> is_above(b, j, k),
{
    let all = a + b;
    let n = a.len() as int;
    if is_above(b, j, k) {
        assert forall|m: int| n + j < m <= n + k implies (#[trigger] all[m]).depth
            > all[n + j].depth by {
            assert(all[m] == b[m - n]);
        }
    }
    if is_above(all, n + j, n + k) {
        assert forall|m: int| j < m <= k implies (#[trigger] b[m]).depth > b[j].depth by {
            assert(all[n + m] == b[m]);
        }
    }
}

/// Rows that stand under the same row, one after the other.
proof fn lemma_beside(
    input: GroupingInput,
    a: Seq<RowText>,
    b: Seq<RowText>,
    level: int,
    hidden: bool,
    parent: Option<RowText>,
)
    requires
        is_forest(input, a, level, hidden, parent),
        is_forest(input, b, level, hidden, parent),
    ensures
        is_forest(input, a + b, level, hidden, parent),
{
    let all = a + b;
    let n = a.len() as int;
    assert forall|k: int| 0 <= k < all.len() implies (#[trigger] all[k]).depth >= level by {
        if k < n {
            assert(all[k] == a[k]);
        } else {
            assert(all[k] == b[k - n]);
        }
    }
    // Nothing of the first part stands above the second.
    assert forall|j: int, k: int| #[trigger] is_above(all, j, k) && k >= n implies j >= n by {
        if j < n {
            assert(all[n] == b[0]);
            assert(all[n].depth > all[j].depth);
        }
    }
    assert forall|k: int| 0 <= k < all.len() implies ((#[trigger] all[k]).hidden <==> hidden
        || is_under_collapsed(input, all, k)) by {
        if k < n {
            assert(all[k] == a[k]);
            if is_under_collapsed(input, a, k) {
                let j = choose|j: int|
                    #[trigger] is_above(a, j, k) && texts(input.collapsed@).contains(a[j].id);
                lemma_above_before(a, b, j, k);
                assert(all[j] == a[j]);
            }
            if is_under_collapsed(input, all, k) {
                let j = choose|j: int|
                    #[trigger] is_above(all, j, k) && texts(input.collapsed@).contains(all[j].id);
                lemma_above_before(a, b, j, k);
                assert(all[j] == a[j]);
            }
        } else {
            assert(all[k] == b[k - n]);
            if is_under_collapsed(input, b, k - n) {
                let j = choose|j: int|
                    #[trigger] is_above(b, j, k - n) && texts(input.collapsed@).contains(b[j].id);
                lemma_above_behind(a, b, j, k - n);
                assert(all[n + j] == b[j]);
                assert(is_above(all, n + j, k));
            }
            if is_under_collapsed(input, all, k) {
                let j = choose|j: int|
                    #[trigger] is_above(all, j, k) && texts(input.collapsed@).contains(all[j].id);
                lemma_above_behind(a, b, j - n, k - n);
                assert(all[j] == b[j - n]);
                assert(is_above(b, j - n, k - n));
            }
        }
    }
    assert forall|k: int| 0 <= k < all.len() && (#[trigger] all[k]).depth == level implies fits(
        input,
        parent,
        all[k],
    ) by {
        if k < n {
            assert(all[k] == a[k]);
        } else {
            assert(all[k] == b[k - n]);
        }
    }
    assert forall|k: int| 0 <= k < all.len() && (#[trigger] all[k]).depth > level implies
        has_its_place(input, all, k) by {
        if k < n {
            assert(all[k] == a[k]);
            let j = choose|j: int|
                #[trigger] is_parent_row(a, j, k) && fits(input, Some(a[j]), a[k]);
            lemma_above_before(a, b, j, k);
            assert(all[j] == a[j]);
            assert(is_parent_row(all, j, k));
        } else {
            assert(all[k] == b[k - n]);
            assert(has_its_place(input, b, k - n));
            let j = choose|j: int|
                #[trigger] is_parent_row(b, j, k - n) && fits(input, Some(b[j]), b[k - n]);
            lemma_above_behind(a, b, j, k - n);
            assert(all[n + j] == b[j]);
            assert(is_parent_row(all, n + j, k));
        }
    }
    if n > 0 {
        assert(all[0] == a[0]);
    } else if b.len() > 0 {
        assert(all[0] == b[0]);
    }
}

/// A row with what stands under it.
proof fn lemma_under(
    input: GroupingInput,
    head: RowText,
    kids: Seq<RowText>,
    level: int,
    hidden: bool,
    parent: Option<RowText>,
)
    requires
        head.depth == level,
        head.hidden == hidden,
        fits(input, parent, head),
        is_forest(input, kids, level + 1, hidden || is_collapsed(input, head.id), Some(head)),
    ensures
        is_forest(input, seq![head] + kids, level, hidden, parent),
{
    let own = seq![head];
    let all = own + kids;
    assert forall|k: int| 0 <= k < all.len() implies (#[trigger] all[k]).depth >= level by {
        if k > 0 {
            assert(all[k] == kids[k - 1]);
        }
    }
    assert forall|k: int| 1 <= k < all.len() implies #[trigger] is_above(all, 0, k) by {
        assert forall|m: int| 0 < m <= k implies (#[trigger] all[m]).depth > all[0].depth by {
            assert(all[m] == kids[m - 1]);
        }
    }
    assert forall|k: int| 0 <= k < all.len() implies ((#[trigger] all[k]).hidden <==> hidden
        || is_under_collapsed(input, all, k)) by {
        if k == 0 {
            assert forall|j: int| !#[trigger] is_above(all, j, 0) by {}
        } else {
            assert(all[k] == kids[k - 1]);
            assert(is_above(all, 0, k));
            assert(all[0] == head);
            if is_under_collapsed(input, kids, k - 1) {
                let j = choose|j: int|
                    #[trigger] is_above(kids, j, k - 1) && texts(input.collapsed@).contains(
                        kids[j].id,
                    );
                lemma_above_behind(own, kids, j, k - 1);
                assert(all[j + 1] == kids[j]);
                assert(is_above(all, j + 1, k));
            }
            if is_under_collapsed(input, all, k) {
                let j = choose|j: int|
                    #[trigger] is_above(all, j, k) && texts(input.collapsed@).contains(all[j].id);
                if j > 0 {
                    lemma_above_behind(own, kids, j - 1, k - 1);
                    assert(all[j] == kids[j - 1]);
                    assert(is_above(kids, j - 1, k - 1));
                }
            }
        }
    }
    assert forall|k: int| 0 <= k < all.len() && (#[trigger] all[k]).depth > level implies
        has_its_place(input, all, k) by {
        assert(all[k] == kids[k - 1]);
        assert(all[0] == head);
        if kids[k - 1].depth == level + 1 {
            assert(is_above(all, 0, k));
            assert(is_parent_row(all, 0, k));
        } else {
            assert(has_its_place(input, kids, k - 1));
            let j = choose|j: int|
                #[trigger] is_parent_row(kids, j, k - 1) && fits(
                    input,
                    Some(kids[j]),
                    kids[k - 1],
                );
            lemma_above_behind(own, kids, j, k - 1);
            assert(all[j + 1] == kids[j]);
            assert(is_parent_row(all, j + 1, k));
        }
    }
    assert forall|k: int| 0 <= k < all.len() && (#[trigger] all[k]).depth == level implies fits(
        input,
        parent,
        all[k],
    ) by {
        if k > 0 {
            assert(all[k] == kids[k - 1]);
        }
    }
}

// ---------------------------------------------------------------------------
// Tasks
// ---------------------------------------------------------------------------

/// Tasks that may all stand under a row.
spec fn all_fit(input: GroupingInput, parent: RowText, list: Seq<usize>) -> bool {
    forall|k: int|
        0 <= k < list.len() ==> (#[trigger] list[k]) < input.tasks@.len() && task_fits(
            input,
            parent,
            list[k] as int,
        )
}

proof fn lemma_task_tree(
    input: GroupingInput,
    cuts: Seq<(Seq<char>, Seq<char>)>,
    i: usize,
    level: int,
    hidden: bool,
    depth: nat,
    parent: RowText,
)
    requires
        i < input.tasks@.len() <= usize::MAX,
        task_fits(input, parent, i as int),
    ensures
        is_forest(
            input,
            task_rows(input, cuts, i, level, hidden, depth),
            level,
            hidden,
            Some(parent),
        ),
    decreases depth, 0int, 0int,
{
    if depth == 0 {
        lemma_nothing(input, level, hidden, Some(parent));
    } else {
        let tasks = input.tasks@;
        let id = tasks[i as int].id@;
        let kids = subtasks(input, cuts, id);
        let row = RowText { id, depth: level, hidden, has_children: kids.len() > 0, group: None };
        assert(tasks[i as int].id@ == row.id);
        if kids.len() > 0 {
            assert(kids.contains(kids[0]));
            lemma_same_items(children_of(tasks, cuts, id), task_order(input), kids[0]);
            lemma_hanging(tasks, cuts, id, tasks.len() as int, kids[0]);
            assert(optional_text(tasks[kids[0] as int].parent_id) == Some(id));
        }
        assert(fits(input, Some(parent), row));
        assert forall|k: int| 0 <= k < kids.len() implies (#[trigger] kids[k]) < tasks.len()
            && task_fits(input, row, kids[k] as int) by {
            let children = children_of(tasks, cuts, id);
            assert(kids.contains(kids[k]));
            lemma_same_items(children, task_order(input), kids[k]);
            lemma_hanging(tasks, cuts, id, tasks.len() as int, kids[k]);
        }
        let below = hidden || is_collapsed(input, id);
        lemma_tasks_tree(input, cuts, kids, level + 1, below, (depth - 1) as nat, row);
        lemma_under(
            input,
            row,
            rows_of_tasks(input, cuts, kids, level + 1, below, (depth - 1) as nat),
            level,
            hidden,
            Some(parent),
        );
    }
}

proof fn lemma_tasks_tree(
    input: GroupingInput,
    cuts: Seq<(Seq<char>, Seq<char>)>,
    list: Seq<usize>,
    level: int,
    hidden: bool,
    depth: nat,
    parent: RowText,
)
    requires
        input.tasks@.len() <= usize::MAX,
        all_fit(input, parent, list),
    ensures
        is_forest(
            input,
            rows_of_tasks(input, cuts, list, level, hidden, depth),
            level,
            hidden,
            Some(parent),
        ),
    decreases depth, 1int, list.len(),
{
    if list.len() == 0 {
        lemma_nothing(input, level, hidden, Some(parent));
    } else {
        let front = list.drop_last();
        assert forall|k: int| 0 <= k < front.len() implies (#[trigger] front[k])
            < input.tasks@.len() && task_fits(input, parent, front[k] as int) by {
            assert(front[k] == list[k]);
        }
        assert(list[list.len() - 1] == list.last());
        lemma_tasks_tree(input, cuts, front, level, hidden, depth, parent);
        lemma_task_tree(input, cuts, list.last(), level, hidden, depth, parent);
        lemma_beside(
            input,
            rows_of_tasks(input, cuts, front, level, hidden, depth),
            task_rows(input, cuts, list.last(), level, hidden, depth),
            level,
            hidden,
            Some(parent),
        );
    }
}

/// A header with its tasks.
proof fn lemma_group_tree(
    input: GroupingInput,
    cuts: Seq<(Seq<char>, Seq<char>)>,
    head: RowText,
    items: Seq<usize>,
    parent: Option<RowText>,
)
    requires
        input.tasks@.len() <= usize::MAX,
        fits(input, parent, head),
        all_fit(input, head, items),
    ensures
        is_forest(
            input,
            seq![head] + rows_of_tasks(
                input,
                cuts,
                items,
                head.depth + 1,
                head.hidden || is_collapsed(input, head.id),
                input.tasks@.len(),
            ),
            head.depth,
            head.hidden,
            parent,
        ),
{
    let below = head.hidden || is_collapsed(input, head.id);
    lemma_tasks_tree(
        input,
        cuts,
        items,
        head.depth + 1,
        below,
        input.tasks@.len(),
        head,
    );
    lemma_under(
        input,
        head,
        rows_of_tasks(input, cuts, items, head.depth + 1, below, input.tasks@.len()),
        head.depth,
        head.hidden,
        parent,
    );
}

// ---------------------------------------------------------------------------
// Lists and sections
// ---------------------------------------------------------------------------

/// Tasks that a list of the view may hold.
spec fn are_of_list(input: GroupingInput, items: Seq<usize>, list_id: Seq<char>) -> bool {
    forall|k: int|
        0 <= k < items.len() ==> (#[trigger] items[k]) < input.tasks@.len() && is_for_lists(
            input,
            items[k] as int,
        ) && input.tasks@[items[k] as int].list_id@ == list_id
}

proof fn lemma_section_tree(
    input: GroupingInput,
    cuts: Seq<(Seq<char>, Seq<char>)>,
    place: ListPlace,
    items: Seq<usize>,
    section: Seq<char>,
    head: RowText,
)
    requires
        input.tasks@.len() <= usize::MAX,
        are_of_list(input, items, place.list_id),
        is_section(sections_of(input, place.list_id), section),
        is_head(Some(head), GroupKind::List),
        head.group->0.list_id == Some(place.list_id),
        head.id == place.id,
        place == list_place(input, place.list_id, input.group_by is State),
    ensures
        is_forest(
            input,
            section_rows(input, cuts, place, items, section),
            place.level + 1,
            place.hidden || is_collapsed(input, place.id),
            Some(head),
        ),
{
    let rows = section_rows(input, cuts, place, items, section);
    let mine = in_section(input, items, section);
    let hidden = place.hidden || is_collapsed(input, place.id);
    if mine.len() == 0 {
        lemma_nothing(input, place.level + 1, hidden, Some(head));
    } else {
        let own = rows[0];
        let keep = |i: usize| optional_text(input.tasks@[i as int].section_id) == Some(section);
        assert forall|k: int| 0 <= k < mine.len() implies (#[trigger] mine[k]) < input.tasks@.len()
            && task_fits(input, own, mine[k] as int) by {
            assert(mine.contains(mine[k]));
            lemma_kept(items, keep, mine[k]);
            let at = choose|at: int| 0 <= at < items.len() && items[at] == mine[k];
            assert(items[at] < input.tasks@.len());
            let sections = sections_of(input, place.list_id);
            let s = choose|s: int| 0 <= s < sections.len() && (#[trigger] sections[s]).id@ == section;
            assert(sections_of(input, input.tasks@[mine[k] as int].list_id@)[s].id@ == section);
        }
        lemma_group_tree(input, cuts, own, mine, Some(head));
        assert(rows =~= seq![own] + rows_of_tasks(
            input,
            cuts,
            mine,
            own.depth + 1,
            own.hidden || is_collapsed(input, own.id),
            input.tasks@.len(),
        ));
    }
}

proof fn lemma_sections_tree(
    input: GroupingInput,
    cuts: Seq<(Seq<char>, Seq<char>)>,
    place: ListPlace,
    items: Seq<usize>,
    order: Seq<usize>,
    head: RowText,
)
    requires
        input.tasks@.len() <= usize::MAX,
        are_of_list(input, items, place.list_id),
        forall|k: int|
            0 <= k < order.len() ==> (#[trigger] order[k]) < sections_of(
                input,
                place.list_id,
            ).len(),
        is_head(Some(head), GroupKind::List),
        head.group->0.list_id == Some(place.list_id),
        head.id == place.id,
        place == list_place(input, place.list_id, input.group_by is State),
    ensures
        is_forest(
            input,
            rows_of_sections(
                input,
                cuts,
                place,
                items,
                sections_of(input, place.list_id),
                order,
            ),
            place.level + 1,
            place.hidden || is_collapsed(input, place.id),
            Some(head),
        ),
    decreases order.len(),
{
    let sections = sections_of(input, place.list_id);
    let hidden = place.hidden || is_collapsed(input, place.id);
    if order.len() == 0 {
        lemma_nothing(input, place.level + 1, hidden, Some(head));
    } else {
        let front = order.drop_last();
        assert forall|k: int| 0 <= k < front.len() implies (#[trigger] front[k])
            < sections.len() by {
            assert(front[k] == order[k]);
        }
        assert(order[order.len() - 1] == order.last());
        let section = sections[order.last() as int].id@;
        lemma_sections_tree(input, cuts, place, items, front, head);
        lemma_section_tree(input, cuts, place, items, section, head);
        lemma_beside(
            input,
            rows_of_sections(input, cuts, place, items, sections, front),
            section_rows(input, cuts, place, items, section),
            place.level + 1,
            hidden,
            Some(head),
        );
    }
}

proof fn lemma_order_below(n: int, less: spec_fn(usize, usize) -> bool)
    requires
        0 <= n <= usize::MAX,
    ensures
        forall|k: int|
            0 <= k < in_order(positions(n), less).len() ==> (#[trigger] in_order(
                positions(n),
                less,
            )[k]) < n,
{
    let places = positions(n);
    let r = in_order(places, less);
    assert forall|k: int| 0 <= k < r.len() implies (#[trigger] r[k]) < n by {
        assert(r.contains(r[k]));
        lemma_same_items(places, less, r[k]);
        let at = choose|at: int| 0 <= at < places.len() && places[at] == r[k];
        assert(places[at] == at as usize);
    }
}

proof fn lemma_list_tree(
    input: GroupingInput,
    cuts: Seq<(Seq<char>, Seq<char>)>,
    list_id: Seq<char>,
    items: Seq<usize>,
    parent: Option<RowText>,
)
    requires
        input.tasks@.len() <= usize::MAX,
        sections_of(input, list_id).len() <= usize::MAX,
        are_of_list(input, items, list_id),
        input.group_by is State ==> is_head(parent, GroupKind::Backlog) && parent->0.id
            == BACKLOG_GROUP_ID@,
        input.group_by is List ==> parent is None,
    ensures
        ({
            let place = list_place(input, list_id, input.group_by is State);
            is_forest(
                input,
                list_rows(input, cuts, place, items),
                place.level,
                place.hidden,
                parent,
            )
        }),
{
    let place = list_place(input, list_id, input.group_by is State);
    let rows = list_rows(input, cuts, place, items);
    let head = rows[0];
    let sections = sections_of(input, list_id);
    let order = sections_by_name(input, sections);
    let loose = unsectioned(input, items, sections);
    let hidden = place.hidden || is_collapsed(input, place.id);
    let n = input.tasks@.len();
    let keep = |i: usize|
        match optional_text(input.tasks@[i as int].section_id) {
            Some(id) => !is_section(sections, id),
            None => true,
        };
    assert forall|k: int| 0 <= k < loose.len() implies (#[trigger] loose[k]) < n && task_fits(
        input,
        head,
        loose[k] as int,
    ) by {
        assert(loose.contains(loose[k]));
        lemma_kept(items, keep, loose[k]);
        let at = choose|at: int| 0 <= at < items.len() && items[at] == loose[k];
        assert(items[at] < n);
        if is_sectioned(input, loose[k] as int) {
            let id = optional_text(input.tasks@[loose[k] as int].section_id)->0;
            let s = choose|s: int|
                0 <= s < sections_of(input, input.tasks@[loose[k] as int].list_id@).len() && (
                #[trigger] sections_of(input, input.tasks@[loose[k] as int].list_id@)[s]).id@ == id;
            assert(sections[s].id@ == id);
            assert(is_section(sections, id));
        }
    }
    lemma_order_below(
        sections.len() as int,
        |a: usize, b: usize|
            title_first(
                sections[a as int].name@,
                sections[b as int].name@,
                language_of(input.language@),
            ),
    );
    lemma_tasks_tree(input, cuts, loose, place.level + 1, hidden, n, head);
    lemma_sections_tree(input, cuts, place, items, order, head);
    let first = rows_of_tasks(input, cuts, loose, place.level + 1, hidden, n);
    let second = rows_of_sections(input, cuts, place, items, sections, order);
    lemma_beside(input, first, second, place.level + 1, hidden, Some(head));
    lemma_under(input, head, first + second, place.level, place.hidden, parent);
    assert(rows =~= seq![head] + (first + second));
}

proof fn lemma_lists_tree(
    input: GroupingInput,
    cuts: Seq<(Seq<char>, Seq<char>)>,
    items: Seq<usize>,
    lists: Seq<Seq<char>>,
    order: Seq<usize>,
    parent: Option<RowText>,
)
    requires
        input.tasks@.len() <= usize::MAX,
        forall|l: Seq<char>| #[trigger] sections_of(input, l).len() <= usize::MAX,
        forall|k: int|
            0 <= k < items.len() ==> (#[trigger] items[k]) < input.tasks@.len() && is_for_lists(
                input,
                items[k] as int,
            ),
        input.group_by is State ==> is_head(parent, GroupKind::Backlog) && parent->0.id
            == BACKLOG_GROUP_ID@,
        input.group_by is List ==> parent is None,
    ensures
        ({
            let in_backlog = input.group_by is State;
            let place = list_place(input, Seq::empty(), in_backlog);
            is_forest(
                input,
                rows_of_lists(input, cuts, items, lists, order, in_backlog),
                place.level,
                place.hidden,
                parent,
            )
        }),
    decreases order.len(),
{
    let in_backlog = input.group_by is State;
    let place = list_place(input, Seq::empty(), in_backlog);
    if order.len() == 0 {
        lemma_nothing(input, place.level, place.hidden, parent);
    } else {
        let front = order.drop_last();
        let list_id = lists[order.last() as int];
        let own = in_list(input, items, list_id);
        assert forall|k: int| 0 <= k < own.len() implies (#[trigger] own[k]) < input.tasks@.len()
            && is_for_lists(input, own[k] as int) && input.tasks@[own[k] as int].list_id@
            == list_id by {
            assert(own.contains(own[k]));
            lemma_kept(items, is_in_list(input, list_id), own[k]);
            let at = choose|at: int| 0 <= at < items.len() && items[at] == own[k];
            assert(items[at] < input.tasks@.len());
        }
        lemma_lists_tree(input, cuts, items, lists, front, parent);
        lemma_list_tree(input, cuts, list_id, own, parent);
        lemma_beside(
            input,
            rows_of_lists(input, cuts, items, lists, front, in_backlog),
            list_rows(input, cuts, list_place(input, list_id, in_backlog), own),
            place.level,
            place.hidden,
            parent,
        );
    }
}

// ---------------------------------------------------------------------------
// The view
// ---------------------------------------------------------------------------

proof fn lemma_flat_tree(
    input: GroupingInput,
    cuts: Seq<(Seq<char>, Seq<char>)>,
    id: Seq<char>,
    kind: GroupKind,
    items: Seq<usize>,
)
    requires
        input.tasks@.len() <= usize::MAX,
        input.group_by is State,
        (kind is Overdue && id == OVERDUE_GROUP_ID@) || (kind is Today && id == TODAY_GROUP_ID@)
            || (kind is Deferred && id == DEFERRED_GROUP_ID@),
        forall|head: RowText| #[trigger] is_head(Some(head), kind) ==> all_fit(input, head, items),
    ensures
        is_forest(input, flat_rows(input, cuts, id, kind, items), 0, false, None),
{
    let rows = flat_rows(input, cuts, id, kind, items);
    if items.len() == 0 {
        lemma_nothing(input, 0, false, None);
    } else {
        let head = rows[0];
        assert(is_head(Some(head), kind));
        lemma_group_tree(input, cuts, head, items, None);
        assert(rows =~= seq![head] + rows_of_tasks(
            input,
            cuts,
            items,
            head.depth + 1,
            head.hidden || is_collapsed(input, head.id),
            input.tasks@.len(),
        ));
    }
}

proof fn lemma_open_tree(
    input: GroupingInput,
    cuts: Seq<(Seq<char>, Seq<char>)>,
    open: Seq<usize>,
)
    requires
        input.tasks@.len() <= usize::MAX,
        forall|l: Seq<char>| #[trigger] sections_of(input, l).len() <= usize::MAX,
        forall|k: int|
            0 <= k < open.len() ==> (#[trigger] open[k]) < input.tasks@.len() && is_active(
                input,
                open[k] as int,
            ),
    ensures
        is_forest(input, open_rows(input, cuts, open), 0, false, None),
{
    match input.group_by {
        GroupBy::List => {
            let lists = lists_seen(input, open);
            lemma_lists_tree(input, cuts, open, lists, lists_by_name(input, lists), None);
        },
        GroupBy::State => {
            let late = overdue_tasks(input, open);
            let now = today_tasks(input, open);
            let loose = backlog_tasks(input, open);
            let ahead = future_tasks(input, open);
            let a = flat_rows(input, cuts, OVERDUE_GROUP_ID@, GroupKind::Overdue, late);
            let b = flat_rows(input, cuts, TODAY_GROUP_ID@, GroupKind::Today, now);
            let c = backlog_rows(input, cuts, loose);
            let d = flat_rows(input, cuts, DEFERRED_GROUP_ID@, GroupKind::Deferred, ahead);
            lemma_late_fit(input, open);
            lemma_now_fit(input, open);
            lemma_ahead_fit(input, open);
            lemma_flat_tree(input, cuts, OVERDUE_GROUP_ID@, GroupKind::Overdue, late);
            lemma_flat_tree(input, cuts, TODAY_GROUP_ID@, GroupKind::Today, now);
            lemma_flat_tree(input, cuts, DEFERRED_GROUP_ID@, GroupKind::Deferred, ahead);
            if loose.len() == 0 {
                lemma_nothing(input, 0, false, None);
            } else {
                let head = c[0];
                let keep = |i: usize| !waits(input, i) && planned(input, i) is None;
                assert forall|k: int| 0 <= k < loose.len() implies (#[trigger] loose[k])
                    < input.tasks@.len() && is_for_lists(input, loose[k] as int) by {
                    assert(loose.contains(loose[k]));
                    lemma_kept(open, keep, loose[k]);
                    let at = choose|at: int| 0 <= at < open.len() && open[at] == loose[k];
                    assert(open[at] < input.tasks@.len());
                }
                let lists = lists_seen(input, loose);
                let order = lists_by_name(input, lists);
                lemma_lists_tree(input, cuts, loose, lists, order, Some(head));
                let kids = rows_by_list(input, cuts, loose, true);
                lemma_under(input, head, kids, 0, false, None);
                assert(c =~= seq![head] + kids);
            }
            lemma_beside(input, a, b, 0, false, None);
            lemma_beside(input, a + b, c, 0, false, None);
            lemma_beside(input, a + b + c, d, 0, false, None);
        },
    }
}

proof fn lemma_late_fit(input: GroupingInput, open: Seq<usize>)
    requires
        forall|k: int|
            0 <= k < open.len() ==> (#[trigger] open[k]) < input.tasks@.len() && is_active(
                input,
                open[k] as int,
            ),
    ensures
        forall|head: RowText| #[trigger]
            is_head(Some(head), GroupKind::Overdue) ==> all_fit(
                input,
                head,
                overdue_tasks(input, open),
            ),
{
    let items = overdue_tasks(input, open);
    let keep = |i: usize|
        !waits(input, i) && (planned(input, i) matches Some(d) && d.before(input.today@));
    assert forall|head: RowText| #[trigger] is_head(Some(head), GroupKind::Overdue) implies all_fit(
        input,
        head,
        items,
    ) by {
        assert forall|k: int| 0 <= k < items.len() implies (#[trigger] items[k])
            < input.tasks@.len() && task_fits(input, head, items[k] as int) by {
            assert(items.contains(items[k]));
            lemma_kept(open, keep, items[k]);
            let at = choose|at: int| 0 <= at < open.len() && open[at] == items[k];
            assert(open[at] < input.tasks@.len());
        }
    }
}

proof fn lemma_now_fit(input: GroupingInput, open: Seq<usize>)
    requires
        forall|k: int|
            0 <= k < open.len() ==> (#[trigger] open[k]) < input.tasks@.len() && is_active(
                input,
                open[k] as int,
            ),
    ensures
        forall|head: RowText| #[trigger]
            is_head(Some(head), GroupKind::Today) ==> all_fit(
                input,
                head,
                today_tasks(input, open),
            ),
{
    let items = today_tasks(input, open);
    let keep = |i: usize| !waits(input, i) && planned(input, i) == Some(input.today@);
    assert forall|head: RowText| #[trigger] is_head(Some(head), GroupKind::Today) implies all_fit(
        input,
        head,
        items,
    ) by {
        assert forall|k: int| 0 <= k < items.len() implies (#[trigger] items[k])
            < input.tasks@.len() && task_fits(input, head, items[k] as int) by {
            assert(items.contains(items[k]));
            lemma_kept(open, keep, items[k]);
            let at = choose|at: int| 0 <= at < open.len() && open[at] == items[k];
            assert(open[at] < input.tasks@.len());
        }
    }
}

proof fn lemma_ahead_fit(input: GroupingInput, open: Seq<usize>)
    requires
        forall|k: int|
            0 <= k < open.len() ==> (#[trigger] open[k]) < input.tasks@.len() && is_active(
                input,
                open[k] as int,
            ),
    ensures
        forall|head: RowText| #[trigger]
            is_head(Some(head), GroupKind::Deferred) ==> all_fit(
                input,
                head,
                future_tasks(input, open),
            ),
{
    let items = future_tasks(input, open);
    let waiting = |i: usize| waits(input, i);
    let later = |i: usize|
        !waits(input, i) && (planned(input, i) matches Some(d) && input.today@.before(d));
    let less = |a: usize, b: usize|
        match (future_day(input, a), future_day(input, b)) {
            (Some(x), Some(y)) => x.before(y),
            _ => false,
        };
    let a = those(open, waiting);
    let b = those(open, later);
    assert forall|head: RowText| #[trigger]
        is_head(Some(head), GroupKind::Deferred) implies all_fit(input, head, items) by {
        assert forall|k: int| 0 <= k < items.len() implies (#[trigger] items[k])
            < input.tasks@.len() && task_fits(input, head, items[k] as int) by {
            assert(items.contains(items[k]));
            lemma_same_items(a + b, less, items[k]);
            lemma_joined(a, b, items[k]);
            lemma_kept(open, waiting, items[k]);
            lemma_kept(open, later, items[k]);
            let at = choose|at: int| 0 <= at < open.len() && open[at] == items[k];
            assert(open[at] < input.tasks@.len());
        }
    }
}

/// The whole view is a tree of the kind.
proof fn lemma_grouped_tree(input: GroupingInput)
    requires
        input.tasks@.len() <= usize::MAX,
        forall|l: Seq<char>| #[trigger] sections_of(input, l).len() <= usize::MAX,
    ensures
        is_forest(input, grouped(input), 0, false, None),
{
    let tasks = input.tasks@;
    let guard = settled(tasks);
    let top = guard.top;
    lemma_top_is_free(tasks, tasks.len() as int);
    let open = open_tasks(input, top);
    let done = done_tasks(input, top);
    let gone = cancelled_tasks(input, top);
    let still = |i: usize| !input.tasks@[i as int].status.terminal();
    let finished = |i: usize| input.tasks@[i as int].status is Completed;
    let dropped = |i: usize| input.tasks@[i as int].status is Cancelled;
    let latest = |a: usize, b: usize|
        done_moment(input.tasks@[b as int]).before(done_moment(input.tasks@[a as int]));
    let changed = |a: usize, b: usize|
        input.tasks@[b as int].updated_at@.before(input.tasks@[a as int].updated_at@);
    assert forall|k: int| 0 <= k < open.len() implies (#[trigger] open[k]) < tasks.len()
        && is_active(input, open[k] as int) by {
        assert(open.contains(open[k]));
        lemma_same_items(those(top, still), task_order(input), open[k]);
        lemma_kept(top, still, open[k]);
        let at = choose|at: int| 0 <= at < top.len() && top[at] == open[k];
        assert(top[at] < tasks.len());
    }
    lemma_open_tree(input, guard.cuts, open);
    let a = open_rows(input, guard.cuts, open);
    let b = done_rows(input, guard.cuts, done);
    let c = cancelled_rows(input, guard.cuts, gone);
    if done.len() == 0 {
        lemma_nothing(input, 0, false, None);
    } else {
        let head = b[0];
        assert forall|k: int| 0 <= k < done.len() implies (#[trigger] done[k]) < tasks.len()
            && task_fits(input, head, done[k] as int) by {
            assert(done.contains(done[k]));
            lemma_same_items(those(top, finished), latest, done[k]);
            lemma_kept(top, finished, done[k]);
            let at = choose|at: int| 0 <= at < top.len() && top[at] == done[k];
            assert(top[at] < tasks.len());
        }
        lemma_group_tree(input, guard.cuts, head, done, None);
        assert(b =~= seq![head] + rows_of_tasks(
            input,
            guard.cuts,
            done,
            head.depth + 1,
            head.hidden || is_collapsed(input, head.id),
            tasks.len(),
        ));
    }
    if gone.len() == 0 {
        lemma_nothing(input, 0, false, None);
    } else {
        let head = c[0];
        assert forall|k: int| 0 <= k < gone.len() implies (#[trigger] gone[k]) < tasks.len()
            && task_fits(input, head, gone[k] as int) by {
            assert(gone.contains(gone[k]));
            lemma_same_items(those(top, dropped), changed, gone[k]);
            lemma_kept(top, dropped, gone[k]);
            let at = choose|at: int| 0 <= at < top.len() && top[at] == gone[k];
            assert(top[at] < tasks.len());
        }
        lemma_group_tree(input, guard.cuts, head, gone, None);
        assert(c =~= seq![head] + rows_of_tasks(
            input,
            guard.cuts,
            gone,
            head.depth + 1,
            head.hidden || is_collapsed(input, head.id),
            tasks.len(),
        ));
    }
    lemma_beside(input, a, b, 0, false, None);
    lemma_beside(input, a + b, c, 0, false, None);
}

/// A row is hidden exactly where some row above it is collapsed, however far up:
/// above a row stand the rows before it that all rows from there on are deeper
/// than. So whatever stands under a hidden row is hidden.
pub proof fn a_row_is_hidden_where_something_above_is_collapsed(input: GroupingInput, k: int)
    requires
        input.tasks@.len() <= usize::MAX,
        forall|l: Seq<char>| #[trigger] sections_of(input, l).len() <= usize::MAX,
        0 <= k < grouped(input).len(),
    ensures
        grouped(input)[k].hidden <==> exists|j: int|
            #[trigger] is_above(grouped(input), j, k) && texts(input.collapsed@).contains(
                grouped(input)[j].id,
            ),
        forall|j: int|
            #[trigger] is_above(grouped(input), j, k) && grouped(input)[j].hidden ==> grouped(
                input,
            )[k].hidden,
{
    let rows = grouped(input);
    lemma_grouped_tree(input);
    assert(rows[k].hidden <==> is_under_collapsed(input, rows, k));
    assert forall|j: int| #[trigger] is_above(rows, j, k) && rows[j].hidden implies
        rows[k].hidden by {
        assert(is_under_collapsed(input, rows, j));
        let i = choose|i: int|
            #[trigger] is_above(rows, i, j) && texts(input.collapsed@).contains(rows[i].id);
        assert(is_above(rows, i, k)) by {
            assert(rows[j].depth > rows[i].depth);
            assert forall|m: int| i < m <= k implies (#[trigger] rows[m]).depth
                > rows[i].depth by {
                if m > j {
                    assert(rows[m].depth > rows[j].depth);
                }
            }
        }
    }
}

/// Every row stands where it belongs. A row at the top is a header. Any other
/// row stands one level under a row that it belongs to: a task under the task it
/// names as its parent, or under the header of its state, its day, its list or
/// its section; a list under the backlog in a view by state; a section under its
/// list.
pub proof fn every_row_stands_where_it_belongs(input: GroupingInput, k: int)
    requires
        input.tasks@.len() <= usize::MAX,
        forall|l: Seq<char>| #[trigger] sections_of(input, l).len() <= usize::MAX,
        0 <= k < grouped(input).len(),
    ensures
        grouped(input)[k].depth >= 0,
        grouped(input)[k].depth == 0 ==> grouped(input)[k].group is Some && fits(
            input,
            None,
            grouped(input)[k],
        ),
        grouped(input)[k].depth > 0 ==> exists|j: int|
            #[trigger] is_parent_row(grouped(input), j, k) && fits(
                input,
                Some(grouped(input)[j]),
                grouped(input)[k],
            ),
{
    let rows = grouped(input);
    lemma_grouped_tree(input);
    if rows[k].depth > 0 {
        assert(has_its_place(input, rows, k));
    }
}

} // verus!
