//! What the task view's headers say of what stands under them: each counts the
//! tasks under it.

use vstd::prelude::*;

use crate::collation::{language_of, name_first, title_first};
use crate::order::{
    all_below, in_order, lemma_those, ordering_keeps_every_item, positions, put_in, those,
};
use crate::task_coverage::{
    lemma_positions_fit, lemma_same_items, lemma_top_differs, lemma_top_is_free,
};
use crate::task_grouping::{
    backlog_rows, backlog_tasks, cancelled_rows, cancelled_tasks, children_of, done_moment,
    done_rows, done_tasks, families, family_of, flat_rows, future_tasks, grouped, in_list,
    in_section, is_collapsed, is_in_list, is_section, list_place, list_rows, lists_by_name,
    lists_seen, name_of, open_rows, open_tasks, overdue_tasks, planned, rows_by_list, rows_of_lists,
    rows_of_sections, rows_of_tasks, section_rows, sections_by_name, sections_of, settled, subtasks,
    task_is_mine, task_order, task_rows, today_tasks, total_under, unsectioned, waits, GroupBy,
    GroupKind, GroupingInput, ListPlace, RowText, CANCELLED_GROUP_ID, DEFERRED_GROUP_ID,
    DONE_GROUP_ID, OVERDUE_GROUP_ID, TODAY_GROUP_ID,
};
use crate::task_rows_once::sections_differ;
use crate::task_tree::{is_above, lemma_above_before, lemma_above_behind};
use crate::text::optional_text;
use crate::types::Section;

verus! {

// ---------------------------------------------------------------------------
// Counting
// ---------------------------------------------------------------------------

/// How many of the first `n` rows are tasks that stand under the row `k`, no
/// more than `deepest` levels below it.
pub open spec fn tasks_under(rows: Seq<RowText>, k: int, deepest: int, n: int) -> int
    decreases n,
{
    if n <= 0 {
        0
    } else {
        tasks_under(rows, k, deepest, n - 1) + if is_above(rows, k, n - 1) && rows[n - 1].group
            is None && rows[n - 1].depth <= rows[k].depth + deepest {
            1int
        } else {
            0int
        }
    }
}

/// How many of the first `n` rows are tasks, no deeper than `deepest`.
spec fn tasks_in(rows: Seq<RowText>, deepest: int, n: int) -> int
    decreases n,
{
    if n <= 0 {
        0
    } else {
        tasks_in(rows, deepest, n - 1) + if rows[n - 1].group is None && rows[n - 1].depth
            <= deepest {
            1int
        } else {
            0int
        }
    }
}

/// A header counts what stands under it: all tasks, however deep, or the ones
/// directly under it where it is one of finished tasks.
pub open spec fn counts_right(rows: Seq<RowText>, k: int) -> bool {
    rows[k].group matches Some(head) ==> {
        &&& head.count == if head.kind is Done || head.kind is Cancelled {
            tasks_under(rows, k, 1, rows.len() as int)
        } else {
            tasks_under(rows, k, rows.len() as int, rows.len() as int)
        }
    }
}

/// What stands under a row of the first part is in the first part.
proof fn lemma_under_first(a: Seq<RowText>, b: Seq<RowText>, k: int, deepest: int, n: int)
    requires
        0 <= k < a.len(),
        b.len() > 0 ==> b[0].depth <= a[k].depth,
        0 <= n <= a.len() + b.len(),
    ensures
        tasks_under(a + b, k, deepest, n) == tasks_under(
            a,
            k,
            deepest,
            if n < a.len() {
                n
            } else {
                a.len() as int
            },
        ),
    decreases n,
{
    let all = a + b;
    if n > 0 {
        lemma_under_first(a, b, k, deepest, n - 1);
        if n <= a.len() {
            lemma_above_before(a, b, k, n - 1);
            assert(all[n - 1] == a[n - 1]);
        } else {
            if is_above(all, k, n - 1) {
                assert(all[a.len() as int] == b[0]);
                assert(all[a.len() as int].depth > all[k].depth);
            }
        }
    }
}

/// What stands under a row of the second part is in the second part.
proof fn lemma_under_second(a: Seq<RowText>, b: Seq<RowText>, k: int, deepest: int, n: int)
    requires
        0 <= k < b.len(),
        0 <= n <= b.len(),
    ensures
        tasks_under(a + b, a.len() + k, deepest, a.len() + n) == tasks_under(b, k, deepest, n),
    decreases n,
{
    let all = a + b;
    if n > 0 {
        lemma_under_second(a, b, k, deepest, n - 1);
        lemma_above_behind(a, b, k, n - 1);
        assert(all[a.len() + n - 1] == b[n - 1]);
    } else {
        lemma_under_before(all, a.len() + k, deepest, a.len() as int);
    }
}

proof fn lemma_under_before(rows: Seq<RowText>, k: int, deepest: int, n: int)
    requires
        n <= k,
    ensures
        tasks_under(rows, k, deepest, n) == 0,
    decreases n,
{
    if n > 0 {
        lemma_under_before(rows, k, deepest, n - 1);
    }
}

/// A bound on the levels below a row that none passes is no bound.
proof fn lemma_no_bound(rows: Seq<RowText>, k: int, a: int, b: int, n: int)
    requires
        0 <= n <= rows.len(),
        0 <= k < rows.len(),
        forall|m: int|
            0 <= m < rows.len() && is_above(rows, k, m) ==> (#[trigger] rows[m]).depth
                <= rows[k].depth + a && rows[m].depth <= rows[k].depth + b,
    ensures
        tasks_under(rows, k, a, n) == tasks_under(rows, k, b, n),
    decreases n,
{
    if n > 0 {
        lemma_no_bound(rows, k, a, b, n - 1);
        if is_above(rows, k, n - 1) {
            assert(rows[n - 1].depth <= rows[k].depth + a);
        }
    }
}

/// Rows that step down nest no deeper than there are rows between.
spec fn steps(rows: Seq<RowText>) -> bool {
    forall|m: int, l: int|
        0 <= m && l == m + 1 && l < rows.len() ==> (#[trigger] rows[l]).depth <= (
        #[trigger] rows[m]).depth + 1
}

proof fn lemma_steps(rows: Seq<RowText>, k: int, m: int)
    requires
        steps(rows),
        0 <= k <= m < rows.len(),
    ensures
        rows[m].depth <= rows[k].depth + (m - k),
    decreases m - k,
{
    if k < m {
        lemma_steps(rows, k, m - 1);
        assert(rows[m].depth <= rows[m - 1].depth + 1);
    }
}

/// A block of rows: they start on a level, go no higher, step down one level at
/// a time, and count right.
spec fn is_block(rows: Seq<RowText>, level: int) -> bool {
    &&& rows.len() > 0 ==> rows[0].depth == level
    &&& forall|k: int| 0 <= k < rows.len() ==> (#[trigger] rows[k]).depth >= level
    &&& steps(rows)
    &&& forall|k: int| 0 <= k < rows.len() && (#[trigger] rows[k]).group is Some ==> counts_right(
        rows,
        k,
    )
}

proof fn lemma_any_bound(rows: Seq<RowText>, k: int, bound: int)
    requires
        steps(rows),
        0 <= k < rows.len(),
        bound >= rows.len(),
    ensures
        tasks_under(rows, k, bound, rows.len() as int) == tasks_under(
            rows,
            k,
            rows.len() as int,
            rows.len() as int,
        ),
{
    assert forall|m: int| 0 <= m < rows.len() && is_above(rows, k, m) implies (
    #[trigger] rows[m]).depth <= rows[k].depth + bound && rows[m].depth <= rows[k].depth
        + rows.len() by {
        lemma_steps(rows, k, m);
    }
    lemma_no_bound(rows, k, bound, rows.len() as int, rows.len() as int);
}

proof fn lemma_beside(a: Seq<RowText>, b: Seq<RowText>, level: int)
    requires
        is_block(a, level),
        is_block(b, level),
    ensures
        is_block(a + b, level),
{
    let all = a + b;
    let n = a.len() as int;
    assert forall|k: int| 0 <= k < all.len() implies (#[trigger] all[k]).depth >= level by {
        if k < n {
            assert(all[k] == a[k]);
        } else {
            assert(all[k] == b[k - n]);
        }
    }
    assert forall|m: int, l: int| 0 <= m && l == m + 1 && l < all.len() implies (
    #[trigger] all[l]).depth <= (#[trigger] all[m]).depth + 1 by {
        if l < n {
            assert(all[l] == a[l] && all[m] == a[m]);
        } else if l == n {
            assert(all[l] == b[0] && all[m] == a[m]);
        } else {
            assert(all[l] == b[l - n] && all[m] == b[m - n]);
        }
    }
    assert forall|k: int|
        0 <= k < all.len() && (#[trigger] all[k]).group is Some implies counts_right(all, k) by {
        let whole = all.len() as int;
        if k < n {
            assert(all[k] == a[k]);
            assert(counts_right(a, k));
            lemma_under_first(a, b, k, 1, whole);
            lemma_under_first(a, b, k, whole, whole);
            lemma_any_bound(a, k, whole);
        } else {
            assert(all[k] == b[k - n]);
            assert(counts_right(b, k - n));
            lemma_under_second(a, b, k - n, 1, b.len() as int);
            lemma_under_second(a, b, k - n, whole, b.len() as int);
            lemma_any_bound(b, k - n, whole);
        }
    }
    if n > 0 {
        assert(all[0] == a[0]);
    } else if b.len() > 0 {
        assert(all[0] == b[0]);
    }
}

/// All the tasks of a block stand under the row it is put under.
proof fn lemma_under_head(head: RowText, kids: Seq<RowText>, deepest: int, n: int)
    requires
        forall|k: int| 0 <= k < kids.len() ==> (#[trigger] kids[k]).depth > head.depth,
        0 <= n <= kids.len(),
    ensures
        tasks_under(seq![head] + kids, 0, deepest, n + 1) == tasks_in(
            kids,
            head.depth + deepest,
            n,
        ),
    decreases n,
{
    let all = seq![head] + kids;
    if n > 0 {
        lemma_under_head(head, kids, deepest, n - 1);
        assert(is_above(all, 0, n)) by {
            assert forall|m: int| 0 < m <= n implies (#[trigger] all[m]).depth > all[0].depth by {
                assert(all[m] == kids[m - 1]);
            }
        }
        assert(all[n] == kids[n - 1]);
    } else {
        assert(!is_above(all, 0, 0));
        lemma_under_before(all, 0, deepest, 0);
    }
}

proof fn lemma_put_under(head: RowText, kids: Seq<RowText>, level: int)
    requires
        head.depth == level,
        is_block(kids, level + 1),
        head.group matches Some(h) ==> h.count == if h.kind is Done || h.kind is Cancelled {
            tasks_in(kids, level + 1, kids.len() as int)
        } else {
            tasks_in(kids, level + 1 + kids.len(), kids.len() as int)
        },
    ensures
        is_block(seq![head] + kids, level),
{
    let own = seq![head];
    let all = own + kids;
    let whole = all.len() as int;
    assert forall|k: int| 0 <= k < all.len() implies (#[trigger] all[k]).depth >= level by {
        if k > 0 {
            assert(all[k] == kids[k - 1]);
        }
    }
    assert forall|m: int, l: int| 0 <= m && l == m + 1 && l < all.len() implies (
    #[trigger] all[l]).depth <= (#[trigger] all[m]).depth + 1 by {
        assert(all[l] == kids[l - 1]);
        if m > 0 {
            assert(all[m] == kids[m - 1]);
        }
    }
    assert forall|k: int|
        0 <= k < all.len() && (#[trigger] all[k]).group is Some implies counts_right(all, k) by {
        if k == 0 {
            assert(all[0] == head);
            lemma_under_head(head, kids, 1, kids.len() as int);
            lemma_under_head(head, kids, whole, kids.len() as int);
        } else {
            assert(all[k] == kids[k - 1]);
            assert(counts_right(kids, k - 1));
            lemma_under_second(own, kids, k - 1, 1, kids.len() as int);
            lemma_under_second(own, kids, k - 1, whole, kids.len() as int);
            lemma_any_bound(kids, k - 1, whole);
        }
    }
}

proof fn lemma_tasks_in_added(a: Seq<RowText>, b: Seq<RowText>, deepest: int, n: int)
    requires
        0 <= n <= b.len(),
    ensures
        tasks_in(a + b, deepest, a.len() + n) == tasks_in(a, deepest, a.len() as int) + tasks_in(
            b,
            deepest,
            n,
        ),
    decreases n,
{
    let all = a + b;
    if n > 0 {
        lemma_tasks_in_added(a, b, deepest, n - 1);
        assert(all[a.len() + n - 1] == b[n - 1]);
    } else {
        lemma_tasks_in_first(a, b, deepest, a.len() as int);
    }
}

proof fn lemma_tasks_in_first(a: Seq<RowText>, b: Seq<RowText>, deepest: int, n: int)
    requires
        0 <= n <= a.len(),
    ensures
        tasks_in(a + b, deepest, n) == tasks_in(a, deepest, n),
    decreases n,
{
    if n > 0 {
        lemma_tasks_in_first(a, b, deepest, n - 1);
        assert((a + b)[n - 1] == a[n - 1]);
    }
}

proof fn lemma_tasks_in_bound(rows: Seq<RowText>, a: int, b: int, n: int)
    requires
        0 <= n <= rows.len(),
        forall|k: int|
            0 <= k < rows.len() ==> (#[trigger] rows[k]).depth <= a && rows[k].depth <= b,
    ensures
        tasks_in(rows, a, n) == tasks_in(rows, b, n),
    decreases n,
{
    if n > 0 {
        lemma_tasks_in_bound(rows, a, b, n - 1);
        assert(rows[n - 1].depth <= a);
    }
}

/// The tasks of a block, however deep.
spec fn total(rows: Seq<RowText>) -> int {
    if rows.len() == 0 {
        0
    } else {
        tasks_in(rows, rows[0].depth + rows.len(), rows.len() as int)
    }
}

proof fn lemma_total_is(rows: Seq<RowText>, level: int, bound: int)
    requires
        is_block(rows, level),
        bound >= level + rows.len(),
    ensures
        tasks_in(rows, bound, rows.len() as int) == total(rows),
{
    if rows.len() > 0 {
        assert forall|k: int| 0 <= k < rows.len() implies (#[trigger] rows[k]).depth <= bound
            && rows[k].depth <= rows[0].depth + rows.len() by {
            lemma_steps(rows, 0, k);
        }
        lemma_tasks_in_bound(rows, bound, rows[0].depth + rows.len(), rows.len() as int);
    }
}

proof fn lemma_total_added(a: Seq<RowText>, b: Seq<RowText>, level: int)
    requires
        is_block(a, level),
        is_block(b, level),
    ensures
        total(a + b) == total(a) + total(b),
{
    lemma_beside(a, b, level);
    let bound = level + a.len() + b.len();
    lemma_tasks_in_added(a, b, bound, b.len() as int);
    lemma_total_is(a, level, bound);
    lemma_total_is(b, level, bound);
    lemma_total_is(a + b, level, bound);
}

proof fn lemma_total_under(head: RowText, kids: Seq<RowText>, level: int)
    requires
        head.depth == level,
        is_block(kids, level + 1),
        is_block(seq![head] + kids, level),
    ensures
        total(seq![head] + kids) == total(kids) + if head.group is None {
            1int
        } else {
            0int
        },
{
    let own = seq![head];
    let bound = level + 1 + kids.len();
    lemma_tasks_in_added(own, kids, bound, kids.len() as int);
    assert(tasks_in(own, bound, 0) == 0);
    lemma_total_is(kids, level + 1, bound);
    lemma_total_is(own + kids, level, bound);
}

// ---------------------------------------------------------------------------
// Tasks and their families
// ---------------------------------------------------------------------------

/// How many tasks a list of tasks makes with all below them.
spec fn size(
    input: GroupingInput,
    cuts: Seq<(Seq<char>, Seq<char>)>,
    list: Seq<usize>,
    depth: nat,
) -> int {
    families(input.tasks@, cuts, list, depth).len() as int
}

proof fn lemma_size_push(
    input: GroupingInput,
    cuts: Seq<(Seq<char>, Seq<char>)>,
    list: Seq<usize>,
    x: usize,
    depth: nat,
)
    ensures
        size(input, cuts, list.push(x), depth) == size(input, cuts, list, depth) + family_of(
            input.tasks@,
            cuts,
            x,
            depth,
        ).len(),
{
    assert(list.push(x).drop_last() =~= list);
}

proof fn lemma_size_put(
    input: GroupingInput,
    cuts: Seq<(Seq<char>, Seq<char>)>,
    list: Seq<usize>,
    x: usize,
    less: spec_fn(usize, usize) -> bool,
    depth: nat,
)
    ensures
        size(input, cuts, put_in(list, x, less), depth) == size(input, cuts, list, depth)
            + family_of(input.tasks@, cuts, x, depth).len(),
    decreases list.len(),
{
    lemma_size_push(input, cuts, list, x, depth);
    if list.len() > 0 && less(x, list.last()) {
        let front = list.drop_last();
        lemma_size_put(input, cuts, front, x, less, depth);
        lemma_size_push(input, cuts, put_in(front, x, less), list.last(), depth);
    }
}

proof fn lemma_size_ordered(
    input: GroupingInput,
    cuts: Seq<(Seq<char>, Seq<char>)>,
    list: Seq<usize>,
    less: spec_fn(usize, usize) -> bool,
    depth: nat,
)
    ensures
        size(input, cuts, in_order(list, less), depth) == size(input, cuts, list, depth),
    decreases list.len(),
{
    if list.len() > 0 {
        let front = list.drop_last();
        lemma_size_ordered(input, cuts, front, less, depth);
        lemma_size_put(input, cuts, in_order(front, less), list.last(), less, depth);
    } else {
        assert(in_order(list, less) =~= list);
    }
}

proof fn lemma_task_block(
    input: GroupingInput,
    cuts: Seq<(Seq<char>, Seq<char>)>,
    i: usize,
    level: int,
    hidden: bool,
    depth: nat,
)
    ensures
        is_block(task_rows(input, cuts, i, level, hidden, depth), level),
        total(task_rows(input, cuts, i, level, hidden, depth)) == family_of(
            input.tasks@,
            cuts,
            i,
            depth,
        ).len(),
    decreases depth, 0int, 0int,
{
    if depth > 0 {
        let id = input.tasks@[i as int].id@;
        let kids = subtasks(input, cuts, id);
        let row = RowText { id, depth: level, hidden, has_children: kids.len() > 0, group: None };
        let below = hidden || is_collapsed(input, id);
        let rest = (depth - 1) as nat;
        let rows = rows_of_tasks(input, cuts, kids, level + 1, below, rest);
        lemma_tasks_block(input, cuts, kids, level + 1, below, rest);
        lemma_put_under(row, rows, level);
        lemma_total_under(row, rows, level);
        lemma_size_ordered(
            input,
            cuts,
            children_of(input.tasks@, cuts, id),
            task_order(input),
            rest,
        );
    }
}

proof fn lemma_tasks_block(
    input: GroupingInput,
    cuts: Seq<(Seq<char>, Seq<char>)>,
    list: Seq<usize>,
    level: int,
    hidden: bool,
    depth: nat,
)
    ensures
        is_block(rows_of_tasks(input, cuts, list, level, hidden, depth), level),
        total(rows_of_tasks(input, cuts, list, level, hidden, depth)) == size(
            input,
            cuts,
            list,
            depth,
        ),
    decreases depth, 1int, list.len(),
{
    if list.len() > 0 {
        let front = list.drop_last();
        let a = rows_of_tasks(input, cuts, front, level, hidden, depth);
        let b = task_rows(input, cuts, list.last(), level, hidden, depth);
        lemma_tasks_block(input, cuts, front, level, hidden, depth);
        lemma_task_block(input, cuts, list.last(), level, hidden, depth);
        lemma_beside(a, b, level);
        lemma_total_added(a, b, level);
    }
}

/// How many tasks of a list stand directly on a level.
proof fn lemma_direct(
    input: GroupingInput,
    cuts: Seq<(Seq<char>, Seq<char>)>,
    list: Seq<usize>,
    level: int,
    hidden: bool,
    depth: nat,
)
    requires
        depth > 0,
    ensures
        ({
            let rows = rows_of_tasks(input, cuts, list, level, hidden, depth);
            tasks_in(rows, level, rows.len() as int) == list.len()
        }),
    decreases list.len(),
{
    if list.len() > 0 {
        let front = list.drop_last();
        let a = rows_of_tasks(input, cuts, front, level, hidden, depth);
        let b = task_rows(input, cuts, list.last(), level, hidden, depth);
        lemma_direct(input, cuts, front, level, hidden, depth);
        lemma_tasks_in_added(a, b, level, b.len() as int);
        let id = input.tasks@[list.last() as int].id@;
        let kids = subtasks(input, cuts, id);
        let row = RowText { id, depth: level, hidden, has_children: kids.len() > 0, group: None };
        let below = hidden || is_collapsed(input, id);
        let rest = (depth - 1) as nat;
        let rows = rows_of_tasks(input, cuts, kids, level + 1, below, rest);
        lemma_tasks_block(input, cuts, kids, level + 1, below, rest);
        lemma_none_above(rows, level, rows.len() as int);
        lemma_tasks_in_added(seq![row], rows, level, rows.len() as int);
        assert(tasks_in(seq![row], level, 0) == 0);
        assert(b == seq![row] + rows);
    }
}

proof fn lemma_none_above(rows: Seq<RowText>, level: int, n: int)
    requires
        is_block(rows, level + 1),
        0 <= n <= rows.len(),
    ensures
        tasks_in(rows, level, n) == 0,
    decreases n,
{
    if n > 0 {
        lemma_none_above(rows, level, n - 1);
        assert(rows[n - 1].depth >= level + 1);
    }
}

/// A header of open tasks with the tasks it counts.
proof fn lemma_group_block(
    input: GroupingInput,
    cuts: Seq<(Seq<char>, Seq<char>)>,
    head: RowText,
    items: Seq<usize>,
    hidden: bool,
)
    requires
        head.group matches Some(h) && !(h.kind is Done) && !(h.kind is Cancelled) && h.count
            == total_under(input, cuts, items),
    ensures
        ({
            let rows = seq![head] + rows_of_tasks(
                input,
                cuts,
                items,
                head.depth + 1,
                hidden,
                input.tasks@.len(),
            );
            is_block(rows, head.depth) && total(rows) == total_under(input, cuts, items)
        }),
{
    let n = input.tasks@.len();
    let rows = rows_of_tasks(input, cuts, items, head.depth + 1, hidden, n);
    lemma_tasks_block(input, cuts, items, head.depth + 1, hidden, n);
    lemma_total_is(rows, head.depth + 1, head.depth + 1 + rows.len());
    lemma_put_under(head, rows, head.depth);
    lemma_total_under(head, rows, head.depth);
}

// ---------------------------------------------------------------------------
// Parts of a list
// ---------------------------------------------------------------------------

/// Two kinds of items that exclude each other make up the items of either kind.
proof fn lemma_size_split(
    input: GroupingInput,
    cuts: Seq<(Seq<char>, Seq<char>)>,
    items: Seq<usize>,
    p: spec_fn(usize) -> bool,
    q: spec_fn(usize) -> bool,
    either: spec_fn(usize) -> bool,
    depth: nat,
)
    requires
        forall|i: usize| items.contains(i) ==> (#[trigger] either(i) <==> p(i) || q(i)),
        forall|i: usize| items.contains(i) ==> !(#[trigger] p(i) && q(i)),
    ensures
        size(input, cuts, those(items, either), depth) == size(input, cuts, those(items, p), depth)
            + size(input, cuts, those(items, q), depth),
    decreases items.len(),
{
    if items.len() > 0 {
        let front = items.drop_last();
        let x = items.last();
        assert(items[items.len() - 1] == x);
        assert forall|i: usize| front.contains(i) implies items.contains(i) by {
            let k = choose|k: int| 0 <= k < front.len() && front[k] == i;
            assert(items[k] == i);
        }
        assert forall|i: usize| front.contains(i) implies (#[trigger] either(i) <==> p(i) || q(
            i,
        )) by {
            assert(items.contains(i));
        }
        assert forall|i: usize| front.contains(i) implies !(#[trigger] p(i) && q(i)) by {
            assert(items.contains(i));
        }
        lemma_size_split(input, cuts, front, p, q, either, depth);
        assert(items.contains(x));
        assert(either(x) <==> p(x) || q(x));
        assert(!(p(x) && q(x)));
        if p(x) {
            lemma_size_push(input, cuts, those(front, p), x, depth);
            lemma_size_push(input, cuts, those(front, either), x, depth);
        } else if q(x) {
            lemma_size_push(input, cuts, those(front, q), x, depth);
            lemma_size_push(input, cuts, those(front, either), x, depth);
        }
    }
}

proof fn lemma_size_all(
    input: GroupingInput,
    cuts: Seq<(Seq<char>, Seq<char>)>,
    items: Seq<usize>,
    keep: spec_fn(usize) -> bool,
    depth: nat,
)
    requires
        forall|i: usize| items.contains(i) ==> #[trigger] keep(i),
    ensures
        size(input, cuts, those(items, keep), depth) == size(input, cuts, items, depth),
    decreases items.len(),
{
    if items.len() > 0 {
        let front = items.drop_last();
        let x = items.last();
        assert(items[items.len() - 1] == x);
        assert forall|i: usize| front.contains(i) implies #[trigger] keep(i) by {
            let k = choose|k: int| 0 <= k < front.len() && front[k] == i;
            assert(items[k] == i);
        }
        lemma_size_all(input, cuts, front, keep, depth);
        assert(items.contains(x));
        assert(keep(x));
        lemma_size_push(input, cuts, those(front, keep), x, depth);
        lemma_size_push(input, cuts, front, x, depth);
        assert(items =~= front.push(x));
    } else {
        assert(those(items, keep) =~= items);
    }
}

proof fn lemma_size_none(
    input: GroupingInput,
    cuts: Seq<(Seq<char>, Seq<char>)>,
    items: Seq<usize>,
    keep: spec_fn(usize) -> bool,
    depth: nat,
)
    requires
        forall|i: usize| !#[trigger] keep(i),
    ensures
        size(input, cuts, those(items, keep), depth) == 0,
    decreases items.len(),
{
    if items.len() > 0 {
        lemma_size_none(input, cuts, items.drop_last(), keep, depth);
    }
}

/// The task is in one of the sections at some places.
spec fn in_one_of(
    input: GroupingInput,
    sections: Seq<Section>,
    order: Seq<usize>,
) -> spec_fn(usize) -> bool {
    |i: usize|
        exists|k: int|
            0 <= k < order.len() && optional_text(input.tasks@[i as int].section_id) == Some(
                sections[(#[trigger] order[k]) as int].id@,
            )
}

spec fn is_in_section(input: GroupingInput, section: Seq<char>) -> spec_fn(usize) -> bool {
    |i: usize| optional_text(input.tasks@[i as int].section_id) == Some(section)
}

proof fn lemma_sections_block(
    input: GroupingInput,
    cuts: Seq<(Seq<char>, Seq<char>)>,
    place: ListPlace,
    items: Seq<usize>,
    sections: Seq<Section>,
    order: Seq<usize>,
)
    requires
        all_below(order, sections.len() as int),
        order.no_duplicates(),
        forall|i: int, j: int|
            0 <= i < j < sections.len() ==> (#[trigger] sections[i]).id@ != (
            #[trigger] sections[j]).id@,
    ensures
        is_block(
            rows_of_sections(input, cuts, place, items, sections, order),
            place.level + 1,
        ),
        total(rows_of_sections(input, cuts, place, items, sections, order)) == size(
            input,
            cuts,
            those(items, in_one_of(input, sections, order)),
            input.tasks@.len(),
        ),
    decreases order.len(),
{
    let n = input.tasks@.len();
    let all = in_one_of(input, sections, order);
    if order.len() == 0 {
        lemma_size_none(input, cuts, items, all, n);
    } else {
        let front = order.drop_last();
        let last = order.last();
        let section = sections[last as int].id@;
        assert forall|k: int| 0 <= k < front.len() implies (#[trigger] front[k])
            < sections.len() by {
            assert(front[k] == order[k]);
        }
        assert(order[order.len() - 1] == last);
        lemma_sections_block(input, cuts, place, items, sections, front);
        let a = rows_of_sections(input, cuts, place, items, sections, front);
        let b = section_rows(input, cuts, place, items, section);
        let mine = in_section(input, items, section);
        let p = in_one_of(input, sections, front);
        let q = is_in_section(input, section);
        assert(mine == those(items, q)) by {
            assert((|i: usize| optional_text(input.tasks@[i as int].section_id) == Some(section))
                =~= q);
        }
        if mine.len() > 0 {
            let hidden = place.hidden || is_collapsed(input, place.id) || is_collapsed(
                input,
                b[0].id,
            );
            lemma_group_block(input, cuts, b[0], mine, hidden);
            assert(b =~= seq![b[0]] + rows_of_tasks(
                input,
                cuts,
                mine,
                b[0].depth + 1,
                hidden,
                n,
            ));
        } else {
            assert(families(input.tasks@, cuts, mine, n) =~= Seq::empty());
        }
        assert(is_block(b, place.level + 1));
        lemma_beside(a, b, place.level + 1);
        lemma_total_added(a, b, place.level + 1);
        assert forall|i: usize| items.contains(i) implies (#[trigger] all(i) <==> p(i) || q(i)) by {
            if all(i) {
                let k = choose|k: int|
                    0 <= k < order.len() && optional_text(input.tasks@[i as int].section_id)
                        == Some(sections[(#[trigger] order[k]) as int].id@);
                if k < front.len() {
                    assert(front[k] == order[k]);
                }
            }
            if p(i) {
                let k = choose|k: int|
                    0 <= k < front.len() && optional_text(input.tasks@[i as int].section_id)
                        == Some(sections[(#[trigger] front[k]) as int].id@);
                assert(order[k] == front[k]);
            }
        }
        assert forall|i: usize| items.contains(i) implies !(#[trigger] p(i) && q(i)) by {
            if p(i) && q(i) {
                let k = choose|k: int|
                    0 <= k < front.len() && optional_text(input.tasks@[i as int].section_id)
                        == Some(sections[(#[trigger] front[k]) as int].id@);
                assert(order[k] != order[order.len() - 1]);
                let x = front[k] as int;
                let y = last as int;
                if x < y {
                    assert(sections[x].id@ != sections[y].id@);
                } else {
                    assert(sections[y].id@ != sections[x].id@);
                }
            }
        }
        lemma_size_split(input, cuts, items, p, q, all, n);
    }
}

/// The places of a list, put in an order.
proof fn lemma_places(n: int, less: spec_fn(usize, usize) -> bool)
    requires
        0 <= n <= usize::MAX,
    ensures
        all_below(in_order(positions(n), less), n),
        in_order(positions(n), less).no_duplicates(),
        forall|k: usize| k < n ==> #[trigger] in_order(positions(n), less).contains(k),
{
    broadcast use vstd::seq_lib::group_to_multiset_ensures;

    let places = positions(n);
    let r = in_order(places, less);
    assert(places.no_duplicates());
    ordering_keeps_every_item(places, less);
    places.lemma_multiset_has_no_duplicates();
    r.lemma_multiset_has_no_duplicates_conv();
    assert(all_below(places, n));
    assert forall|k: usize| k < n implies #[trigger] r.contains(k) by {
        assert(places[k as int] == k);
        lemma_same_items(places, less, k);
    }
}

proof fn lemma_list_block(
    input: GroupingInput,
    cuts: Seq<(Seq<char>, Seq<char>)>,
    place: ListPlace,
    items: Seq<usize>,
)
    requires
        sections_differ(input),
        sections_of(input, place.list_id).len() <= usize::MAX,
    ensures
        is_block(list_rows(input, cuts, place, items), place.level),
        total(list_rows(input, cuts, place, items)) == total_under(input, cuts, items),
{
    let n = input.tasks@.len();
    let rows = list_rows(input, cuts, place, items);
    let head = rows[0];
    let sections = sections_of(input, place.list_id);
    let order = sections_by_name(input, sections);
    let loose = unsectioned(input, items, sections);
    let hidden = place.hidden || is_collapsed(input, place.id);
    let a = rows_of_tasks(input, cuts, loose, place.level + 1, hidden, n);
    let b = rows_of_sections(input, cuts, place, items, sections, order);
    lemma_places(
        sections.len() as int,
        |a: usize, b: usize|
            title_first(
                sections[a as int].name@,
                sections[b as int].name@,
                language_of(input.language@),
            ),
    );
    assert forall|i: int, j: int| 0 <= i < j < sections.len() implies (
    #[trigger] sections[i]).id@ != (#[trigger] sections[j]).id@ by {
        assert(sections_of(input, place.list_id)[i].id@ != sections_of(
            input,
            place.list_id,
        )[j].id@);
    }
    lemma_tasks_block(input, cuts, loose, place.level + 1, hidden, n);
    lemma_sections_block(input, cuts, place, items, sections, order);
    lemma_beside(a, b, place.level + 1);
    lemma_total_added(a, b, place.level + 1);
    let p = |i: usize|
        match optional_text(input.tasks@[i as int].section_id) {
            Some(id) => !is_section(sections, id),
            None => true,
        };
    let q = in_one_of(input, sections, order);
    let either = |i: usize| true;
    assert forall|i: usize| items.contains(i) implies (#[trigger] either(i) <==> p(i) || q(
        i,
    )) by {
        if !p(i) {
            let id = optional_text(input.tasks@[i as int].section_id)->0;
            let s = choose|s: int| 0 <= s < sections.len() && (#[trigger] sections[s]).id@ == id;
            assert(order.contains(s as usize));
            let k = choose|k: int| 0 <= k < order.len() && order[k] == s as usize;
            assert(sections[order[k] as int].id@ == id);
        }
    }
    assert forall|i: usize| items.contains(i) implies !(#[trigger] p(i) && q(i)) by {
        if q(i) {
            let k = choose|k: int|
                0 <= k < order.len() && optional_text(input.tasks@[i as int].section_id) == Some(
                    sections[(#[trigger] order[k]) as int].id@,
                );
            assert(order[k] < sections.len());
            assert(is_section(sections, sections[order[k] as int].id@));
        }
    }
    lemma_size_split(input, cuts, items, p, q, either, n);
    lemma_size_all(input, cuts, items, either, n);
    let kids = a + b;
    lemma_total_is(kids, place.level + 1, place.level + 1 + kids.len());
    lemma_put_under(head, kids, place.level);
    lemma_total_under(head, kids, place.level);
    assert(rows =~= seq![head] + kids);
}

/// The task is in one of the lists at some places.
spec fn in_one_list_of(
    input: GroupingInput,
    lists: Seq<Seq<char>>,
    order: Seq<usize>,
) -> spec_fn(usize) -> bool {
    |i: usize|
        exists|k: int|
            0 <= k < order.len() && input.tasks@[i as int].list_id@ == lists[(
            #[trigger] order[k]) as int]
}

proof fn lemma_lists_block(
    input: GroupingInput,
    cuts: Seq<(Seq<char>, Seq<char>)>,
    items: Seq<usize>,
    lists: Seq<Seq<char>>,
    order: Seq<usize>,
    in_backlog: bool,
)
    requires
        sections_differ(input),
        forall|l: Seq<char>| #[trigger] sections_of(input, l).len() <= usize::MAX,
        all_below(order, lists.len() as int),
        order.no_duplicates(),
        lists.no_duplicates(),
    ensures
        ({
            let rows = rows_of_lists(input, cuts, items, lists, order, in_backlog);
            &&& is_block(rows, list_place(input, Seq::empty(), in_backlog).level)
            &&& total(rows) == size(
                input,
                cuts,
                those(items, in_one_list_of(input, lists, order)),
                input.tasks@.len(),
            )
        }),
    decreases order.len(),
{
    let n = input.tasks@.len();
    let all = in_one_list_of(input, lists, order);
    let level = list_place(input, Seq::empty(), in_backlog).level;
    if order.len() == 0 {
        lemma_size_none(input, cuts, items, all, n);
    } else {
        let front = order.drop_last();
        let last = order.last();
        let list_id = lists[last as int];
        assert forall|k: int| 0 <= k < front.len() implies (#[trigger] front[k]) < lists.len() by {
            assert(front[k] == order[k]);
        }
        assert(order[order.len() - 1] == last);
        lemma_lists_block(input, cuts, items, lists, front, in_backlog);
        let place = list_place(input, list_id, in_backlog);
        let own = in_list(input, items, list_id);
        lemma_list_block(input, cuts, place, own);
        let a = rows_of_lists(input, cuts, items, lists, front, in_backlog);
        let b = list_rows(input, cuts, place, own);
        lemma_beside(a, b, level);
        lemma_total_added(a, b, level);
        let p = in_one_list_of(input, lists, front);
        let q = is_in_list(input, list_id);
        assert forall|i: usize| items.contains(i) implies (#[trigger] all(i) <==> p(i) || q(i)) by {
            if all(i) {
                let k = choose|k: int|
                    0 <= k < order.len() && input.tasks@[i as int].list_id@ == lists[(
                    #[trigger] order[k]) as int];
                if k < front.len() {
                    assert(front[k] == order[k]);
                }
            }
            if p(i) {
                let k = choose|k: int|
                    0 <= k < front.len() && input.tasks@[i as int].list_id@ == lists[(
                    #[trigger] front[k]) as int];
                assert(order[k] == front[k]);
            }
        }
        assert forall|i: usize| items.contains(i) implies !(#[trigger] p(i) && q(i)) by {
            if p(i) && q(i) {
                let k = choose|k: int|
                    0 <= k < front.len() && input.tasks@[i as int].list_id@ == lists[(
                    #[trigger] front[k]) as int];
                assert(order[k] != order[order.len() - 1]);
                assert(lists[front[k] as int] != lists[last as int]);
            }
        }
        lemma_size_split(input, cuts, items, p, q, all, n);
    }
}

proof fn lemma_seen(input: GroupingInput, items: Seq<usize>)
    ensures
        lists_seen(input, items).no_duplicates(),
        lists_seen(input, items).len() <= items.len(),
        forall|i: usize|
            items.contains(i) ==> lists_seen(input, items).contains(
                (#[trigger] input.tasks@[i as int]).list_id@,
            ),
    decreases items.len(),
{
    if items.len() > 0 {
        let front = items.drop_last();
        lemma_seen(input, front);
        let before = lists_seen(input, front);
        let all = lists_seen(input, items);
        let own = input.tasks@[items.last() as int].list_id@;
        assert(all.no_duplicates()) by {
            assert forall|a: int, b: int| 0 <= a < b < all.len() implies all[a] != all[b] by {
                if b == before.len() {
                    assert(before.contains(before[a]));
                }
            }
        }
        assert forall|i: usize| items.contains(i) implies all.contains(
            (#[trigger] input.tasks@[i as int]).list_id@,
        ) by {
            let wanted = input.tasks@[i as int].list_id@;
            let k = choose|k: int| 0 <= k < items.len() && items[k] == i;
            if k < front.len() {
                assert(front[k] == i);
                assert(front.contains(i));
                let at = choose|at: int| 0 <= at < before.len() && before[at] == wanted;
                assert(all[at] == wanted);
            } else if !before.contains(own) {
                assert(all[before.len() as int] == own);
            }
        }
    }
}

proof fn lemma_by_list_block(
    input: GroupingInput,
    cuts: Seq<(Seq<char>, Seq<char>)>,
    items: Seq<usize>,
    in_backlog: bool,
)
    requires
        sections_differ(input),
        forall|l: Seq<char>| #[trigger] sections_of(input, l).len() <= usize::MAX,
        items.len() <= usize::MAX,
    ensures
        is_block(
            rows_by_list(input, cuts, items, in_backlog),
            list_place(input, Seq::empty(), in_backlog).level,
        ),
        total(rows_by_list(input, cuts, items, in_backlog)) == total_under(input, cuts, items),
{
    let n = input.lists@.len() as int;
    let lists = lists_seen(input, items);
    let order = lists_by_name(input, lists);
    lemma_seen(input, items);
    lemma_places(
        lists.len() as int,
        |a: usize, b: usize|
            name_first(
                name_of(input, lists[a as int], n),
                name_of(input, lists[b as int], n),
                language_of(input.language@),
            ),
    );
    lemma_lists_block(input, cuts, items, lists, order, in_backlog);
    let keep = in_one_list_of(input, lists, order);
    assert forall|i: usize| items.contains(i) implies #[trigger] keep(i) by {
        assert(lists.contains(input.tasks@[i as int].list_id@));
        let s = choose|s: int|
            0 <= s < lists.len() && lists[s] == input.tasks@[i as int].list_id@;
        assert(order.contains(s as usize));
        let k = choose|k: int| 0 <= k < order.len() && order[k] == s as usize;
        assert(lists[order[k] as int] == input.tasks@[i as int].list_id@);
    }
    lemma_size_all(input, cuts, items, keep, input.tasks@.len());
}

// ---------------------------------------------------------------------------
// The view
// ---------------------------------------------------------------------------

proof fn lemma_flat_block(
    input: GroupingInput,
    cuts: Seq<(Seq<char>, Seq<char>)>,
    id: Seq<char>,
    kind: GroupKind,
    items: Seq<usize>,
)
    requires
        !(kind is Done),
        !(kind is Cancelled),
    ensures
        is_block(flat_rows(input, cuts, id, kind, items), 0),
{
    let rows = flat_rows(input, cuts, id, kind, items);
    if items.len() > 0 {
        let hidden = is_collapsed(input, id);
        lemma_group_block(input, cuts, rows[0], items, hidden);
        assert(rows =~= seq![rows[0]] + rows_of_tasks(
            input,
            cuts,
            items,
            1,
            hidden,
            input.tasks@.len(),
        ));
    }
}

proof fn lemma_finished_block(
    input: GroupingInput,
    cuts: Seq<(Seq<char>, Seq<char>)>,
    head: RowText,
    items: Seq<usize>,
    hidden: bool,
)
    requires
        input.tasks@.len() > 0,
        head.depth == 0,
        head.group matches Some(h) && (h.kind is Done || h.kind is Cancelled) && h.count
            == items.len(),
    ensures
        is_block(
            seq![head] + rows_of_tasks(input, cuts, items, 1, hidden, input.tasks@.len()),
            0,
        ),
{
    let n = input.tasks@.len();
    lemma_tasks_block(input, cuts, items, 1, hidden, n);
    lemma_direct(input, cuts, items, 1, hidden, n);
    lemma_put_under(head, rows_of_tasks(input, cuts, items, 1, hidden, n), 0);
}

proof fn lemma_open_block(
    input: GroupingInput,
    cuts: Seq<(Seq<char>, Seq<char>)>,
    open: Seq<usize>,
)
    requires
        sections_differ(input),
        forall|l: Seq<char>| #[trigger] sections_of(input, l).len() <= usize::MAX,
        open.len() <= usize::MAX,
    ensures
        is_block(open_rows(input, cuts, open), 0),
{
    match input.group_by {
        GroupBy::List => {
            lemma_by_list_block(input, cuts, open, false);
        },
        GroupBy::State => {
            let late = overdue_tasks(input, open);
            let now = today_tasks(input, open);
            let loose = backlog_tasks(input, open);
            let ahead = future_tasks(input, open);
            let a = flat_rows(input, cuts, OVERDUE_GROUP_ID@, GroupKind::Overdue, late);
            let b = flat_rows(input, cuts, TODAY_GROUP_ID@, GroupKind::Today, now);
            let c = backlog_rows(input, cuts, loose);
            let d = flat_rows(input, cuts, DEFERRED_GROUP_ID@, GroupKind::Deferred, ahead);
            lemma_flat_block(input, cuts, OVERDUE_GROUP_ID@, GroupKind::Overdue, late);
            lemma_flat_block(input, cuts, TODAY_GROUP_ID@, GroupKind::Today, now);
            lemma_flat_block(input, cuts, DEFERRED_GROUP_ID@, GroupKind::Deferred, ahead);
            if loose.len() > 0 {
                lemma_backlog_len(input, open);
                lemma_by_list_block(input, cuts, loose, true);
                let kids = rows_by_list(input, cuts, loose, true);
                lemma_total_is(kids, 1, 1 + kids.len() as int);
                lemma_put_under(c[0], kids, 0);
                assert(c =~= seq![c[0]] + kids);
            }
            lemma_beside(a, b, 0);
            lemma_beside(a + b, c, 0);
            lemma_beside(a + b + c, d, 0);
        },
    }
}

proof fn lemma_backlog_len(input: GroupingInput, open: Seq<usize>)
    ensures
        backlog_tasks(input, open).len() <= open.len(),
{
    lemma_those(
        open,
        |i: usize|
            !waits(input, i) && planned(input, i)
                is None,
    );
}

/// Every header counts the tasks that stand under it: all of them, subtasks
/// too, or, for the tasks done and cancelled, those that stand directly under it.
pub proof fn a_header_counts_what_stands_under_it(input: GroupingInput, k: int)
    requires
        input.tasks@.len() <= usize::MAX,
        sections_differ(input),
        forall|l: Seq<char>| #[trigger] sections_of(input, l).len() <= usize::MAX,
        0 <= k < grouped(input).len(),
        grouped(input)[k].group is Some,
    ensures
        counts_right(grouped(input), k),
{
    let tasks = input.tasks@;
    let guard = settled(tasks);
    let open = open_tasks(input, guard.top);
    let done = done_tasks(input, guard.top);
    let gone = cancelled_tasks(input, guard.top);
    let a = open_rows(input, guard.cuts, open);
    let b = done_rows(input, guard.cuts, done);
    let c = cancelled_rows(input, guard.cuts, gone);
    lemma_top_counts(input);
    lemma_open_block(input, guard.cuts, open);
    if done.len() > 0 {
        let hidden = is_collapsed(input, DONE_GROUP_ID@);
        lemma_finished_block(input, guard.cuts, b[0], done, hidden);
        assert(b =~= seq![b[0]] + rows_of_tasks(input, guard.cuts, done, 1, hidden, tasks.len()));
    }
    if gone.len() > 0 {
        let hidden = is_collapsed(input, CANCELLED_GROUP_ID@);
        lemma_finished_block(input, guard.cuts, c[0], gone, hidden);
        assert(c =~= seq![c[0]] + rows_of_tasks(input, guard.cuts, gone, 1, hidden, tasks.len()));
    }
    lemma_beside(a, b, 0);
    lemma_beside(a + b, c, 0);
    assert(grouped(input)[k].group is Some);
}

proof fn lemma_top_counts(input: GroupingInput)
    requires
        input.tasks@.len() <= usize::MAX,
    ensures
        open_tasks(input, settled(input.tasks@).top).len() <= usize::MAX,
        done_tasks(input, settled(input.tasks@).top).len() > 0 ==> input.tasks@.len() > 0,
        cancelled_tasks(input, settled(input.tasks@).top).len() > 0 ==> input.tasks@.len() > 0,
{
    let tasks = input.tasks@;
    let top = settled(tasks).top;
    lemma_top_is_free(tasks, tasks.len() as int);
    lemma_top_differs(tasks, tasks.len() as int);
    lemma_positions_fit(top, tasks.len() as int);
    let still = |i: usize| !input.tasks@[i as int].status.terminal();
    let finished = |i: usize| input.tasks@[i as int].status is Completed;
    let dropped = |i: usize| input.tasks@[i as int].status is Cancelled;
    lemma_those(top, still);
    lemma_those(top, finished);
    lemma_those(top, dropped);
    ordering_keeps_every_item(those(top, still), task_order(input));
    ordering_keeps_every_item(
        those(top, finished),
        |a: usize, b: usize|
            done_moment(input.tasks@[b as int]).before(
                done_moment(input.tasks@[a as int]),
            ),
    );
    ordering_keeps_every_item(
        those(top, dropped),
        |a: usize, b: usize|
            input.tasks@[b as int].updated_at@.before(input.tasks@[a as int].updated_at@),
    );
}

/// The done tasks are split between mine and others' exactly where some are
/// others', and then the two make up the count.
pub proof fn the_done_tasks_are_split_where_others_did_some(
    input: GroupingInput,
    cuts: Seq<(Seq<char>, Seq<char>)>,
    items: Seq<usize>,
)
    requires
        0 < items.len() <= usize::MAX,
    ensures
        ({
            let head = done_rows(input, cuts, items)[0].group->0;
            let foreign = exists|k: int|
                0 <= k < items.len() && !task_is_mine(input, #[trigger] items[k]);
            &&& head.mine is Some <==> foreign
            &&& head.others is Some <==> foreign
            &&& foreign ==> head.mine->0 + head.others->0 == items.len() && head.others->0 > 0
        }),
{
    let keep = |i: usize| task_is_mine(input, i);
    lemma_those(items, keep);
    lemma_kept_all(items, keep);
}

proof fn lemma_kept_all(items: Seq<usize>, keep: spec_fn(usize) -> bool)
    ensures
        those(items, keep).len() <= items.len(),
        those(items, keep).len() == items.len() <==> forall|k: int|
            0 <= k < items.len() ==> keep(#[trigger] items[k]),
    decreases items.len(),
{
    if items.len() > 0 {
        let front = items.drop_last();
        lemma_kept_all(front, keep);
        if forall|k: int| 0 <= k < items.len() ==> keep(#[trigger] items[k]) {
            assert forall|k: int| 0 <= k < front.len() implies keep(#[trigger] front[k]) by {
                assert(front[k] == items[k]);
            }
            assert(keep(items[items.len() - 1]));
        }
        if those(items, keep).len() == items.len() {
            assert forall|k: int| 0 <= k < items.len() implies keep(#[trigger] items[k]) by {
                if k < front.len() {
                    assert(front[k] == items[k]);
                }
            }
        }
    }
}

} // verus!
