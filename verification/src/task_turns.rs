//! The order of the task view's rows: the groups come in theirs, and the tasks
//! that stand under one row in that of the group they are of.

use vstd::prelude::*;

use crate::civil::Ymd;
use crate::collation::{language_of, name_first, title_first};
use crate::order::{
    are_in_turn, in_order, is_an_order, lemma_kept, ordering_orders, ordering_puts_in_turn,
    picking_keeps_the_turn, positions, those,
};
use crate::task_assignment::user_ids;
use crate::task_grouping::{
    backlog_rows, backlog_tasks, cancelled_rows, cancelled_tasks, children_of, done_moment,
    done_rows, done_tasks, flat_rows, future_day, future_tasks, grouped, in_list, in_section,
    is_collapsed, is_in_list, is_section, list_place, list_rows, lists_by_name, lists_seen, name_of,
    open_rows, open_tasks, overdue_tasks, planned, rows_by_list, rows_of_lists, rows_of_sections,
    rows_of_tasks, section_rows, sections_by_name, sections_of, settled, subtasks, task_is_mine,
    task_order, task_rows, today_tasks, unsectioned, user_place, waits, GroupBy, GroupKind,
    GroupingInput, ListPlace, RowText, CANCELLED_GROUP_ID, DEFERRED_GROUP_ID, DONE_GROUP_ID,
    OVERDUE_GROUP_ID, TODAY_GROUP_ID,
};
use crate::task_tree::{is_above, is_parent_row, lemma_above_before, lemma_above_behind};
use crate::text::optional_text;
use crate::types::Section;

verus! {

// ---------------------------------------------------------------------------
// Turns
// ---------------------------------------------------------------------------

/// The day a task is ahead for: the one it comes back on, where that is still to
/// come, else the one it is planned for.
pub open spec fn is_ahead_for(input: GroupingInput, t: usize, day: Ymd) -> bool {
    let task = input.tasks@[t as int];
    if task.resurface_date is Some && input.today@.before(task.resurface_date->0@) {
        task.resurface_date->0@ == day
    } else {
        task.scheduled_date is Some && task.scheduled_date->0@ == day
    }
}

/// One task may stand before another under a row: of the done tasks the one
/// completed later, of the cancelled ones the one changed later, of those ahead
/// the one that is sooner, and of all others the one of the lower band.
pub open spec fn may_precede(
    input: GroupingInput,
    parent: RowText,
    a: usize,
    b: usize,
) -> bool {
    let x = input.tasks@[a as int];
    let y = input.tasks@[b as int];
    match parent.group {
        None => x.band <= y.band,
        Some(head) => match head.kind {
            GroupKind::Done => !(match x.completed_at {
                Some(at) => at@,
                None => x.updated_at@,
            }).before(
                match y.completed_at {
                    Some(at) => at@,
                    None => y.updated_at@,
                },
            ),
            GroupKind::Cancelled => !x.updated_at@.before(y.updated_at@),
            GroupKind::Deferred => exists|p: Ymd, q: Ymd|
                #[trigger] is_ahead_for(input, a, p) && #[trigger] is_ahead_for(input, b, q)
                    && !q.before(p),
            _ => x.band <= y.band,
        },
    }
}

/// Tasks in the order in which they may stand under a row.
pub open spec fn take_turns(input: GroupingInput, parent: RowText, list: Seq<usize>) -> bool {
    forall|i: int, j: int|
        0 <= i < j < list.len() ==> may_precede(
            input,
            parent,
            #[trigger] list[i],
            #[trigger] list[j],
        )
}

/// The ids of the tasks that stand directly under a row, among the first `n`
/// rows, in order.
pub open spec fn tasks_directly_under(rows: Seq<RowText>, p: int, n: int) -> Seq<Seq<char>>
    decreases n,
{
    if n <= 0 {
        Seq::empty()
    } else {
        let before = tasks_directly_under(rows, p, n - 1);
        if is_parent_row(rows, p, n - 1) && rows[n - 1].group is None {
            before.push(rows[n - 1].id)
        } else {
            before
        }
    }
}

/// The ids of tasks.
pub open spec fn ids_of(input: GroupingInput, list: Seq<usize>) -> Seq<Seq<char>> {
    Seq::new(list.len(), |i: int| input.tasks@[list[i] as int].id@)
}

/// The tasks that stand directly under a row take turns.
pub open spec fn takes_turns(input: GroupingInput, rows: Seq<RowText>, p: int) -> bool {
    exists|list: Seq<usize>|
        #[trigger] take_turns(input, rows[p], list) && tasks_directly_under(
            rows,
            p,
            rows.len() as int,
        ) == ids_of(input, list)
}

// ---------------------------------------------------------------------------
// Rows put together
// ---------------------------------------------------------------------------

/// The ids of the tasks on a level, among the first `n` rows.
spec fn tops(rows: Seq<RowText>, level: int, n: int) -> Seq<Seq<char>>
    decreases n,
{
    if n <= 0 {
        Seq::empty()
    } else {
        let before = tops(rows, level, n - 1);
        if rows[n - 1].depth == level && rows[n - 1].group is None {
            before.push(rows[n - 1].id)
        } else {
            before
        }
    }
}

/// Rows on a level and below it, all of which take turns below.
spec fn is_turned(input: GroupingInput, rows: Seq<RowText>, level: int) -> bool {
    &&& rows.len() > 0 ==> rows[0].depth == level
    &&& forall|k: int| 0 <= k < rows.len() ==> (#[trigger] rows[k]).depth >= level
    &&& forall|k: int| 0 <= k < rows.len() ==> takes_turns(input, rows, #[trigger] place(k))
}

spec fn place(k: int) -> int {
    k
}

proof fn lemma_tops_added(a: Seq<RowText>, b: Seq<RowText>, level: int, n: int)
    requires
        0 <= n <= b.len(),
    ensures
        tops(a + b, level, a.len() + n) == tops(a, level, a.len() as int) + tops(b, level, n),
    decreases n,
{
    let all = a + b;
    if n > 0 {
        lemma_tops_added(a, b, level, n - 1);
        assert(all[a.len() + n - 1] == b[n - 1]);
        assert(tops(a + b, level, a.len() + n) =~= tops(a, level, a.len() as int) + tops(
            b,
            level,
            n,
        ));
    } else {
        lemma_tops_first(a, b, level, a.len() as int);
        assert(tops(b, level, 0) =~= Seq::empty());
        assert(tops(a, level, a.len() as int) + tops(b, level, 0) =~= tops(
            a,
            level,
            a.len() as int,
        ));
    }
}

proof fn lemma_tops_first(a: Seq<RowText>, b: Seq<RowText>, level: int, n: int)
    requires
        0 <= n <= a.len(),
    ensures
        tops(a + b, level, n) == tops(a, level, n),
    decreases n,
{
    if n > 0 {
        lemma_tops_first(a, b, level, n - 1);
        assert((a + b)[n - 1] == a[n - 1]);
    }
}

proof fn lemma_under_first(a: Seq<RowText>, b: Seq<RowText>, p: int, n: int)
    requires
        0 <= p < a.len(),
        b.len() > 0 ==> b[0].depth <= a[p].depth,
        0 <= n <= a.len() + b.len(),
    ensures
        tasks_directly_under(a + b, p, n) == tasks_directly_under(
            a,
            p,
            if n < a.len() {
                n
            } else {
                a.len() as int
            },
        ),
    decreases n,
{
    let all = a + b;
    if n > 0 {
        lemma_under_first(a, b, p, n - 1);
        if n <= a.len() {
            lemma_above_before(a, b, p, n - 1);
            assert(all[n - 1] == a[n - 1] && all[p] == a[p]);
        } else if is_above(all, p, n - 1) {
            assert(all[a.len() as int] == b[0]);
            assert(all[a.len() as int].depth > all[p].depth);
        }
    }
}

proof fn lemma_under_before(rows: Seq<RowText>, p: int, n: int)
    requires
        n <= p + 1,
    ensures
        tasks_directly_under(rows, p, n) == Seq::<Seq<char>>::empty(),
    decreases n,
{
    if n > 0 {
        lemma_under_before(rows, p, n - 1);
        assert(!is_above(rows, p, n - 1));
    }
}

proof fn lemma_under_second(a: Seq<RowText>, b: Seq<RowText>, p: int, n: int)
    requires
        0 <= p < b.len(),
        0 <= n <= b.len(),
    ensures
        tasks_directly_under(a + b, a.len() + p, a.len() + n) == tasks_directly_under(b, p, n),
    decreases n,
{
    let all = a + b;
    if n > 0 {
        lemma_under_second(a, b, p, n - 1);
        lemma_above_behind(a, b, p, n - 1);
        assert(all[a.len() + n - 1] == b[n - 1] && all[a.len() + p] == b[p]);
    } else {
        lemma_under_before(all, a.len() + p, a.len() as int);
        lemma_under_before(b, p, 0);
    }
}

proof fn lemma_under_head(head: RowText, kids: Seq<RowText>, n: int)
    requires
        forall|k: int| 0 <= k < kids.len() ==> (#[trigger] kids[k]).depth > head.depth,
        0 <= n <= kids.len(),
    ensures
        tasks_directly_under(seq![head] + kids, 0, n + 1) == tops(kids, head.depth + 1, n),
    decreases n,
{
    let all = seq![head] + kids;
    if n > 0 {
        lemma_under_head(head, kids, n - 1);
        assert(is_above(all, 0, n)) by {
            assert forall|m: int| 0 < m <= n implies (#[trigger] all[m]).depth > all[0].depth by {
                assert(all[m] == kids[m - 1]);
            }
        }
        assert(all[n] == kids[n - 1]);
    } else {
        lemma_under_before(all, 0, 1);
    }
}

proof fn lemma_beside(input: GroupingInput, a: Seq<RowText>, b: Seq<RowText>, level: int)
    requires
        is_turned(input, a, level),
        is_turned(input, b, level),
    ensures
        is_turned(input, a + b, level),
        tops(a + b, level, (a + b).len() as int) == tops(a, level, a.len() as int) + tops(
            b,
            level,
            b.len() as int,
        ),
{
    let all = a + b;
    let n = a.len() as int;
    lemma_tops_added(a, b, level, b.len() as int);
    assert forall|k: int| 0 <= k < all.len() implies (#[trigger] all[k]).depth >= level by {
        if k < n {
            assert(all[k] == a[k]);
        } else {
            assert(all[k] == b[k - n]);
        }
    }
    assert forall|k: int| 0 <= k < all.len() implies takes_turns(input, all, #[trigger] place(
        k,
    )) by {
        if k < n {
            assert(takes_turns(input, a, place(k)));
            assert(all[k] == a[k]);
            lemma_under_first(a, b, k, all.len() as int);
            let list = choose|list: Seq<usize>|
                #[trigger] take_turns(input, a[k], list) && tasks_directly_under(a, k, n) == ids_of(
                    input,
                    list,
                );
            assert(take_turns(input, all[k], list));
        } else {
            assert(takes_turns(input, b, place(k - n)));
            assert(all[k] == b[k - n]);
            lemma_under_second(a, b, k - n, b.len() as int);
            let list = choose|list: Seq<usize>|
                #[trigger] take_turns(input, b[k - n], list) && tasks_directly_under(
                    b,
                    k - n,
                    b.len() as int,
                ) == ids_of(input, list);
            assert(take_turns(input, all[k], list));
        }
    }
    if n > 0 {
        assert(all[0] == a[0]);
    } else if b.len() > 0 {
        assert(all[0] == b[0]);
    }
}

proof fn lemma_put_under(
    input: GroupingInput,
    head: RowText,
    kids: Seq<RowText>,
    level: int,
    list: Seq<usize>,
)
    requires
        head.depth == level,
        is_turned(input, kids, level + 1),
        take_turns(input, head, list),
        tops(kids, level + 1, kids.len() as int) == ids_of(input, list),
    ensures
        is_turned(input, seq![head] + kids, level),
{
    let own = seq![head];
    let all = own + kids;
    assert forall|k: int| 0 <= k < all.len() implies (#[trigger] all[k]).depth >= level by {
        if k > 0 {
            assert(all[k] == kids[k - 1]);
        }
    }
    assert forall|k: int| 0 <= k < all.len() implies takes_turns(input, all, #[trigger] place(
        k,
    )) by {
        if k == 0 {
            lemma_under_head(head, kids, kids.len() as int);
            assert(take_turns(input, all[0], list));
        } else {
            assert(takes_turns(input, kids, place(k - 1)));
            assert(all[k] == kids[k - 1]);
            lemma_under_second(own, kids, k - 1, kids.len() as int);
            let theirs = choose|list: Seq<usize>|
                #[trigger] take_turns(input, kids[k - 1], list) && tasks_directly_under(
                    kids,
                    k - 1,
                    kids.len() as int,
                ) == ids_of(input, list);
            assert(take_turns(input, all[k], theirs));
        }
    }
}

// ---------------------------------------------------------------------------
// Tasks
// ---------------------------------------------------------------------------

spec fn by_band(input: GroupingInput) -> spec_fn(usize, usize) -> bool {
    |a: usize, b: usize| input.tasks@[a as int].band <= input.tasks@[b as int].band
}

proof fn lemma_by_band(input: GroupingInput, list: Seq<usize>)
    ensures
        are_in_turn(in_order(list, task_order(input)), by_band(input)),
{
    ordering_puts_in_turn(list, task_order(input), by_band(input));
}

proof fn lemma_band_turns(input: GroupingInput, parent: RowText, list: Seq<usize>)
    requires
        are_in_turn(list, by_band(input)),
        parent.group matches Some(h) ==> !(h.kind is Done) && !(h.kind is Cancelled) && !(h.kind
            is Deferred),
    ensures
        take_turns(input, parent, list),
{
    assert forall|i: int, j: int| 0 <= i < j < list.len() implies may_precede(
        input,
        parent,
        #[trigger] list[i],
        #[trigger] list[j],
    ) by {
        let le = by_band(input);
        assert(le(list[i], list[j]));
    }
}

proof fn lemma_task_turned(
    input: GroupingInput,
    cuts: Seq<(Seq<char>, Seq<char>)>,
    i: usize,
    level: int,
    hidden: bool,
    depth: nat,
)
    ensures
        is_turned(input, task_rows(input, cuts, i, level, hidden, depth), level),
        depth > 0 ==> ({
            let rows = task_rows(input, cuts, i, level, hidden, depth);
            tops(rows, level, rows.len() as int) == seq![input.tasks@[i as int].id@]
        }),
    decreases depth, 0int, 0int,
{
    if depth > 0 {
        let id = input.tasks@[i as int].id@;
        let kids = subtasks(input, cuts, id);
        let row = RowText { id, depth: level, hidden, has_children: kids.len() > 0, group: None };
        let below = hidden || is_collapsed(input, id);
        let rest = (depth - 1) as nat;
        let rows = rows_of_tasks(input, cuts, kids, level + 1, below, rest);
        lemma_by_band(input, children_of(input.tasks@, cuts, id));
        lemma_tasks_turned(input, cuts, kids, level + 1, below, rest);
        if rest > 0 {
            lemma_band_turns(input, row, kids);
            lemma_put_under(input, row, rows, level, kids);
        } else {
            let none: Seq<usize> = Seq::empty();
            lemma_no_rows(input, cuts, kids, level + 1, below);
            assert(ids_of(input, none) =~= Seq::empty());
            lemma_put_under(input, row, rows, level, none);
        }
        lemma_tops_added(seq![row], rows, level, rows.len() as int);
        lemma_no_tops(input, rows, level, rows.len() as int);
        assert(tops(seq![row], level, 0) =~= Seq::empty());
        assert(tops(seq![row], level, 1) =~= seq![id]);
        assert(seq![id] + Seq::<Seq<char>>::empty() =~= seq![id]);
    }
}

proof fn lemma_no_rows(
    input: GroupingInput,
    cuts: Seq<(Seq<char>, Seq<char>)>,
    list: Seq<usize>,
    level: int,
    hidden: bool,
)
    ensures
        rows_of_tasks(input, cuts, list, level, hidden, 0) == Seq::<RowText>::empty(),
    decreases list.len(),
{
    if list.len() > 0 {
        lemma_no_rows(input, cuts, list.drop_last(), level, hidden);
        assert(task_rows(input, cuts, list.last(), level, hidden, 0) =~= Seq::<RowText>::empty());
    }
}

proof fn lemma_no_tops(input: GroupingInput, rows: Seq<RowText>, level: int, n: int)
    requires
        is_turned(input, rows, level + 1),
        0 <= n <= rows.len(),
    ensures
        tops(rows, level, n) == Seq::<Seq<char>>::empty(),
    decreases n,
{
    if n > 0 {
        lemma_no_tops(input, rows, level, n - 1);
        assert(rows[n - 1].depth >= level + 1);
    }
}

proof fn lemma_tasks_turned(
    input: GroupingInput,
    cuts: Seq<(Seq<char>, Seq<char>)>,
    list: Seq<usize>,
    level: int,
    hidden: bool,
    depth: nat,
)
    ensures
        is_turned(input, rows_of_tasks(input, cuts, list, level, hidden, depth), level),
        depth > 0 ==> ({
            let rows = rows_of_tasks(input, cuts, list, level, hidden, depth);
            tops(rows, level, rows.len() as int) == ids_of(input, list)
        }),
    decreases depth, 1int, list.len(),
{
    if list.len() > 0 {
        let front = list.drop_last();
        let a = rows_of_tasks(input, cuts, front, level, hidden, depth);
        let b = task_rows(input, cuts, list.last(), level, hidden, depth);
        lemma_tasks_turned(input, cuts, front, level, hidden, depth);
        lemma_task_turned(input, cuts, list.last(), level, hidden, depth);
        lemma_beside(input, a, b, level);
        assert(ids_of(input, list) =~= ids_of(input, front) + seq![
            input.tasks@[list.last() as int].id@,
        ]);
    } else {
        assert(ids_of(input, list) =~= Seq::empty());
    }
}

/// A header with its tasks.
proof fn lemma_group_turned(
    input: GroupingInput,
    cuts: Seq<(Seq<char>, Seq<char>)>,
    head: RowText,
    items: Seq<usize>,
    hidden: bool,
)
    requires
        input.tasks@.len() > 0,
        take_turns(input, head, items),
    ensures
        is_turned(
            input,
            seq![head] + rows_of_tasks(
                input,
                cuts,
                items,
                head.depth + 1,
                hidden,
                input.tasks@.len(),
            ),
            head.depth,
        ),
{
    let n = input.tasks@.len();
    lemma_tasks_turned(input, cuts, items, head.depth + 1, hidden, n);
    lemma_put_under(
        input,
        head,
        rows_of_tasks(input, cuts, items, head.depth + 1, hidden, n),
        head.depth,
        items,
    );
}

// ---------------------------------------------------------------------------
// Lists and sections
// ---------------------------------------------------------------------------

/// The rows have no task on their level.
spec fn has_heads_only(rows: Seq<RowText>, level: int) -> bool {
    tops(rows, level, rows.len() as int) == Seq::<Seq<char>>::empty()
}

proof fn lemma_headed(input: GroupingInput, head: RowText, kids: Seq<RowText>)
    requires
        head.group is Some,
        is_turned(input, kids, head.depth + 1),
    ensures
        has_heads_only(seq![head] + kids, head.depth),
{
    lemma_tops_added(seq![head], kids, head.depth, kids.len() as int);
    lemma_no_tops(input, kids, head.depth, kids.len() as int);
    assert(tops(seq![head], head.depth, 0) =~= Seq::empty());
    assert(Seq::<Seq<char>>::empty() + Seq::<Seq<char>>::empty() =~= Seq::empty());
}

proof fn lemma_sections_turned(
    input: GroupingInput,
    cuts: Seq<(Seq<char>, Seq<char>)>,
    place: ListPlace,
    items: Seq<usize>,
    sections: Seq<Section>,
    order: Seq<usize>,
)
    requires
        input.tasks@.len() > 0,
        are_in_turn(items, by_band(input)),
    ensures
        is_turned(
            input,
            rows_of_sections(input, cuts, place, items, sections, order),
            place.level + 1,
        ),
        has_heads_only(
            rows_of_sections(input, cuts, place, items, sections, order),
            place.level + 1,
        ),
    decreases order.len(),
{
    let n = input.tasks@.len();
    if order.len() > 0 {
        let front = order.drop_last();
        let section = sections[order.last() as int].id@;
        lemma_sections_turned(input, cuts, place, items, sections, front);
        let a = rows_of_sections(input, cuts, place, items, sections, front);
        let b = section_rows(input, cuts, place, items, section);
        let mine = in_section(input, items, section);
        if mine.len() > 0 {
            let head = b[0];
            let hidden = place.hidden || is_collapsed(input, place.id) || is_collapsed(
                input,
                head.id,
            );
            picking_keeps_the_turn(
                items,
                |i: usize| optional_text(input.tasks@[i as int].section_id) == Some(section),
                by_band(input),
            );
            lemma_band_turns(input, head, mine);
            lemma_group_turned(input, cuts, head, mine, hidden);
            let kids = rows_of_tasks(input, cuts, mine, head.depth + 1, hidden, n);
            lemma_tasks_turned(input, cuts, mine, head.depth + 1, hidden, n);
            lemma_headed(input, head, kids);
            assert(b =~= seq![head] + kids);
        } else {
            assert(tops(b, place.level + 1, 0) =~= Seq::empty());
        }
        lemma_beside(input, a, b, place.level + 1);
        assert(Seq::<Seq<char>>::empty() + Seq::<Seq<char>>::empty() =~= Seq::empty());
    }
}

proof fn lemma_list_turned(
    input: GroupingInput,
    cuts: Seq<(Seq<char>, Seq<char>)>,
    place: ListPlace,
    items: Seq<usize>,
)
    requires
        input.tasks@.len() > 0,
        are_in_turn(items, by_band(input)),
    ensures
        is_turned(input, list_rows(input, cuts, place, items), place.level),
        has_heads_only(list_rows(input, cuts, place, items), place.level),
{
    let n = input.tasks@.len();
    let rows = list_rows(input, cuts, place, items);
    let head = rows[0];
    let sections = sections_of(input, place.list_id);
    let order = sections_by_name(input, sections);
    let loose = unsectioned(input, items, sections);
    let hidden = place.hidden || is_collapsed(input, place.id);
    let a = rows_of_tasks(input, cuts, loose, place.level + 1, hidden, n);
    let b = rows_of_sections(input, cuts, place, items, sections, order);
    picking_keeps_the_turn(
        items,
        |i: usize|
            match optional_text(input.tasks@[i as int].section_id) {
                Some(id) => !is_section(sections, id),
                None => true,
            },
        by_band(input),
    );
    lemma_band_turns(input, head, loose);
    lemma_tasks_turned(input, cuts, loose, place.level + 1, hidden, n);
    lemma_sections_turned(input, cuts, place, items, sections, order);
    lemma_beside(input, a, b, place.level + 1);
    assert(ids_of(input, loose) + Seq::<Seq<char>>::empty() =~= ids_of(input, loose));
    lemma_put_under(input, head, a + b, place.level, loose);
    lemma_headed(input, head, a + b);
    assert(rows =~= seq![head] + (a + b));
}

proof fn lemma_lists_turned(
    input: GroupingInput,
    cuts: Seq<(Seq<char>, Seq<char>)>,
    items: Seq<usize>,
    lists: Seq<Seq<char>>,
    order: Seq<usize>,
    in_backlog: bool,
)
    requires
        input.tasks@.len() > 0,
        are_in_turn(items, by_band(input)),
    ensures
        ({
            let rows = rows_of_lists(input, cuts, items, lists, order, in_backlog);
            let level = list_place(input, Seq::empty(), in_backlog).level;
            is_turned(input, rows, level) && has_heads_only(rows, level)
        }),
    decreases order.len(),
{
    let level = list_place(input, Seq::empty(), in_backlog).level;
    if order.len() > 0 {
        let front = order.drop_last();
        let list_id = lists[order.last() as int];
        lemma_lists_turned(input, cuts, items, lists, front, in_backlog);
        let place = list_place(input, list_id, in_backlog);
        let own = in_list(input, items, list_id);
        picking_keeps_the_turn(items, is_in_list(input, list_id), by_band(input));
        lemma_list_turned(input, cuts, place, own);
        lemma_beside(
            input,
            rows_of_lists(input, cuts, items, lists, front, in_backlog),
            list_rows(input, cuts, place, own),
            level,
        );
        assert(Seq::<Seq<char>>::empty() + Seq::<Seq<char>>::empty() =~= Seq::empty());
    }
}

// ---------------------------------------------------------------------------
// The view
// ---------------------------------------------------------------------------

proof fn lemma_flat_turned(
    input: GroupingInput,
    cuts: Seq<(Seq<char>, Seq<char>)>,
    id: Seq<char>,
    kind: GroupKind,
    items: Seq<usize>,
)
    requires
        items.len() > 0 ==> input.tasks@.len() > 0,
        items.len() > 0 ==> take_turns(
            input,
            flat_rows(input, cuts, id, kind, items)[0],
            items,
        ),
    ensures
        is_turned(input, flat_rows(input, cuts, id, kind, items), 0),
{
    let rows = flat_rows(input, cuts, id, kind, items);
    if items.len() > 0 {
        let hidden = is_collapsed(input, id);
        lemma_group_turned(input, cuts, rows[0], items, hidden);
        assert(rows =~= seq![rows[0]] + rows_of_tasks(
            input,
            cuts,
            items,
            1,
            hidden,
            input.tasks@.len(),
        ));
    }
}

proof fn lemma_ahead(input: GroupingInput, i: usize)
    requires
        future_day(input, i) is Some,
    ensures
        is_ahead_for(input, i, future_day(input, i)->0),
{
}

proof fn lemma_future_turns(input: GroupingInput, open: Seq<usize>, parent: RowText)
    requires
        parent.group matches Some(h) && h.kind is Deferred,
    ensures
        take_turns(input, parent, future_tasks(input, open)),
{
    let waiting = |i: usize| waits(input, i);
    let later = |i: usize|
        !waits(input, i) && (planned(input, i) matches Some(d) && input.today@.before(d));
    let list = those(open, waiting) + those(open, later);
    let less = |a: usize, b: usize|
        match (future_day(input, a), future_day(input, b)) {
            (Some(x), Some(y)) => x.before(y),
            _ => false,
        };
    let le = |a: usize, b: usize|
        future_day(input, a) is Some && future_day(input, b) is Some && !future_day(
            input,
            b,
        )->0.before(future_day(input, a)->0);
    assert forall|a: usize| #[trigger] list.contains(a) implies future_day(input, a) is Some by {
        let k = choose|k: int| 0 <= k < list.len() && list[k] == a;
        let first = those(open, waiting);
        if k < first.len() {
            assert(first.contains(first[k]));
            lemma_kept(open, waiting, a);
        } else {
            let second = those(open, later);
            assert(second.contains(second[k - first.len()]));
            lemma_kept(open, later, a);
        }
    }
    ordering_puts_in_turn(list, less, le);
    let r = future_tasks(input, open);
    assert(r == in_order(list, less));
    assert forall|i: int, j: int| 0 <= i < j < r.len() implies may_precede(
        input,
        parent,
        #[trigger] r[i],
        #[trigger] r[j],
    ) by {
        assert(le(r[i], r[j]));
        lemma_ahead(input, r[i]);
        lemma_ahead(input, r[j]);
    }
}

proof fn lemma_done_turns(input: GroupingInput, top: Seq<usize>, parent: RowText)
    requires
        parent.group matches Some(h) && h.kind is Done,
    ensures
        take_turns(input, parent, done_tasks(input, top)),
{
    let list = those(top, |i: usize| input.tasks@[i as int].status is Completed);
    let less = |a: usize, b: usize|
        done_moment(input.tasks@[b as int]).before(done_moment(input.tasks@[a as int]));
    let le = |a: usize, b: usize|
        !done_moment(input.tasks@[a as int]).before(done_moment(input.tasks@[b as int]));
    ordering_puts_in_turn(list, less, le);
    let r = done_tasks(input, top);
    assert(r == in_order(list, less));
    assert forall|i: int, j: int| 0 <= i < j < r.len() implies may_precede(
        input,
        parent,
        #[trigger] r[i],
        #[trigger] r[j],
    ) by {
        assert(le(r[i], r[j]));
    }
}

proof fn lemma_cancelled_turns(input: GroupingInput, top: Seq<usize>, parent: RowText)
    requires
        parent.group matches Some(h) && h.kind is Cancelled,
    ensures
        take_turns(input, parent, cancelled_tasks(input, top)),
{
    let list = those(top, |i: usize| input.tasks@[i as int].status is Cancelled);
    let less = |a: usize, b: usize|
        input.tasks@[b as int].updated_at@.before(input.tasks@[a as int].updated_at@);
    let le = |a: usize, b: usize|
        !input.tasks@[a as int].updated_at@.before(input.tasks@[b as int].updated_at@);
    ordering_puts_in_turn(list, less, le);
    let r = cancelled_tasks(input, top);
    assert(r == in_order(list, less));
    assert forall|i: int, j: int| 0 <= i < j < r.len() implies may_precede(
        input,
        parent,
        #[trigger] r[i],
        #[trigger] r[j],
    ) by {
        assert(le(r[i], r[j]));
    }
}

proof fn lemma_open_turned(
    input: GroupingInput,
    cuts: Seq<(Seq<char>, Seq<char>)>,
    open: Seq<usize>,
)
    requires
        input.tasks@.len() > 0,
        are_in_turn(open, by_band(input)),
    ensures
        is_turned(input, open_rows(input, cuts, open), 0),
{
    match input.group_by {
        GroupBy::List => {
            let lists = lists_seen(input, open);
            lemma_lists_turned(
                input,
                cuts,
                open,
                lists,
                lists_by_name(input, lists),
                false,
            );
        },
        GroupBy::State => {
            let late = overdue_tasks(input, open);
            let now = today_tasks(input, open);
            let loose = backlog_tasks(input, open);
            let ahead = future_tasks(input, open);
            let a = flat_rows(input, cuts, OVERDUE_GROUP_ID@, GroupKind::Overdue, late);
            let b = flat_rows(input, cuts, TODAY_GROUP_ID@, GroupKind::Today, now);
            let c = backlog_rows(input, cuts, loose);
            let d = flat_rows(input, cuts, DEFERRED_GROUP_ID@, GroupKind::Deferred, ahead);
            picking_keeps_the_turn(
                open,
                |i: usize|
                    !waits(input, i) && (planned(input, i) matches Some(d) && d.before(
                        input.today@,
                    )),
                by_band(input),
            );
            picking_keeps_the_turn(
                open,
                |i: usize| !waits(input, i) && planned(input, i) == Some(input.today@),
                by_band(input),
            );
            picking_keeps_the_turn(
                open,
                |i: usize| !waits(input, i) && planned(input, i) is None,
                by_band(input),
            );
            if late.len() > 0 {
                lemma_band_turns(input, a[0], late);
            }
            if now.len() > 0 {
                lemma_band_turns(input, b[0], now);
            }
            if ahead.len() > 0 {
                lemma_future_turns(input, open, d[0]);
            }
            lemma_flat_turned(input, cuts, OVERDUE_GROUP_ID@, GroupKind::Overdue, late);
            lemma_flat_turned(input, cuts, TODAY_GROUP_ID@, GroupKind::Today, now);
            lemma_flat_turned(input, cuts, DEFERRED_GROUP_ID@, GroupKind::Deferred, ahead);
            if loose.len() > 0 {
                let lists = lists_seen(input, loose);
                lemma_lists_turned(
                    input,
                    cuts,
                    loose,
                    lists,
                    lists_by_name(input, lists),
                    true,
                );
                let kids = rows_by_list(input, cuts, loose, true);
                let none: Seq<usize> = Seq::empty();
                assert(ids_of(input, none) =~= Seq::empty());
                lemma_put_under(input, c[0], kids, 0, none);
                assert(c =~= seq![c[0]] + kids);
            }
            lemma_beside(input, a, b, 0);
            lemma_beside(input, a + b, c, 0);
            lemma_beside(input, a + b + c, d, 0);
        },
    }
}

/// The tasks that stand directly under a row take turns: under a task, a list, a
/// section, the overdue and today's by their bands, the deferred by the day they
/// are ahead for, the done and the cancelled the latest first.
pub proof fn the_tasks_under_a_row_take_turns(input: GroupingInput, p: int)
    requires
        input.tasks@.len() > 0,
        0 <= p < grouped(input).len(),
    ensures
        takes_turns(input, grouped(input), p),
{
    let tasks = input.tasks@;
    let guard = settled(tasks);
    let open = open_tasks(input, guard.top);
    let done = done_tasks(input, guard.top);
    let gone = cancelled_tasks(input, guard.top);
    let a = open_rows(input, guard.cuts, open);
    let b = done_rows(input, guard.cuts, done);
    let c = cancelled_rows(input, guard.cuts, gone);
    lemma_by_band(input, those(guard.top, |i: usize| !input.tasks@[i as int].status.terminal()));
    lemma_open_turned(input, guard.cuts, open);
    if done.len() > 0 {
        let hidden = is_collapsed(input, DONE_GROUP_ID@);
        lemma_done_turns(input, guard.top, b[0]);
        lemma_group_turned(input, guard.cuts, b[0], done, hidden);
        assert(b =~= seq![b[0]] + rows_of_tasks(input, guard.cuts, done, 1, hidden, tasks.len()));
    }
    if gone.len() > 0 {
        let hidden = is_collapsed(input, CANCELLED_GROUP_ID@);
        lemma_cancelled_turns(input, guard.top, c[0]);
        lemma_group_turned(input, guard.cuts, c[0], gone, hidden);
        assert(c =~= seq![c[0]] + rows_of_tasks(input, guard.cuts, gone, 1, hidden, tasks.len()));
    }
    lemma_beside(input, a, b, 0);
    lemma_beside(input, a + b, c, 0);
    assert(takes_turns(input, grouped(input), place(p)));
}

// ---------------------------------------------------------------------------
// Groups
// ---------------------------------------------------------------------------

/// The place of a kind of group in the view.
pub open spec fn rank(kind: GroupKind) -> int {
    match kind {
        GroupKind::Overdue => 0,
        GroupKind::Today => 1,
        GroupKind::Backlog => 2,
        GroupKind::List => 2,
        GroupKind::Section => 2,
        GroupKind::Deferred => 3,
        GroupKind::Done => 4,
        GroupKind::Cancelled => 5,
    }
}

/// The groups at the top come in their order, each kind from one place to the
/// next.
spec fn are_ranked(rows: Seq<RowText>, low: int, high: int) -> bool {
    &&& forall|k: int|
        0 <= k < rows.len() && (#[trigger] rows[k]).depth == 0 && rows[k].group is Some ==> low
            <= rank(rows[k].group->0.kind) <= high
    &&& forall|j: int, k: int|
        0 <= j < k < rows.len() && (#[trigger] rows[j]).depth == 0 && (#[trigger] rows[k]).depth
            == 0 && rows[j].group is Some && rows[k].group is Some ==> rank(
            rows[j].group->0.kind,
        ) < rank(rows[k].group->0.kind) || (rows[j].group->0.kind is List
            && rows[k].group->0.kind is List)
}

proof fn lemma_ranked_beside(
    a: Seq<RowText>,
    b: Seq<RowText>,
    low: int,
    between: int,
    high: int,
)
    requires
        are_ranked(a, low, between),
        are_ranked(b, between + 1, high),
        low <= between + 1 <= high + 1,
    ensures
        are_ranked(a + b, low, high),
{
    let all = a + b;
    let n = a.len() as int;
    assert forall|k: int|
        0 <= k < all.len() && (#[trigger] all[k]).depth == 0 && all[k].group is Some implies low
        <= rank(all[k].group->0.kind) <= high && (k < n ==> rank(all[k].group->0.kind) <= between)
        && (k >= n ==> rank(all[k].group->0.kind) > between) by {
        if k < n {
            assert(all[k] == a[k]);
        } else {
            assert(all[k] == b[k - n]);
        }
    }
    assert forall|j: int, k: int|
        0 <= j < k < all.len() && (#[trigger] all[j]).depth == 0 && (#[trigger] all[k]).depth == 0
            && all[j].group is Some && all[k].group is Some implies rank(all[j].group->0.kind)
        < rank(all[k].group->0.kind) || (all[j].group->0.kind is List && all[k].group->0.kind
        is List) by {
        if k < n {
            assert(all[j] == a[j] && all[k] == a[k]);
        } else if j >= n {
            assert(all[j] == b[j - n] && all[k] == b[k - n]);
        }
    }
}

/// Rows under one header at the top.
proof fn lemma_one_group(input: GroupingInput, rows: Seq<RowText>, kind: GroupKind)
    requires
        rows.len() > 0 ==> rows[0].group is Some && rows[0].group->0.kind == kind,
        forall|k: int| 0 < k < rows.len() ==> (#[trigger] rows[k]).depth > 0,
    ensures
        are_ranked(rows, rank(kind), rank(kind)),
{
}

proof fn lemma_deeper(
    input: GroupingInput,
    head: RowText,
    kids: Seq<RowText>,
)
    requires
        is_turned(input, kids, 1),
    ensures
        forall|k: int| 0 < k < (seq![head] + kids).len() ==> (#[trigger] (seq![head]
            + kids)[k]).depth > 0,
{
    let all = seq![head] + kids;
    assert forall|k: int| 0 < k < all.len() implies (#[trigger] all[k]).depth > 0 by {
        assert(all[k] == kids[k - 1]);
    }
}

proof fn lemma_lists_ranked(
    input: GroupingInput,
    cuts: Seq<(Seq<char>, Seq<char>)>,
    items: Seq<usize>,
    lists: Seq<Seq<char>>,
    order: Seq<usize>,
)
    requires
        input.tasks@.len() > 0,
        are_in_turn(items, by_band(input)),
    ensures
        ({
            let rows = rows_of_lists(input, cuts, items, lists, order, false);
            forall|k: int|
                0 <= k < rows.len() && (#[trigger] rows[k]).depth == 0 && rows[k].group is Some
                    ==> rows[k].group->0.kind is List
        }),
    decreases order.len(),
{
    if order.len() > 0 {
        let front = order.drop_last();
        let list_id = lists[order.last() as int];
        lemma_lists_ranked(input, cuts, items, lists, front);
        let place = list_place(input, list_id, false);
        let own = in_list(input, items, list_id);
        picking_keeps_the_turn(items, is_in_list(input, list_id), by_band(input));
        let a = rows_of_lists(input, cuts, items, lists, front, false);
        let b = list_rows(input, cuts, place, own);
        let all = rows_of_lists(input, cuts, items, lists, order, false);
        let n = input.tasks@.len();
        let sections = sections_of(input, place.list_id);
        let hidden = place.hidden || is_collapsed(input, place.id);
        let loose = unsectioned(input, own, sections);
        let first = rows_of_tasks(input, cuts, loose, 1, hidden, n);
        let second = rows_of_sections(
            input,
            cuts,
            place,
            own,
            sections,
            sections_by_name(input, sections),
        );
        lemma_tasks_turned(input, cuts, loose, 1, hidden, n);
        lemma_sections_turned(
            input,
            cuts,
            place,
            own,
            sections,
            sections_by_name(input, sections),
        );
        lemma_beside(input, first, second, 1);
        assert(b =~= seq![b[0]] + (first + second));
        lemma_deeper(input, b[0], first + second);
        assert forall|k: int|
            0 <= k < all.len() && (#[trigger] all[k]).depth == 0 && all[k].group is Some implies
            all[k].group->0.kind is List by {
            if k < a.len() {
                assert(all[k] == a[k]);
            } else {
                assert(all[k] == b[k - a.len()]);
                if k > a.len() {
                    assert(b[k - a.len()].depth > 0);
                }
            }
        }
    }
}

proof fn lemma_flat_ranked(
    input: GroupingInput,
    cuts: Seq<(Seq<char>, Seq<char>)>,
    id: Seq<char>,
    kind: GroupKind,
    items: Seq<usize>,
)
    ensures
        are_ranked(flat_rows(input, cuts, id, kind, items), rank(kind), rank(kind)),
{
    let rows = flat_rows(input, cuts, id, kind, items);
    if items.len() > 0 {
        let n = input.tasks@.len();
        let hidden = is_collapsed(input, id);
        let kids = rows_of_tasks(input, cuts, items, 1, hidden, n);
        lemma_tasks_turned(input, cuts, items, 1, hidden, n);
        assert(rows =~= seq![rows[0]] + kids);
        lemma_deeper(input, rows[0], kids);
    }
    lemma_one_group(input, rows, kind);
}

/// The groups at the top of the view come in this order, each once: the overdue,
/// today's, the backlog, the deferred, the done, the cancelled. In a view by list
/// the lists stand in place of the first four.
pub proof fn the_groups_come_in_their_order(input: GroupingInput, j: int, k: int)
    requires
        input.tasks@.len() > 0,
        0 <= j < k < grouped(input).len(),
        grouped(input)[j].depth == 0,
        grouped(input)[k].depth == 0,
        grouped(input)[j].group is Some,
        grouped(input)[k].group is Some,
    ensures
        rank(grouped(input)[j].group->0.kind) < rank(grouped(input)[k].group->0.kind) || (
        input.group_by is List && grouped(input)[j].group->0.kind is List && grouped(
            input,
        )[k].group->0.kind is List),
{
    let tasks = input.tasks@;
    let guard = settled(tasks);
    let cuts = guard.cuts;
    let open = open_tasks(input, guard.top);
    let done = done_tasks(input, guard.top);
    let gone = cancelled_tasks(input, guard.top);
    let o = open_rows(input, cuts, open);
    let y = done_rows(input, cuts, done);
    let z = cancelled_rows(input, cuts, gone);
    lemma_by_band(input, those(guard.top, |i: usize| !input.tasks@[i as int].status.terminal()));
    match input.group_by {
        GroupBy::List => {
            let lists = lists_seen(input, open);
            lemma_lists_ranked(
                input,
                cuts,
                open,
                lists,
                lists_by_name(input, lists),
            );
            assert(are_ranked(o, 0, 3));
        },
        GroupBy::State => {
            let late = overdue_tasks(input, open);
            let now = today_tasks(input, open);
            let loose = backlog_tasks(input, open);
            let ahead = future_tasks(input, open);
            let a = flat_rows(input, cuts, OVERDUE_GROUP_ID@, GroupKind::Overdue, late);
            let b = flat_rows(input, cuts, TODAY_GROUP_ID@, GroupKind::Today, now);
            let c = backlog_rows(input, cuts, loose);
            let d = flat_rows(input, cuts, DEFERRED_GROUP_ID@, GroupKind::Deferred, ahead);
            lemma_flat_ranked(input, cuts, OVERDUE_GROUP_ID@, GroupKind::Overdue, late);
            lemma_flat_ranked(input, cuts, TODAY_GROUP_ID@, GroupKind::Today, now);
            lemma_flat_ranked(input, cuts, DEFERRED_GROUP_ID@, GroupKind::Deferred, ahead);
            if loose.len() > 0 {
                picking_keeps_the_turn(
                    open,
                    |i: usize| !waits(input, i) && planned(input, i) is None,
                    by_band(input),
                );
                let lists = lists_seen(input, loose);
                lemma_lists_turned(
                    input,
                    cuts,
                    loose,
                    lists,
                    lists_by_name(input, lists),
                    true,
                );
                let kids = rows_by_list(input, cuts, loose, true);
                assert(c =~= seq![c[0]] + kids);
                lemma_deeper(input, c[0], kids);
            }
            lemma_one_group(input, c, GroupKind::Backlog);
            lemma_ranked_beside(a, b, 0, 0, 1);
            lemma_ranked_beside(a + b, c, 0, 1, 2);
            lemma_ranked_beside(a + b + c, d, 0, 2, 3);
            assert(no_lists(o)) by {
                assert forall|x: int|
                    0 <= x < o.len() && (#[trigger] o[x]).depth == 0 && o[x].group is Some implies
                    !(o[x].group->0.kind is List) by {
                    let n1 = a.len() as int;
                    let n2 = n1 + b.len();
                    let n3 = n2 + c.len();
                    if x < n1 {
                        assert(o[x] == a[x]);
                    } else if x < n2 {
                        assert(o[x] == b[x - n1]);
                    } else if x < n3 {
                        assert(o[x] == c[x - n2]);
                        if x > n2 {
                            assert(c[x - n2].depth > 0);
                        }
                    } else {
                        assert(o[x] == d[x - n3]);
                    }
                }
            }
        },
    }
    lemma_done_ranked(input, cuts, done);
    lemma_cancelled_ranked(input, cuts, gone);
    lemma_ranked_beside(o, y, 0, 3, 4);
    lemma_ranked_beside(o + y, z, 0, 4, 5);
    let all = grouped(input);
    assert(all =~= o + y + z);
    if input.group_by is State && all[j].group->0.kind is List {
        let n1 = o.len() as int;
        let n2 = n1 + y.len();
        if j < n1 {
            assert(all[j] == o[j]);
        } else if j < n2 {
            assert(all[j] == y[j - n1]);
        } else {
            assert(all[j] == z[j - n2]);
        }
    }
}

spec fn no_lists(rows: Seq<RowText>) -> bool {
    forall|x: int|
        0 <= x < rows.len() && (#[trigger] rows[x]).depth == 0 && rows[x].group is Some ==> !(
        rows[x].group->0.kind is List)
}

proof fn lemma_done_ranked(
    input: GroupingInput,
    cuts: Seq<(Seq<char>, Seq<char>)>,
    items: Seq<usize>,
)
    ensures
        are_ranked(done_rows(input, cuts, items), 4, 4),
{
    let rows = done_rows(input, cuts, items);
    if items.len() > 0 {
        let n = input.tasks@.len();
        let hidden = is_collapsed(input, DONE_GROUP_ID@);
        let kids = rows_of_tasks(input, cuts, items, 1, hidden, n);
        lemma_tasks_turned(input, cuts, items, 1, hidden, n);
        assert(rows =~= seq![rows[0]] + kids);
        lemma_deeper(input, rows[0], kids);
    }
    lemma_one_group(input, rows, GroupKind::Done);
}

proof fn lemma_cancelled_ranked(
    input: GroupingInput,
    cuts: Seq<(Seq<char>, Seq<char>)>,
    items: Seq<usize>,
)
    ensures
        are_ranked(cancelled_rows(input, cuts, items), 5, 5),
{
    let rows = cancelled_rows(input, cuts, items);
    if items.len() > 0 {
        let n = input.tasks@.len();
        let hidden = is_collapsed(input, CANCELLED_GROUP_ID@);
        let kids = rows_of_tasks(input, cuts, items, 1, hidden, n);
        lemma_tasks_turned(input, cuts, items, 1, hidden, n);
        assert(rows =~= seq![rows[0]] + kids);
        lemma_deeper(input, rows[0], kids);
    }
    lemma_one_group(input, rows, GroupKind::Cancelled);
}

// ---------------------------------------------------------------------------
// Names
// ---------------------------------------------------------------------------

/// A list is shown by the last name given for it, or by its id where none is.
pub proof fn a_list_is_shown_by_its_last_name(input: GroupingInput, list_id: Seq<char>, n: int)
    requires
        0 <= n <= input.lists@.len(),
    ensures
        forall|k: int|
            0 <= k < n && (#[trigger] input.lists@[k]).list_id@ == list_id && (forall|j: int|
                k < j < n ==> (#[trigger] input.lists@[j]).list_id@ != list_id) ==> name_of(
                input,
                list_id,
                n,
            ) == input.lists@[k].name@,
        (forall|k: int| 0 <= k < n ==> (#[trigger] input.lists@[k]).list_id@ != list_id)
            ==> name_of(input, list_id, n) == list_id,
    decreases n,
{
    if n > 0 {
        a_list_is_shown_by_its_last_name(input, list_id, n - 1);
        if input.lists@[n - 1].list_id@ == list_id {
            assert forall|k: int|
                0 <= k < n && (#[trigger] input.lists@[k]).list_id@ == list_id && (forall|j: int|
                    k < j < n ==> (#[trigger] input.lists@[j]).list_id@ != list_id) implies k == n
                - 1 by {
                if k < n - 1 {
                    assert(input.lists@[n - 1].list_id@ != list_id);
                }
            }
        } else {
            assert forall|k: int|
                0 <= k < n && (#[trigger] input.lists@[k]).list_id@ == list_id && (forall|j: int|
                    k < j < n ==> (#[trigger] input.lists@[j]).list_id@ != list_id) implies name_of(
                input,
                list_id,
                n,
            ) == input.lists@[k].name@ by {
                assert(k < n - 1);
                assert forall|j: int| k < j < n - 1 implies (#[trigger] input.lists@[j]).list_id@
                    != list_id by {}
            }
        }
    }
}

/// Where names have an order, lists come in that of theirs, sections in that of
/// theirs, and tasks of one band in that of their titles: no later one is to come
/// before an earlier.
pub proof fn lists_sections_and_titles_come_in_order(
    input: GroupingInput,
    lists: Seq<Seq<char>>,
    sections: Seq<Section>,
    tasks: Seq<usize>,
)
    requires
        is_an_order(list_order(input, lists)),
        is_an_order(section_order(input, sections)),
        is_an_order(task_order(input)),
    ensures
        forall|i: int, j: int|
            0 <= i < j < lists_by_name(input, lists).len() ==> !name_first(
                name_of(
                    input,
                    lists[#[trigger] lists_by_name(input, lists)[j] as int],
                    input.lists@.len() as int,
                ),
                name_of(
                    input,
                    lists[#[trigger] lists_by_name(input, lists)[i] as int],
                    input.lists@.len() as int,
                ),
                language_of(input.language@),
            ),
        forall|i: int, j: int|
            0 <= i < j < sections_by_name(input, sections).len() ==> !title_first(
                sections[#[trigger] sections_by_name(input, sections)[j] as int].name@,
                sections[#[trigger] sections_by_name(input, sections)[i] as int].name@,
                language_of(input.language@),
            ),
        forall|i: int, j: int|
            0 <= i < j < in_order(tasks, task_order(input)).len() && input.tasks@[
            #[trigger] in_order(tasks, task_order(input))[i] as int].band == input.tasks@[
            #[trigger] in_order(tasks, task_order(input))[j] as int].band ==> !title_first(
                input.tasks@[in_order(tasks, task_order(input))[j] as int].title@,
                input.tasks@[in_order(tasks, task_order(input))[i] as int].title@,
                language_of(input.language@),
            ),
{
    let a = list_order(input, lists);
    let b = section_order(input, sections);
    let c = task_order(input);
    ordering_orders(positions(lists.len() as int), a);
    ordering_orders(positions(sections.len() as int), b);
    ordering_orders(tasks, c);
    let x = lists_by_name(input, lists);
    let y = sections_by_name(input, sections);
    let z = in_order(tasks, c);
    assert(x == in_order(positions(lists.len() as int), a));
    assert(y == in_order(positions(sections.len() as int), b));
    assert forall|i: int, j: int| 0 <= i < j < x.len() implies !name_first(
        name_of(input, lists[#[trigger] x[j] as int], input.lists@.len() as int),
        name_of(input, lists[#[trigger] x[i] as int], input.lists@.len() as int),
        language_of(input.language@),
    ) by {
        assert(!a(x[j], x[i]));
    }
    assert forall|i: int, j: int| 0 <= i < j < y.len() implies !title_first(
        sections[#[trigger] y[j] as int].name@,
        sections[#[trigger] y[i] as int].name@,
        language_of(input.language@),
    ) by {
        assert(!b(y[j], y[i]));
    }
    assert forall|i: int, j: int|
        0 <= i < j < z.len() && input.tasks@[#[trigger] z[i] as int].band == input.tasks@[
        #[trigger] z[j] as int].band implies !title_first(
        input.tasks@[z[j] as int].title@,
        input.tasks@[z[i] as int].title@,
        language_of(input.language@),
    ) by {
        assert(!c(z[j], z[i]));
    }
}

/// One list comes before another by its name.
pub open spec fn list_order(
    input: GroupingInput,
    lists: Seq<Seq<char>>,
) -> spec_fn(usize, usize) -> bool {
    |a: usize, b: usize|
        name_first(
            name_of(input, lists[a as int], input.lists@.len() as int),
            name_of(input, lists[b as int], input.lists@.len() as int),
            language_of(input.language@),
        )
}

/// One section comes before another by its name.
pub open spec fn section_order(
    input: GroupingInput,
    sections: Seq<Section>,
) -> spec_fn(usize, usize) -> bool {
    |a: usize, b: usize|
        title_first(
            sections[a as int].name@,
            sections[b as int].name@,
            language_of(input.language@),
        )
}

/// A done task counts as somebody else's exactly where the last user given for
/// its list is known, people hold the task, and that user is none of them.
pub proof fn whose_a_done_task_is(input: GroupingInput, i: usize)
    ensures
        !task_is_mine(input, i) <==> exists|k: int|
            #[trigger] is_last_user(input, input.tasks@[i as int].list_id@, k)
                && input.current_user_by_list@[k].user is Some
                && input.tasks@[i as int].assignees@.len() > 0 && forall|a: int|
                0 <= a < input.tasks@[i as int].assignees@.len() ==> (
                #[trigger] input.tasks@[i as int].assignees@[a]).id@
                    != input.current_user_by_list@[k].user->0.id@,
{
    let task = input.tasks@[i as int];
    let users = input.current_user_by_list@;
    let ids = user_ids(task.assignees@);
    lemma_user_found(input, task.list_id@, users.len() as int);
    assert forall|j: int, k: int|
        #[trigger] is_last_user(input, task.list_id@, j) && #[trigger] is_last_user(
            input,
            task.list_id@,
            k,
        ) implies j == k by {
        if j < k {
            assert(users[k].list_id@ != task.list_id@);
        }
        if k < j {
            assert(users[j].list_id@ != task.list_id@);
        }
    }
    if let Some(k) = user_place(input, task.list_id@, users.len() as int) {
        if users[k].user is Some {
            let me = users[k].user->0.id@;
            if ids.contains(me) {
                let a = choose|a: int| 0 <= a < ids.len() && ids[a] == me;
                assert(task.assignees@[a].id@ == me);
            } else {
                assert forall|a: int| 0 <= a < task.assignees@.len() implies (
                #[trigger] task.assignees@[a]).id@ != me by {
                    assert(ids[a] == task.assignees@[a].id@);
                }
            }
        }
    }
}

/// The last entry for a list.
pub open spec fn is_last_user(input: GroupingInput, list_id: Seq<char>, k: int) -> bool {
    &&& 0 <= k < input.current_user_by_list@.len()
    &&& input.current_user_by_list@[k].list_id@ == list_id
    &&& forall|j: int|
        k < j < input.current_user_by_list@.len() ==> (
        #[trigger] input.current_user_by_list@[j]).list_id@ != list_id
}

proof fn lemma_user_found(input: GroupingInput, list_id: Seq<char>, n: int)
    requires
        0 <= n <= input.current_user_by_list@.len(),
        forall|j: int|
            n <= j < input.current_user_by_list@.len() ==> (
            #[trigger] input.current_user_by_list@[j]).list_id@ != list_id,
    ensures
        match user_place(input, list_id, n) {
            Some(k) => is_last_user(input, list_id, k),
            None => forall|k: int| !#[trigger] is_last_user(input, list_id, k),
        },
    decreases n,
{
    if n > 0 {
        if input.current_user_by_list@[n - 1].list_id@ != list_id {
            assert forall|j: int| n - 1 <= j < input.current_user_by_list@.len() implies (
            #[trigger] input.current_user_by_list@[j]).list_id@ != list_id by {}
            lemma_user_found(input, list_id, n - 1);
        }
    } else {
        assert forall|k: int| !#[trigger] is_last_user(input, list_id, k) by {
            if 0 <= k < input.current_user_by_list@.len() {
                assert(input.current_user_by_list@[k].list_id@ != list_id);
            }
        }
    }
}

} // verus!
