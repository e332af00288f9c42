//! What the task view promises of its rows: each task it is handed has exactly
//! one.

use vstd::prelude::*;

use crate::collation::{language_of, name_first, title_first};
use crate::order::{all_below, in_order, lemma_those, ordering_keeps_every_item, positions, those};
use crate::task_coverage::{
    every_task_has_a_row, lemma_hanging, lemma_joined, lemma_positions_fit, lemma_pushed,
    lemma_same_items, lemma_top_differs, lemma_top_is_free, shows,
};
use crate::task_grouping::{
    backlog_rows, backlog_tasks, cancelled_rows, cancelled_tasks, children_of, done_moment,
    done_rows, done_tasks, flat_rows, future_day, future_tasks, grouped, hanging_under, has_id,
    in_list, in_section, is_collapsed, is_in_list, is_section, last_with_id, list_place, list_rows,
    lists_by_name, lists_seen, name_of, open_rows, open_tasks, overdue_tasks, parent_of, planned,
    rows_by_list, rows_of_lists, rows_of_sections, rows_of_tasks, section_rows, sections_by_name,
    sections_of, settled, subtasks, task_order, task_rows, today_tasks, unsectioned, waits, GroupBy,
    GroupKind, GroupableTask, GroupingInput, ListPlace, RowText, CANCELLED_GROUP_ID,
    DEFERRED_GROUP_ID, DONE_GROUP_ID, OVERDUE_GROUP_ID, TODAY_GROUP_ID,
};
use crate::text::optional_text;
use crate::types::Section;

verus! {

// ---------------------------------------------------------------------------
// Counting rows
// ---------------------------------------------------------------------------

/// How many rows a task with this id has.
pub open spec fn times_shown(rows: Seq<RowText>, id: Seq<char>) -> nat
    decreases rows.len(),
{
    if rows.len() == 0 {
        0
    } else {
        times_shown(rows.drop_last(), id) + if rows.last().group is None && rows.last().id == id {
            1nat
        } else {
            0nat
        }
    }
}

proof fn lemma_times_added(a: Seq<RowText>, b: Seq<RowText>, id: Seq<char>)
    ensures
        times_shown(a + b, id) == times_shown(a, id) + times_shown(b, id),
    decreases b.len(),
{
    if b.len() == 0 {
        assert(a + b =~= a);
    } else {
        assert((a + b).drop_last() =~= a + b.drop_last());
        lemma_times_added(a, b.drop_last(), id);
    }
}

proof fn lemma_times_one(row: RowText, id: Seq<char>)
    ensures
        times_shown(seq![row], id) == if row.group is None && row.id == id {
            1nat
        } else {
            0nat
        },
{
    assert(seq![row].drop_last() =~= Seq::empty());
    assert(times_shown(Seq::empty(), id) == 0);
}

proof fn lemma_shown_counts(rows: Seq<RowText>, id: Seq<char>)
    requires
        shows(rows, id),
    ensures
        times_shown(rows, id) >= 1,
    decreases rows.len(),
{
    let k = choose|k: int|
        0 <= k < rows.len() && (#[trigger] rows[k]).id == id && rows[k].group is None;
    if k < rows.len() - 1 {
        let front = rows.drop_last();
        assert(front[k].id == id && front[k].group is None);
        lemma_shown_counts(front, id);
    }
}

// ---------------------------------------------------------------------------
// The way up
// ---------------------------------------------------------------------------

/// No two tasks share an id.
pub open spec fn ids_differ(tasks: Seq<GroupableTask>) -> bool {
    forall|i: int, j: int|
        0 <= i < j < tasks.len() ==> (#[trigger] tasks[i]).id@ != (#[trigger] tasks[j]).id@
}

/// No two sections of a list share an id.
pub open spec fn sections_differ(input: GroupingInput) -> bool {
    forall|l: Seq<char>, i: int, j: int|
        0 <= i < j < sections_of(input, l).len() ==> (#[trigger] sections_of(input, l)[i]).id@ != (
        #[trigger] sections_of(input, l)[j]).id@
}

/// The task that another hangs under, in the links that are left.
spec fn up(
    tasks: Seq<GroupableTask>,
    cuts: Seq<(Seq<char>, Seq<char>)>,
    c: usize,
) -> Option<usize> {
    match parent_of(tasks, c as int) {
        Some(p) => if cuts.contains((p, tasks[c as int].id@)) {
            None
        } else {
            last_with_id(tasks, p, tasks.len() as int)
        },
        None => None,
    }
}

/// The task `k` links above another.
spec fn above(
    tasks: Seq<GroupableTask>,
    cuts: Seq<(Seq<char>, Seq<char>)>,
    x: Option<usize>,
    k: nat,
) -> Option<usize>
    decreases k,
{
    if k == 0 {
        x
    } else {
        match above(tasks, cuts, x, (k - 1) as nat) {
            Some(c) => up(tasks, cuts, c),
            None => None,
        }
    }
}

/// How often the way up from a task, up to `d` tasks long, meets one of a set.
spec fn met(
    tasks: Seq<GroupableTask>,
    cuts: Seq<(Seq<char>, Seq<char>)>,
    set: Set<usize>,
    x: Option<usize>,
    d: nat,
) -> nat
    decreases d,
{
    if d == 0 {
        0
    } else {
        met(tasks, cuts, set, x, (d - 1) as nat) + match above(tasks, cuts, x, (d - 1) as nat) {
            Some(c) => if set.contains(c) {
                1nat
            } else {
                0nat
            },
            None => 0nat,
        }
    }
}

proof fn lemma_last_is(tasks: Seq<GroupableTask>, id: Seq<char>, n: int)
    requires
        0 <= n <= tasks.len() <= usize::MAX,
    ensures
        match last_with_id(tasks, id, n) {
            Some(p) => p < n && tasks[p as int].id@ == id,
            None => forall|k: int| 0 <= k < n ==> (#[trigger] tasks[k]).id@ != id,
        },
    decreases n,
{
    if n > 0 && tasks[n - 1].id@ != id {
        lemma_last_is(tasks, id, n - 1);
    }
}

/// A task is the one above another where that is its child.
proof fn lemma_up_is_parent(
    tasks: Seq<GroupableTask>,
    cuts: Seq<(Seq<char>, Seq<char>)>,
    t: usize,
    c: usize,
)
    requires
        t < tasks.len() <= usize::MAX,
        c < tasks.len(),
        ids_differ(tasks),
    ensures
        up(tasks, cuts, c) == Some(t) <==> children_of(tasks, cuts, tasks[t as int].id@).contains(
            c,
        ),
{
    let id = tasks[t as int].id@;
    lemma_hanging(tasks, cuts, id, tasks.len() as int, c);
    if let Some(p) = parent_of(tasks, c as int) {
        lemma_last_is(tasks, p, tasks.len() as int);
        if let Some(q) = last_with_id(tasks, p, tasks.len() as int) {
            if q < t {
                assert(tasks[q as int].id@ != tasks[t as int].id@);
            } else if t < q {
                assert(tasks[t as int].id@ != tasks[q as int].id@);
            }
        } else {
            assert(tasks[t as int].id@ != p);
        }
    }
}

proof fn lemma_above_below(
    tasks: Seq<GroupableTask>,
    cuts: Seq<(Seq<char>, Seq<char>)>,
    x: Option<usize>,
    k: nat,
)
    requires
        tasks.len() <= usize::MAX,
        x matches Some(p) ==> p < tasks.len(),
    ensures
        above(tasks, cuts, x, k) matches Some(c) ==> c < tasks.len(),
    decreases k,
{
    if k > 0 {
        lemma_above_below(tasks, cuts, x, (k - 1) as nat);
        if let Some(c) = above(tasks, cuts, x, (k - 1) as nat) {
            if let Some(p) = parent_of(tasks, c as int) {
                lemma_last_is(tasks, p, tasks.len() as int);
            }
        }
    }
}

/// The way up meets a task where it starts from it or has met one of its
/// children before.
proof fn lemma_met_above(
    tasks: Seq<GroupableTask>,
    cuts: Seq<(Seq<char>, Seq<char>)>,
    t: usize,
    x: Option<usize>,
    d: nat,
)
    requires
        t < tasks.len() <= usize::MAX,
        x matches Some(p) ==> p < tasks.len(),
        ids_differ(tasks),
        d > 0,
    ensures
        met(tasks, cuts, set![t], x, d) == met(
            tasks,
            cuts,
            children_of(tasks, cuts, tasks[t as int].id@).to_set(),
            x,
            (d - 1) as nat,
        ) + if x == Some(t) {
            1nat
        } else {
            0nat
        },
    decreases d,
{
    let kids = children_of(tasks, cuts, tasks[t as int].id@);
    if d == 1 {
        assert(met(tasks, cuts, set![t], x, 0) == 0);
        assert(met(tasks, cuts, kids.to_set(), x, 0) == 0);
        assert(above(tasks, cuts, x, 0) == x);
    } else {
        lemma_met_above(tasks, cuts, t, x, (d - 1) as nat);
        let below = above(tasks, cuts, x, (d - 2) as nat);
        lemma_above_below(tasks, cuts, x, (d - 2) as nat);
        if let Some(c) = below {
            lemma_up_is_parent(tasks, cuts, t, c);
            assert(above(tasks, cuts, x, (d - 1) as nat) == up(tasks, cuts, c));
        } else {
            assert(above(tasks, cuts, x, (d - 1) as nat) is None);
        }
    }
}

proof fn lemma_met_none(
    tasks: Seq<GroupableTask>,
    cuts: Seq<(Seq<char>, Seq<char>)>,
    x: Option<usize>,
    d: nat,
)
    ensures
        met(tasks, cuts, Set::empty(), x, d) == 0,
    decreases d,
{
    if d > 0 {
        lemma_met_none(tasks, cuts, x, (d - 1) as nat);
    }
}

/// What meets one of two sets apart meets their union.
proof fn lemma_met_union(
    tasks: Seq<GroupableTask>,
    cuts: Seq<(Seq<char>, Seq<char>)>,
    a: Set<usize>,
    b: Set<usize>,
    x: Option<usize>,
    d: nat,
)
    requires
        a.disjoint(b),
    ensures
        met(tasks, cuts, a.union(b), x, d) == met(tasks, cuts, a, x, d) + met(tasks, cuts, b, x, d),
    decreases d,
{
    if d > 0 {
        lemma_met_union(tasks, cuts, a, b, x, (d - 1) as nat);
    }
}

/// Where nothing stands above the tasks of a set, the way up meets one at most.
proof fn lemma_met_once(
    tasks: Seq<GroupableTask>,
    cuts: Seq<(Seq<char>, Seq<char>)>,
    set: Set<usize>,
    x: Option<usize>,
    d: nat,
)
    requires
        forall|t: usize| #[trigger] set.contains(t) ==> up(tasks, cuts, t) is None,
    ensures
        met(tasks, cuts, set, x, d) <= 1,
        met(tasks, cuts, set, x, d) == 1 ==> above(tasks, cuts, x, d) is None,
    decreases d,
{
    if d > 0 {
        lemma_met_once(tasks, cuts, set, x, (d - 1) as nat);
    }
}

// ---------------------------------------------------------------------------
// The rows of tasks
// ---------------------------------------------------------------------------

proof fn lemma_hanging_differ(
    tasks: Seq<GroupableTask>,
    cuts: Seq<(Seq<char>, Seq<char>)>,
    id: Seq<char>,
    n: int,
)
    requires
        0 <= n <= tasks.len() <= usize::MAX,
    ensures
        hanging_under(tasks, cuts, id, n).no_duplicates(),
        all_below(hanging_under(tasks, cuts, id, n), n),
    decreases n,
{
    if n > 0 {
        lemma_hanging_differ(tasks, cuts, id, n - 1);
    }
}

/// Ordering keeps the items, and keeps them apart.
proof fn lemma_order_differs(list: Seq<usize>, less: spec_fn(usize, usize) -> bool)
    requires
        list.no_duplicates(),
    ensures
        in_order(list, less).no_duplicates(),
        in_order(list, less).to_set() == list.to_set(),
{
    broadcast use vstd::seq_lib::group_to_multiset_ensures;

    let r = in_order(list, less);
    ordering_keeps_every_item(list, less);
    list.lemma_multiset_has_no_duplicates();
    r.lemma_multiset_has_no_duplicates_conv();
    assert forall|x: usize| r.to_set().contains(x) <==> list.to_set().contains(x) by {
        lemma_same_items(list, less, x);
    }
    assert(r.to_set() =~= list.to_set());
}

/// Picking keeps the items apart.
proof fn lemma_those_differ(list: Seq<usize>, keep: spec_fn(usize) -> bool)
    requires
        list.no_duplicates(),
    ensures
        those(list, keep).no_duplicates(),
        forall|x: usize| #[trigger]
            those(list, keep).to_set().contains(x) <==> list.contains(x) && keep(x),
    decreases list.len(),
{
    lemma_those(list, keep);
    if list.len() > 0 {
        let front = list.drop_last();
        lemma_those_differ(front, keep);
        lemma_those(front, keep);
        let before = those(front, keep);
        if keep(list.last()) {
            assert forall|a: int, b: int|
                0 <= a < b < before.len() + 1 implies before.push(list.last())[a] != before.push(
                list.last(),
            )[b] by {
                if b == before.len() {
                    assert(before.contains(before[a]));
                    assert(front.contains(before[a]));
                    let k = choose|k: int| 0 <= k < front.len() && front[k] == before[a];
                    assert(list[k] != list[list.len() - 1]);
                }
            }
        }
    }
    assert forall|x: usize| #[trigger] those(list, keep).to_set().contains(x) implies list.contains(
        x,
    ) && keep(x) by {
        assert(those(list, keep).contains(x));
    }
    assert forall|x: usize| list.contains(x) && keep(x) implies #[trigger] those(
        list,
        keep,
    ).to_set().contains(x) by {
        assert(those(list, keep).contains(x));
    }
}

/// The place of the task with an id.
spec fn place_of(tasks: Seq<GroupableTask>, id: Seq<char>) -> Option<usize> {
    last_with_id(tasks, id, tasks.len() as int)
}

proof fn lemma_place(tasks: Seq<GroupableTask>, id: Seq<char>, t: usize)
    requires
        t < tasks.len() <= usize::MAX,
        ids_differ(tasks),
    ensures
        place_of(tasks, id) == Some(t) <==> tasks[t as int].id@ == id,
        place_of(tasks, id) matches Some(p) ==> p < tasks.len(),
{
    lemma_last_is(tasks, id, tasks.len() as int);
    if let Some(q) = place_of(tasks, id) {
        if q < t {
            assert(tasks[q as int].id@ != tasks[t as int].id@);
        } else if t < q {
            assert(tasks[t as int].id@ != tasks[q as int].id@);
        }
    } else {
        assert(tasks[t as int].id@ != id);
    }
}

/// A task is shown among the rows of another as often as its way up meets that.
proof fn lemma_times_task(
    input: GroupingInput,
    cuts: Seq<(Seq<char>, Seq<char>)>,
    t: usize,
    level: int,
    hidden: bool,
    d: nat,
    id: Seq<char>,
)
    requires
        t < input.tasks@.len() <= usize::MAX,
        ids_differ(input.tasks@),
    ensures
        times_shown(task_rows(input, cuts, t, level, hidden, d), id) == met(
            input.tasks@,
            cuts,
            set![t],
            place_of(input.tasks@, id),
            d,
        ),
    decreases d, 0int, 0int,
{
    let tasks = input.tasks@;
    let x = place_of(tasks, id);
    if d > 0 {
        let own = tasks[t as int].id@;
        let kids = subtasks(input, cuts, own);
        let children = children_of(tasks, cuts, own);
        let row = RowText { id: own, depth: level, hidden, has_children: kids.len() > 0, group: None };
        let below = hidden || is_collapsed(input, own);
        let rest = rows_of_tasks(input, cuts, kids, level + 1, below, (d - 1) as nat);
        lemma_hanging_differ(tasks, cuts, own, tasks.len() as int);
        lemma_order_differs(children, task_order(input));
        ordering_keeps_every_item(children, task_order(input));
        lemma_times_list(input, cuts, kids, level + 1, below, (d - 1) as nat, id);
        lemma_times_added(seq![row], rest, id);
        lemma_times_one(row, id);
        lemma_place(tasks, id, t);
        lemma_met_above(tasks, cuts, t, x, d);
        assert(task_rows(input, cuts, t, level, hidden, d) == seq![row] + rest);
    }
}

proof fn lemma_times_list(
    input: GroupingInput,
    cuts: Seq<(Seq<char>, Seq<char>)>,
    list: Seq<usize>,
    level: int,
    hidden: bool,
    d: nat,
    id: Seq<char>,
)
    requires
        all_below(list, input.tasks@.len() as int),
        list.no_duplicates(),
        input.tasks@.len() <= usize::MAX,
        ids_differ(input.tasks@),
    ensures
        times_shown(rows_of_tasks(input, cuts, list, level, hidden, d), id) == met(
            input.tasks@,
            cuts,
            list.to_set(),
            place_of(input.tasks@, id),
            d,
        ),
    decreases d, 1int, list.len(),
{
    let tasks = input.tasks@;
    let x = place_of(tasks, id);
    if list.len() == 0 {
        assert(list.to_set() =~= Set::empty());
        lemma_met_none(tasks, cuts, x, d);
    } else {
        let front = list.drop_last();
        let last = list.last();
        assert forall|k: int| 0 <= k < front.len() implies (#[trigger] front[k]) < tasks.len() by {
            assert(front[k] == list[k]);
        }
        assert(list[list.len() - 1] == last);
        lemma_times_list(input, cuts, front, level, hidden, d, id);
        lemma_times_task(input, cuts, last, level, hidden, d, id);
        lemma_times_added(
            rows_of_tasks(input, cuts, front, level, hidden, d),
            task_rows(input, cuts, last, level, hidden, d),
            id,
        );
        assert(front.to_set().disjoint(set![last])) by {
            if front.to_set().contains(last) {
                assert(front.contains(last));
                let k = choose|k: int| 0 <= k < front.len() && front[k] == last;
                assert(list[k] != list[list.len() - 1]);
            }
        }
        assert(front.to_set().union(set![last]) =~= list.to_set()) by {
            assert(list =~= front.push(last));
            assert forall|y: usize| #[trigger] list.to_set().contains(y) <==> front.to_set().union(
                set![last],
            ).contains(y) by {
                lemma_pushed(front, last, y);
            }
        }
        lemma_met_union(tasks, cuts, front.to_set(), set![last], x, d);
    }
}

// ---------------------------------------------------------------------------
// The rows of groups
// ---------------------------------------------------------------------------

/// How often a task is shown among the rows of these at the top.
spec fn shown_under(
    input: GroupingInput,
    cuts: Seq<(Seq<char>, Seq<char>)>,
    set: Set<usize>,
    id: Seq<char>,
) -> nat {
    met(input.tasks@, cuts, set, place_of(input.tasks@, id), input.tasks@.len())
}

/// What is asked of the tasks of a group.
spec fn is_part(input: GroupingInput, items: Seq<usize>) -> bool {
    &&& all_below(items, input.tasks@.len() as int)
    &&& items.no_duplicates()
    &&& input.tasks@.len() <= usize::MAX
    &&& ids_differ(input.tasks@)
}

proof fn lemma_part(input: GroupingInput, items: Seq<usize>, keep: spec_fn(usize) -> bool)
    requires
        is_part(input, items),
    ensures
        is_part(input, those(items, keep)),
        forall|x: usize| #[trigger]
            those(items, keep).to_set().contains(x) <==> items.contains(x) && keep(x),
{
    lemma_those(items, keep);
    lemma_those_differ(items, keep);
}

proof fn lemma_ordered_part(
    input: GroupingInput,
    items: Seq<usize>,
    less: spec_fn(usize, usize) -> bool,
)
    requires
        is_part(input, items),
    ensures
        is_part(input, in_order(items, less)),
        in_order(items, less).to_set() == items.to_set(),
{
    ordering_keeps_every_item(items, less);
    lemma_order_differs(items, less);
}

/// The rows of a header and its tasks.
proof fn lemma_times_flat(
    input: GroupingInput,
    cuts: Seq<(Seq<char>, Seq<char>)>,
    head: RowText,
    items: Seq<usize>,
    level: int,
    hidden: bool,
    id: Seq<char>,
)
    requires
        is_part(input, items),
        head.group is Some,
    ensures
        times_shown(
            seq![head] + rows_of_tasks(input, cuts, items, level, hidden, input.tasks@.len()),
            id,
        ) == shown_under(input, cuts, items.to_set(), id),
{
    let rows = rows_of_tasks(input, cuts, items, level, hidden, input.tasks@.len());
    lemma_times_list(input, cuts, items, level, hidden, input.tasks@.len(), id);
    lemma_times_added(seq![head], rows, id);
    lemma_times_one(head, id);
}

proof fn lemma_times_nothing(
    input: GroupingInput,
    cuts: Seq<(Seq<char>, Seq<char>)>,
    items: Seq<usize>,
    id: Seq<char>,
)
    requires
        items.len() == 0,
    ensures
        shown_under(input, cuts, items.to_set(), id) == 0,
        times_shown(Seq::empty(), id) == 0,
{
    assert(items.to_set() =~= Set::empty());
    lemma_met_none(input.tasks@, cuts, place_of(input.tasks@, id), input.tasks@.len());
}

/// The tasks that stand in one of the sections at some places.
spec fn in_sections(
    input: GroupingInput,
    items: Seq<usize>,
    sections: Seq<Section>,
    order: Seq<usize>,
) -> Set<usize> {
    Set::new(
        |i: usize|
            items.contains(i) && exists|k: int|
                0 <= k < order.len() && optional_text(input.tasks@[i as int].section_id) == Some(
                    sections[(#[trigger] order[k]) as int].id@,
                ),
    )
}

proof fn lemma_times_section(
    input: GroupingInput,
    cuts: Seq<(Seq<char>, Seq<char>)>,
    place: ListPlace,
    items: Seq<usize>,
    section: Seq<char>,
    id: Seq<char>,
)
    requires
        is_part(input, items),
    ensures
        times_shown(section_rows(input, cuts, place, items, section), id) == shown_under(
            input,
            cuts,
            in_section(input, items, section).to_set(),
            id,
        ),
        forall|i: usize| #[trigger]
            in_section(input, items, section).to_set().contains(i) <==> items.contains(i)
                && optional_text(input.tasks@[i as int].section_id) == Some(section),
{
    let rows = section_rows(input, cuts, place, items, section);
    let mine = in_section(input, items, section);
    lemma_part(
        input,
        items,
        |i: usize| optional_text(input.tasks@[i as int].section_id) == Some(section),
    );
    if mine.len() == 0 {
        lemma_times_nothing(input, cuts, mine, id);
    } else {
        let header_id = "grp:sec:"@ + place.scope + ":"@ + section;
        let hidden = place.hidden || is_collapsed(input, place.id) || is_collapsed(
            input,
            header_id,
        );
        lemma_times_flat(input, cuts, rows[0], mine, place.level + 2, hidden, id);
        assert(rows =~= seq![rows[0]] + rows_of_tasks(
            input,
            cuts,
            mine,
            place.level + 2,
            hidden,
            input.tasks@.len(),
        ));
    }
}

proof fn lemma_times_sections(
    input: GroupingInput,
    cuts: Seq<(Seq<char>, Seq<char>)>,
    place: ListPlace,
    items: Seq<usize>,
    sections: Seq<Section>,
    order: Seq<usize>,
    id: Seq<char>,
)
    requires
        is_part(input, items),
        all_below(order, sections.len() as int),
        order.no_duplicates(),
        forall|i: int, j: int|
            0 <= i < j < sections.len() ==> (#[trigger] sections[i]).id@ != (
            #[trigger] sections[j]).id@,
    ensures
        times_shown(rows_of_sections(input, cuts, place, items, sections, order), id)
            == shown_under(input, cuts, in_sections(input, items, sections, order), id),
    decreases order.len(),
{
    let tasks = input.tasks@;
    let x = place_of(tasks, id);
    let all = in_sections(input, items, sections, order);
    if order.len() == 0 {
        assert(all =~= Set::empty());
        lemma_met_none(tasks, cuts, x, tasks.len());
    } else {
        let front = order.drop_last();
        let last = order.last();
        let section = sections[last as int].id@;
        assert forall|k: int| 0 <= k < front.len() implies (#[trigger] front[k])
            < sections.len() by {
            assert(front[k] == order[k]);
        }
        assert(order[order.len() - 1] == last);
        lemma_times_sections(input, cuts, place, items, sections, front, id);
        lemma_times_section(input, cuts, place, items, section, id);
        lemma_times_added(
            rows_of_sections(input, cuts, place, items, sections, front),
            section_rows(input, cuts, place, items, section),
            id,
        );
        let a = in_sections(input, items, sections, front);
        let b = in_section(input, items, section).to_set();
        assert(a.disjoint(b)) by {
            assert forall|i: usize| !(#[trigger] a.contains(i) && b.contains(i)) by {
                if a.contains(i) && b.contains(i) {
                    let k = choose|k: int|
                        0 <= k < front.len() && optional_text(tasks[i as int].section_id) == Some(
                            sections[(#[trigger] front[k]) as int].id@,
                        );
                    assert(order[k] != order[order.len() - 1]);
                    let p = front[k] as int;
                    let q = last as int;
                    if p < q {
                        assert(sections[p].id@ != sections[q].id@);
                    } else {
                        assert(sections[q].id@ != sections[p].id@);
                    }
                }
            }
        }
        assert(a.union(b) =~= all) by {
            assert forall|i: usize| #[trigger] all.contains(i) implies a.contains(i)
                || b.contains(i) by {
                let k = choose|k: int|
                    0 <= k < order.len() && optional_text(tasks[i as int].section_id) == Some(
                        sections[(#[trigger] order[k]) as int].id@,
                    );
                if k < front.len() {
                    assert(front[k] == order[k]);
                }
            }
            assert forall|i: usize| #[trigger] a.contains(i) implies all.contains(i) by {
                let k = choose|k: int|
                    0 <= k < front.len() && optional_text(tasks[i as int].section_id) == Some(
                        sections[(#[trigger] front[k]) as int].id@,
                    );
                assert(order[k] == front[k]);
            }
        }
        lemma_met_union(tasks, cuts, a, b, x, tasks.len());
    }
}

proof fn lemma_places(n: int)
    requires
        0 <= n <= usize::MAX,
    ensures
        positions(n).no_duplicates(),
        all_below(positions(n), n),
        forall|k: int| 0 <= k < n ==> #[trigger] positions(n)[k] == k as usize,
{
}

/// The rows of a list show a task as often as its tasks do.
proof fn lemma_times_in_list(
    input: GroupingInput,
    cuts: Seq<(Seq<char>, Seq<char>)>,
    place: ListPlace,
    items: Seq<usize>,
    id: Seq<char>,
)
    requires
        is_part(input, items),
        sections_differ(input),
        sections_of(input, place.list_id).len() <= usize::MAX,
    ensures
        times_shown(list_rows(input, cuts, place, items), id) == shown_under(
            input,
            cuts,
            items.to_set(),
            id,
        ),
{
    let tasks = input.tasks@;
    let sections = sections_of(input, place.list_id);
    let order = sections_by_name(input, sections);
    let rows = list_rows(input, cuts, place, items);
    let loose = unsectioned(input, items, sections);
    let hidden = place.hidden || is_collapsed(input, place.id);
    let first = seq![rows[0]] + rows_of_tasks(
        input,
        cuts,
        loose,
        place.level + 1,
        hidden,
        tasks.len(),
    );
    let second = rows_of_sections(input, cuts, place, items, sections, order);
    assert(rows =~= first + second);
    lemma_part(
        input,
        items,
        |i: usize|
            match optional_text(input.tasks@[i as int].section_id) {
                Some(id) => !is_section(sections, id),
                None => true,
            },
    );
    lemma_times_flat(input, cuts, rows[0], loose, place.level + 1, hidden, id);
    let less = |a: usize, b: usize|
        title_first(
            sections[a as int].name@,
            sections[b as int].name@,
            language_of(input.language@),
        );
    let places = positions(sections.len() as int);
    lemma_places(sections.len() as int);
    lemma_order_differs(places, less);
    ordering_keeps_every_item(places, less);
    lemma_times_sections(input, cuts, place, items, sections, order, id);
    lemma_times_added(first, second, id);
    let a = loose.to_set();
    let b = in_sections(input, items, sections, order);
    assert forall|i: usize| #[trigger] b.contains(i) <==> items.contains(i) && (optional_text(
        tasks[i as int].section_id,
    ) matches Some(s) && is_section(sections, s)) by {
        if b.contains(i) {
            let k = choose|k: int|
                0 <= k < order.len() && optional_text(tasks[i as int].section_id) == Some(
                    sections[(#[trigger] order[k]) as int].id@,
                );
            assert(sections[order[k] as int].id@ == optional_text(tasks[i as int].section_id)->0);
        }
        if items.contains(i) {
            if let Some(s) = optional_text(tasks[i as int].section_id) {
                if is_section(sections, s) {
                    let k = choose|k: int| 0 <= k < sections.len() && (#[trigger] sections[k]).id@ == s;
                    assert(places[k] == k as usize);
                    lemma_same_items(places, less, k as usize);
                    let at = choose|at: int| 0 <= at < order.len() && order[at] == k as usize;
                    assert(sections[order[at] as int].id@ == s);
                }
            }
        }
    }
    assert(a.disjoint(b));
    assert(a.union(b) =~= items.to_set()) by {
        assert forall|i: usize| #[trigger] items.to_set().contains(i) <==> a.union(b).contains(
            i,
        ) by {
            assert(items.to_set().contains(i) <==> items.contains(i));
        }
    }
    lemma_met_union(tasks, cuts, a, b, place_of(tasks, id), tasks.len());
}

/// The tasks that are in one of the lists at some places.
spec fn in_lists(
    input: GroupingInput,
    items: Seq<usize>,
    lists: Seq<Seq<char>>,
    order: Seq<usize>,
) -> Set<usize> {
    Set::new(
        |i: usize|
            items.contains(i) && exists|k: int|
                0 <= k < order.len() && input.tasks@[i as int].list_id@
                    == lists[(#[trigger] order[k]) as int],
    )
}

proof fn lemma_times_lists(
    input: GroupingInput,
    cuts: Seq<(Seq<char>, Seq<char>)>,
    items: Seq<usize>,
    lists: Seq<Seq<char>>,
    order: Seq<usize>,
    in_backlog: bool,
    id: Seq<char>,
)
    requires
        is_part(input, items),
        sections_differ(input),
        forall|l: Seq<char>| #[trigger] sections_of(input, l).len() <= usize::MAX,
        all_below(order, lists.len() as int),
        order.no_duplicates(),
        lists.no_duplicates(),
    ensures
        times_shown(rows_of_lists(input, cuts, items, lists, order, in_backlog), id)
            == shown_under(input, cuts, in_lists(input, items, lists, order), id),
    decreases order.len(),
{
    let tasks = input.tasks@;
    let x = place_of(tasks, id);
    let all = in_lists(input, items, lists, order);
    if order.len() == 0 {
        assert(all =~= Set::empty());
        lemma_met_none(tasks, cuts, x, tasks.len());
    } else {
        let front = order.drop_last();
        let last = order.last();
        let list_id = lists[last as int];
        let place = list_place(input, list_id, in_backlog);
        let own = in_list(input, items, list_id);
        assert forall|k: int| 0 <= k < front.len() implies (#[trigger] front[k]) < lists.len() by {
            assert(front[k] == order[k]);
        }
        assert(order[order.len() - 1] == last);
        lemma_times_lists(input, cuts, items, lists, front, in_backlog, id);
        lemma_part(input, items, is_in_list(input, list_id));
        lemma_times_in_list(input, cuts, place, own, id);
        lemma_times_added(
            rows_of_lists(input, cuts, items, lists, front, in_backlog),
            list_rows(input, cuts, place, own),
            id,
        );
        let a = in_lists(input, items, lists, front);
        let b = own.to_set();
        assert(a.disjoint(b)) by {
            assert forall|i: usize| !(#[trigger] a.contains(i) && b.contains(i)) by {
                if a.contains(i) && b.contains(i) {
                    let k = choose|k: int|
                        0 <= k < front.len() && tasks[i as int].list_id@ == lists[(
                        #[trigger] front[k]) as int];
                    assert(order[k] != order[order.len() - 1]);
                    assert(lists[front[k] as int] != lists[last as int]);
                }
            }
        }
        assert(a.union(b) =~= all) by {
            assert forall|i: usize| #[trigger] all.contains(i) implies a.contains(i)
                || b.contains(i) by {
                let k = choose|k: int|
                    0 <= k < order.len() && tasks[i as int].list_id@ == lists[(
                    #[trigger] order[k]) as int];
                if k < front.len() {
                    assert(front[k] == order[k]);
                }
            }
            assert forall|i: usize| #[trigger] a.contains(i) implies all.contains(i) by {
                let k = choose|k: int|
                    0 <= k < front.len() && tasks[i as int].list_id@ == lists[(
                    #[trigger] front[k]) as int];
                assert(order[k] == front[k]);
            }
        }
        lemma_met_union(tasks, cuts, a, b, x, tasks.len());
    }
}

proof fn lemma_lists_seen(input: GroupingInput, items: Seq<usize>)
    ensures
        lists_seen(input, items).no_duplicates(),
        lists_seen(input, items).len() <= items.len(),
        forall|k: int|
            0 <= k < items.len() ==> lists_seen(input, items).contains(
                input.tasks@[(#[trigger] items[k]) as int].list_id@,
            ),
    decreases items.len(),
{
    if items.len() > 0 {
        let front = items.drop_last();
        lemma_lists_seen(input, front);
        let before = lists_seen(input, front);
        let all = lists_seen(input, items);
        let own = input.tasks@[items.last() as int].list_id@;
        assert forall|k: int| 0 <= k < items.len() implies all.contains(
            input.tasks@[(#[trigger] items[k]) as int].list_id@,
        ) by {
            let wanted = input.tasks@[items[k] as int].list_id@;
            lemma_pushed(before, own, wanted);
            if k < front.len() {
                assert(front[k] == items[k]);
                assert(before.contains(input.tasks@[front[k] as int].list_id@));
            }
        }
        assert(all.no_duplicates()) by {
            assert forall|a: int, b: int| 0 <= a < b < all.len() implies all[a] != all[b] by {
                if b == before.len() {
                    assert(before.contains(before[a]));
                }
            }
        }
    }
}

proof fn lemma_times_by_list(
    input: GroupingInput,
    cuts: Seq<(Seq<char>, Seq<char>)>,
    items: Seq<usize>,
    in_backlog: bool,
    id: Seq<char>,
)
    requires
        is_part(input, items),
        items.len() <= usize::MAX,
        sections_differ(input),
        forall|l: Seq<char>| #[trigger] sections_of(input, l).len() <= usize::MAX,
    ensures
        times_shown(rows_by_list(input, cuts, items, in_backlog), id) == shown_under(
            input,
            cuts,
            items.to_set(),
            id,
        ),
{
    let tasks = input.tasks@;
    let lists = lists_seen(input, items);
    let n = input.lists@.len() as int;
    let order = lists_by_name(input, lists);
    let places = positions(lists.len() as int);
    let less = |a: usize, b: usize|
        name_first(
            name_of(input, lists[a as int], n),
            name_of(input, lists[b as int], n),
            language_of(input.language@),
        );
    lemma_lists_seen(input, items);
    lemma_places(lists.len() as int);
    lemma_order_differs(places, less);
    ordering_keeps_every_item(places, less);
    lemma_times_lists(input, cuts, items, lists, order, in_backlog, id);
    let all = in_lists(input, items, lists, order);
    assert forall|i: usize| #[trigger] items.to_set().contains(i) <==> all.contains(i) by {
        if items.contains(i) {
            let at = choose|at: int| 0 <= at < items.len() && items[at] == i;
            assert(lists.contains(tasks[items[at] as int].list_id@));
            let k = choose|k: int| 0 <= k < lists.len() && lists[k] == tasks[i as int].list_id@;
            assert(places[k] == k as usize);
            lemma_same_items(places, less, k as usize);
            let spot = choose|spot: int| 0 <= spot < order.len() && order[spot] == k as usize;
            assert(lists[order[spot] as int] == tasks[i as int].list_id@);
        }
    }
    assert(all =~= items.to_set());
}

proof fn lemma_times_flat_group(
    input: GroupingInput,
    cuts: Seq<(Seq<char>, Seq<char>)>,
    head: Seq<char>,
    kind: GroupKind,
    items: Seq<usize>,
    id: Seq<char>,
)
    requires
        is_part(input, items),
    ensures
        times_shown(flat_rows(input, cuts, head, kind, items), id) == shown_under(
            input,
            cuts,
            items.to_set(),
            id,
        ),
{
    let rows = flat_rows(input, cuts, head, kind, items);
    if items.len() == 0 {
        lemma_times_nothing(input, cuts, items, id);
    } else {
        let hidden = is_collapsed(input, head);
        lemma_times_flat(input, cuts, rows[0], items, 1, hidden, id);
        assert(rows =~= seq![rows[0]] + rows_of_tasks(
            input,
            cuts,
            items,
            1,
            hidden,
            input.tasks@.len(),
        ));
    }
}

/// The tasks of the future are those that wait and those planned for later.
proof fn lemma_future_part(input: GroupingInput, open: Seq<usize>)
    requires
        is_part(input, open),
    ensures
        is_part(input, future_tasks(input, open)),
        forall|i: usize| #[trigger]
            future_tasks(input, open).to_set().contains(i) <==> open.contains(i) && (waits(input, i)
                || (planned(input, i) matches Some(d) && input.today@.before(d))),
{
    let waiting = |i: usize| waits(input, i);
    let later = |i: usize|
        !waits(input, i) && (planned(input, i) matches Some(d) && input.today@.before(d));
    let less = |a: usize, b: usize|
        match (future_day(input, a), future_day(input, b)) {
            (Some(x), Some(y)) => x.before(y),
            _ => false,
        };
    let a = those(open, waiting);
    let b = those(open, later);
    let ahead = a + b;
    lemma_part(input, open, waiting);
    lemma_part(input, open, later);
    assert forall|i: int, j: int| 0 <= i < j < ahead.len() implies ahead[i] != ahead[j] by {
        if i < a.len() && j >= a.len() {
            assert(a.to_set().contains(a[i]));
            assert(b.to_set().contains(b[j - a.len()]));
        }
    }
    assert forall|k: int| 0 <= k < ahead.len() implies (#[trigger] ahead[k])
        < input.tasks@.len() by {
        if k < a.len() {
            assert(ahead[k] == a[k]);
        } else {
            assert(ahead[k] == b[k - a.len()]);
        }
    }
    lemma_ordered_part(input, ahead, less);
    assert(future_tasks(input, open) == in_order(ahead, less));
    assert forall|i: usize| #[trigger]
        future_tasks(input, open).to_set().contains(i) <==> open.contains(i) && (waits(input, i) || (
    planned(input, i) matches Some(d) && input.today@.before(d))) by {
        lemma_joined(a, b, i);
        assert(ahead.to_set().contains(i) <==> ahead.contains(i));
        assert(a.to_set().contains(i) <==> a.contains(i));
        assert(b.to_set().contains(i) <==> b.contains(i));
    }
}

/// The open tasks are shown as often as their group shows them, and each is in
/// one group.
proof fn lemma_times_open(
    input: GroupingInput,
    cuts: Seq<(Seq<char>, Seq<char>)>,
    open: Seq<usize>,
    id: Seq<char>,
)
    requires
        is_part(input, open),
        open.len() <= usize::MAX,
        sections_differ(input),
        forall|l: Seq<char>| #[trigger] sections_of(input, l).len() <= usize::MAX,
    ensures
        times_shown(open_rows(input, cuts, open), id) == shown_under(
            input,
            cuts,
            open.to_set(),
            id,
        ),
{
    match input.group_by {
        GroupBy::List => {
            lemma_times_by_list(input, cuts, open, false, id);
        },
        GroupBy::State => {
            let tasks = input.tasks@;
            let x = place_of(tasks, id);
            let late = overdue_tasks(input, open);
            let now = today_tasks(input, open);
            let loose = backlog_tasks(input, open);
            let ahead = future_tasks(input, open);
            let a = flat_rows(input, cuts, OVERDUE_GROUP_ID@, GroupKind::Overdue, late);
            let b = flat_rows(input, cuts, TODAY_GROUP_ID@, GroupKind::Today, now);
            let c = backlog_rows(input, cuts, loose);
            let d = flat_rows(input, cuts, DEFERRED_GROUP_ID@, GroupKind::Deferred, ahead);
            lemma_part(
                input,
                open,
                |i: usize|
                    !waits(input, i) && (planned(input, i) matches Some(d) && d.before(
                        input.today@,
                    )),
            );
            lemma_part(
                input,
                open,
                |i: usize| !waits(input, i) && planned(input, i) == Some(input.today@),
            );
            lemma_part(input, open, |i: usize| !waits(input, i) && planned(input, i) is None);
            lemma_those(open, |i: usize| !waits(input, i) && planned(input, i) is None);
            lemma_future_part(input, open);
            lemma_times_flat_group(input, cuts, OVERDUE_GROUP_ID@, GroupKind::Overdue, late, id);
            lemma_times_flat_group(input, cuts, TODAY_GROUP_ID@, GroupKind::Today, now, id);
            lemma_times_flat_group(
                input,
                cuts,
                DEFERRED_GROUP_ID@,
                GroupKind::Deferred,
                ahead,
                id,
            );
            if loose.len() == 0 {
                lemma_times_nothing(input, cuts, loose, id);
            } else {
                let lists = rows_by_list(input, cuts, loose, true);
                lemma_times_by_list(input, cuts, loose, true, id);
                lemma_times_added(seq![c[0]], lists, id);
                lemma_times_one(c[0], id);
                assert(c =~= seq![c[0]] + lists);
            }
            lemma_times_added(a, b, id);
            lemma_times_added(a + b, c, id);
            lemma_times_added(a + b + c, d, id);
            let first = late.to_set().union(now.to_set());
            let second = first.union(loose.to_set());
            lemma_today_is_not_past(input);
            assert(late.to_set().disjoint(now.to_set()));
            assert(first.disjoint(loose.to_set()));
            assert(second.disjoint(ahead.to_set()));
            lemma_met_union(tasks, cuts, late.to_set(), now.to_set(), x, tasks.len());
            lemma_met_union(tasks, cuts, first, loose.to_set(), x, tasks.len());
            lemma_met_union(tasks, cuts, second, ahead.to_set(), x, tasks.len());
            assert(second.union(ahead.to_set()) =~= open.to_set()) by {
                assert forall|i: usize| #[trigger] open.to_set().contains(i) <==> second.union(
                    ahead.to_set(),
                ).contains(i) by {
                    assert(open.to_set().contains(i) <==> open.contains(i));
                }
            }
        },
    }
}

/// A day is not before itself, and of two days one at most is before the other.
proof fn lemma_today_is_not_past(input: GroupingInput)
    ensures
        !input.today@.before(input.today@),
        forall|i: usize|
            (#[trigger] planned(input, i)) matches Some(d) ==> !(d.before(input.today@)
                && input.today@.before(d)) && (d.before(input.today@) || input.today@.before(d) || d
                == input.today@),
{
}

/// Every task is shown as often as it is met at the top.
proof fn lemma_times_grouped(input: GroupingInput, id: Seq<char>)
    requires
        input.tasks@.len() <= usize::MAX,
        ids_differ(input.tasks@),
        sections_differ(input),
        forall|l: Seq<char>| #[trigger] sections_of(input, l).len() <= usize::MAX,
    ensures
        times_shown(grouped(input), id) == shown_under(
            input,
            settled(input.tasks@).cuts,
            settled(input.tasks@).top.to_set(),
            id,
        ),
{
    let tasks = input.tasks@;
    let x = place_of(tasks, id);
    let guard = settled(tasks);
    let top = guard.top;
    lemma_top_is_free(tasks, tasks.len() as int);
    lemma_top_differs(tasks, tasks.len() as int);
    let open = open_tasks(input, top);
    let done = done_tasks(input, top);
    let gone = cancelled_tasks(input, top);
    let still = |i: usize| !input.tasks@[i as int].status.terminal();
    let finished = |i: usize| input.tasks@[i as int].status is Completed;
    let dropped = |i: usize| input.tasks@[i as int].status is Cancelled;
    lemma_part(input, top, still);
    lemma_part(input, top, finished);
    lemma_part(input, top, dropped);
    lemma_ordered_part(input, those(top, still), task_order(input));
    lemma_ordered_part(
        input,
        those(top, finished),
        |a: usize, b: usize|
            done_moment(input.tasks@[b as int]).before(done_moment(input.tasks@[a as int])),
    );
    lemma_ordered_part(
        input,
        those(top, dropped),
        |a: usize, b: usize|
            input.tasks@[b as int].updated_at@.before(input.tasks@[a as int].updated_at@),
    );
    lemma_positions_fit(top, tasks.len() as int);
    lemma_those(top, still);
    ordering_keeps_every_item(those(top, still), task_order(input));
    lemma_times_open(input, guard.cuts, open, id);
    let a = open_rows(input, guard.cuts, open);
    let b = done_rows(input, guard.cuts, done);
    let c = cancelled_rows(input, guard.cuts, gone);
    if done.len() == 0 {
        lemma_times_nothing(input, guard.cuts, done, id);
    } else {
        let hidden = is_collapsed(input, DONE_GROUP_ID@);
        lemma_times_flat(input, guard.cuts, b[0], done, 1, hidden, id);
        assert(b =~= seq![b[0]] + rows_of_tasks(
            input,
            guard.cuts,
            done,
            1,
            hidden,
            tasks.len(),
        ));
    }
    if gone.len() == 0 {
        lemma_times_nothing(input, guard.cuts, gone, id);
    } else {
        let hidden = is_collapsed(input, CANCELLED_GROUP_ID@);
        lemma_times_flat(input, guard.cuts, c[0], gone, 1, hidden, id);
        assert(c =~= seq![c[0]] + rows_of_tasks(
            input,
            guard.cuts,
            gone,
            1,
            hidden,
            tasks.len(),
        ));
    }
    lemma_times_added(a, b, id);
    lemma_times_added(a + b, c, id);
    let first = open.to_set().union(done.to_set());
    assert(open.to_set().disjoint(done.to_set()));
    assert(first.disjoint(gone.to_set()));
    lemma_met_union(tasks, guard.cuts, open.to_set(), done.to_set(), x, tasks.len());
    lemma_met_union(tasks, guard.cuts, first, gone.to_set(), x, tasks.len());
    assert(first.union(gone.to_set()) =~= top.to_set()) by {
        assert forall|i: usize| #[trigger] top.to_set().contains(i) <==> first.union(
            gone.to_set(),
        ).contains(i) by {
            assert(top.to_set().contains(i) <==> top.contains(i));
        }
    }
}

// ---------------------------------------------------------------------------
// The law
// ---------------------------------------------------------------------------

/// The ids of the rows that stand for tasks, in the rows' order.
pub open spec fn ids_shown(rows: Seq<RowText>) -> Seq<Seq<char>>
    decreases rows.len(),
{
    if rows.len() == 0 {
        Seq::empty()
    } else if rows.last().group is None {
        ids_shown(rows.drop_last()).push(rows.last().id)
    } else {
        ids_shown(rows.drop_last())
    }
}

/// The ids of tasks, as they came.
pub open spec fn ids_handed(tasks: Seq<GroupableTask>) -> Seq<Seq<char>> {
    Seq::new(tasks.len(), |i: int| tasks[i].id@)
}

proof fn lemma_times_is_count(rows: Seq<RowText>, id: Seq<char>)
    ensures
        ids_shown(rows).to_multiset().count(id) == times_shown(rows, id),
    decreases rows.len(),
{
    broadcast use vstd::seq_lib::group_to_multiset_ensures;

    if rows.len() > 0 {
        lemma_times_is_count(rows.drop_last(), id);
    }
}

/// Each task has exactly one row: the ids of the rows that stand for tasks are
/// the ids of the tasks that the view is handed, each of them once, whatever its
/// list, its section and its state, and even where the parents of tasks lead
/// round in a cycle or to a task that is not there.
pub proof fn each_task_has_exactly_one_row(input: GroupingInput)
    requires
        input.tasks@.len() <= usize::MAX,
        ids_differ(input.tasks@),
        sections_differ(input),
        forall|l: Seq<char>| #[trigger] sections_of(input, l).len() <= usize::MAX,
    ensures
        ids_shown(grouped(input)).to_multiset() == ids_handed(input.tasks@).to_multiset(),
        forall|i: int|
            0 <= i < input.tasks@.len() ==> times_shown(
                grouped(input),
                (#[trigger] input.tasks@[i]).id@,
            ) == 1,
{
    broadcast use vstd::seq_lib::group_to_multiset_ensures;

    let tasks = input.tasks@;
    let rows = grouped(input);
    let handed = ids_handed(tasks);
    assert forall|i: int| 0 <= i < tasks.len() implies times_shown(
        rows,
        (#[trigger] tasks[i]).id@,
    ) == 1 by {
        lemma_shown_once(input, tasks[i].id@);
        assert(has_id(tasks, tasks[i].id@));
    }
    assert(handed.no_duplicates()) by {
        assert forall|i: int, j: int| 0 <= i < j < handed.len() implies handed[i] != handed[j] by {
            assert(tasks[i].id@ != tasks[j].id@);
        }
    }
    handed.lemma_multiset_has_no_duplicates();
    assert forall|id: Seq<char>| #[trigger] ids_shown(rows).to_multiset().count(id)
        == handed.to_multiset().count(id) by {
        lemma_shown_once(input, id);
        lemma_times_is_count(rows, id);
        assert(handed.contains(id) <==> has_id(tasks, id)) by {
            if has_id(tasks, id) {
                let k = choose|k: int| 0 <= k < tasks.len() && (#[trigger] tasks[k]).id@ == id;
                assert(handed[k] == id);
            }
            if handed.contains(id) {
                let k = choose|k: int| 0 <= k < handed.len() && handed[k] == id;
                assert(tasks[k].id@ == id);
            }
        }
        assert(handed.contains(id) <==> handed.to_multiset().count(id) > 0);
    }
    assert(ids_shown(rows).to_multiset() =~= handed.to_multiset());
}

proof fn lemma_shown_once(input: GroupingInput, id: Seq<char>)
    requires
        input.tasks@.len() <= usize::MAX,
        ids_differ(input.tasks@),
        sections_differ(input),
        forall|l: Seq<char>| #[trigger] sections_of(input, l).len() <= usize::MAX,
    ensures
        times_shown(grouped(input), id) == if has_id(input.tasks@, id) {
            1nat
        } else {
            0nat
        },
{
    let tasks = input.tasks@;
    let guard = settled(tasks);
    let x = place_of(tasks, id);
    lemma_times_grouped(input, id);
    lemma_top_is_free(tasks, tasks.len() as int);
    assert forall|t: usize| #[trigger] guard.top.to_set().contains(t) implies up(
        tasks,
        guard.cuts,
        t,
    ) is None by {
        assert(guard.top.contains(t));
        let k = choose|k: int| 0 <= k < guard.top.len() && guard.top[k] == t;
        assert(guard.top[k] == t);
    }
    lemma_met_once(tasks, guard.cuts, guard.top.to_set(), x, tasks.len());
    if has_id(tasks, id) {
        let i = choose|i: int| 0 <= i < tasks.len() && (#[trigger] tasks[i]).id@ == id;
        every_task_has_a_row(input, i);
        lemma_shown_counts(grouped(input), id);
    } else {
        lemma_last_is(tasks, id, tasks.len() as int);
        if let Some(p) = x {
            assert(tasks[p as int].id@ == id);
        }
        lemma_nothing_met(tasks, guard.cuts, guard.top.to_set(), tasks.len());
    }
}

proof fn lemma_nothing_met(
    tasks: Seq<GroupableTask>,
    cuts: Seq<(Seq<char>, Seq<char>)>,
    set: Set<usize>,
    d: nat,
)
    ensures
        met(tasks, cuts, set, None, d) == 0,
        above(tasks, cuts, None, d) is None,
    decreases d,
{
    if d > 0 {
        lemma_nothing_met(tasks, cuts, set, (d - 1) as nat);
    }
}

} // verus!
