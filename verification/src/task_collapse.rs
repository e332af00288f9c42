//! What collapsing does to the task view: it hides rows, and moves none.

use vstd::prelude::*;

use crate::collation::{language_of, name_first, title_first};
use crate::order::those;
use crate::task_grouping::{
    backlog_rows, backlog_tasks, cancelled_rows, cancelled_tasks, done_moment, done_rows,
    done_tasks, flat_rows, future_day, future_tasks, grouped, in_list, in_section, is_collapsed,
    is_in_list, is_section, list_place, list_rows, lists_by_name, lists_seen, name_of, open_rows,
    open_tasks, overdue_tasks, planned, rows_by_list, rows_of_lists, rows_of_sections,
    rows_of_tasks, section_rows, sections_by_name, sections_of, sections_place, settled, subtasks,
    task_is_mine, task_order, task_rows, today_tasks, unsectioned, user_place, waits, GroupBy,
    GroupKind, GroupingInput, ListPlace, RowText, CANCELLED_GROUP_ID, DEFERRED_GROUP_ID,
    DONE_GROUP_ID, OVERDUE_GROUP_ID, TODAY_GROUP_ID,
};
use crate::text::optional_text;
use crate::types::Section;

verus! {

/// The same rows in the same order, whatever is hidden of them.
pub open spec fn same_but_hidden(a: Seq<RowText>, b: Seq<RowText>) -> bool {
    &&& a.len() == b.len()
    &&& forall|k: int|
        0 <= k < a.len() ==> #[trigger] a[k] == (RowText { hidden: a[k].hidden, ..b[k] })
}

/// The input with other ids collapsed.
pub open spec fn collapsing(input: GroupingInput, collapsed: Vec<String>) -> GroupingInput {
    GroupingInput { collapsed, ..input }
}

proof fn lemma_same_added(a: Seq<RowText>, b: Seq<RowText>, c: Seq<RowText>, d: Seq<RowText>)
    requires
        same_but_hidden(a, c),
        same_but_hidden(b, d),
    ensures
        same_but_hidden(a + b, c + d),
{
    let x = a + b;
    let y = c + d;
    assert forall|k: int| 0 <= k < x.len() implies #[trigger] x[k] == (RowText {
        hidden: x[k].hidden,
        ..y[k]
    }) by {
        if k < a.len() {
            assert(x[k] == a[k] && y[k] == c[k]);
        } else {
            assert(x[k] == b[k - a.len()] && y[k] == d[k - a.len()]);
        }
    }
}

// ---------------------------------------------------------------------------
// What does not depend on it
// ---------------------------------------------------------------------------

proof fn lemma_same_order(input: GroupingInput, collapsed: Vec<String>)
    ensures
        task_order(collapsing(input, collapsed)) == task_order(input),
{
    assert(task_order(collapsing(input, collapsed)) =~= task_order(input));
}

proof fn lemma_same_sections(input: GroupingInput, collapsed: Vec<String>, list: Seq<char>, n: int)
    ensures
        sections_place(collapsing(input, collapsed), list, n) == sections_place(input, list, n),
    decreases n,
{
    if n > 0 {
        lemma_same_sections(input, collapsed, list, n - 1);
    }
}

proof fn lemma_same_section_order(
    input: GroupingInput,
    collapsed: Vec<String>,
    sections: Seq<Section>,
)
    ensures
        sections_by_name(collapsing(input, collapsed), sections) == sections_by_name(
            input,
            sections,
        ),
{
    let other = collapsing(input, collapsed);
    assert((|a: usize, b: usize|
        title_first(
            sections[a as int].name@,
            sections[b as int].name@,
            language_of(other.language@),
        )) =~= (|a: usize, b: usize|
        title_first(
            sections[a as int].name@,
            sections[b as int].name@,
            language_of(input.language@),
        )));
}

proof fn lemma_same_in_section(
    input: GroupingInput,
    collapsed: Vec<String>,
    items: Seq<usize>,
    section: Seq<char>,
)
    ensures
        in_section(collapsing(input, collapsed), items, section) == in_section(
            input,
            items,
            section,
        ),
{
    let other = collapsing(input, collapsed);
    assert((|i: usize| optional_text(other.tasks@[i as int].section_id) == Some(section)) =~= (|
        i: usize,
    |
        optional_text(input.tasks@[i as int].section_id) == Some(section)));
}

proof fn lemma_same_unsectioned(
    input: GroupingInput,
    collapsed: Vec<String>,
    items: Seq<usize>,
    sections: Seq<Section>,
)
    ensures
        unsectioned(collapsing(input, collapsed), items, sections) == unsectioned(
            input,
            items,
            sections,
        ),
{
    let other = collapsing(input, collapsed);
    assert((|i: usize|
        match optional_text(other.tasks@[i as int].section_id) {
            Some(id) => !is_section(sections, id),
            None => true,
        }) =~= (|i: usize|
        match optional_text(input.tasks@[i as int].section_id) {
            Some(id) => !is_section(sections, id),
            None => true,
        }));
}

proof fn lemma_same_lists(input: GroupingInput, collapsed: Vec<String>, items: Seq<usize>)
    ensures
        lists_seen(collapsing(input, collapsed), items) == lists_seen(input, items),
    decreases items.len(),
{
    if items.len() > 0 {
        lemma_same_lists(input, collapsed, items.drop_last());
    }
}

proof fn lemma_same_name(input: GroupingInput, collapsed: Vec<String>, list: Seq<char>, n: int)
    ensures
        name_of(collapsing(input, collapsed), list, n) == name_of(input, list, n),
    decreases n,
{
    if n > 0 {
        lemma_same_name(input, collapsed, list, n - 1);
    }
}

proof fn lemma_same_list_order(
    input: GroupingInput,
    collapsed: Vec<String>,
    lists: Seq<Seq<char>>,
)
    ensures
        lists_by_name(collapsing(input, collapsed), lists) == lists_by_name(input, lists),
{
    let other = collapsing(input, collapsed);
    let n = input.lists@.len() as int;
    let here = |a: usize, b: usize|
        name_first(
            name_of(other, lists[a as int], n),
            name_of(other, lists[b as int], n),
            language_of(other.language@),
        );
    let there = |a: usize, b: usize|
        name_first(
            name_of(input, lists[a as int], n),
            name_of(input, lists[b as int], n),
            language_of(input.language@),
        );
    assert forall|a: usize, b: usize| #[trigger] here(a, b) == there(a, b) by {
        lemma_same_name(input, collapsed, lists[a as int], n);
        lemma_same_name(input, collapsed, lists[b as int], n);
    }
    assert(here =~= there);
}

proof fn lemma_same_in_list(
    input: GroupingInput,
    collapsed: Vec<String>,
    items: Seq<usize>,
    list: Seq<char>,
)
    ensures
        in_list(collapsing(input, collapsed), items, list) == in_list(input, items, list),
{
    assert(is_in_list(collapsing(input, collapsed), list) =~= is_in_list(input, list));
}

proof fn lemma_same_user(input: GroupingInput, collapsed: Vec<String>, list: Seq<char>, n: int)
    ensures
        user_place(collapsing(input, collapsed), list, n) == user_place(input, list, n),
    decreases n,
{
    if n > 0 {
        lemma_same_user(input, collapsed, list, n - 1);
    }
}

proof fn lemma_same_mine(input: GroupingInput, collapsed: Vec<String>, items: Seq<usize>)
    ensures
        those(items, |i: usize| task_is_mine(collapsing(input, collapsed), i)) == those(
            items,
            |i: usize| task_is_mine(input, i),
        ),
{
    let other = collapsing(input, collapsed);
    let here = |i: usize| task_is_mine(other, i);
    let there = |i: usize| task_is_mine(input, i);
    assert forall|i: usize| #[trigger] here(i) == there(i) by {
        lemma_same_user(
            input,
            collapsed,
            input.tasks@[i as int].list_id@,
            input.current_user_by_list@.len() as int,
        );
    }
    assert(here =~= there);
}

proof fn lemma_same_parts(input: GroupingInput, collapsed: Vec<String>, top: Seq<usize>)
    ensures
        open_tasks(collapsing(input, collapsed), top) == open_tasks(input, top),
        done_tasks(collapsing(input, collapsed), top) == done_tasks(input, top),
        cancelled_tasks(collapsing(input, collapsed), top) == cancelled_tasks(input, top),
{
    let other = collapsing(input, collapsed);
    lemma_same_order(input, collapsed);
    assert((|i: usize| !other.tasks@[i as int].status.terminal()) =~= (|i: usize|
        !input.tasks@[i as int].status.terminal()));
    assert((|i: usize| other.tasks@[i as int].status is Completed) =~= (|i: usize|
        input.tasks@[i as int].status is Completed));
    assert((|i: usize| other.tasks@[i as int].status is Cancelled) =~= (|i: usize|
        input.tasks@[i as int].status is Cancelled));
    assert((|a: usize, b: usize|
        done_moment(other.tasks@[b as int]).before(done_moment(other.tasks@[a as int]))) =~= (|
        a: usize,
        b: usize,
    |
        done_moment(input.tasks@[b as int]).before(done_moment(input.tasks@[a as int]))));
    assert((|a: usize, b: usize|
        other.tasks@[b as int].updated_at@.before(other.tasks@[a as int].updated_at@)) =~= (|
        a: usize,
        b: usize,
    |
        input.tasks@[b as int].updated_at@.before(input.tasks@[a as int].updated_at@)));
}

proof fn lemma_same_times(input: GroupingInput, collapsed: Vec<String>, open: Seq<usize>)
    ensures
        backlog_tasks(collapsing(input, collapsed), open) == backlog_tasks(input, open),
        overdue_tasks(collapsing(input, collapsed), open) == overdue_tasks(input, open),
        today_tasks(collapsing(input, collapsed), open) == today_tasks(input, open),
        future_tasks(collapsing(input, collapsed), open) == future_tasks(input, open),
{
    let other = collapsing(input, collapsed);
    assert((|i: usize| !waits(other, i) && planned(other, i) is None) =~= (|i: usize|
        !waits(input, i) && planned(input, i) is None));
    assert((|i: usize|
        !waits(other, i) && (planned(other, i) matches Some(d) && d.before(other.today@))) =~= (|
        i: usize,
    |
        !waits(input, i) && (planned(input, i) matches Some(d) && d.before(input.today@))));
    assert((|i: usize| !waits(other, i) && planned(other, i) == Some(other.today@)) =~= (|i: usize|
        !waits(input, i) && planned(input, i) == Some(input.today@)));
    assert((|i: usize| waits(other, i)) =~= (|i: usize| waits(input, i)));
    assert((|i: usize|
        !waits(other, i) && (planned(other, i) matches Some(d) && other.today@.before(d))) =~= (|
        i: usize,
    |
        !waits(input, i) && (planned(input, i) matches Some(d) && input.today@.before(d))));
    assert((|a: usize, b: usize|
        match (future_day(other, a), future_day(other, b)) {
            (Some(x), Some(y)) => x.before(y),
            _ => false,
        }) =~= (|a: usize, b: usize|
        match (future_day(input, a), future_day(input, b)) {
            (Some(x), Some(y)) => x.before(y),
            _ => false,
        }));
}

// ---------------------------------------------------------------------------
// The rows
// ---------------------------------------------------------------------------

proof fn lemma_same_task_rows(
    input: GroupingInput,
    collapsed: Vec<String>,
    cuts: Seq<(Seq<char>, Seq<char>)>,
    i: usize,
    level: int,
    here: bool,
    there: bool,
    depth: nat,
)
    ensures
        same_but_hidden(
            task_rows(collapsing(input, collapsed), cuts, i, level, here, depth),
            task_rows(input, cuts, i, level, there, depth),
        ),
    decreases depth, 0int, 0int,
{
    let other = collapsing(input, collapsed);
    if depth > 0 {
        let id = input.tasks@[i as int].id@;
        let kids = subtasks(input, cuts, id);
        lemma_same_order(input, collapsed);
        assert(subtasks(other, cuts, id) == kids);
        let own = RowText {
            id,
            depth: level,
            hidden: here,
            has_children: kids.len() > 0,
            group: None,
        };
        let same = RowText { hidden: there, ..own };
        let below = here || is_collapsed(other, id);
        let under = there || is_collapsed(input, id);
        let rest = (depth - 1) as nat;
        lemma_same_rows(input, collapsed, cuts, kids, level + 1, below, under, rest);
        lemma_same_added(
            seq![own],
            rows_of_tasks(other, cuts, kids, level + 1, below, rest),
            seq![same],
            rows_of_tasks(input, cuts, kids, level + 1, under, rest),
        );
    }
}

proof fn lemma_same_rows(
    input: GroupingInput,
    collapsed: Vec<String>,
    cuts: Seq<(Seq<char>, Seq<char>)>,
    list: Seq<usize>,
    level: int,
    here: bool,
    there: bool,
    depth: nat,
)
    ensures
        same_but_hidden(
            rows_of_tasks(collapsing(input, collapsed), cuts, list, level, here, depth),
            rows_of_tasks(input, cuts, list, level, there, depth),
        ),
    decreases depth, 1int, list.len(),
{
    let other = collapsing(input, collapsed);
    if list.len() > 0 {
        let front = list.drop_last();
        lemma_same_rows(input, collapsed, cuts, front, level, here, there, depth);
        lemma_same_task_rows(input, collapsed, cuts, list.last(), level, here, there, depth);
        lemma_same_added(
            rows_of_tasks(other, cuts, front, level, here, depth),
            task_rows(other, cuts, list.last(), level, here, depth),
            rows_of_tasks(input, cuts, front, level, there, depth),
            task_rows(input, cuts, list.last(), level, there, depth),
        );
    }
}

/// A header and its tasks.
proof fn lemma_same_flat(
    input: GroupingInput,
    collapsed: Vec<String>,
    cuts: Seq<(Seq<char>, Seq<char>)>,
    head: RowText,
    other_head: RowText,
    list: Seq<usize>,
    level: int,
    here: bool,
    there: bool,
)
    requires
        other_head == (RowText { hidden: other_head.hidden, ..head }),
    ensures
        same_but_hidden(
            seq![other_head] + rows_of_tasks(
                collapsing(input, collapsed),
                cuts,
                list,
                level,
                here,
                input.tasks@.len(),
            ),
            seq![head] + rows_of_tasks(input, cuts, list, level, there, input.tasks@.len()),
        ),
{
    let other = collapsing(input, collapsed);
    let n = input.tasks@.len();
    lemma_same_rows(input, collapsed, cuts, list, level, here, there, n);
    lemma_same_added(
        seq![other_head],
        rows_of_tasks(other, cuts, list, level, here, n),
        seq![head],
        rows_of_tasks(input, cuts, list, level, there, n),
    );
}

proof fn lemma_same_section(
    input: GroupingInput,
    collapsed: Vec<String>,
    cuts: Seq<(Seq<char>, Seq<char>)>,
    place: ListPlace,
    hidden: bool,
    items: Seq<usize>,
    section: Seq<char>,
)
    ensures
        same_but_hidden(
            section_rows(
                collapsing(input, collapsed),
                cuts,
                ListPlace { hidden, ..place },
                items,
                section,
            ),
            section_rows(input, cuts, place, items, section),
        ),
{
    let other = collapsing(input, collapsed);
    let here = section_rows(other, cuts, ListPlace { hidden, ..place }, items, section);
    let there = section_rows(input, cuts, place, items, section);
    let mine = in_section(input, items, section);
    lemma_same_in_section(input, collapsed, items, section);
    if mine.len() > 0 {
        let id = "grp:sec:"@ + place.scope + ":"@ + section;
        let a = hidden || is_collapsed(other, place.id) || is_collapsed(other, id);
        let b = place.hidden || is_collapsed(input, place.id) || is_collapsed(input, id);
        let n = input.tasks@.len();
        let level = place.level + 2;
        assert(here =~= seq![here[0]] + rows_of_tasks(other, cuts, mine, level, a, n));
        assert(there =~= seq![there[0]] + rows_of_tasks(input, cuts, mine, level, b, n));
        lemma_same_flat(input, collapsed, cuts, there[0], here[0], mine, level, a, b);
    }
}

proof fn lemma_same_section_rows(
    input: GroupingInput,
    collapsed: Vec<String>,
    cuts: Seq<(Seq<char>, Seq<char>)>,
    place: ListPlace,
    hidden: bool,
    items: Seq<usize>,
    sections: Seq<Section>,
    order: Seq<usize>,
)
    ensures
        same_but_hidden(
            rows_of_sections(
                collapsing(input, collapsed),
                cuts,
                ListPlace { hidden, ..place },
                items,
                sections,
                order,
            ),
            rows_of_sections(input, cuts, place, items, sections, order),
        ),
    decreases order.len(),
{
    let other = collapsing(input, collapsed);
    let moved = ListPlace { hidden, ..place };
    if order.len() > 0 {
        let front = order.drop_last();
        let section = sections[order.last() as int].id@;
        lemma_same_section_rows(input, collapsed, cuts, place, hidden, items, sections, front);
        lemma_same_section(input, collapsed, cuts, place, hidden, items, section);
        lemma_same_added(
            rows_of_sections(other, cuts, moved, items, sections, front),
            section_rows(other, cuts, moved, items, section),
            rows_of_sections(input, cuts, place, items, sections, front),
            section_rows(input, cuts, place, items, section),
        );
    }
}

proof fn lemma_same_list_rows(
    input: GroupingInput,
    collapsed: Vec<String>,
    cuts: Seq<(Seq<char>, Seq<char>)>,
    place: ListPlace,
    hidden: bool,
    items: Seq<usize>,
)
    ensures
        same_but_hidden(
            list_rows(
                collapsing(input, collapsed),
                cuts,
                ListPlace { hidden, ..place },
                items,
            ),
            list_rows(input, cuts, place, items),
        ),
{
    let other = collapsing(input, collapsed);
    let moved = ListPlace { hidden, ..place };
    let here = list_rows(other, cuts, moved, items);
    let there = list_rows(input, cuts, place, items);
    let sections = sections_of(input, place.list_id);
    let order = sections_by_name(input, sections);
    let loose = unsectioned(input, items, sections);
    let n = input.tasks@.len();
    let level = place.level + 1;
    let a = hidden || is_collapsed(other, place.id);
    let b = place.hidden || is_collapsed(input, place.id);
    lemma_same_sections(input, collapsed, place.list_id, input.sections@.len() as int);
    lemma_same_section_order(input, collapsed, sections);
    lemma_same_unsectioned(input, collapsed, items, sections);
    lemma_same_flat(input, collapsed, cuts, there[0], here[0], loose, level, a, b);
    lemma_same_section_rows(input, collapsed, cuts, place, hidden, items, sections, order);
    lemma_same_added(
        seq![here[0]] + rows_of_tasks(other, cuts, loose, level, a, n),
        rows_of_sections(other, cuts, moved, items, sections, order),
        seq![there[0]] + rows_of_tasks(input, cuts, loose, level, b, n),
        rows_of_sections(input, cuts, place, items, sections, order),
    );
    assert(here =~= seq![here[0]] + rows_of_tasks(other, cuts, loose, level, a, n)
        + rows_of_sections(other, cuts, moved, items, sections, order));
    assert(there =~= seq![there[0]] + rows_of_tasks(input, cuts, loose, level, b, n)
        + rows_of_sections(input, cuts, place, items, sections, order));
}

proof fn lemma_same_lists_rows(
    input: GroupingInput,
    collapsed: Vec<String>,
    cuts: Seq<(Seq<char>, Seq<char>)>,
    items: Seq<usize>,
    lists: Seq<Seq<char>>,
    order: Seq<usize>,
    in_backlog: bool,
)
    ensures
        same_but_hidden(
            rows_of_lists(collapsing(input, collapsed), cuts, items, lists, order, in_backlog),
            rows_of_lists(input, cuts, items, lists, order, in_backlog),
        ),
    decreases order.len(),
{
    let other = collapsing(input, collapsed);
    if order.len() > 0 {
        let front = order.drop_last();
        let list = lists[order.last() as int];
        let place = list_place(input, list, in_backlog);
        let moved = list_place(other, list, in_backlog);
        let own = in_list(input, items, list);
        lemma_same_lists_rows(input, collapsed, cuts, items, lists, front, in_backlog);
        lemma_same_in_list(input, collapsed, items, list);
        assert(moved == ListPlace { hidden: moved.hidden, ..place });
        lemma_same_list_rows(input, collapsed, cuts, place, moved.hidden, own);
        lemma_same_added(
            rows_of_lists(other, cuts, items, lists, front, in_backlog),
            list_rows(other, cuts, moved, own),
            rows_of_lists(input, cuts, items, lists, front, in_backlog),
            list_rows(input, cuts, place, own),
        );
    }
}

proof fn lemma_same_by_list(
    input: GroupingInput,
    collapsed: Vec<String>,
    cuts: Seq<(Seq<char>, Seq<char>)>,
    items: Seq<usize>,
    in_backlog: bool,
)
    ensures
        same_but_hidden(
            rows_by_list(collapsing(input, collapsed), cuts, items, in_backlog),
            rows_by_list(input, cuts, items, in_backlog),
        ),
{
    let lists = lists_seen(input, items);
    lemma_same_lists(input, collapsed, items);
    lemma_same_list_order(input, collapsed, lists);
    lemma_same_lists_rows(
        input,
        collapsed,
        cuts,
        items,
        lists,
        lists_by_name(input, lists),
        in_backlog,
    );
}

proof fn lemma_same_flat_group(
    input: GroupingInput,
    collapsed: Vec<String>,
    cuts: Seq<(Seq<char>, Seq<char>)>,
    id: Seq<char>,
    kind: GroupKind,
    items: Seq<usize>,
)
    ensures
        same_but_hidden(
            flat_rows(collapsing(input, collapsed), cuts, id, kind, items),
            flat_rows(input, cuts, id, kind, items),
        ),
{
    let other = collapsing(input, collapsed);
    let here = flat_rows(other, cuts, id, kind, items);
    let there = flat_rows(input, cuts, id, kind, items);
    if items.len() > 0 {
        let n = input.tasks@.len();
        let a = is_collapsed(other, id);
        let b = is_collapsed(input, id);
        assert(here =~= seq![here[0]] + rows_of_tasks(other, cuts, items, 1, a, n));
        assert(there =~= seq![there[0]] + rows_of_tasks(input, cuts, items, 1, b, n));
        lemma_same_flat(input, collapsed, cuts, there[0], here[0], items, 1, a, b);
    }
}

proof fn lemma_same_open(
    input: GroupingInput,
    collapsed: Vec<String>,
    cuts: Seq<(Seq<char>, Seq<char>)>,
    open: Seq<usize>,
)
    ensures
        same_but_hidden(
            open_rows(collapsing(input, collapsed), cuts, open),
            open_rows(input, cuts, open),
        ),
{
    let other = collapsing(input, collapsed);
    match input.group_by {
        GroupBy::List => {
            lemma_same_by_list(input, collapsed, cuts, open, false);
        },
        GroupBy::State => {
            let late = overdue_tasks(input, open);
            let now = today_tasks(input, open);
            let loose = backlog_tasks(input, open);
            let ahead = future_tasks(input, open);
            lemma_same_times(input, collapsed, open);
            let late_id = OVERDUE_GROUP_ID@;
            let now_id = TODAY_GROUP_ID@;
            let ahead_id = DEFERRED_GROUP_ID@;
            lemma_same_flat_group(input, collapsed, cuts, late_id, GroupKind::Overdue, late);
            lemma_same_flat_group(input, collapsed, cuts, now_id, GroupKind::Today, now);
            lemma_same_flat_group(input, collapsed, cuts, ahead_id, GroupKind::Deferred, ahead);
            let a = flat_rows(other, cuts, late_id, GroupKind::Overdue, late);
            let b = flat_rows(other, cuts, now_id, GroupKind::Today, now);
            let c = backlog_rows(other, cuts, loose);
            let d = flat_rows(other, cuts, ahead_id, GroupKind::Deferred, ahead);
            let w = flat_rows(input, cuts, late_id, GroupKind::Overdue, late);
            let x = flat_rows(input, cuts, now_id, GroupKind::Today, now);
            let y = backlog_rows(input, cuts, loose);
            let z = flat_rows(input, cuts, ahead_id, GroupKind::Deferred, ahead);
            if loose.len() > 0 {
                let here = rows_by_list(other, cuts, loose, true);
                let there = rows_by_list(input, cuts, loose, true);
                lemma_same_by_list(input, collapsed, cuts, loose, true);
                lemma_same_added(seq![c[0]], here, seq![y[0]], there);
                assert(c =~= seq![c[0]] + here);
                assert(y =~= seq![y[0]] + there);
            }
            lemma_same_added(a, b, w, x);
            lemma_same_added(a + b, c, w + x, y);
            lemma_same_added(a + b + c, d, w + x + y, z);
        },
    }
}

/// Collapsing hides rows and does nothing else: with other ids collapsed the
/// view has the same rows in the same order, and they differ in what is hidden
/// alone.
pub proof fn collapsing_only_hides(input: GroupingInput, collapsed: Vec<String>)
    ensures
        same_but_hidden(grouped(collapsing(input, collapsed)), grouped(input)),
{
    let other = collapsing(input, collapsed);
    let guard = settled(input.tasks@);
    let n = input.tasks@.len();
    let open = open_tasks(input, guard.top);
    let done = done_tasks(input, guard.top);
    let gone = cancelled_tasks(input, guard.top);
    lemma_same_parts(input, collapsed, guard.top);
    lemma_same_open(input, collapsed, guard.cuts, open);
    lemma_same_mine(input, collapsed, done);
    let a = open_rows(other, guard.cuts, open);
    let b = done_rows(other, guard.cuts, done);
    let c = cancelled_rows(other, guard.cuts, gone);
    let x = open_rows(input, guard.cuts, open);
    let y = done_rows(input, guard.cuts, done);
    let z = cancelled_rows(input, guard.cuts, gone);
    if done.len() > 0 {
        let here = is_collapsed(other, DONE_GROUP_ID@);
        let there = is_collapsed(input, DONE_GROUP_ID@);
        assert(b =~= seq![b[0]] + rows_of_tasks(other, guard.cuts, done, 1, here, n));
        assert(y =~= seq![y[0]] + rows_of_tasks(input, guard.cuts, done, 1, there, n));
        lemma_same_flat(input, collapsed, guard.cuts, y[0], b[0], done, 1, here, there);
    }
    if gone.len() > 0 {
        let here = is_collapsed(other, CANCELLED_GROUP_ID@);
        let there = is_collapsed(input, CANCELLED_GROUP_ID@);
        assert(c =~= seq![c[0]] + rows_of_tasks(other, guard.cuts, gone, 1, here, n));
        assert(z =~= seq![z[0]] + rows_of_tasks(input, guard.cuts, gone, 1, there, n));
        lemma_same_flat(input, collapsed, guard.cuts, z[0], c[0], gone, 1, here, there);
    }
    lemma_same_added(a, b, x, y);
    lemma_same_added(a + b, c, x + y, z);
}

} // verus!
