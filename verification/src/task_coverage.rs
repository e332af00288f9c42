//! What the task view promises of the tasks it is handed: none of them is
//! lost, however their parents are linked.

use vstd::prelude::*;

use crate::collation::{language_of, name_first, title_first};
use crate::order::{
    all_below, in_order, lemma_kept, lemma_those, ordering_keeps_every_item, positions, those,
};
use crate::task_grouping::{
    backlog_rows, backlog_tasks, cancelled_rows, cancelled_tasks, children_of, cycle_member,
    done_moment, done_rows, done_tasks, flat_rows, future_day, future_tasks, grouped, guarded,
    hanging_under, has_id, in_list, in_section, is_collapsed, is_in_list, is_section, last_with_id,
    list_place, list_rows, lists_by_name, lists_seen, name_of, open_rows, open_tasks, overdue_tasks,
    parent_of, planned, reached_from, reached_from_all, roots, rows_by_list, rows_of_lists,
    rows_of_sections, rows_of_tasks, section_rows, sections_by_name, sections_of, settled, subtasks,
    task_order, task_rows, today_tasks, unsectioned, waits, GroupBy, GroupKind, GroupableTask,
    GroupingInput, ListPlace, RowText, CANCELLED_GROUP_ID, DEFERRED_GROUP_ID, DONE_GROUP_ID,
    OVERDUE_GROUP_ID, TODAY_GROUP_ID,
};
use crate::text::optional_text;
use crate::types::Section;

verus! {

// ---------------------------------------------------------------------------
// Children and roots
// ---------------------------------------------------------------------------

pub(crate) proof fn lemma_hanging(
    tasks: Seq<GroupableTask>,
    cuts: Seq<(Seq<char>, Seq<char>)>,
    id: Seq<char>,
    n: int,
    c: usize,
)
    requires
        0 <= n <= tasks.len() <= usize::MAX,
    ensures
        hanging_under(tasks, cuts, id, n).contains(c) <==> c < n && parent_of(tasks, c as int)
            == Some(id) && !cuts.contains((id, tasks[c as int].id@)),
    decreases n,
{
    if n > 0 {
        lemma_hanging(tasks, cuts, id, n - 1, c);
        let before = hanging_under(tasks, cuts, id, n - 1);
        let all = hanging_under(tasks, cuts, id, n);
        if all.len() > before.len() {
            assert(all == before.push((n - 1) as usize));
            lemma_pushed(before, (n - 1) as usize, c);
        }
    }
}

pub(crate) proof fn lemma_pushed<T>(list: Seq<T>, x: T, y: T)
    ensures
        list.push(x).contains(y) <==> list.contains(y) || x == y,
{
    let all = list.push(x);
    assert(all[list.len() as int] == x);
    if list.contains(y) {
        let k = choose|k: int| 0 <= k < list.len() && list[k] == y;
        assert(all[k] == y);
    }
    if all.contains(y) {
        let k = choose|k: int| 0 <= k < all.len() && all[k] == y;
        if k < list.len() {
            assert(list[k] == y);
        }
    }
}

proof fn lemma_roots(tasks: Seq<GroupableTask>, n: int, c: usize)
    requires
        0 <= n <= tasks.len() <= usize::MAX,
    ensures
        roots(tasks, n).contains(c) <==> c < n && parent_of(tasks, c as int) is None,
    decreases n,
{
    if n > 0 {
        lemma_roots(tasks, n - 1, c);
        let before = roots(tasks, n - 1);
        if parent_of(tasks, n - 1) is None {
            lemma_pushed(before, (n - 1) as usize, c);
        }
    }
}

// ---------------------------------------------------------------------------
// What the walk reaches
// ---------------------------------------------------------------------------

/// Every id of one list is in another.
spec fn within(a: Seq<Seq<char>>, b: Seq<Seq<char>>) -> bool {
    forall|x: Seq<char>| a.contains(x) ==> #[trigger] b.contains(x)
}

/// The ids of tasks, each once.
spec fn are_ids(tasks: Seq<GroupableTask>, reached: Seq<Seq<char>>) -> bool {
    &&& reached.no_duplicates()
    &&& forall|x: Seq<char>| #[trigger] reached.contains(x) ==> has_id(tasks, x)
}

/// Where an id that `old` does not hold is reached, so are its children.
spec fn is_closed(
    tasks: Seq<GroupableTask>,
    cuts: Seq<(Seq<char>, Seq<char>)>,
    old: Seq<Seq<char>>,
    reached: Seq<Seq<char>>,
) -> bool {
    forall|c: int, p: Seq<char>|
        0 <= c < tasks.len() && #[trigger] parent_of(tasks, c) == Some(p) && !cuts.contains(
            (p, tasks[c].id@),
        ) && #[trigger] reached.contains(p) && !old.contains(p) ==> reached.contains(tasks[c].id@)
}

/// The ids of the first `n` tasks.
spec fn ids_of(tasks: Seq<GroupableTask>, n: int) -> Set<Seq<char>>
    decreases n,
{
    if n <= 0 {
        Set::empty()
    } else {
        ids_of(tasks, n - 1).insert(tasks[n - 1].id@)
    }
}

proof fn lemma_ids_of(tasks: Seq<GroupableTask>, n: int)
    requires
        0 <= n <= tasks.len(),
    ensures
        ids_of(tasks, n).finite(),
        ids_of(tasks, n).len() <= n,
        forall|k: int| 0 <= k < n ==> ids_of(tasks, n).contains(#[trigger] tasks[k].id@),
    decreases n,
{
    if n > 0 {
        lemma_ids_of(tasks, n - 1);
    }
}

/// As many different ids as there are tasks are all of them.
proof fn lemma_all_reached(tasks: Seq<GroupableTask>, reached: Seq<Seq<char>>)
    requires
        are_ids(tasks, reached),
        reached.len() >= tasks.len(),
    ensures
        forall|x: Seq<char>| has_id(tasks, x) ==> reached.contains(x),
        reached.len() == tasks.len(),
{
    let n = tasks.len() as int;
    lemma_ids_of(tasks, n);
    reached.unique_seq_to_set();
    let seen = reached.to_set();
    let ids = ids_of(tasks, n);
    assert(seen.subset_of(ids)) by {
        assert forall|x: Seq<char>| seen.contains(x) implies ids.contains(x) by {
            assert(reached.contains(x));
            let k = choose|k: int| 0 <= k < tasks.len() && (#[trigger] tasks[k]).id@ == x;
            assert(ids.contains(tasks[k].id@));
        }
    }
    vstd::set_lib::lemma_len_subset(seen, ids);
    vstd::set_lib::lemma_subset_equality(seen, ids);
    assert forall|x: Seq<char>| has_id(tasks, x) implies reached.contains(x) by {
        let k = choose|k: int| 0 <= k < tasks.len() && (#[trigger] tasks[k]).id@ == x;
        assert(ids.contains(tasks[k].id@));
        assert(seen.contains(x));
    }
}

/// A walk from a task keeps what was reached, reaches the task, and leaves
/// nothing below what it newly reached.
proof fn lemma_walk(
    tasks: Seq<GroupableTask>,
    cuts: Seq<(Seq<char>, Seq<char>)>,
    i: usize,
    reached: Seq<Seq<char>>,
    depth: nat,
)
    requires
        i < tasks.len() <= usize::MAX,
        are_ids(tasks, reached),
        depth + reached.len() >= tasks.len(),
    ensures
        ({
            let after = reached_from(tasks, cuts, i, reached, depth);
            &&& within(reached, after)
            &&& are_ids(tasks, after)
            &&& after.len() >= reached.len()
            &&& after.contains(tasks[i as int].id@)
            &&& is_closed(tasks, cuts, reached, after)
        }),
    decreases depth, 0int, 0int,
{
    let id = tasks[i as int].id@;
    assert(has_id(tasks, id));
    if depth == 0 {
        lemma_all_reached(tasks, reached);
    } else if !reached.contains(id) {
        let with = reached.push(id);
        let kids = children_of(tasks, cuts, id);
        let after = reached_from(tasks, cuts, i, reached, depth);
        assert forall|x: Seq<char>| #[trigger] with.contains(x) implies has_id(tasks, x) by {
            lemma_pushed(reached, id, x);
        }
        assert(with.no_duplicates()) by {
            assert forall|a: int, b: int| 0 <= a < b < with.len() implies with[a] != with[b] by {
                assert(reached.contains(reached[a]));
            }
        }
        assert(all_below(kids, tasks.len() as int)) by {
            assert forall|k: int| 0 <= k < kids.len() implies (#[trigger] kids[k]) < tasks.len() by {
                assert(kids.contains(kids[k]));
                lemma_hanging(tasks, cuts, id, tasks.len() as int, kids[k]);
            }
        }
        lemma_walks(tasks, cuts, kids, with, (depth - 1) as nat);
        assert(within(reached, after)) by {
            assert forall|x: Seq<char>| reached.contains(x) implies #[trigger] after.contains(
                x,
            ) by {
                lemma_pushed(reached, id, x);
                assert(with.contains(x));
            }
        }
        lemma_pushed(reached, id, id);
        assert(with.contains(id));
        assert forall|c: int, p: Seq<char>|
            0 <= c < tasks.len() && #[trigger] parent_of(tasks, c) == Some(p) && !cuts.contains(
                (p, tasks[c].id@),
            ) && #[trigger] after.contains(p) && !reached.contains(p) implies after.contains(
            tasks[c].id@,
        ) by {
            if p == id {
                lemma_hanging(tasks, cuts, id, tasks.len() as int, c as usize);
                let k = choose|k: int| 0 <= k < kids.len() && kids[k] == c as usize;
                assert(after.contains(tasks[kids[k] as int].id@));
            } else {
                lemma_pushed(reached, id, p);
            }
        }
    }
}

proof fn lemma_walks(
    tasks: Seq<GroupableTask>,
    cuts: Seq<(Seq<char>, Seq<char>)>,
    list: Seq<usize>,
    reached: Seq<Seq<char>>,
    depth: nat,
)
    requires
        all_below(list, tasks.len() as int),
        tasks.len() <= usize::MAX,
        are_ids(tasks, reached),
        depth + reached.len() >= tasks.len(),
    ensures
        ({
            let after = reached_from_all(tasks, cuts, list, reached, depth);
            &&& within(reached, after)
            &&& are_ids(tasks, after)
            &&& after.len() >= reached.len()
            &&& forall|k: int|
                0 <= k < list.len() ==> after.contains(tasks[(#[trigger] list[k]) as int].id@)
            &&& is_closed(tasks, cuts, reached, after)
        }),
    decreases depth, 1int, list.len(),
{
    if list.len() > 0 {
        let front = list.drop_last();
        assert(all_below(front, tasks.len() as int)) by {
            assert forall|k: int| 0 <= k < front.len() implies (#[trigger] front[k])
                < tasks.len() by {
                assert(front[k] == list[k]);
            }
        }
        lemma_walks(tasks, cuts, front, reached, depth);
        let mid = reached_from_all(tasks, cuts, front, reached, depth);
        lemma_walk(tasks, cuts, list.last(), mid, depth);
        let after = reached_from_all(tasks, cuts, list, reached, depth);
        assert forall|k: int| 0 <= k < list.len() implies after.contains(
            tasks[(#[trigger] list[k]) as int].id@,
        ) by {
            if k < front.len() {
                assert(front[k] == list[k]);
                assert(mid.contains(tasks[front[k] as int].id@));
            }
        }
    }
}

// ---------------------------------------------------------------------------
// The climb onto a cycle
// ---------------------------------------------------------------------------

/// A task with the id `child` hangs under `parent`.
spec fn linked(tasks: Seq<GroupableTask>, child: Seq<char>, parent: Seq<char>) -> bool {
    exists|c: int|
        0 <= c < tasks.len() && (#[trigger] tasks[c]).id@ == child && parent_of(tasks, c) == Some(
            parent,
        )
}

/// Each id hangs under the next, none of them reached and none twice.
#[verifier::opaque]
spec fn is_chain(
    tasks: Seq<GroupableTask>,
    reached: Seq<Seq<char>>,
    chain: Seq<Seq<char>>,
) -> bool {
    &&& chain.len() > 0
    &&& are_ids(tasks, chain)
    &&& forall|k: int| 0 <= k < chain.len() ==> !reached.contains(#[trigger] chain[k])
    &&& forall|k: int, l: int|
        0 <= k && l == k + 1 && l < chain.len() ==> linked(
            tasks,
            #[trigger] chain[k],
            #[trigger] chain[l],
        )
}

/// What the guard keeps: the top is reached and everything below it, and what
/// was cut off is at the top.
#[verifier::opaque]
spec fn holds(
    tasks: Seq<GroupableTask>,
    cuts: Seq<(Seq<char>, Seq<char>)>,
    reached: Seq<Seq<char>>,
) -> bool {
    &&& are_ids(tasks, reached)
    &&& is_closed(tasks, cuts, Seq::empty(), reached)
    &&& forall|c: int|
        0 <= c < tasks.len() && parent_of(tasks, c) is None ==> reached.contains(
            #[trigger] tasks[c].id@,
        )
    &&& forall|p: Seq<char>, m: Seq<char>|
        #[trigger] cuts.contains((p, m)) ==> reached.contains(m)
}

proof fn lemma_found(tasks: Seq<GroupableTask>, id: Seq<char>, n: int)
    requires
        0 <= n <= tasks.len() <= usize::MAX,
        exists|k: int| 0 <= k < n && (#[trigger] tasks[k]).id@ == id,
    ensures
        last_with_id(tasks, id, n) matches Some(p) && p < n && tasks[p as int].id@ == id,
    decreases n,
{
    if n > 0 && tasks[n - 1].id@ != id {
        lemma_found(tasks, id, n - 1);
    }
}

/// What hangs under a reached id is reached, so the parent of what is not
/// reached is not either.
proof fn lemma_unreached_parent(
    tasks: Seq<GroupableTask>,
    cuts: Seq<(Seq<char>, Seq<char>)>,
    reached: Seq<Seq<char>>,
    i: usize,
)
    requires
        i < tasks.len() <= usize::MAX,
        holds(tasks, cuts, reached),
        !reached.contains(tasks[i as int].id@),
    ensures
        parent_of(tasks, i as int) matches Some(p) && optional_text(tasks[i as int].parent_id)
            == Some(p) && has_id(tasks, p) && !reached.contains(p),
{
    reveal(holds);
    match parent_of(tasks, i as int) {
        Some(p) => {
            if reached.contains(p) {
                assert(!cuts.contains((p, tasks[i as int].id@)));
                assert(!Seq::<Seq<char>>::empty().contains(p));
            }
        },
        None => {
            assert(reached.contains(tasks[i as int].id@));
        },
    }
}

/// A chain grows by the parent of its last task.
proof fn lemma_longer_chain(
    tasks: Seq<GroupableTask>,
    reached: Seq<Seq<char>>,
    i: usize,
    chain: Seq<Seq<char>>,
    parent: Seq<char>,
)
    requires
        i < tasks.len(),
        is_chain(tasks, reached, chain),
        chain.len() > 0 && chain.last() == tasks[i as int].id@,
        parent_of(tasks, i as int) == Some(parent),
        has_id(tasks, parent),
        !reached.contains(parent),
        !chain.contains(parent),
    ensures
        is_chain(tasks, reached, chain.push(parent)),
{
    reveal(is_chain);
    let longer = chain.push(parent);
    assert(longer.no_duplicates()) by {
        assert forall|a: int, b: int| 0 <= a < b < longer.len() implies longer[a] != longer[b] by {
            assert(chain.contains(chain[a]));
        }
    }
    assert forall|x: Seq<char>| #[trigger] longer.contains(x) implies has_id(tasks, x) by {
        lemma_pushed(chain, parent, x);
    }
    assert forall|k: int, l: int| 0 <= k && l == k + 1 && l < longer.len() implies linked(
        tasks,
        #[trigger] longer[k],
        #[trigger] longer[l],
    ) by {
        if l < chain.len() {
            assert(longer[k] == chain[k] && longer[l] == chain[l]);
        } else {
            assert(tasks[i as int].id@ == longer[k]);
        }
    }
}

/// A chain is not longer than the tasks are many, and holds every id once it
/// is that long.
proof fn lemma_chain_length(
    tasks: Seq<GroupableTask>,
    reached: Seq<Seq<char>>,
    chain: Seq<Seq<char>>,
)
    requires
        is_chain(tasks, reached, chain),
    ensures
        0 < chain.len() <= tasks.len(),
{
    reveal(is_chain);
    if chain.len() > tasks.len() {
        lemma_all_reached(tasks, chain);
    }
}

/// The climb from a chain's last task ends on a chain that grew out of it. Its
/// last task, the member found, hangs under another.
proof fn lemma_climb(
    tasks: Seq<GroupableTask>,
    cuts: Seq<(Seq<char>, Seq<char>)>,
    reached: Seq<Seq<char>>,
    i: usize,
    chain: Seq<Seq<char>>,
    steps: nat,
) -> (whole: Seq<Seq<char>>)
    requires
        i < tasks.len() <= usize::MAX,
        holds(tasks, cuts, reached),
        is_chain(tasks, reached, chain),
        chain.len() > 0 && chain.last() == tasks[i as int].id@,
        !reached.contains(chain.last()),
        steps + chain.len() > tasks.len(),
    ensures
        is_chain(tasks, reached, whole),
        whole.len() > 0 && whole[0] == chain[0],
        ({
            let member = cycle_member(tasks, i, chain, steps);
            &&& member < tasks.len()
            &&& whole.last() == tasks[member as int].id@
            &&& parent_of(tasks, member as int) matches Some(p) && optional_text(
                tasks[member as int].parent_id,
            ) == Some(p)
        }),
    decreases steps,
{
    lemma_unreached_parent(tasks, cuts, reached, i);
    let parent = parent_of(tasks, i as int)->0;
    lemma_found(tasks, parent, tasks.len() as int);
    lemma_chain_length(tasks, reached, chain);
    let p = last_with_id(tasks, parent, tasks.len() as int)->0;
    if chain.contains(parent) {
        chain
    } else {
        lemma_longer_chain(tasks, reached, i, chain, parent);
        lemma_climb(tasks, cuts, reached, p, chain.push(parent), (steps - 1) as nat)
    }
}

/// Where a chain's last id is reached and nothing inside the chain is cut, the
/// whole chain is.
proof fn lemma_down_the_chain(
    tasks: Seq<GroupableTask>,
    cuts: Seq<(Seq<char>, Seq<char>)>,
    before: Seq<Seq<char>>,
    reached: Seq<Seq<char>>,
    chain: Seq<Seq<char>>,
    k: int,
)
    requires
        is_chain(tasks, before, chain),
        0 <= k < chain.len(),
        is_closed(tasks, cuts, before, reached),
        reached.contains(chain.last()),
        forall|j: int, p: Seq<char>|
            0 <= j < chain.len() - 1 ==> !#[trigger] cuts.contains((p, chain[j])),
    ensures
        reached.contains(chain[k]),
    decreases chain.len() - k,
{
    reveal(is_chain);
    if k < chain.len() - 1 {
        lemma_down_the_chain(tasks, cuts, before, reached, chain, k + 1);
        assert(linked(tasks, chain[k], chain[k + 1]));
        let c = choose|c: int|
            0 <= c < tasks.len() && (#[trigger] tasks[c]).id@ == chain[k] && parent_of(tasks, c)
                == Some(chain[k + 1]);
        assert(!cuts.contains((chain[k + 1], chain[k])));
        assert(!before.contains(chain[k + 1]));
        assert(reached.contains(tasks[c].id@));
    }
}

/// Promoting the member that the climb from an unreached task finds keeps the
/// promise, and reaches the task.
proof fn lemma_promotion(
    tasks: Seq<GroupableTask>,
    cuts: Seq<(Seq<char>, Seq<char>)>,
    reached: Seq<Seq<char>>,
    i: usize,
)
    requires
        i < tasks.len() <= usize::MAX,
        holds(tasks, cuts, reached),
        !reached.contains(tasks[i as int].id@),
    ensures
        ({
            let member = cycle_member(tasks, i, seq![tasks[i as int].id@], tasks.len());
            let parent = parent_of(tasks, member as int);
            let after_cuts = cuts.push((parent->0, tasks[member as int].id@));
            let after = reached_from(tasks, after_cuts, member, reached, tasks.len());
            &&& member < tasks.len()
            &&& parent is Some
            &&& optional_text(tasks[member as int].parent_id) == parent
            &&& holds(tasks, after_cuts, after)
            &&& within(reached, after)
            &&& !reached.contains(tasks[member as int].id@)
            &&& after.contains(tasks[i as int].id@)
        }),
{
    let id = tasks[i as int].id@;
    let start = seq![id];
    assert(has_id(tasks, id));
    assert(is_chain(tasks, reached, start)) by {
        reveal(is_chain);
    }
    let chain = lemma_climb(tasks, cuts, reached, i, start, tasks.len());
    let member = cycle_member(tasks, i, start, tasks.len());
    let member_id = tasks[member as int].id@;
    let parent = parent_of(tasks, member as int)->0;
    let link = (parent, member_id);
    let after_cuts = cuts.push(link);
    assert(are_ids(tasks, reached)) by {
        reveal(holds);
    }
    assert(!reached.contains(chain[chain.len() - 1])) by {
        reveal(is_chain);
    }
    lemma_walk(tasks, after_cuts, member, reached, tasks.len());
    let after = reached_from(tasks, after_cuts, member, reached, tasks.len());
    lemma_still_holds(tasks, cuts, reached, link, after);
    assert forall|j: int, p: Seq<char>|
        0 <= j < chain.len() - 1 implies !#[trigger] after_cuts.contains((p, chain[j])) by {
        reveal(holds);
        reveal(is_chain);
        lemma_pushed(cuts, link, (p, chain[j]));
        assert(!reached.contains(chain[j]));
        assert(chain[j] != chain[chain.len() - 1]);
    }
    lemma_down_the_chain(tasks, after_cuts, reached, after, chain, 0);
}

/// What the guard keeps outlasts one more cut, where everything below the task
/// that was cut off is then reached.
proof fn lemma_still_holds(
    tasks: Seq<GroupableTask>,
    cuts: Seq<(Seq<char>, Seq<char>)>,
    reached: Seq<Seq<char>>,
    link: (Seq<char>, Seq<char>),
    after: Seq<Seq<char>>,
)
    requires
        holds(tasks, cuts, reached),
        within(reached, after),
        are_ids(tasks, after),
        after.contains(link.1),
        is_closed(tasks, cuts.push(link), reached, after),
    ensures
        holds(tasks, cuts.push(link), after),
{
    reveal(holds);
    let after_cuts = cuts.push(link);
    assert forall|p: Seq<char>, m: Seq<char>| #[trigger] after_cuts.contains(
        (p, m),
    ) implies after.contains(m) by {
        lemma_pushed(cuts, link, (p, m));
    }
    assert forall|c: int, p: Seq<char>|
        0 <= c < tasks.len() && #[trigger] parent_of(tasks, c) == Some(p) && !after_cuts.contains(
            (p, tasks[c].id@),
        ) && #[trigger] after.contains(p) && !Seq::<Seq<char>>::empty().contains(
            p,
        ) implies after.contains(tasks[c].id@) by {
        lemma_pushed(cuts, link, (p, tasks[c].id@));
        if reached.contains(p) {
            assert(reached.contains(tasks[c].id@));
        }
    }
}

/// The guard after its first `n` tasks keeps its promise, and has reached each
/// of them.
proof fn lemma_guarded(tasks: Seq<GroupableTask>, n: int)
    requires
        0 <= n <= tasks.len() <= usize::MAX,
    ensures
        holds(tasks, guarded(tasks, n).cuts, guarded(tasks, n).reached),
        all_below(guarded(tasks, n).top, tasks.len() as int),
        forall|k: int|
            0 <= k < n ==> guarded(tasks, n).reached.contains(#[trigger] tasks[k].id@),
    decreases n,
{
    let whole = tasks.len() as int;
    if n == 0 {
        reveal(holds);
        let top = roots(tasks, whole);
        let none = Seq::<Seq<char>>::empty();
        let cuts = Seq::<(Seq<char>, Seq<char>)>::empty();
        assert forall|k: int| 0 <= k < top.len() implies (#[trigger] top[k]) < whole by {
            assert(top.contains(top[k]));
            lemma_roots(tasks, whole, top[k]);
        }
        lemma_walks(tasks, cuts, top, none, tasks.len());
        let reached = guarded(tasks, 0).reached;
        assert forall|c: int|
            0 <= c < tasks.len() && parent_of(tasks, c) is None implies reached.contains(
            #[trigger] tasks[c].id@,
        ) by {
            lemma_roots(tasks, whole, c as usize);
            let k = choose|k: int| 0 <= k < top.len() && top[k] == c as usize;
            assert(reached.contains(tasks[top[k] as int].id@));
        }
    } else {
        lemma_guarded(tasks, n - 1);
        let before = guarded(tasks, n - 1);
        let after = guarded(tasks, n);
        if !before.reached.contains(tasks[n - 1].id@) {
            lemma_promotion(tasks, before.cuts, before.reached, (n - 1) as usize);
        }
        assert forall|k: int| 0 <= k < n implies after.reached.contains(
            #[trigger] tasks[k].id@,
        ) by {
            if k < n - 1 {
                assert(before.reached.contains(tasks[k].id@));
            }
        }
    }
}

/// Different positions below `n` are at most `n`.
pub(crate) proof fn lemma_positions_fit(list: Seq<usize>, n: int)
    requires
        0 <= n,
        list.no_duplicates(),
        all_below(list, n),
    ensures
        list.len() <= n,
    decreases n,
{
    if list.len() > 0 {
        assert(list[0] < n);
        let last = (n - 1) as usize;
        if list.contains(last) {
            let at = choose|at: int| 0 <= at < list.len() && list[at] == last;
            let rest = list.remove(at);
            assert forall|k: int| 0 <= k < rest.len() implies (#[trigger] rest[k]) < n - 1 by {
                let was = if k < at {
                    k
                } else {
                    k + 1
                };
                assert(rest[k] == list[was] && list[was] != list[at]);
            }
            assert(rest.no_duplicates());
            lemma_positions_fit(rest, n - 1);
        } else {
            assert forall|k: int| 0 <= k < list.len() implies (#[trigger] list[k]) < n - 1 by {
                assert(list.contains(list[k]));
            }
            lemma_positions_fit(list, n - 1);
        }
    }
}

proof fn lemma_roots_differ(tasks: Seq<GroupableTask>, n: int)
    requires
        0 <= n <= tasks.len() <= usize::MAX,
    ensures
        roots(tasks, n).no_duplicates(),
    decreases n,
{
    if n > 0 {
        lemma_roots_differ(tasks, n - 1);
        let before = roots(tasks, n - 1);
        let all = roots(tasks, n);
        assert forall|a: int, b: int| 0 <= a < b < all.len() implies all[a] != all[b] by {
            assert(before.contains(before[a]));
            lemma_roots(tasks, n - 1, before[a]);
        }
    }
}

/// The tasks at the top are different ones, and their ids are reached.
pub(crate) proof fn lemma_top_differs(tasks: Seq<GroupableTask>, n: int)
    requires
        0 <= n <= tasks.len() <= usize::MAX,
    ensures
        guarded(tasks, n).top.no_duplicates(),
        forall|k: int|
            0 <= k < guarded(tasks, n).top.len() ==> guarded(tasks, n).reached.contains(
                tasks[(#[trigger] guarded(tasks, n).top[k]) as int].id@,
            ),
    decreases n,
{
    let whole = tasks.len() as int;
    if n == 0 {
        let top = roots(tasks, whole);
        lemma_roots_differ(tasks, whole);
        lemma_guarded(tasks, 0);
        lemma_walks(tasks, Seq::empty(), top, Seq::empty(), tasks.len());
    } else {
        lemma_top_differs(tasks, n - 1);
        lemma_guarded(tasks, n - 1);
        let before = guarded(tasks, n - 1);
        let after = guarded(tasks, n);
        if !before.reached.contains(tasks[n - 1].id@) {
            lemma_promotion(tasks, before.cuts, before.reached, (n - 1) as usize);
            let start = seq![tasks[n - 1].id@];
            let member = cycle_member(tasks, (n - 1) as usize, start, tasks.len());
            assert(are_ids(tasks, before.reached)) by {
                reveal(holds);
            }
            lemma_walk(tasks, after.cuts, member, before.reached, tasks.len());
            assert(after.top == before.top.push(member));
            assert forall|k: int| 0 <= k < after.top.len() implies after.reached.contains(
                tasks[(#[trigger] after.top[k]) as int].id@,
            ) by {
                if k < before.top.len() {
                    assert(before.reached.contains(tasks[before.top[k] as int].id@));
                }
            }
            assert forall|a: int, b: int| 0 <= a < b < after.top.len() implies after.top[a]
                != after.top[b] by {
                assert(before.reached.contains(tasks[before.top[a] as int].id@));
            }
        }
    }
}

/// The tasks at the top are tasks, and none of them hangs under another in the
/// links that are left.
pub(crate) proof fn lemma_top_is_free(tasks: Seq<GroupableTask>, n: int)
    requires
        0 <= n <= tasks.len() <= usize::MAX,
    ensures
        all_below(guarded(tasks, n).top, tasks.len() as int),
        forall|k: int|
            0 <= k < guarded(tasks, n).top.len() ==> (parent_of(
                tasks,
                (#[trigger] guarded(tasks, n).top[k]) as int,
            ) matches Some(p) ==> guarded(tasks, n).cuts.contains(
                (p, tasks[guarded(tasks, n).top[k] as int].id@),
            )),
    decreases n,
{
    let whole = tasks.len() as int;
    let after = guarded(tasks, n);
    lemma_guarded(tasks, n);
    if n == 0 {
        let top = roots(tasks, whole);
        assert forall|k: int| 0 <= k < top.len() implies parent_of(
            tasks,
            (#[trigger] top[k]) as int,
        ) is None by {
            assert(top.contains(top[k]));
            lemma_roots(tasks, whole, top[k]);
        }
    } else {
        lemma_top_is_free(tasks, n - 1);
        lemma_guarded(tasks, n - 1);
        let before = guarded(tasks, n - 1);
        if !before.reached.contains(tasks[n - 1].id@) {
            lemma_promotion(tasks, before.cuts, before.reached, (n - 1) as usize);
            let start = seq![tasks[n - 1].id@];
            let member = cycle_member(tasks, (n - 1) as usize, start, tasks.len());
            let link = (parent_of(tasks, member as int)->0, tasks[member as int].id@);
            assert(after.top == before.top.push(member));
            assert(after.cuts == before.cuts.push(link));
            assert forall|k: int| 0 <= k < after.top.len() implies (parent_of(
                tasks,
                (#[trigger] after.top[k]) as int,
            ) matches Some(p) ==> after.cuts.contains((p, tasks[after.top[k] as int].id@))) by {
                if let Some(p) = parent_of(tasks, after.top[k] as int) {
                    let own = (p, tasks[after.top[k] as int].id@);
                    lemma_pushed(before.cuts, link, own);
                    if k < before.top.len() {
                        assert(before.top[k] == after.top[k]);
                        assert(before.cuts.contains(own));
                    }
                }
            }
        }
    }
}

// ---------------------------------------------------------------------------
// From the top down
// ---------------------------------------------------------------------------

/// A line of descent: each task is a child of the one before, and all of them
/// are reached.
spec fn is_line(
    tasks: Seq<GroupableTask>,
    cuts: Seq<(Seq<char>, Seq<char>)>,
    reached: Seq<Seq<char>>,
    line: Seq<usize>,
) -> bool {
    &&& line.len() > 0
    &&& all_below(line, tasks.len() as int)
    &&& forall|k: int|
        0 <= k < line.len() ==> reached.contains(tasks[(#[trigger] line[k]) as int].id@)
    &&& forall|k: int, l: int|
        0 <= k && l == k + 1 && l < line.len() ==> children_of(
            tasks,
            cuts,
            tasks[(#[trigger] line[k]) as int].id@,
        ).contains(#[trigger] line[l])
}

proof fn lemma_grows(
    tasks: Seq<GroupableTask>,
    cuts: Seq<(Seq<char>, Seq<char>)>,
    i: usize,
    reached: Seq<Seq<char>>,
    depth: nat,
)
    ensures
        within(reached, reached_from(tasks, cuts, i, reached, depth)),
    decreases depth, 0int, 0int,
{
    let id = tasks[i as int].id@;
    if depth > 0 && !reached.contains(id) {
        let with = reached.push(id);
        lemma_all_grow(tasks, cuts, children_of(tasks, cuts, id), with, (depth - 1) as nat);
        let after = reached_from(tasks, cuts, i, reached, depth);
        assert forall|x: Seq<char>| reached.contains(x) implies #[trigger] after.contains(x) by {
            lemma_pushed(reached, id, x);
            assert(with.contains(x));
        }
    }
}

proof fn lemma_all_grow(
    tasks: Seq<GroupableTask>,
    cuts: Seq<(Seq<char>, Seq<char>)>,
    list: Seq<usize>,
    reached: Seq<Seq<char>>,
    depth: nat,
)
    ensures
        within(reached, reached_from_all(tasks, cuts, list, reached, depth)),
    decreases depth, 1int, list.len(),
{
    if list.len() > 0 {
        let front = list.drop_last();
        lemma_all_grow(tasks, cuts, front, reached, depth);
        let mid = reached_from_all(tasks, cuts, front, reached, depth);
        lemma_grows(tasks, cuts, list.last(), mid, depth);
    }
}

/// A line of descent outlasts more reached ids, and cuts that part nothing
/// reached from its parent.
proof fn lemma_line_lasts(
    tasks: Seq<GroupableTask>,
    cuts: Seq<(Seq<char>, Seq<char>)>,
    reached: Seq<Seq<char>>,
    more_cuts: Seq<(Seq<char>, Seq<char>)>,
    more: Seq<Seq<char>>,
    line: Seq<usize>,
)
    requires
        tasks.len() <= usize::MAX,
        is_line(tasks, cuts, reached, line),
        within(reached, more),
        forall|p: Seq<char>, m: Seq<char>| #[trigger]
            more_cuts.contains((p, m)) ==> cuts.contains((p, m)) || !reached.contains(m),
    ensures
        is_line(tasks, more_cuts, more, line),
{
    assert forall|k: int, l: int| 0 <= k && l == k + 1 && l < line.len() implies children_of(
        tasks,
        more_cuts,
        tasks[(#[trigger] line[k]) as int].id@,
    ).contains(#[trigger] line[l]) by {
        let id = tasks[line[k] as int].id@;
        lemma_hanging(tasks, cuts, id, tasks.len() as int, line[l]);
        lemma_hanging(tasks, more_cuts, id, tasks.len() as int, line[l]);
        assert(reached.contains(tasks[line[l] as int].id@));
    }
}

/// What a walk newly reaches stands below the task it starts from, on a line
/// no longer than the walk may go down.
proof fn lemma_walked_to(
    tasks: Seq<GroupableTask>,
    cuts: Seq<(Seq<char>, Seq<char>)>,
    t: usize,
    reached: Seq<Seq<char>>,
    depth: nat,
    x: Seq<char>,
) -> (line: Seq<usize>)
    requires
        t < tasks.len() <= usize::MAX,
        reached_from(tasks, cuts, t, reached, depth).contains(x),
        !reached.contains(x),
    ensures
        is_line(tasks, cuts, reached_from(tasks, cuts, t, reached, depth), line),
        line[0] == t,
        tasks[line.last() as int].id@ == x,
        line.len() <= depth,
    decreases depth, 0int, 0int,
{
    let id = tasks[t as int].id@;
    let with = reached.push(id);
    let kids = children_of(tasks, cuts, id);
    let after = reached_from(tasks, cuts, t, reached, depth);
    lemma_all_grow(tasks, cuts, kids, with, (depth - 1) as nat);
    lemma_pushed(reached, id, id);
    lemma_pushed(reached, id, x);
    assert(after.contains(id));
    if x == id {
        seq![t]
    } else {
        assert forall|k: int| 0 <= k < kids.len() implies (#[trigger] kids[k]) < tasks.len() by {
            assert(kids.contains(kids[k]));
            lemma_hanging(tasks, cuts, id, tasks.len() as int, kids[k]);
        }
        let rest = lemma_walked_to_one(tasks, cuts, kids, with, (depth - 1) as nat, x);
        let line = seq![t] + rest;
        assert forall|k: int, l: int| 0 <= k && l == k + 1 && l < line.len() implies children_of(
            tasks,
            cuts,
            tasks[(#[trigger] line[k]) as int].id@,
        ).contains(#[trigger] line[l]) by {
            assert(line[l] == rest[l - 1]);
            if k > 0 {
                assert(line[k] == rest[k - 1]);
            }
        }
        assert forall|k: int| 0 <= k < line.len() implies after.contains(
            tasks[(#[trigger] line[k]) as int].id@,
        ) && line[k] < tasks.len() by {
            if k > 0 {
                assert(line[k] == rest[k - 1]);
            }
        }
        assert(line.last() == rest.last());
        line
    }
}

proof fn lemma_walked_to_one(
    tasks: Seq<GroupableTask>,
    cuts: Seq<(Seq<char>, Seq<char>)>,
    list: Seq<usize>,
    reached: Seq<Seq<char>>,
    depth: nat,
    x: Seq<char>,
) -> (line: Seq<usize>)
    requires
        all_below(list, tasks.len() as int),
        tasks.len() <= usize::MAX,
        reached_from_all(tasks, cuts, list, reached, depth).contains(x),
        !reached.contains(x),
    ensures
        is_line(tasks, cuts, reached_from_all(tasks, cuts, list, reached, depth), line),
        list.contains(line[0]),
        tasks[line.last() as int].id@ == x,
        line.len() <= depth,
    decreases depth, 1int, list.len(),
{
    let front = list.drop_last();
    let mid = reached_from_all(tasks, cuts, front, reached, depth);
    let after = reached_from_all(tasks, cuts, list, reached, depth);
    lemma_grows(tasks, cuts, list.last(), mid, depth);
    assert(list[list.len() - 1] == list.last());
    if mid.contains(x) {
        assert forall|k: int| 0 <= k < front.len() implies (#[trigger] front[k]) < tasks.len() by {
            assert(front[k] == list[k]);
        }
        let line = lemma_walked_to_one(tasks, cuts, front, reached, depth, x);
        lemma_line_lasts(tasks, cuts, mid, cuts, after, line);
        let k = choose|k: int| 0 <= k < front.len() && front[k] == line[0];
        assert(list[k] == line[0]);
        line
    } else {
        lemma_walked_to(tasks, cuts, list.last(), mid, depth, x)
    }
}

/// What the guard has reached stands below the top, in the links it has left.
proof fn lemma_below_the_top(tasks: Seq<GroupableTask>, n: int, x: Seq<char>) -> (line: Seq<usize>)
    requires
        0 <= n <= tasks.len() <= usize::MAX,
        guarded(tasks, n).reached.contains(x),
    ensures
        is_line(tasks, guarded(tasks, n).cuts, guarded(tasks, n).reached, line),
        guarded(tasks, n).top.contains(line[0]),
        tasks[line.last() as int].id@ == x,
        line.len() <= tasks.len(),
    decreases n,
{
    lemma_guarded(tasks, n);
    let after = guarded(tasks, n);
    if n == 0 {
        lemma_walked_to_one(tasks, after.cuts, after.top, Seq::empty(), tasks.len(), x)
    } else {
        lemma_guarded(tasks, n - 1);
        let before = guarded(tasks, n - 1);
        if before.reached.contains(tasks[n - 1].id@) {
            lemma_below_the_top(tasks, n - 1, x)
        } else {
            lemma_promotion(tasks, before.cuts, before.reached, (n - 1) as usize);
            let start = seq![tasks[n - 1].id@];
            let member = cycle_member(tasks, (n - 1) as usize, start, tasks.len());
            if before.reached.contains(x) {
                let line = lemma_below_the_top(tasks, n - 1, x);
                let link = (parent_of(tasks, member as int)->0, tasks[member as int].id@);
                assert forall|p: Seq<char>, m: Seq<char>| #[trigger]
                    after.cuts.contains((p, m)) implies before.cuts.contains((p, m))
                    || !before.reached.contains(m) by {
                    lemma_pushed(before.cuts, link, (p, m));
                }
                lemma_line_lasts(
                    tasks,
                    before.cuts,
                    before.reached,
                    after.cuts,
                    after.reached,
                    line,
                );
                lemma_pushed(before.top, member, line[0]);
                line
            } else {
                lemma_pushed(before.top, member, member);
                lemma_walked_to(tasks, after.cuts, member, before.reached, tasks.len(), x)
            }
        }
    }
}

// ---------------------------------------------------------------------------
// From the top to the rows
// ---------------------------------------------------------------------------

/// A task with this id has a row.
pub open spec fn shows(rows: Seq<RowText>, id: Seq<char>) -> bool {
    exists|k: int| 0 <= k < rows.len() && (#[trigger] rows[k]).id == id && rows[k].group is None
}

proof fn lemma_shown_before(a: Seq<RowText>, b: Seq<RowText>, id: Seq<char>)
    requires
        shows(a, id),
    ensures
        shows(a + b, id),
{
    let k = choose|k: int| 0 <= k < a.len() && (#[trigger] a[k]).id == id && a[k].group is None;
    assert((a + b)[k] == a[k]);
}

proof fn lemma_shown_behind(a: Seq<RowText>, b: Seq<RowText>, id: Seq<char>)
    requires
        shows(b, id),
    ensures
        shows(a + b, id),
{
    let k = choose|k: int| 0 <= k < b.len() && (#[trigger] b[k]).id == id && b[k].group is None;
    assert((a + b)[a.len() + k] == b[k]);
}

/// Ordering loses nothing.
proof fn lemma_ordered(list: Seq<usize>, less: spec_fn(usize, usize) -> bool, x: usize)
    requires
        list.contains(x),
    ensures
        in_order(list, less).contains(x),
{
    broadcast use vstd::seq_lib::group_to_multiset_ensures;

    ordering_keeps_every_item(list, less);
    assert(list.to_multiset().count(x) > 0);
    assert(in_order(list, less).to_multiset().count(x) > 0);
}

/// The task with the id is shown wherever the rows of `t` stand.
spec fn is_below(
    input: GroupingInput,
    cuts: Seq<(Seq<char>, Seq<char>)>,
    t: usize,
    depth: nat,
    id: Seq<char>,
) -> bool {
    forall|level: int, hidden: bool| shows(
        #[trigger] task_rows(input, cuts, t, level, hidden, depth),
        id,
    )
}

proof fn lemma_shown_in_list(
    input: GroupingInput,
    cuts: Seq<(Seq<char>, Seq<char>)>,
    list: Seq<usize>,
    t: usize,
    level: int,
    hidden: bool,
    depth: nat,
    id: Seq<char>,
)
    requires
        list.contains(t),
        is_below(input, cuts, t, depth, id),
    ensures
        shows(rows_of_tasks(input, cuts, list, level, hidden, depth), id),
    decreases list.len(),
{
    let front = list.drop_last();
    let before = rows_of_tasks(input, cuts, front, level, hidden, depth);
    let last = task_rows(input, cuts, list.last(), level, hidden, depth);
    if list.last() == t {
        lemma_shown_behind(before, last, id);
    } else {
        let k = choose|k: int| 0 <= k < list.len() && list[k] == t;
        assert(front[k] == t);
        lemma_shown_in_list(input, cuts, front, t, level, hidden, depth, id);
        lemma_shown_before(before, last, id);
    }
}

/// The end of a line of descent is shown in the rows of its start.
proof fn lemma_shown_down_the_line(
    input: GroupingInput,
    cuts: Seq<(Seq<char>, Seq<char>)>,
    reached: Seq<Seq<char>>,
    line: Seq<usize>,
    depth: nat,
)
    requires
        is_line(input.tasks@, cuts, reached, line),
        line.len() <= depth,
    ensures
        is_below(input, cuts, line[0], depth, input.tasks@[line.last() as int].id@),
    decreases line.len(),
{
    let tasks = input.tasks@;
    let t = line[0];
    let id = tasks[t as int].id@;
    let end = tasks[line.last() as int].id@;
    let kids = subtasks(input, cuts, id);
    let rest_depth = (depth - 1) as nat;
    if line.len() > 1 {
        let rest = line.skip(1);
        assert forall|k: int, l: int| 0 <= k && l == k + 1 && l < rest.len() implies children_of(
            tasks,
            cuts,
            tasks[(#[trigger] rest[k]) as int].id@,
        ).contains(#[trigger] rest[l]) by {
            assert(rest[k] == line[k + 1] && rest[l] == line[l + 1]);
        }
        assert(is_line(tasks, cuts, reached, rest));
        lemma_shown_down_the_line(input, cuts, reached, rest, rest_depth);
        assert(children_of(tasks, cuts, id).contains(line[1]));
        lemma_ordered(children_of(tasks, cuts, id), task_order(input), line[1]);
        assert(rest[0] == line[1] && rest.last() == line.last());
    }
    assert forall|level: int, hidden: bool| shows(
        #[trigger] task_rows(input, cuts, t, level, hidden, depth),
        end,
    ) by {
        let rows = task_rows(input, cuts, t, level, hidden, depth);
        let below = hidden || is_collapsed(input, id);
        let own = seq![
            RowText { id, depth: level, hidden, has_children: kids.len() > 0, group: None },
        ];
        let others = rows_of_tasks(input, cuts, kids, level + 1, below, rest_depth);
        assert(rows == own + others);
        if line.len() == 1 {
            assert(rows[0] == own[0]);
        } else {
            lemma_shown_in_list(
                input,
                cuts,
                kids,
                line[1],
                level + 1,
                below,
                rest_depth,
                end,
            );
            lemma_shown_behind(own, others, end);
        }
    }
}

proof fn lemma_shown_flat(
    input: GroupingInput,
    cuts: Seq<(Seq<char>, Seq<char>)>,
    head: RowText,
    items: Seq<usize>,
    hidden: bool,
    t: usize,
    id: Seq<char>,
)
    requires
        items.contains(t),
        is_below(input, cuts, t, input.tasks@.len(), id),
    ensures
        shows(
            seq![head] + rows_of_tasks(input, cuts, items, 1, hidden, input.tasks@.len()),
            id,
        ),
{
    let rows = rows_of_tasks(input, cuts, items, 1, hidden, input.tasks@.len());
    lemma_shown_in_list(input, cuts, items, t, 1, hidden, input.tasks@.len(), id);
    lemma_shown_behind(seq![head], rows, id);
}

/// A task of a section is shown among the rows of the sections.
proof fn lemma_shown_in_section(
    input: GroupingInput,
    cuts: Seq<(Seq<char>, Seq<char>)>,
    place: ListPlace,
    items: Seq<usize>,
    sections: Seq<Section>,
    order: Seq<usize>,
    k: usize,
    t: usize,
    id: Seq<char>,
)
    requires
        items.contains(t),
        order.contains(k),
        optional_text(input.tasks@[t as int].section_id) == Some(sections[k as int].id@),
        is_below(input, cuts, t, input.tasks@.len(), id),
    ensures
        shows(rows_of_sections(input, cuts, place, items, sections, order), id),
    decreases order.len(),
{
    let front = order.drop_last();
    let before = rows_of_sections(input, cuts, place, items, sections, front);
    let last = section_rows(input, cuts, place, items, sections[order.last() as int].id@);
    if order.last() == k {
        let section = sections[k as int].id@;
        let mine = in_section(input, items, section);
        lemma_kept(
            items,
            |i: usize| optional_text(input.tasks@[i as int].section_id) == Some(section),
            t,
        );
        assert(mine.contains(t));
        let header_id = "grp:sec:"@ + place.scope + ":"@ + section;
        let hidden = place.hidden || is_collapsed(input, place.id)
            || is_collapsed(input, header_id);
        let rows = rows_of_tasks(
            input,
            cuts,
            mine,
            place.level + 2,
            hidden,
            input.tasks@.len(),
        );
        lemma_shown_in_list(
            input,
            cuts,
            mine,
            t,
            place.level + 2,
            hidden,
            input.tasks@.len(),
            id,
        );
        lemma_shown_behind(seq![last[0]], rows, id);
        assert(last =~= seq![last[0]] + rows);
        lemma_shown_behind(before, last, id);
    } else {
        let at = choose|at: int| 0 <= at < order.len() && order[at] == k;
        assert(front[at] == k);
        lemma_shown_in_section(input, cuts, place, items, sections, front, k, t, id);
        lemma_shown_before(before, last, id);
    }
}

/// A task of a list is shown among the rows of the list.
proof fn lemma_shown_under_list(
    input: GroupingInput,
    cuts: Seq<(Seq<char>, Seq<char>)>,
    place: ListPlace,
    items: Seq<usize>,
    t: usize,
    id: Seq<char>,
)
    requires
        items.contains(t),
        sections_of(input, place.list_id).len() <= usize::MAX,
        is_below(input, cuts, t, input.tasks@.len(), id),
    ensures
        shows(list_rows(input, cuts, place, items), id),
{
    let sections = sections_of(input, place.list_id);
    let order = sections_by_name(input, sections);
    let rows = list_rows(input, cuts, place, items);
    let head = seq![rows[0]];
    let loose = unsectioned(input, items, sections);
    let hidden = place.hidden || is_collapsed(input, place.id);
    let first = rows_of_tasks(input, cuts, loose, place.level + 1, hidden, input.tasks@.len());
    let second = rows_of_sections(input, cuts, place, items, sections, order);
    assert(rows =~= head + first + second);
    let section = optional_text(input.tasks@[t as int].section_id);
    if section is Some && is_section(sections, section->0) {
        let k = choose|k: int|
            0 <= k < sections.len() && (#[trigger] sections[k]).id@ == section->0;
        let places = positions(sections.len() as int);
        assert(places[k] == k as usize);
        lemma_ordered(
            places,
            |a: usize, b: usize|
                title_first(
                    sections[a as int].name@,
                    sections[b as int].name@,
                    language_of(input.language@),
                ),
            k as usize,
        );
        assert(order.contains(k as usize));
        lemma_shown_in_section(
            input,
            cuts,
            place,
            items,
            sections,
            order,
            k as usize,
            t,
            id,
        );
        lemma_shown_behind(head + first, second, id);
    } else {
        lemma_kept(
            items,
            |i: usize|
                match optional_text(input.tasks@[i as int].section_id) {
                    Some(id) => !is_section(sections, id),
                    None => true,
                },
            t,
        );
        assert(loose.contains(t));
        lemma_shown_in_list(
            input,
            cuts,
            loose,
            t,
            place.level + 1,
            hidden,
            input.tasks@.len(),
            id,
        );
        lemma_shown_behind(head, first, id);
        lemma_shown_before(head + first, second, id);
    }
}

proof fn lemma_list_seen(input: GroupingInput, items: Seq<usize>, t: usize)
    requires
        items.contains(t),
    ensures
        lists_seen(input, items).contains(input.tasks@[t as int].list_id@),
        lists_seen(input, items).len() <= items.len(),
    decreases items.len(),
{
    let front = items.drop_last();
    let before = lists_seen(input, front);
    let id = input.tasks@[items.last() as int].list_id@;
    lemma_pushed(before, id, input.tasks@[t as int].list_id@);
    if front.len() > 0 {
        assert(front.contains(front[0]));
        lemma_list_seen(input, front, front[0]);
    }
    if items.last() != t {
        let k = choose|k: int| 0 <= k < items.len() && items[k] == t;
        assert(front[k] == t);
        lemma_list_seen(input, front, t);
    }
}

proof fn lemma_in_list(input: GroupingInput, items: Seq<usize>, list_id: Seq<char>, t: usize)
    requires
        items.contains(t),
        input.tasks@[t as int].list_id@ == list_id,
    ensures
        in_list(input, items, list_id).contains(t),
{
    lemma_kept(items, is_in_list(input, list_id), t);
}

proof fn lemma_shown_in_lists(
    input: GroupingInput,
    cuts: Seq<(Seq<char>, Seq<char>)>,
    items: Seq<usize>,
    lists: Seq<Seq<char>>,
    order: Seq<usize>,
    in_backlog: bool,
    k: usize,
    t: usize,
    id: Seq<char>,
)
    requires
        items.contains(t),
        order.contains(k),
        lists[k as int] == input.tasks@[t as int].list_id@,
        forall|l: Seq<char>| #[trigger] sections_of(input, l).len() <= usize::MAX,
        is_below(input, cuts, t, input.tasks@.len(), id),
    ensures
        shows(rows_of_lists(input, cuts, items, lists, order, in_backlog), id),
    decreases order.len(),
{
    let front = order.drop_last();
    let before = rows_of_lists(input, cuts, items, lists, front, in_backlog);
    let list_id = lists[order.last() as int];
    let place = list_place(input, list_id, in_backlog);
    let own = in_list(input, items, list_id);
    let last = list_rows(input, cuts, place, own);
    if order.last() == k {
        lemma_in_list(input, items, list_id, t);
        lemma_shown_under_list(input, cuts, place, own, t, id);
        lemma_shown_behind(before, last, id);
    } else {
        let at = choose|at: int| 0 <= at < order.len() && order[at] == k;
        assert(front[at] == k);
        lemma_shown_in_lists(input, cuts, items, lists, front, in_backlog, k, t, id);
        lemma_shown_before(before, last, id);
    }
}

proof fn lemma_shown_by_list(
    input: GroupingInput,
    cuts: Seq<(Seq<char>, Seq<char>)>,
    items: Seq<usize>,
    in_backlog: bool,
    t: usize,
    id: Seq<char>,
)
    requires
        items.contains(t),
        items.len() <= usize::MAX,
        forall|l: Seq<char>| #[trigger] sections_of(input, l).len() <= usize::MAX,
        is_below(input, cuts, t, input.tasks@.len(), id),
    ensures
        shows(rows_by_list(input, cuts, items, in_backlog), id),
{
    let lists = lists_seen(input, items);
    let n = input.lists@.len() as int;
    lemma_list_seen(input, items, t);
    let k = choose|k: int|
        0 <= k < lists.len() && lists[k] == input.tasks@[t as int].list_id@;
    let places = positions(lists.len() as int);
    assert(places[k] == k as usize);
    lemma_ordered(
        places,
        |a: usize, b: usize|
            name_first(
                name_of(input, lists[a as int], n),
                name_of(input, lists[b as int], n),
                language_of(input.language@),
            ),
        k as usize,
    );
    assert(lists_by_name(input, lists).contains(k as usize));
    lemma_shown_in_lists(
        input,
        cuts,
        items,
        lists,
        lists_by_name(input, lists),
        in_backlog,
        k as usize,
        t,
        id,
    );
}

// ---------------------------------------------------------------------------
// The laws
// ---------------------------------------------------------------------------

/// The top level is parted in three: each of its tasks is still open, done or
/// cancelled, and is in that part alone.
pub proof fn the_top_level_is_parted_in_three(input: GroupingInput, top: Seq<usize>, t: usize)
    requires
        top.contains(t),
    ensures
        open_tasks(input, top).contains(t) <==> !input.tasks@[t as int].status.terminal(),
        done_tasks(input, top).contains(t) <==> input.tasks@[t as int].status is Completed,
        cancelled_tasks(input, top).contains(t) <==> input.tasks@[t as int].status is Cancelled,
{
    let open = |i: usize| !input.tasks@[i as int].status.terminal();
    let done = |i: usize| input.tasks@[i as int].status is Completed;
    let cancelled = |i: usize| input.tasks@[i as int].status is Cancelled;
    lemma_kept(top, open, t);
    lemma_kept(top, done, t);
    lemma_kept(top, cancelled, t);
    lemma_same_items(those(top, open), task_order(input), t);
    lemma_same_items(
        those(top, done),
        |a: usize, b: usize|
            done_moment(input.tasks@[b as int]).before(done_moment(input.tasks@[a as int])),
        t,
    );
    lemma_same_items(
        those(top, cancelled),
        |a: usize, b: usize|
            input.tasks@[b as int].updated_at@.before(input.tasks@[a as int].updated_at@),
        t,
    );
}

pub(crate) proof fn lemma_same_items(list: Seq<usize>, less: spec_fn(usize, usize) -> bool, x: usize)
    ensures
        in_order(list, less).contains(x) <==> list.contains(x),
{
    broadcast use vstd::seq_lib::group_to_multiset_ensures;

    ordering_keeps_every_item(list, less);
    assert(list.contains(x) <==> list.to_multiset().count(x) > 0);
    assert(in_order(list, less).contains(x) <==> in_order(list, less).to_multiset().count(x) > 0);
}

/// An open task is overdue, for today, in the backlog or ahead, and in that
/// group alone.
pub proof fn an_open_task_is_in_one_time_group(input: GroupingInput, open: Seq<usize>, t: usize)
    requires
        open.contains(t),
    ensures
        future_tasks(input, open).contains(t) <==> waits(input, t) || (planned(input, t) matches Some(
            d,
        ) && input.today@.before(d)),
        backlog_tasks(input, open).contains(t) <==> !waits(input, t) && planned(input, t) is None,
        overdue_tasks(input, open).contains(t) <==> !waits(input, t) && (planned(input, t) matches Some(
            d,
        ) && d.before(input.today@)),
        today_tasks(input, open).contains(t) <==> !waits(input, t) && planned(input, t) == Some(
            input.today@,
        ),
{
    let waiting = |i: usize| waits(input, i);
    let later = |i: usize|
        !waits(input, i) && (planned(input, i) matches Some(d) && input.today@.before(d));
    let ahead = those(open, waiting) + those(open, later);
    lemma_kept(open, waiting, t);
    lemma_kept(open, later, t);
    lemma_joined(those(open, waiting), those(open, later), t);
    lemma_same_items(
        ahead,
        |a: usize, b: usize|
            match (future_day(input, a), future_day(input, b)) {
                (Some(x), Some(y)) => x.before(y),
                _ => false,
            },
        t,
    );
    lemma_kept(open, |i: usize| !waits(input, i) && planned(input, i) is None, t);
    lemma_kept(
        open,
        |i: usize|
            !waits(input, i) && (planned(input, i) matches Some(d) && d.before(input.today@)),
        t,
    );
    lemma_kept(open, |i: usize| !waits(input, i) && planned(input, i) == Some(input.today@), t);
}

pub(crate) proof fn lemma_joined(a: Seq<usize>, b: Seq<usize>, x: usize)
    ensures
        (a + b).contains(x) <==> a.contains(x) || b.contains(x),
{
    let all = a + b;
    if a.contains(x) {
        let k = choose|k: int| 0 <= k < a.len() && a[k] == x;
        assert(all[k] == x);
    }
    if b.contains(x) {
        let k = choose|k: int| 0 <= k < b.len() && b[k] == x;
        assert(all[a.len() + k] == x);
    }
    if all.contains(x) {
        let k = choose|k: int| 0 <= k < all.len() && all[k] == x;
        if k < a.len() {
            assert(a[k] == x);
        } else {
            assert(b[k - a.len()] == x);
        }
    }
}

/// What stands below an open task of the top level has a row.
proof fn lemma_shown_open(
    input: GroupingInput,
    cuts: Seq<(Seq<char>, Seq<char>)>,
    open: Seq<usize>,
    t: usize,
    id: Seq<char>,
)
    requires
        open.contains(t),
        open.len() <= usize::MAX,
        forall|l: Seq<char>| #[trigger] sections_of(input, l).len() <= usize::MAX,
        is_below(input, cuts, t, input.tasks@.len(), id),
    ensures
        shows(open_rows(input, cuts, open), id),
{
    match input.group_by {
        GroupBy::List => {
            lemma_shown_by_list(input, cuts, open, false, t, id);
        },
        GroupBy::State => {
            let late = overdue_tasks(input, open);
            let now = today_tasks(input, open);
            let loose = backlog_tasks(input, open);
            let ahead = future_tasks(input, open);
            let a = flat_rows(input, cuts, OVERDUE_GROUP_ID@, GroupKind::Overdue, late);
            let b = flat_rows(input, cuts, TODAY_GROUP_ID@, GroupKind::Today, now);
            let c = backlog_rows(input, cuts, loose);
            let d = flat_rows(input, cuts, DEFERRED_GROUP_ID@, GroupKind::Deferred, ahead);
            an_open_task_is_in_one_time_group(input, open, t);
            lemma_days_compare(input, t);
            if late.contains(t) {
                let hidden = is_collapsed(input, OVERDUE_GROUP_ID@);
                lemma_shown_flat(input, cuts, a[0], late, hidden, t, id);
                assert(a =~= seq![a[0]] + rows_of_tasks(
                    input,
                    cuts,
                    late,
                    1,
                    hidden,
                    input.tasks@.len(),
                ));
                lemma_shown_before(a, b, id);
                lemma_shown_before(a + b, c, id);
                lemma_shown_before(a + b + c, d, id);
            } else if now.contains(t) {
                let hidden = is_collapsed(input, TODAY_GROUP_ID@);
                lemma_shown_flat(input, cuts, b[0], now, hidden, t, id);
                assert(b =~= seq![b[0]] + rows_of_tasks(
                    input,
                    cuts,
                    now,
                    1,
                    hidden,
                    input.tasks@.len(),
                ));
                lemma_shown_behind(a, b, id);
                lemma_shown_before(a + b, c, id);
                lemma_shown_before(a + b + c, d, id);
            } else if loose.contains(t) {
                let lists = rows_by_list(input, cuts, loose, true);
                lemma_those(open, |i: usize| !waits(input, i) && planned(input, i) is None);
                lemma_shown_by_list(input, cuts, loose, true, t, id);
                lemma_shown_behind(seq![c[0]], lists, id);
                assert(c =~= seq![c[0]] + lists);
                lemma_shown_behind(a + b, c, id);
                lemma_shown_before(a + b + c, d, id);
            } else {
                assert(ahead.contains(t));
                let hidden = is_collapsed(input, DEFERRED_GROUP_ID@);
                lemma_shown_flat(input, cuts, d[0], ahead, hidden, t, id);
                assert(d =~= seq![d[0]] + rows_of_tasks(
                    input,
                    cuts,
                    ahead,
                    1,
                    hidden,
                    input.tasks@.len(),
                ));
                lemma_shown_behind(a + b + c, d, id);
            }
        },
    }
}

/// A planned day is before today, today or after it.
proof fn lemma_days_compare(input: GroupingInput, t: usize)
    ensures
        planned(input, t) matches Some(d) ==> d.before(input.today@) || d == input.today@
            || input.today@.before(d),
{
}

/// No task is lost: each task that the view is handed has a row, whatever its
/// list, its section and its state, and even where the parents of tasks lead
/// round in a cycle or to a task that is not there.
pub proof fn every_task_has_a_row(input: GroupingInput, i: int)
    requires
        0 <= i < input.tasks@.len() <= usize::MAX,
        forall|l: Seq<char>| #[trigger] sections_of(input, l).len() <= usize::MAX,
    ensures
        shows(grouped(input), input.tasks@[i].id@),
{
    let tasks = input.tasks@;
    let id = tasks[i].id@;
    let guard = settled(tasks);
    lemma_guarded(tasks, tasks.len() as int);
    let line = lemma_below_the_top(tasks, tasks.len() as int, id);
    let t = line[0];
    lemma_shown_down_the_line(input, guard.cuts, guard.reached, line, tasks.len());
    the_top_level_is_parted_in_three(input, guard.top, t);
    let open = open_tasks(input, guard.top);
    let done = done_tasks(input, guard.top);
    let gone = cancelled_tasks(input, guard.top);
    let a = open_rows(input, guard.cuts, open);
    let b = done_rows(input, guard.cuts, done);
    let c = cancelled_rows(input, guard.cuts, gone);
    if open.contains(t) {
        lemma_top_differs(tasks, tasks.len() as int);
        lemma_positions_fit(guard.top, tasks.len() as int);
        lemma_those(guard.top, |i: usize| !input.tasks@[i as int].status.terminal());
        ordering_keeps_every_item(
            those(guard.top, |i: usize| !input.tasks@[i as int].status.terminal()),
            task_order(input),
        );
        lemma_shown_open(input, guard.cuts, open, t, id);
        lemma_shown_before(a, b, id);
        lemma_shown_before(a + b, c, id);
    } else if done.contains(t) {
        let hidden = is_collapsed(input, DONE_GROUP_ID@);
        lemma_shown_flat(input, guard.cuts, b[0], done, hidden, t, id);
        assert(b =~= seq![b[0]] + rows_of_tasks(
            input,
            guard.cuts,
            done,
            1,
            hidden,
            tasks.len(),
        ));
        lemma_shown_behind(a, b, id);
        lemma_shown_before(a + b, c, id);
    } else {
        let hidden = is_collapsed(input, CANCELLED_GROUP_ID@);
        lemma_shown_flat(input, guard.cuts, c[0], gone, hidden, t, id);
        assert(c =~= seq![c[0]] + rows_of_tasks(
            input,
            guard.cuts,
            gone,
            1,
            hidden,
            tasks.len(),
        ));
        lemma_shown_behind(a + b, c, id);
    }
}

} // verus!
