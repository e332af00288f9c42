//! What the day start surfaces, row by row: which rows are overdue, slipped,
//! brought along, reminded and carried, said of the rows themselves.

use vstd::prelude::*;

use crate::civil::{day_numbers_follow_the_calendar, Ymd};
use crate::day_start::{
    actionable, actionable_below, ancestor, asked_about, at_root, batch_targets, below_in_order,
    brought, carried_as, carried_rows, carry, children_of, comes_along, countdown_rows, counts_down,
    coupled_names, day_key, days_left, descended, due_rows, earlier, fires, has_ancestor_in, has_id,
    is_below, is_below_by, is_overdue, is_project, is_slipped, is_taken, last_row, me_among,
    morning, moved_plan, not_yet, noted_all, offered, overdue_rows, parent_of_id, pin_rows, placed,
    placed_all, present, reminders_for, settings_at, slipped_rows, slot_of, stepped,
    the_walk_meets_what_is_below, trigger_time, untimed_rows, CarryOverDefault, DayStartIdentity,
    DayStartListSettings, DayStartReminderSettings, DayStartTask, Descent,
};
use crate::order::{is_ascending, lemma_ascending, lemma_kept, positions, those};
use crate::text::{
    all_digits, digits_value, first_index, is_digit, lemma_first_index, optional_text, split_first,
    texts, units_of, units_of_char, units_precede,
};

verus! {

// ---------------------------------------------------------------------------
// Day keys
// ---------------------------------------------------------------------------

/// What a decimal digit counts.
pub open spec fn digit(c: char) -> int {
    c as int - '0' as int
}

/// A text of the form `YYYY-MM-DD`.
pub open spec fn is_key_text(key: Seq<char>) -> bool {
    &&& key.len() == 10
    &&& key[4] == '-' && key[7] == '-'
    &&& is_digit(key[0]) && is_digit(key[1]) && is_digit(key[2]) && is_digit(key[3])
    &&& is_digit(key[5]) && is_digit(key[6])
    &&& is_digit(key[8]) && is_digit(key[9])
}

/// The day its digits spell, of the calendar or not.
pub open spec fn spelled(key: Seq<char>) -> Ymd {
    Ymd {
        year: 1000 * digit(key[0]) + 100 * digit(key[1]) + 10 * digit(key[2]) + digit(key[3]),
        month: 10 * digit(key[5]) + digit(key[6]),
        day: 10 * digit(key[8]) + digit(key[9]),
    }
}

/// A key is a day exactly where it has the form of one and its digits spell a
/// day of the calendar, of year 100 or later; that is the day it names.
pub proof fn a_day_key_spells_its_day(key: Seq<char>)
    ensures
        day_key(key) is Some <==> is_key_text(key) && spelled(key).valid() && spelled(key).year
            >= 100,
        day_key(key) is Some ==> day_key(key) == Some(spelled(key)),
{
    if key.len() == 10 {
        let y = key.subrange(0, 4);
        let m = key.subrange(5, 7);
        let d = key.subrange(8, 10);
        assert(all_digits(y) <==> is_digit(key[0]) && is_digit(key[1]) && is_digit(key[2])
            && is_digit(key[3])) by {
            assert(y[0] == key[0] && y[1] == key[1] && y[2] == key[2] && y[3] == key[3]);
        }
        assert(all_digits(m) <==> is_digit(key[5]) && is_digit(key[6])) by {
            assert(m[0] == key[5] && m[1] == key[6]);
        }
        assert(all_digits(d) <==> is_digit(key[8]) && is_digit(key[9])) by {
            assert(d[0] == key[8] && d[1] == key[9]);
        }
        if is_key_text(key) {
            lemma_four(y);
            lemma_two(m);
            lemma_two(d);
        }
    }
}

proof fn lemma_two(s: Seq<char>)
    requires
        s.len() == 2,
        all_digits(s),
    ensures
        digits_value(s) == 10 * digit(s[0]) + digit(s[1]),
{
    assert(is_digit(s[0]) && is_digit(s[1]));
    let a = s.drop_last();
    assert(a.drop_last() =~= Seq::empty());
    assert(digits_value(a.drop_last()) == 0);
    assert(digits_value(a) == digit(s[0])) by {
        assert(a.last() == s[0]);
    }
}

proof fn lemma_four(s: Seq<char>)
    requires
        s.len() == 4,
        all_digits(s),
    ensures
        digits_value(s) == 1000 * digit(s[0]) + 100 * digit(s[1]) + 10 * digit(s[2]) + digit(s[3]),
{
    assert(is_digit(s[0]) && is_digit(s[1]) && is_digit(s[2]) && is_digit(s[3]));
    let c = s.drop_last();
    let b = c.drop_last();
    assert(all_digits(b)) by {
        assert(b[0] == s[0] && b[1] == s[1]);
    }
    lemma_two(b);
    assert(b[0] == s[0] && b[1] == s[1]);
    assert(c.last() == s[2] && s.last() == s[3]);
    assert(digits_value(c) == digits_value(b) * 10 + digit(s[2]));
    assert(digits_value(s) == digits_value(c) * 10 + digit(s[3]));
}

/// Of two keys that are days, the earlier as text is the earlier day.
pub proof fn keys_sort_as_days(a: Seq<char>, b: Seq<char>)
    requires
        day_key(a) is Some,
        day_key(b) is Some,
    ensures
        earlier(a, b) <==> day_key(a)->0.number() < day_key(b)->0.number(),
        a == b <==> day_key(a)->0 == day_key(b)->0,
{
    a_day_key_spells_its_day(a);
    a_day_key_spells_its_day(b);
    day_numbers_follow_the_calendar(spelled(a), spelled(b));
    lemma_key_units(a);
    lemma_key_units(b);
    if spelled(a) == spelled(b) {
        lemma_same_key(a, b);
    }
    lemma_precede_10(units_of(a), units_of(b));
    let x = spelled(a);
    let y = spelled(b);
    assert(earlier(a, b) <==> x.year < y.year || (x.year == y.year && (x.month < y.month || (
    x.month == y.month && x.day < y.day))));
}

proof fn lemma_same_key(a: Seq<char>, b: Seq<char>)
    requires
        is_key_text(a),
        is_key_text(b),
        spelled(a) == spelled(b),
    ensures
        a == b,
{
    assert(a[0] == b[0] && a[1] == b[1] && a[2] == b[2] && a[3] == b[3]);
    assert(a[5] == b[5] && a[6] == b[6]);
    assert(a[8] == b[8] && a[9] == b[9]);
    assert(a =~= b);
}

/// The units of a key: a dash or 48 and the digit.
proof fn lemma_key_units(key: Seq<char>)
    requires
        is_key_text(key),
    ensures
        ({
            let u = units_of(key);
            &&& u.len() == 10
            &&& u[4] == 45 && u[7] == 45
            &&& u[0] == 48 + digit(key[0]) && u[1] == 48 + digit(key[1])
            &&& u[2] == 48 + digit(key[2]) && u[3] == 48 + digit(key[3])
            &&& u[5] == 48 + digit(key[5]) && u[6] == 48 + digit(key[6])
            &&& u[8] == 48 + digit(key[8]) && u[9] == 48 + digit(key[9])
            &&& forall|i: int| 0 <= i < 10 && i != 4 && i != 7 ==> 48 <= #[trigger] u[i] <= 57
        }),
{
    assert forall|i: int| 0 <= i < key.len() implies (#[trigger] key[i]) as int <= 0x7F by {
        if i == 4 || i == 7 {
        } else if i < 4 {
            assert(i == 0 || i == 1 || i == 2 || i == 3);
        } else {
            assert(i == 5 || i == 6 || i == 8 || i == 9);
        }
    }
    lemma_plain_units(key);
    let u = units_of(key);
    assert(u[0] == key[0] as u32 && u[1] == key[1] as u32 && u[2] == key[2] as u32);
    assert(u[3] == key[3] as u32 && u[4] == key[4] as u32 && u[5] == key[5] as u32);
    assert(u[6] == key[6] as u32 && u[7] == key[7] as u32 && u[8] == key[8] as u32);
    assert(u[9] == key[9] as u32);
    assert forall|i: int| 0 <= i < 10 && i != 4 && i != 7 implies 48 <= #[trigger] u[i]
        <= 57 by {
        assert(i == 0 || i == 1 || i == 2 || i == 3 || i == 5 || i == 6 || i == 8 || i == 9);
    }
}

/// A text of ten characters below the supplementary planes has ten units.
proof fn lemma_plain_units(s: Seq<char>)
    requires
        forall|i: int| 0 <= i < s.len() ==> (#[trigger] s[i]) as int <= 0x7F,
    ensures
        units_of(s).len() == s.len(),
        forall|i: int| 0 <= i < s.len() ==> #[trigger] units_of(s)[i] == s[i] as u32,
    decreases s.len(),
{
    if s.len() > 0 {
        let front = s.drop_last();
        assert forall|i: int| 0 <= i < front.len() implies (#[trigger] front[i]) as int <= 0x7F by {
            assert(front[i] == s[i]);
        }
        lemma_plain_units(front);
        assert(s[s.len() - 1] as int <= 0x7F);
        assert(units_of_char(s.last()) =~= seq![s.last() as u32]);
        assert forall|i: int| 0 <= i < s.len() implies #[trigger] units_of(s)[i] == s[i] as u32 by {
            if i < front.len() {
                assert(units_of(s)[i] == units_of(front)[i]);
                assert(front[i] == s[i]);
            }
        }
    }
}

/// The first difference of two lists of the same length decides.
proof fn lemma_first_difference(a: Seq<u32>, b: Seq<u32>, at: int)
    requires
        a.len() == b.len(),
        0 <= at <= a.len(),
        forall|i: int| 0 <= i < at ==> a[i] == b[i],
    ensures
        at < a.len() && a[at] != b[at] ==> (units_precede(a, b) <==> a[at] < b[at]),
        at == a.len() ==> !units_precede(a, b),
    decreases a.len(),
{
    if at > 0 {
        assert(a[0] == b[0]);
        lemma_first_difference(a.skip(1), b.skip(1), at - 1);
        if at < a.len() {
            assert(a.skip(1)[at - 1] == a[at] && b.skip(1)[at - 1] == b[at]);
        }
    }
}

proof fn lemma_precede_10(a: Seq<u32>, b: Seq<u32>)
    requires
        a.len() == 10,
        b.len() == 10,
        a[4] == b[4] && a[7] == b[7],
        forall|i: int| 0 <= i < 10 && i != 4 && i != 7 ==> 48 <= #[trigger] a[i] <= 57,
        forall|i: int| 0 <= i < 10 && i != 4 && i != 7 ==> 48 <= #[trigger] b[i] <= 57,
    ensures
        units_precede(a, b) <==> {
            let ya = 1000 * a[0] + 100 * a[1] + 10 * a[2] + a[3];
            let yb = 1000 * b[0] + 100 * b[1] + 10 * b[2] + b[3];
            let ma = 10 * a[5] + a[6];
            let mb = 10 * b[5] + b[6];
            let da = 10 * a[8] + a[9];
            let db = 10 * b[8] + b[9];
            ya < yb || (ya == yb && (ma < mb || (ma == mb && da < db)))
        },
{
    assert(48 <= a[0] <= 57 && 48 <= a[1] <= 57 && 48 <= a[2] <= 57 && 48 <= a[3] <= 57);
    assert(48 <= a[5] <= 57 && 48 <= a[6] <= 57 && 48 <= a[8] <= 57 && 48 <= a[9] <= 57);
    assert(48 <= b[0] <= 57 && 48 <= b[1] <= 57 && 48 <= b[2] <= 57 && 48 <= b[3] <= 57);
    assert(48 <= b[5] <= 57 && 48 <= b[6] <= 57 && 48 <= b[8] <= 57 && 48 <= b[9] <= 57);
    if a[0] != b[0] {
        lemma_first_difference(a, b, 0);
    } else if a[1] != b[1] {
        lemma_first_difference(a, b, 1);
    } else if a[2] != b[2] {
        lemma_first_difference(a, b, 2);
    } else if a[3] != b[3] {
        lemma_first_difference(a, b, 3);
    } else if a[5] != b[5] {
        lemma_first_difference(a, b, 5);
    } else if a[6] != b[6] {
        lemma_first_difference(a, b, 6);
    } else if a[8] != b[8] {
        lemma_first_difference(a, b, 8);
    } else if a[9] != b[9] {
        lemma_first_difference(a, b, 9);
    } else {
        lemma_first_difference(a, b, 10);
    }
}

/// Days are counted where both ends are days. None are left on the day itself,
/// some where it is ahead, fewer than none where it is past, and the days to a
/// day between add up.
pub proof fn days_left_add_up(deadline: Seq<char>, between: Seq<char>, from: Seq<char>)
    ensures
        days_left(None, from) is None,
        days_left(Some(deadline), from) is Some <==> day_key(deadline) is Some && day_key(from)
            is Some,
        day_key(from) is Some ==> days_left(Some(from), from) == Some(0int),
        days_left(Some(deadline), from) is Some ==> {
            &&& days_left(Some(deadline), from)->0 > 0 <==> earlier(from, deadline)
            &&& days_left(Some(deadline), from)->0 < 0 <==> earlier(deadline, from)
        },
        days_left(Some(deadline), between) is Some && days_left(Some(between), from) is Some
            ==> days_left(Some(deadline), from) == Some(
            days_left(Some(deadline), between)->0 + days_left(Some(between), from)->0,
        ),
{
    if day_key(deadline) is Some && day_key(from) is Some {
        keys_sort_as_days(deadline, from);
        keys_sort_as_days(from, deadline);
    }
}

/// The plan that comes along when a lapsed deadline moves: one that is there and
/// lapsed becomes today, every other stays.
pub proof fn only_a_lapsed_plan_moves(today: Seq<char>, plan: Option<Seq<char>>)
    ensures
        moved_plan(today, plan) is Some <==> plan is Some && plan->0.len() > 0 && earlier(
            plan->0,
            today,
        ),
        moved_plan(today, plan) is Some ==> moved_plan(today, plan) == Some(today),
{
}

// ---------------------------------------------------------------------------
// Rows
// ---------------------------------------------------------------------------

/// A task that is neither completed nor cancelled.
pub open spec fn is_active(row: DayStartTask) -> bool {
    row.status is Open || row.status is InProgress
}

/// A date that is there and before today.
pub open spec fn has_lapsed(date: Option<String>, today: Seq<char>) -> bool {
    match date {
        Some(d) => d@.len() > 0 && earlier(d@, today),
        None => false,
    }
}

/// A task that others hold: people are named, the account is known in its list,
/// by the last identity given for that list, and is not one of them.
pub open spec fn is_held_by_others(identities: Seq<DayStartIdentity>, row: DayStartTask) -> bool {
    exists|k: int|
        0 <= k < identities.len() && is_last_for(identities, row.list_id@, k) && (
        #[trigger] identities[k]).me is Some && row.assignees@.len() > 0 && forall|a: int|
            0 <= a < row.assignees@.len() ==> (#[trigger] row.assignees@[a])@
                != identities[k].me->0@
}

pub open spec fn is_last_for(
    identities: Seq<DayStartIdentity>,
    list_id: Seq<char>,
    k: int,
) -> bool {
    &&& identities[k].list_id@ == list_id
    &&& forall|j: int| k < j < identities.len() ==> (#[trigger] identities[j]).list_id@ != list_id
}

/// A line of rows down from a root: the first names the root as its parent, each
/// later one the row before it.
pub open spec fn leads_down(rows: Seq<DayStartTask>, root: Seq<char>, line: Seq<int>) -> bool {
    &&& line.len() > 0
    &&& forall|k: int| 0 <= k < line.len() ==> 0 <= #[trigger] line[k] < rows.len()
    &&& optional_text(rows[line[0]].parent_id) == Some(root)
    &&& forall|k: int, l: int|
        0 <= k && l == k + 1 && l < line.len() ==> optional_text(
            rows[#[trigger] line[l]].parent_id,
        ) == Some(rows[#[trigger] line[k]].id@)
}

/// A row stands below a root: a line leads from the root to it.
pub open spec fn stands_below(rows: Seq<DayStartTask>, root: Seq<char>, row: int) -> bool {
    exists|line: Seq<int>| #[trigger] leads_down(rows, root, line) && line.last() == row
}

/// Something below a task is still to be done.
pub open spec fn has_work_below(rows: Seq<DayStartTask>, id: Seq<char>) -> bool {
    exists|row: int|
        0 <= row < rows.len() && is_active(#[trigger] rows[row]) && stands_below(rows, id, row)
}

/// A task the account is asked about: to be done, with nothing to be done below
/// it, and not held by others.
pub open spec fn is_asked(
    rows: Seq<DayStartTask>,
    identities: Seq<DayStartIdentity>,
    row: DayStartTask,
) -> bool {
    is_active(row) && !has_work_below(rows, row.id@) && !is_held_by_others(identities, row)
}

proof fn lemma_line(rows: Seq<DayStartTask>, root: Seq<char>, row: int, depth: nat) -> (line: Seq<
    int,
>)
    requires
        0 <= row < rows.len(),
        is_below_by(rows, root, row, depth),
    ensures
        leads_down(rows, root, line),
        line.last() == row,
        line.len() == depth + 1,
    decreases depth,
{
    if depth == 0 {
        seq![row]
    } else {
        let above = choose|above: int|
            0 <= above < rows.len() && optional_text(rows[row].parent_id) == Some(
                (#[trigger] rows[above]).id@,
            ) && is_below_by(rows, root, above, (depth - 1) as nat);
        let before = lemma_line(rows, root, above, (depth - 1) as nat);
        let line = before.push(row);
        assert forall|k: int| 0 <= k < line.len() implies 0 <= #[trigger] line[k]
            < rows.len() by {
            if k < before.len() {
                assert(line[k] == before[k]);
            }
        }
        assert forall|k: int, l: int| 0 <= k && l == k + 1 && l < line.len() implies optional_text(
            rows[#[trigger] line[l]].parent_id,
        ) == Some(rows[#[trigger] line[k]].id@) by {
            assert(line[k] == before[k]);
            if l < before.len() {
                assert(line[l] == before[l]);
            }
        }
        assert(line[0] == before[0]);
        line
    }
}

proof fn lemma_below_by(rows: Seq<DayStartTask>, root: Seq<char>, line: Seq<int>)
    requires
        leads_down(rows, root, line),
    ensures
        is_below_by(rows, root, line.last(), (line.len() - 1) as nat),
    decreases line.len(),
{
    if line.len() > 1 {
        let before = line.drop_last();
        assert forall|k: int| 0 <= k < before.len() implies 0 <= #[trigger] before[k]
            < rows.len() by {
            assert(before[k] == line[k]);
        }
        assert forall|k: int, l: int| 0 <= k && l == k + 1 && l < before.len() implies
            optional_text(rows[#[trigger] before[l]].parent_id) == Some(
            rows[#[trigger] before[k]].id@,
        ) by {
            assert(before[k] == line[k] && before[l] == line[l]);
        }
        assert(before[0] == line[0]);
        lemma_below_by(rows, root, before);
        let above = before.last();
        assert(above == line[line.len() - 2]);
        assert(line.last() == line[line.len() - 1]);
        assert(optional_text(rows[line.last()].parent_id) == Some(rows[above].id@));
    } else {
        assert(line.last() == line[0]);
    }
}

proof fn lemma_stands_below(rows: Seq<DayStartTask>, root: Seq<char>, row: int)
    requires
        0 <= row < rows.len(),
    ensures
        is_below(rows, root, row) <==> stands_below(rows, root, row),
{
    if is_below(rows, root, row) {
        let depth = choose|depth: nat| #[trigger] is_below_by(rows, root, row, depth);
        let line = lemma_line(rows, root, row, depth);
        assert(leads_down(rows, root, line));
    }
    if stands_below(rows, root, row) {
        let line = choose|line: Seq<int>|
            #[trigger] leads_down(rows, root, line) && line.last() == row;
        lemma_below_by(rows, root, line);
    }
}

proof fn lemma_work_below(rows: Seq<DayStartTask>, id: Seq<char>)
    ensures
        is_project(rows, id) <==> has_work_below(rows, id),
{
    if is_project(rows, id) {
        let row = choose|row: int|
            0 <= row < rows.len() && actionable((#[trigger] rows[row]).status)
                && is_below(rows, id, row);
        lemma_stands_below(rows, id, row);
        assert(is_active(rows[row]));
    }
    if has_work_below(rows, id) {
        let row = choose|row: int|
            0 <= row < rows.len() && is_active(#[trigger] rows[row]) && stands_below(
                rows,
                id,
                row,
            );
        lemma_stands_below(rows, id, row);
        assert(actionable(rows[row].status));
    }
}

proof fn lemma_me(identities: Seq<DayStartIdentity>, list_id: Seq<char>, n: int)
    requires
        0 <= n <= identities.len(),
        forall|j: int|
            n <= j < identities.len() ==> (#[trigger] identities[j]).list_id@ != list_id,
    ensures
        match me_among(identities, list_id, n) {
            Some(me) => exists|k: int|
                0 <= k < identities.len() && is_last_for(identities, list_id, k) && (
                #[trigger] identities[k]).me is Some && identities[k].me->0@ == me,
            None => forall|k: int|
                0 <= k < identities.len() && is_last_for(identities, list_id, k) ==> (
                #[trigger] identities[k]).me is None,
        },
    decreases n,
{
    if n > 0 {
        if identities[n - 1].list_id@ == list_id {
            assert(is_last_for(identities, list_id, n - 1));
            assert forall|k: int|
                0 <= k < identities.len() && is_last_for(identities, list_id, k) implies k == n
                - 1 by {
                if k < n - 1 {
                    assert(identities[n - 1].list_id@ != list_id);
                }
                if k > n - 1 {
                    assert(identities[k].list_id@ != list_id);
                }
            }
        } else {
            assert forall|j: int| n - 1 <= j < identities.len() implies (
            #[trigger] identities[j]).list_id@ != list_id by {}
            lemma_me(identities, list_id, n - 1);
        }
    }
}

proof fn lemma_offered(identities: Seq<DayStartIdentity>, row: DayStartTask)
    ensures
        offered(identities, row) <==> !is_held_by_others(identities, row),
{
    let list_id = row.list_id@;
    let n = identities.len() as int;
    let names = texts(row.assignees@);
    lemma_me(identities, list_id, n);
    assert forall|j: int, k: int|
        0 <= j < n && 0 <= k < n && #[trigger] is_last_for(identities, list_id, j)
            && #[trigger] is_last_for(identities, list_id, k) implies j == k by {
        if j < k {
            assert(identities[k].list_id@ != list_id);
        }
        if k < j {
            assert(identities[j].list_id@ != list_id);
        }
    }
    assert forall|me: Seq<char>| names.contains(me) <==> exists|a: int|
        0 <= a < row.assignees@.len() && (#[trigger] row.assignees@[a])@ == me by {
        if names.contains(me) {
            let a = choose|a: int| 0 <= a < names.len() && names[a] == me;
            assert(row.assignees@[a]@ == me);
        }
        if exists|a: int| 0 <= a < row.assignees@.len() && (#[trigger] row.assignees@[a])@ == me {
            let a = choose|a: int|
                0 <= a < row.assignees@.len() && (#[trigger] row.assignees@[a])@ == me;
            assert(names[a] == me);
        }
    }
    match me_among(identities, list_id, n) {
        Some(me) => {
            let k = choose|k: int|
                0 <= k < identities.len() && is_last_for(identities, list_id, k) && (
                #[trigger] identities[k]).me is Some && identities[k].me->0@ == me;
            if !offered(identities, row) {
                assert(!names.contains(me));
                assert(is_last_for(identities, list_id, k) && identities[k].me is Some);
            }
            if is_held_by_others(identities, row) {
                assert(!names.contains(me));
            }
        },
        None => {},
    }
}

proof fn lemma_is_asked(
    rows: Seq<DayStartTask>,
    identities: Seq<DayStartIdentity>,
    row: DayStartTask,
)
    ensures
        asked_about(rows, identities, row) <==> is_asked(rows, identities, row),
{
    lemma_work_below(rows, row.id@);
    lemma_offered(identities, row);
}

/// Which positions are picked, and in which order.
proof fn lemma_picked(n: int, keep: spec_fn(usize) -> bool, i: usize)
    requires
        0 <= n <= usize::MAX,
    ensures
        those(positions(n), keep).contains(i) <==> i < n && keep(i),
        is_ascending(those(positions(n), keep)),
{
    let all = positions(n);
    lemma_kept(all, keep, i);
    if i < n {
        assert(all[i as int] == i);
    }
    if all.contains(i) {
        let k = choose|k: int| 0 <= k < all.len() && all[k] == i;
        assert(all[k] == k as usize);
    }
    assert(is_ascending(all));
    lemma_ascending(all, keep);
}

/// The overdue rows are those whose deadline has lapsed, of the tasks that are
/// asked about, in the order of the rows.
pub proof fn what_is_overdue(
    rows: Seq<DayStartTask>,
    today: Seq<char>,
    identities: Seq<DayStartIdentity>,
    i: usize,
)
    requires
        rows.len() <= usize::MAX,
    ensures
        overdue_rows(rows, today, identities).contains(i) <==> i < rows.len() && has_lapsed(
            rows[i as int].deadline_date,
            today,
        ) && is_asked(rows, identities, rows[i as int]),
        is_ascending(overdue_rows(rows, today, identities)),
{
    lemma_picked(
        rows.len() as int,
        |i: usize| is_overdue(rows, today, identities, rows[i as int]),
        i,
    );
    if i < rows.len() {
        lemma_is_asked(rows, identities, rows[i as int]);
    }
}

/// A row has slipped: its plan has lapsed, it is to be done and not held by
/// others, and nothing that bears its id is overdue for anyone.
pub open spec fn has_slipped(
    rows: Seq<DayStartTask>,
    today: Seq<char>,
    identities: Seq<DayStartIdentity>,
    row: DayStartTask,
) -> bool {
    &&& has_lapsed(row.scheduled_date, today)
    &&& is_active(row)
    &&& !is_held_by_others(identities, row)
    &&& forall|j: int|
        0 <= j < rows.len() && (#[trigger] rows[j]).id@ == row.id@ ==> !(has_lapsed(
            rows[j].deadline_date,
            today,
        ) && is_active(rows[j]) && !has_work_below(rows, rows[j].id@))
}

proof fn lemma_slipped(
    rows: Seq<DayStartTask>,
    today: Seq<char>,
    identities: Seq<DayStartIdentity>,
    row: DayStartTask,
)
    requires
        rows.len() <= usize::MAX,
    ensures
        is_slipped(rows, today, identities, row) <==> has_slipped(rows, today, identities, row),
{
    lemma_offered(identities, row);
    let nobody: Seq<DayStartIdentity> = Seq::empty();
    let late = overdue_rows(rows, today, nobody);
    if has_id(rows, late, row.id@) {
        let k = choose|k: int| 0 <= k < late.len() && rows[#[trigger] late[k] as int].id@ == row.id@;
        assert(late.contains(late[k]));
        what_is_overdue(rows, today, nobody, late[k]);
        let j = late[k] as int;
        assert(rows[j].id@ == row.id@ && !has_work_below(rows, rows[j].id@));
    }
    assert forall|j: int|
        0 <= j < rows.len() && (#[trigger] rows[j]).id@ == row.id@ && has_lapsed(
            rows[j].deadline_date,
            today,
        ) && is_active(rows[j]) && !has_work_below(rows, rows[j].id@) implies has_id(
        rows,
        late,
        row.id@,
    ) by {
        what_is_overdue(rows, today, nobody, j as usize);
        assert(late.contains(j as usize));
        let k = choose|k: int| 0 <= k < late.len() && late[k] == j as usize;
        assert(rows[late[k] as int].id@ == row.id@);
    }
}

proof fn lemma_slipped_rows(
    rows: Seq<DayStartTask>,
    today: Seq<char>,
    identities: Seq<DayStartIdentity>,
    i: usize,
)
    requires
        rows.len() <= usize::MAX,
    ensures
        slipped_rows(rows, today, identities).contains(i) <==> i < rows.len() && has_slipped(
            rows,
            today,
            identities,
            rows[i as int],
        ),
        is_ascending(slipped_rows(rows, today, identities)),
{
    lemma_picked(
        rows.len() as int,
        |i: usize| is_slipped(rows, today, identities, rows[i as int]),
        i,
    );
    if i < rows.len() {
        lemma_slipped(rows, today, identities, rows[i as int]);
    }
}

/// A line of ids up from a row: the first is its parent, each later one the
/// parent of the last row that bears the id before it.
pub open spec fn leads_up(
    rows: Seq<DayStartTask>,
    row: DayStartTask,
    line: Seq<Seq<char>>,
) -> bool {
    &&& line.len() > 0
    &&& names_parent(row, line[0])
    &&& forall|k: int, l: int|
        0 <= k && l == k + 1 && l < line.len() ==> is_parent_of_last(
            rows,
            #[trigger] line[k],
            #[trigger] line[l],
        )
}

pub open spec fn names_parent(row: DayStartTask, id: Seq<char>) -> bool {
    id.len() > 0 && optional_text(row.parent_id) == Some(id)
}

/// The last row that bears an id names this parent.
pub open spec fn is_parent_of_last(
    rows: Seq<DayStartTask>,
    id: Seq<char>,
    parent: Seq<char>,
) -> bool {
    exists|k: int|
        0 <= k < rows.len() && (#[trigger] rows[k]).id@ == id && names_parent(rows[k], parent) && (
        forall|j: int| k < j < rows.len() ==> (#[trigger] rows[j]).id@ != id)
}

/// Something above a row has slipped.
pub open spec fn is_under_slipped(
    rows: Seq<DayStartTask>,
    today: Seq<char>,
    identities: Seq<DayStartIdentity>,
    row: DayStartTask,
) -> bool {
    exists|line: Seq<Seq<char>>, j: int|
        0 <= j < rows.len() && #[trigger] leads_up(rows, row, line) && (
        #[trigger] rows[j]).id@ == line.last() && has_slipped(rows, today, identities, rows[j])
}

proof fn lemma_last_row(rows: Seq<DayStartTask>, id: Seq<char>, n: int)
    requires
        0 <= n <= rows.len(),
    ensures
        match last_row(rows, id, n) {
            Some(k) => 0 <= k < n && rows[k].id@ == id && forall|j: int|
                k < j < n ==> (#[trigger] rows[j]).id@ != id,
            None => forall|j: int| 0 <= j < n ==> (#[trigger] rows[j]).id@ != id,
        },
    decreases n,
{
    if n > 0 && rows[n - 1].id@ != id {
        lemma_last_row(rows, id, n - 1);
    }
}

proof fn lemma_parent_of_id(rows: Seq<DayStartTask>, id: Seq<char>, parent: Seq<char>)
    ensures
        parent_of_id(rows, id) == Some(parent) <==> is_parent_of_last(rows, id, parent),
{
    lemma_last_row(rows, id, rows.len() as int);
    if parent_of_id(rows, id) == Some(parent) {
        let k = last_row(rows, id, rows.len() as int)->0;
        assert(rows[k].id@ == id && names_parent(rows[k], parent));
    }
    if is_parent_of_last(rows, id, parent) {
        let k = choose|k: int|
            0 <= k < rows.len() && (#[trigger] rows[k]).id@ == id && names_parent(
                rows[k],
                parent,
            ) && (forall|j: int| k < j < rows.len() ==> (#[trigger] rows[j]).id@ != id);
        let m = last_row(rows, id, rows.len() as int)->0;
        assert(rows[m].id@ == id);
        if k < m {
            assert(rows[m].id@ != id);
        }
        if m < k {
            assert(rows[k].id@ != id);
        }
    }
}

proof fn lemma_line_up(rows: Seq<DayStartTask>, row: DayStartTask, height: nat) -> (line: Seq<
    Seq<char>,
>)
    requires
        ancestor(rows, row, height) is Some,
    ensures
        leads_up(rows, row, line),
        line.last() == ancestor(rows, row, height)->0,
    decreases height,
{
    if height == 0 {
        seq![ancestor(rows, row, 0)->0]
    } else {
        let before = lemma_line_up(rows, row, (height - 1) as nat);
        let id = ancestor(rows, row, height)->0;
        let line = before.push(id);
        lemma_parent_of_id(rows, before.last(), id);
        assert forall|k: int, l: int| 0 <= k && l == k + 1 && l < line.len() implies
            is_parent_of_last(rows, #[trigger] line[k], #[trigger] line[l]) by {
            assert(line[k] == before[k]);
            if l < before.len() {
                assert(line[l] == before[l]);
            }
        }
        assert(line[0] == before[0]);
        line
    }
}

proof fn lemma_ancestor(rows: Seq<DayStartTask>, row: DayStartTask, line: Seq<Seq<char>>)
    requires
        leads_up(rows, row, line),
    ensures
        ancestor(rows, row, (line.len() - 1) as nat) == Some(line.last()),
    decreases line.len(),
{
    if line.len() > 1 {
        let before = line.drop_last();
        assert forall|k: int, l: int| 0 <= k && l == k + 1 && l < before.len() implies
            is_parent_of_last(rows, #[trigger] before[k], #[trigger] before[l]) by {
            assert(before[k] == line[k] && before[l] == line[l]);
        }
        assert(before[0] == line[0]);
        lemma_ancestor(rows, row, before);
        assert(before.last() == line[line.len() - 2]);
        assert(is_parent_of_last(rows, line[line.len() - 2], line[line.len() - 1]));
        lemma_parent_of_id(rows, before.last(), line.last());
    }
}

/// The rows carried over are those that have slipped, in the order of the rows;
/// where the row's list couples, only those with nothing slipped above them.
pub proof fn what_is_carried_over(
    rows: Seq<DayStartTask>,
    today: Seq<char>,
    identities: Seq<DayStartIdentity>,
    coupled: Seq<Seq<char>>,
    i: usize,
)
    requires
        rows.len() <= usize::MAX,
    ensures
        carried_rows(rows, today, identities, coupled).contains(i) <==> i < rows.len()
            && has_slipped(rows, today, identities, rows[i as int]) && !(coupled.contains(
            rows[i as int].list_id@,
        ) && is_under_slipped(rows, today, identities, rows[i as int])),
        is_ascending(carried_rows(rows, today, identities, coupled)),
{
    let slipped = slipped_rows(rows, today, identities);
    let keep = |i: usize|
        !(coupled.contains(rows[i as int].list_id@) && has_ancestor_in(
            rows,
            slipped,
            rows[i as int],
        ));
    lemma_kept(slipped, keep, i);
    lemma_slipped_rows(rows, today, identities, i);
    lemma_ascending(slipped, keep);
    if i < rows.len() {
        let row = rows[i as int];
        if has_ancestor_in(rows, slipped, row) {
            let height = choose|height: nat|
                match #[trigger] ancestor(rows, row, height) {
                    Some(id) => has_id(rows, slipped, id),
                    None => false,
                };
            let line = lemma_line_up(rows, row, height);
            let k = choose|k: int|
                0 <= k < slipped.len() && rows[#[trigger] slipped[k] as int].id@ == line.last();
            assert(slipped.contains(slipped[k]));
            lemma_slipped_rows(rows, today, identities, slipped[k]);
            let j = slipped[k] as int;
            assert(leads_up(rows, row, line) && rows[j].id@ == line.last());
            assert(is_under_slipped(rows, today, identities, row));
        }
        if is_under_slipped(rows, today, identities, row) {
            let (line, j) = choose|line: Seq<Seq<char>>, j: int|
                0 <= j < rows.len() && #[trigger] leads_up(rows, row, line) && (
                #[trigger] rows[j]).id@ == line.last() && has_slipped(
                    rows,
                    today,
                    identities,
                    rows[j],
                );
            lemma_ancestor(rows, row, line);
            lemma_slipped_rows(rows, today, identities, j as usize);
            assert(slipped.contains(j as usize));
            let k = choose|k: int| 0 <= k < slipped.len() && slipped[k] == j as usize;
            assert(rows[slipped[k] as int].id@ == line.last());
            assert(has_id(rows, slipped, line.last()));
            assert(has_ancestor_in(rows, slipped, row));
        }
    }
}

/// What a root brings along: every row below it that is to be done and not held
/// by others, the root itself left out.
pub proof fn what_comes_along(
    rows: Seq<DayStartTask>,
    root: Seq<char>,
    identities: Seq<DayStartIdentity>,
    i: usize,
)
    requires
        rows.len() <= usize::MAX,
    ensures
        actionable_below(rows, root, identities).contains(i) <==> i < rows.len() && stands_below(
            rows,
            root,
            i as int,
        ) && rows[i as int].id@ != root && is_active(rows[i as int]) && !is_held_by_others(
            identities,
            rows[i as int],
        ),
{
    let walk = below_in_order(rows, root);
    the_walk_meets_what_is_below(rows, root);
    lemma_kept(walk, comes_along(rows, root, identities), i);
    if walk.contains(i) {
        let k = choose|k: int| 0 <= k < walk.len() && walk[k] == i;
        assert(walk[k] < rows.len());
    }
    if i < rows.len() {
        assert(walk.contains(i) <==> is_below(rows, root, i as int));
        lemma_stands_below(rows, root, i as int);
        lemma_offered(identities, rows[i as int]);
    }
}

/// Something is to be done below a root exactly where a line of parents leads
/// from it to a row that is open or in progress.
pub proof fn what_makes_a_project(rows: Seq<DayStartTask>, root: Seq<char>)
    ensures
        is_project(rows, root) <==> has_work_below(rows, root),
{
    lemma_work_below(rows, root);
}

/// The rows that are pinned are those due today and not yet planned for it, of
/// the tasks that are asked about.
pub proof fn what_is_pinned(
    rows: Seq<DayStartTask>,
    today: Seq<char>,
    identities: Seq<DayStartIdentity>,
    i: usize,
)
    requires
        rows.len() <= usize::MAX,
    ensures
        pin_rows(rows, today, identities).contains(i) <==> i < rows.len() && today.len() > 0
            && optional_text(rows[i as int].deadline_date) == Some(today) && optional_text(
            rows[i as int].scheduled_date,
        ) != Some(today) && is_asked(rows, identities, rows[i as int]),
        is_ascending(pin_rows(rows, today, identities)),
{
    lemma_picked(
        rows.len() as int,
        |i: usize|
            present(rows[i as int].deadline_date) == Some(today)
                && optional_text(rows[i as int].scheduled_date) != Some(today)
                && asked_about(rows, identities, rows[i as int]),
        i,
    );
    if i < rows.len() {
        lemma_is_asked(rows, identities, rows[i as int]);
    }
}

// ---------------------------------------------------------------------------
// Reminders
// ---------------------------------------------------------------------------

/// A task that is asked about and due today.
pub open spec fn is_due(
    rows: Seq<DayStartTask>,
    today: Seq<char>,
    identities: Seq<DayStartIdentity>,
    row: DayStartTask,
) -> bool {
    optional_text(row.deadline_date) == Some(today) && is_asked(rows, identities, row)
}

/// A task that is asked about and planned for today, without a time.
pub open spec fn is_untimed(
    rows: Seq<DayStartTask>,
    today: Seq<char>,
    identities: Seq<DayStartIdentity>,
    row: DayStartTask,
) -> bool {
    optional_text(row.scheduled_date) == Some(today) && row.scheduled_time is None && is_asked(
        rows,
        identities,
        row,
    )
}

/// A task that is asked about, and its deadline is at least one day ahead and no
/// further than its own window, or the general one where it has none.
pub open spec fn is_near(
    rows: Seq<DayStartTask>,
    today: Seq<char>,
    identities: Seq<DayStartIdentity>,
    general: Option<u64>,
    row: DayStartTask,
) -> bool {
    &&& is_asked(rows, identities, row)
    &&& match days_left(optional_text(row.deadline_date), today) {
        Some(days) => days >= 1 && exists|window: u64| #[trigger]
            is_window(row.deadline_reminder_days, general, window) && days <= window,
        None => false,
    }
}

/// The window that counts: a task's own of at least one day, or the general one
/// of at least one day.
pub open spec fn is_window(own: Option<u64>, general: Option<u64>, window: u64) -> bool {
    window >= 1 && (own == Some(window) || ((own is None || own == Some(0u64)) && general == Some(
        window,
    )))
}

proof fn lemma_reminded(
    rows: Seq<DayStartTask>,
    today: Seq<char>,
    identities: Seq<DayStartIdentity>,
    general: Option<u64>,
    i: usize,
)
    requires
        rows.len() <= usize::MAX,
    ensures
        due_rows(rows, today, identities).contains(i) <==> i < rows.len() && is_due(
            rows,
            today,
            identities,
            rows[i as int],
        ),
        untimed_rows(rows, today, identities).contains(i) <==> i < rows.len() && is_untimed(
            rows,
            today,
            identities,
            rows[i as int],
        ),
        countdown_rows(rows, today, identities, general).contains(i) <==> i < rows.len()
            && is_near(rows, today, identities, general, rows[i as int]),
        is_ascending(due_rows(rows, today, identities)),
        is_ascending(untimed_rows(rows, today, identities)),
        is_ascending(countdown_rows(rows, today, identities, general)),
{
    let n = rows.len() as int;
    lemma_picked(
        n,
        |i: usize|
            optional_text(rows[i as int].scheduled_date) == Some(today)
                && rows[i as int].scheduled_time is None && asked_about(
                rows,
                identities,
                rows[i as int],
            ),
        i,
    );
    lemma_picked(
        n,
        |i: usize|
            optional_text(rows[i as int].deadline_date) == Some(today)
                && asked_about(rows, identities, rows[i as int]),
        i,
    );
    lemma_picked(
        n,
        |i: usize|
            counts_down(rows[i as int], today, general) && asked_about(
                rows,
                identities,
                rows[i as int],
            ),
        i,
    );
    if i < rows.len() {
        let row = rows[i as int];
        lemma_is_asked(rows, identities, row);
        let own = row.deadline_reminder_days;
        if own is Some && own->0 >= 1 {
            assert(is_window(own, general, own->0));
        } else if general is Some && general->0 >= 1 {
            assert(is_window(own, general, general->0));
        }
    }
}

/// Each reminder is the row's own: due today, planned for today without a time,
/// or with its deadline near.
pub proof fn what_is_reminded(
    rows: Seq<DayStartTask>,
    today: Seq<char>,
    identities: Seq<DayStartIdentity>,
    general: Option<u64>,
    i: usize,
)
    requires
        rows.len() <= usize::MAX,
    ensures
        due_rows(rows, today, identities).contains(i) <==> i < rows.len() && is_due(
            rows,
            today,
            identities,
            rows[i as int],
        ),
        untimed_rows(rows, today, identities).contains(i) <==> i < rows.len() && is_untimed(
            rows,
            today,
            identities,
            rows[i as int],
        ),
        countdown_rows(rows, today, identities, general).contains(i) <==> i < rows.len()
            && is_near(rows, today, identities, general, rows[i as int]),
        is_ascending(due_rows(rows, today, identities)),
        is_ascending(untimed_rows(rows, today, identities)),
        is_ascending(countdown_rows(rows, today, identities, general)),
{
    lemma_reminded(rows, today, identities, general, i);
}

/// Something due today bears this id.
pub open spec fn has_due(
    rows: Seq<DayStartTask>,
    today: Seq<char>,
    identities: Seq<DayStartIdentity>,
    id: Seq<char>,
) -> bool {
    exists|j: int|
        0 <= j < rows.len() && (#[trigger] rows[j]).id@ == id && is_due(
            rows,
            today,
            identities,
            rows[j],
        )
}

/// Something planned for today without a time bears this id.
pub open spec fn has_untimed(
    rows: Seq<DayStartTask>,
    today: Seq<char>,
    identities: Seq<DayStartIdentity>,
    id: Seq<char>,
) -> bool {
    exists|j: int|
        0 <= j < rows.len() && (#[trigger] rows[j]).id@ == id && is_untimed(
            rows,
            today,
            identities,
            rows[j],
        )
}

proof fn lemma_has_id(rows: Seq<DayStartTask>, list: Seq<usize>, id: Seq<char>, j: usize)
    requires
        list.contains(j),
        rows[j as int].id@ == id,
    ensures
        has_id(rows, list, id),
{
    let k = choose|k: int| 0 <= k < list.len() && list[k] == j;
    assert(rows[list[k] as int].id@ == id);
}

/// A row is reminded of in the first group that is on and that it is of: due
/// today, then planned for today, then with its deadline near. A group that is
/// off holds nothing and takes nothing from the ones after it.
pub proof fn a_row_is_reminded_where_it_belongs_first(
    rows: Seq<DayStartTask>,
    today: Seq<char>,
    identities: Seq<DayStartIdentity>,
    settings: DayStartReminderSettings,
    i: usize,
)
    requires
        rows.len() <= usize::MAX,
    ensures
        ({
            let groups = reminders_for(rows, today, identities, settings);
            let id = rows[i as int].id@;
            let due = settings.remind_deadline_arrived && has_due(rows, today, identities, id);
            let planned = settings.remind_untimed_today && has_untimed(
                rows,
                today,
                identities,
                id,
            );
            &&& groups.due_today.contains(i) <==> settings.remind_deadline_arrived && i
                < rows.len() && is_due(rows, today, identities, rows[i as int])
            &&& groups.untimed.contains(i) <==> settings.remind_untimed_today && i < rows.len()
                && is_untimed(rows, today, identities, rows[i as int]) && !due
            &&& groups.countdown.contains(i) <==> settings.remind_deadline_countdown && i
                < rows.len() && is_near(
                rows,
                today,
                identities,
                settings.deadline_countdown_days,
                rows[i as int],
            ) && !due && !planned
            &&& is_ascending(groups.due_today)
            &&& is_ascending(groups.untimed)
            &&& is_ascending(groups.countdown)
        }),
{
    let groups = reminders_for(rows, today, identities, settings);
    let general = settings.deadline_countdown_days;
    let none: Seq<usize> = Seq::empty();
    let id = rows[i as int].id@;
    let due = due_rows(rows, today, identities);
    let plain = untimed_rows(rows, today, identities);
    let near = countdown_rows(rows, today, identities, general);
    lemma_reminded(rows, today, identities, general, i);
    lemma_not_yet(rows, settings.remind_deadline_arrived, due, none, none, i);
    lemma_not_yet(rows, settings.remind_untimed_today, plain, groups.due_today, none, i);
    lemma_not_yet(
        rows,
        settings.remind_deadline_countdown,
        near,
        groups.due_today,
        groups.untimed,
        i,
    );
    assert(!has_id(rows, none, id));
    // What an id is reminded of elsewhere.
    if has_id(rows, groups.due_today, id) {
        let k = choose|k: int|
            0 <= k < groups.due_today.len() && rows[#[trigger] groups.due_today[k] as int].id@
                == id;
        let j = groups.due_today[k];
        assert(groups.due_today.contains(j));
        lemma_not_yet(rows, settings.remind_deadline_arrived, due, none, none, j);
        lemma_reminded(rows, today, identities, general, j);
        assert(rows[j as int].id@ == id);
        assert(has_due(rows, today, identities, id));
    }
    if settings.remind_deadline_arrived && has_due(rows, today, identities, id) {
        let j = choose|j: int|
            0 <= j < rows.len() && (#[trigger] rows[j]).id@ == id && is_due(
                rows,
                today,
                identities,
                rows[j],
            );
        lemma_reminded(rows, today, identities, general, j as usize);
        lemma_not_yet(rows, true, due, none, none, j as usize);
        assert(!has_id(rows, none, rows[j].id@));
        lemma_has_id(rows, groups.due_today, id, j as usize);
    }
    if has_id(rows, groups.untimed, id) {
        let k = choose|k: int|
            0 <= k < groups.untimed.len() && rows[#[trigger] groups.untimed[k] as int].id@ == id;
        let j = groups.untimed[k];
        assert(groups.untimed.contains(j));
        lemma_not_yet(rows, settings.remind_untimed_today, plain, groups.due_today, none, j);
        lemma_reminded(rows, today, identities, general, j);
        assert(rows[j as int].id@ == id);
        assert(has_untimed(rows, today, identities, id));
    }
    if settings.remind_untimed_today && has_untimed(rows, today, identities, id) && !has_id(
        rows,
        groups.due_today,
        id,
    ) {
        let j = choose|j: int|
            0 <= j < rows.len() && (#[trigger] rows[j]).id@ == id && is_untimed(
                rows,
                today,
                identities,
                rows[j],
            );
        lemma_reminded(rows, today, identities, general, j as usize);
        lemma_not_yet(rows, true, plain, groups.due_today, none, j as usize);
        assert(!has_id(rows, none, rows[j].id@));
        lemma_has_id(rows, groups.untimed, id, j as usize);
    }
}

proof fn lemma_not_yet(
    rows: Seq<DayStartTask>,
    on: bool,
    group: Seq<usize>,
    first: Seq<usize>,
    second: Seq<usize>,
    i: usize,
)
    requires
        is_ascending(group),
    ensures
        not_yet(rows, on, group, first, second).contains(i) <==> on && group.contains(i) && !has_id(
            rows,
            first,
            rows[i as int].id@,
        ) && !has_id(rows, second, rows[i as int].id@),
        is_ascending(not_yet(rows, on, group, first, second)),
{
    let keep = |i: usize|
        !has_id(rows, first, rows[i as int].id@) && !has_id(rows, second, rows[i as int].id@);
    if on {
        lemma_kept(group, keep, i);
        lemma_ascending(group, keep);
    }
}

// ---------------------------------------------------------------------------
// The morning
// ---------------------------------------------------------------------------

/// The settings that count for a list: the last given for it.
pub open spec fn is_set_at(
    lists: Seq<DayStartListSettings>,
    list_id: Seq<char>,
    k: int,
) -> bool {
    &&& 0 <= k < lists.len()
    &&& lists[k].list_id@ == list_id
    &&& forall|j: int| k < j < lists.len() ==> (#[trigger] lists[j]).list_id@ != list_id
}

/// A list's rows are carried this way: as its settings say, or by asking where
/// it has none.
pub open spec fn is_carried(
    lists: Seq<DayStartListSettings>,
    row: DayStartTask,
    how: CarryOverDefault,
) -> bool {
    ||| exists|k: int|
        #[trigger] is_set_at(lists, row.list_id@, k) && lists[k].carry_over_default == how
    ||| how is Ask && forall|k: int| !#[trigger] is_set_at(lists, row.list_id@, k)
}

/// A row is brought along by another, `root`: that is carried without asking, in
/// a list that couples, and the row stands below it, is to be done and not held
/// by others.
pub open spec fn brings(
    rows: Seq<DayStartTask>,
    identities: Seq<DayStartIdentity>,
    lists: Seq<DayStartListSettings>,
    root: int,
    row: int,
) -> bool {
    &&& 0 <= root < rows.len() && 0 <= row < rows.len()
    &&& exists|k: int|
        #[trigger] is_set_at(lists, rows[root].list_id@, k) && lists[k].cascade && !(
        lists[k].carry_over_default is Ask)
    &&& stands_below(rows, rows[root].id@, row)
    &&& rows[row].id@ != rows[root].id@
    &&& is_active(rows[row])
    &&& !is_held_by_others(identities, rows[row])
}

proof fn lemma_settings_at(lists: Seq<DayStartListSettings>, list_id: Seq<char>, n: int)
    requires
        0 <= n <= lists.len(),
        forall|j: int| n <= j < lists.len() ==> (#[trigger] lists[j]).list_id@ != list_id,
    ensures
        match settings_at(lists, list_id, n) {
            Some(k) => is_set_at(lists, list_id, k),
            None => forall|k: int| !#[trigger] is_set_at(lists, list_id, k),
        },
    decreases n,
{
    if n > 0 {
        if lists[n - 1].list_id@ != list_id {
            assert forall|j: int| n - 1 <= j < lists.len() implies (#[trigger] lists[j]).list_id@
                != list_id by {}
            lemma_settings_at(lists, list_id, n - 1);
        }
    } else {
        assert forall|k: int| !#[trigger] is_set_at(lists, list_id, k) by {
            if 0 <= k < lists.len() {
                assert(lists[k].list_id@ != list_id);
            }
        }
    }
}

proof fn lemma_one_setting(lists: Seq<DayStartListSettings>, list_id: Seq<char>, a: int, b: int)
    requires
        is_set_at(lists, list_id, a),
        is_set_at(lists, list_id, b),
    ensures
        a == b,
{
    if a < b {
        assert(lists[b].list_id@ != list_id);
    }
    if b < a {
        assert(lists[a].list_id@ != list_id);
    }
}

proof fn lemma_carried(
    lists: Seq<DayStartListSettings>,
    row: DayStartTask,
    how: CarryOverDefault,
)
    ensures
        carry(lists, row) == how <==> is_carried(lists, row, how),
{
    let list_id = row.list_id@;
    lemma_settings_at(lists, list_id, lists.len() as int);
    match settings_at(lists, list_id, lists.len() as int) {
        Some(k) => {
            if is_carried(lists, row, how) {
                if exists|j: int|
                    #[trigger] is_set_at(lists, list_id, j) && lists[j].carry_over_default
                        == how {
                    let j = choose|j: int|
                        #[trigger] is_set_at(lists, list_id, j) && lists[j].carry_over_default
                            == how;
                    lemma_one_setting(lists, list_id, j, k);
                }
            }
        },
        None => {},
    }
}

proof fn lemma_brings(
    rows: Seq<DayStartTask>,
    identities: Seq<DayStartIdentity>,
    lists: Seq<DayStartListSettings>,
    root: usize,
    i: usize,
)
    requires
        rows.len() <= usize::MAX,
        root < rows.len(),
    ensures
        brought(rows, identities, lists, root).contains(i) <==> brings(
            rows,
            identities,
            lists,
            root as int,
            i as int,
        ),
{
    let list_id = rows[root as int].list_id@;
    lemma_settings_at(lists, list_id, lists.len() as int);
    what_comes_along(rows, rows[root as int].id@, identities, i);
    if brings(rows, identities, lists, root as int, i as int) {
        let k = choose|k: int|
            #[trigger] is_set_at(lists, list_id, k) && lists[k].cascade && !(
            lists[k].carry_over_default is Ask);
        lemma_one_setting(
            lists,
            list_id,
            k,
            settings_at(lists, list_id, lists.len() as int)->0,
        );
    }
}

/// A row that slipped and is carried over stands in the part its list's setting
/// names, unless one of the rows carried over brings it along. All parts keep the
/// order of the rows.
pub proof fn each_slipped_row_goes_where_its_list_says(
    rows: Seq<DayStartTask>,
    identities: Seq<DayStartIdentity>,
    lists: Seq<DayStartListSettings>,
    slipped: Seq<usize>,
    how: CarryOverDefault,
    i: usize,
)
    requires
        rows.len() <= usize::MAX,
        is_ascending(slipped),
        forall|k: int| 0 <= k < slipped.len() ==> (#[trigger] slipped[k]) < rows.len(),
    ensures
        carried_as(rows, identities, lists, slipped, how).contains(i) <==> slipped.contains(i)
            && is_carried(lists, rows[i as int], how) && !exists|root: usize|
            #[trigger] slipped.contains(root) && brings(
                rows,
                identities,
                lists,
                root as int,
                i as int,
            ),
        is_ascending(carried_as(rows, identities, lists, slipped, how)),
{
    let keep = |i: usize|
        !is_taken(rows, identities, lists, slipped, i) && carry(
            lists,
            rows[i as int],
        ) == how;
    lemma_kept(slipped, keep, i);
    lemma_ascending(slipped, keep);
    lemma_carried(lists, rows[i as int], how);
    if is_taken(rows, identities, lists, slipped, i) {
        let k = choose|k: int|
            0 <= k < slipped.len() && brought(
                rows,
                identities,
                lists,
                #[trigger] slipped[k],
            ).contains(i);
        lemma_brings(rows, identities, lists, slipped[k], i);
        assert(slipped.contains(slipped[k]));
    }
    if exists|root: usize|
        #[trigger] slipped.contains(root) && brings(
            rows,
            identities,
            lists,
            root as int,
            i as int,
        ) {
        let root = choose|root: usize|
            #[trigger] slipped.contains(root) && brings(
                rows,
                identities,
                lists,
                root as int,
                i as int,
            );
        lemma_brings(rows, identities, lists, root, i);
        let k = choose|k: int| 0 <= k < slipped.len() && slipped[k] == root;
        assert(brought(rows, identities, lists, slipped[k]).contains(i));
    }
}

/// A row is one of the roots, or a root brings it along.
pub open spec fn is_root_or_brought(
    rows: Seq<DayStartTask>,
    identities: Seq<DayStartIdentity>,
    lists: Seq<DayStartListSettings>,
    roots: Seq<usize>,
    i: usize,
) -> bool {
    roots.contains(i) || exists|root: usize|
        #[trigger] roots.contains(root) && brings(rows, identities, lists, root as int, i as int)
}

proof fn lemma_slot(rows: Seq<DayStartTask>, out: Seq<usize>, id: Seq<char>, n: int)
    requires
        0 <= n <= out.len(),
    ensures
        match slot_of(rows, out, id, n) {
            Some(at) => 0 <= at < n && rows[out[at] as int].id@ == id,
            None => true,
        },
    decreases n,
{
    if n > 0 && rows[out[n - 1] as int].id@ != id {
        lemma_slot(rows, out, id, n - 1);
    }
}

proof fn lemma_placed(rows: Seq<DayStartTask>, out: Seq<usize>, i: usize)
    ensures
        forall|x: usize| #[trigger]
            placed(rows, out, i).contains(x) ==> out.contains(x) || x == i,
        has_id(rows, placed(rows, out, i), rows[i as int].id@),
        forall|id: Seq<char>| #[trigger]
            has_id(rows, out, id) ==> has_id(rows, placed(rows, out, i), id),
        placed(rows, out, i).contains(i),
{
    let r = placed(rows, out, i);
    let own = rows[i as int].id@;
    lemma_slot(rows, out, own, out.len() as int);
    assert forall|x: usize| #[trigger] r.contains(x) implies out.contains(x) || x == i by {
        let k = choose|k: int| 0 <= k < r.len() && r[k] == x;
        if k < out.len() && r[k] == out[k] {
            assert(out.contains(out[k]));
        }
    }
    let at = match slot_of(rows, out, own, out.len() as int) {
        Some(at) => at,
        None => out.len() as int,
    };
    assert(r[at] == i);
    assert(rows[r[at] as int].id@ == own);
    assert forall|id: Seq<char>| #[trigger] has_id(rows, out, id) implies has_id(rows, r, id) by {
        let k = choose|k: int| 0 <= k < out.len() && rows[#[trigger] out[k] as int].id@ == id;
        assert(rows[r[k] as int].id@ == id);
    }
}

proof fn lemma_placed_all(rows: Seq<DayStartTask>, out: Seq<usize>, items: Seq<usize>)
    ensures
        forall|x: usize| #[trigger]
            placed_all(rows, out, items).contains(x) ==> out.contains(x) || items.contains(x),
        forall|x: usize| #[trigger]
            items.contains(x) ==> has_id(rows, placed_all(rows, out, items), rows[x as int].id@),
        forall|id: Seq<char>| #[trigger]
            has_id(rows, out, id) ==> has_id(rows, placed_all(rows, out, items), id),
    decreases items.len(),
{
    if items.len() > 0 {
        let front = items.drop_last();
        let before = placed_all(rows, out, front);
        let r = placed_all(rows, out, items);
        lemma_placed_all(rows, out, front);
        lemma_placed(rows, before, items.last());
        assert(items[items.len() - 1] == items.last());
        assert forall|x: usize| #[trigger] r.contains(x) implies out.contains(x)
            || items.contains(x) by {
            if before.contains(x) && front.contains(x) {
                let k = choose|k: int| 0 <= k < front.len() && front[k] == x;
                assert(items[k] == x);
            }
        }
        assert forall|x: usize| #[trigger] items.contains(x) implies has_id(
            rows,
            r,
            rows[x as int].id@,
        ) by {
            let k = choose|k: int| 0 <= k < items.len() && items[k] == x;
            if k < front.len() {
                assert(front[k] == x);
                assert(front.contains(x));
                assert(has_id(rows, before, rows[x as int].id@));
            }
        }
        assert forall|id: Seq<char>| #[trigger] has_id(rows, out, id) implies has_id(
            rows,
            r,
            id,
        ) by {
            assert(has_id(rows, before, id));
        }
    }
}

/// What a batch writes: nothing but its roots and what they bring along, and an
/// id of each of these.
pub proof fn a_batch_writes_its_roots_and_what_they_bring(
    rows: Seq<DayStartTask>,
    identities: Seq<DayStartIdentity>,
    lists: Seq<DayStartListSettings>,
    roots: Seq<usize>,
    i: usize,
)
    requires
        rows.len() <= usize::MAX,
        forall|k: int| 0 <= k < roots.len() ==> (#[trigger] roots[k]) < rows.len(),
    ensures
        batch_targets(rows, identities, lists, roots).contains(i) ==> is_root_or_brought(
            rows,
            identities,
            lists,
            roots,
            i,
        ),
        is_root_or_brought(rows, identities, lists, roots, i) ==> has_id(
            rows,
            batch_targets(rows, identities, lists, roots),
            rows[i as int].id@,
        ),
    decreases roots.len(),
{
    if roots.len() > 0 {
        let front = roots.drop_last();
        let root = roots.last();
        assert forall|k: int| 0 <= k < front.len() implies (#[trigger] front[k]) < rows.len() by {
            assert(front[k] == roots[k]);
        }
        assert(roots[roots.len() - 1] == root);
        a_batch_writes_its_roots_and_what_they_bring(rows, identities, lists, front, i);
        let before = batch_targets(rows, identities, lists, front);
        let with_root = placed(rows, before, root);
        let along = brought(rows, identities, lists, root);
        let all = batch_targets(rows, identities, lists, roots);
        lemma_placed(rows, before, root);
        lemma_placed_all(rows, with_root, along);
        lemma_brings(rows, identities, lists, root, i);
        assert forall|x: usize| front.contains(x) implies #[trigger] roots.contains(x) by {
            let k = choose|k: int| 0 <= k < front.len() && front[k] == x;
            assert(roots[k] == x);
        }
        assert(roots.contains(root));
        if all.contains(i) {
            if along.contains(i) {
                assert(roots.contains(root) && brings(
                    rows,
                    identities,
                    lists,
                    root as int,
                    i as int,
                ));
            } else {
                assert(with_root.contains(i));
                if before.contains(i) {
                    if !front.contains(i) {
                        let r = choose|r: usize|
                            #[trigger] front.contains(r) && brings(
                                rows,
                                identities,
                                lists,
                                r as int,
                                i as int,
                            );
                        assert(roots.contains(r));
                    }
                }
            }
        }
        if is_root_or_brought(rows, identities, lists, roots, i) {
            let id = rows[i as int].id@;
            if is_root_or_brought(rows, identities, lists, front, i) {
                assert(has_id(rows, before, id));
                assert(has_id(rows, with_root, id));
            } else if roots.contains(i) {
                let k = choose|k: int| 0 <= k < roots.len() && roots[k] == i;
                if k < front.len() {
                    assert(front[k] == i);
                }
                assert(has_id(rows, with_root, id));
            } else {
                let r = choose|r: usize|
                    #[trigger] roots.contains(r) && brings(
                        rows,
                        identities,
                        lists,
                        r as int,
                        i as int,
                    );
                let k = choose|k: int| 0 <= k < roots.len() && roots[k] == r;
                if k < front.len() {
                    assert(front[k] == r);
                    assert(front.contains(r));
                }
                assert(along.contains(i));
            }
        }
    }
}

/// The morning is made of these parts, and what opens the review is counted:
/// what is overdue, what is asked about, and every reminder.
pub proof fn the_morning_counts_what_it_surfaces(
    rows: Seq<DayStartTask>,
    today: Seq<char>,
    identities: Seq<DayStartIdentity>,
    lists: Seq<DayStartListSettings>,
    settings: DayStartReminderSettings,
)
    ensures
        ({
            let m = morning(rows, today, identities, lists, settings);
            &&& m.overdue == overdue_rows(rows, today, identities)
            &&& m.reminders == reminders_for(rows, today, identities, settings)
            &&& m.surfaced == m.overdue.len() + m.ask.len() + m.reminders.untimed.len()
                + m.reminders.due_today.len() + m.reminders.countdown.len()
            &&& m.today_targets == batch_targets(rows, identities, lists, m.today)
            &&& m.backlog_targets == batch_targets(rows, identities, lists, m.backlog)
        }),
{
}

/// Which rows the morning asks about, carries to today and carries to the
/// backlog: those that slipped and are carried over, by their list's setting,
/// unless another of them brings them along.
pub proof fn the_morning_parts_what_slipped(
    rows: Seq<DayStartTask>,
    today: Seq<char>,
    identities: Seq<DayStartIdentity>,
    lists: Seq<DayStartListSettings>,
    settings: DayStartReminderSettings,
    i: usize,
)
    requires
        rows.len() <= usize::MAX,
    ensures
        ({
            let m = morning(rows, today, identities, lists, settings);
            let slipped = carried_rows(rows, today, identities, coupled_names(lists));
            let own = slipped.contains(i) && !exists|root: usize|
                #[trigger] slipped.contains(root) && brings(
                    rows,
                    identities,
                    lists,
                    root as int,
                    i as int,
                );
            &&& m.ask.contains(i) <==> own && is_carried(
                lists,
                rows[i as int],
                CarryOverDefault::Ask,
            )
            &&& m.today.contains(i) <==> own && is_carried(
                lists,
                rows[i as int],
                CarryOverDefault::Today,
            )
            &&& m.backlog.contains(i) <==> own && is_carried(
                lists,
                rows[i as int],
                CarryOverDefault::Backlog,
            )
        }),
{
    let coupled = coupled_names(lists);
    let slipped = carried_rows(rows, today, identities, coupled);
    what_is_carried_over(rows, today, identities, coupled, i);
    assert forall|k: int| 0 <= k < slipped.len() implies (#[trigger] slipped[k]) < rows.len() by {
        assert(slipped.contains(slipped[k]));
        what_is_carried_over(rows, today, identities, coupled, slipped[k]);
    }
    each_slipped_row_goes_where_its_list_says(
        rows,
        identities,
        lists,
        slipped,
        CarryOverDefault::Ask,
        i,
    );
    each_slipped_row_goes_where_its_list_says(
        rows,
        identities,
        lists,
        slipped,
        CarryOverDefault::Today,
        i,
    );
    each_slipped_row_goes_where_its_list_says(
        rows,
        identities,
        lists,
        slipped,
        CarryOverDefault::Backlog,
        i,
    );
}

/// The lists that couple are those that say so.
pub proof fn a_list_that_says_so_couples(lists: Seq<DayStartListSettings>, name: Seq<char>)
    ensures
        coupled_names(lists).contains(name) <==> exists|k: int|
            0 <= k < lists.len() && (#[trigger] lists[k]).cascade && lists[k].list_id@ == name,
    decreases lists.len(),
{
    if lists.len() > 0 {
        let front = lists.drop_last();
        let before = coupled_names(front);
        let all = coupled_names(lists);
        a_list_that_says_so_couples(front, name);
        if all.contains(name) {
            let k = choose|k: int| 0 <= k < all.len() && all[k] == name;
            if k < before.len() {
                assert(before[k] == name);
                assert(before.contains(name));
                let j = choose|j: int|
                    0 <= j < front.len() && (#[trigger] front[j]).cascade && front[j].list_id@
                        == name;
                assert(lists[j] == front[j]);
            } else {
                assert(lists[lists.len() - 1].cascade);
            }
        }
        if exists|k: int|
            0 <= k < lists.len() && (#[trigger] lists[k]).cascade && lists[k].list_id@ == name {
            let k = choose|k: int|
                0 <= k < lists.len() && (#[trigger] lists[k]).cascade && lists[k].list_id@ == name;
            if k < front.len() {
                assert(front[k] == lists[k]);
                assert(before.contains(name));
                let j = choose|j: int| 0 <= j < before.len() && before[j] == name;
                assert(all[j] == name);
            } else {
                assert(all[before.len() as int] == name);
            }
        }
    }
}

// ---------------------------------------------------------------------------
// The trigger
// ---------------------------------------------------------------------------

/// A trigger that names a time of day: hours of one or two digits, a colon, and
/// minutes of two.
pub open spec fn is_clock(trigger: Seq<char>, hours: Seq<char>, minutes: Seq<char>) -> bool {
    &&& trigger == hours + seq![':'] + minutes
    &&& 1 <= hours.len() <= 2
    &&& minutes.len() == 2
    &&& all_digits(hours)
    &&& all_digits(minutes)
    &&& digits_value(hours) <= 23
    &&& digits_value(minutes) <= 59
}

proof fn lemma_trigger_time(trigger: Seq<char>, hours: Seq<char>, minutes: Seq<char>)
    requires
        trigger == hours + seq![':'] + minutes,
        1 <= hours.len() <= 2,
        minutes.len() == 2,
        all_digits(hours),
        all_digits(minutes),
    ensures
        trigger_time(trigger) == Some((digits_value(hours), digits_value(minutes))),
{
    lemma_first_index(trigger, ':');
    let n = hours.len() as int;
    assert(trigger[n] == ':');
    let at = first_index(trigger, ':')->0;
    if at < n {
        assert(trigger[at] == hours[at]);
        assert(is_digit(hours[at]));
    }
    if at > n {
        assert(trigger[n] != ':');
    }
    assert(trigger.take(n) =~= hours);
    assert(trigger.skip(n + 1) =~= minutes);
}

/// The app's start fires once, ever. A time of day fires once a day, when the
/// clock has reached it. Any other trigger fires once a day, at once.
pub proof fn a_trigger_fires_in_its_time(
    trigger: Seq<char>,
    last_fired: Option<Seq<char>>,
    today: Seq<char>,
    now_hour: u32,
    now_minute: u32,
)
    requires
        now_minute <= 59,
    ensures
        ({
            let now = fires(trigger, last_fired, today, now_hour, now_minute);
            &&& trigger == "app-start"@ ==> (now <==> last_fired is None)
            &&& trigger != "app-start"@ && last_fired == Some(today) ==> !now
            &&& trigger != "app-start"@ && last_fired != Some(today) ==> (!now <==> exists|
                hours: Seq<char>,
                minutes: Seq<char>,
            |
                #[trigger] is_clock(trigger, hours, minutes) && 60 * now_hour + now_minute < 60
                    * digits_value(hours) + digits_value(minutes))
        }),
{
    if trigger != "app-start"@ && last_fired != Some(today) {
        let now = fires(trigger, last_fired, today, now_hour, now_minute);
        if !now {
            let (h, m) = split_first(trigger, ':')->0;
            lemma_first_index(trigger, ':');
            assert(trigger =~= h + seq![':'] + m);
            assert(is_clock(trigger, h, m));
        }
        if exists|hours: Seq<char>, minutes: Seq<char>|
            #[trigger] is_clock(trigger, hours, minutes) && 60 * now_hour + now_minute < 60
                * digits_value(hours) + digits_value(minutes) {
            let (h, m) = choose|hours: Seq<char>, minutes: Seq<char>|
                #[trigger] is_clock(trigger, hours, minutes) && 60 * now_hour + now_minute < 60
                    * digits_value(hours) + digits_value(minutes);
            lemma_trigger_time(trigger, h, m);
        }
    }
}

proof fn lemma_met_grows(rows: Seq<DayStartTask>, walk: Descent, left: nat)
    ensures
        walk.met.is_prefix_of(descended(rows, walk, left).met),
    decreases left,
{
    if walk.stack.len() > 0 {
        let children = children_of(rows, walk.stack.last(), rows.len() as int);
        lemma_noting_meets_nothing(
            rows,
            Descent { stack: walk.stack.drop_last(), seen: walk.seen, met: walk.met + children },
            children,
        );
        assert(stepped(rows, walk).met == walk.met + children);
        if left > 0 {
            lemma_met_grows(rows, stepped(rows, walk), (left - 1) as nat);
        }
    }
}

proof fn lemma_noting_meets_nothing(
    rows: Seq<DayStartTask>,
    walk: Descent,
    children: Seq<usize>,
)
    ensures
        noted_all(rows, walk, children).met == walk.met,
    decreases children.len(),
{
    if children.len() > 0 {
        lemma_noting_meets_nothing(rows, walk, children.drop_last());
    }
}

/// The children of a root come first among what is below it, in the order of the
/// rows.
pub proof fn a_roots_own_children_come_first(rows: Seq<DayStartTask>, root: Seq<char>)
    ensures
        children_of(rows, root, rows.len() as int).is_prefix_of(below_in_order(rows, root)),
{
    let start = at_root(root);
    let children = children_of(rows, root, rows.len() as int);
    assert(start.stack.last() == root);
    lemma_noting_meets_nothing(
        rows,
        Descent { stack: start.stack.drop_last(), seen: start.seen, met: start.met + children },
        children,
    );
    assert(stepped(rows, start).met =~= children);
    if rows.len() > 0 {
        lemma_met_grows(rows, stepped(rows, start), (rows.len() - 1) as nat);
    }
}

} // verus!
