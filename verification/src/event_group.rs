//! Which events mean the same appointment.
//!
//! A group is a statement ABOUT foreign data: these events, in different
//! calendars and belonging to different providers, are one commitment.

use vstd::prelude::*;

use crate::text::{
    chars_of, is_blank, joined, lemma_trimmed_ends, lemma_trimmed_same, lowercased, push_char,
    to_lowercase, trim, trimmed, trimmed_back, trimmed_front, Blank,
};

verus! {

/// A text with each gap between its words made one space, and whether it ends
/// in a gap.
pub open spec fn squeezed(s: Seq<char>) -> (Seq<char>, bool)
    decreases s.len(),
{
    if s.len() == 0 {
        (Seq::empty(), false)
    } else {
        let (out, gap) = squeezed(s.drop_last());
        if Blank::Unicode.holds(s.last()) {
            (out, true)
        } else if gap {
            (out.push(' ').push(s.last()), false)
        } else {
            (out.push(s.last()), false)
        }
    }
}

/// A title without padding and with single spaces between its words.
pub open spec fn collapsed(title: Seq<char>) -> Seq<char> {
    squeezed(trimmed(title, Blank::Unicode)).0
}

/// Two titles that a person would call the same have the same of these.
pub open spec fn title_key(title: Seq<char>) -> Seq<char> {
    lowercased(collapsed(title))
}

/// A title without padding and with single spaces between its words.
pub fn collapse(title: &str) -> (r: String)
    ensures
        r@ == collapsed(title@),
{
    let s = chars_of(trim(title, Blank::Unicode).as_str());
    let mut out: String = String::new();
    let mut gap = false;
    let mut i: usize = 0;
    while i < s.len()
        invariant
            i <= s.len(),
            squeezed(s@.take(i as int)) == (out@, gap),
        decreases s.len() - i,
    {
        assert(s@.take(i as int + 1).drop_last() =~= s@.take(i as int));
        let c = s[i];
        if Blank::Unicode.is(c) {
            gap = true;
        } else {
            if gap {
                push_char(&mut out, ' ');
                gap = false;
            }
            push_char(&mut out, c);
        }
        i = i + 1;
    }
    assert(s@.take(i as int) =~= s@);
    out
}

/// Two titles that a person would call the same one.
///
/// Case, padding and the WIDTH of the gaps between words are all noise. A gap
/// is Unicode `White_Space`, and lower-casing is applied to the whole collapsed
/// string, because a final Greek sigma depends on what follows it.
pub fn normalized_title(title: &str) -> (r: String)
    ensures
        r@ == title_key(title@),
{
    to_lowercase(collapse(title).as_str())
}

/// A text that holds no white space but single spaces between words.
pub open spec fn is_tidy(s: Seq<char>) -> bool {
    &&& forall|i: int|
        0 <= i < s.len() && Blank::Unicode.holds(#[trigger] s[i]) ==> s[i] == ' ' && i > 0 && i + 1
            < s.len() && !Blank::Unicode.holds(s[i + 1])
}

proof fn lemma_squeezed_tidy(s: Seq<char>)
    requires
        s.len() > 0 ==> !Blank::Unicode.holds(s[0]),
    ensures
        is_tidy(squeezed(s).0),
        s.len() > 0 ==> squeezed(s).0.len() > 0 && !Blank::Unicode.holds(squeezed(s).0[0]),
        squeezed(s).0.len() > 0 ==> !Blank::Unicode.holds(squeezed(s).0.last()),
    decreases s.len(),
{
    if s.len() > 0 {
        let front = s.drop_last();
        if front.len() > 0 {
            assert(front[0] == s[0]);
        }
        lemma_squeezed_tidy(front);
        let (out, gap) = squeezed(front);
        let now = squeezed(s).0;
        if front.len() == 0 {
            assert(now =~= seq![s[0]]);
        } else {
            assert forall|i: int|
                0 <= i < now.len() && Blank::Unicode.holds(#[trigger] now[i]) implies now[i] == ' '
                && i > 0 && i + 1 < now.len() && !Blank::Unicode.holds(now[i + 1]) by {
                if i < out.len() {
                    assert(now[i] == out[i]);
                    assert(out[i + 1] == now[i + 1]);
                }
            }
        }
    }
}

proof fn lemma_tidy_squeezed(s: Seq<char>, n: int)
    requires
        is_tidy(s),
        0 <= n <= s.len(),
    ensures
        squeezed(s.take(n)) == if n > 0 && Blank::Unicode.holds(s[n - 1]) {
            (s.take(n - 1), true)
        } else {
            (s.take(n), false)
        },
    decreases n,
{
    if n > 0 {
        lemma_tidy_squeezed(s, n - 1);
        assert(s.take(n).drop_last() =~= s.take(n - 1));
        if Blank::Unicode.holds(s[n - 1]) {
            if n > 1 && Blank::Unicode.holds(s[n - 2]) {
                assert(!Blank::Unicode.holds(s[n - 2 + 1]));
            }
        } else if n > 1 && Blank::Unicode.holds(s[n - 2]) {
            assert(s[n - 2] == ' ');
            assert(s.take(n - 2).push(' ').push(s[n - 1]) =~= s.take(n));
        } else {
            assert(s.take(n - 1).push(s[n - 1]) =~= s.take(n));
        }
    } else {
        assert(s.take(0) =~= Seq::empty());
    }
}

/// The words of a text: what stands between its gaps.
pub open spec fn words(s: Seq<char>) -> Seq<Seq<char>>
    decreases s.len(),
{
    if s.len() == 0 {
        Seq::empty()
    } else {
        let before = words(s.drop_last());
        if Blank::Unicode.holds(s.last()) {
            before
        } else if s.len() > 1 && !Blank::Unicode.holds(s[s.len() - 2]) {
            before.drop_last().push(before.last().push(s.last()))
        } else {
            before.push(seq![s.last()])
        }
    }
}

proof fn lemma_words_some(s: Seq<char>)
    requires
        s.len() > 0,
        !Blank::Unicode.holds(s[0]) || !Blank::Unicode.holds(s.last()),
    ensures
        words(s).len() > 0,
    decreases s.len(),
{
    if s.len() > 1 {
        let front = s.drop_last();
        assert(front[0] == s[0]);
        assert(front.last() == s[s.len() - 2]);
        if !Blank::Unicode.holds(s[0]) {
            lemma_words_some(front);
        }
    } else {
        assert(s.drop_last() =~= Seq::empty());
    }
}

/// Where a gap stands between two texts, their words are those of both.
proof fn lemma_words_apart(a: Seq<char>, b: Seq<char>)
    requires
        a.len() == 0 || b.len() == 0 || Blank::Unicode.holds(a.last()) || Blank::Unicode.holds(b[0]),
    ensures
        words(a + b) == words(a) + words(b),
    decreases b.len(),
{
    let all = a + b;
    if b.len() == 0 {
        assert(all =~= a);
        assert(words(a) + words(b) =~= words(a));
    } else if a.len() == 0 {
        assert(all =~= b);
        assert(words(a) + words(b) =~= words(b));
    } else {
        let front = b.drop_last();
        assert(all.drop_last() =~= a + front);
        if front.len() > 0 {
            assert(front[0] == b[0]);
        }
        lemma_words_apart(a, front);
        let c = b.last();
        assert(all.last() == c);
        if !Blank::Unicode.holds(c) {
            if b.len() > 1 && !Blank::Unicode.holds(b[b.len() - 2]) {
                assert(front.last() == b[b.len() - 2]);
                lemma_words_some(front);
                let before = words(front);
                assert((words(a) + before).drop_last().push((words(a) + before).last().push(c))
                    =~= words(a) + before.drop_last().push(before.last().push(c)));
            } else {
                assert(words(a) + words(front).push(seq![c]) =~= (words(a) + words(front)).push(
                    seq![c],
                ));
                assert(all[all.len() - 2] == if b.len() > 1 {
                    b[b.len() - 2]
                } else {
                    a.last()
                });
            }
        }
    }
}

proof fn lemma_no_words(gap: Seq<char>)
    requires
        is_blank(gap, Blank::Unicode),
    ensures
        words(gap) == Seq::<Seq<char>>::empty(),
    decreases gap.len(),
{
    if gap.len() > 0 {
        let front = gap.drop_last();
        assert forall|i: int| 0 <= i < front.len() implies Blank::Unicode.holds(
            #[trigger] front[i],
        ) by {
            assert(gap[i] == front[i]);
        }
        assert(Blank::Unicode.holds(gap[gap.len() - 1]));
        lemma_no_words(front);
    }
}

proof fn lemma_trimmed_words(s: Seq<char>)
    ensures
        words(trimmed_front(s, Blank::Unicode)) == words(s),
        words(trimmed_back(s, Blank::Unicode)) == words(s),
    decreases s.len(),
{
    if s.len() > 0 {
        if Blank::Unicode.holds(s[0]) {
            let head = seq![s[0]];
            assert(s =~= head + s.skip(1));
            lemma_words_apart(head, s.skip(1));
            lemma_no_words(head);
            assert(words(head) + words(s.skip(1)) =~= words(s.skip(1)));
            lemma_trimmed_words(s.skip(1));
        }
        if Blank::Unicode.holds(s.last()) {
            lemma_trimmed_words(s.drop_last());
        }
    }
}

proof fn lemma_squeezed_words(s: Seq<char>)
    requires
        s.len() > 0 ==> !Blank::Unicode.holds(s[0]),
    ensures
        squeezed(s).0 == joined(words(s), seq![' ']),
        s.len() > 0 ==> squeezed(s).1 == Blank::Unicode.holds(s.last()),
    decreases s.len(),
{
    if s.len() > 0 {
        let front = s.drop_last();
        let c = s.last();
        if front.len() == 0 {
            assert(front =~= Seq::empty());
            assert(words(front) =~= Seq::empty());
            assert(squeezed(front).0 =~= Seq::empty());
            assert(s[0] == c);
            assert(words(s) =~= seq![seq![c]]);
            assert(squeezed(s).0 =~= seq![c]);
        } else {
            assert(front[0] == s[0]);
            assert(front.last() == s[s.len() - 2]);
            lemma_squeezed_words(front);
            lemma_words_some(front);
            let before = words(front);
            let now = words(s);
            if Blank::Unicode.holds(c) {
            } else if Blank::Unicode.holds(front.last()) {
                assert(now.drop_last() =~= before);
                assert(joined(now, seq![' ']) =~= joined(before, seq![' ']).push(' ').push(c));
            } else {
                assert(now.drop_last() =~= before.drop_last());
                assert(joined(now, seq![' ']) =~= joined(before, seq![' ']).push(c));
            }
        }
    } else {
        assert(squeezed(s).0 =~= Seq::empty());
    }
}

/// A collapsed title is its words with one space between them: it holds no
/// white space but single spaces between words.
pub proof fn a_collapsed_title_is_its_words(title: Seq<char>)
    ensures
        collapsed(title) == joined(words(title), seq![' ']),
        is_tidy(collapsed(title)),
{
    let t = trimmed(title, Blank::Unicode);
    lemma_trimmed_ends(title, Blank::Unicode);
    lemma_squeezed_tidy(t);
    lemma_squeezed_words(t);
    lemma_trimmed_words(title);
    lemma_trimmed_words(trimmed_front(title, Blank::Unicode));
}

/// Padding, and the width and the kind of the gaps between words, never change
/// what a title is known by: white space around it does not count, and neither
/// does the white space that stands in place of a gap. Two titles of the same
/// words are the same.
pub proof fn gaps_and_padding_do_not_count(
    title: Seq<char>,
    left: Seq<char>,
    right: Seq<char>,
    gap: Seq<char>,
    other: Seq<char>,
)
    requires
        is_blank(gap, Blank::Unicode),
        is_blank(other, Blank::Unicode),
    ensures
        title_key(gap + title + other) == title_key(title),
        gap.len() > 0 && other.len() > 0 ==> title_key(left + gap + right) == title_key(
            left + other + right,
        ),
        words(left) == words(right) ==> title_key(left) == title_key(right),
{
    lemma_no_words(gap);
    lemma_no_words(other);
    let none = Seq::<Seq<char>>::empty();
    if gap.len() > 0 {
        assert(Blank::Unicode.holds(gap[gap.len() - 1]));
        assert(Blank::Unicode.holds(gap[0]));
    }
    if other.len() > 0 {
        assert(Blank::Unicode.holds(other[other.len() - 1]));
        assert(Blank::Unicode.holds(other[0]));
    }
    lemma_words_apart(gap, title);
    lemma_words_apart(gap + title, other);
    assert(none + words(title) + none =~= words(title));
    a_collapsed_title_is_its_words(gap + title + other);
    a_collapsed_title_is_its_words(title);
    if gap.len() > 0 && other.len() > 0 {
        lemma_words_apart(left, gap);
        lemma_words_apart(left, other);
        assert((left + gap).last() == gap.last());
        assert((left + other).last() == other.last());
        lemma_words_apart(left + gap, right);
        lemma_words_apart(left + other, right);
        a_collapsed_title_is_its_words(left + gap + right);
        a_collapsed_title_is_its_words(left + other + right);
    }
    a_collapsed_title_is_its_words(left);
    a_collapsed_title_is_its_words(right);
}

/// A tidy text is its own collapsed form.
proof fn lemma_tidy_stays(s: Seq<char>)
    requires
        is_tidy(s),
    ensures
        collapsed(s) == s,
{
    if s.len() > 0 {
        assert(!Blank::Unicode.holds(s[0]));
        assert(!Blank::Unicode.holds(s[s.len() - 1]));
    }
    lemma_trimmed_same(s, Blank::Unicode);
    lemma_tidy_squeezed(s, s.len() as int);
    assert(s.take(s.len() as int) =~= s);
}

/// Collapsing an already collapsed title changes nothing.
pub proof fn collapsing_twice_changes_nothing(title: Seq<char>)
    ensures
        collapsed(collapsed(title)) == collapsed(title),
{
    a_collapsed_title_is_its_words(title);
    lemma_tidy_stays(collapsed(title));
}

/// Normalizing an already normalized title changes nothing either, where
/// lower-casing touched no white space of it and has nothing more to do.
pub proof fn normalizing_again_is_lower_casing_again(title: Seq<char>)
    requires
        is_tidy(title_key(title)),
    ensures
        title_key(title_key(title)) == lowercased(title_key(title)),
        lowercased(title_key(title)) == title_key(title) ==> title_key(title_key(title))
            == title_key(title),
{
    lemma_tidy_stays(title_key(title));
}

/// One event's membership in a group.
#[derive(Debug, Clone, PartialEq, Eq)]
pub struct EventGroupMember {
    pub calendar_id: String,
    /// Series master id: a recurring appointment is grouped as a series.
    pub event_id: String,
    /// The title it had when it joined. Half of the SIGNATURE, and never
    /// shown.
    pub title: String,
    /// The start it had when it joined. The other half.
    pub starts_at: String,
    pub added_at: String,
}

/// A set of events that mean one appointment.
#[derive(Debug, Clone, PartialEq, Eq)]
pub struct EventGroup {
    pub id: String,
    pub created_at: String,
    pub updated_at: String,
    /// The whole membership, always.
    pub members: Vec<EventGroupMember>,
}

/// An event as a group knows it: its calendar and its series.
pub struct EventKey {
    pub calendar: Seq<char>,
    pub event: Seq<char>,
}

impl EventGroupMember {
    /// The member's calendar and series.
    pub open spec fn key(self) -> EventKey {
        EventKey { calendar: self.calendar_id@, event: self.event_id@ }
    }
}

impl EventGroup {
    /// The event is a member.
    pub open spec fn holds(self, key: EventKey) -> bool {
        exists|i: int| 0 <= i < self.members@.len() && (#[trigger] self.members@[i]).key() == key
    }

    /// Whether the event is a member.
    pub fn has_member(&self, calendar_id: &str, event_id: &str) -> (r: bool)
        ensures
            r == self.holds((EventKey { calendar: calendar_id@, event: event_id@ })),
    {
        let ghost wanted = EventKey { calendar: calendar_id@, event: event_id@ };
        let mut i: usize = 0;
        while i < self.members.len()
            invariant
                i <= self.members.len(),
                wanted == (EventKey { calendar: calendar_id@, event: event_id@ }),
                forall|j: int| 0 <= j < i ==> (#[trigger] self.members@[j]).key() != wanted,
            decreases self.members.len() - i,
        {
            if crate::text::same(self.members[i].calendar_id.as_str(), calendar_id)
                && crate::text::same(self.members[i].event_id.as_str(), event_id) {
                assert(self.members@[i as int].key() == wanted);
                return true;
            }
            i = i + 1;
        }
        false
    }
}

/// The event is a member of one of the groups.
pub open spec fn is_grouped(groups: Seq<EventGroup>, key: EventKey) -> bool {
    exists|i: int| 0 <= i < groups.len() && (#[trigger] groups[i]).holds(key)
}

/// The last group an event is a member of.
pub open spec fn group_of(groups: Seq<EventGroup>, key: EventKey) -> Option<int>
    decreases groups.len(),
{
    if groups.len() == 0 {
        None
    } else if groups.last().holds(key) {
        Some(groups.len() - 1)
    } else {
        group_of(groups.drop_last(), key)
    }
}

pub proof fn lemma_group_of(groups: Seq<EventGroup>, key: EventKey)
    ensures
        group_of(groups, key) is Some <==> is_grouped(groups, key),
        group_of(groups, key) matches Some(k) ==> 0 <= k < groups.len() && groups[k].holds(key),
    decreases groups.len(),
{
    if groups.len() > 0 && !groups.last().holds(key) {
        let front = groups.drop_last();
        lemma_group_of(front, key);
        if is_grouped(groups, key) {
            let i = choose|i: int| 0 <= i < groups.len() && (#[trigger] groups[i]).holds(key);
            assert(front[i].holds(key));
        }
        if is_grouped(front, key) {
            let i = choose|i: int| 0 <= i < front.len() && (#[trigger] front[i]).holds(key);
            assert(groups[i].holds(key));
        }
    } else if groups.len() > 0 {
        assert(groups[groups.len() - 1].holds(key));
    }
}

/// Finds the last group an event is a member of.
pub fn find_group(groups: &[EventGroup], calendar_id: &str, event_id: &str) -> (r: Option<usize>)
    ensures
        match r {
            Some(k) => group_of(
                groups@,
                (EventKey { calendar: calendar_id@, event: event_id@ }),
            ) == Some(k as int) && k < groups@.len(),
            None => group_of(
                groups@,
                (EventKey { calendar: calendar_id@, event: event_id@ }),
            ) is None,
        },
{
    let ghost key = EventKey { calendar: calendar_id@, event: event_id@ };
    let mut n: usize = groups.len();
    assert(groups@.take(n as int) =~= groups@);
    while n > 0
        invariant
            n <= groups@.len(),
            key == (EventKey { calendar: calendar_id@, event: event_id@ }),
            group_of(groups@, key) == group_of(groups@.take(n as int), key),
        decreases n,
    {
        assert(groups@.take(n as int).last() == groups@[n - 1]);
        assert(groups@.take(n as int).drop_last() =~= groups@.take(n - 1));
        if groups[n - 1].has_member(calendar_id, event_id) {
            return Some(n - 1);
        }
        n = n - 1;
    }
    None
}

/// An event belongs to the last group it is a member of.
pub proof fn the_last_group_counts(groups: Seq<EventGroup>, key: EventKey)
    ensures
        match group_of(groups, key) {
            Some(k) => 0 <= k < groups.len() && groups[k].holds(key) && forall|j: int|
                k < j < groups.len() ==> !(#[trigger] groups[j]).holds(key),
            None => forall|j: int| 0 <= j < groups.len() ==> !(#[trigger] groups[j]).holds(key),
        },
    decreases groups.len(),
{
    if groups.len() > 0 {
        let front = groups.drop_last();
        assert(groups[groups.len() - 1] == groups.last());
        if !groups.last().holds(key) {
            the_last_group_counts(front, key);
            assert forall|j: int| 0 <= j < front.len() implies #[trigger] groups[j] == front[j] by {}
        }
    }
}

} // verus!
