//! The clock a series repeats on, read from the zone name it stores.
//!
//! A recurring event stores the IANA zone of its start, or none. With a zone it
//! repeats on that zone's wall clock, so 09:00 stays 09:00 across a clock
//! change; without one it repeats on UTC.
//!
//! - A name counts only if tzdata knows it, ignoring ASCII case and nothing
//!   else. `europe/berlin` is Berlin; ` Europe/Berlin `, a Windows name and an
//!   offset such as `+05:30` are not zones, and such a series repeats on UTC
//!   everywhere.
//! - The names tzdata gives UTC (`Etc/UTC`, `Etc/GMT` and every link to either)
//!   are no zone either. `Etc/GMT+8` is a zone.
//!
//! The names themselves are data: a [`ZoneTable`] holds those of one tzdata
//! release, and is only built from names the lookups can rely on.

use vstd::prelude::*;

use crate::text::{
    ascii_lower, contains_char, has_prefix, lemma_precedes_total, lemma_precedes_transitive,
    lemma_texts_push, lowercase, optional_str, precedes, same, starts_with, text_before, texts,
};

verus! {

/// What kind of tzdata name an entry of the table is: a zone, or a link and
/// the reason tzdata keeps it.
#[derive(Debug, Clone, Copy, PartialEq, Eq, Structural)]
pub enum NameKind {
    /// A zone of its own.
    Zone,
    /// A pre-1993 naming convention: `US/Eastern`, `EST5EDT`.
    Pre1993,
    /// A two-part name renamed to three parts in 1995: `America/Buenos_Aires`.
    Renamed1995,
    /// A place tzdata merged into another whose clocks have agreed since 1970,
    /// and which had a zone.tab line of its own: `Europe/Oslo`.
    MergedZoneTab,
    /// A merged place without a zone.tab line: `America/Montreal`.
    MergedNonZoneTab,
    /// Another name for the same place: `Europe/Kiev`, `Asia/Calcutta`.
    Alternate,
    /// A UTC alias from `etcetera`: `GMT`.
    Etcetera,
}

/// A tzdata name, the zone it resolves to, and its kind.
#[derive(Debug, Clone, PartialEq, Eq)]
pub struct ZoneName {
    pub name: String,
    pub target: String,
    pub kind: NameKind,
}

/// What a [`ZoneName`] holds.
pub struct ZoneText {
    pub name: Seq<char>,
    pub target: Seq<char>,
    pub kind: NameKind,
}

impl View for ZoneName {
    type V = ZoneText;

    open spec fn view(&self) -> ZoneText {
        ZoneText { name: self.name@, target: self.target@, kind: self.kind }
    }
}

/// What a list of names holds.
pub open spec fn zone_texts(list: Seq<ZoneName>) -> Seq<ZoneText> {
    Seq::new(list.len(), |i: int| list[i]@)
}

/// The place of the entry a name stands for among the first `n`, with ASCII
/// case folded.
pub open spec fn entry_place(names: Seq<ZoneText>, name: Seq<char>, n: int) -> Option<int>
    decreases n,
{
    if n <= 0 {
        None
    } else if lowercase(names[n - 1].name) == lowercase(name) {
        Some(n - 1)
    } else {
        entry_place(names, name, n - 1)
    }
}

/// The zone a name resolves to.
pub open spec fn resolved(names: Seq<ZoneText>, name: Seq<char>) -> Option<Seq<char>> {
    match entry_place(names, name, names.len() as int) {
        Some(k) => Some(names[k].target),
        None => None,
    }
}

/// The names are sorted with ASCII case folded, each of them once.
pub open spec fn is_sorted(names: Seq<ZoneText>) -> bool {
    forall|i: int, j: int|
        0 <= i < j < names.len() ==> precedes(
            lowercase((#[trigger] names[i]).name),
            lowercase((#[trigger] names[j]).name),
        )
}

/// Every name resolves to a zone that resolves to itself.
pub open spec fn is_closed(names: Seq<ZoneText>) -> bool {
    forall|i: int|
        0 <= i < names.len() ==> resolved(names, (#[trigger] names[i]).target) == Some(
            names[i].target,
        )
}

/// Every zone is itself, and every link has a reason.
pub open spec fn is_sorted_out(names: Seq<ZoneText>) -> bool {
    forall|i: int|
        0 <= i < names.len() ==> ((#[trigger] names[i]).name == names[i].target)
            == (names[i].kind is Zone)
}

/// What the lookups rely on.
pub open spec fn is_a_table(names: Seq<ZoneText>) -> bool {
    is_sorted(names) && is_closed(names) && is_sorted_out(names)
}

/// The zone names of one tzdata release.
#[derive(Debug)]
pub struct ZoneTable {
    names: Vec<ZoneName>,
}

impl View for ZoneTable {
    type V = Seq<ZoneText>;

    closed spec fn view(&self) -> Seq<ZoneText> {
        zone_texts(self.names@)
    }
}

fn folded_before(a: &str, b: &str) -> (r: bool)
    ensures
        r == precedes(lowercase(a@), lowercase(b@)),
{
    text_before(ascii_lower(a).as_str(), ascii_lower(b).as_str())
}

fn find_place(names: &[ZoneName], name: &str) -> (r: Option<usize>)
    requires
        is_sorted(zone_texts(names@)),
    ensures
        match r {
            Some(k) => k < names@.len() && entry_place(
                zone_texts(names@),
                name@,
                names@.len() as int,
            ) == Some(k as int),
            None => entry_place(zone_texts(names@), name@, names@.len() as int) is None,
        },
{
    let ghost all = zone_texts(names@);
    let ghost key = lowercase(name@);
    let mut low: usize = 0;
    let mut high: usize = names.len();
    while low < high
        invariant
            low <= high <= names@.len(),
            all == zone_texts(names@),
            all.len() == names@.len(),
            key == lowercase(name@),
            is_sorted(all),
            forall|i: int| 0 <= i < low ==> lowercase((#[trigger] all[i]).name) != key,
            forall|i: int| high <= i < all.len() ==> lowercase((#[trigger] all[i]).name) != key,
        decreases high - low,
    {
        let mid: usize = low + (high - low) / 2;
        let ghost here = lowercase(all[mid as int].name);
        assert(all[mid as int] == names@[mid as int]@);
        if folded_before(names[mid].name.as_str(), name) {
            assert forall|i: int| 0 <= i <= mid implies lowercase((#[trigger] all[i]).name)
                != key by {
                lemma_precedes_total(here, key);
                if i < mid {
                    lemma_precedes_transitive(lowercase(all[i].name), here, key);
                    lemma_precedes_total(lowercase(all[i].name), key);
                }
            }
            low = mid + 1;
        } else if folded_before(name, names[mid].name.as_str()) {
            assert forall|i: int| mid <= i < all.len() implies lowercase((#[trigger] all[i]).name)
                != key by {
                lemma_precedes_total(key, here);
                if mid < i {
                    lemma_precedes_transitive(key, here, lowercase(all[i].name));
                    lemma_precedes_total(key, lowercase(all[i].name));
                }
            }
            high = mid;
        } else {
            proof {
                lemma_precedes_total(here, key);
                lemma_entry_place(all, name@, mid as int);
            }
            return Some(mid);
        }
    }
    proof {
        lemma_no_entry(all, name@, all.len() as int);
    }
    None
}

/// In a sorted table an entry that stands for a name is the one that does.
proof fn lemma_entry_place(names: Seq<ZoneText>, name: Seq<char>, at: int)
    requires
        is_sorted(names),
        0 <= at < names.len(),
        lowercase(names[at].name) == lowercase(name),
    ensures
        entry_place(names, name, names.len() as int) == Some(at),
{
    lemma_entry_place_below(names, name, at, names.len() as int);
}

proof fn lemma_entry_place_below(names: Seq<ZoneText>, name: Seq<char>, at: int, n: int)
    requires
        is_sorted(names),
        0 <= at < n <= names.len(),
        lowercase(names[at].name) == lowercase(name),
    ensures
        entry_place(names, name, n) == Some(at),
    decreases n,
{
    if at < n - 1 {
        lemma_precedes_total(lowercase(names[at].name), lowercase(names[n - 1].name));
        lemma_entry_place_below(names, name, at, n - 1);
    }
}

proof fn lemma_no_entry(names: Seq<ZoneText>, name: Seq<char>, n: int)
    requires
        n <= names.len(),
        forall|i: int|
            0 <= i < n ==> lowercase((#[trigger] names[i]).name) != lowercase(name),
    ensures
        entry_place(names, name, n) is None,
    decreases n,
{
    if n > 0 {
        lemma_no_entry(names, name, n - 1);
    }
}

fn check_sorted(names: &[ZoneName]) -> (r: bool)
    ensures
        r == is_sorted(zone_texts(names@)),
{
    let ghost all = zone_texts(names@);
    if names.len() == 0 {
        return true;
    }
    let last: usize = names.len() - 1;
    let mut i: usize = 0;
    while i < last
        invariant
            i <= last,
            last == names@.len() - 1,
            all == zone_texts(names@),
            forall|a: int, b: int|
                0 <= a < b <= i ==> precedes(
                    lowercase((#[trigger] all[a]).name),
                    lowercase((#[trigger] all[b]).name),
                ),
        decreases names@.len() - i,
    {
        assert(all[i as int] == names@[i as int]@);
        assert(all[i as int + 1] == names@[i as int + 1]@);
        if !folded_before(names[i].name.as_str(), names[i + 1].name.as_str()) {
            return false;
        }
        assert forall|a: int, b: int| 0 <= a < b <= i + 1 implies precedes(
            lowercase((#[trigger] all[a]).name),
            lowercase((#[trigger] all[b]).name),
        ) by {
            if b == i + 1 && a < i {
                lemma_precedes_transitive(
                    lowercase(all[a].name),
                    lowercase(all[i as int].name),
                    lowercase(all[b].name),
                );
            }
        }
        i = i + 1;
    }
    true
}

impl ZoneTable {
    #[verifier::type_invariant]
    pub(crate) closed spec fn holds(self) -> bool {
        is_a_table(zone_texts(self.names@))
    }

    /// A table of these names, when the lookups can rely on them: sorted with
    /// ASCII case folded and without a name twice, every name resolving to a
    /// zone that resolves to itself, every zone itself and every link with a
    /// reason.
    pub fn new(names: Vec<ZoneName>) -> (r: Option<ZoneTable>)
        ensures
            match r {
                Some(table) => table@ == zone_texts(names@) && is_a_table(table@),
                None => !is_a_table(zone_texts(names@)),
            },
    {
        if !check_sorted(names.as_slice()) {
            return None;
        }
        let ghost all = zone_texts(names@);
        let mut i: usize = 0;
        while i < names.len()
            invariant
                i <= names@.len(),
                all == zone_texts(names@),
                is_sorted(all),
                forall|k: int|
                    0 <= k < i ==> resolved(all, (#[trigger] all[k]).target) == Some(all[k].target),
                forall|k: int|
                    0 <= k < i ==> ((#[trigger] all[k]).name == all[k].target) == (
                    all[k].kind is Zone),
            decreases names@.len() - i,
        {
            assert(all[i as int] == names@[i as int]@);
            let found = match find_place(names.as_slice(), names[i].target.as_str()) {
                Some(k) => {
                    assert(all[k as int] == names@[k as int]@);
                    same(names[k].target.as_str(), names[i].target.as_str())
                },
                None => false,
            };
            let zone = match names[i].kind {
                NameKind::Zone => true,
                _ => false,
            };
            if !found || same(names[i].name.as_str(), names[i].target.as_str()) != zone {
                return None;
            }
            i = i + 1;
        }
        Some(ZoneTable { names })
    }
}

/// The zone a tzdata name resolves to, spelled as tzdata spells it, or `None`
/// when tzdata does not know the name.
///
/// ASCII letters match in either case. Nothing is trimmed, and no other
/// character folds. A link resolves to its target: `Asia/Calcutta` is
/// `Asia/Kolkata`, `UTC` is `Etc/UTC`, and `Etc/GMT+8` is a zone of its own.
pub fn canonical_zone<'a>(table: &'a ZoneTable, name: &str) -> (r: Option<&'a str>)
    ensures
        optional_str(r) == resolved(table@, name@),
{
    proof {
        use_type_invariant(table);
    }
    match find_place(table.names.as_slice(), name) {
        Some(k) => {
            assert(table@[k as int] == table.names@[k as int]@);
            Some(table.names[k].target.as_str())
        },
        None => None,
    }
}

/// Whether a zone is one of the two tzdata gives UTC.
pub open spec fn is_utc(zone: Seq<char>) -> bool {
    zone == "Etc/UTC"@ || zone == "Etc/GMT"@
}

/// The zone a stored name gives a series.
pub open spec fn clock_of(names: Seq<ZoneText>, tzid: Option<Seq<char>>) -> Option<Seq<char>> {
    match tzid {
        Some(name) => match resolved(names, name) {
            Some(zone) => if is_utc(zone) {
                None
            } else {
                Some(name)
            },
            None => None,
        },
        None => None,
    }
}

/// The zone a series repeats on, as the series stores it, or `None` when it
/// repeats on UTC: no zone, one of the names tzdata gives UTC, or a name
/// tzdata does not know.
///
/// The stored spelling comes back unchanged; only the question "is this a zone"
/// is answered here.
pub fn series_clock_zone<'a>(table: &ZoneTable, tzid: Option<&'a str>) -> (r: Option<&'a str>)
    ensures
        optional_str(r) == clock_of(table@, optional_str(tzid)),
{
    let name = match tzid {
        Some(name) => name,
        None => {
            return None;
        },
    };
    match canonical_zone(table, name) {
        Some(zone) => if same(zone, "Etc/UTC") || same(zone, "Etc/GMT") {
            None
        } else {
            Some(name)
        },
        None => None,
    }
}

/// The zone a series hands a provider when it is written: none for an all-day
/// series, otherwise its stored zone as stored, for the adapter's own rule
/// (such as [`series_clock_zone`]) to read.
///
/// An all-day series has no zone of its own, and a zone does harm on the wire:
/// a provider moves an all-day series to that zone's midnights and stretches it
/// over more days.
pub fn written_series_zone(tzid: Option<&str>, all_day: bool) -> (r: Option<&str>)
    ensures
        optional_str(r) == if all_day {
            None
        } else {
            optional_str(tzid)
        },
{
    if all_day {
        None
    } else {
        tzid
    }
}

/// A zone of its own outside `Etc/` with a region part.
pub open spec fn is_listed(entry: ZoneText) -> bool {
    entry.name == entry.target && entry.name.contains('/') && !starts_with(entry.name, "Etc/"@)
}

/// The listed zones among names, in order.
pub open spec fn listed_among(names: Seq<ZoneText>) -> Seq<Seq<char>>
    decreases names.len(),
{
    if names.len() == 0 {
        Seq::empty()
    } else if is_listed(names.last()) {
        listed_among(names.drop_last()).push(names.last().name)
    } else {
        listed_among(names.drop_last())
    }
}

/// The zones outside `Etc/` with a region part, in tzdata's spelling and in
/// the order the names sort with ASCII case folded: the zones a series' zone
/// is chosen from. The region part keeps out the POSIX-style names such as
/// `EST5EDT`.
pub fn listed_zones(table: &ZoneTable) -> (r: Vec<String>)
    ensures
        texts(r@) == listed_among(table@),
{
    let ghost all = table@;
    let mut out: Vec<String> = Vec::new();
    let mut i: usize = 0;
    assert(texts(out@) =~= Seq::empty());
    while i < table.names.len()
        invariant
            i <= table.names@.len(),
            all == table@,
            all == zone_texts(table.names@),
            texts(out@) == listed_among(all.take(i as int)),
        decreases table.names@.len() - i,
    {
        assert(all.take(i as int + 1).drop_last() =~= all.take(i as int));
        assert(all.take(i as int + 1).last() == table.names@[i as int]@);
        let name = table.names[i].name.as_str();
        if same(name, table.names[i].target.as_str()) && contains_char(name, '/') && !has_prefix(
            name,
            "Etc/",
        ) {
            let zone = table.names[i].name.clone();
            proof {
                lemma_texts_push(out@, zone);
            }
            out.push(zone);
        }
        i = i + 1;
    }
    assert(all.take(i as int) =~= all);
    out
}

// ---------------------------------------------------------------------------
// Laws
// ---------------------------------------------------------------------------

/// The case of a name does not matter: two spellings that differ only in the
/// case of ASCII letters resolve to the same zone.
pub proof fn case_does_not_matter(names: Seq<ZoneText>, a: Seq<char>, b: Seq<char>)
    requires
        lowercase(a) == lowercase(b),
    ensures
        resolved(names, a) == resolved(names, b),
{
    lemma_same_place(names, a, b, names.len() as int);
}

proof fn lemma_same_place(names: Seq<ZoneText>, a: Seq<char>, b: Seq<char>, n: int)
    requires
        lowercase(a) == lowercase(b),
    ensures
        entry_place(names, a, n) == entry_place(names, b, n),
    decreases n,
{
    if n > 0 {
        lemma_same_place(names, a, b, n - 1);
    }
}

/// A zone a name resolves to resolves to itself.
pub proof fn a_resolved_zone_resolves_to_itself(names: Seq<ZoneText>, name: Seq<char>)
    requires
        is_a_table(names),
        resolved(names, name) is Some,
    ensures
        resolved(names, resolved(names, name).unwrap()) == resolved(names, name),
{
    lemma_place_bounds(names, name, names.len() as int);
    let k = entry_place(names, name, names.len() as int).unwrap();
    assert(resolved(names, names[k].target) == Some(names[k].target));
}

proof fn lemma_place_bounds(names: Seq<ZoneText>, name: Seq<char>, n: int)
    requires
        n <= names.len(),
    ensures
        entry_place(names, name, n) matches Some(k) ==> 0 <= k < n,
    decreases n,
{
    if n > 0 {
        lemma_place_bounds(names, name, n - 1);
    }
}

/// A series repeats on UTC exactly when its stored name is none, resolves to
/// nothing, or resolves to one of the two zones tzdata gives UTC; otherwise its
/// own spelling comes back.
pub proof fn a_series_keeps_its_spelling(names: Seq<ZoneText>, tzid: Seq<char>)
    ensures
        clock_of(names, Some(tzid)) is Some ==> clock_of(names, Some(tzid)) == Some(tzid),
        clock_of(names, Some(tzid)) is None <==> match resolved(names, tzid) {
            Some(zone) => is_utc(zone),
            None => true,
        },
{
}

/// A name resolves to the target of an entry that bears it but for the case of
/// ASCII letters, and to nothing exactly where no entry does.
pub proof fn a_name_resolves_by_its_entry(names: Seq<ZoneText>, name: Seq<char>)
    requires
        is_sorted(names),
    ensures
        forall|i: int|
            0 <= i < names.len() && lowercase((#[trigger] names[i]).name) == lowercase(name)
                ==> resolved(names, name) == Some(names[i].target),
        resolved(names, name) is None <==> forall|i: int|
            0 <= i < names.len() ==> lowercase((#[trigger] names[i]).name) != lowercase(name),
{
    lemma_entry_found(names, name, names.len() as int);
    if let Some(k) = entry_place(names, name, names.len() as int) {
        assert forall|i: int|
            0 <= i < names.len() && lowercase((#[trigger] names[i]).name) == lowercase(
                name,
            ) implies i == k by {
            lemma_precedes_total(lowercase(names[i].name), lowercase(names[k].name));
            if i < k {
                assert(precedes(lowercase(names[i].name), lowercase(names[k].name)));
            }
            if k < i {
                assert(precedes(lowercase(names[k].name), lowercase(names[i].name)));
            }
        }
    }
}

proof fn lemma_entry_found(names: Seq<ZoneText>, name: Seq<char>, n: int)
    requires
        0 <= n <= names.len(),
    ensures
        match entry_place(names, name, n) {
            Some(k) => 0 <= k < n && lowercase(names[k].name) == lowercase(name),
            None => forall|i: int|
                0 <= i < n ==> lowercase((#[trigger] names[i]).name) != lowercase(name),
        },
    decreases n,
{
    if n > 0 && lowercase(names[n - 1].name) != lowercase(name) {
        lemma_entry_found(names, name, n - 1);
    }
}

/// The zones to choose from are those that are zones of their own, have a region,
/// and are not under `Etc/`.
pub proof fn what_can_be_chosen(names: Seq<ZoneText>, zone: Seq<char>)
    ensures
        listed_among(names).contains(zone) <==> zone.contains('/') && !starts_with(zone, "Etc/"@)
            && exists|i: int|
            0 <= i < names.len() && (#[trigger] names[i]).name == zone && names[i].target == zone,
    decreases names.len(),
{
    if names.len() > 0 {
        let front = names.drop_last();
        let before = listed_among(front);
        let all = listed_among(names);
        what_can_be_chosen(front, zone);
        assert(names[names.len() - 1] == names.last());
        if before.contains(zone) {
            let k = choose|k: int| 0 <= k < before.len() && before[k] == zone;
            assert(all[k] == zone);
            let i = choose|i: int|
                0 <= i < front.len() && (#[trigger] front[i]).name == zone && front[i].target
                    == zone;
            assert(names[i] == front[i]);
        }
        if all.contains(zone) && !before.contains(zone) {
            let k = choose|k: int| 0 <= k < all.len() && all[k] == zone;
            if k < before.len() {
                assert(before[k] == zone);
            }
        }
        if exists|i: int|
            0 <= i < names.len() && (#[trigger] names[i]).name == zone && names[i].target == zone {
            let i = choose|i: int|
                0 <= i < names.len() && (#[trigger] names[i]).name == zone && names[i].target
                    == zone;
            if i < front.len() {
                assert(front[i] == names[i]);
            } else if is_listed(names.last()) {
                assert(all[before.len() as int] == zone);
            }
        }
    }
}

} // verus!
