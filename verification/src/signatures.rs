//! The signature block of an event or task description.
//!
//! A signature is a block at the end of a description, opened by a line that is
//! exactly `-- ` (dash dash space, borrowed from mail): the join details of a
//! permanent conference room, a lecturer's consultation hours, a standing
//! "bring your own laptop". Two devices inserting the same signature must write
//! the same bytes, and neither may double what the other inserted.
//!
//! The block is plain text, and only plain text.
//!
//! The marker is the LAST line whose content is `--` after trailing white space
//! is removed (a forwarded invitation can carry somebody else's block above;
//! ours is the one at the end). The trailing space is part of the convention
//! and is written; it is not required for recognition, because a provider round
//! trip may trim line ends. Leading white space is not stripped: an indented
//! `-- ` is no marker.
//!
//! White space is what ECMAScript trims: U+FEFF and U+00A0 count, U+0085 does
//! not. Lines are split on LF alone; a CR stays part of its line.

use vstd::prelude::*;

use crate::text::{
    join, joined, lemma_joined_split, lemma_split_concat, lemma_split_joined, lemma_split_pieces,
    lemma_split_some, lemma_split_whole, optional_text, same, split, split_on, texts, trim,
    trim_back, trimmed, trimmed_back, Blank,
};

verus! {

/// The separator that opens a signature block: dash dash space. The trailing
/// space is part of the convention and is deliberately written.
pub const SIGNATURE_MARKER: &'static str = "-- ";

/// The question [`apply_signature`] answers.
#[derive(Debug, Clone, PartialEq, Eq)]
pub struct ApplySignatureInput {
    pub description: String,
    pub body: String,
}

/// The question [`signature_in`] and [`strip_signature`] answer.
#[derive(Debug, Clone, PartialEq, Eq)]
pub struct SignatureTextInput {
    pub description: String,
}

/// Whether a line opens a signature block.
pub open spec fn is_marker(line: Seq<char>) -> bool {
    trimmed_back(line, Blank::Ecma) == "--"@
}

/// The last of the first `n` lines that opens a signature block.
pub open spec fn marker_line(lines: Seq<Seq<char>>, n: int) -> Option<int>
    decreases n,
{
    if n <= 0 {
        None
    } else if is_marker(lines[n - 1]) {
        Some(n - 1)
    } else {
        marker_line(lines, n - 1)
    }
}

/// A line of nothing but white space.
pub open spec fn is_blank_line(line: Seq<char>) -> bool {
    trimmed(line, Blank::Ecma).len() == 0
}

/// How many of the first `n` lines are left without the blank ones at the end.
pub open spec fn without_blank_end(lines: Seq<Seq<char>>, n: int) -> int
    decreases n,
{
    if n > 0 && is_blank_line(lines[n - 1]) {
        without_blank_end(lines, n - 1)
    } else {
        n
    }
}

/// A description without its signature block and the blank lines before it.
pub open spec fn stripped(description: Seq<char>) -> Seq<char> {
    let lines = split_on(description, '\n');
    match marker_line(lines, lines.len() as int) {
        Some(at) => joined(lines.take(without_blank_end(lines, at)), "\n"@),
        None => description,
    }
}

/// What a description's signature block says.
pub open spec fn block_of(description: Seq<char>) -> Option<Seq<char>> {
    let lines = split_on(description, '\n');
    match marker_line(lines, lines.len() as int) {
        Some(at) => Some(joined(lines.skip(at + 1), "\n"@)),
        None => None,
    }
}

/// What a signature is put under: the description without its block, or nothing
/// where that is nothing but white space.
pub open spec fn base_of(description: Seq<char>) -> Seq<char> {
    if is_blank_line(stripped(description)) {
        Seq::empty()
    } else {
        stripped(description)
    }
}

/// A description with a body as its signature block.
pub open spec fn applied(description: Seq<char>, body: Seq<char>) -> Seq<char> {
    let base = base_of(description);
    let block = trimmed(body, Blank::Ecma);
    if block.len() == 0 {
        base
    } else if base.len() == 0 {
        "-- "@ + "\n"@ + block
    } else {
        base + "\n\n"@ + "-- "@ + "\n"@ + block
    }
}

fn find_marker(lines: &[String]) -> (r: Option<usize>)
    ensures
        match r {
            Some(at) => marker_line(texts(lines@), lines@.len() as int) == Some(at as int) && at
                < lines@.len(),
            None => marker_line(texts(lines@), lines@.len() as int) is None,
        },
{
    let ghost all = texts(lines@);
    let mut n: usize = lines.len();
    while n > 0
        invariant
            n <= lines.len(),
            all == texts(lines@),
            marker_line(all, lines@.len() as int) == marker_line(all, n as int),
        decreases n,
    {
        assert(all[n - 1] == lines@[n - 1]@);
        if same(trim_back(lines[n - 1].as_str(), Blank::Ecma).as_str(), "--") {
            return Some(n - 1);
        }
        n = n - 1;
    }
    None
}

fn has_nothing(line: &str) -> (r: bool)
    ensures
        r == is_blank_line(line@),
{
    trim(line, Blank::Ecma).as_str().is_empty()
}

/// The description without its signature block, and without the blank lines
/// that separated them (so removing and re-adding a signature does not grow a
/// gap each time). A description without a block comes back as it is.
pub fn strip_signature(description: &str) -> (r: String)
    ensures
        r@ == stripped(description@),
{
    let lines = split(description, '\n');
    let ghost all = texts(lines@);
    let at: usize = match find_marker(lines.as_slice()) {
        Some(at) => at,
        None => {
            return description.to_owned();
        },
    };
    let mut end: usize = at;
    while end > 0 && has_nothing(lines[end - 1].as_str())
        invariant
            end <= at < lines@.len(),
            all == texts(lines@),
            without_blank_end(all, at as int) == without_blank_end(all, end as int),
        decreases end,
    {
        assert(all[end - 1] == lines@[end - 1]@);
        end = end - 1;
    }
    assert(end > 0 ==> all[end - 1] == lines@[end - 1]@);
    let kept = &lines[0..end];
    assert(texts(kept@) =~= all.take(end as int));
    join(kept, "\n")
}

/// What the description's signature block says, or `None` when it has none.
/// A block with nothing after the marker is a block: `Some("")`.
pub fn signature_in(description: &str) -> (r: Option<String>)
    ensures
        optional_text(r) == block_of(description@),
{
    let lines = split(description, '\n');
    let end: usize = lines.len();
    let ghost all = texts(lines@);
    match find_marker(lines.as_slice()) {
        Some(at) => {
            let rest = &lines[at + 1..end];
            assert(texts(rest@) =~= all.skip(at + 1));
            Some(join(rest, "\n"))
        },
        None => None,
    }
}

/// The description with `body` as its signature block.
///
/// Replaces an existing block rather than appending a second one, so applying
/// twice, or switching from one signature to another, leaves exactly one.
/// An empty (whitespace-only) body removes the block. A description of nothing
/// but white space is a description of nothing: the block opens the text rather
/// than a line of stray spaces. The appointment's own text is never touched,
/// not even its trailing newlines, which keep their place and get the
/// separating gap on top.
pub fn apply_signature(description: &str, body: &str) -> (r: String)
    ensures
        r@ == applied(description@, body@),
{
    let rest = strip_signature(description);
    let base = if has_nothing(rest.as_str()) {
        String::new()
    } else {
        rest
    };
    let block = trim(body, Blank::Ecma);
    if block.as_str().is_empty() {
        return base;
    }
    let mut out = base;
    if !out.as_str().is_empty() {
        out.append("\n\n");
    }
    out.append("-- ");
    out.append("\n");
    out.append(block.as_str());
    assert(out@ =~= applied(description@, body@));
    out
}

// ---------------------------------------------------------------------------
// Laws
// ---------------------------------------------------------------------------

/// A text none of whose lines opens a signature block.
pub open spec fn opens_no_block(s: Seq<char>) -> bool {
    forall|i: int| 0 <= i < split_on(s, '\n').len() ==> !is_marker(#[trigger] split_on(s, '\n')[i])
}

/// A text that is empty or whose last line is not blank.
pub open spec fn ends_in_text(s: Seq<char>) -> bool {
    s.len() == 0 || !is_blank_line(split_on(s, '\n').last())
}

/// The lines of an applied signature: those of the base and a blank one, where
/// there is a base, the marker, and those of the block.
proof fn lemma_applied_lines(base: Seq<char>, block: Seq<char>, whole: Seq<char>)
    requires
        whole == if base.len() == 0 {
            "-- "@ + "\n"@ + block
        } else {
            base + "\n\n"@ + "-- "@ + "\n"@ + block
        },
    ensures
        split_on(whole, '\n') == if base.len() == 0 {
            seq!["-- "@] + split_on(block, '\n')
        } else {
            split_on(base, '\n') + seq![Seq::<char>::empty()] + seq!["-- "@] + split_on(
                block,
                '\n',
            )
        },
        is_marker("-- "@),
{
    reveal_strlit("-- ");
    reveal_strlit("--");
    reveal_strlit("\n");
    reveal_strlit("\n\n");
    reveal_with_fuel(trimmed_back, 4);
    let marker = "-- "@;
    assert(marker =~= seq!['-', '-', ' ']);
    assert(marker.drop_last() =~= "--"@);
    assert(is_marker(marker));
    let tail = marker + seq!['\n'] + block;
    lemma_split_concat(marker, block, '\n');
    lemma_split_whole(marker, '\n');
    assert("-- "@ + "\n"@ + block =~= tail);
    assert(split_on(tail, '\n') =~= seq![marker] + split_on(block, '\n'));
    if base.len() > 0 {
        let empty = Seq::<char>::empty();
        let gap = empty + seq!['\n'] + tail;
        lemma_split_concat(empty, tail, '\n');
        lemma_split_whole(empty, '\n');
        lemma_split_concat(base, gap, '\n');
        assert(whole =~= base + seq!['\n'] + gap);
        assert(split_on(whole, '\n') =~= split_on(base, '\n') + seq![empty] + seq![marker]
            + split_on(block, '\n'));
    }
}

proof fn lemma_marker_at(lines: Seq<Seq<char>>, at: int, n: int)
    requires
        0 <= at < n <= lines.len(),
        is_marker(lines[at]),
        forall|i: int| at < i < n ==> !is_marker(#[trigger] lines[i]),
    ensures
        marker_line(lines, n) == Some(at),
    decreases n,
{
    if at < n - 1 {
        lemma_marker_at(lines, at, n - 1);
    }
}

/// What is applied is what is read back, where none of the body's lines opens a
/// block itself.
pub proof fn what_is_applied_is_read_back(description: Seq<char>, body: Seq<char>)
    requires
        trimmed(body, Blank::Ecma).len() > 0,
        opens_no_block(trimmed(body, Blank::Ecma)),
    ensures
        block_of(applied(description, body)) == Some(trimmed(body, Blank::Ecma)),
{
    let base = base_of(description);
    let block = trimmed(body, Blank::Ecma);
    let whole = applied(description, body);
    lemma_applied_lines(base, block, whole);
    let lines = split_on(whole, '\n');
    let tail = split_on(block, '\n');
    let at = lines.len() - tail.len() - 1;
    assert(lines[at] == "-- "@);
    assert forall|i: int| at < i < lines.len() implies !is_marker(#[trigger] lines[i]) by {
        assert(lines[i] == tail[i - at - 1]);
    }
    lemma_marker_at(lines, at, lines.len() as int);
    assert(lines.skip(at + 1) =~= tail);
    lemma_joined_split(block, '\n');
    reveal_strlit("\n");
    assert("\n"@ =~= seq!['\n']);
}

/// Stripping an applied signature gives back what it was put under, where that
/// does not end in a blank line.
pub proof fn stripping_undoes_applying(description: Seq<char>, body: Seq<char>)
    requires
        trimmed(body, Blank::Ecma).len() > 0,
        opens_no_block(trimmed(body, Blank::Ecma)),
        ends_in_text(base_of(description)),
    ensures
        stripped(applied(description, body)) == base_of(description),
{
    let base = base_of(description);
    let block = trimmed(body, Blank::Ecma);
    let whole = applied(description, body);
    lemma_applied_lines(base, block, whole);
    let lines = split_on(whole, '\n');
    let tail = split_on(block, '\n');
    let at = lines.len() - tail.len() - 1;
    assert(lines[at] == "-- "@);
    assert forall|i: int| at < i < lines.len() implies !is_marker(#[trigger] lines[i]) by {
        assert(lines[i] == tail[i - at - 1]);
    }
    lemma_marker_at(lines, at, lines.len() as int);
    reveal_strlit("\n");
    assert("\n"@ =~= seq!['\n']);
    if base.len() == 0 {
        assert(at == 0);
        assert(lines.take(0) =~= Seq::empty());
    } else {
        let front = split_on(base, '\n');
        lemma_split_some(base, '\n');
        assert(at == front.len() + 1);
        assert(lines[at - 1] == Seq::<char>::empty());
        assert(is_blank_line(lines[at - 1]));
        assert(lines[at - 2] == front.last());
        assert(without_blank_end(lines, at - 1) == at - 1);
        assert(without_blank_end(lines, at) == at - 1);
        assert(lines.take(at - 1) =~= front);
        lemma_joined_split(base, '\n');
    }
}

/// A signature is replaced, never stacked: after one was applied, applying
/// another gives what applying it at once would have given. Applying the same
/// one twice leaves exactly one block.
pub proof fn a_signature_is_replaced(description: Seq<char>, first: Seq<char>, second: Seq<char>)
    requires
        trimmed(first, Blank::Ecma).len() > 0,
        opens_no_block(trimmed(first, Blank::Ecma)),
        ends_in_text(base_of(description)),
    ensures
        applied(applied(description, first), second) == applied(description, second),
        applied(applied(description, first), first) == applied(description, first),
{
    stripping_undoes_applying(description, first);
    let base = base_of(description);
    assert(base_of(applied(description, first)) =~= base);
}

/// A description that had a block does not end in a blank line once it is
/// stripped, so its signature can be replaced as often as one likes.
pub proof fn a_stripped_description_ends_in_text(description: Seq<char>)
    requires
        block_of(description) is Some,
    ensures
        ends_in_text(stripped(description)),
{
    let lines = split_on(description, '\n');
    let at = marker_line(lines, lines.len() as int).unwrap();
    lemma_marker_bounds(lines, lines.len() as int);
    lemma_blank_end(lines, at);
    let end = without_blank_end(lines, at);
    let kept = lines.take(end);
    reveal_strlit("\n");
    assert("\n"@ =~= seq!['\n']);
    if end > 0 {
        lemma_split_pieces(description, '\n');
        assert forall|k: int, i: int|
            0 <= k < kept.len() && 0 <= i < kept[k].len() implies #[trigger] kept[k][i]
            != '\n' by {
            assert(kept[k][i] == lines[k][i]);
        }
        lemma_split_joined(kept, '\n');
        assert(split_on(joined(kept, seq!['\n']), '\n') == kept);
        assert(kept.last() == lines[end - 1]);
    } else {
        assert(kept =~= Seq::empty());
    }
}

proof fn lemma_marker_bounds(lines: Seq<Seq<char>>, n: int)
    requires
        n <= lines.len(),
    ensures
        marker_line(lines, n) matches Some(at) ==> 0 <= at < n,
    decreases n,
{
    if n > 0 {
        lemma_marker_bounds(lines, n - 1);
    }
}

proof fn lemma_marker_found(lines: Seq<Seq<char>>, n: int)
    requires
        0 <= n <= lines.len(),
    ensures
        match marker_line(lines, n) {
            Some(at) => 0 <= at < n && is_marker(lines[at]) && forall|i: int|
                at < i < n ==> !is_marker(#[trigger] lines[i]),
            None => forall|i: int| 0 <= i < n ==> !is_marker(#[trigger] lines[i]),
        },
    decreases n,
{
    if n > 0 && !is_marker(lines[n - 1]) {
        lemma_marker_found(lines, n - 1);
    }
}

proof fn lemma_blank_end(lines: Seq<Seq<char>>, n: int)
    requires
        0 <= n <= lines.len(),
    ensures
        0 <= without_blank_end(lines, n) <= n,
        forall|i: int| without_blank_end(lines, n) <= i < n ==> is_blank_line(#[trigger] lines[i]),
        without_blank_end(lines, n) > 0 ==> !is_blank_line(
            lines[without_blank_end(lines, n) - 1],
        ),
    decreases n,
{
    if n > 0 && is_blank_line(lines[n - 1]) {
        lemma_blank_end(lines, n - 1);
    }
}

/// A signature begins at the last line that is two dashes with nothing but white
/// space behind them. What it says is all below that line, what is left without
/// it is all above but the blank lines next to it, and without such a line there
/// is no signature and nothing is taken away.
pub proof fn the_last_marker_opens_the_block(description: Seq<char>)
    ensures
        ({
            let lines = split_on(description, '\n');
            match block_of(description) {
                Some(said) => exists|at: int, end: int|
                    #[trigger] opens_at(lines, at, end) && said == joined(lines.skip(at + 1), "\n"@)
                        && stripped(description) == joined(lines.take(end), "\n"@),
                None => opens_no_block(description) && stripped(description) == description,
            }
        }),
{
    let lines = split_on(description, '\n');
    lemma_marker_found(lines, lines.len() as int);
    if let Some(at) = marker_line(lines, lines.len() as int) {
        let end = without_blank_end(lines, at);
        lemma_blank_end(lines, at);
        assert(opens_at(lines, at, end));
    }
}

/// The last marker stands at `at`, and the lines from `end` up to it are the
/// blank ones next to it.
pub open spec fn opens_at(lines: Seq<Seq<char>>, at: int, end: int) -> bool {
    &&& 0 <= end <= at < lines.len()
    &&& trimmed_back(lines[at], Blank::Ecma) == "--"@
    &&& forall|i: int|
        at < i < lines.len() ==> trimmed_back(#[trigger] lines[i], Blank::Ecma) != "--"@
    &&& forall|i: int|
        end <= i < at ==> trimmed(#[trigger] lines[i], Blank::Ecma).len() == 0
    &&& end > 0 ==> trimmed(lines[end - 1], Blank::Ecma).len() > 0
}

/// A signature is put under what is left of the description, with a blank line
/// between, or opens the text where nothing is left. A body of white space is no
/// signature.
pub proof fn a_signature_stands_under_the_text(description: Seq<char>, body: Seq<char>)
    ensures
        ({
            let left = stripped(description);
            let says = trimmed(body, Blank::Ecma);
            let bare = trimmed(left, Blank::Ecma).len() == 0;
            &&& says.len() == 0 && bare ==> applied(description, body) == Seq::<char>::empty()
            &&& says.len() == 0 && !bare ==> applied(description, body) == left
            &&& says.len() > 0 && bare ==> applied(description, body) == "-- "@ + "\n"@ + says
            &&& says.len() > 0 && !bare ==> applied(description, body) == left + "\n\n"@ + "-- "@
                + "\n"@ + says
        }),
{
    let left = stripped(description);
    if left.len() == 0 {
        assert(trimmed(left, Blank::Ecma).len() == 0);
    }
}

} // verus!
