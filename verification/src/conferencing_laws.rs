//! What is found of a meeting: which links a text holds, which service a link
//! leads to, and what is said of the meeting beside it.

use vstd::prelude::*;

use crate::conferencing::{
    begins_a_link, decoded_tones, details_in, ends_a_url, host_in, is_sentence_tail, join_link,
    labelled, labelled_lines, link_at, longest_run, numbers_in, provider_of, runs_in, sip_number,
    the_longest_link_wins, uri_in, url_run, urls_in, useful_runs, with_phone, with_sip,
    without_schemes, without_sentence, ConferenceProvider,
};
use crate::text::{
    all_digits, byte_len, count_of, ends_with, find_in, first_index, holds_text, is_digit,
    lemma_find_in, lemma_first_index, lemma_split_concat, lemma_split_whole, lemma_trimmed_same,
    lowercase, replaced_all, split_on, stands_at, starts_with, trimmed, trimmed_front, Blank,
};

verus! {

// ---------------------------------------------------------------------------
// Links
// ---------------------------------------------------------------------------

/// A text that holds no `http` holds no link.
pub proof fn a_text_without_the_letters_has_no_link(text: Seq<char>)
    requires
        !holds_text(text, "http"@),
    ensures
        urls_in(text) == Seq::<Seq<char>>::empty(),
{
    lemma_find_in(text, "http"@);
}

/// What a link ends with belongs to the sentence where it is a punctuation mark,
/// or a closing bracket that none before it opened. Nothing else does.
pub proof fn what_belongs_to_the_sentence(url: Seq<char>, c: char)
    ensures
        is_sentence_tail(url.push(c)) <==> {
            ||| c == '.' || c == ',' || c == ';' || c == ':' || c == '!' || c == '?'
            ||| c == ')' && count_of(url, '(') <= count_of(url, ')')
            ||| c == ']' && count_of(url, '[') <= count_of(url, ']')
        },
{
    assert(url.push(c).drop_last() =~= url);
    assert(url.push(c).last() == c);
}

/// A text that is a link from end to end: it begins like one, holds nothing that
/// ends one, does not end in what belongs to a sentence or in an encoded bracket,
/// and is longer than the scheme.
pub open spec fn is_whole_link(url: Seq<char>) -> bool {
    &&& begins_a_link(url)
    &&& forall|i: int| 0 <= i < url.len() ==> !ends_a_url(#[trigger] url[i])
    &&& !is_sentence_tail(url)
    &&& !ends_with(url, "%3E"@) && !ends_with(url, "%3e"@)
    &&& byte_len(url) > 8
}

proof fn lemma_run(run: Seq<char>, rest: Seq<char>)
    requires
        forall|i: int| 0 <= i < run.len() ==> !ends_a_url(#[trigger] run[i]),
        rest.len() > 0 ==> ends_a_url(rest[0]),
    ensures
        url_run(run + rest) == run,
    decreases run.len(),
{
    let s = run + rest;
    if run.len() == 0 {
        assert(s =~= rest);
        assert(url_run(s) =~= run);
    } else {
        let more = run.skip(1);
        assert(s.skip(1) =~= more + rest);
        assert forall|i: int| 0 <= i < more.len() implies !ends_a_url(#[trigger] more[i]) by {
            assert(more[i] == run[i + 1]);
        }
        lemma_run(more, rest);
        assert(s[0] == run[0]);
        assert(seq![run[0]] + more =~= run);
    }
}

proof fn lemma_sentence_goes(url: Seq<char>, tail: Seq<char>)
    requires
        !is_sentence_tail(url),
        forall|k: int| 0 < k <= tail.len() ==> is_sentence_tail(#[trigger] (url + tail.take(k))),
    ensures
        without_sentence(url + tail) == url,
    decreases tail.len(),
{
    if tail.len() > 0 {
        let front = tail.drop_last();
        assert(tail.take(tail.len() as int) =~= tail);
        assert(is_sentence_tail(url + tail.take(tail.len() as int)));
        assert((url + tail).drop_last() =~= url + front);
        assert forall|k: int| 0 < k <= front.len() implies is_sentence_tail(
            #[trigger] (url + front.take(k)),
        ) by {
            assert(front.take(k) =~= tail.take(k));
        }
        lemma_sentence_goes(url, front);
    } else {
        assert(url + tail =~= url);
    }
}

/// A link is found as it was written, wherever it stands in a text, whatever of a
/// sentence follows it, and the search goes on behind it.
pub proof fn a_link_is_found_as_written(
    before: Seq<char>,
    url: Seq<char>,
    tail: Seq<char>,
    after: Seq<char>,
)
    requires
        is_whole_link(url),
        forall|k: int| 0 < k <= tail.len() ==> is_sentence_tail(#[trigger] (url + tail.take(k))),
        after.len() > 0 ==> ends_a_url(after[0]),
        forall|j: int|
            0 <= j < before.len() ==> !#[trigger] stands_at(
                before + (url + tail + after),
                "http"@,
                j,
            ),
    ensures
        urls_in(before + (url + tail + after)) == seq![url] + urls_in(after),
{
    reveal_strlit("http");
    reveal_strlit("http://");
    reveal_strlit("https://");
    let n = before.len() as int;
    let rest = url + tail + after;
    let text = before + rest;
    assert(text.skip(n) =~= rest);
    // The link begins where the letters first stand.
    assert(begins_a_link(rest)) by {
        if starts_with(url, "http://"@) {
            assert(rest.subrange(0, 7) =~= url.subrange(0, 7));
        } else {
            assert(rest.subrange(0, 8) =~= url.subrange(0, 8));
        }
    }
    assert(stands_at(text, "http"@, n)) by {
        assert(rest.subrange(0, 4) =~= "http"@) by {
            if starts_with(rest, "http://"@) {
                assert(rest.subrange(0, 7) == "http://"@);
                assert(rest.subrange(0, 4) =~= "http://"@.subrange(0, 4));
            } else {
                assert(rest.subrange(0, 8) == "https://"@);
                assert(rest.subrange(0, 4) =~= "https://"@.subrange(0, 4));
            }
        }
        assert(text.subrange(n, n + 4) =~= rest.subrange(0, 4));
    }
    lemma_find_in(text, "http"@);
    assert(find_in(text, "http"@) == Some(n)) by {
        let at = find_in(text, "http"@)->0;
        if at < n {
            assert(!stands_at(text, "http"@, at));
        }
        if n < at {
            assert(!stands_at(text, "http"@, n));
        }
    }
    let run = url + tail;
    assert forall|i: int| 0 <= i < run.len() implies !ends_a_url(#[trigger] run[i]) by {
        if i < url.len() {
            assert(run[i] == url[i]);
        } else {
            let k = i - url.len() + 1;
            assert(is_sentence_tail(url + tail.take(k)));
            assert((url + tail.take(k)).last() == tail[k - 1]);
            assert(run[i] == tail[k - 1]);
        }
    }
    lemma_run(run, after);
    assert(run + after =~= rest);
    lemma_sentence_goes(url, tail);
    assert(link_at(rest) == url);
    assert(rest.skip(run.len() as int) =~= after);
}

proof fn lemma_run_is_front(s: Seq<char>)
    ensures
        url_run(s).len() <= s.len(),
        url_run(s) == s.take(url_run(s).len() as int),
        forall|i: int| 0 <= i < url_run(s).len() ==> !ends_a_url(#[trigger] url_run(s)[i]),
    decreases s.len(),
{
    let run = url_run(s);
    if s.len() > 0 && !ends_a_url(s[0]) {
        let rest = s.skip(1);
        lemma_run_is_front(rest);
        let more = url_run(rest);
        assert(run == seq![s[0]] + more);
        assert(run =~= s.take(run.len() as int)) by {
            assert forall|i: int| 0 <= i < run.len() implies run[i] == s[i] by {
                if i > 0 {
                    assert(more[i - 1] == rest.take(more.len() as int)[i - 1]);
                }
            }
        }
        assert forall|i: int| 0 <= i < run.len() implies !ends_a_url(#[trigger] run[i]) by {
            if i > 0 {
                assert(run[i] == more[i - 1]);
            }
        }
    } else {
        assert(s.take(0) =~= Seq::empty());
    }
}

proof fn lemma_sentence_front(s: Seq<char>)
    ensures
        without_sentence(s).len() <= s.len(),
        without_sentence(s) == s.take(without_sentence(s).len() as int),
        !is_sentence_tail(without_sentence(s)),
    decreases s.len(),
{
    if is_sentence_tail(s) {
        let front = s.drop_last();
        lemma_sentence_front(front);
        let n = without_sentence(front).len() as int;
        assert(front.take(n) =~= s.take(n));
    } else {
        assert(s.take(s.len() as int) =~= s);
    }
}

/// Every link found stands in the text, holds nothing that ends a link, and is
/// longer than the scheme. What is cut off behind it belongs to the sentence or
/// is an encoded bracket.
pub proof fn every_link_stands_in_the_text(text: Seq<char>, k: int)
    requires
        0 <= k < urls_in(text).len(),
    ensures
        holds_text(text, urls_in(text)[k]),
        byte_len(urls_in(text)[k]) > 8,
        forall|i: int| 0 <= i < urls_in(text)[k].len() ==> !ends_a_url(#[trigger] urls_in(text)[k][i]),
        !is_sentence_tail(urls_in(text)[k]) || exists|whole: Seq<char>|
            #[trigger] holds_text(text, whole) && !is_sentence_tail(whole) && (whole
                == urls_in(text)[k] + "%3E"@ || whole == urls_in(text)[k] + "%3e"@),
    decreases text.len(),
{
    reveal_strlit("http");
    lemma_find_in(text, "http"@);
    let start = find_in(text, "http"@)->0;
    let tail = text.skip(start);
    if !begins_a_link(tail) {
        let rest = text.skip(start + 4);
        every_link_stands_in_the_text(rest, k);
        lemma_later(text, start + 4, urls_in(rest)[k]);
    } else {
        let run = url_run(tail);
        let rest = tail.skip(run.len() as int);
        let url = link_at(tail);
        lemma_run_is_front(tail);
        assert(run.len() > 0) by {
            reveal_strlit("http://");
            reveal_strlit("https://");
            assert(tail[0] == 'h') by {
                if starts_with(tail, "http://"@) {
                    assert(tail.subrange(0, 7)[0] == 'h');
                } else {
                    assert(tail.subrange(0, 8)[0] == 'h');
                }
            }
        }
        let found = byte_len(url) > 8;
        if found && k == 0 {
            let plain = without_sentence(run);
            lemma_sentence_front(run);
            assert(plain =~= tail.take(plain.len() as int)) by {
                assert(run == tail.take(run.len() as int));
            }
            lemma_front_stands(text, start, plain);
            reveal_strlit("%3E");
            reveal_strlit("%3e");
            if ends_with(plain, "%3E"@) {
                assert(plain =~= url + "%3E"@) by {
                    assert(plain.skip(plain.len() - 3) =~= "%3E"@) by {
                        assert(plain.subrange(plain.len() - 3, plain.len() as int) == "%3E"@);
                    }
                }
            } else if ends_with(plain, "%3e"@) {
                assert(plain =~= url + "%3e"@) by {
                    assert(plain.skip(plain.len() - 3) =~= "%3e"@) by {
                        assert(plain.subrange(plain.len() - 3, plain.len() as int) == "%3e"@);
                    }
                }
            }
            assert(url =~= tail.take(url.len() as int)) by {
                assert(plain == run.take(plain.len() as int));
                assert(run == tail.take(run.len() as int));
            }
            lemma_front_stands(text, start, url);
            assert forall|i: int| 0 <= i < url.len() implies !ends_a_url(#[trigger] url[i]) by {
                assert(url[i] == run[i]);
            }
        } else {
            let i = if found {
                k - 1
            } else {
                k
            };
            assert(rest =~= text.skip(start + run.len()));
            assert(urls_in(text)[k] == urls_in(rest)[i]);
            every_link_stands_in_the_text(rest, i);
            lemma_later(text, start + run.len(), urls_in(rest)[i]);
        }
    }
}

proof fn lemma_front_stands(text: Seq<char>, start: int, part: Seq<char>)
    requires
        0 <= start <= text.len(),
        part.len() <= text.skip(start).len(),
        part == text.skip(start).take(part.len() as int),
    ensures
        holds_text(text, part),
{
    assert(text.subrange(start, start + part.len()) =~= part);
    assert(stands_at(text, part, start));
}

proof fn lemma_holds_later(text: Seq<char>, from: int, part: Seq<char>)
    requires
        0 <= from <= text.len(),
        holds_text(text.skip(from), part),
    ensures
        holds_text(text, part),
{
    let rest = text.skip(from);
    let at = choose|at: int| stands_at(rest, part, at);
    assert(text.subrange(from + at, from + at + part.len()) =~= rest.subrange(
        at,
        at + part.len(),
    ));
    assert(stands_at(text, part, from + at));
}

proof fn lemma_later(text: Seq<char>, from: int, url: Seq<char>)
    requires
        0 <= from <= text.len(),
        holds_text(text.skip(from), url),
    ensures
        holds_text(text, url),
        forall|whole: Seq<char>| #[trigger]
            holds_text(text.skip(from), whole) ==> holds_text(text, whole),
{
    lemma_holds_later(text, from, url);
    assert forall|whole: Seq<char>| #[trigger] holds_text(text.skip(from), whole) implies
        holds_text(text, whole) by {
        lemma_holds_later(text, from, whole);
    }
}

/// Of the join links among links the longest wins, and of several as long the
/// first.
pub proof fn of_links_as_long_the_first_wins(urls: Seq<Seq<char>>)
    ensures
        join_link(urls) matches Some((url, provider)) ==> exists|k: int|
            0 <= k < urls.len() && #[trigger] urls[k] == url && provider_of(url) == Some(provider)
                && (forall|i: int|
                0 <= i < k && provider_of(#[trigger] urls[i]) is Some ==> byte_len(urls[i])
                    < byte_len(url)) && (forall|i: int|
                k < i < urls.len() && provider_of(#[trigger] urls[i]) is Some ==> byte_len(urls[i])
                    <= byte_len(url)),
    decreases urls.len(),
{
    if urls.len() > 0 {
        let front = urls.drop_last();
        let last = urls.len() - 1;
        of_links_as_long_the_first_wins(front);
        the_longest_link_wins(front);
        assert(urls[last] == urls.last());
        assert forall|i: int| 0 <= i < front.len() implies #[trigger] urls[i] == front[i] by {}
        if join_link(urls) is Some {
            if join_link(urls) == join_link(front) {
                let (url, provider) = join_link(front)->0;
                let k = choose|k: int|
                    0 <= k < front.len() && #[trigger] front[k] == url && provider_of(url) == Some(
                        provider,
                    ) && (forall|i: int|
                        0 <= i < k && provider_of(#[trigger] front[i]) is Some ==> byte_len(
                            front[i],
                        ) < byte_len(url)) && (forall|i: int|
                        k < i < front.len() && provider_of(#[trigger] front[i]) is Some
                            ==> byte_len(front[i]) <= byte_len(url));
                assert(urls[k] == url);
                assert forall|i: int|
                    0 <= i < k && provider_of(#[trigger] urls[i]) is Some implies byte_len(urls[i])
                    < byte_len(url) by {
                    assert(urls[i] == front[i]);
                }
                assert forall|i: int|
                    k < i < urls.len() && provider_of(#[trigger] urls[i]) is Some implies byte_len(
                    urls[i],
                ) <= byte_len(url) by {
                    if i < last {
                        assert(urls[i] == front[i]);
                    }
                }
            } else {
                assert(urls[last] == (join_link(urls)->0).0);
                assert forall|i: int|
                    0 <= i < last && provider_of(#[trigger] urls[i]) is Some implies byte_len(
                    urls[i],
                ) < byte_len(urls[last]) by {
                    assert(urls[i] == front[i]);
                }
            }
        }
    }
}

// ---------------------------------------------------------------------------
// Services
// ---------------------------------------------------------------------------

/// A host of a service, in lower case. One that is none of these has no service
/// of its own.
pub open spec fn is_host_of(host: Seq<char>, provider: ConferenceProvider) -> bool {
    match provider {
        ConferenceProvider::Webex => ends_with(host, "webex.com"@) || ends_with(
            host,
            "webex.com.cn"@,
        ),
        ConferenceProvider::Teams => ends_with(host, "teams.microsoft.com"@) || ends_with(
            host,
            "teams.live.com"@,
        ),
        ConferenceProvider::Zoom => ends_with(host, "zoom.us"@) || ends_with(host, "zoom.com"@)
            || ends_with(host, "zoomgov.com"@),
        ConferenceProvider::GoogleMeet => host == "meet.google.com"@,
        ConferenceProvider::Jitsi => host == "meet.jit.si"@ || ends_with(host, ".jit.si"@),
        ConferenceProvider::GoToMeeting => ends_with(host, "gotomeeting.com"@) || ends_with(
            host,
            "goto.com"@,
        ),
        ConferenceProvider::Whereby => ends_with(host, "whereby.com"@),
        _ => false,
    }
}

/// A URL, in lower case, leads into a meeting of a service rather than to another
/// of its pages.
pub open spec fn joins(url: Seq<char>, provider: ConferenceProvider) -> bool {
    match provider {
        ConferenceProvider::Webex => (holds_text(url, "j.php?"@) || holds_text(url, "/meet/"@)
            || holds_text(url, "/join/"@) || holds_text(url, "/wbxmjs/joinservice/"@))
            && !holds_text(url, "globalcallin.php"@) && !holds_text(url, "/recordingservice/"@)
            && !holds_text(url, "/playback/"@),
        ConferenceProvider::Teams => holds_text(url, "/l/meetup-join/"@),
        ConferenceProvider::Zoom => holds_text(url, "/j/"@) || holds_text(url, "/my/"@)
            || holds_text(url, "/w/"@),
        ConferenceProvider::GoToMeeting => holds_text(url, "/join/"@),
        ConferenceProvider::BigBlueButton => holds_text(url, "/bigbluebutton/api/join"@) || (
        holds_text(url, "/b/"@) && holds_text(url, "bbb"@)),
        _ => true,
    }
}

/// A host of one of the services before this one.
pub open spec fn is_of_an_earlier(host: Seq<char>, provider: ConferenceProvider) -> bool {
    let webex = is_host_of(host, ConferenceProvider::Webex);
    let teams = webex || is_host_of(host, ConferenceProvider::Teams);
    let zoom = teams || is_host_of(host, ConferenceProvider::Zoom);
    let meet = zoom || is_host_of(host, ConferenceProvider::GoogleMeet);
    let jitsi = meet || is_host_of(host, ConferenceProvider::Jitsi);
    let goto = jitsi || is_host_of(host, ConferenceProvider::GoToMeeting);
    match provider {
        ConferenceProvider::Webex => false,
        ConferenceProvider::Teams => webex,
        ConferenceProvider::Zoom => teams,
        ConferenceProvider::GoogleMeet => zoom,
        ConferenceProvider::Jitsi => meet,
        ConferenceProvider::GoToMeeting => jitsi,
        ConferenceProvider::Whereby => goto,
        _ => goto || is_host_of(host, ConferenceProvider::Whereby),
    }
}

/// A URL leads to a service exactly where its host is one of the service's and it
/// leads into a meeting. A self-hosted service is known by the path alone, on a
/// host that is no other's. No URL leads to any other service.
pub proof fn a_link_leads_to_the_service_of_its_host(
    url: Seq<char>,
    host: Seq<char>,
    provider: ConferenceProvider,
)
    requires
        host_in(lowercase(url)) == Some(host),
    ensures
        provider_of(url) == Some(provider) <==> !(provider is Other) && !is_of_an_earlier(
            host,
            provider,
        ) && (is_host_of(host, provider) || provider is BigBlueButton) && joins(
            lowercase(url),
            provider,
        ),
{
}

// ---------------------------------------------------------------------------
// Details
// ---------------------------------------------------------------------------

/// The first URI with a scheme that texts hold.
pub open spec fn is_first_uri(
    texts: Seq<Seq<char>>,
    scheme: Seq<char>,
    uri: Option<Seq<char>>,
) -> bool {
    match uri {
        Some(found) => exists|k: int|
            0 <= k < texts.len() && uri_in(#[trigger] texts[k], scheme) == Some(found) && forall|
                j: int,
            |
                0 <= j < k ==> uri_in(#[trigger] texts[j], scheme) is None,
        None => forall|j: int| 0 <= j < texts.len() ==> uri_in(#[trigger] texts[j], scheme) is None,
    }
}

proof fn lemma_first_uri(
    texts: Seq<Seq<char>>,
    scheme: Seq<char>,
    before: Option<Seq<char>>,
)
    requires
        texts.len() > 0,
        is_first_uri(texts.drop_last(), scheme, before),
    ensures
        before is Some ==> is_first_uri(texts, scheme, before),
        before is None ==> is_first_uri(texts, scheme, uri_in(texts.last(), scheme)),
{
    let front = texts.drop_last();
    let last = texts.len() - 1;
    assert(texts[last] == texts.last());
    match before {
        Some(found) => {
            let k = choose|k: int|
                0 <= k < front.len() && uri_in(#[trigger] front[k], scheme) == Some(found)
                    && forall|j: int| 0 <= j < k ==> uri_in(#[trigger] front[j], scheme) is None;
            assert(texts[k] == front[k]);
            assert forall|j: int| 0 <= j < k implies uri_in(#[trigger] texts[j], scheme)
                is None by {
                assert(texts[j] == front[j]);
            }
        },
        None => {
            assert forall|j: int| 0 <= j < last implies uri_in(#[trigger] texts[j], scheme)
                is None by {
                assert(texts[j] == front[j]);
            }
        },
    }
}

/// The address and the number to dial are the first the texts hold. The meeting's
/// number is the one the address names, or else the one that is dialled, and the
/// password is the one that is dialled.
pub proof fn the_first_to_say_something_counts(texts: Seq<Seq<char>>)
    ensures
        ({
            let said = details_in(texts);
            &&& is_first_uri(texts, "sip:"@, said.sip_address)
            &&& is_first_uri(texts, "tel:"@, said.phone)
            &&& said.meeting_number == if said.sip_address is Some && sip_number(
                said.sip_address->0,
            ) is Some {
                sip_number(said.sip_address->0)
            } else if said.phone is Some {
                numbers_in(said.phone->0).0
            } else {
                None
            }
            &&& said.password == if said.phone is Some {
                numbers_in(said.phone->0).1
            } else {
                None
            }
        }),
    decreases texts.len(),
{
    if texts.len() > 0 {
        let front = texts.drop_last();
        let known = details_in(front);
        let text = texts.last();
        the_first_to_say_something_counts(front);
        lemma_first_uri(texts, "sip:"@, known.sip_address);
        lemma_first_uri(texts, "tel:"@, known.phone);
        let named = with_sip(known, text);
        let said = with_phone(named, text);
        assert(details_in(texts) == said);
        assert(named.phone == known.phone && named.password == known.password);
        assert(said.sip_address == named.sip_address);
    }
}

/// The longest run of digits is one that the text holds, and none is longer.
pub proof fn no_run_of_digits_is_longer(s: Seq<char>, i: int, j: int)
    requires
        0 <= i <= j <= s.len(),
        all_digits(s.subrange(i, j)),
    ensures
        j - i <= longest_run(s).len(),
        all_digits(longest_run(s)),
        holds_text(s, longest_run(s)),
{
    lemma_runs(s);
    lemma_runs_bound(s, i, j);
    let (best, current) = runs_in(s);
    if current.len() > 0 && longest_run(s) == current {
        let from = s.len() - current.len();
        assert(s.subrange(from, from + current.len()) =~= current);
        assert(stands_at(s, current, from));
    }
}

proof fn lemma_runs(s: Seq<char>)
    ensures
        ({
            let (best, current) = runs_in(s);
            &&& all_digits(best) && all_digits(current)
            &&& current.len() <= s.len()
            &&& s.skip(s.len() - current.len()) == current
            &&& holds_text(s, best)
        }),
    decreases s.len(),
{
    let (best, current) = runs_in(s);
    if s.len() == 0 {
        assert(s.skip(0) =~= current);
        assert(s.subrange(0, 0) =~= best);
        assert(stands_at(s, best, 0));
    } else {
        let front = s.drop_last();
        lemma_runs(front);
        let (was, run) = runs_in(front);
        let from = front.len() - run.len();
        assert forall|part: Seq<char>| #[trigger] holds_text(front, part) implies holds_text(
            s,
            part,
        ) by {
            let at = choose|at: int| stands_at(front, part, at);
            assert(s.subrange(at, at + part.len()) =~= front.subrange(at, at + part.len()));
            assert(stands_at(s, part, at));
        }
        assert(holds_text(front, run)) by {
            assert(front.subrange(from, from + run.len()) =~= run);
            assert(stands_at(front, run, from));
        }
        assert(holds_text(s, was) && holds_text(s, run));
        if is_digit(s.last()) {
            assert(s.skip(s.len() - current.len()) =~= current) by {
                assert forall|k: int| 0 <= k < current.len() implies s[from + k]
                    == current[k] by {
                    if k < run.len() {
                        assert(front.skip(from)[k] == run[k]);
                    }
                }
            }
        } else {
            assert(s.skip(s.len() as int) =~= Seq::empty());
            assert(current =~= Seq::empty());
        }
    }
}

proof fn lemma_runs_bound(s: Seq<char>, i: int, j: int)
    requires
        0 <= i <= j <= s.len(),
        all_digits(s.subrange(i, j)),
    ensures
        ({
            let (best, current) = runs_in(s);
            &&& j == s.len() ==> j - i <= current.len()
            &&& j < s.len() ==> j - i <= best.len() || j - i <= current.len()
        }),
    decreases s.len(),
{
    if s.len() > 0 {
        let front = s.drop_last();
        let (was, run) = runs_in(front);
        if j == s.len() && i < j {
            assert(s.subrange(i, j)[j - 1 - i] == s.last());
            assert(is_digit(s.last()));
            assert(front.subrange(i, j - 1) =~= s.subrange(i, j - 1));
            assert(all_digits(front.subrange(i, j - 1))) by {
                assert forall|k: int| 0 <= k < j - 1 - i implies is_digit(
                    #[trigger] front.subrange(i, j - 1)[k],
                ) by {
                    assert(s.subrange(i, j)[k] == front.subrange(i, j - 1)[k]);
                }
            }
            lemma_runs_bound(front, i, j - 1);
        } else if j < s.len() {
            assert(front.subrange(i, j) =~= s.subrange(i, j));
            lemma_runs_bound(front, i, j);
        }
    }
}

/// The labelled lines are those that have a label and a value, the first six of
/// them.
pub proof fn the_first_labelled_lines_are_kept(lines: Seq<Seq<char>>)
    ensures
        labelled_lines(lines).len() <= 6,
        forall|k: int|
            0 <= k < labelled_lines(lines).len() ==> exists|i: int|
                0 <= i < lines.len() && labelled(#[trigger] lines[i]) == Some(
                    #[trigger] labelled_lines(lines)[k],
                ),
        labelled_lines(lines).len() < 6 ==> forall|i: int|
            0 <= i < lines.len() && labelled(#[trigger] lines[i]) is Some ==> labelled_lines(
                lines,
            ).contains(labelled(lines[i])->0),
        lines.len() > 0 ==> labelled_lines(lines.drop_last()).is_prefix_of(labelled_lines(lines)),
    decreases lines.len(),
{
    if lines.len() > 0 {
        let front = lines.drop_last();
        let before = labelled_lines(front);
        let all = labelled_lines(lines);
        the_first_labelled_lines_are_kept(front);
        assert(lines[lines.len() - 1] == lines.last());
        assert forall|k: int| 0 <= k < all.len() implies exists|i: int|
            0 <= i < lines.len() && labelled(#[trigger] lines[i]) == Some(#[trigger] all[k]) by {
            if k < before.len() {
                assert(all[k] == before[k]);
                let i = choose|i: int|
                    0 <= i < front.len() && labelled(#[trigger] front[i]) == Some(before[k]);
                assert(lines[i] == front[i]);
            } else {
                assert(labelled(lines[lines.len() - 1]) == Some(all[k]));
            }
        }
        if all.len() < 6 {
            assert forall|i: int|
                0 <= i < lines.len() && labelled(#[trigger] lines[i]) is Some implies all.contains(
                labelled(lines[i])->0,
            ) by {
                if i < front.len() {
                    assert(front[i] == lines[i]);
                    let k = choose|k: int|
                        0 <= k < before.len() && before[k] == labelled(front[i])->0;
                    assert(all[k] == before[k]);
                } else {
                    assert(all[before.len() as int] == labelled(lines[i])->0);
                }
            }
        }
    }
}

/// A line of a label, a colon, a space and a value is read as the two: a label of
/// at most forty characters without a colon, a value of at most sixty that is no
/// link, and no white space at the ends of either.
pub proof fn a_labelled_line_is_read_as_written(label: Seq<char>, value: Seq<char>)
    requires
        1 <= label.len() <= 40,
        1 <= value.len() <= 60,
        !label.contains(':'),
        !Blank::Unicode.holds(label[0]) && !Blank::Unicode.holds(label.last()),
        !Blank::Unicode.holds(value[0]) && !Blank::Unicode.holds(value.last()),
        !starts_with(value, "//"@),
        !holds_text(value, "://"@),
    ensures
        labelled(label + seq![':', ' '] + value) == Some((label, value)),
{
    let line = label + seq![':', ' '] + value;
    let n = label.len() as int;
    assert(line[0] == label[0] && line.last() == value.last());
    lemma_trimmed_same(line, Blank::Unicode);
    lemma_first_index(line, ':');
    assert(line[n] == ':');
    let at = first_index(line, ':')->0;
    if at < n {
        assert(line[at] == label[at]);
        assert(label.contains(':'));
    }
    assert(line.take(n) =~= label);
    let rest = seq![' '] + value;
    assert(line.skip(n + 1) =~= rest);
    lemma_trimmed_same(label, Blank::Unicode);
    assert(rest.skip(1) =~= value);
    assert(trimmed_front(rest, Blank::Unicode) == trimmed_front(value, Blank::Unicode));
    lemma_trimmed_same(value, Blank::Unicode);
    assert(trimmed_front(value, Blank::Unicode) == value);
    assert(trimmed(rest, Blank::Unicode) == value);
}

/// The user of a SIP address is the meeting's number where it is digits.
pub proof fn a_sip_address_names_its_meeting(user: Seq<char>, host: Seq<char>)
    requires
        user.len() > 0,
        all_digits(user),
    ensures
        sip_number("sip:"@ + user + seq!['@'] + host) == Some(user),
        sip_number(user + seq!['@'] + host) == Some(user),
{
    reveal_strlit("sip:");
    let rest = user + seq!['@'] + host;
    let sip = "sip:"@ + user + seq!['@'] + host;
    assert(is_digit(user[0]));
    assert(sip.subrange(0, 4) =~= "sip:"@);
    assert(sip.skip(4) =~= rest);
    assert(!starts_with(rest, "sip:"@)) by {
        if starts_with(rest, "sip:"@) {
            assert(rest.subrange(0, 4)[0] == 's');
            assert(rest[0] == user[0]);
        }
    }
    assert(without_schemes(rest) == rest);
    assert(without_schemes(sip) == without_schemes(sip.skip(4)));
    lemma_first_index(rest, '@');
    let n = user.len() as int;
    assert(rest[n] == '@');
    let at = first_index(rest, '@')->0;
    if at < n {
        assert(rest[at] == user[at]);
        assert(is_digit(user[at]));
    }
    assert(rest.take(n) =~= user);
}

proof fn lemma_whole_run(s: Seq<char>)
    requires
        all_digits(s),
    ensures
        longest_run(s) == s,
{
    let n = s.len() as int;
    assert(s.subrange(0, n) =~= s);
    no_run_of_digits_is_longer(s, 0, n);
    let run = longest_run(s);
    let at = choose|at: int| stands_at(s, run, at);
    assert(at == 0 && run.len() == n);
}

proof fn lemma_no_part(s: Seq<char>, part: Seq<char>, c: char)
    requires
        part.len() > 0,
        part[0] == c,
        !s.contains(c),
    ensures
        find_in(s, part) is None,
{
    lemma_find_in(s, part);
    if holds_text(s, part) {
        let at = choose|at: int| stands_at(s, part, at);
        assert(s.subrange(at, at + part.len())[0] == c);
        assert(s[at] == c);
    }
}

proof fn lemma_nothing_replaced(s: Seq<char>, part: Seq<char>, by: Seq<char>, c: char)
    requires
        part.len() > 0,
        part[0] == c,
        !s.contains(c),
    ensures
        replaced_all(s, part, by) == s,
    decreases s.len(),
{
    if s.len() > 0 {
        let rest = s.skip(1);
        if stands_at(s, part, 0) {
            assert(s.subrange(0, part.len() as int)[0] == c);
            assert(s[0] == c);
        }
        assert(!rest.contains(c)) by {
            if rest.contains(c) {
                let k = choose|k: int| 0 <= k < rest.len() && rest[k] == c;
                assert(s[k + 1] == c);
            }
        }
        lemma_nothing_replaced(rest, part, by, c);
        assert(seq![s[0]] + rest =~= s);
    }
}

/// A number to dial that plays two runs of digits after a pause, each ended by
/// the hash key, names the meeting by the first and gives the password by the
/// second.
pub proof fn what_is_played_after_the_pause(
    dialled: Seq<char>,
    number: Seq<char>,
    password: Seq<char>,
)
    requires
        !dialled.contains(',') && !dialled.contains('%'),
        number.len() >= 4 && all_digits(number),
        password.len() >= 4 && all_digits(password),
    ensures
        numbers_in(dialled + seq![',', ','] + number + seq!['#'] + password + seq!['#']) == (
            Some(number),
            Some(password),
        ),
{
    reveal_strlit(",,");
    reveal_strlit("%23");
    reveal_strlit("%2A");
    reveal_strlit("%2a");
    let none = Seq::<char>::empty();
    let played = number + seq!['#'] + (password + seq!['#'] + none);
    let tel = dialled + seq![',', ','] + number + seq!['#'] + password + seq!['#'];
    let n = dialled.len() as int;
    assert(tel =~= dialled + seq![',', ','] + played);
    assert forall|i: int| 0 <= i < played.len() implies is_digit(#[trigger] played[i])
        || played[i] == '#' by {
        if i < number.len() {
            assert(played[i] == number[i]);
        } else if i > number.len() && i < number.len() + 1 + password.len() {
            assert(played[i] == password[i - number.len() - 1]);
        }
    }
    assert(!played.contains(',') && !played.contains('%'));
    assert(!tel.contains('%')) by {
        if tel.contains('%') {
            let k = choose|k: int| 0 <= k < tel.len() && tel[k] == '%';
            if k < n {
                assert(dialled[k] == '%');
            } else if k >= n + 2 {
                assert(played[k - n - 2] == '%');
            }
        }
    }
    lemma_nothing_replaced(tel, "%23"@, "#"@, '%');
    lemma_nothing_replaced(tel, "%2A"@, "*"@, '%');
    lemma_nothing_replaced(tel, "%2a"@, "*"@, '%');
    assert(decoded_tones(tel) == tel);
    lemma_find_in(tel, ",,"@);
    assert(tel.subrange(n, n + 2) =~= ",,"@);
    assert(stands_at(tel, ",,"@, n));
    let at = find_in(tel, ",,"@)->0;
    if at < n {
        assert(tel.subrange(at, at + 2)[0] == ',');
        assert(dialled[at] == ',');
    }
    if n < at {
        assert(!stands_at(tel, ",,"@, n));
    }
    assert(tel.skip(n + 2) =~= played);
    lemma_no_part(played, ",,"@, ',');
    // The parts between the hash keys.
    lemma_split_concat(password, none, '#');
    lemma_split_concat(number, password + seq!['#'] + none, '#');
    lemma_split_whole(number, '#');
    lemma_split_whole(password, '#');
    assert(split_on(none, '#') =~= seq![none]);
    let parts = seq![number, password, none];
    assert(split_on(played, '#') =~= parts);
    lemma_whole_run(number);
    lemma_whole_run(password);
    lemma_whole_run(none);
    let one = seq![number];
    let two = seq![number, password];
    assert(one.drop_last() =~= Seq::empty());
    assert(two.drop_last() =~= one);
    assert(parts.drop_last() =~= two);
    assert(useful_runs(one.drop_last()) =~= Seq::empty());
    assert(useful_runs(one) =~= seq![number]);
    assert(useful_runs(two) =~= seq![number, password]);
    assert(useful_runs(parts) == useful_runs(two));
}

} // verus!
