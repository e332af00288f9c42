use cal_core::conferencing::{
    classify, detect_conference, extract_urls, meeting_block, without_meeting_block,
    ConferenceLink, ConferenceProvider, ConferenceSource, ConferenceSources,
};

fn from_description(text: &str) -> Option<ConferenceLink> {
    detect_conference(&ConferenceSources {
        description: Some(text),
        ..Default::default()
    })
}

#[test]
fn a_webex_join_link_is_found_in_a_description() {
    let found = from_description(
        "Bitte tritt dem Meeting bei: https://example.webex.com/example/j.php?MTID=m1234567890abcdef",
    )
    .expect("detected");
    assert_eq!(found.provider, ConferenceProvider::Webex);
    assert_eq!(found.source, ConferenceSource::Description);
    assert!(found.join_url.ends_with("m1234567890abcdef"));
}

#[test]
fn detection_does_not_depend_on_the_language_of_the_invitation() {
    let url = "https://example.webex.com/example/j.php?MTID=mabc";
    for prose in [
        format!("Join meeting: {url}"),
        format!("Meeting beitreten: {url}"),
        format!("Rejoindre la réunion : {url}"),
        format!("会議に参加する: {url}"),
    ] {
        let found = from_description(&prose).expect("detected");
        assert_eq!(found.join_url, url, "failed for {prose}");
    }
}

#[test]
fn the_location_field_is_a_source_because_outlook_uses_it() {
    let found = detect_conference(&ConferenceSources {
        location: Some("https://example.webex.com/example/j.php?MTID=mxyz"),
        ..Default::default()
    })
    .expect("detected");
    assert_eq!(found.source, ConferenceSource::Location);
}

#[test]
fn a_provider_field_outranks_everything_scraped() {
    let found = detect_conference(&ConferenceSources {
        provider_field: Some("https://meet.google.com/abc-defg-hij"),
        location: Some("https://example.webex.com/example/j.php?MTID=m1"),
        description: Some("https://example.zoom.us/j/123"),
        ..Default::default()
    })
    .expect("detected");
    assert_eq!(found.provider, ConferenceProvider::GoogleMeet);
    assert_eq!(found.source, ConferenceSource::ProviderField);
}

#[test]
fn the_bare_site_root_is_not_a_join_link() {
    assert!(detect_conference(&ConferenceSources {
        location: Some("https://example.webex.com"),
        ..Default::default()
    })
    .is_none());
}

#[test]
fn the_dial_in_page_is_not_a_join_link_even_though_it_carries_an_mtid() {
    assert!(from_description(
        "Global call-in numbers: https://example.webex.com/example/globalcallin.php?MTID=m99"
    )
    .is_none());
}

#[test]
fn a_recording_link_is_not_a_meeting() {
    assert!(from_description(
        "Aufzeichnung: https://example.webex.com/recordingservice/sites/example/recording/abc"
    )
    .is_none());
}

#[test]
fn trailing_punctuation_and_brackets_never_end_up_in_the_url() {
    for (text, want) in [
        (
            "Join at https://example.webex.com/e/j.php?MTID=m1.",
            "https://example.webex.com/e/j.php?MTID=m1",
        ),
        (
            "Join at <https://example.webex.com/e/j.php?MTID=m2>",
            "https://example.webex.com/e/j.php?MTID=m2",
        ),
        (
            "Join at https://example.webex.com/e/j.php?MTID=m3%3E",
            "https://example.webex.com/e/j.php?MTID=m3",
        ),
        (
            "(see https://example.webex.com/e/j.php?MTID=m4)",
            "https://example.webex.com/e/j.php?MTID=m4",
        ),
    ] {
        assert_eq!(from_description(text).expect("detected").join_url, want);
    }
}

#[test]
fn the_longest_url_in_a_source_wins() {
    let long = "https://example.webex.com/wbxmjs/joinservice/sites/example/meeting/download/abc?siteurl=example&MTID=m1";
    let found = from_description(&format!(
        "Alt: https://example.webex.com/e/j.php?MTID=m0 Neu: {long}"
    ))
    .expect("detected");
    assert_eq!(found.join_url, long);
}

#[test]
fn the_meeting_number_and_password_come_out_of_the_dtmf_not_the_prose() {
    let found = from_description(
        "Beitreten: https://example.webex.com/e/j.php?MTID=m1\n\
         Einwahl: tel:+49-555-0100,,*01*25503113955%23626114%23*01*",
    )
    .expect("detected");
    assert_eq!(found.meeting_number.as_deref(), Some("25503113955"));
    assert_eq!(found.password.as_deref(), Some("626114"));
    assert!(found.phone.is_some());
}

#[test]
fn the_meeting_number_also_comes_out_of_a_sip_address() {
    let found = from_description(
        "Video: sip:25503113955@example.webex.com\n\
         Link: https://example.webex.com/e/j.php?MTID=m1",
    )
    .expect("detected");
    assert_eq!(found.meeting_number.as_deref(), Some("25503113955"));
    assert_eq!(
        found.sip_address.as_deref(),
        Some("sip:25503113955@example.webex.com")
    );
}

#[test]
fn details_are_gathered_across_fields_not_only_where_the_link_was() {
    let found = detect_conference(&ConferenceSources {
        location: Some("https://example.webex.com/e/j.php?MTID=m1"),
        description: Some("tel:+49-555-0100,,*01*25503113955%23626114%23*01*"),
        ..Default::default()
    })
    .expect("detected");
    assert_eq!(found.source, ConferenceSource::Location);
    assert_eq!(found.password.as_deref(), Some("626114"));
}

#[test]
fn the_other_providers_are_recognised_too() {
    for (url, provider) in [
        (
            "https://teams.microsoft.com/l/meetup-join/19%3ameeting_abc",
            ConferenceProvider::Teams,
        ),
        (
            "https://example.zoom.us/j/123456789",
            ConferenceProvider::Zoom,
        ),
        (
            "https://meet.google.com/abc-defg-hij",
            ConferenceProvider::GoogleMeet,
        ),
        ("https://meet.jit.si/AperioTest", ConferenceProvider::Jitsi),
        ("https://whereby.com/aperio", ConferenceProvider::Whereby),
    ] {
        let found = from_description(&format!("Link: {url}")).expect(url);
        assert_eq!(found.provider, provider, "for {url}");
    }
}

const GERMAN_EXCHANGE_INVITATION: &str = "                Hallo Leonie,\n\
    \n\
    wie vereinbart, hier der Regeltermin für die Abstimmung deiner Bachelorarbeit.\n\
    \n\
    Bis dahin!\n\
    \n\
    Mit lieben Grüßen.\n\
    \n\
    Toni\n\
    ________________________________\n\
    Nehmen Sie an dieser Videokonferenz teil via \
    https://example.webex.com/example/j.php?MTID=m0123456789abcdef0123456789abcdef\n\
    \n\
    Besprechungs-ID: 27401156686\n\
    Passwort: PteT3RSYi92\n";

#[test]
fn the_real_german_invitation_is_recognised_with_an_empty_location() {
    let found = detect_conference(&ConferenceSources {
        location: Some(""),
        description: Some(GERMAN_EXCHANGE_INVITATION),
        ..Default::default()
    })
    .expect("the join link must be found");

    assert_eq!(found.provider, ConferenceProvider::Webex);
    assert_eq!(found.source, ConferenceSource::Description);
    assert_eq!(
        found.join_url,
        "https://example.webex.com/example/j.php?MTID=m0123456789abcdef0123456789abcdef"
    );
}

#[test]
fn the_real_invitations_details_survive_without_knowing_any_german() {
    let found = detect_conference(&ConferenceSources {
        description: Some(GERMAN_EXCHANGE_INVITATION),
        ..Default::default()
    })
    .expect("detected");

    assert!(found.meeting_number.is_none());
    assert!(found.password.is_none());
    assert!(found.phone.is_none() && found.sip_address.is_none());

    assert_eq!(
        found.labelled_details,
        vec![
            ("Besprechungs-ID".to_string(), "27401156686".to_string()),
            ("Passwort".to_string(), "PteT3RSYi92".to_string()),
        ]
    );
}

#[test]
fn the_prose_above_the_link_is_not_harvested_as_details() {
    let found = detect_conference(&ConferenceSources {
        description: Some(GERMAN_EXCHANGE_INVITATION),
        ..Default::default()
    })
    .expect("detected");
    assert!(
        found
            .labelled_details
            .iter()
            .all(|(l, _)| l != "Hallo Leonie"),
        "picked up prose: {:?}",
        found.labelled_details
    );
    assert_eq!(found.labelled_details.len(), 2);
}

#[test]
fn an_english_invitation_yields_english_labels_from_the_same_code() {
    let found = from_description(
        "Join the meeting: https://example.webex.com/e/j.php?MTID=m1\n\
         \n\
         Meeting number (access code): 2550 311 3955\n\
         Meeting password: ocn114\n",
    )
    .expect("detected");
    assert_eq!(
        found.labelled_details,
        vec![
            (
                "Meeting number (access code)".to_string(),
                "2550 311 3955".to_string()
            ),
            ("Meeting password".to_string(), "ocn114".to_string()),
        ]
    );
}

#[test]
fn an_ordinary_link_is_not_mistaken_for_a_meeting() {
    for text in [
        "Agenda: https://example.com/agenda.pdf",
        "https://github.com/Timtam/aperio",
        "no links at all",
        "",
    ] {
        assert!(from_description(text).is_none(), "false positive: {text}");
    }
}

#[test]
fn a_teams_link_that_is_not_a_meeting_join_is_ignored() {
    assert!(from_description("https://teams.microsoft.com/l/channel/19%3aabc").is_none());
}

#[test]
fn urls_survive_multibyte_text_around_them() {
    let found =
        from_description("Grüße — beitreten: https://example.webex.com/e/j.php?MTID=mü1 …")
            .expect("detected");
    assert!(found.join_url.starts_with("https://example.webex.com"));
}


fn two_line_block(url: &str, password: Option<&str>) -> String {
    let mut lines = vec![("Join the meeting".to_string(), url.to_string())];
    if let Some(p) = password.map(str::trim).filter(|p| !p.is_empty()) {
        lines.push(("Meeting password".to_string(), p.to_string()));
    }
    meeting_block(&lines)
}

#[test]
fn the_block_is_readable_by_the_detector_that_reads_everyone_elses() {
    let url = "https://example.webex.com/example/j.php?MTID=mabc";
    let text = two_line_block(url, Some("s3cr3t"));
    let found = detect_conference(&ConferenceSources {
        description: Some(&text),
        ..Default::default()
    })
    .expect("its own block must be detectable");
    assert_eq!(found.join_url, url);
    assert!(found
        .labelled_details
        .iter()
        .any(|(_, value)| value == "s3cr3t"));
}

#[test]
fn a_meeting_without_a_password_gets_no_password_line() {
    let text = two_line_block("https://example.webex.com/e/j.php?MTID=m1", None);
    assert!(!text.contains("password"), "{text}");
    assert_eq!(
        two_line_block("https://example.webex.com/e/j.php?MTID=m1", Some("  ")),
        text
    );
}

#[test]
fn removing_the_block_leaves_the_users_own_text_alone() {
    let url = "https://example.webex.com/example/j.php?MTID=mabc";
    let user_text = "Bring the Q3 numbers.\n\nAgenda:\n- budget\n- hiring";
    let combined = format!("{user_text}\n\n{}", two_line_block(url, Some("s3cr3t")));
    assert_eq!(without_meeting_block(&combined, url), user_text);
}

#[test]
fn removing_a_block_that_is_the_whole_description_empties_it() {
    let url = "https://example.webex.com/e/j.php?MTID=m1";
    let only = two_line_block(url, Some("pw"));
    assert_eq!(without_meeting_block(&only, url), "");
}

#[test]
fn a_description_that_never_had_a_block_is_returned_unchanged() {
    let text = "Just a note.\nWith two lines.";
    assert_eq!(
        without_meeting_block(text, "https://example.webex.com/e/j.php?MTID=m1"),
        text
    );
    assert_eq!(without_meeting_block(text, ""), text);
}

#[test]
fn text_written_below_the_block_survives() {
    let url = "https://example.webex.com/e/j.php?MTID=m1";
    let combined = format!(
        "{}\nPlease dial in five minutes early.",
        two_line_block(url, Some("pw"))
    );
    assert_eq!(
        without_meeting_block(&combined, url),
        "Please dial in five minutes early."
    );
}

#[test]
fn a_block_written_by_another_client_is_removed_too() {
    let url = "https://example.webex.com/example/j.php?MTID=mabc";
    let foreign = format!(
        "Nehmen Sie an dieser Videokonferenz teil via {url}\n\
         Besprechungs-ID: 27401156686\n\
         Passwort: PteT3RSYi92\n\
         \n\
         Bis dahin!"
    );
    assert_eq!(without_meeting_block(&foreign, url), "Bis dahin!");
}

#[test]
fn the_round_trip_is_stable() {
    let url = "https://example.webex.com/e/j.php?MTID=m1";
    let user_text = "Notes.";
    let once = format!("{user_text}\n\n{}", two_line_block(url, Some("pw")));
    let stripped = without_meeting_block(&once, url);
    let twice = format!("{stripped}\n\n{}", two_line_block(url, Some("pw")));
    assert_eq!(once, twice);
}

#[test]
fn every_provider_has_its_key() {
    let keys = [
        (ConferenceProvider::Webex, "webex"),
        (ConferenceProvider::Teams, "teams"),
        (ConferenceProvider::Zoom, "zoom"),
        (ConferenceProvider::GoogleMeet, "googleMeet"),
    ];
    for (provider, key) in keys {
        assert_eq!(provider.i18n_key(), key);
    }
}

#[test]
fn urls_are_taken_out_of_the_text_in_order() {
    assert_eq!(
        extract_urls("a http://one.example/x, b (https://two.example/y). c httpx://no"),
        ["http://one.example/x", "https://two.example/y"]
    );
    assert!(extract_urls("nothing here").is_empty());
}

#[test]
fn a_url_is_classified_by_its_host_and_path() {
    assert_eq!(
        classify("HTTPS://Example.Webex.com/e/j.php?MTID=m1"),
        Some(ConferenceProvider::Webex)
    );
    assert_eq!(classify("https://example.com/j.php?MTID=m1"), None);
}

#[test]
fn a_block_is_its_labelled_lines() {
    assert_eq!(
        meeting_block(&[
            ("Join".to_string(), "https://meet.jit.si/a".to_string()),
            ("Password".to_string(), "pw".to_string()),
        ]),
        "Join: https://meet.jit.si/a\nPassword: pw"
    );
    assert_eq!(meeting_block(&[]), "");
}

#[test]
fn an_icalendar_conference_outranks_a_vendor_property() {
    let found = detect_conference(&ConferenceSources {
        icalendar_conference: &["https://meet.jit.si/stated"],
        vendor_properties: &["https://meet.jit.si/vendor"],
        ..Default::default()
    })
    .expect("detected");
    assert_eq!(found.source, ConferenceSource::IcalendarConference);
    assert_eq!(found.join_url, "https://meet.jit.si/stated");
    let found = detect_conference(&ConferenceSources {
        vendor_properties: &["https://meet.jit.si/vendor"],
        location: Some("https://meet.jit.si/place"),
        ..Default::default()
    })
    .expect("detected");
    assert_eq!(found.source, ConferenceSource::VendorProperty);
}

#[test]
fn blank_lines_away_from_the_block_are_the_users_own() {
    let url = "https://x.webex.com/meet/a";
    let removed = |text: &str| without_meeting_block(text, url);
    assert_eq!(
        removed("A\n\n\nB\n\nJoin: https://x.webex.com/meet/a"),
        "A\n\n\nB"
    );
    assert_eq!(
        removed("  A\r\n\r\n\r\nB  \r\n\r\nJoin: https://x.webex.com/meet/a\r\n"),
        "  A\r\n\r\n\r\nB  "
    );
    assert_eq!(
        removed("Join: https://x.webex.com/meet/a\nPIN: 1\n\n\n  A\n\n\nB\n"),
        "  A\n\n\nB\n"
    );
}

#[test]
fn the_gap_a_block_leaves_is_one_blank_line() {
    let url = "https://x.webex.com/meet/a";
    let removed = |text: &str| without_meeting_block(text, url);
    assert_eq!(
        removed("A\n\nJoin: https://x.webex.com/meet/a\nPIN: 1\n\nB"),
        "A\n\nB"
    );
    assert_eq!(removed("A\nJoin: https://x.webex.com/meet/a\nB"), "A\nB");
    assert_eq!(
        removed("A\n\n\nJoin: https://x.webex.com/meet/a\n\n\nhttps://x.webex.com/meet/a\n \nB"),
        "A\n\nB"
    );
    assert_eq!(removed("\n\nJoin: https://x.webex.com/meet/a\n\n"), "");
}
