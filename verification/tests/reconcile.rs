use chrono::TimeZone;
use furcons_bsky_labeler::event::{Date, Event};
use furcons_bsky_labeler::reconcile::{
    ingest_listing, old_defs_from_inputs, reconcile_plan, sort_events, DefInput, EventInput,
    OldDef, Write,
};

fn anthrocon_input() -> EventInput {
    EventInput {
        id: "anthrocon-2025".to_string(),
        name: "Anthrocon".to_string(),
        venue: "David L. Lawrence Convention Center".to_string(),
        address: Some("Pittsburgh, PA".to_string()),
        country: Some("US".to_string()),
        start_date: Date { year: 2025, month: 7, day: 3 },
        end_date: Date { year: 2025, month: 7, day: 6 },
        timezone: Some("America/New_York".to_string()),
    }
}

const NOW_US: i64 = 1700000000000000;

#[test]
fn test_first_sync() {
    let listing = vec![anthrocon_input()];
    let events = ingest_listing(&listing, NOW_US);
    assert_eq!(events.len(), 1);
    assert_eq!(events[0].label_id, "anthrocon");
    let sorted = sort_events(events);
    let plan = reconcile_plan(sorted, &vec![], &vec![], NOW_US, "https://cons.example", "did:plc:labeler");

    assert_eq!(plan.writes.len(), 3);
    let rkey = match &plan.writes[0] {
        Write::CreatePost { post } => {
            assert_eq!(post.text, "Anthrocon");
            assert_eq!(post.byte_end, "Anthrocon".len());
            assert_eq!(post.link_uri, "https://cons.example/anthrocon-2025");
            assert_eq!(post.rkey.len(), 13);
            post.rkey.clone()
        },
        _ => panic!("expected a post creation first"),
    };
    match &plan.writes[1] {
        Write::CreateThreadgate { gate } => {
            assert_eq!(gate.rkey, rkey);
            assert_eq!(
                gate.post_uri,
                format!("at://did:plc:labeler/app.bsky.feed.post/{}", rkey)
            );
        },
        _ => panic!("expected a thread-gate creation second"),
    }
    match &plan.writes[2] {
        Write::PutLabelerService { record } => {
            assert_eq!(record.label_values, vec!["anthrocon".to_string()]);
            assert_eq!(record.defs.len(), 1);
            assert_eq!(record.defs[0].identifier, "anthrocon");
            assert_eq!(record.defs[0].name, "Anthrocon");
            assert_eq!(record.defs[0].event_id, "anthrocon-2025");
            assert_eq!(record.defs[0].post_rkey.as_deref(), Some(rkey.as_str()));
            assert!(record.defs[0].description.contains("2025-07-03"));
            assert!(record.defs[0].description.contains("2025-07-06"));
            assert_eq!(record.defs[0].severity, "inform");
            assert_eq!(record.defs[0].blurs, "none");
            assert_eq!(record.defs[0].default_setting, "warn");
            assert!(!record.defs[0].adult_only);
            assert_eq!(record.defs[0].locale_lang, "en");
        },
        _ => panic!("expected the service record last"),
    }

    assert_eq!(plan.map.rkeys_to_ids.len(), 1);
    assert_eq!(plan.map.rkeys_to_ids[0].0, rkey);
    assert_eq!(plan.map.rkeys_to_ids[0].1, "anthrocon-2025");
    assert_eq!(plan.map.events.len(), 1);
    assert_eq!(plan.map.events[0].rkey.as_deref(), Some(rkey.as_str()));
}

#[test]
fn test_reconcile_delete() {
    let old = vec![OldDef {
        identifier: "anthrocon".to_string(),
        post_rkey: Some("3kabcdefghijk".to_string()),
        event_id: "anthrocon-2025".to_string(),
    }];
    let existing = vec!["3kabcdefghijk".to_string()];
    let plan = reconcile_plan(
        vec![],
        &old,
        &existing,
        NOW_US,
        "https://cons.example",
        "did:plc:labeler",
    );
    assert_eq!(plan.writes.len(), 3);
    assert!(matches!(&plan.writes[0], Write::DeletePost { rkey } if rkey == "3kabcdefghijk"));
    assert!(
        matches!(&plan.writes[1], Write::DeleteThreadgate { rkey } if rkey == "3kabcdefghijk")
    );
    match &plan.writes[2] {
        Write::PutLabelerService { record } => {
            assert!(record.label_values.is_empty());
            assert!(record.defs.is_empty());
        },
        _ => panic!("expected the service record last"),
    }
    assert!(plan.map.rkeys_to_ids.is_empty());
    assert!(plan.map.events.is_empty());
}

#[test]
fn test_second_run_is_idempotent() {
    let listing = vec![anthrocon_input()];
    let sorted1 = sort_events(ingest_listing(&listing, NOW_US));
    let plan1 = reconcile_plan(sorted1, &vec![], &vec![], NOW_US, "https://cons.example", "did:plc:labeler");

    let (defs1, values1) = match &plan1.writes[plan1.writes.len() - 1] {
        Write::PutLabelerService { record } => (record.defs.clone(), record.label_values.clone()),
        _ => panic!("expected the service record last"),
    };
    let old2: Vec<OldDef> = defs1
        .iter()
        .map(|d| OldDef {
            identifier: d.identifier.clone(),
            post_rkey: d.post_rkey.clone(),
            event_id: d.event_id.clone(),
        })
        .collect();
    let existing2: Vec<String> =
        plan1.map.rkeys_to_ids.iter().map(|p| p.0.clone()).collect();

    let sorted2 = sort_events(ingest_listing(&listing, NOW_US));
    let plan2 = reconcile_plan(
        sorted2,
        &old2,
        &existing2,
        NOW_US + 5000000,
        "https://cons.example",
        "did:plc:labeler",
    );

    // The second run only replaces the service record.
    assert_eq!(plan2.writes.len(), 1);
    match &plan2.writes[0] {
        Write::PutLabelerService { record } => {
            assert_eq!(record.label_values, values1);
            assert_eq!(record.defs.len(), defs1.len());
            for (a, b) in record.defs.iter().zip(defs1.iter()) {
                assert_eq!(a.identifier, b.identifier);
                assert_eq!(a.name, b.name);
                assert_eq!(a.description, b.description);
                assert_eq!(a.post_rkey, b.post_rkey);
                assert_eq!(a.event_id, b.event_id);
            }
        },
        _ => panic!("expected only the service record"),
    }

    // The correlation map is unchanged.
    assert_eq!(plan2.map.rkeys_to_ids.len(), plan1.map.rkeys_to_ids.len());
    for (a, b) in plan2.map.rkeys_to_ids.iter().zip(plan1.map.rkeys_to_ids.iter()) {
        assert_eq!(a, b);
    }
}

#[test]
fn test_ingest_dedups_by_id() {
    let mut first = anthrocon_input();
    first.name = "Anthrocon Old Name".to_string();
    let second = anthrocon_input();
    let events = ingest_listing(&vec![first, second], NOW_US);
    // The last occurrence of an id wins, as insertion into a map keyed by
    // id would have it.
    assert_eq!(events.len(), 1);
    assert_eq!(events[0].name, "Anthrocon");
    assert_eq!(events[0].label_id, "anthrocon");
}

#[test]
fn test_map_collapses_duplicate_rkeys() {
    // Two old definitions claiming the same post for two different events:
    // a corrupt old record must not leave the correlation map with a
    // duplicated key.
    let mut other = anthrocon_input();
    other.id = "other-con".to_string();
    other.name = "Other Con".to_string();
    let listing = vec![anthrocon_input(), other];
    let old = vec![
        OldDef {
            identifier: "anthrocon".to_string(),
            post_rkey: Some("3kabcdefghijk".to_string()),
            event_id: "anthrocon-2025".to_string(),
        },
        OldDef {
            identifier: "other-con".to_string(),
            post_rkey: Some("3kabcdefghijk".to_string()),
            event_id: "other-con".to_string(),
        },
    ];
    let existing = vec!["3kabcdefghijk".to_string()];
    let sorted = sort_events(ingest_listing(&listing, NOW_US));
    let plan = reconcile_plan(sorted, &old, &existing, NOW_US, "https://cons.example", "did:plc:labeler");
    assert_eq!(plan.map.events.len(), 2);
    assert_eq!(plan.map.rkeys_to_ids.len(), 1);
    assert_eq!(plan.map.rkeys_to_ids[0].0, "3kabcdefghijk");
}

#[test]
fn test_ingest_drops_expired_events() {
    let mut old_event = anthrocon_input();
    old_event.start_date = Date { year: 2000, month: 1, day: 1 };
    old_event.end_date = Date { year: 2000, month: 1, day: 2 };
    let events = ingest_listing(&vec![old_event], NOW_US);
    assert!(events.is_empty());
}

#[test]
fn test_sort_events_by_date_then_id() {
    let mut a = anthrocon_input();
    a.id = "bbb".to_string();
    let mut b = anthrocon_input();
    b.id = "aaa".to_string();
    let mut c = anthrocon_input();
    c.id = "ccc".to_string();
    c.start_date = Date { year: 2025, month: 6, day: 1 };
    c.end_date = Date { year: 2025, month: 6, day: 3 };
    let sorted = sort_events(ingest_listing(&vec![a, b, c], NOW_US));
    let ids: Vec<&str> = sorted.iter().map(|e| e.id.as_str()).collect();
    assert_eq!(ids, vec!["ccc", "aaa", "bbb"]);
}

#[test]
fn test_old_defs_from_inputs_drops_unnamed() {
    let defs = old_defs_from_inputs(vec![
        DefInput {
            identifier: "a".to_string(),
            post_rkey: Some("k1".to_string()),
            event_id: Some("e1".to_string()),
        },
        DefInput { identifier: "b".to_string(), post_rkey: None, event_id: None },
    ]);
    assert_eq!(defs.len(), 1);
    assert_eq!(defs[0].identifier, "a");
}

#[test]
fn test_end_time_with_timezone() {
    let mut e = event_for(anthrocon_input());
    e.timezone = Some("America/New_York".to_string());
    let expected = chrono_tz::America::New_York
        .with_ymd_and_hms(2025, 7, 7, 0, 0, 0)
        .unwrap()
        .to_utc()
        .timestamp_micros();
    assert_eq!(e.end_time(), Some(expected));
}

#[test]
fn test_end_time_dst_gap_falls_back_to_one() {
    // America/Santiago has no midnight on 2022-09-11: DST starts then.
    let gap = chrono::NaiveDate::from_ymd_opt(2022, 9, 11)
        .unwrap()
        .and_hms_opt(0, 0, 0)
        .unwrap()
        .and_local_timezone(chrono_tz::America::Santiago)
        .earliest();
    assert!(gap.is_none());

    let mut e = event_for(anthrocon_input());
    e.end_date = Date { year: 2022, month: 9, day: 10 };
    e.timezone = Some("America/Santiago".to_string());
    let expected = chrono_tz::America::Santiago
        .with_ymd_and_hms(2022, 9, 11, 1, 0, 0)
        .unwrap()
        .to_utc()
        .timestamp_micros();
    assert_eq!(e.end_time(), Some(expected));
}

#[test]
fn test_end_time_without_timezone_is_utc() {
    let mut e = event_for(anthrocon_input());
    e.timezone = None;
    let expected = chrono::Utc.with_ymd_and_hms(2025, 7, 7, 0, 0, 0).unwrap().timestamp_micros();
    assert_eq!(e.end_time(), Some(expected));
}

fn event_for(i: EventInput) -> Event {
    Event {
        id: i.id,
        name: i.name,
        venue: i.venue,
        address: i.address,
        country: i.country,
        start_date: i.start_date,
        end_date: i.end_date,
        timezone: i.timezone,
        label_id: "anthrocon".to_string(),
        rkey: None,
    }
}
