use atrium_crypto::keypair::Did;
use chrono::TimeZone;
use furcons_bsky_labeler::event::{Date, Event};
use furcons_bsky_labeler::firehose::{
    decompress_frame, handle_like_create, handle_like_delete, parse_at_uri,
    should_checkpoint_cursor,
};
use furcons_bsky_labeler::labellog::LabelLog;
use furcons_bsky_labeler::state::CorrelationMap;

fn test_key() -> Vec<u8> {
    vec![1u8; 32]
}

fn labeler_did() -> String {
    let keypair = atrium_crypto::keypair::Secp256k1Keypair::import(&test_key()).unwrap();
    keypair.did()
}

fn anthrocon_map() -> CorrelationMap {
    CorrelationMap {
        rkeys_to_ids: vec![("abc".to_string(), "anthrocon-2025".to_string())],
        events: vec![Event {
            id: "anthrocon-2025".to_string(),
            name: "Anthrocon".to_string(),
            venue: "Pittsburgh".to_string(),
            address: None,
            country: Some("US".to_string()),
            start_date: Date { year: 2025, month: 7, day: 3 },
            end_date: Date { year: 2025, month: 7, day: 6 },
            timezone: Some("America/New_York".to_string()),
            label_id: "anthrocon".to_string(),
            rkey: Some("abc".to_string()),
        }],
    }
}

#[test]
fn test_parse_at_uri_splits() {
    let p = parse_at_uri("at://did:plc:x/app.bsky.feed.post/abc").unwrap();
    assert_eq!(p.0, "did:plc:x");
    assert_eq!(p.1, "app.bsky.feed.post");
    assert_eq!(p.2, "abc");
}

#[test]
fn test_parse_at_uri_keeps_extra_slashes_in_rkey() {
    let p = parse_at_uri("at://did:plc:x/coll/a/b").unwrap();
    assert_eq!(p.2, "a/b");
}

#[test]
fn test_parse_at_uri_rejects_malformed() {
    assert!(parse_at_uri("https://example.com").is_none());
    assert!(parse_at_uri("at://did-only").is_none());
    assert!(parse_at_uri("at://did/coll").is_none());
    assert!(parse_at_uri("at:/").is_none());
}

const TIME_US: u64 = 1700000000000000;

#[test]
fn test_like_emit() {
    let did = labeler_did();
    let key = test_key();
    let map = anthrocon_map();
    let mut log = LabelLog::new();
    // One earlier label, so the new row must take the next number.
    let prev = furcons_bsky_labeler::label::Label {
        val: "older".to_string(),
        uri: "did:plc:bob".to_string(),
        src: did.clone(),
        cts: furcons_bsky_labeler::event::rfc3339_micros(1).unwrap(),
        exp: None,
        neg: None,
        ver: Some(1),
        sig: None,
    };
    log.emit(&key, &prev, "zzz").unwrap();
    let prev_max = log.max_seq();

    let subject = format!("at://{}/app.bsky.feed.post/abc", did);
    let seq = handle_like_create(
        &map,
        &mut log,
        &key,
        &did,
        TIME_US,
        &subject,
        "did:plc:alice",
        "likekey1",
    )
    .unwrap()
    .unwrap();
    assert_eq!(seq, prev_max + 1);

    let rows = log.rows_after(prev_max);
    assert_eq!(rows.len(), 1);
    let decoded: atrium_api::com::atproto::label::defs::Label =
        serde_ipld_dagcbor::from_slice(&rows[0].1).unwrap();
    assert_eq!(decoded.val, "anthrocon");
    assert_eq!(decoded.uri, "did:plc:alice");
    assert_eq!(decoded.neg, None);
    assert_eq!(decoded.ver, Some(1));

    // The expiry is the event's end, in its timezone, plus seven days.
    let end = chrono_tz::America::New_York
        .with_ymd_and_hms(2025, 7, 7, 0, 0, 0)
        .unwrap()
        .to_utc()
        .timestamp_micros();
    let expected_exp =
        furcons_bsky_labeler::event::rfc3339_micros(end + 604800000000).unwrap();
    assert_eq!(decoded.exp.as_ref().unwrap().as_str(), expected_exp);
    let expected_cts = furcons_bsky_labeler::event::rfc3339_micros(TIME_US as i64).unwrap();
    assert_eq!(decoded.cts.as_str(), expected_cts);
}

#[test]
fn test_like_for_unknown_post_is_ignored() {
    let did = labeler_did();
    let key = test_key();
    let map = anthrocon_map();
    let mut log = LabelLog::new();
    let subject = format!("at://{}/app.bsky.feed.post/unknown", did);
    let r = handle_like_create(
        &map,
        &mut log,
        &key,
        &did,
        TIME_US,
        &subject,
        "did:plc:alice",
        "likekey1",
    );
    assert!(matches!(r, Ok(None)));
    assert_eq!(log.max_seq(), 0);

    // A like on someone else's post is ignored too.
    let foreign = "at://did:plc:someoneelse/app.bsky.feed.post/abc";
    let r2 = handle_like_create(
        &map,
        &mut log,
        &key,
        &did,
        TIME_US,
        foreign,
        "did:plc:alice",
        "likekey2",
    );
    assert!(matches!(r2, Ok(None)));
    assert_eq!(log.max_seq(), 0);
}

#[test]
fn test_like_delete_emits_negation() {
    let did = labeler_did();
    let key = test_key();
    let map = anthrocon_map();
    let mut log = LabelLog::new();
    let subject = format!("at://{}/app.bsky.feed.post/abc", did);
    handle_like_create(&map, &mut log, &key, &did, TIME_US, &subject, "did:plc:alice", "likekey1")
        .unwrap()
        .unwrap();

    let seq = handle_like_delete(&mut log, &key, &did, TIME_US + 1000, "did:plc:alice", "likekey1")
        .unwrap()
        .unwrap();
    assert_eq!(seq, 2);
    let rows = log.rows_after(1);
    assert_eq!(rows.len(), 1);
    let decoded: atrium_api::com::atproto::label::defs::Label =
        serde_ipld_dagcbor::from_slice(&rows[0].1).unwrap();
    assert_eq!(decoded.val, "anthrocon");
    assert_eq!(decoded.uri, "did:plc:alice");
    assert_eq!(decoded.neg, Some(true));
    assert_eq!(decoded.exp, None);

    // Deleting a like that never produced a label emits nothing.
    let r = handle_like_delete(&mut log, &key, &did, TIME_US + 2000, "did:plc:bob", "otherkey");
    assert!(matches!(r, Ok(None)));
    assert_eq!(log.max_seq(), 2);
}

#[test]
fn test_should_checkpoint_cursor() {
    assert!(should_checkpoint_cursor(10_000_000, 4_000_000, 5_000_000));
    assert!(should_checkpoint_cursor(9_000_000, 4_000_000, 5_000_000));
    assert!(!should_checkpoint_cursor(8_999_999, 4_000_000, 5_000_000));
    assert!(!should_checkpoint_cursor(3_000_000, 4_000_000, 5_000_000));
}

#[test]
fn test_decompress_frame() {
    let data = b"{\"kind\":\"commit\"}".to_vec();
    let frame = zstd::stream::encode_all(&data[..], 0).unwrap();
    let dict: Vec<u8> = Vec::new();
    assert_eq!(decompress_frame(&dict, &frame), Some(data));
    let garbage = vec![1u8, 2, 3];
    assert_eq!(decompress_frame(&dict, &garbage), None);
}
