use atrium_crypto::keypair::Did;
use furcons_bsky_labeler::event::rfc3339_micros;
use furcons_bsky_labeler::label::{encode_label, sign_to_payload, Label, SignError};
use furcons_bsky_labeler::labellog::{EmitError, LabelLog};
use furcons_bsky_labeler::subscription::{
    drain_frames, encode_message, subscription_start, EventStreamError, Message,
};

fn test_key() -> Vec<u8> {
    vec![1u8; 32]
}

fn test_did() -> String {
    let keypair = atrium_crypto::keypair::Secp256k1Keypair::import(&test_key()).unwrap();
    keypair.did()
}

fn sample_label(src: &str) -> Label {
    Label {
        val: "anthrocon".to_string(),
        uri: "did:plc:alice".to_string(),
        src: src.to_string(),
        cts: rfc3339_micros(1700000000000000).unwrap(),
        exp: Some(rfc3339_micros(1752465600000000).unwrap()),
        neg: None,
        ver: Some(1),
        sig: None,
    }
}

#[test]
fn test_encode_label_deterministic() {
    let did = test_did();
    let a = encode_label(&sample_label(&did));
    let b = encode_label(&sample_label(&did));
    assert_eq!(a, b);
}

#[test]
fn test_encode_label_matches_dag_cbor() {
    let did = test_did();
    let label = sample_label(&did);
    let ours = encode_label(&label);

    let atrium: atrium_api::com::atproto::label::defs::Label =
        atrium_api::com::atproto::label::defs::LabelData {
            cid: None,
            cts: label.cts.parse().unwrap(),
            exp: Some(label.exp.clone().unwrap().parse().unwrap()),
            neg: None,
            sig: None,
            src: atrium_api::types::string::Did::new(did.clone()).unwrap(),
            uri: label.uri.clone(),
            val: label.val.clone(),
            ver: Some(1),
        }
        .into();
    let theirs = serde_ipld_dagcbor::to_vec(&atrium).unwrap();
    assert_eq!(ours, theirs);
}

#[test]
fn test_sign_round_trip() {
    let did = test_did();
    let label = sample_label(&did);
    let payload = sign_to_payload(&test_key(), &label).unwrap();

    // Decoding the stored payload yields a structurally equal label.
    let decoded: atrium_api::com::atproto::label::defs::Label =
        serde_ipld_dagcbor::from_slice(&payload).unwrap();
    assert_eq!(decoded.val, label.val);
    assert_eq!(decoded.uri, label.uri);
    assert_eq!(decoded.src.as_str(), label.src);
    assert_eq!(decoded.cts.as_str(), label.cts);
    assert_eq!(decoded.exp.as_ref().unwrap().as_str(), label.exp.as_deref().unwrap());
    assert_eq!(decoded.neg, None);
    assert_eq!(decoded.ver, Some(1));

    // Re-encoding reproduces the stored bytes.
    assert_eq!(serde_ipld_dagcbor::to_vec(&decoded).unwrap(), payload);

    // The signature verifies over the encoding with `sig` absent.
    let sig = decoded.sig.clone().unwrap();
    assert_eq!(sig.len(), 64);
    let unsigned = encode_label(&label);
    assert!(atrium_crypto::verify::verify_signature(&did, &unsigned, &sig).is_ok());
    let mut tampered = unsigned.clone();
    tampered[0] ^= 1;
    assert!(atrium_crypto::verify::verify_signature(&did, &tampered, &sig).is_err());
}

#[test]
fn test_sign_deterministic() {
    // Signing is deterministic (an RFC 6979 ephemeral scalar), so two
    // signed payloads of structurally equal labels are byte-identical.
    let did = test_did();
    let a = sign_to_payload(&test_key(), &sample_label(&did)).unwrap();
    let b = sign_to_payload(&test_key(), &sample_label(&did)).unwrap();
    assert_eq!(a, b);
}

#[test]
fn test_sign_rejects_invalid_key() {
    // The zero scalar is no valid secp256k1 private key.
    let did = test_did();
    let zero_key = vec![0u8; 32];
    assert!(matches!(
        sign_to_payload(&zero_key, &sample_label(&did)),
        Err(SignError::Crypto(_))
    ));
    let short_key = vec![1u8; 5];
    assert!(matches!(
        sign_to_payload(&short_key, &sample_label(&did)),
        Err(SignError::Crypto(_))
    ));
}

#[test]
fn test_sign_rejects_already_signed() {
    let did = test_did();
    let mut label = sample_label(&did);
    label.sig = Some(vec![0u8; 64]);
    assert!(matches!(sign_to_payload(&test_key(), &label), Err(SignError::AlreadySigned)));
}

#[test]
fn test_emit_monotone_sequence() {
    let did = test_did();
    let key = test_key();
    let mut log = LabelLog::new();
    let s1 = log.emit(&key, &sample_label(&did), "rkey1").unwrap();
    let s2 = log.emit(&key, &sample_label(&did), "rkey2").unwrap();
    let s3 = log.emit(&key, &sample_label(&did), "rkey3").unwrap();
    assert!(s1 < s2 && s2 < s3);
    assert_eq!((s1, s2, s3), (1, 2, 3));
    assert_eq!(log.max_seq(), 3);
}

#[test]
fn test_emit_rejects_signed_label() {
    let did = test_did();
    let key = test_key();
    let mut log = LabelLog::new();
    let mut label = sample_label(&did);
    label.sig = Some(vec![0u8; 64]);
    assert!(matches!(
        log.emit(&key, &label, "rkey1"),
        Err(EmitError::Sign(SignError::AlreadySigned))
    ));
    assert_eq!(log.max_seq(), 0);
}

#[test]
fn test_find_current_val() {
    let did = test_did();
    let key = test_key();
    let mut log = LabelLog::new();
    log.emit(&key, &sample_label(&did), "abc").unwrap();
    let mut other = sample_label(&did);
    other.val = "other-con".to_string();
    log.emit(&key, &other, "xyz").unwrap();

    assert_eq!(log.find_current_val("abc", "did:plc:alice").as_deref(), Some("anthrocon"));
    assert_eq!(log.find_current_val("xyz", "did:plc:alice").as_deref(), Some("other-con"));
    assert_eq!(log.find_current_val("abc", "did:plc:bob"), None);
    assert_eq!(log.find_current_val("nope", "did:plc:alice"), None);

    // A negation row is itself never current: the lookup still answers
    // with the most recent non-negated row.
    let mut neg = sample_label(&did);
    neg.neg = Some(true);
    log.emit(&key, &neg, "abc").unwrap();
    assert_eq!(log.find_current_val("abc", "did:plc:alice").as_deref(), Some("anthrocon"));
}

#[test]
fn test_rows_after_replays_tail_in_order() {
    let did = test_did();
    let key = test_key();
    let mut log = LabelLog::new();
    log.emit(&key, &sample_label(&did), "r1").unwrap();
    log.emit(&key, &sample_label(&did), "r2").unwrap();
    log.emit(&key, &sample_label(&did), "r3").unwrap();
    let tail = log.rows_after(1);
    assert_eq!(tail.len(), 2);
    assert_eq!(tail[0].0, 2);
    assert_eq!(tail[1].0, 3);
    assert!(!tail[0].1.is_empty());
    assert_eq!(log.rows_after(3).len(), 0);
}

#[test]
fn test_subscription_start_cursor() {
    assert!(matches!(subscription_start(7, None), Ok(7)));
    assert!(matches!(subscription_start(7, Some(3)), Ok(3)));
    assert!(matches!(subscription_start(7, Some(8)), Err(EventStreamError::FutureCursor)));
}

#[test]
fn test_error_frame_bytes() {
    let frame = encode_message(Message::Error { error: EventStreamError::FutureCursor });
    let mut expected: Vec<u8> = vec![0xa1, 0x62, b'o', b'p', 0x20];
    expected.extend([0xa1, 0x65]);
    expected.extend(b"error");
    expected.push(0x6c);
    expected.extend(b"FutureCursor");
    assert_eq!(frame, expected);
}

#[test]
fn test_labels_frame_bytes() {
    let payload = vec![0xa0u8];
    let frame = encode_message(Message::Labels { seq: 5, labels: &payload });
    let mut expected: Vec<u8> = vec![0xa2, 0x61, b't', 0x67];
    expected.extend(b"#labels");
    expected.extend([0x62, b'o', b'p', 0x01]);
    expected.extend([0xa2, 0x63]);
    expected.extend(b"seq");
    expected.push(0x05);
    expected.push(0x66);
    expected.extend(b"labels");
    expected.extend([0x81, 0xa0]);
    assert_eq!(frame, expected);
}

#[test]
fn test_drain_frames() {
    let did = test_did();
    let key = test_key();
    let mut log = LabelLog::new();
    log.emit(&key, &sample_label(&did), "r1").unwrap();
    log.emit(&key, &sample_label(&did), "r2").unwrap();
    let (frames, last) = drain_frames(&log, 0);
    assert_eq!(frames.len(), 2);
    assert_eq!(last, 2);
    let (frames2, last2) = drain_frames(&log, 2);
    assert_eq!(frames2.len(), 0);
    assert_eq!(last2, 2);
}

#[test]
fn test_encode_label_omits_absent_fields() {
    let did = test_did();
    let mut label = sample_label(&did);
    label.exp = None;
    label.neg = None;
    label.ver = None;
    let bytes = encode_label(&label);
    // Four entries: cts, src, uri, val.
    assert_eq!(bytes[0], 0xa4);
    let with_neg = {
        let mut l = sample_label(&did);
        l.exp = None;
        l.ver = None;
        l.neg = Some(false);
        encode_label(&l)
    };
    assert_eq!(with_neg[0], 0xa5);
    assert_ne!(bytes, with_neg);
}
