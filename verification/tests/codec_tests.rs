//! Digests, hex, framing, and the signing chain, cross-checked against
//! the outside crates and known values.

use garage_core::data::FixedBytes32;
use garage_core::digest::{hmac_sha256, sha256};
use garage_core::error::Error;
use garage_core::hexcode::{find_matching_nodes, hex_encode, node_matches_prefix};
use garage_core::persist::{frame, unframe};
use garage_core::signature::{
    compute_scope, format_long_datetime, format_short_date, signing_hmac, verify_signed_content,
    DateTime,
};
use hmac::Mac;
use sha2::Digest;

fn uuid(n: u8) -> FixedBytes32 {
    FixedBytes32 { b: [n; 32] }
}

#[test]
fn sha256_matches_the_reference_implementation() {
    let data = b"garage membership core";
    let ours = sha256(data);
    let theirs = sha2::Sha256::digest(data);
    assert_eq!(&ours.b[..], &theirs[..]);
    // A known digest, so a digest that echoed its input would fail.
    let abc = sha256(b"abc");
    assert_eq!(
        hex_encode(&abc.b),
        "ba7816bf8f01cfea414140de5dae2223b00361a396177a9cb410ff61f20015ad".to_owned()
    );
}

#[test]
fn hmac_matches_the_reference_implementation() {
    let ours = hmac_sha256(b"key", b"message");
    let mut mac = <hmac::Hmac<sha2::Sha256> as hmac::KeyInit>::new_from_slice(b"key").unwrap();
    mac.update(b"message");
    let theirs = mac.finalize().into_bytes();
    assert_eq!(&ours.b[..], &theirs[..]);
    assert_ne!(&ours.b[..8], b"key\0\0\0\0\0");
}

#[test]
fn hex_encoding_is_lowercase_pairs() {
    assert_eq!(hex_encode(&[0x00, 0xff, 0x1a]), "00ff1a".to_owned());
    assert_eq!(hex_encode(&[]), "".to_owned());
    assert_eq!(hex_encode(&[0xab]), hex::encode([0xab]));
}

#[test]
fn prefix_matching_follows_the_hex_form() {
    let id = FixedBytes32 { b: [0xab; 32] };
    assert!(node_matches_prefix(&id, b""));
    assert!(node_matches_prefix(&id, b"a"));
    assert!(node_matches_prefix(&id, b"abab"));
    assert!(!node_matches_prefix(&id, b"abba"));
    assert!(!node_matches_prefix(&id, b"AB"));
    let ids = vec![uuid(0x10), uuid(0x1f), uuid(0xab)];
    let m = find_matching_nodes(&ids, b"1");
    assert_eq!(m.len(), 2);
}

#[test]
fn frame_roundtrip_and_corruption_detection() {
    let payload = b"layout bytes".to_vec();
    let framed = frame(&payload);
    assert_eq!(framed.len(), 8 + payload.len() + 32);
    let back = unframe(&framed).unwrap();
    assert_eq!(back, payload);
    // A flipped payload byte is caught by the digest trailer.
    let mut bad = framed.clone();
    bad[9] ^= 1;
    assert!(matches!(unframe(&bad), Err(Error::CorruptData(_))));
    // A truncated file is caught by the length prefix.
    let mut short = framed.clone();
    short.pop();
    assert!(matches!(unframe(&short), Err(Error::CorruptData(_))));
    assert!(matches!(unframe(&vec![1, 2, 3]), Err(Error::CorruptData(_))));
    // The empty payload round-trips too.
    let empty: Vec<u8> = Vec::new();
    assert_eq!(unframe(&frame(&empty)).unwrap(), empty);
}

#[test]
fn short_and_long_dates_are_zero_padded() {
    let d = DateTime { year: 2013, month: 5, day: 24, hour: 0, minute: 0, second: 0 };
    assert_eq!(format_short_date(&d), b"20130524".to_vec());
    assert_eq!(format_long_datetime(&d), b"20130524T000000Z".to_vec());
    let d2 = DateTime { year: 987, month: 12, day: 3, hour: 23, minute: 59, second: 7 };
    assert_eq!(format_short_date(&d2), b"09871203".to_vec());
    assert_eq!(format_long_datetime(&d2), b"09871203T235907Z".to_vec());
}

#[test]
fn scope_lists_date_region_service() {
    let d = DateTime { year: 2013, month: 5, day: 24, hour: 0, minute: 0, second: 0 };
    let scope = compute_scope(&d, &b"us-east-1".to_vec(), &b"s3".to_vec());
    assert_eq!(scope, b"20130524/us-east-1/s3/aws4_request".to_vec());
}

#[test]
fn signing_key_matches_the_reference_chain() {
    fn step(key: &[u8], msg: &[u8]) -> Vec<u8> {
        let mut mac = <hmac::Hmac<sha2::Sha256> as hmac::KeyInit>::new_from_slice(key).unwrap();
        mac.update(msg);
        mac.finalize().into_bytes().to_vec()
    }
    let d = DateTime { year: 2015, month: 8, day: 30, hour: 12, minute: 36, second: 0 };
    let ours = signing_hmac(
        &d,
        &b"not-a-real-secret".to_vec(),
        &b"us-east-1".to_vec(),
        &b"service".to_vec(),
    );
    let k1 = step(b"AWS4not-a-real-secret", b"20150830");
    let k2 = step(&k1, b"us-east-1");
    let k3 = step(&k2, b"service");
    let k4 = step(&k3, b"aws4_request");
    assert_eq!(&ours.b[..], &k4[..]);
}

#[test]
fn signed_content_check_compares_the_digest() {
    let body = b"hello world";
    let good = sha256(body);
    assert!(verify_signed_content(&good, body).is_ok());
    let bad = uuid(9);
    assert!(matches!(verify_signed_content(&bad, body), Err(Error::BadRequest(_))));
}
