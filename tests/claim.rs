use base64::Engine;
use timeclaim::btc::{block_url, BtcBlock, LATEST};
use timeclaim::claim::{Evidence, TimeClaim, UNVERIFIED, VERIFIED};
use timeclaim::error::TimeClaimError;
use timeclaim::wire::{decode_claim_json, encode_claim_json};

fn block(hash: &str, timestamp: i64) -> BtcBlock {
    BtcBlock { hash: hash.to_string(), timestamp }
}

fn hash_evidence(hash: &str) -> Evidence {
    Evidence::BtcBlockHash(hash.to_string())
}

fn b64(bytes: &[u8]) -> String {
    base64::engine::general_purpose::URL_SAFE.encode(bytes)
}

#[test]
fn example_end_to_end() {
    let issued = TimeClaim::<VERIFIED>::new_from_btc_block(block("000abc", 1700000000));
    assert_eq!(issued.timestamp, 1700000000);
    assert_eq!(issued.evidence(), &hash_evidence("000abc"));
    let payload = issued.as_b64();
    assert_eq!(
        payload,
        "eyJ0aW1lc3RhbXAiOjE3MDAwMDAwMDAsImV2aWRlbmNlIjp7IkJ0Y0Jsb2NrSGFzaCI6IjAwMGFiYyJ9fQ=="
    );
    assert_eq!(issued.as_b64(), payload);
    let decoded = TimeClaim::<UNVERIFIED>::decode(&payload).unwrap();
    assert_eq!(decoded.timestamp, 1700000000);
    assert_eq!(decoded.evidence(), &hash_evidence("000abc"));
    assert_eq!(decoded.block_hash(), "000abc");
    let validated = decoded.validate_with(Ok(block("000abc", 1700000000))).unwrap();
    assert_eq!(validated.timestamp, 1700000000);
    assert_eq!(validated.evidence(), &hash_evidence("000abc"));
}

#[test]
fn issue_reflects_each_block() {
    let first = TimeClaim::<VERIFIED>::new_from_btc_block(block("00aa", 1700000000));
    let second = TimeClaim::<VERIFIED>::new_from_btc_block(block("00bb", 1700000600));
    assert_eq!(first.timestamp, 1700000000);
    assert_eq!(first.evidence(), &hash_evidence("00aa"));
    assert_eq!(second.timestamp, 1700000600);
    assert_eq!(second.evidence(), &hash_evidence("00bb"));
}

#[test]
fn validate_agreement() {
    let claim = TimeClaim::<UNVERIFIED>::decode(
        &TimeClaim::<VERIFIED>::new_from_btc_block(block("00ff", 1650000000)).as_b64(),
    )
    .unwrap();
    let verified = claim.validate_with(Ok(block("00ff", 1650000000))).unwrap();
    assert_eq!(verified.timestamp, 1650000000);
    assert_eq!(verified.block_hash(), "00ff");
}

#[test]
fn validate_disagreement() {
    let claim = TimeClaim::<UNVERIFIED>::decode(
        &TimeClaim::<VERIFIED>::new_from_btc_block(block("00ff", 1650000000)).as_b64(),
    )
    .unwrap();
    let r = claim.validate_with(Ok(block("00ff", 1650000001)));
    assert_eq!(r.unwrap_err(), TimeClaimError::InvalidClaim);
}

#[test]
fn validate_passes_fetch_errors_on() {
    let payload = TimeClaim::<VERIFIED>::new_from_btc_block(block("00ff", 7)).as_b64();
    let claim = TimeClaim::<UNVERIFIED>::decode(&payload).unwrap();
    let r = claim.validate_with(Err(TimeClaimError::ChainApiError));
    assert_eq!(r.unwrap_err(), TimeClaimError::ChainApiError);
    let claim = TimeClaim::<UNVERIFIED>::decode(&payload).unwrap();
    let r = claim.validate_with(Err(TimeClaimError::DeserializeError));
    assert_eq!(r.unwrap_err(), TimeClaimError::DeserializeError);
}

#[test]
fn round_trip_escaped_hash() {
    let hash = "a\"b\\c\n\u{1}\u{e9}";
    let claim = TimeClaim::<VERIFIED>::new_from_btc_block(block(hash, -5));
    let payload = claim.as_b64();
    assert_eq!(
        payload,
        "eyJ0aW1lc3RhbXAiOi01LCJldmlkZW5jZSI6eyJCdGNCbG9ja0hhc2giOiJhXCJiXFxjXG5cdTAwMDHDqSJ9fQ=="
    );
    let back = TimeClaim::<UNVERIFIED>::decode(&payload).unwrap();
    assert_eq!(back.timestamp, -5);
    assert_eq!(back.block_hash(), hash);
}

#[test]
fn round_trip_extreme_values() {
    for (hash, ts) in [("", 0i64), ("x", i64::MIN), ("\u{1f}\t\r\u{8}\u{c}", i64::MAX), ("9", -1)] {
        let claim = TimeClaim::<VERIFIED>::new_from_btc_block(block(hash, ts));
        let back = TimeClaim::<UNVERIFIED>::decode(&claim.as_b64()).unwrap();
        assert_eq!(back.timestamp, ts);
        assert_eq!(back.evidence(), &hash_evidence(hash));
    }
}

#[test]
fn json_text_is_what_serde_json_reads() {
    let bytes = encode_claim_json(-42, "q\"\u{7}z");
    let v: serde_json::Value = serde_json::from_slice(&bytes).unwrap();
    assert_eq!(v["timestamp"].as_i64(), Some(-42));
    assert_eq!(v["evidence"]["BtcBlockHash"].as_str(), Some("q\"\u{7}z"));
    assert_eq!(
        String::from_utf8(bytes.clone()).unwrap(),
        "{\"timestamp\":-42,\"evidence\":{\"BtcBlockHash\":\"q\\\"\\u0007z\"}}"
    );
    assert_eq!(decode_claim_json(&bytes), Some((-42, "q\"\u{7}z".to_string())));
}

#[test]
fn decode_rejects_invalid_characters() {
    let r = TimeClaim::<UNVERIFIED>::decode("eyJ0aW1l*c3RhbXAi");
    assert_eq!(r.unwrap_err(), TimeClaimError::BadPayload);
    let r = TimeClaim::<UNVERIFIED>::decode("ab cd");
    assert_eq!(r.unwrap_err(), TimeClaimError::BadPayload);
}

#[test]
fn decode_rejects_text_that_is_not_json() {
    let r = TimeClaim::<UNVERIFIED>::decode(&b64(b"not json"));
    assert_eq!(r.unwrap_err(), TimeClaimError::BadPayload);
}

#[test]
fn decode_rejects_missing_fields() {
    let r = TimeClaim::<UNVERIFIED>::decode(&b64(b"{\"timestamp\":1}"));
    assert_eq!(r.unwrap_err(), TimeClaimError::BadPayload);
    let r = TimeClaim::<UNVERIFIED>::decode(&b64(b"{\"evidence\":{\"BtcBlockHash\":\"x\"}}"));
    assert_eq!(r.unwrap_err(), TimeClaimError::BadPayload);
}

#[test]
fn decode_rejects_unknown_evidence() {
    let r = TimeClaim::<UNVERIFIED>::decode(&b64(
        b"{\"timestamp\":1,\"evidence\":{\"EthBlockHash\":\"x\"}}",
    ));
    assert_eq!(r.unwrap_err(), TimeClaimError::BadPayload);
}

#[test]
fn decode_rejects_invalid_utf8_in_hash() {
    let r = TimeClaim::<UNVERIFIED>::decode(&b64(
        b"{\"timestamp\":1,\"evidence\":{\"BtcBlockHash\":\"\xff\"}}",
    ));
    assert_eq!(r.unwrap_err(), TimeClaimError::BadPayload);
}

#[test]
fn decode_rejects_non_canonical_numbers() {
    for text in [
        &b"{\"timestamp\":01,\"evidence\":{\"BtcBlockHash\":\"x\"}}"[..],
        &b"{\"timestamp\":-0,\"evidence\":{\"BtcBlockHash\":\"x\"}}"[..],
        &b"{\"timestamp\":9223372036854775808,\"evidence\":{\"BtcBlockHash\":\"x\"}}"[..],
        &b"{\"timestamp\": 1,\"evidence\":{\"BtcBlockHash\":\"x\"}}"[..],
    ] {
        let r = TimeClaim::<UNVERIFIED>::from_json_bytes(&text.to_vec());
        assert_eq!(r.unwrap_err(), TimeClaimError::BadPayload);
    }
}

#[test]
fn from_json_bytes_reads_canonical_text() {
    let text = b"{\"timestamp\":-9223372036854775808,\"evidence\":{\"BtcBlockHash\":\"\\u001f\"}}";
    let claim = TimeClaim::<UNVERIFIED>::from_json_bytes(&text.to_vec()).unwrap();
    assert_eq!(claim.timestamp, i64::MIN);
    assert_eq!(claim.block_hash(), "\u{1f}");
}

#[test]
fn parse_goes_through_decode() {
    let payload = "eyJ0aW1lc3RhbXAiOjE3MDAwMDAwMDAsImV2aWRlbmNlIjp7IkJ0Y0Jsb2NrSGFzaCI6IjAwMGFiYyJ9fQ==";
    let claim: TimeClaim<UNVERIFIED> = payload.parse().unwrap();
    assert_eq!(claim.timestamp, 1700000000);
    assert!("%%".parse::<TimeClaim<UNVERIFIED>>().is_err());
}

#[test]
fn block_urls() {
    assert_eq!(block_url(LATEST), "https://chain.api.btc.com/v3/block/latest");
    assert_eq!(block_url("000abc"), "https://chain.api.btc.com/v3/block/000abc");
}
