use fictionary::codec::decode;
use fictionary::codec::encode;
use fictionary::codec::DecodeError;
use fictionary::model::CharCounter;
use fictionary::model::CharkovChain;
use rand::rngs::StdRng;
use rand::SeedableRng;

fn trained_chain(words: &[&str]) -> CharkovChain {
    let mut cc = CharCounter::new();
    for w in words {
        cc.feed_word(w);
    }
    assert!(cc.within_sampler_limit());
    CharkovChain::compile(cc)
}

#[test]
fn round_trip_preserves_the_chain() {
    let chain = trained_chain(&["babel", "table", "cable"]);
    let bytes = encode(&chain);
    let back = decode(&bytes).unwrap();
    // Re-encoding the decoded chain gives the same bytes, so entries and
    // words came back unchanged.
    assert_eq!(encode(&back), bytes);
}

#[test]
fn round_trip_preserves_behaviour() {
    let chain = trained_chain(&["babel", "table"]);
    let bytes = encode(&chain);
    let back = decode(&bytes).unwrap();
    let mut rng = StdRng::seed_from_u64(11);
    for _ in 0..50 {
        let w = back.word(5, 8, &mut rng).unwrap();
        assert!(w == "bable" || w == "tabel");
    }
}

#[test]
fn round_trip_keeps_unicode_words() {
    let chain = trained_chain(&["h\u{e9}ron", "na\u{ef}ve"]);
    let bytes = encode(&chain);
    let back = decode(&bytes).unwrap();
    assert_eq!(encode(&back), bytes);
}

#[test]
fn empty_input_is_rejected() {
    assert!(matches!(decode(&Vec::new()), Err(DecodeError::Malformed)));
}

#[test]
fn bad_magic_is_rejected() {
    let chain = trained_chain(&["abc"]);
    let mut bytes = encode(&chain);
    bytes[0] = 0x00;
    assert!(matches!(decode(&bytes), Err(DecodeError::Malformed)));
}

#[test]
fn truncated_input_is_rejected() {
    let chain = trained_chain(&["abc", "bcd"]);
    let full = encode(&chain);
    let mut bytes = full.clone();
    bytes.pop();
    assert!(matches!(decode(&bytes), Err(DecodeError::Malformed)));
    let half: Vec<u8> = full[..full.len() / 2].to_vec();
    assert!(matches!(decode(&half), Err(DecodeError::Malformed)));
}

#[test]
fn trailing_bytes_are_rejected() {
    let chain = trained_chain(&["abc"]);
    let mut bytes = encode(&chain);
    bytes.push(0);
    assert!(matches!(decode(&bytes), Err(DecodeError::Malformed)));
}

#[test]
fn surrogate_codes_are_rejected() {
    // A word whose single character carries a surrogate code cannot be
    // decoded: no char holds that value.
    let mut bytes = vec![0x46, 0x43, 0x4d, 0x31];
    bytes.extend_from_slice(&0u64.to_le_bytes()); // no entries
    bytes.extend_from_slice(&1u64.to_le_bytes()); // one word
    bytes.extend_from_slice(&1u64.to_le_bytes()); // of one character
    bytes.extend_from_slice(&0xd800u32.to_le_bytes());
    assert!(matches!(decode(&bytes), Err(DecodeError::Malformed)));
}

#[test]
fn zero_count_entries_are_rejected() {
    // An entry whose single transition carries a zero count is parseable
    // but not a well-formed chain.
    let mut bytes = vec![0x46, 0x43, 0x4d, 0x31];
    bytes.extend_from_slice(&1u64.to_le_bytes()); // one entry
    bytes.extend_from_slice(&0x110000u32.to_le_bytes()); // start boundary
    bytes.extend_from_slice(&0x110000u32.to_le_bytes()); // start boundary
    bytes.extend_from_slice(&1u64.to_le_bytes()); // one pair
    bytes.extend_from_slice(&('a' as u32).to_le_bytes());
    bytes.extend_from_slice(&0u32.to_le_bytes()); // zero count
    bytes.extend_from_slice(&0u64.to_le_bytes()); // no words
    assert!(matches!(decode(&bytes), Err(DecodeError::Malformed)));
}

#[test]
fn walk_over_an_unclosed_chain_fails_at_once() {
    // A structurally valid chain whose single transition leads to a
    // context with no sampler: the start context emits 'x', but no entry
    // covers what follows 'x'. Decoding accepts the structure; a walk
    // must surface the inconsistency immediately, without spending the
    // retry budget.
    let mut bytes = vec![0x46, 0x43, 0x4d, 0x31];
    bytes.extend_from_slice(&1u64.to_le_bytes()); // one entry
    bytes.extend_from_slice(&0x110000u32.to_le_bytes()); // start boundary
    bytes.extend_from_slice(&0x110000u32.to_le_bytes()); // start boundary
    bytes.extend_from_slice(&1u64.to_le_bytes()); // one pair
    bytes.extend_from_slice(&('x' as u32).to_le_bytes());
    bytes.extend_from_slice(&1u32.to_le_bytes());
    bytes.extend_from_slice(&0u64.to_le_bytes()); // no words
    let chain = decode(&bytes).unwrap();
    let mut rng = StdRng::seed_from_u64(2);
    assert!(matches!(
        chain.candidate_word(&mut rng),
        Err(fictionary::model::WordGenerationError::InvalidMarkovChain)
    ));
    assert!(matches!(
        chain.word(4, 10, &mut rng),
        Err(fictionary::model::WordGenerationError::InvalidMarkovChain)
    ));
}
