use chunksum::fingerprint::fingerprint_content;
use chunksum::hex::parse_fingerprint;

const SEED: [u32; 8] = [
    0xe3b0c442, 0x98fc1c14, 0x9afbf4c8, 0x996fb924, 0x27ae41e4, 0x649b934c, 0xa495991b, 0x7852b855,
];

const SEED_HEX: &str = "e3b0c44298fc1c149afbf4c8996fb92427ae41e4649b934ca495991b7852b855";

/// An independent model of the fingerprint: the same seed, the same wrapping
/// lane sums, the same reused (never cleared) 32-byte buffer.
fn model_fingerprint(content: &[u8]) -> String {
    let mut state = SEED;
    let mut buffer = [0u8; 32];
    let mut pos = 0;
    while pos < content.len() {
        let m = std::cmp::min(32, content.len() - pos);
        buffer[..m].copy_from_slice(&content[pos..pos + m]);
        for i in 0..8 {
            let w = u32::from_le_bytes([
                buffer[4 * i],
                buffer[4 * i + 1],
                buffer[4 * i + 2],
                buffer[4 * i + 3],
            ]);
            state[i] = state[i].wrapping_add(w);
        }
        pos += m;
    }
    let mut s = String::new();
    for w in state.iter() {
        s.push_str(&format!("{:08x}", w));
    }
    s
}

#[test]
fn empty_content_gives_seed_fingerprint() {
    let fp = fingerprint_content(&vec![]);
    assert_eq!(fp, SEED_HEX);
}

#[test]
fn new_accumulator_renders_seed() {
    let h = chunksum::accumulator::Hash::new();
    assert_eq!(h.to_string(), SEED_HEX);
}

#[test]
fn fingerprint_is_deterministic() {
    let content: Vec<u8> = (0..100u32).map(|i| (i * 7 % 256) as u8).collect();
    let a = fingerprint_content(&content);
    let b = fingerprint_content(&content);
    assert_eq!(a, b);
}

#[test]
fn fingerprint_has_64_lowercase_hex_chars() {
    let content: Vec<u8> = (0..77u32).map(|i| (i * 13 % 256) as u8).collect();
    let fp = fingerprint_content(&content);
    assert_eq!(fp.len(), 64);
    assert!(fp.chars().all(|c| c.is_ascii_hexdigit() && !c.is_ascii_uppercase()));
}

#[test]
fn reordered_blocks_give_same_fingerprint() {
    let mut content: Vec<u8> = (0..64u32).map(|i| (i * 3 + 1) as u8).collect();
    let fp1 = fingerprint_content(&content);
    let (a, b) = content.split_at(32);
    let mut swapped: Vec<u8> = b.to_vec();
    swapped.extend_from_slice(a);
    let fp2 = fingerprint_content(&swapped);
    assert_eq!(fp1, fp2);
    content[0] ^= 1;
    let fp3 = fingerprint_content(&content);
    assert_ne!(fp1, fp3);
}

#[test]
fn aligned_content_matches_model() {
    let content: Vec<u8> = (0..96u32).map(|i| (i * 11 % 256) as u8).collect();
    assert_eq!(fingerprint_content(&content), model_fingerprint(&content));
}

#[test]
fn short_first_block_is_zero_filled() {
    let content: Vec<u8> = vec![1, 2, 3, 4, 5];
    assert_eq!(fingerprint_content(&content), model_fingerprint(&content));
    let mut state = SEED;
    state[0] = state[0].wrapping_add(u32::from_le_bytes([1, 2, 3, 4]));
    state[1] = state[1].wrapping_add(u32::from_le_bytes([5, 0, 0, 0]));
    let mut expected = String::new();
    for w in state.iter() {
        expected.push_str(&format!("{:08x}", w));
    }
    assert_eq!(fingerprint_content(&content), expected);
}

#[test]
fn short_final_block_keeps_stale_bytes() {
    let content: Vec<u8> = (0..40u32).map(|i| (i + 1) as u8).collect();
    assert_eq!(fingerprint_content(&content), model_fingerprint(&content));
    // The final block folds bytes 32..40 followed by the previous block's
    // bytes 8..32, still sitting in the buffer; zero padding would differ.
    let mut state = SEED;
    for i in 0..8 {
        let w = u32::from_le_bytes([
            content[4 * i],
            content[4 * i + 1],
            content[4 * i + 2],
            content[4 * i + 3],
        ]);
        state[i] = state[i].wrapping_add(w);
    }
    let mut tail: Vec<u8> = content[32..40].to_vec();
    tail.extend_from_slice(&content[8..32]);
    for i in 0..8 {
        let w = u32::from_le_bytes([tail[4 * i], tail[4 * i + 1], tail[4 * i + 2], tail[4 * i + 3]]);
        state[i] = state[i].wrapping_add(w);
    }
    let mut expected = String::new();
    for w in state.iter() {
        expected.push_str(&format!("{:08x}", w));
    }
    assert_eq!(fingerprint_content(&content), expected);
}

#[test]
fn transform_wraps_each_lane() {
    let mut h = chunksum::accumulator::Hash::new();
    h.transform([0xffff_ffff; 8]);
    let mut expected = String::new();
    for w in SEED.iter() {
        expected.push_str(&format!("{:08x}", w.wrapping_add(0xffff_ffff)));
    }
    assert_eq!(h.to_string(), expected);
}

#[test]
fn transform_is_index_aligned() {
    let mut h = chunksum::accumulator::Hash::new();
    h.transform([1, 0, 0, 0, 0, 0, 0, 2]);
    let mut state = SEED;
    state[0] = state[0].wrapping_add(1);
    state[7] = state[7].wrapping_add(2);
    let mut expected = String::new();
    for w in state.iter() {
        expected.push_str(&format!("{:08x}", w));
    }
    assert_eq!(h.to_string(), expected);
}

#[test]
fn parse_inverts_rendering() {
    let content: Vec<u8> = (0..50u32).map(|i| (i * 17 % 256) as u8).collect();
    let fp = fingerprint_content(&content);
    let words = parse_fingerprint(&fp).expect("a fingerprint must parse");
    assert_eq!(words.len(), 8);
    // Drive a fresh accumulator to the parsed state and re-render: the
    // identical string must come back.
    let mut delta = [0u32; 8];
    for i in 0..8 {
        delta[i] = words[i].wrapping_sub(SEED[i]);
    }
    let mut h = chunksum::accumulator::Hash::new();
    h.transform(delta);
    assert_eq!(h.to_string(), fp);
}

#[test]
fn parse_rejects_bad_strings() {
    assert!(parse_fingerprint("").is_none());
    assert!(parse_fingerprint("e3b0").is_none());
    let upper = SEED_HEX.to_uppercase();
    assert!(parse_fingerprint(&upper).is_none());
    let mut bad = String::from(&SEED_HEX[..63]);
    bad.push('g');
    assert!(parse_fingerprint(&bad).is_none());
    assert!(parse_fingerprint(SEED_HEX).is_some());
}
