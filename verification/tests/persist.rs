use std::collections::HashMap;
use vexfs::ai::persist::{
    decode_ai_state, decode_legacy_ai_state, encode_ai_state, encode_legacy_ai_state, seal, unseal, AIPersistence,
};

type Markov = HashMap<u64, Vec<(u64, String, u32)>>;
type Stats = HashMap<u64, (String, u32, u64, u64)>;

#[test]
fn test_save_and_load_markov() {
    let mut markov: Markov = HashMap::new();
    markov.insert(2, vec![(3, "lib.rs".to_string(), 5)]);
    markov.insert(3, vec![(2, "main.rs".to_string(), 3)]);
    let importance: Stats = HashMap::new();

    let image = encode_legacy_ai_state(&markov, &importance);
    let (loaded_markov, _) = decode_legacy_ai_state(&image).unwrap();

    assert_eq!(loaded_markov[&2][0].0, 3);
    assert_eq!(loaded_markov[&2][0].1, "lib.rs");
    assert_eq!(loaded_markov[&2][0].2, 5);
}

#[test]
fn test_save_and_load_importance() {
    let markov: Markov = HashMap::new();
    let mut importance: Stats = HashMap::new();
    importance.insert(2, ("main.rs".to_string(), 42, 1000000, 3600));

    let image = encode_legacy_ai_state(&markov, &importance);
    let (_, loaded_imp) = decode_legacy_ai_state(&image).unwrap();

    let entry = &loaded_imp[&2];
    assert_eq!(entry.0, "main.rs");
    assert_eq!(entry.1, 42);
}

#[test]
fn persist_test_save_and_load_roundtrip() {
    let mut markov: Markov = HashMap::new();
    markov.insert(2, vec![(3, "lib.rs".to_string(), 10), (4, "mod.rs".to_string(), 5)]);
    let mut importance: Stats = HashMap::new();
    importance.insert(3, ("lib.rs".to_string(), 42, 1_700_000_000, 3600));

    let image = encode_ai_state(&markov, &importance);
    let (m2, i2) = decode_ai_state(&image).unwrap();

    assert_eq!(m2[&2].len(), 2);
    assert!(m2[&2].iter().any(|(ino, name, cnt)| *ino == 3 && name == "lib.rs" && *cnt == 10));
    assert_eq!(i2[&3].0, "lib.rs");
    assert_eq!(i2[&3].1, 42);
}

#[test]
fn test_corrupt_file_returns_empty() {
    let (m, i) = decode_ai_state(b"this is not valid AI data at all!!!!!").unwrap();
    assert!(m.is_empty());
    assert!(i.is_empty());
}

#[test]
fn test_tampered_checksum_rejected() {
    let markov: Markov = HashMap::new();
    let importance: Stats = HashMap::new();
    let mut data = encode_ai_state(&markov, &importance);
    data[10] ^= 0xFF;

    let (m, i) = decode_ai_state(&data).unwrap();
    assert!(m.is_empty());
    assert!(i.is_empty());
}

#[test]
fn test_large_markov_table() {
    let mut markov: Markov = HashMap::new();
    for i in 0..500u64 {
        markov.entry(i).or_default().push((i + 1, format!("file_{}.txt", i + 1), i as u32));
    }
    let image = encode_ai_state(&markov, &HashMap::new());
    let (m2, _) = decode_ai_state(&image).unwrap();
    assert_eq!(m2.len(), 500);
}

#[test]
fn image_layout_of_empty_state() {
    let image = encode_ai_state(&HashMap::new(), &HashMap::new());
    // magic, version 2, no transitions, no statistics, digest
    assert_eq!(image.len(), 8 + 4 + 4 + 4 + 32);
    assert_eq!(&image[..8], b"VEXAI002");
    assert_eq!(&image[8..12], &2u32.to_le_bytes());
    assert_eq!(&image[12..20], &[0u8; 8]);
    assert_eq!(&image[20..], blake3::hash(&image[..20]).as_bytes());
}

#[test]
fn legacy_layout_and_name_cut() {
    let long = "x".repeat(300);
    let mut importance: Stats = HashMap::new();
    importance.insert(7, (long, 1, 2, 3));
    let image = encode_legacy_ai_state(&HashMap::new(), &importance);
    assert_eq!(&image[..8], b"VEXAI001");
    // magic, 0 transitions, 1 statistic: ino, count, last, open, len byte, 207 bytes
    assert_eq!(image.len(), 8 + 4 + 4 + 8 + 4 + 8 + 8 + 1 + 207);
    let (_, s) = decode_legacy_ai_state(&image).unwrap();
    assert_eq!(s[&7].0.len(), 207);
    assert_eq!(s[&7].3, 3);
}

#[test]
fn sealed_names_cut_at_255_bytes() {
    let mut markov: Markov = HashMap::new();
    markov.insert(1, vec![(2, "y".repeat(400), 9)]);
    let image = encode_ai_state(&markov, &HashMap::new());
    let (m, _) = decode_ai_state(&image).unwrap();
    assert_eq!(m[&1][0].1.len(), 255);
    assert_eq!(m[&1][0].2, 9);
}

#[test]
fn truncated_images() {
    let mut markov: Markov = HashMap::new();
    markov.insert(1, vec![(2, "a.rs".to_string(), 1)]);
    let legacy = encode_legacy_ai_state(&markov, &HashMap::new());
    assert!(decode_legacy_ai_state(&legacy[..legacy.len() - 3]).is_none());
    assert!(decode_legacy_ai_state(b"VEXA").is_none());
    // a foreign magic is not an error: nothing is learned
    let (m, s) = decode_legacy_ai_state(b"NOTVEXAI and more").unwrap();
    assert!(m.is_empty() && s.is_empty());

    // a sealed image whose records stop short, with a matching digest
    let mut payload = b"VEXAI002".to_vec();
    payload.extend_from_slice(&2u32.to_le_bytes());
    payload.extend_from_slice(&5u32.to_le_bytes());
    let sealed = seal(&payload);
    let (m, s) = decode_ai_state(&sealed).unwrap();
    assert!(m.is_empty() && s.is_empty());

    // magic and version only: a corrupt image loads as nothing learned
    let mut bare = b"VEXAI002".to_vec();
    bare.extend_from_slice(&2u32.to_le_bytes());
    let (m, s) = decode_ai_state(&seal(&bare)).unwrap();
    assert!(m.is_empty() && s.is_empty());
}

#[test]
fn seal_and_unseal() {
    let payload = b"0123456789".to_vec();
    let sealed = seal(&payload);
    assert_eq!(sealed.len(), payload.len() + 32);
    assert_eq!(unseal(&sealed).unwrap(), payload);
    let mut bad = sealed.clone();
    let last = bad.len() - 1;
    bad[last] ^= 1;
    assert!(unseal(&bad).is_none());
    assert!(unseal(&sealed[..39]).is_none());
}

#[test]
fn later_transitions_of_a_source_keep_their_order() {
    let mut markov: Markov = HashMap::new();
    markov.insert(5, vec![(6, "b".to_string(), 1), (7, "c".to_string(), 2), (8, "d".to_string(), 3)]);
    let image = encode_ai_state(&markov, &HashMap::new());
    let (m, _) = decode_ai_state(&image).unwrap();
    let tos: Vec<u64> = m[&5].iter().map(|t| t.0).collect();
    assert_eq!(tos, vec![6, 7, 8]);
}

#[test]
fn ai_file_sits_beside_the_image() {
    let p = AIPersistence::new("/tmp/vexfs.img");
    assert_eq!(p.path(), "/tmp/vexfs.img.ai");
}

#[test]
fn non_ascii_names_come_back_unchanged() {
    let mut markov: Markov = HashMap::new();
    markov.insert(7, vec![(8, "caf\u{e9} \u{2013} notes.md".to_string(), 2)]);
    let mut stats: Stats = HashMap::new();
    stats.insert(8, ("\u{65e5}\u{672c}.txt".to_string(), 1, 5, 6));
    let image = encode_ai_state(&markov, &stats);
    let (m, s) = decode_ai_state(&image).unwrap();
    assert_eq!(m, markov);
    assert_eq!(s, stats);
}
