use phf_trie::phf::{create_phf, displace, hash, split, try_phf_table};
use rand::SeedableRng;

fn corpus(pairs: &[(char, &str)]) -> Vec<(char, Vec<u8>)> {
    pairs.iter().map(|&(c, s)| (c, s.as_bytes().to_vec())).collect()
}

#[test]
fn fnv_hash_known_values() {
    assert_eq!(hash(&Vec::new(), 0), 0xcbf29ce484222325);
    assert_eq!(hash(&b"a".to_vec(), 0), 0xaf63dc4c8601ec8c);
    assert_eq!(
        hash(&b"LATIN CAPITAL LETTER A".to_vec(), 0x12345678),
        0x35da075668cab814
    );
}

#[test]
fn hash_depends_on_seed_and_order() {
    let ab = b"ab".to_vec();
    let ba = b"ba".to_vec();
    assert_ne!(hash(&ab, 0), hash(&ba, 0));
    assert_ne!(hash(&ab, 0), hash(&ab, 1));
}

#[test]
fn split_extracts_the_three_fields() {
    let h: u64 = (5u64 << 42) | (3u64 << 21) | 7u64;
    let s = split(h);
    assert_eq!(s.g, 7);
    assert_eq!(s.f1, 3);
    assert_eq!(s.f2, 5);
    let s2 = split(0xeee2c319096641ec);
    assert_eq!(s2.g, 410092);
    assert_eq!(s2.f1, 1624139);
    assert_eq!(s2.f2, 1816752);
}

#[test]
fn displace_wraps() {
    assert_eq!(displace(0, 0, 0, 0), 0);
    assert_eq!(displace(2, 5, 3, 7), 7 + 2 * 3 + 5);
    assert_eq!(displace(u32::MAX, 1, 2, 3), 2);
}

fn check_table(values: &[(char, Vec<u8>)], lambda: usize, seed: u64, disps: &[(u32, u32)], map: &[char]) {
    let n = values.len();
    assert_eq!(map.len(), n);
    assert_eq!(disps.len(), (n + lambda - 1) / lambda);
    let mut used = vec![false; n];
    for (cp, name) in values {
        let h = split(hash(name, seed));
        let (d1, d2) = disps[h.g as usize % disps.len()];
        let slot = (displace(h.f1, h.f2, d1, d2) as usize) % n;
        assert_eq!(map[slot], *cp);
        assert!(!used[slot], "two entries share slot {}", slot);
        used[slot] = true;
    }
    assert!(used.iter().all(|&u| u));
    assert!(map.iter().all(|&c| c != '\0'));
}

#[test]
fn two_letter_names_build_a_two_slot_table() {
    let values = corpus(&[('\u{41}', "LATIN CAPITAL LETTER A"), ('\u{42}', "LATIN CAPITAL LETTER B")]);
    let (seed, disps, map) = create_phf(&values, 3, 1024).expect("construction must succeed");
    assert_eq!(map.len(), 2);
    assert_eq!(disps.len(), 1);
    check_table(&values, 3, seed, &disps, &map);
}

#[test]
fn larger_corpus_is_collision_free() {
    let names: Vec<String> = (0..60).map(|i| format!("NAME NUMBER {}", i * 7)).collect();
    let values: Vec<(char, Vec<u8>)> = names
        .iter()
        .enumerate()
        .map(|(i, s)| (char::from_u32(0x100 + i as u32).unwrap(), s.as_bytes().to_vec()))
        .collect();
    let (seed, disps, map) = create_phf(&values, 3, 1024).expect("construction must succeed");
    check_table(&values, 3, seed, &disps, &map);
}

#[test]
fn identical_runs_are_byte_identical() {
    let values = corpus(&[('\u{41}', "LATIN CAPITAL LETTER A"), ('\u{42}', "LATIN CAPITAL LETTER B")]);
    let a = create_phf(&values, 3, 64).expect("construction must succeed");
    let b = create_phf(&values, 3, 64).expect("construction must succeed");
    assert_eq!(a.0, b.0);
    assert_eq!(a.1, b.1);
    assert_eq!(a.2, b.2);
}

#[test]
fn duplicate_names_exhaust_all_attempts() {
    let values = corpus(&[('\u{41}', "SAME NAME"), ('\u{42}', "SAME NAME")]);
    let err = create_phf(&values, 2, 8).expect_err("duplicate names cannot be placed");
    assert_eq!(err.table_len, 2);
    assert_eq!(err.lambda, 2);
    assert_eq!(err.max_tries, 8);
}

#[test]
fn one_entry_always_succeeds() {
    let values = corpus(&[('\u{263A}', "WHITE SMILING FACE")]);
    let (seed, disps, map) = create_phf(&values, 7, 1).expect("one entry cannot fail");
    check_table(&values, 7, seed, &disps, &map);
}

#[test]
fn zero_budget_always_exhausts() {
    let values = corpus(&[('\u{41}', "LATIN CAPITAL LETTER A"), ('\u{42}', "LATIN CAPITAL LETTER B")]);
    let err = create_phf(&values, 3, 0).expect_err("no attempt can be made");
    assert_eq!(err.table_len, 2);
    assert_eq!(err.lambda, 3);
    assert_eq!(err.max_tries, 0);
}

#[test]
fn single_attempt_succeeds_for_one_entry() {
    let values = corpus(&[('\u{263A}', "WHITE SMILING FACE")]);
    let mut rng = rand::rngs::StdRng::seed_from_u64(99);
    let r = try_phf_table(&values, 1, 0xdeadbeef, &mut rng);
    let (disps, map) = r.expect("a single entry always fits");
    check_table(&values, 1, 0xdeadbeef, &disps, &map);
}
