use phf_trie::trie::Trie;

fn bytes(s: &str) -> Vec<u8> {
    s.as_bytes().to_vec()
}

fn drain(t: &Trie) -> Vec<(usize, Vec<u8>, Option<usize>)> {
    let mut items = t.iter();
    let mut out = Vec::new();
    while let Some(e) = items.next() {
        out.push(e);
    }
    out
}

#[test]
fn reinserting_an_identical_string_reports_true_true() {
    let mut t = Trie::new();
    let first = t.insert(&bytes("ABC"), Some(5), false);
    assert_eq!(first, (false, false));
    let second = t.insert(&bytes("ABC"), Some(9), false);
    assert_eq!(second, (true, true));
}

#[test]
fn a_prefix_reuses_the_longer_strings_offset() {
    let mut t = Trie::new();
    t.insert(&bytes("LATIN CAPITAL LETTER A"), Some(0), false);
    let r = t.insert(&bytes("LATIN CAPITAL LETTER "), Some(777), false);
    // The prefix's node was created (and its offset claimed) by the longer
    // string, so the insertion sees an existing offset but no prior count.
    assert_eq!(r, (true, false));
    let items = drain(&t);
    let prefix_entry = items
        .iter()
        .find(|e| e.1 == bytes("LATIN CAPITAL LETTER "))
        .expect("prefix is a stored string now");
    assert_eq!(prefix_entry.2, Some(0));
}

#[test]
fn shared_prefix_keeps_first_offset_and_suffixes_get_their_own() {
    let mut t = Trie::new();
    t.insert(&bytes("LATIN CAPITAL LETTER A"), Some(0), false);
    t.insert(&bytes("LATIN CAPITAL LETTER B"), Some(100), false);
    let items = drain(&t);
    assert_eq!(items.len(), 2);
    let a = items.iter().find(|e| e.1 == bytes("LATIN CAPITAL LETTER A")).unwrap();
    let b = items.iter().find(|e| e.1 == bytes("LATIN CAPITAL LETTER B")).unwrap();
    assert_eq!(a.0, 1);
    assert_eq!(b.0, 1);
    // The first string claimed offset 0 for every node on its path; the
    // second string's terminal is the only new node it could claim.
    assert_eq!(a.2, Some(0));
    assert_eq!(b.2, Some(100));
}

#[test]
fn iteration_yields_each_distinct_string_once_with_its_count() {
    let mut t = Trie::new();
    t.insert(&bytes("ONE"), Some(0), false);
    t.insert(&bytes("TWO"), Some(3), false);
    t.insert(&bytes("ON"), Some(6), false);
    t.insert(&bytes("ONE"), Some(9), false);
    let items = drain(&t);
    assert_eq!(items.len(), 3);
    let one = items.iter().find(|e| e.1 == bytes("ONE")).unwrap();
    let two = items.iter().find(|e| e.1 == bytes("TWO")).unwrap();
    let on = items.iter().find(|e| e.1 == bytes("ON")).unwrap();
    assert_eq!(one.0, 2);
    assert_eq!(two.0, 1);
    assert_eq!(on.0, 1);
    assert!(items.iter().all(|e| e.0 > 0));
}

#[test]
fn iteration_is_preorder_with_children_in_byte_order() {
    let mut t = Trie::new();
    t.insert(&bytes("B"), Some(0), false);
    t.insert(&bytes("A"), Some(1), false);
    t.insert(&bytes("AB"), Some(2), false);
    let items = drain(&t);
    let paths: Vec<Vec<u8>> = items.into_iter().map(|e| e.1).collect();
    assert_eq!(paths, vec![bytes("A"), bytes("AB"), bytes("B")]);
}

#[test]
fn weak_insertion_registers_the_path_without_counting_it() {
    let mut t = Trie::new();
    let r1 = t.insert(&bytes("GHOSTLY"), Some(4), true);
    assert_eq!(r1, (false, false));
    assert!(drain(&t).is_empty());
    let r2 = t.insert(&bytes("GHOSTLY"), Some(8), false);
    assert_eq!(r2, (true, false));
    let items = drain(&t);
    assert_eq!(items.len(), 1);
    assert_eq!(items[0].2, Some(4));
}

#[test]
fn set_offset_claims_unset_offsets_only_and_counts_nothing() {
    let mut t = Trie::new();
    t.set_offset(&bytes("AB"), 9);
    assert!(drain(&t).is_empty());
    let r = t.insert(&bytes("AB"), Some(1), false);
    assert_eq!(r, (true, false));
    let items = drain(&t);
    assert_eq!(items.len(), 1);
    assert_eq!(items[0].2, Some(9));
    // A second set_offset does not overwrite.
    t.set_offset(&bytes("AB"), 55);
    let items = drain(&t);
    assert_eq!(items[0].2, Some(9));
}

#[test]
fn get_child_creates_and_exposes_the_subtree() {
    let mut t = Trie::new();
    let child = t.get_child(65);
    let r = child.insert(&bytes("B"), Some(2), false);
    assert_eq!(r, (false, false));
    let items = drain(&t);
    assert_eq!(items.len(), 1);
    assert_eq!(items[0].1, bytes("AB"));
    assert_eq!(items[0].0, 1);
}

#[test]
fn items_next_ends_with_none() {
    let mut t = Trie::new();
    t.insert(&bytes("X"), Some(0), false);
    let mut items = t.iter();
    assert!(items.next().is_some());
    assert!(items.next().is_none());
    assert!(items.next().is_none());
}

#[test]
fn empty_path_counts_at_the_root() {
    let mut t = Trie::new();
    let r1 = t.insert(&Vec::new(), Some(3), false);
    assert_eq!(r1, (false, false));
    let items = drain(&t);
    assert_eq!(items.len(), 1);
    assert_eq!(items[0].1, Vec::<u8>::new());
    assert_eq!(items[0].0, 1);
    assert_eq!(items[0].2, Some(3));
}
