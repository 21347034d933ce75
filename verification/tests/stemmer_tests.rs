use graffiti::stemmer::Stemmer;

#[test]
fn test_stem() {
    let stemmer = Stemmer::new(&vec![vec![100, 101]]);
    let v = vec![97, 98, 99, 100, 101];

    let v_stemmed = stemmer.stem(&v);

    assert!(v_stemmed == &[97, 98, 99]);
}

#[test]
fn stem_without_known_suffix_keeps_token() {
    let stemmer = Stemmer::new(&vec![vec![120, 121, 122]]);
    let v = vec![97, 98, 99, 100, 101];
    assert_eq!(stemmer.stem(&v), &[97, 98, 99, 100, 101]);
    let empty: Vec<u8> = Vec::new();
    assert_eq!(stemmer.stem(&empty), &[] as &[u8]);
}

#[test]
fn stem_with_zero_hash_suffix_keeps_first_byte() {
    // a one-byte suffix hashes to 0, as does the empty suffix at the end of every token
    let stemmer = Stemmer::new(&vec![vec![115]]);
    let v = vec![99, 97, 116, 115];
    assert_eq!(stemmer.stem(&v), &[99]);
}

#[test]
fn stem_result_is_a_nonempty_prefix() {
    let stemmer = Stemmer::new(&vec![vec![105, 110, 103], vec![101, 100]]);
    let v: Vec<u8> = b"jumping".to_vec();
    let r = stemmer.stem(&v);
    assert!(!r.is_empty());
    assert_eq!(r, &v[..r.len()]);
}
