use graffiti::utils;

#[test]
fn get_levenshtein_distance() {
    let a: &[u8] = b"algorithm";
    let b: &[u8] = b"altruistic";

    let lev = utils::levenshtein(&a, &b);

    println!("{:?}", lev);

    assert!(lev == 6);
}

#[test]
fn hash_of_known_names() {
    assert_eq!(utils::get_hash_val(b""), 0);
    assert_eq!(utils::get_hash_val(b"a"), 0);
    assert_eq!(utils::get_hash_val(b"Start"), 1116);
    assert_eq!(utils::get_hash_val(b"Alpha"), 1032);
    assert_eq!(utils::get_hash_val(&[1, 2, 3]), 0 * 1 + 1 * 2 + 2 * 3);
}

#[test]
fn hash_of_suffix_is_not_larger() {
    let t: &[u8] = b"stemming";
    let whole = utils::get_hash_val(t);
    for k in 0..t.len() {
        assert!(utils::get_hash_val(&t[k..]) <= whole);
    }
}

#[test]
fn levenshtein_table_cell_values() {
    assert_eq!(utils::levenshtein(b"a", b"b"), 0);
    assert_eq!(utils::levenshtein(b"ab", b"ab"), 1);
    assert_eq!(utils::levenshtein(b"abc", b"abd"), 2);
    assert_eq!(utils::levenshtein(b"kitten", b"sitting"), 1);
    assert_eq!(utils::levenshtein(b"x", b"xyz"), 0);
    assert_eq!(utils::levenshtein(b"ab", b"abcd"), 1);
}
