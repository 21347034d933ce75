use graffiti::postagger::{PosTagger, Tag};

#[test]
fn test_tagging() {
    let test_tag = Tag::N;
    let mut tag_map = Vec::new();
    tag_map.push((vec![99, 100, 101], Tag::N));

    let tagger = PosTagger::new(tag_map);
    let v = vec![97, 98, 99, 100, 101];

    let v_tag = tagger.tag(&v);

    assert!(v_tag == Some(&test_tag));
}

#[test]
fn tagging_without_known_suffix() {
    let tagger = PosTagger::new(vec![(vec![120, 121, 122], Tag::VB)]);
    let v = vec![97, 98, 99, 100, 101];
    assert_eq!(tagger.tag(&v), None);
    let empty: Vec<u8> = Vec::new();
    assert_eq!(tagger.tag(&empty), None);
}

#[test]
fn tagging_prefers_longest_suffix() {
    // "ed" and "ked" both end "walked"; the longer suffix is found first from the front
    let tagger = PosTagger::new(vec![(b"ed".to_vec(), Tag::VB), (b"lked".to_vec(), Tag::ADJ)]);
    assert_eq!(tagger.tag(b"walked"), Some(&Tag::ADJ));
}

#[test]
fn later_pair_replaces_same_suffix() {
    let tagger = PosTagger::new(vec![(b"ly".to_vec(), Tag::N), (b"ly".to_vec(), Tag::ADJ)]);
    assert_eq!(tagger.tag(b"quickly"), Some(&Tag::ADJ));
}
