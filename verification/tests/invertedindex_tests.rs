use graffiti::invertedindex::InvertedIndex;

#[test]
fn get_docs_at() {
    let mut ii = InvertedIndex::new();

    let doc = vec![vec![97, 98, 99]];

    ii.add_doc(&doc, 42);

    let v_test = vec![97, 98, 99];

    assert!((&ii.get_docs(&v_test)).len() == 1);
    assert!((&ii.get_tfs(&v_test)).len() == 1);
}

#[test]
fn search() {
    let mut ii = InvertedIndex::new();
    let doc1 = vec![vec![97, 98, 99], vec![99, 100, 101]];

    let doc2 = vec![vec![1, 2, 3], vec![4, 5, 6]];

    ii.add_doc(&doc1, 42);
    ii.add_doc(&doc2, 43);

    let query = vec![vec![97, 98, 99]];

    let (weights, freqs) = ii.ranking_weights(&query);
    assert!(weights.len() == 1);
    assert!(weights[&42] > 0);
    assert_eq!(freqs, vec![1]);
}

#[test]
fn add_doc_counts_frequencies_and_postings() {
    let mut ii = InvertedIndex::new();
    let a = vec![97u8, 98];
    let b = vec![98u8, 97];
    let w = ii.add_doc(&vec![a.clone(), b.clone(), a.clone()], 7);
    // first "ab" (hash 98, seen twice), then "ba" (hash 97)
    assert_eq!(w, vec![(2, 1), (1, 1)]);
    let w = ii.add_doc(&vec![a.clone()], 8);
    assert_eq!(w, vec![(1, 2)]);
    assert_eq!(ii.get_docs(&a), &vec![7, 8]);
    assert_eq!(ii.get_tfs(&a), &vec![2, 1]);
    assert_eq!(ii.get_idf(&a), 2);
    assert_eq!(ii.get_idf(&b), 1);
    assert_eq!(ii.get_hash_val(&a), 98);
}

#[test]
fn colliding_tokens_share_postings() {
    // "ab\0" and "a\0\x01" hash alike: 0*97 + 1*98 + 2*0 = 98 = 0*97 + 1*0 + 2*49
    let mut ii = InvertedIndex::new();
    let x = vec![97u8, 98, 0];
    let y = vec![97u8, 0, 49];
    assert_eq!(ii.get_hash_val(&x), ii.get_hash_val(&y));
    let w = ii.add_doc(&vec![x.clone(), y.clone(), y.clone()], 3);
    assert_eq!(w, vec![(1, 1), (2, 2)]);
    assert_eq!(ii.get_docs(&x), &vec![3, 3]);
    assert_eq!(ii.get_tfs(&y), &vec![1, 2]);
}

#[test]
fn ranking_weights_sum_products() {
    let mut ii = InvertedIndex::new();
    let a = vec![1u8, 2];
    let b = vec![1u8, 3];
    ii.add_doc(&vec![a.clone(), a.clone(), b.clone()], 1);
    ii.add_doc(&vec![a.clone()], 2);
    // idf(a) = 2, idf(b) = 1; tf(a,1) = 2, tf(a,2) = 1, tf(b,1) = 1
    let (w, f) = ii.ranking_weights(&vec![a.clone(), b.clone(), a.clone()]);
    assert_eq!(w.len(), 2);
    assert_eq!(w[&1], 2 * 2 + 1 * 1);
    assert_eq!(w[&2], 1 * 2);
    assert_eq!(f, vec![2, 1]);
}

#[test]
fn query_order_does_not_change_scores() {
    let mut ii = InvertedIndex::new();
    let a = vec![1u8, 2];
    let b = vec![1u8, 3];
    let c = vec![5u8, 5, 5];
    ii.add_doc(&vec![a.clone(), b.clone(), c.clone()], 1);
    ii.add_doc(&vec![b.clone(), b.clone()], 2);
    ii.add_doc(&vec![c.clone(), a.clone()], 3);
    let q1 = vec![a.clone(), b.clone(), a.clone(), c.clone()];
    let q2 = vec![c.clone(), a.clone(), b.clone(), a.clone()];
    let (w1, f1) = ii.ranking_weights(&q1);
    let (w2, f2) = ii.ranking_weights(&q2);
    assert_eq!(w1, w2);
    let sq = |f: &Vec<u32>| f.iter().map(|x| (*x as u64) * (*x as u64)).sum::<u64>();
    assert_eq!(sq(&f1), sq(&f2));
    assert_eq!(sq(&f1), 4 + 1 + 1);
}

#[test]
fn postings_after_several_adds() {
    let mut ii = InvertedIndex::new();
    let a = vec![1u8, 2];
    let b = vec![1u8, 3];
    ii.add_doc(&vec![a.clone(), a.clone(), b.clone()], 10);
    ii.add_doc(&vec![b.clone()], 11);
    ii.add_doc(&vec![a.clone()], 12);
    assert_eq!(ii.get_docs(&a), &vec![10, 12]);
    assert_eq!(ii.get_tfs(&a), &vec![2, 1]);
    assert_eq!(ii.get_idf(&a), 2);
    assert_eq!(ii.get_docs(&b), &vec![10, 11]);
    assert_eq!(ii.get_tfs(&b), &vec![1, 1]);
    assert_eq!(ii.get_idf(&b), 2);
    for (h, tfs) in ii.get_tfs_table() {
        assert!(tfs.iter().all(|x| *x >= 1));
        assert_eq!(tfs.len(), ii.get_dictionary()[h].len());
        assert_eq!(tfs.len(), ii.get_idfs_table()[h] as usize);
    }
}

#[test]
fn overflow_checks() {
    let mut ii = InvertedIndex::new();
    let a = vec![1u8, 2];
    assert!(ii.add_doc_fits(&vec![a.clone()], 1));
    ii.add_doc(&vec![a.clone()], 1);
    assert!(ii.ranking_fits(&vec![a.clone()]));
    assert!(!ii.ranking_fits(&vec![vec![9u8, 9]]));
    assert!(ii.has_token(&a));
    assert!(!ii.has_token(&[9u8, 9]));
}
