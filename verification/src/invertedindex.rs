use std::collections::HashMap;
use vstd::prelude::*;
use crate::utils::{get_hash_val, hash_fits, hash_spec, lemma_hash_nonneg};

verus! {

broadcast use vstd::std_specs::hash::group_hash_axioms;

/// The contents of an index: for each term hash, the documents it occurs in, its
/// frequency in each of them, and the number of such postings.
pub struct IndexModel {
    pub docs: Map<u32, Seq<u32>>,
    pub tfs: Map<u32, Seq<u32>>,
    pub idfs: Map<u32, int>,
}

/// The postings list under `h`, empty when there is none.
pub open spec fn postings(m: Map<u32, Seq<u32>>, h: u32) -> Seq<u32> {
    if m.contains_key(h) {
        m[h]
    } else {
        Seq::empty()
    }
}

/// The posting count under `h`, 0 when there is none.
pub open spec fn count_under(m: Map<u32, int>, h: u32) -> int {
    if m.contains_key(h) {
        m[h]
    } else {
        0
    }
}

/// The three tables agree: the same term hashes, and for each the same number of
/// documents, frequencies and counted postings; every recorded frequency is at least 1.
pub open spec fn model_wf(ix: IndexModel) -> bool {
    &&& ix.docs.dom() == ix.tfs.dom()
    &&& ix.docs.dom() == ix.idfs.dom()
    &&& forall|h: u32|
        #[trigger] ix.docs.contains_key(h) ==> ix.docs[h].len() == ix.tfs[h].len() && ix.docs[h].len()
            == ix.idfs[h]
    &&& forall|h: u32, k: int|
        ix.tfs.contains_key(h) && 0 <= k < ix.tfs[h].len() ==> #[trigger] ix.tfs[h][k] >= 1
}

/// Every term is recorded with a frequency of at least 1.
pub open spec fn freqs_positive(terms: Seq<(u32, u32)>) -> bool {
    forall|k: int| 0 <= k < terms.len() ==> #[trigger] terms[k].1 >= 1
}

/// Records that term `h` occurs `freq` times in `doc`.
pub open spec fn add_term(ix: IndexModel, h: u32, doc: u32, freq: u32) -> IndexModel {
    IndexModel {
        docs: ix.docs.insert(h, postings(ix.docs, h).push(doc)),
        tfs: ix.tfs.insert(h, postings(ix.tfs, h).push(freq)),
        idfs: ix.idfs.insert(h, count_under(ix.idfs, h) + 1),
    }
}

/// Records each `(hash, frequency)` term of `doc`, in order.
pub open spec fn add_terms(ix: IndexModel, terms: Seq<(u32, u32)>, doc: u32) -> IndexModel
    decreases terms.len(),
{
    if terms.len() == 0 {
        ix
    } else {
        let prev = add_terms(ix, terms.drop_last(), doc);
        add_term(prev, terms.last().0, doc, terms.last().1)
    }
}

/// The number of times `t` occurs in `tokens`.
pub open spec fn count_of(tokens: Seq<Seq<u8>>, t: Seq<u8>) -> nat
    decreases tokens.len(),
{
    if tokens.len() == 0 {
        0
    } else {
        count_of(tokens.drop_last(), t) + if tokens.last() == t {
            1nat
        } else {
            0nat
        }
    }
}

/// The different tokens of `tokens`, in order of first occurrence.
pub open spec fn distinct_tokens(tokens: Seq<Seq<u8>>) -> Seq<Seq<u8>>
    decreases tokens.len(),
{
    if tokens.len() == 0 {
        Seq::empty()
    } else {
        let d = distinct_tokens(tokens.drop_last());
        if d.contains(tokens.last()) {
            d
        } else {
            d.push(tokens.last())
        }
    }
}

/// The terms of a document: each different token, by hash, with its number of
/// occurrences.
pub open spec fn term_list(tokens: Seq<Seq<u8>>) -> Seq<(u32, u32)> {
    distinct_tokens(tokens).map_values(
        |t: Seq<u8>| (hash_spec(t) as u32, count_of(tokens, t) as u32),
    )
}

/// For each term of a document, its frequency and the posting count of its hash
/// once it has been recorded.
pub open spec fn term_weights(ix: IndexModel, terms: Seq<(u32, u32)>, doc: u32) -> Seq<(u32, u32)> {
    Seq::new(
        terms.len(),
        |k: int|
            (terms[k].1, count_under(add_terms(ix, terms.take(k + 1), doc).idfs, terms[k].0) as u32),
    )
}

/// Every posting count fits in 32 bits.
pub open spec fn counts_fit(ix: IndexModel) -> bool {
    forall|h: u32| #[trigger] ix.idfs.contains_key(h) ==> ix.idfs[h] <= u32::MAX
}

/// Scores by document.
pub open spec fn weights_view(m: Map<u32, u64>) -> Map<u32, int> {
    m.map_values(|x: u64| x as int)
}

/// A list of byte strings by their bytes.
pub open spec fn tokens_view(v: Seq<Vec<u8>>) -> Seq<Seq<u8>> {
    v.map_values(|t: Vec<u8>| t@)
}

/// Whether two byte strings are equal.
fn bytes_eq(a: &[u8], b: &[u8]) -> (r: bool)
    ensures
        r == (a@ == b@),
{
    if a.len() != b.len() {
        return false;
    }
    let mut i: usize = 0;
    while i < a.len()
        invariant
            i <= a.len() == b.len(),
            forall|j: int| 0 <= j < i ==> a@[j] == b@[j],
        decreases a.len() - i,
    {
        if a[i] != b[i] {
            return false;
        }
        i = i + 1;
    }
    assert(a@ =~= b@);
    true
}

/// The distinct tokens of `tokens`, each as the position of its first occurrence
/// together with its number of occurrences.
fn count_tokens(tokens: &[Vec<u8>]) -> (r: Vec<(usize, u32)>)
    requires
        tokens.len() <= u32::MAX,
    ensures
        r@.len() == distinct_tokens(tokens_view(tokens@)).len(),
        forall|k: int|
            0 <= k < r@.len() ==> {
                &&& #[trigger] r@[k].0 < tokens@.len()
                &&& tokens@[r@[k].0 as int]@ == distinct_tokens(tokens_view(tokens@))[k]
                &&& r@[k].1 == count_of(tokens_view(tokens@), tokens@[r@[k].0 as int]@)
            },
{
    let ghost tv = tokens_view(tokens@);
    let mut dist: Vec<(usize, u32)> = Vec::new();
    let mut i: usize = 0;
    assert(tv.take(0) =~= Seq::<Seq<u8>>::empty());
    while i < tokens.len()
        invariant
            i <= tokens.len() <= u32::MAX,
            tv == tokens_view(tokens@),
            dist@.len() == distinct_tokens(tv.take(i as int)).len(),
            forall|k: int|
                0 <= k < dist@.len() ==> {
                    &&& #[trigger] dist@[k].0 < i
                    &&& tokens@[dist@[k].0 as int]@ == distinct_tokens(tv.take(i as int))[k]
                    &&& dist@[k].1 == count_of(tv.take(i as int), tokens@[dist@[k].0 as int]@)
                    &&& dist@[k].1 <= i
                },
        decreases tokens.len() - i,
    {
        let ghost pre = tv.take(i as int);
        let ghost cur = tv.take(i + 1);
        assert(cur.drop_last() =~= pre);
        assert(cur.last() == tokens@[i as int]@);
        let mut j: usize = 0;
        let mut found = false;
        while j < dist.len()
            invariant
                j <= dist.len(),
                i < tokens.len(),
                dist@.len() == distinct_tokens(pre).len(),
                forall|k: int|
                    0 <= k < dist@.len() ==> #[trigger] dist@[k].0 < i
                        && tokens@[dist@[k].0 as int]@ == distinct_tokens(pre)[k],
                !found ==> forall|k: int| 0 <= k < j ==> distinct_tokens(pre)[k] != tokens@[i as int]@,
                found ==> j < dist.len() && distinct_tokens(pre)[j as int] == tokens@[i as int]@,
            ensures
                !found ==> j == dist.len(),
                !found ==> forall|k: int| 0 <= k < j ==> distinct_tokens(pre)[k] != tokens@[i as int]@,
                found ==> j < dist.len() && distinct_tokens(pre)[j as int] == tokens@[i as int]@,
            decreases dist.len() - j,
        {
            let idx = dist[j].0;
            if bytes_eq(tokens[idx].as_slice(), tokens[i].as_slice()) {
                found = true;
                break ;
            }
            j = j + 1;
        }
        proof {
            assert forall|t: Seq<u8>| #[trigger] count_of(cur, t) == count_of(pre, t) + if tokens@[i as int]@ == t {
                1nat
            } else {
                0nat
            } by {}
        }
        if found {
            let ghost before = dist@;
            let (idx, cnt) = dist[j];
            assert(distinct_tokens(pre).contains(tokens@[i as int]@));
            dist.set(j, (idx, cnt + 1));
            assert forall|k: int| 0 <= k < dist@.len() implies {
                &&& #[trigger] dist@[k].0 < i + 1
                &&& tokens@[dist@[k].0 as int]@ == distinct_tokens(cur)[k]
                &&& dist@[k].1 == count_of(cur, tokens@[dist@[k].0 as int]@)
                &&& dist@[k].1 <= i + 1
            } by {
                assert(before[k].0 < i);
                if k != j {
                    assert(distinct_tokens(pre)[k] != distinct_tokens(pre)[j as int]) by {
                        lemma_distinct_no_dup(pre);
                    }
                }
            }
        } else {
            assert(!distinct_tokens(pre).contains(tokens@[i as int]@));
            let ghost before = dist@;
            dist.push((i, 1));
            assert(distinct_tokens(cur) == distinct_tokens(pre).push(tokens@[i as int]@));
            assert forall|k: int| 0 <= k < dist@.len() implies {
                &&& #[trigger] dist@[k].0 < i + 1
                &&& tokens@[dist@[k].0 as int]@ == distinct_tokens(cur)[k]
                &&& dist@[k].1 == count_of(cur, tokens@[dist@[k].0 as int]@)
                &&& dist@[k].1 <= i + 1
            } by {
                if k < before.len() {
                    assert(before[k].0 < i);
                    assert(distinct_tokens(pre)[k] != tokens@[i as int]@);
                } else {
                    lemma_count_absent(pre, tokens@[i as int]@);
                }
            }
        }
        i = i + 1;
    }
    assert(tv.take(i as int) =~= tv);
    dist
}

/// A token of `tokens` occurs in it at least once.
proof fn lemma_count_present(tokens: Seq<Seq<u8>>, i: int)
    requires
        0 <= i < tokens.len(),
    ensures
        count_of(tokens, tokens[i]) >= 1,
    decreases tokens.len(),
{
    if i < tokens.len() - 1 {
        lemma_count_present(tokens.drop_last(), i);
    }
}

/// No token is listed twice among the distinct tokens.
proof fn lemma_distinct_no_dup(tokens: Seq<Seq<u8>>)
    ensures
        forall|a: int, b: int|
            0 <= a < b < distinct_tokens(tokens).len() ==> distinct_tokens(tokens)[a]
                != distinct_tokens(tokens)[b],
    decreases tokens.len(),
{
    if tokens.len() > 0 {
        lemma_distinct_no_dup(tokens.drop_last());
        let d = distinct_tokens(tokens.drop_last());
        if !d.contains(tokens.last()) {
            assert forall|a: int| 0 <= a < d.len() implies d[a] != tokens.last() by {}
            let e = d.push(tokens.last());
            assert forall|a: int, b: int| 0 <= a < b < e.len() implies e[a] != e[b] by {
                if b < d.len() {
                    assert(e[a] == d[a] && e[b] == d[b]);
                } else {
                    assert(e[a] == d[a]);
                }
            }
        }
    }
}

/// A token that is not among the distinct tokens does not occur.
proof fn lemma_count_absent(tokens: Seq<Seq<u8>>, t: Seq<u8>)
    requires
        !distinct_tokens(tokens).contains(t),
    ensures
        count_of(tokens, t) == 0,
    decreases tokens.len(),
{
    if tokens.len() > 0 {
        let d = distinct_tokens(tokens.drop_last());
        if d.contains(tokens.last()) {
            lemma_count_absent(tokens.drop_last(), t);
        } else {
            assert(d.push(tokens.last()).last() == tokens.last());
            assert forall|k: int| 0 <= k < d.len() implies d[k] != t by {
                assert(d.push(tokens.last())[k] == d[k]);
            }
            lemma_count_absent(tokens.drop_last(), t);
        }
    }
}



/// The score under `d`, 0 when there is none.
pub open spec fn score_of(w: Map<u32, int>, d: u32) -> int {
    if w.contains_key(d) {
        w[d]
    } else {
        0
    }
}

/// Adds `tfs[k] * idf` to the score of `docs[k]`, for each of the first `n` postings.
pub open spec fn add_postings(
    w: Map<u32, int>,
    docs: Seq<u32>,
    tfs: Seq<u32>,
    idf: int,
    n: int,
) -> Map<u32, int>
    decreases n,
{
    if n <= 0 {
        w
    } else {
        let w1 = add_postings(w, docs, tfs, idf, n - 1);
        w1.insert(docs[n - 1], score_of(w1, docs[n - 1]) + tfs[n - 1] * idf)
    }
}

/// The scores of the documents for the query terms with the given hashes: for each
/// term, each document in its postings gains its frequency there times the term's
/// posting count.
pub open spec fn query_scores(ix: IndexModel, hashes: Seq<u32>) -> Map<u32, int>
    decreases hashes.len(),
{
    if hashes.len() == 0 {
        Map::empty()
    } else {
        let h = hashes.last();
        add_postings(
            query_scores(ix, hashes.drop_last()),
            ix.docs[h],
            ix.tfs[h],
            ix.idfs[h],
            ix.docs[h].len() as int,
        )
    }
}

/// The hashes of the different tokens of a query, in order of first occurrence.
pub open spec fn query_hashes(query: Seq<Seq<u8>>) -> Seq<u32> {
    distinct_tokens(query).map_values(|t: Seq<u8>| hash_spec(t) as u32)
}

/// The number of times each different token of a query occurs in it.
pub open spec fn query_freqs(query: Seq<Seq<u8>>) -> Seq<u32> {
    distinct_tokens(query).map_values(|t: Seq<u8>| count_of(query, t) as u32)
}

/// Every query token is indexed, every product of a frequency and a posting count fits
/// in 32 bits, and every score fits in 64 bits.
pub open spec fn query_ok(ix: IndexModel, query: Seq<Seq<u8>>) -> bool {
    &&& query.len() <= u32::MAX
    &&& forall|i: int|
        0 <= i < query.len() ==> hash_spec(#[trigger] query[i]) <= u32::MAX
            && ix.docs.contains_key(hash_spec(query[i]) as u32)
    &&& forall|h: u32, k: int|
        #![trigger ix.tfs[h][k]]
        ix.docs.contains_key(h) && query_hashes(query).contains(h) && 0 <= k < ix.tfs[h].len()
            ==> ix.tfs[h][k] * ix.idfs[h] <= u32::MAX
    &&& forall|d: u32|
        #[trigger] query_scores(ix, query_hashes(query)).contains_key(d) ==> query_scores(
            ix,
            query_hashes(query),
        )[d] <= u64::MAX
}

/// Adding postings never lowers a score.
proof fn lemma_add_postings_grow(
    w: Map<u32, int>,
    docs: Seq<u32>,
    tfs: Seq<u32>,
    idf: int,
    n: int,
    m: int,
)
    requires
        0 <= n <= m,
        idf >= 0,
    ensures
        forall|d: u32|
            #[trigger] score_of(add_postings(w, docs, tfs, idf, n), d) <= score_of(
                add_postings(w, docs, tfs, idf, m),
                d,
            ),
    decreases m - n,
{
    if n < m {
        lemma_add_postings_grow(w, docs, tfs, idf, n, m - 1);
        let w1 = add_postings(w, docs, tfs, idf, m - 1);
        assert(tfs[m - 1] * idf >= 0) by (nonlinear_arith)
            requires
                idf >= 0,
                tfs[m - 1] >= 0,
        ;
        assert forall|d: u32| score_of(w1, d) <= #[trigger] score_of(
            add_postings(w, docs, tfs, idf, m),
            d,
        ) by {}
    }
}

/// The scores of a prefix of the query terms are at most the final scores.
proof fn lemma_query_scores_grow(ix: IndexModel, hashes: Seq<u32>, j: int)
    requires
        0 <= j <= hashes.len(),
        forall|h: u32| #[trigger] ix.idfs.contains_key(h) ==> ix.idfs[h] >= 0,
        model_wf(ix),
        forall|k: int| 0 <= k < hashes.len() ==> ix.docs.contains_key(#[trigger] hashes[k]),
    ensures
        forall|d: u32|
            #[trigger] score_of(query_scores(ix, hashes.take(j)), d) <= score_of(
                query_scores(ix, hashes),
                d,
            ),
    decreases hashes.len() - j,
{
    if j == hashes.len() {
        assert(hashes.take(j) =~= hashes);
    } else {
        lemma_query_scores_grow(ix, hashes, j + 1);
        let h = hashes[j];
        assert(hashes.take(j + 1).drop_last() =~= hashes.take(j));
        assert(hashes.take(j + 1).last() == h);
        let w = query_scores(ix, hashes.take(j));
        assert(ix.docs.contains_key(h));
        lemma_add_postings_grow(w, ix.docs[h], ix.tfs[h], ix.idfs[h], 0, ix.docs[h].len() as int);
        let next = query_scores(ix, hashes.take(j + 1));
        assert(next == add_postings(w, ix.docs[h], ix.tfs[h], ix.idfs[h], ix.docs[h].len() as int));
        assert(add_postings(w, ix.docs[h], ix.tfs[h], ix.idfs[h], 0) == w);
        assert forall|d: u32| #[trigger] score_of(w, d) <= score_of(query_scores(ix, hashes), d) by {
            assert(score_of(w, d) <= score_of(next, d));
            assert(score_of(next, d) <= score_of(query_scores(ix, hashes), d));
        }
    }
}

/// Maps term hashes to the documents they occur in and their frequencies there.
pub struct InvertedIndex {
    dictionary: HashMap<u32, Vec<u32>>,
    tfs: HashMap<u32, Vec<u32>>,
    idfs: HashMap<u32, u32>,
}

impl InvertedIndex {
    /// The contents of the index.
    pub closed spec fn model(&self) -> IndexModel {
        IndexModel {
            docs: self.dictionary@.map_values(|v: Vec<u32>| v@),
            tfs: self.tfs@.map_values(|v: Vec<u32>| v@),
            idfs: self.idfs@.map_values(|x: u32| x as int),
        }
    }

    /// The index is consistent.
    pub open spec fn wf(&self) -> bool {
        model_wf(self.model())
    }

    /// An empty index.
    pub fn new() -> (ix: Self)
        ensures
            ix.wf(),
            ix.model().docs == Map::<u32, Seq<u32>>::empty(),
            ix.model().tfs == Map::<u32, Seq<u32>>::empty(),
            ix.model().idfs == Map::<u32, int>::empty(),
    {
        let ix = InvertedIndex {
            dictionary: HashMap::new(),
            tfs: HashMap::new(),
            idfs: HashMap::new(),
        };
        assert(ix.model().docs =~= Map::<u32, Seq<u32>>::empty());
        assert(ix.model().tfs =~= Map::<u32, Seq<u32>>::empty());
        assert(ix.model().idfs =~= Map::<u32, int>::empty());
        ix
    }

    /// The hash of a token.
    pub fn get_hash_val(&self, token: &[u8]) -> (h: u32)
        requires
            hash_spec(token@) <= u32::MAX,
        ensures
            h == hash_spec(token@),
    {
        get_hash_val(token)
    }

    /// Whether `token`'s hash has postings.
    pub fn has_token(&self, token: &[u8]) -> (r: bool)
        requires
            hash_spec(token@) <= u32::MAX,
        ensures
            r == self.model().docs.contains_key(hash_spec(token@) as u32),
    {
        let s = get_hash_val(token);
        self.dictionary.contains_key(&s)
    }

    /// The documents of every term hash.
    pub fn get_dictionary(&self) -> (r: &HashMap<u32, Vec<u32>>)
        ensures
            r@.map_values(|v: Vec<u32>| v@) == self.model().docs,
    {
        &self.dictionary
    }

    /// The frequencies of every term hash.
    pub fn get_tfs_table(&self) -> (r: &HashMap<u32, Vec<u32>>)
        ensures
            r@.map_values(|v: Vec<u32>| v@) == self.model().tfs,
    {
        &self.tfs
    }

    /// The posting count of every term hash.
    pub fn get_idfs_table(&self) -> (r: &HashMap<u32, u32>)
        ensures
            r@.map_values(|x: u32| x as int) == self.model().idfs,
    {
        &self.idfs
    }

    /// The documents that `token`'s hash occurs in, in the order they were added.
    pub fn get_docs(&self, token: &[u8]) -> (r: &Vec<u32>)
        requires
            hash_spec(token@) <= u32::MAX,
            self.model().docs.contains_key(hash_spec(token@) as u32),
        ensures
            r@ == self.model().docs[hash_spec(token@) as u32],
    {
        let s = get_hash_val(token);
        self.dictionary.get(&s).unwrap()
    }

    /// The frequencies of `token`'s hash in those documents.
    pub fn get_tfs(&self, token: &[u8]) -> (r: &Vec<u32>)
        requires
            hash_spec(token@) <= u32::MAX,
            self.model().tfs.contains_key(hash_spec(token@) as u32),
        ensures
            r@ == self.model().tfs[hash_spec(token@) as u32],
    {
        let s = get_hash_val(token);
        self.tfs.get(&s).unwrap()
    }

    /// The number of postings of `token`'s hash.
    pub fn get_idf(&self, token: &[u8]) -> (r: u32)
        requires
            hash_spec(token@) <= u32::MAX,
            self.model().idfs.contains_key(hash_spec(token@) as u32),
        ensures
            r == self.model().idfs[hash_spec(token@) as u32],
    {
        let s = get_hash_val(token);
        *self.idfs.get(&s).unwrap()
    }

    /// Records one term: appends `doc` and `freq` to the postings of `h` and counts
    /// the posting; gives the new count.
    fn add_posting(&mut self, h: u32, doc: u32, freq: u32) -> (x: u32)
        requires
            old(self).wf(),
            count_under(old(self).model().idfs, h) < u32::MAX,
            freq >= 1,
        ensures
            final(self).wf(),
            final(self).model() == add_term(old(self).model(), h, doc, freq),
            x == count_under(final(self).model().idfs, h),
    {
        let ghost m0 = self.model();
        let mut docs = match self.dictionary.remove(&h) {
            Some(v) => v,
            None => Vec::new(),
        };
        assert(docs@ == postings(m0.docs, h));
        docs.push(doc);
        self.dictionary.insert(h, docs);
        let mut tf = match self.tfs.remove(&h) {
            Some(v) => v,
            None => Vec::new(),
        };
        assert(tf@ == postings(m0.tfs, h));
        tf.push(freq);
        self.tfs.insert(h, tf);
        let x = match self.idfs.get(&h) {
            Some(x) => *x,
            None => 0,
        };
        assert(x == count_under(m0.idfs, h));
        self.idfs.insert(h, x + 1);
        assert(self.model().docs =~= add_term(m0, h, doc, freq).docs);
        assert(self.model().tfs =~= add_term(m0, h, doc, freq).tfs);
        assert(self.model().idfs =~= add_term(m0, h, doc, freq).idfs);
        x + 1
    }

    /// Adds document `doc` with the given tokens: each different token, in order of
    /// first occurrence, is recorded under its hash with its number of occurrences.
    /// Gives, for each such token, its frequency and the posting count of its hash
    /// right after it was recorded.
    pub fn add_doc(&mut self, tokens: &[Vec<u8>], doc: u32) -> (w: Vec<(u32, u32)>)
        requires
            old(self).wf(),
            tokens@.len() <= u32::MAX,
            forall|i: int| 0 <= i < tokens@.len() ==> hash_spec(#[trigger] tokens@[i]@) <= u32::MAX,
            counts_fit(add_terms(old(self).model(), term_list(tokens_view(tokens@)), doc)),
        ensures
            final(self).wf(),
            final(self).model() == add_terms(
                old(self).model(),
                term_list(tokens_view(tokens@)),
                doc,
            ),
            w@ == term_weights(old(self).model(), term_list(tokens_view(tokens@)), doc),
    {
        let ghost m0 = self.model();
        let ghost terms = term_list(tokens_view(tokens@));
        let dist = count_tokens(tokens);
        let mut out: Vec<(u32, u32)> = Vec::new();
        let mut k: usize = 0;
        while k < dist.len()
            invariant
                k <= dist.len() == terms.len(),
                self.wf(),
                terms == term_list(tokens_view(tokens@)),
                forall|i: int| 0 <= i < tokens@.len() ==> hash_spec(#[trigger] tokens@[i]@) <= u32::MAX,
                counts_fit(add_terms(m0, terms, doc)),
                forall|j: int|
                    0 <= j < dist@.len() ==> {
                        &&& #[trigger] dist@[j].0 < tokens@.len()
                        &&& tokens@[dist@[j].0 as int]@ == distinct_tokens(tokens_view(tokens@))[j]
                        &&& dist@[j].1 == count_of(tokens_view(tokens@), tokens@[dist@[j].0 as int]@)
                    },
                self.model() == add_terms(m0, terms.take(k as int), doc),
                out@ == term_weights(m0, terms, doc).take(k as int),
            decreases dist.len() - k,
        {
            let (idx, freq) = dist[k];
            proof {
                lemma_count_present(tokens_view(tokens@), idx as int);
            }
            let h = get_hash_val(tokens[idx].as_slice());
            assert(terms[k as int] == (h, freq));
            assert(terms.take(k + 1).drop_last() =~= terms.take(k as int));
            proof {
                lemma_counts_prefix(m0, terms, doc, k + 1);
                let fin = add_terms(m0, terms, doc);
                let a = add_terms(m0, terms.take(k as int), doc);
                assert(add_terms(m0, terms.take(k + 1), doc) == add_term(a, h, doc, freq));
                assert(count_under(add_terms(m0, terms.take(k + 1), doc).idfs, h) <= count_under(
                    fin.idfs,
                    h,
                ));
                assert(fin.idfs.contains_key(h));
            }
            let x = self.add_posting(h, doc, freq);
            out.push((freq, x));
            assert(out@ =~= term_weights(m0, terms, doc).take(k + 1));
            k = k + 1;
        }
        assert(terms.take(k as int) =~= terms);
        assert(out@ =~= term_weights(m0, terms, doc));
        out
    }

    /// Adds the scores of the query token `token` to `weights`: each document in the
    /// postings of its hash gains its frequency there times the posting count.
    fn score_term(&self, weights: &mut HashMap<u32, u64>, token: &[u8])
        requires
            self.wf(),
            hash_spec(token@) <= u32::MAX,
            self.model().docs.contains_key(hash_spec(token@) as u32),
            forall|k: int|
                0 <= k < self.model().tfs[hash_spec(token@) as u32].len() ==> #[trigger] self.model().tfs[hash_spec(
                    token@,
                ) as u32][k] * self.model().idfs[hash_spec(token@) as u32] <= u32::MAX,
            forall|d: u32|
                #[trigger] score_of(
                    add_postings(
                        weights_view(old(weights)@),
                        self.model().docs[hash_spec(token@) as u32],
                        self.model().tfs[hash_spec(token@) as u32],
                        self.model().idfs[hash_spec(token@) as u32],
                        self.model().docs[hash_spec(token@) as u32].len() as int,
                    ),
                    d,
                ) <= u64::MAX,
        ensures
            weights_view(final(weights)@) == add_postings(
                weights_view(old(weights)@),
                self.model().docs[hash_spec(token@) as u32],
                self.model().tfs[hash_spec(token@) as u32],
                self.model().idfs[hash_spec(token@) as u32],
                self.model().docs[hash_spec(token@) as u32].len() as int,
            ),
    {
        let ghost h = hash_spec(token@) as u32;
        let ghost w0 = weights_view(weights@);
        let ghost m = self.model();
        let idf = self.get_idf(token);
        let docs = self.get_docs(token);
        let tfs = self.get_tfs(token);
        let n = docs.len();
        assert(m.idfs[h] >= 0);
        let mut k: usize = 0;
        while k < n
            invariant
                k <= n == docs@.len() == tfs@.len(),
                m == self.model(),
                docs@ == m.docs[h],
                tfs@ == m.tfs[h],
                idf == m.idfs[h],
                forall|j: int| 0 <= j < tfs@.len() ==> #[trigger] tfs@[j] * idf <= u32::MAX,
                forall|d: u32|
                    #[trigger] score_of(add_postings(w0, docs@, tfs@, idf as int, n as int), d)
                        <= u64::MAX,
                weights_view(weights@) == add_postings(w0, docs@, tfs@, idf as int, k as int),
            decreases n - k,
        {
            let d = docs[k];
            let tf = tfs[k];
            assert(tfs@[k as int] * idf <= u32::MAX);
            let product = tf * idf;
            proof {
                lemma_add_postings_grow(w0, docs@, tfs@, idf as int, k + 1, n as int);
                let next = add_postings(w0, docs@, tfs@, idf as int, k + 1);
                assert(score_of(next, d) <= score_of(
                    add_postings(w0, docs@, tfs@, idf as int, n as int),
                    d,
                ));
            }
            let current = match weights.get(&d) {
                Some(x) => *x,
                None => 0,
            };
            weights.insert(d, current + product as u64);
            assert(weights_view(weights@) =~= add_postings(w0, docs@, tfs@, idf as int, k + 1));
            k = k + 1;
        }
    }

    /// Whether adding a document with these tokens keeps every posting count within
    /// 32 bits, that is, whether `add_doc` can add it.
    pub fn add_doc_fits(&self, tokens: &[Vec<u8>], doc: u32) -> (r: bool)
        requires
            self.wf(),
            tokens@.len() <= u32::MAX,
            forall|i: int| 0 <= i < tokens@.len() ==> hash_spec(#[trigger] tokens@[i]@) <= u32::MAX,
        ensures
            r == counts_fit(add_terms(self.model(), term_list(tokens_view(tokens@)), doc)),
    {
        let ghost m0 = self.model();
        let ghost terms = term_list(tokens_view(tokens@));
        let dist = count_tokens(tokens);
        let mut cnt: HashMap<u32, u32> = self.idfs.clone();
        assert(cnt@.map_values(|x: u32| x as int) =~= add_terms(m0, terms.take(0), doc).idfs) by {
            assert(terms.take(0) =~= Seq::<(u32, u32)>::empty());
        }
        let mut k: usize = 0;
        while k < dist.len()
            invariant
                k <= dist.len() == terms.len(),
                m0 == self.model(),
                terms == term_list(tokens_view(tokens@)),
                forall|i: int| 0 <= i < tokens@.len() ==> hash_spec(#[trigger] tokens@[i]@) <= u32::MAX,
                forall|j: int|
                    0 <= j < dist@.len() ==> {
                        &&& #[trigger] dist@[j].0 < tokens@.len()
                        &&& tokens@[dist@[j].0 as int]@ == distinct_tokens(tokens_view(tokens@))[j]
                        &&& dist@[j].1 == count_of(tokens_view(tokens@), tokens@[dist@[j].0 as int]@)
                    },
                cnt@.map_values(|x: u32| x as int) == add_terms(m0, terms.take(k as int), doc).idfs,
            decreases dist.len() - k,
        {
            let (idx, freq) = dist[k];
            let h = get_hash_val(tokens[idx].as_slice());
            assert(terms[k as int] == (h, freq));
            assert(terms.take(k + 1).drop_last() =~= terms.take(k as int));
            let ghost before = add_terms(m0, terms.take(k as int), doc);
            let ghost after = add_terms(m0, terms.take(k + 1), doc);
            assert(after == add_term(before, h, doc, freq));
            let x = match cnt.get(&h) {
                Some(x) => *x,
                None => 0,
            };
            assert(x == count_under(before.idfs, h));
            if x == u32::MAX {
                proof {
                    lemma_counts_prefix(m0, terms, doc, k + 1);
                    let fin = add_terms(m0, terms, doc);
                    assert(count_under(after.idfs, h) <= count_under(fin.idfs, h));
                    assert(fin.idfs.contains_key(h));
                }
                return false;
            }
            cnt.insert(h, x + 1);
            assert(cnt@.map_values(|y: u32| y as int) =~= after.idfs);
            k = k + 1;
        }
        assert(terms.take(k as int) =~= terms);
        true
    }

    /// Like `score_term`, checking the additions: gives `false`, with `weights` left in
    /// some state, when some document's score would not fit in 64 bits.
    fn score_term_checked(&self, weights: &mut HashMap<u32, u64>, token: &[u8]) -> (ok: bool)
        requires
            self.wf(),
            hash_spec(token@) <= u32::MAX,
            self.model().docs.contains_key(hash_spec(token@) as u32),
            forall|k: int|
                0 <= k < self.model().tfs[hash_spec(token@) as u32].len() ==> #[trigger] self.model().tfs[hash_spec(
                    token@,
                ) as u32][k] * self.model().idfs[hash_spec(token@) as u32] <= u32::MAX,
        ensures
            ok ==> weights_view(final(weights)@) == add_postings(
                weights_view(old(weights)@),
                self.model().docs[hash_spec(token@) as u32],
                self.model().tfs[hash_spec(token@) as u32],
                self.model().idfs[hash_spec(token@) as u32],
                self.model().docs[hash_spec(token@) as u32].len() as int,
            ),
            !ok ==> exists|d: u32|
                #[trigger] score_of(
                    add_postings(
                        weights_view(old(weights)@),
                        self.model().docs[hash_spec(token@) as u32],
                        self.model().tfs[hash_spec(token@) as u32],
                        self.model().idfs[hash_spec(token@) as u32],
                        self.model().docs[hash_spec(token@) as u32].len() as int,
                    ),
                    d,
                ) > u64::MAX,
    {
        let ghost h = hash_spec(token@) as u32;
        let ghost w0 = weights_view(weights@);
        let ghost m = self.model();
        let idf = self.get_idf(token);
        let docs = self.get_docs(token);
        let tfs = self.get_tfs(token);
        let n = docs.len();
        assert(m.idfs[h] >= 0);
        let mut k: usize = 0;
        while k < n
            invariant
                k <= n == docs@.len() == tfs@.len(),
                m == self.model(),
                docs@ == m.docs[h],
                tfs@ == m.tfs[h],
                idf == m.idfs[h],
                h == hash_spec(token@) as u32,
                w0 == weights_view(old(weights)@),
                forall|j: int| 0 <= j < tfs@.len() ==> #[trigger] tfs@[j] * idf <= u32::MAX,
                weights_view(weights@) == add_postings(w0, docs@, tfs@, idf as int, k as int),
            decreases n - k,
        {
            let d = docs[k];
            let tf = tfs[k];
            assert(tfs@[k as int] * idf <= u32::MAX);
            let product = tf * idf;
            let current = match weights.get(&d) {
                Some(x) => *x,
                None => 0,
            };
            let ghost next = add_postings(w0, docs@, tfs@, idf as int, k + 1);
            assert(score_of(next, d) == current + product);
            if current > u64::MAX - product as u64 {
                proof {
                    lemma_add_postings_grow(w0, docs@, tfs@, idf as int, k + 1, n as int);
                    assert(score_of(add_postings(w0, docs@, tfs@, idf as int, n as int), d)
                        > u64::MAX);
                    assert(score_of(
                        add_postings(w0, m.docs[h], m.tfs[h], m.idfs[h], m.docs[h].len() as int),
                        d,
                    ) > u64::MAX);
                }
                return false;
            }
            weights.insert(d, current + product as u64);
            assert(weights_view(weights@) =~= next);
            k = k + 1;
        }
        true
    }

    /// Whether `ranking_weights` can rank the documents for `query`: every query token
    /// is indexed, no product of a frequency and a posting count overflows 32 bits, and
    /// no score overflows 64 bits.
    pub fn ranking_fits(&self, query: &[Vec<u8>]) -> (r: bool)
        requires
            self.wf(),
        ensures
            r == query_ok(self.model(), tokens_view(query@)),
    {
        let ghost qv = tokens_view(query@);
        let ghost m = self.model();
        if query.len() > u32::MAX as usize {
            return false;
        }
        let mut i: usize = 0;
        while i < query.len()
            invariant
                i <= query.len(),
                qv == tokens_view(query@),
                m == self.model(),
                forall|j: int|
                    0 <= j < i ==> hash_spec(#[trigger] qv[j]) <= u32::MAX && m.docs.contains_key(
                        hash_spec(qv[j]) as u32,
                    ),
            decreases query.len() - i,
        {
            assert(qv[i as int] == query@[i as int]@);
            if !hash_fits(query[i].as_slice()) {
                return false;
            }
            if !self.has_token(query[i].as_slice()) {
                return false;
            }
            i = i + 1;
        }
        let ghost qh = query_hashes(qv);
        let dist = count_tokens(query);
        proof {
            assert forall|k: int| 0 <= k < qh.len() implies m.docs.contains_key(#[trigger] qh[k]) by {
                let idx = dist@[k].0 as int;
                assert(qv[idx] == query@[idx]@);
            }
            assert forall|h: u32| #[trigger] m.idfs.contains_key(h) implies m.idfs[h] >= 0 by {}
        }
        let mut j: usize = 0;
        while j < dist.len()
            invariant
                j <= dist.len() == qh.len(),
                m == self.model(),
                self.wf(),
                qv == tokens_view(query@),
                qh == query_hashes(qv),
                forall|k: int| 0 <= k < qh.len() ==> m.docs.contains_key(#[trigger] qh[k]),
                forall|k: int|
                    0 <= k < dist@.len() ==> {
                        &&& #[trigger] dist@[k].0 < query@.len()
                        &&& query@[dist@[k].0 as int]@ == distinct_tokens(qv)[k]
                    },
                forall|k: int| 0 <= k < query@.len() ==> hash_spec(#[trigger] qv[k]) <= u32::MAX,
                forall|p: int, k: int|
                    0 <= p < j && 0 <= k < m.tfs[qh[p]].len() ==> #[trigger] m.tfs[qh[p]][k]
                        * m.idfs[qh[p]] <= u32::MAX,
            decreases dist.len() - j,
        {
            let idx = dist[j].0;
            let token = query[idx].as_slice();
            assert(qv[idx as int] == token@);
            let ghost h = qh[j as int];
            assert(h == hash_spec(token@) as u32);
            let idf = self.get_idf(token);
            let tfs = self.get_tfs(token);
            assert(qh.contains(h)) by {
                assert(qh[j as int] == h);
            }
            let mut k: usize = 0;
            while k < tfs.len()
                invariant
                    k <= tfs.len(),
                    tfs@ == m.tfs[h],
                    idf == m.idfs[h],
                    qh.contains(h),
                    m.docs.contains_key(h),
                    qh == query_hashes(qv),
                    m == self.model(),
                    qv == tokens_view(query@),
                    forall|kk: int| 0 <= kk < k ==> #[trigger] tfs@[kk] * idf <= u32::MAX,
                decreases tfs.len() - k,
            {
                let a = tfs[k] as u64;
                let b = idf as u64;
                assert(a * b <= 0xffff_ffff * 0xffff_ffffu64) by (nonlinear_arith)
                    requires
                        a <= 0xffff_ffff,
                        b <= 0xffff_ffff,
                ;
                if a * b > u32::MAX as u64 {
                    proof {
                        assert(m.tfs[h][k as int] * m.idfs[h] > u32::MAX);
                        assert(!query_ok(m, qv));
                    }
                    return false;
                }
                k = k + 1;
            }
            j = j + 1;
        }
        let mut weights: HashMap<u32, u64> = HashMap::new();
        j = 0;
        assert(qh.take(0) =~= Seq::<u32>::empty());
        assert(weights_view(weights@) =~= query_scores(m, qh.take(0)));
        while j < dist.len()
            invariant
                j <= dist.len() == qh.len(),
                m == self.model(),
                self.wf(),
                qv == tokens_view(query@),
                qh == query_hashes(qv),
                forall|k: int| 0 <= k < qh.len() ==> m.docs.contains_key(#[trigger] qh[k]),
                forall|h: u32| #[trigger] m.idfs.contains_key(h) ==> m.idfs[h] >= 0,
                forall|k: int|
                    0 <= k < dist@.len() ==> {
                        &&& #[trigger] dist@[k].0 < query@.len()
                        &&& query@[dist@[k].0 as int]@ == distinct_tokens(qv)[k]
                    },
                forall|k: int| 0 <= k < query@.len() ==> hash_spec(#[trigger] qv[k]) <= u32::MAX,
                forall|p: int, k: int|
                    0 <= p < qh.len() && 0 <= k < m.tfs[qh[p]].len() ==> #[trigger] m.tfs[qh[p]][k]
                        * m.idfs[qh[p]] <= u32::MAX,
                weights_view(weights@) == query_scores(m, qh.take(j as int)),
            decreases dist.len() - j,
        {
            let idx = dist[j].0;
            let token = query[idx].as_slice();
            let ghost h = qh[j as int];
            assert(qv[idx as int] == token@);
            assert(h == hash_spec(token@) as u32);
            assert(qh.take(j + 1).drop_last() =~= qh.take(j as int));
            assert(qh.take(j + 1).last() == h);
            assert forall|k: int| 0 <= k < m.tfs[h].len() implies #[trigger] m.tfs[h][k] * m.idfs[h]
                <= u32::MAX by {
                assert(m.tfs[qh[j as int]][k] * m.idfs[qh[j as int]] <= u32::MAX);
            }
            let ghost prev = weights_view(weights@);
            let ok = self.score_term_checked(&mut weights, token);
            if !ok {
                proof {
                    assert(query_scores(m, qh.take(j + 1)) == add_postings(
                        prev,
                        m.docs[h],
                        m.tfs[h],
                        m.idfs[h],
                        m.docs[h].len() as int,
                    ));
                    lemma_query_scores_grow(m, qh, j + 1);
                    let fin = query_scores(m, qh);
                    let d = choose|d: u32|
                        #[trigger] score_of(query_scores(m, qh.take(j + 1)), d) > u64::MAX;
                    assert(score_of(query_scores(m, qh.take(j + 1)), d) <= score_of(fin, d));
                    assert(fin.contains_key(d));
                }
                return false;
            }
            j = j + 1;
        }
        proof {
            assert(qh.take(j as int) =~= qh);
            assert forall|h: u32, k: int|
                #![trigger m.tfs[h][k]]
                m.docs.contains_key(h) && qh.contains(h) && 0 <= k < m.tfs[h].len() implies m.tfs[h][k]
                * m.idfs[h] <= u32::MAX by {
                let p = choose|p: int| 0 <= p < qh.len() && qh[p] == h;
                assert(m.tfs[qh[p]][k] * m.idfs[qh[p]] <= u32::MAX);
            }
        }
        true
    }

    /// The integer part of ranking the documents for `query`: the score of each
    /// document (summed over the different query tokens of frequency times posting
    /// count), and the number of times each different query token occurs.
    pub fn ranking_weights(&self, query: &[Vec<u8>]) -> (r: (HashMap<u32, u64>, Vec<u32>))
        requires
            self.wf(),
            query_ok(self.model(), tokens_view(query@)),
        ensures
            weights_view(r.0@) == query_scores(self.model(), query_hashes(tokens_view(query@))),
            r.1@ == query_freqs(tokens_view(query@)),
    {
        let ghost qv = tokens_view(query@);
        let ghost qh = query_hashes(qv);
        let ghost m = self.model();
        let dist = count_tokens(query);
        proof {
            assert forall|k: int| 0 <= k < qh.len() implies m.docs.contains_key(#[trigger] qh[k]) by {
                let idx = dist@[k].0 as int;
                assert(qv[idx] == query@[idx]@);
            }
            assert forall|h: u32| #[trigger] m.idfs.contains_key(h) implies m.idfs[h] >= 0 by {}
        }
        let mut weights: HashMap<u32, u64> = HashMap::new();
        let mut freqs: Vec<u32> = Vec::new();
        let mut j: usize = 0;
        assert(qh.take(0) =~= Seq::<u32>::empty());
        assert(weights_view(weights@) =~= query_scores(m, qh.take(0)));
        while j < dist.len()
            invariant
                j <= dist.len() == qh.len(),
                m == self.model(),
                self.wf(),
                qv == tokens_view(query@),
                qh == query_hashes(qv),
                query_ok(m, qv),
                forall|k: int| 0 <= k < qh.len() ==> m.docs.contains_key(#[trigger] qh[k]),
                forall|h: u32| #[trigger] m.idfs.contains_key(h) ==> m.idfs[h] >= 0,
                forall|k: int|
                    0 <= k < dist@.len() ==> {
                        &&& #[trigger] dist@[k].0 < query@.len()
                        &&& query@[dist@[k].0 as int]@ == distinct_tokens(qv)[k]
                        &&& dist@[k].1 == count_of(qv, query@[dist@[k].0 as int]@)
                    },
                weights_view(weights@) == query_scores(m, qh.take(j as int)),
                freqs@ == query_freqs(qv).take(j as int),
            decreases dist.len() - j,
        {
            let (idx, freq) = dist[j];
            let token = query[idx].as_slice();
            let ghost h = qh[j as int];
            assert(qv[idx as int] == token@);
            assert(hash_spec(token@) <= u32::MAX);
            assert(h == hash_spec(token@) as u32);
            assert(qh.take(j + 1).drop_last() =~= qh.take(j as int));
            assert(qh.take(j + 1).last() == h);
            proof {
                lemma_query_scores_grow(m, qh, j + 1);
                assert(qh.contains(h));
                let fin = query_scores(m, qh);
                assert forall|d: u32| #[trigger]
                    score_of(query_scores(m, qh.take(j + 1)), d) <= u64::MAX by {
                    assert(score_of(query_scores(m, qh.take(j + 1)), d) <= score_of(fin, d));
                }
                assert forall|k: int| 0 <= k < m.tfs[h].len() implies #[trigger] m.tfs[h][k]
                    * m.idfs[h] <= u32::MAX by {}
            }
            self.score_term(&mut weights, token);
            freqs.push(freq);
            assert(freqs@ =~= query_freqs(qv).take(j + 1));
            j = j + 1;
        }
        assert(qh.take(j as int) =~= qh);
        assert(freqs@ =~= query_freqs(qv));
        (weights, freqs)
    }
}

/// Posting counts only grow as terms are recorded.
proof fn lemma_counts_prefix(ix: IndexModel, terms: Seq<(u32, u32)>, doc: u32, k: int)
    requires
        0 <= k <= terms.len(),
    ensures
        forall|h: u32|
            count_under(add_terms(ix, terms.take(k), doc).idfs, h) <= count_under(
                add_terms(ix, terms, doc).idfs,
                h,
            ),
    decreases terms.len() - k,
{
    if k == terms.len() {
        assert(terms.take(k) =~= terms);
    } else {
        lemma_counts_prefix(ix, terms, doc, k + 1);
        let a = add_terms(ix, terms.take(k), doc);
        assert(terms.take(k + 1).drop_last() =~= terms.take(k));
        assert(add_terms(ix, terms.take(k + 1), doc) == add_term(a, terms[k].0, doc, terms[k].1));
    }
}


/// Every token is among the distinct tokens.
proof fn lemma_token_in_distinct(tokens: Seq<Seq<u8>>, i: int)
    requires
        0 <= i < tokens.len(),
    ensures
        distinct_tokens(tokens).contains(tokens[i]),
    decreases tokens.len(),
{
    let d = distinct_tokens(tokens.drop_last());
    if i < tokens.len() - 1 {
        lemma_token_in_distinct(tokens.drop_last(), i);
        let k = choose|k: int| 0 <= k < d.len() && d[k] == tokens[i];
        if !d.contains(tokens.last()) {
            assert(d.push(tokens.last())[k] == tokens[i]);
        }
    } else {
        if !d.contains(tokens.last()) {
            assert(d.push(tokens.last())[d.len() as int] == tokens[i]);
        }
    }
}

/// Once a term of `doc` with hash `h` is recorded, the postings of `h` hold `doc`.
proof fn lemma_terms_post_doc(ix: IndexModel, terms: Seq<(u32, u32)>, doc: u32, k: int)
    requires
        0 <= k < terms.len(),
    ensures
        add_terms(ix, terms, doc).docs.contains_key(terms[k].0),
        add_terms(ix, terms, doc).docs[terms[k].0].contains(doc),
    decreases terms.len(),
{
    let prev = add_terms(ix, terms.drop_last(), doc);
    let h = terms[k].0;
    if k == terms.len() - 1 {
        assert(postings(prev.docs, h).push(doc)[postings(prev.docs, h).len() as int] == doc);
    } else {
        lemma_terms_post_doc(ix, terms.drop_last(), doc, k);
        let p = prev.docs[h];
        let j = choose|j: int| 0 <= j < p.len() && p[j] == doc;
        if terms.last().0 == h {
            assert(p.push(doc)[j] == doc);
        }
    }
}

/// Adding a document records it under the hash of each of its tokens: afterwards the
/// postings of every token of the document hold the document.
pub proof fn lemma_add_doc_posts_each_token(
    ix: IndexModel,
    tokens: Seq<Seq<u8>>,
    doc: u32,
    i: int,
)
    requires
        0 <= i < tokens.len(),
    ensures
        add_terms(ix, term_list(tokens), doc).docs.contains_key(hash_spec(tokens[i]) as u32),
        add_terms(ix, term_list(tokens), doc).docs[hash_spec(tokens[i]) as u32].contains(doc),
{
    lemma_token_in_distinct(tokens, i);
    let d = distinct_tokens(tokens);
    let k = choose|k: int| 0 <= k < d.len() && d[k] == tokens[i];
    assert(term_list(tokens)[k].0 == hash_spec(tokens[i]) as u32);
    lemma_terms_post_doc(ix, term_list(tokens), doc, k);
}

/// Adding a document keeps the index consistent: for every term hash the documents,
/// frequencies and posting count stay in step.
pub proof fn lemma_add_terms_wf(ix: IndexModel, terms: Seq<(u32, u32)>, doc: u32)
    requires
        model_wf(ix),
        freqs_positive(terms),
    ensures
        model_wf(add_terms(ix, terms, doc)),
    decreases terms.len(),
{
    if terms.len() > 0 {
        lemma_add_terms_wf(ix, terms.drop_last(), doc);
        let prev = add_terms(ix, terms.drop_last(), doc);
        let next = add_terms(ix, terms, doc);
        assert(next.docs.dom() =~= next.tfs.dom());
        assert(next.docs.dom() =~= next.idfs.dom());
        assert(terms.last().1 >= 1);
        assert forall|h: u32, k: int| next.tfs.contains_key(h) && 0 <= k < next.tfs[h].len() implies #[trigger] next.tfs[h][k] >= 1 by {
            if h == terms.last().0 && k == next.tfs[h].len() - 1 {
            } else if h == terms.last().0 {
                assert(next.tfs[h][k] == postings(prev.tfs, h)[k]);
            } else {
                assert(next.tfs[h] == prev.tfs[h]);
            }
        }
    }
}


/// The index with nothing recorded.
pub open spec fn empty_model() -> IndexModel {
    IndexModel { docs: Map::empty(), tfs: Map::empty(), idfs: Map::empty() }
}

/// The index after adding each `(tokens, doc)` document in order.
pub open spec fn add_docs(ix: IndexModel, docs: Seq<(Seq<Seq<u8>>, u32)>) -> IndexModel
    decreases docs.len(),
{
    if docs.len() == 0 {
        ix
    } else {
        add_terms(add_docs(ix, docs.drop_last()), term_list(docs.last().0), docs.last().1)
    }
}

/// The documents, in order of adding, whose tokens include `t`.
pub open spec fn docs_with(docs: Seq<(Seq<Seq<u8>>, u32)>, t: Seq<u8>) -> Seq<u32>
    decreases docs.len(),
{
    if docs.len() == 0 {
        Seq::empty()
    } else {
        let p = docs_with(docs.drop_last(), t);
        if docs.last().0.contains(t) {
            p.push(docs.last().1)
        } else {
            p
        }
    }
}

/// The number of times `t` occurs in each of those documents.
pub open spec fn tfs_with(docs: Seq<(Seq<Seq<u8>>, u32)>, t: Seq<u8>) -> Seq<u32>
    decreases docs.len(),
{
    if docs.len() == 0 {
        Seq::empty()
    } else {
        let p = tfs_with(docs.drop_last(), t);
        if docs.last().0.contains(t) {
            p.push(count_of(docs.last().0, t) as u32)
        } else {
            p
        }
    }
}

/// The frequencies of the terms recorded under `h`, in order.
pub open spec fn freqs_under(terms: Seq<(u32, u32)>, h: u32) -> Seq<u32>
    decreases terms.len(),
{
    if terms.len() == 0 {
        Seq::empty()
    } else {
        let p = freqs_under(terms.drop_last(), h);
        if terms.last().0 == h {
            p.push(terms.last().1)
        } else {
            p
        }
    }
}

/// What recording terms does under one hash: a posting of `doc` and a frequency for
/// each term under that hash, and the count grows by their number.
proof fn lemma_add_terms_at(ix: IndexModel, terms: Seq<(u32, u32)>, doc: u32, h: u32)
    ensures
        postings(add_terms(ix, terms, doc).docs, h) == postings(ix.docs, h) + Seq::new(
            freqs_under(terms, h).len(),
            |k: int| doc,
        ),
        postings(add_terms(ix, terms, doc).tfs, h) == postings(ix.tfs, h) + freqs_under(terms, h),
        count_under(add_terms(ix, terms, doc).idfs, h) == count_under(ix.idfs, h) + freqs_under(
            terms,
            h,
        ).len(),
    decreases terms.len(),
{
    if terms.len() == 0 {
        assert(postings(ix.docs, h) + Seq::new(0, |k: int| doc) =~= postings(ix.docs, h));
        assert(postings(ix.tfs, h) + Seq::<u32>::empty() =~= postings(ix.tfs, h));
    } else {
        lemma_add_terms_at(ix, terms.drop_last(), doc, h);
        let p = freqs_under(terms.drop_last(), h);
        if terms.last().0 == h {
            assert(postings(ix.docs, h) + Seq::new(p.len() + 1, |k: int| doc) =~= (postings(ix.docs, h)
                + Seq::new(p.len(), |k: int| doc)).push(doc));
            assert(postings(ix.tfs, h) + p.push(terms.last().1) =~= (postings(ix.tfs, h) + p).push(
                terms.last().1,
            ));
        }
    }
}

/// The elements of the distinct tokens occur in the tokens.
proof fn lemma_distinct_in_tokens(tokens: Seq<Seq<u8>>, x: Seq<u8>)
    requires
        distinct_tokens(tokens).contains(x),
    ensures
        tokens.contains(x),
    decreases tokens.len(),
{
    let d = distinct_tokens(tokens.drop_last());
    if d.contains(x) {
        lemma_distinct_in_tokens(tokens.drop_last(), x);
        let i = choose|i: int| 0 <= i < tokens.drop_last().len() && tokens.drop_last()[i] == x;
        assert(tokens[i] == x);
    } else {
        let k = choose|k: int|
            0 <= k < distinct_tokens(tokens).len() && distinct_tokens(tokens)[k] == x;
        assert(d.push(tokens.last())[k] == x);
        if k < d.len() {
            assert(d[k] == x);
        }
        assert(tokens[tokens.len() - 1] == x);
    }
}

/// Under the hash of `t`, with no other token of `s` sharing that hash, the terms built
/// from `s` hold the count of `t` once when `s` lists `t`, and nothing otherwise.
proof fn lemma_freqs_under_token(tokens: Seq<Seq<u8>>, s: Seq<Seq<u8>>, t: Seq<u8>)
    requires
        s.no_duplicates(),
        hash_spec(t) <= u32::MAX,
        forall|i: int|
            0 <= i < s.len() ==> hash_spec(#[trigger] s[i]) <= u32::MAX && (hash_spec(s[i])
                == hash_spec(t) ==> s[i] == t),
    ensures
        freqs_under(
            s.map_values(|u: Seq<u8>| (hash_spec(u) as u32, count_of(tokens, u) as u32)),
            hash_spec(t) as u32,
        ) == (if s.contains(t) {
            seq![count_of(tokens, t) as u32]
        } else {
            Seq::<u32>::empty()
        }),
    decreases s.len(),
{
    let g = |u: Seq<u8>| (hash_spec(u) as u32, count_of(tokens, u) as u32);
    let h = hash_spec(t) as u32;
    if s.len() > 0 {
        let a = s.drop_last();
        assert(a.no_duplicates());
        assert forall|i: int| 0 <= i < a.len() implies hash_spec(#[trigger] a[i]) <= u32::MAX && (
        hash_spec(a[i]) == hash_spec(t) ==> a[i] == t) by {
            assert(a[i] == s[i]);
        }
        lemma_freqs_under_token(tokens, a, t);
        assert(s.map_values(g).drop_last() =~= a.map_values(g));
        assert(s.map_values(g).last() == g(s.last()));
        if s.last() == t {
            assert(!a.contains(t)) by {
                if a.contains(t) {
                    let i = choose|i: int| 0 <= i < a.len() && a[i] == t;
                    assert(s[i] == s[s.len() - 1]);
                }
            }
            assert(s.contains(t)) by {
                assert(s[s.len() - 1] == t);
            }
        } else {
            assert(hash_spec(s[s.len() - 1]) != hash_spec(t));
            assert(hash_spec(s[s.len() - 1]) <= u32::MAX);
            lemma_hash_nonneg(s.last());
            lemma_hash_nonneg(t);
            assert((hash_spec(s.last()) as u32) != h);
            assert(s.contains(t) <==> a.contains(t)) by {
                if s.contains(t) {
                    let i = choose|i: int| 0 <= i < s.len() && s[i] == t;
                    assert(a[i] == t);
                }
                if a.contains(t) {
                    let i = choose|i: int| 0 <= i < a.len() && a[i] == t;
                    assert(s[i] == t);
                }
            }
        }
    }
}

/// Adding documents one after another, when no two different tokens share a hash: the
/// postings of a token are the documents that contain it, in order of adding, its
/// frequencies are its number of occurrences in each of them, and its count is the
/// number of those documents.
pub proof fn lemma_add_docs_postings(docs: Seq<(Seq<Seq<u8>>, u32)>, t: Seq<u8>)
    requires
        hash_spec(t) <= u32::MAX,
        forall|k: int, i: int|
            0 <= k < docs.len() && 0 <= i < docs[k].0.len() ==> hash_spec(#[trigger] docs[k].0[i])
                <= u32::MAX && (hash_spec(docs[k].0[i]) == hash_spec(t) ==> docs[k].0[i] == t),
    ensures
        postings(add_docs(empty_model(), docs).docs, hash_spec(t) as u32) == docs_with(docs, t),
        postings(add_docs(empty_model(), docs).tfs, hash_spec(t) as u32) == tfs_with(docs, t),
        count_under(add_docs(empty_model(), docs).idfs, hash_spec(t) as u32) == docs_with(
            docs,
            t,
        ).len(),
    decreases docs.len(),
{
    let h = hash_spec(t) as u32;
    if docs.len() > 0 {
        let rest = docs.drop_last();
        assert forall|k: int, i: int|
            0 <= k < rest.len() && 0 <= i < rest[k].0.len() implies hash_spec(
            #[trigger] rest[k].0[i],
        ) <= u32::MAX && (hash_spec(rest[k].0[i]) == hash_spec(t) ==> rest[k].0[i] == t) by {
            assert(rest[k] == docs[k]);
        }
        lemma_add_docs_postings(rest, t);
        let prev = add_docs(empty_model(), rest);
        let (toks, d) = docs.last();
        let dt = distinct_tokens(toks);
        lemma_distinct_no_dup(toks);
        assert forall|i: int| 0 <= i < dt.len() implies hash_spec(#[trigger] dt[i]) <= u32::MAX && (
        hash_spec(dt[i]) == hash_spec(t) ==> dt[i] == t) by {
            assert(dt.contains(dt[i]));
            lemma_distinct_in_tokens(toks, dt[i]);
            let j = choose|j: int| 0 <= j < toks.len() && toks[j] == dt[i];
            assert(docs[docs.len() - 1].0[j] == dt[i]);
        }
        lemma_freqs_under_token(toks, dt, t);
        lemma_add_terms_at(prev, term_list(toks), d, h);
        assert(dt.contains(t) <==> toks.contains(t)) by {
            if toks.contains(t) {
                let j = choose|j: int| 0 <= j < toks.len() && toks[j] == t;
                lemma_token_in_distinct(toks, j);
            }
            if dt.contains(t) {
                lemma_distinct_in_tokens(toks, t);
            }
        }
        if toks.contains(t) {
            assert(Seq::new(1, |k: int| d) =~= seq![d]);
            assert(docs_with(rest, t) + seq![d] =~= docs_with(rest, t).push(d));
            assert(tfs_with(rest, t) + seq![count_of(toks, t) as u32] =~= tfs_with(rest, t).push(
                count_of(toks, t) as u32,
            ));
        } else {
            assert(docs_with(rest, t) + Seq::new(0, |k: int| d) =~= docs_with(rest, t));
            assert(tfs_with(rest, t) + Seq::<u32>::empty() =~= tfs_with(rest, t));
        }
    }
}

/// The terms of a document all have a frequency of at least 1.
proof fn lemma_term_list_positive(tokens: Seq<Seq<u8>>)
    requires
        tokens.len() <= u32::MAX,
    ensures
        freqs_positive(term_list(tokens)),
{
    let dt = distinct_tokens(tokens);
    assert forall|k: int| 0 <= k < term_list(tokens).len() implies #[trigger] term_list(
        tokens,
    )[k].1 >= 1 by {
        assert(dt.contains(dt[k]));
        lemma_distinct_in_tokens(tokens, dt[k]);
        let j = choose|j: int| 0 <= j < tokens.len() && tokens[j] == dt[k];
        lemma_count_present(tokens, j);
        lemma_count_le_len(tokens, dt[k]);
    }
}

/// A token occurs at most as many times as there are tokens.
proof fn lemma_count_le_len(tokens: Seq<Seq<u8>>, t: Seq<u8>)
    ensures
        count_of(tokens, t) <= tokens.len(),
    decreases tokens.len(),
{
    if tokens.len() > 0 {
        lemma_count_le_len(tokens.drop_last(), t);
    }
}

/// After any sequence of documents is added to an empty index, the index is consistent:
/// each term hash has as many documents as frequencies, its count is that number, and
/// every frequency is at least 1.
pub proof fn lemma_add_docs_wf(docs: Seq<(Seq<Seq<u8>>, u32)>)
    requires
        forall|k: int| 0 <= k < docs.len() ==> (#[trigger] docs[k]).0.len() <= u32::MAX,
    ensures
        model_wf(add_docs(empty_model(), docs)),
    decreases docs.len(),
{
    if docs.len() == 0 {
        let e = empty_model();
        assert(e.docs.dom() =~= e.tfs.dom());
        assert(e.docs.dom() =~= e.idfs.dom());
    } else {
        let rest = docs.drop_last();
        assert forall|k: int| 0 <= k < rest.len() implies (#[trigger] rest[k]).0.len() <= u32::MAX by {
            assert(rest[k] == docs[k]);
        }
        lemma_add_docs_wf(rest);
        assert(docs[docs.len() - 1].0.len() <= u32::MAX);
        lemma_term_list_positive(docs.last().0);
        lemma_add_terms_wf(add_docs(empty_model(), rest), term_list(docs.last().0), docs.last().1);
    }
}


/// The sum of `f` over the elements of `s`.
pub open spec fn sum_over(s: Seq<Seq<u8>>, f: spec_fn(Seq<u8>) -> int) -> int
    decreases s.len(),
{
    if s.len() == 0 {
        0
    } else {
        sum_over(s.drop_last(), f) + f(s.last())
    }
}

/// The sum of the squares of a list of counts.
pub open spec fn sum_squares(s: Seq<u32>) -> int
    decreases s.len(),
{
    if s.len() == 0 {
        0
    } else {
        sum_squares(s.drop_last()) + (s.last() as int) * (s.last() as int)
    }
}

proof fn lemma_sum_over_remove(s: Seq<Seq<u8>>, f: spec_fn(Seq<u8>) -> int, i: int)
    requires
        0 <= i < s.len(),
    ensures
        sum_over(s, f) == sum_over(s.remove(i), f) + f(s[i]),
    decreases s.len(),
{
    if i == s.len() - 1 {
        assert(s.remove(i) =~= s.drop_last());
    } else {
        lemma_sum_over_remove(s.drop_last(), f, i);
        assert(s.remove(i).drop_last() =~= s.drop_last().remove(i));
        assert(s.remove(i).last() == s.last());
    }
}

/// Sums over two lists without repeats that hold the same elements are equal.
proof fn lemma_sum_over_same_elements(s: Seq<Seq<u8>>, s2: Seq<Seq<u8>>, f: spec_fn(Seq<u8>) -> int)
    requires
        s.no_duplicates(),
        s2.no_duplicates(),
        forall|x: Seq<u8>| s.contains(x) <==> s2.contains(x),
    ensures
        sum_over(s, f) == sum_over(s2, f),
    decreases s.len(),
{
    if s.len() == 0 {
        if s2.len() > 0 {
            assert(s2.contains(s2[0]));
        }
    } else {
        let x = s.last();
        assert(s.contains(x)) by {
            assert(s[s.len() - 1] == x);
        }
        let i = choose|i: int| 0 <= i < s2.len() && s2[i] == x;
        let a = s.drop_last();
        let b = s2.remove(i);
        assert(a.no_duplicates());
        assert(b.no_duplicates()) by {
            assert forall|p: int, q: int| 0 <= p < b.len() && 0 <= q < b.len() && p != q implies b[p]
                != b[q] by {
                let pp = if p < i { p } else { p + 1 };
                let qq = if q < i { q } else { q + 1 };
                assert(b[p] == s2[pp] && b[q] == s2[qq]);
            }
        }
        assert forall|y: Seq<u8>| a.contains(y) <==> b.contains(y) by {
            if a.contains(y) {
                let p = choose|p: int| 0 <= p < a.len() && a[p] == y;
                assert(s[p] == y && y != x);
                assert(s.contains(y));
                let q = choose|q: int| 0 <= q < s2.len() && s2[q] == y;
                assert(q != i);
                let qq = if q < i { q } else { q - 1 };
                assert(b[qq] == y);
            }
            if b.contains(y) {
                let q = choose|q: int| 0 <= q < b.len() && b[q] == y;
                let qq = if q < i { q } else { q + 1 };
                assert(s2[qq] == y && qq != i);
                assert(y != x);
                assert(s2.contains(y));
                let p = choose|p: int| 0 <= p < s.len() && s[p] == y;
                assert(p != s.len() - 1);
                assert(a[p] == y);
            }
        }
        lemma_sum_over_same_elements(a, b, f);
        lemma_sum_over_remove(s2, f, i);
    }
}

/// What the postings of one term add to the score of `d`.
pub open spec fn post_sum(docs: Seq<u32>, tfs: Seq<u32>, idf: int, n: int, d: u32) -> int
    decreases n,
{
    if n <= 0 {
        0
    } else {
        post_sum(docs, tfs, idf, n - 1, d) + if docs[n - 1] == d {
            tfs[n - 1] * idf
        } else {
            0
        }
    }
}

/// One of the first `n` postings is of `d`.
pub open spec fn posts_to(docs: Seq<u32>, n: int, d: u32) -> bool {
    exists|k: int| 0 <= k < n && docs[k] == d
}

proof fn lemma_add_postings_closed(
    w: Map<u32, int>,
    docs: Seq<u32>,
    tfs: Seq<u32>,
    idf: int,
    n: int,
    d: u32,
)
    requires
        0 <= n <= docs.len(),
    ensures
        score_of(add_postings(w, docs, tfs, idf, n), d) == score_of(w, d) + post_sum(
            docs,
            tfs,
            idf,
            n,
            d,
        ),
        add_postings(w, docs, tfs, idf, n).contains_key(d) <==> (w.contains_key(d) || posts_to(
            docs,
            n,
            d,
        )),
    decreases n,
{
    if n > 0 {
        lemma_add_postings_closed(w, docs, tfs, idf, n - 1, d);
        if posts_to(docs, n, d) && !posts_to(docs, n - 1, d) {
            let k = choose|k: int| 0 <= k < n && docs[k] == d;
            assert(k == n - 1);
        }
        if posts_to(docs, n - 1, d) {
            let k = choose|k: int| 0 <= k < n - 1 && docs[k] == d;
            assert(posts_to(docs, n, d));
        }
        if docs[n - 1] == d {
            assert(posts_to(docs, n, d));
        }
    }
}

/// What the query token `t` adds to the score of `d`.
pub open spec fn term_score(ix: IndexModel, t: Seq<u8>, d: u32) -> int {
    let h = hash_spec(t) as u32;
    post_sum(ix.docs[h], ix.tfs[h], ix.idfs[h], ix.docs[h].len() as int, d)
}

/// The postings of the query token `t` include `d`.
pub open spec fn term_posts(ix: IndexModel, t: Seq<u8>, d: u32) -> bool {
    let h = hash_spec(t) as u32;
    posts_to(ix.docs[h], ix.docs[h].len() as int, d)
}

/// The scores of the tokens `toks`: the score of each document is the sum of what each
/// token adds, and a document is scored when some token's postings include it.
proof fn lemma_query_scores_closed(ix: IndexModel, toks: Seq<Seq<u8>>, d: u32)
    ensures
        score_of(query_scores(ix, toks.map_values(|t: Seq<u8>| hash_spec(t) as u32)), d) == sum_over(
            toks,
            |t: Seq<u8>| term_score(ix, t, d),
        ),
        query_scores(ix, toks.map_values(|t: Seq<u8>| hash_spec(t) as u32)).contains_key(d) <==> (
        exists|i: int| 0 <= i < toks.len() && term_posts(ix, #[trigger] toks[i], d)),
    decreases toks.len(),
{
    let hf = |t: Seq<u8>| hash_spec(t) as u32;
    let hs = toks.map_values(hf);
    if toks.len() > 0 {
        let a = toks.drop_last();
        lemma_query_scores_closed(ix, a, d);
        assert(hs.drop_last() =~= a.map_values(hf));
        let h = hs.last();
        assert(h == hash_spec(toks.last()) as u32);
        lemma_add_postings_closed(
            query_scores(ix, a.map_values(hf)),
            ix.docs[h],
            ix.tfs[h],
            ix.idfs[h],
            ix.docs[h].len() as int,
            d,
        );
        let e1 = exists|i: int| 0 <= i < toks.len() && term_posts(ix, #[trigger] toks[i], d);
        let e0 = exists|i: int| 0 <= i < a.len() && term_posts(ix, #[trigger] a[i], d);
        assert(e1 <==> (e0 || term_posts(ix, toks.last(), d))) by {
            if e1 {
                let i = choose|i: int| 0 <= i < toks.len() && term_posts(ix, #[trigger] toks[i], d);
                if i < a.len() {
                    assert(a[i] == toks[i]);
                }
            }
            if e0 {
                let i = choose|i: int| 0 <= i < a.len() && term_posts(ix, #[trigger] a[i], d);
                assert(toks[i] == a[i]);
            }
            if term_posts(ix, toks.last(), d) {
                assert(toks[toks.len() - 1] == toks.last());
            }
        }
    }
}

/// A token occurs at least once exactly when it is in the list.
proof fn lemma_count_contains(q: Seq<Seq<u8>>, t: Seq<u8>)
    ensures
        q.contains(t) <==> count_of(q, t) >= 1,
    decreases q.len(),
{
    if q.contains(t) {
        let i = choose|i: int| 0 <= i < q.len() && q[i] == t;
        lemma_count_present(q, i);
    }
    if q.len() > 0 {
        lemma_count_contains(q.drop_last(), t);
        if count_of(q, t) >= 1 {
            if q.last() == t {
                assert(q[q.len() - 1] == t);
            } else {
                let i = choose|i: int| 0 <= i < q.len() - 1 && q.drop_last()[i] == t;
                assert(q[i] == t);
            }
        }
    }
}

/// A token occurs in the query as often as the query's multiset says.
proof fn lemma_count_of_multiset(q: Seq<Seq<u8>>, t: Seq<u8>)
    ensures
        count_of(q, t) == q.to_multiset().count(t),
    decreases q.len(),
{
    broadcast use vstd::seq_lib::group_to_multiset_ensures;

    if q.len() == 0 {
    } else {
        lemma_count_of_multiset(q.drop_last(), t);
        assert(q.drop_last().push(q.last()) =~= q);
    }
}

/// The sum of the squared counts equals the sum over the distinct tokens.
proof fn lemma_sum_squares_freqs(q: Seq<Seq<u8>>, s: Seq<Seq<u8>>)
    ensures
        sum_squares(s.map_values(|t: Seq<u8>| count_of(q, t) as u32)) == sum_over(
            s,
            |t: Seq<u8>| (count_of(q, t) as u32 as int) * (count_of(q, t) as u32 as int),
        ),
    decreases s.len(),
{
    let g = |t: Seq<u8>| count_of(q, t) as u32;
    if s.len() > 0 {
        lemma_sum_squares_freqs(q, s.drop_last());
        assert(s.map_values(g).drop_last() =~= s.drop_last().map_values(g));
    }
}

/// The order of the query tokens does not matter: a query and any rearrangement of it
/// give every document the same score, and the same sum of squared token counts, from
/// which the query weight is taken.
pub proof fn lemma_query_order_irrelevant(ix: IndexModel, q: Seq<Seq<u8>>, q2: Seq<Seq<u8>>)
    requires
        q.to_multiset() == q2.to_multiset(),
    ensures
        query_scores(ix, query_hashes(q)) == query_scores(ix, query_hashes(q2)),
        sum_squares(query_freqs(q)) == sum_squares(query_freqs(q2)),
{
        let d1 = distinct_tokens(q);
    let d2 = distinct_tokens(q2);
    lemma_distinct_no_dup(q);
    lemma_distinct_no_dup(q2);
    assert(d1.no_duplicates());
    assert(d2.no_duplicates());
    assert forall|x: Seq<u8>| q.contains(x) <==> q2.contains(x) by {
        lemma_count_of_multiset(q, x);
        lemma_count_of_multiset(q2, x);
        lemma_count_contains(q, x);
        lemma_count_contains(q2, x);
    }
    assert forall|x: Seq<u8>| d1.contains(x) <==> d2.contains(x) by {
        if d1.contains(x) {
            lemma_distinct_in_tokens(q, x);
            let j = choose|j: int| 0 <= j < q2.len() && q2[j] == x;
            lemma_token_in_distinct(q2, j);
        }
        if d2.contains(x) {
            lemma_distinct_in_tokens(q2, x);
            let j = choose|j: int| 0 <= j < q.len() && q[j] == x;
            lemma_token_in_distinct(q, j);
        }
    }
    let s1 = query_scores(ix, query_hashes(q));
    let s2 = query_scores(ix, query_hashes(q2));
    assert forall|d: u32| #[trigger] s1.contains_key(d) <==> s2.contains_key(d) by {
        lemma_query_scores_closed(ix, d1, d);
        lemma_query_scores_closed(ix, d2, d);
        if exists|i: int| 0 <= i < d1.len() && term_posts(ix, #[trigger] d1[i], d) {
            let i = choose|i: int| 0 <= i < d1.len() && term_posts(ix, #[trigger] d1[i], d);
            assert(d1.contains(d1[i]));
            let j = choose|j: int| 0 <= j < d2.len() && d2[j] == d1[i];
            assert(term_posts(ix, d2[j], d));
        }
        if exists|i: int| 0 <= i < d2.len() && term_posts(ix, #[trigger] d2[i], d) {
            let i = choose|i: int| 0 <= i < d2.len() && term_posts(ix, #[trigger] d2[i], d);
            assert(d2.contains(d2[i]));
            let j = choose|j: int| 0 <= j < d1.len() && d1[j] == d2[i];
            assert(term_posts(ix, d1[j], d));
        }
    }
    assert forall|d: u32| #[trigger] s1.contains_key(d) implies s1[d] == s2[d] by {
        lemma_query_scores_closed(ix, d1, d);
        lemma_query_scores_closed(ix, d2, d);
        lemma_sum_over_same_elements(d1, d2, |t: Seq<u8>| term_score(ix, t, d));
    }
    assert(s1 =~= s2);
    lemma_sum_squares_freqs(q, d1);
    lemma_sum_squares_freqs(q2, d2);
    let f1 = |t: Seq<u8>| (count_of(q, t) as u32 as int) * (count_of(q, t) as u32 as int);
    let f2 = |t: Seq<u8>| (count_of(q2, t) as u32 as int) * (count_of(q2, t) as u32 as int);
    assert(f1 =~= f2) by {
        assert forall|t: Seq<u8>| #[trigger] f1(t) == f2(t) by {
            lemma_count_of_multiset(q, t);
            lemma_count_of_multiset(q2, t);
        }
    }
    lemma_sum_over_same_elements(d1, d2, f1);
}

} // verus!
