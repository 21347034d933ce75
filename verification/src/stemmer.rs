use std::collections::HashMap;
use vstd::prelude::*;
use vstd::slice::{slice_subrange, slice_to_vec};
use crate::utils::{get_hash_val, hash_spec, lemma_hash_suffix_le};

verus! {

broadcast use vstd::std_specs::hash::group_hash_axioms;

/// Cuts known suffixes off tokens; suffixes are looked up by their hash.
pub struct Stemmer {
    suffix_map: HashMap<u32, Vec<u8>>,
}

/// The suffix table built from a list: each suffix under its hash, a later suffix
/// replacing an earlier one with the same hash.
pub open spec fn suffix_table(list: Seq<Seq<u8>>) -> Map<u32, Seq<u8>>
    decreases list.len(),
{
    if list.len() == 0 {
        Map::empty()
    } else {
        suffix_table(list.drop_last()).insert(hash_spec(list.last()) as u32, list.last())
    }
}

/// The suffix `t[c + 1 ..]` has a hash that fits in 32 bits and is a key of `keys`.
pub open spec fn suffix_known(keys: Set<u32>, t: Seq<u8>, c: int) -> bool {
    hash_spec(t.skip(c + 1)) <= u32::MAX && keys.contains(hash_spec(t.skip(c + 1)) as u32)
}

/// Scanning cut points from `c` down to 0, the length kept at the first known suffix,
/// or the whole length when none is known.
pub open spec fn stem_search(keys: Set<u32>, t: Seq<u8>, c: int) -> int
    decreases c + 1,
{
    if c < 0 {
        t.len() as int
    } else if suffix_known(keys, t, c) {
        t.len() - c
    } else {
        stem_search(keys, t, c - 1)
    }
}

/// Every suffix hashed by that scan fits in 32 bits.
pub open spec fn stem_scan_ok(keys: Set<u32>, t: Seq<u8>, c: int) -> bool
    decreases c + 1,
{
    if c < 0 {
        true
    } else {
        hash_spec(t.skip(c + 1)) <= u32::MAX && (suffix_known(keys, t, c) || stem_scan_ok(
            keys,
            t,
            c - 1,
        ))
    }
}

/// The length of the stem that `stem` keeps.
pub open spec fn stem_len(keys: Set<u32>, t: Seq<u8>) -> int {
    stem_search(keys, t, t.len() - 1)
}

proof fn lemma_stem_search_bound(keys: Set<u32>, t: Seq<u8>, c: int)
    requires
        c < t.len(),
    ensures
        0 <= stem_search(keys, t, c) <= t.len(),
        t.len() > 0 ==> 1 <= stem_search(keys, t, c),
    decreases c + 1,
{
    if c >= 0 && !suffix_known(keys, t, c) {
        lemma_stem_search_bound(keys, t, c - 1);
    }
}

impl Stemmer {
    /// The known suffixes, by hash.
    pub closed spec fn suffixes(&self) -> Map<u32, Seq<u8>> {
        self.suffix_map@.map_values(|v: Vec<u8>| v@)
    }

    /// Builds a stemmer knowing the given suffixes.
    pub fn new(suffixes: &[Vec<u8>]) -> (st: Self)
        requires
            forall|i: int| 0 <= i < suffixes@.len() ==> hash_spec(#[trigger] suffixes@[i]@) <= u32::MAX,
        ensures
            st.suffixes() == suffix_table(suffixes@.map_values(|v: Vec<u8>| v@)),
    {
        let ghost list = suffixes@.map_values(|v: Vec<u8>| v@);
        let mut suffix_map: HashMap<u32, Vec<u8>> = HashMap::new();
        let mut i: usize = 0;
        assert(list.take(0) =~= Seq::<Seq<u8>>::empty());
        assert(suffix_map@.map_values(|v: Vec<u8>| v@) =~= suffix_table(list.take(0)));
        while i < suffixes.len()
            invariant
                i <= suffixes.len(),
                list == suffixes@.map_values(|v: Vec<u8>| v@),
                forall|j: int| 0 <= j < suffixes@.len() ==> hash_spec(#[trigger] suffixes@[j]@) <= u32::MAX,
                suffix_map@.map_values(|v: Vec<u8>| v@) == suffix_table(list.take(i as int)),
            decreases suffixes.len() - i,
        {
            let s = &suffixes[i];
            let h = get_hash_val(s.as_slice());
            let copy = slice_to_vec(s.as_slice());
            let ghost prev = suffix_map@;
            suffix_map.insert(h, copy);
            assert(list.take(i + 1).drop_last() =~= list.take(i as int));
            assert(list.take(i + 1).last() == s@);
            assert(suffix_map@.map_values(|v: Vec<u8>| v@) =~= prev.map_values(|v: Vec<u8>| v@).insert(h, s@));
            i = i + 1;
        }
        assert(list.take(i as int) =~= list);
        Stemmer { suffix_map }
    }

    /// Cuts `token` at the first cut point `c`, scanning from the end, whose suffix
    /// `token[c + 1 ..]` is known, keeping `token.len() - c` bytes; keeps all of
    /// `token` when no suffix is known.
    pub fn stem<'a>(&self, token: &'a [u8]) -> (r: &'a [u8])
        requires
            stem_scan_ok(self.suffixes().dom(), token@, token@.len() - 1),
        ensures
            r@ == token@.take(stem_len(self.suffixes().dom(), token@)),
    {
        let ghost keys = self.suffixes().dom();
        let len = token.len();
        let mut suffix_end = len;
        let mut c = len;
        while c > 0
            invariant_except_break
                stem_scan_ok(keys, token@, c - 1),
                stem_search(keys, token@, c - 1) == stem_len(keys, token@),
                suffix_end == len,
            invariant
                c <= len == token@.len(),
                keys == self.suffixes().dom(),
            ensures
                suffix_end == stem_len(keys, token@),
            decreases c,
        {
            let cut = c - 1;
            let suffix = slice_subrange(token, cut + 1, len);
            assert(suffix@ =~= token@.skip(cut + 1));
            let h = get_hash_val(suffix);
            if self.suffix_map.contains_key(&h) {
                assert(suffix_known(keys, token@, cut as int));
                suffix_end = suffix_end - cut;
                break ;
            }
            c = cut;
        }
        proof {
            lemma_stem_search_bound(keys, token@, len - 1);
        }
        assert(suffix_end == stem_len(keys, token@));
        slice_subrange(token, 0, suffix_end)
    }
}


/// The stem of a nonempty token is a nonempty prefix of it.
pub proof fn lemma_stem_nonempty(keys: Set<u32>, t: Seq<u8>)
    requires
        t.len() > 0,
    ensures
        1 <= stem_len(keys, t) <= t.len(),
{
    lemma_stem_search_bound(keys, t, t.len() - 1);
}

/// When the token's own hash fits in 32 bits, so does the hash of every suffix the
/// stemmer looks up.
pub proof fn lemma_stem_scan_ok(keys: Set<u32>, t: Seq<u8>, c: int)
    requires
        hash_spec(t) <= u32::MAX,
        c < t.len(),
    ensures
        stem_scan_ok(keys, t, c),
    decreases c + 1,
{
    if c >= 0 {
        lemma_hash_suffix_le(t, c + 1);
        lemma_stem_scan_ok(keys, t, c - 1);
    }
}


/// Every suffix of the list is known after building: the keys of the table are exactly
/// the hashes of the listed suffixes, and the suffix kept under a hash is the last
/// listed suffix with that hash.
pub proof fn lemma_suffix_table_holds_list(list: Seq<Seq<u8>>)
    ensures
        forall|k: u32|
            suffix_table(list).contains_key(k) <==> exists|i: int|
                0 <= i < list.len() && hash_spec(#[trigger] list[i]) as u32 == k,
        forall|i: int|
            0 <= i < list.len() && (forall|j: int|
                i < j < list.len() ==> hash_spec(#[trigger] list[j]) as u32 != hash_spec(list[i]) as u32)
                ==> #[trigger] suffix_table(list)[hash_spec(list[i]) as u32] == list[i],
    decreases list.len(),
{
    if list.len() > 0 {
        let a = list.drop_last();
        lemma_suffix_table_holds_list(a);
        let last = list.last();
        assert forall|k: u32| suffix_table(list).contains_key(k) <==> exists|i: int|
            0 <= i < list.len() && hash_spec(#[trigger] list[i]) as u32 == k by {
            if suffix_table(a).contains_key(k) {
                let i = choose|i: int| 0 <= i < a.len() && hash_spec(#[trigger] a[i]) as u32 == k;
                assert(list[i] == a[i]);
            }
            if hash_spec(last) as u32 == k {
                assert(list[list.len() - 1] == last);
            }
            if exists|i: int| 0 <= i < list.len() && hash_spec(#[trigger] list[i]) as u32 == k {
                let i = choose|i: int| 0 <= i < list.len() && hash_spec(#[trigger] list[i]) as u32 == k;
                if i < a.len() {
                    assert(a[i] == list[i]);
                }
            }
        }
        assert forall|i: int|
            0 <= i < list.len() && (forall|j: int|
                i < j < list.len() ==> hash_spec(#[trigger] list[j]) as u32 != hash_spec(list[i]) as u32)
                implies #[trigger] suffix_table(list)[hash_spec(list[i]) as u32] == list[i] by {
            if i < list.len() - 1 {
                assert(a[i] == list[i]);
                assert(hash_spec(list[list.len() - 1]) as u32 != hash_spec(list[i]) as u32);
                assert forall|j: int| i < j < a.len() implies hash_spec(#[trigger] a[j]) as u32
                    != hash_spec(a[i]) as u32 by {
                    assert(a[j] == list[j]);
                }
                assert(suffix_table(a)[hash_spec(a[i]) as u32] == a[i]);
                assert(suffix_table(a).contains_key(hash_spec(a[i]) as u32));
            } else {
                assert(list[i] == last);
            }
        }
    }
}

} // verus!
