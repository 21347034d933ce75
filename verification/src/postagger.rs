use std::collections::HashMap;
use vstd::prelude::*;
use vstd::slice::slice_subrange;
use crate::utils::{get_hash_val, hash_spec, lemma_hash_suffix_le};

verus! {

broadcast use vstd::std_specs::hash::group_hash_axioms;

/// A part-of-speech tag.
#[derive(PartialEq, Eq, Debug, Clone, Copy, Structural)]
pub enum Tag {
    N,
    VB,
    ADJ,
}

/// Tags tokens by their longest known suffix; suffixes are looked up by their hash.
pub struct PosTagger {
    tag_map: HashMap<u32, Tag>,
}

/// The tag table built from suffix/tag pairs: each tag under the hash of its suffix,
/// a later pair replacing an earlier one with the same hash.
pub open spec fn tag_table(list: Seq<(Seq<u8>, Tag)>) -> Map<u32, Tag>
    decreases list.len(),
{
    if list.len() == 0 {
        Map::empty()
    } else {
        tag_table(list.drop_last()).insert(hash_spec(list.last().0) as u32, list.last().1)
    }
}

/// The pairs by the bytes of their suffixes.
pub open spec fn pairs_view(v: Seq<(Vec<u8>, Tag)>) -> Seq<(Seq<u8>, Tag)> {
    v.map_values(|p: (Vec<u8>, Tag)| (p.0@, p.1))
}

/// Scanning cut points upward from `i`, the hash of the first suffix `t[i + 1 ..]`
/// that is a key of `keys`.
pub open spec fn tag_key(keys: Set<u32>, t: Seq<u8>, i: int) -> Option<u32>
    decreases t.len() - i,
{
    if i < 0 || i >= t.len() {
        None
    } else if keys.contains(hash_spec(t.skip(i + 1)) as u32) {
        Some(hash_spec(t.skip(i + 1)) as u32)
    } else {
        tag_key(keys, t, i + 1)
    }
}

impl PosTagger {
    /// The known tags, by suffix hash.
    pub closed spec fn tags(&self) -> Map<u32, Tag> {
        self.tag_map@
    }

    /// Builds a tagger from suffix/tag pairs.
    pub fn new(suffix_map: Vec<(Vec<u8>, Tag)>) -> (tagger: Self)
        requires
            forall|i: int|
                0 <= i < suffix_map@.len() ==> hash_spec(#[trigger] suffix_map@[i].0@) <= u32::MAX,
        ensures
            tagger.tags() == tag_table(pairs_view(suffix_map@)),
    {
        let ghost list = pairs_view(suffix_map@);
        let mut tag_map: HashMap<u32, Tag> = HashMap::new();
        let mut i: usize = 0;
        assert(tag_map@ =~= tag_table(list.take(0)));
        while i < suffix_map.len()
            invariant
                i <= suffix_map.len(),
                list == pairs_view(suffix_map@),
                forall|j: int|
                    0 <= j < suffix_map@.len() ==> hash_spec(#[trigger] suffix_map@[j].0@)
                        <= u32::MAX,
                tag_map@ == tag_table(list.take(i as int)),
            decreases suffix_map.len() - i,
        {
            let h = get_hash_val(suffix_map[i].0.as_slice());
            let t = suffix_map[i].1;
            tag_map.insert(h, t);
            assert(list.take(i + 1).drop_last() =~= list.take(i as int));
            assert(list.take(i + 1).last() == (suffix_map@[i as int].0@, t));
            i = i + 1;
        }
        assert(list.take(i as int) =~= list);
        PosTagger { tag_map }
    }

    /// The tag of the longest suffix `token[i + 1 ..]` that is known, if any.
    pub fn tag(&self, token: &[u8]) -> (r: Option<&Tag>)
        requires
            token@.len() > 0 ==> hash_spec(token@.skip(1)) <= u32::MAX,
        ensures
            r is Some == tag_key(self.tags().dom(), token@, 0) is Some,
            r matches Some(t) ==> *t == self.tags()[tag_key(self.tags().dom(), token@, 0)->0],
    {
        let ghost keys = self.tags().dom();
        let len = token.len();
        let mut found: Option<&Tag> = None;
        let mut i = len;
        while i > 0
            invariant
                i <= len == token@.len(),
                keys == self.tags().dom(),
                len > 0 ==> hash_spec(token@.skip(1)) <= u32::MAX,
                found is Some == tag_key(keys, token@, i as int) is Some,
                found matches Some(t) ==> *t == self.tags()[tag_key(keys, token@, i as int)->0],
            decreases i,
        {
            let cut = i - 1;
            let suffix = slice_subrange(token, cut + 1, len);
            proof {
                assert(token@.skip(1).skip(cut as int) =~= token@.skip(cut + 1));
                lemma_hash_suffix_le(token@.skip(1), cut as int);
            }
            assert(suffix@ =~= token@.skip(cut + 1));
            let h = get_hash_val(suffix);
            match self.tag_map.get(&h) {
                Some(t) => {
                    found = Some(t);
                },
                None => {},
            }
            i = cut;
        }
        found
    }
}


/// The suffix `t[i + 1 ..]` is known.
pub open spec fn suffix_tagged(keys: Set<u32>, t: Seq<u8>, i: int) -> bool {
    keys.contains(hash_spec(t.skip(i + 1)) as u32)
}

/// The tagger looks at every suffix `t[i + 1 ..]` for `0 <= i < t.len()`, and settles on
/// the longest one that is known: a key is found exactly when some such suffix is known,
/// and the key found is the hash of the known suffix with the smallest `i`.
pub proof fn lemma_tag_key_longest(keys: Set<u32>, t: Seq<u8>, start: int)
    requires
        0 <= start,
    ensures
        tag_key(keys, t, start) is Some <==> exists|i: int|
            start <= i < t.len() && #[trigger] suffix_tagged(keys, t, i),
        forall|i: int|
            start <= i < t.len() && #[trigger] suffix_tagged(keys, t, i) && (forall|j: int|
                start <= j < i ==> !suffix_tagged(keys, t, j)) ==> tag_key(keys, t, start) == Some(
                hash_spec(t.skip(i + 1)) as u32,
            ),
    decreases t.len() - start,
{
    if start < t.len() {
        lemma_tag_key_longest(keys, t, start + 1);
        assert(suffix_tagged(keys, t, start) == keys.contains(hash_spec(t.skip(start + 1)) as u32));
        if tag_key(keys, t, start + 1) is Some {
            let i = choose|i: int| start + 1 <= i < t.len() && #[trigger] suffix_tagged(keys, t, i);
            assert(start <= i < t.len() && suffix_tagged(keys, t, i));
        }
        if exists|i: int| start <= i < t.len() && #[trigger] suffix_tagged(keys, t, i) {
            let i = choose|i: int| start <= i < t.len() && #[trigger] suffix_tagged(keys, t, i);
            if i > start && !suffix_tagged(keys, t, start) {
                assert(suffix_tagged(keys, t, i));
            }
        }
        assert forall|i: int|
            start <= i < t.len() && #[trigger] suffix_tagged(keys, t, i) && (forall|j: int|
                start <= j < i ==> !suffix_tagged(keys, t, j)) implies tag_key(keys, t, start)
            == Some(hash_spec(t.skip(i + 1)) as u32) by {
            if i > start {
                assert(!suffix_tagged(keys, t, start));
            }
        }
    }
}

} // verus!
