use vstd::prelude::*;
use vstd::slice::slice_to_vec;
use crate::scanner::Scanner;
use crate::tokenizer::{Token, Tokenizer, tokenize_halts, tokenize_spec, tokens_view};
use crate::utils::{get_hash_val, hash_spec};

verus! {

/// The bytes of the name `Alpha`.
pub open spec fn alpha_name() -> Seq<u8> {
    seq![65u8, 108u8, 112u8, 104u8, 97u8]
}

/// The class of word tokens: the hash of `Alpha`.
pub open spec fn alpha_class() -> u32 {
    hash_spec(alpha_name()) as u32
}

/// The bytes of the tokens of class `Alpha`, in order.
pub open spec fn alpha_words(toks: Seq<(u32, Seq<u8>)>) -> Seq<Seq<u8>>
    decreases toks.len(),
{
    if toks.len() == 0 {
        Seq::empty()
    } else {
        let w = alpha_words(toks.drop_last());
        if toks.last().0 == alpha_class() {
            w.push(toks.last().1)
        } else {
            w
        }
    }
}

/// The words are exactly the tokens of class `Alpha`, every one of them, in order:
/// keeping the tokens whose class is `Alpha` and taking their bytes.
pub proof fn lemma_alpha_words_keep_every_alpha_token(toks: Seq<(u32, Seq<u8>)>)
    ensures
        alpha_words(toks) == toks.filter(|p: (u32, Seq<u8>)| p.0 == alpha_class()).map_values(
            |p: (u32, Seq<u8>)| p.1,
        ),
    decreases toks.len(),
{
    let pred = |p: (u32, Seq<u8>)| p.0 == alpha_class();
    let snd = |p: (u32, Seq<u8>)| p.1;
    reveal_with_fuel(Seq::filter, 1);
    if toks.len() == 0 {
        assert(toks.filter(pred).map_values(snd) =~= Seq::<Seq<u8>>::empty());
    } else {
        lemma_alpha_words_keep_every_alpha_token(toks.drop_last());
        let f = toks.drop_last().filter(pred);
        if pred(toks.last()) {
            assert(toks.filter(pred) == f.push(toks.last()));
            assert(f.push(toks.last()).map_values(snd) =~= f.map_values(snd).push(toks.last().1));
        } else {
            assert(toks.filter(pred) == f);
        }
    }
}

/// A list of words by their bytes.
pub open spec fn words_view(v: Seq<Vec<u8>>) -> Seq<Seq<u8>> {
    v.map_values(|w: Vec<u8>| w@)
}

/// The hash of `Alpha`.
fn alpha_hash() -> (h: u32)
    ensures
        h == alpha_class(),
{
    let name = "Alpha".as_bytes();
    proof {
        reveal_strlit("Alpha");
        vstd::utf8::is_ascii_chars_encode_utf8("Alpha"@);
        assert(name@ =~= alpha_name());
        let an = alpha_name();
        let s1 = seq![65u8];
        let s2 = seq![65u8, 108u8];
        let s3 = seq![65u8, 108u8, 112u8];
        let s4 = seq![65u8, 108u8, 112u8, 104u8];
        assert(s1.drop_last() =~= Seq::<u8>::empty());
        assert(s2.drop_last() =~= s1);
        assert(s3.drop_last() =~= s2);
        assert(s4.drop_last() =~= s3);
        assert(an.drop_last() =~= s4);
        assert(hash_spec(Seq::<u8>::empty()) == 0);
        assert(hash_spec(s1) == 0);
        assert(hash_spec(s2) == 108);
        assert(hash_spec(s3) == 108 + 224);
        assert(hash_spec(s4) == 108 + 224 + 312);
        assert(hash_spec(an) == 1032);
    }
    get_hash_val(name)
}

/// The bytes of the tokens of class `class`, in order.
fn words_of_class(tokens: &Vec<Token>, class: u32) -> (r: Vec<Vec<u8>>)
    requires
        class == alpha_class(),
    ensures
        words_view(r@) == alpha_words(tokens_view(tokens@)),
{
    let ghost tv = tokens_view(tokens@);
    let mut out: Vec<Vec<u8>> = Vec::new();
    let mut i: usize = 0;
    assert(tv.take(0) =~= Seq::<(u32, Seq<u8>)>::empty());
    assert(words_view(out@) =~= alpha_words(tv.take(0)));
    while i < tokens.len()
        invariant
            i <= tokens.len(),
            class == alpha_class(),
            tv == tokens_view(tokens@),
            words_view(out@) == alpha_words(tv.take(i as int)),
        decreases tokens.len() - i,
    {
        assert(tv.take(i + 1).drop_last() =~= tv.take(i as int));
        assert(tv.take(i + 1).last() == (tokens@[i as int].t.0, tokens@[i as int].value@));
        if tokens[i].t.0 == class {
            let ghost before = out@;
            let w = slice_to_vec(tokens[i].value.as_slice());
            out.push(w);
            assert(words_view(out@) =~= words_view(before).push(tokens@[i as int].value@));
        }
        i = i + 1;
    }
    assert(tv.take(i as int) =~= tv);
    out
}

/// A set of documents, read ahead, and the tokenizer that splits them.
pub struct Corpus {
    scanners: Vec<Scanner>,
    tokenizer: Tokenizer,
}

impl Corpus {
    /// The contents of each document.
    pub closed spec fn documents(&self) -> Seq<Seq<u8>> {
        self.scanners@.map_values(|s: Scanner| s@)
    }

    /// The tokenizer's byte classes.
    pub closed spec fn class_table(&self) -> Map<u8, u32> {
        self.tokenizer.class_table()
    }

    /// The tokenizer's transitions.
    pub closed spec fn transition_table(&self) -> Map<u32, Map<u32, u32>> {
        self.tokenizer.transition_table()
    }

    /// The words of document `d`: the tokens of class `Alpha` that tokenizing it gives.
    pub open spec fn doc_words(&self, d: int) -> Seq<Seq<u8>> {
        alpha_words(
            tokenize_spec(self.class_table(), self.transition_table(), self.documents()[d]).tokens,
        )
    }

    /// The words of documents `0 .. n`, in order.
    pub open spec fn words_upto(&self, n: int) -> Seq<Seq<u8>>
        decreases n,
    {
        if n <= 0 {
            Seq::empty()
        } else {
            self.words_upto(n - 1) + self.doc_words(n - 1)
        }
    }

    /// Tokenizing each document ends.
    pub open spec fn all_halt(&self) -> bool {
        forall|d: int|
            0 <= d < self.documents().len() ==> tokenize_halts(
                self.class_table(),
                self.transition_table(),
                #[trigger] self.documents()[d],
            )
    }

    /// A corpus of the given documents, split by `tokenizer`.
    pub fn from_scanners(scanners: Vec<Scanner>, tokenizer: Tokenizer) -> (c: Self)
        ensures
            c.documents() == scanners@.map_values(|s: Scanner| s@),
            c.class_table() == tokenizer.class_table(),
            c.transition_table() == tokenizer.transition_table(),
    {
        Corpus { scanners, tokenizer }
    }

    /// The documents.
    pub fn get_scanners(&self) -> (r: &Vec<Scanner>)
        ensures
            r@.map_values(|s: Scanner| s@) == self.documents(),
    {
        &self.scanners
    }

    /// The words of document `pos`.
    pub fn words(&mut self, pos: usize) -> (r: Vec<Vec<u8>>)
        requires
            pos < old(self).documents().len(),
            tokenize_halts(
                old(self).class_table(),
                old(self).transition_table(),
                old(self).documents()[pos as int],
            ),
        ensures
            *final(self) == *old(self),
            words_view(r@) == old(self).doc_words(pos as int),
    {
        let contents = self.scanners[pos].contents();
        let tokenized = self.tokenizer.tokenize(contents);
        let alpha = alpha_hash();
        words_of_class(&tokenized.0, alpha)
    }

    /// The words of every document, document after document.
    pub fn allwords(&mut self) -> (r: Vec<Vec<u8>>)
        requires
            old(self).all_halt(),
        ensures
            *final(self) == *old(self),
            words_view(r@) == old(self).words_upto(old(self).documents().len() as int),
    {
        let alpha = alpha_hash();
        let mut all_tokens: Vec<Vec<u8>> = Vec::new();
        let mut d: usize = 0;
        let ghost me = *self;
        while d < self.scanners.len()
            invariant
                d <= self.scanners.len(),
                *self == me,
                me.all_halt(),
                alpha == alpha_class(),
                self.documents().len() == self.scanners.len(),
                words_view(all_tokens@) == self.words_upto(d as int),
            decreases self.scanners.len() - d,
        {
            assert(self.documents()[d as int] == self.scanners@[d as int]@);
            let contents = self.scanners[d].contents();
            let tokenized = self.tokenizer.tokenize(contents);
            let mut words = words_of_class(&tokenized.0, alpha);
            let ghost before = all_tokens@;
            all_tokens.append(&mut words);
            assert(words_view(all_tokens@) =~= words_view(before) + self.doc_words(d as int));
            d = d + 1;
        }
        all_tokens
    }
}

} // verus!
