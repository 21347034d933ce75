use graffiti::corpus::Corpus;
use graffiti::scanner::{Scanner, DEFAULT_BUF_SIZE};
use graffiti::tokenizer::Tokenizer;

static TOKENS: &'static str = "
            Alpha => 65..123
            Number => 48..57
            Whitespace => 9,10,13,32
            Punctuation => 33..46
            Punctuation => 58..65
            Slash => 47
            ";

static TRANSITIONS: &'static str = "
            Start => Alpha => Alpha
            Start => Number => Number
            Start => Whitespace => Whitespace
            Start => Punctuation => Punctuation
            Start => Slash => Slash
            Slash => Slash => Slash
            Slash => Whitespace => Whitespace
            Slash => Alpha => Pos
            Alpha => Alpha | Number => Alpha
            Pos => Alpha => Pos
            Number => Number => Number
            Number => Alpha => Alpha
            Whitespace => Whitespace => Whitespace
            Punctuation => Punctuation => Punctuation
            ";

fn scanner_of(bytes: &[u8]) -> Scanner {
    let mut s = Scanner::new();
    let more = s.scan_chunk(bytes);
    assert!(!more);
    s
}

#[test]
fn scanner_appends_chunks() {
    let mut s = Scanner::new();
    assert_eq!(s.get_contents_size(), 0);
    let full = vec![7u8; DEFAULT_BUF_SIZE];
    assert!(s.scan_chunk(&full));
    assert!(!s.scan_chunk(&[1, 2, 3]));
    assert_eq!(s.get_contents_size(), DEFAULT_BUF_SIZE + 3);
    assert_eq!(&s.get_contents()[DEFAULT_BUF_SIZE..], &[1, 2, 3]);
}

#[test]
fn corpus_words_are_alpha_tokens() {
    let tokenizer = Tokenizer::new(&TOKENS, &TRANSITIONS);
    let docs = vec![scanner_of(b"the dog 42 barks"), scanner_of(b"cat2 / x")];
    let mut corpus = Corpus::from_scanners(docs, tokenizer);
    assert_eq!(corpus.get_scanners().len(), 2);
    let w0 = corpus.words(0);
    assert_eq!(w0, vec![b"the".to_vec(), b"dog".to_vec(), b"barks".to_vec()]);
    let all = corpus.allwords();
    let mut expected = w0.clone();
    expected.extend(corpus.words(1));
    assert_eq!(all, expected);
}
