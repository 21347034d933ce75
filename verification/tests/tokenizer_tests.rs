use graffiti::tokenizer::{State, Token, TokenType, Tokenizer};
use graffiti::utils;
use std::collections::HashMap;

static TOKENS: &'static str = "
                Alpha => 65..91
                Alpha => 97..123
                Number => 48..57
                Whitespace => 9,10,13,32
                Punctuation => 33..47
                Punctuation => 58..65
                Slash => 47
                ";

static TRANSITIONS: &'static str = "
                Start => Alpha => Alpha
                Start => Number => Number
                Start => Whitespace => Whitespace
                Start => Punctuation => Punctuation
                Start => Slash => Slash
                Slash => Slash => Slash
                Slash => Whitespace => Whitespace
                Slash => Alpha => Pos
                Alpha => Alpha | Number => Alpha
                Pos => Alpha => Pos
                Number => Number => Number
                Number => Alpha => Alpha
                Whitespace => Whitespace => Whitespace
                Punctuation => Punctuation => Punctuation
                ";

fn h(name: &str) -> u32 {
    utils::get_hash_val(&String::from(name).into_bytes())
}

#[test]
fn test_compile_states() {
    let transition_map: HashMap<u32, HashMap<u32, State>> = Tokenizer::compile_states(&TRANSITIONS);

    let test_state_alpha = State(utils::get_hash_val(&String::from("Alpha").into_bytes()));
    let test_token_type_alpha = TokenType(utils::get_hash_val(&String::from("Alpha").into_bytes()));

    assert_eq!(transition_map[&test_state_alpha.0][&test_token_type_alpha.0], test_state_alpha);
}

#[test]
fn test_compile_tokens() {
    let token_map: HashMap<u8, TokenType> = Tokenizer::compile_tokens_ascii(&TOKENS);
    let test_token_type_alpha = TokenType(utils::get_hash_val(&String::from("Alpha").into_bytes()));

    assert_eq!(token_map[&65], test_token_type_alpha);
    assert_eq!(token_map[&122], test_token_type_alpha);
}

#[test]
fn tokenize_test_1() {
    let mut tokenizer = Tokenizer::new(&TOKENS, &TRANSITIONS);

    let bs: Vec<u8> = vec![97, 98, 99];

    let tokenized = tokenizer.tokenize(&bs);
    let test_token = Token { t: TokenType(utils::get_hash_val(&String::from("Alpha").into_bytes())), value: bs };

    println!("{:?}", tokenized.0);
    println!("{:?}", &test_token);

    assert_eq!(tokenized.0[0], test_token);
}

#[test]
fn tokenize_test_2() {
    let bs: Vec<u8> = String::from("foo/bar").into_bytes();

    let mut hashed_dict: HashMap<u32, &str> = HashMap::new();
    hashed_dict.insert(utils::get_hash_val(&String::from("Alpha").into_bytes()), "Alpha");
    hashed_dict.insert(utils::get_hash_val(&String::from("Whitespace").into_bytes()), "Whitepace");
    hashed_dict.insert(utils::get_hash_val(&String::from("Slash").into_bytes()), "Slash");
    hashed_dict.insert(utils::get_hash_val(&String::from("Pos").into_bytes()), "Pos");

    println!("{:?}", hashed_dict);

    let test_alpha = Token { t: TokenType(utils::get_hash_val(&String::from("Alpha").into_bytes())), value: String::from("foo").into_bytes() };
    let test_slash = Token { t: TokenType(utils::get_hash_val(&String::from("Slash").into_bytes())), value: String::from("/").into_bytes() };
    let test_pos = Token { t: TokenType(utils::get_hash_val(&String::from("Alpha").into_bytes())), value: String::from("bar").into_bytes() };

    let test_state_alpha = State(utils::get_hash_val(&String::from("Alpha").into_bytes()));
    let test_state_pos = State(utils::get_hash_val(&String::from("Pos").into_bytes()));

    let mut tokenizer = Tokenizer::new(&TOKENS, &TRANSITIONS);

    let tokenized: (Vec<Token>, Vec<State>) = tokenizer.tokenize(&bs);
    let test_tokens = vec![&test_alpha, &test_slash, &test_pos];

    println!("{:?}", &test_tokens);

    assert_eq!(tokenized.0.len(), 3);
    assert_eq!(tokenized.0[0], test_alpha);
    assert_eq!(tokenized.0[1], test_slash);
    assert_eq!(tokenized.0[2], test_pos);

    assert_eq!(tokenized.1.len(), 3);
    assert_eq!(tokenized.1[0], test_state_alpha);
    assert_eq!(tokenized.1[2], test_state_pos);
}

#[test]
fn tokenize_test_3() {
    let bs: Vec<u8> = String::from("foo ^ foo").into_bytes();

    let test_alpha = Token { t: TokenType(utils::get_hash_val(&String::from("Alpha").into_bytes())), value: String::from("foo").into_bytes() };
    let test_white = Token { t: TokenType(utils::get_hash_val(&String::from("Whitespace").into_bytes())), value: String::from("  ").into_bytes() };

    let test_state_alpha = State(utils::get_hash_val(&String::from("Alpha").into_bytes()));
    let test_state_white = State(utils::get_hash_val(&String::from("Whitespace").into_bytes()));

    let mut tokenizer = Tokenizer::new(&TOKENS, &TRANSITIONS);

    let tokenized: (Vec<Token>, Vec<State>) = tokenizer.tokenize(&bs);

    assert_eq!(tokenized.0.len(), 3);
    assert_eq!(tokenized.0[0], test_alpha);
    assert_eq!(tokenized.0[1], test_white);
    assert_eq!(tokenized.0[2], test_alpha);

    assert_eq!(tokenized.1.len(), 3);
    assert_eq!(tokenized.1[0], test_state_alpha);
    assert_eq!(tokenized.1[1], test_state_white);
    assert_eq!(tokenized.1[2], test_state_alpha);
}

#[test]
fn compile_tokens_later_line_overrides_and_lists() {
    let rules = "Aa => 1..4\n\n  => 9\nBb => 3,+7,8\r\nCc=>200\nAa => 8";
    let m = Tokenizer::compile_tokens_ascii(rules);
    assert_eq!(m.len(), 6);
    assert_eq!(m[&1], TokenType(h("Aa")));
    assert_eq!(m[&2], TokenType(h("Aa")));
    assert_eq!(m[&3], TokenType(h("Bb")));
    assert_eq!(m[&7], TokenType(h("Bb")));
    assert_eq!(m[&8], TokenType(h("Aa")));
    assert_eq!(m[&200], TokenType(h("Cc")));
    assert!(!m.contains_key(&4));
    assert!(!m.contains_key(&9));
}

#[test]
fn compile_tokens_trims_unicode_white_space() {
    let rules = "\u{3000}Wide\u{00A0} =>\u{2003}5\u{2029}";
    let m = Tokenizer::compile_tokens_ascii(rules);
    assert_eq!(m.len(), 1);
    assert_eq!(m[&5], TokenType(h("Wide")));
}

#[test]
fn compile_tokens_empty_range() {
    let m = Tokenizer::compile_tokens_ascii("Z => 5..5\nY => 9..3");
    assert!(m.is_empty());
}

#[test]
fn compile_tokens_hashes_utf8_names() {
    let m = Tokenizer::compile_tokens_ascii("Ünïcode => 1");
    assert_eq!(m[&1], TokenType(h("Ünïcode")));
}

#[test]
fn compile_states_keeps_first_transition() {
    let rules = "Ss => Aa | Bb => Tt\nSs => Aa => Uu\nTt => | Aa => Ss";
    let m = Tokenizer::compile_states(rules);
    assert_eq!(m.len(), 2);
    assert_eq!(m[&h("Ss")].len(), 2);
    assert_eq!(m[&h("Ss")][&h("Aa")], State(h("Tt")));
    assert_eq!(m[&h("Ss")][&h("Bb")], State(h("Tt")));
    assert_eq!(m[&h("Tt")].len(), 2);
    assert_eq!(m[&h("Tt")][&0], State(h("Ss")));
    assert_eq!(m[&h("Tt")][&h("Aa")], State(h("Ss")));
}

#[test]
fn tokenize_empty_and_pairing() {
    let mut tokenizer = Tokenizer::new(&TOKENS, &TRANSITIONS);
    let (t, s) = tokenizer.tokenize(&Vec::new());
    assert!(t.is_empty());
    assert!(s.is_empty());

    let input = b"ab 12, x/y".to_vec();
    let (t, s) = tokenizer.tokenize(&input);
    assert_eq!(t.len(), s.len());
    let joined: Vec<u8> = t.iter().flat_map(|x| x.value.clone()).collect();
    // every byte kept comes from the input, in order
    let mut it = input.iter();
    for b in &joined {
        assert!(it.any(|c| c == b));
    }
}

#[test]
fn compile_tokens_empty_list_skips_name_hash() {
    // a name whose hash does not fit in 32 bits is never hashed when it names no byte
    let long_name = "z".repeat(10000);
    assert!(!utils::hash_fits(long_name.as_bytes()));
    let m = Tokenizer::compile_tokens_ascii(&format!("{} => 5..5\nAa => 7", long_name));
    assert_eq!(m.len(), 1);
    assert_eq!(m[&7], TokenType(h("Aa")));
}
