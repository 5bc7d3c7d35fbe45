use minigpt::tokenizer::{pair_from_code, pair_key, token_from_code, Token, Tokenizer};

fn spell(t: &Token) -> Vec<u8> {
    t.bytes.iter().flatten().copied().collect()
}

#[test]
fn token_new_holds_one_byte() {
    let t = Token::new(b'a');
    assert_eq!(t.bytes, [Some(b'a'), None, None, None, None, None]);
}

#[test]
fn token_add_appends_bytes() {
    let ab = Token::new(b'a') + Token::new(b'b');
    assert_eq!(spell(&ab), b"ab".to_vec());
    let abab = ab + ab;
    assert_eq!(spell(&abab), b"abab".to_vec());
}

#[test]
fn token_add_drops_what_does_not_fit() {
    let ab = Token::new(b'a') + Token::new(b'b');
    let abab = ab + ab;
    let long = abab + abab;
    assert_eq!(spell(&long), b"ababab".to_vec());
}

#[test]
fn token_codes_round_trip() {
    let t = Token::new(b'x') + Token::new(b'y');
    assert_eq!(token_from_code(t.code()), t);
    let u = Token::new(0) + Token::new(255);
    assert_eq!(token_from_code(u.code()), u);
    assert_ne!(t.code(), u.code());
}

#[test]
fn pair_codes_round_trip() {
    let a = Token::new(b'q');
    let b = Token::new(b'r') + Token::new(b's');
    assert_eq!(pair_from_code(pair_key(&a, &b)), (a, b));
    assert_ne!(pair_key(&a, &b), pair_key(&b, &a));
}

#[test]
fn codes_follow_token_order() {
    let a = Token::new(b'a');
    let ab = a + Token::new(b'b');
    let b = Token::new(b'b');
    assert!(a < ab && ab < b);
    assert!(a.code() < ab.code() && ab.code() < b.code());
}

#[test]
fn new_tokenizer_is_empty() {
    let t = Tokenizer::new();
    assert!(t.vocab.is_empty());
    assert_eq!(t.bos, 0);
}

#[test]
fn train_merges_frequent_pairs() {
    let mut t = Tokenizer::new();
    t.train(&["abab".to_string()]);
    let spellings: Vec<Vec<u8>> = t.vocab.iter().map(spell).collect();
    assert!(spellings.contains(&b"a".to_vec()));
    assert!(spellings.contains(&b"b".to_vec()));
    assert!(spellings.contains(&b"ab".to_vec()));
    assert!(spellings.contains(&b"abab".to_vec()));
    assert_eq!(t.bos, t.vocab.len());
}

#[test]
fn encode_brackets_with_bos_and_spells_input() {
    let mut t = Tokenizer::new();
    t.train(&["abab".to_string(), "abba".to_string()]);
    let mut out = vec![];
    t.encode("abab", &mut out);
    assert_eq!(out.first(), Some(&t.bos));
    assert_eq!(out.last(), Some(&t.bos));
    let mut spelled = vec![];
    for &id in &out[1..out.len() - 1] {
        assert!(id < t.vocab.len());
        spelled.extend(spell(&t.vocab[id]));
    }
    assert_eq!(spelled, b"abab".to_vec());
}

#[test]
fn encode_of_empty_input_is_two_bos() {
    let mut t = Tokenizer::new();
    t.train(&["abab".to_string()]);
    let mut out = vec![7, 7, 7];
    t.encode("", &mut out);
    assert_eq!(out, vec![t.bos, t.bos]);
}

#[test]
fn vocab_entries_are_distinct() {
    let mut t = Tokenizer::new();
    t.train(&["hello world".to_string(), "hello there".to_string()]);
    for i in 0..t.vocab.len() {
        for j in 0..i {
            assert_ne!(t.vocab[i], t.vocab[j]);
        }
    }
}

fn hand_built(vocab: Vec<Token>, rules: &[(Token, Token)]) -> Tokenizer {
    let mut t = Tokenizer::new();
    for (i, tok) in vocab.iter().enumerate() {
        t.encoder.insert(tok.code(), i);
    }
    for (rank, (a, b)) in rules.iter().enumerate() {
        t.rules.insert(pair_key(a, b), rank);
    }
    t.bos = vocab.len();
    t.vocab = vocab;
    t
}

#[test]
fn decoding_an_encoding_gives_back_the_input() {
    let h = Token::new(b'h');
    let i = Token::new(b'i');
    let hi = h + i;
    let mut t = hand_built(vec![h, i, hi], &[(h, i)]);
    let mut out = vec![];
    t.encode("hihih", &mut out);
    assert_eq!(out, vec![3, 2, 2, 0, 3]);
    assert_eq!(minigpt::gpt::Gpt::decode(&t, &out), b"hihih".to_vec());
}

#[test]
fn a_rule_longer_than_a_token_cuts_the_text() {
    let t = |c: u8| Token::new(c);
    let ab = t(b'a') + t(b'b');
    let abc = ab + t(b'c');
    let de = t(b'd') + t(b'e');
    let def = de + t(b'f');
    let defg = def + t(b'g');
    let cut = abc + defg;
    assert_eq!(spell(&cut), b"abcdef".to_vec());
    let rules = [(t(b'a'), t(b'b')), (ab, t(b'c')), (t(b'd'), t(b'e')), (de, t(b'f')), (def, t(b'g')), (abc, defg)];
    let mut tok = hand_built(vec![cut], &rules);
    let mut out = vec![];
    tok.encode("abcdefg", &mut out);
    assert_eq!(out, vec![1, 0, 1]);
    assert_eq!(minigpt::gpt::Gpt::decode(&tok, &out), b"abcdef".to_vec());
}

#[test]
fn encode_merges_every_occurrence_of_a_rule_pair() {
    let a = Token::new(b'a');
    let b = Token::new(b'b');
    let mut t = hand_built(vec![a, b, a + b], &[(a, b)]);
    let mut out = vec![];
    t.encode("abab", &mut out);
    assert_eq!(out, vec![3, 2, 2, 3]);
}

#[test]
fn encode_applies_the_earlier_rule_first() {
    let a = Token::new(b'a');
    let b = Token::new(b'b');
    let c = Token::new(b'c');
    let mut t = hand_built(vec![a, b, c, a + b, b + c], &[(a, b), (b, c)]);
    let mut out = vec![];
    t.encode("abc", &mut out);
    assert_eq!(out, vec![5, 3, 2, 5]);
}

#[test]
fn encode_needs_only_the_encoder() {
    let a = Token::new(b'a');
    let b = Token::new(b'b');
    let mut t = Tokenizer::new();
    t.encoder.insert(a.code(), 0);
    t.encoder.insert(b.code(), 1);
    t.encoder.insert((a + b).code(), 2);
    t.rules.insert(pair_key(&a, &b), 0);
    t.bos = 3;
    let mut out = vec![];
    t.encode("abab", &mut out);
    assert_eq!(out, vec![3, 2, 2, 3]);
}

#[test]
fn inner_ids_decode_to_the_input_whatever_the_marker() {
    let h = Token::new(b'h');
    let i = Token::new(b'i');
    let mut t = hand_built(vec![h, i, h + i], &[(h, i)]);
    t.bos = 0;
    let mut out = vec![];
    t.encode("hihih", &mut out);
    assert_eq!(out, vec![0, 2, 2, 0, 0]);
    let inner = &out[1..out.len() - 1];
    assert_eq!(minigpt::gpt::Gpt::decode(&t, inner), b"hihih".to_vec());
}

#[test]
fn encode_applies_rules_until_none_applies() {
    let a = Token::new(b'a');
    let b = Token::new(b'b');
    let c = Token::new(b'c');
    let ab = a + b;
    let abc = ab + c;
    let mut t = hand_built(vec![a, b, c, ab, abc], &[(a, b), (ab, c)]);
    let mut out = vec![];
    t.encode("abcab", &mut out);
    assert_eq!(out, vec![5, 4, 3, 5]);
    let inner = &out[1..out.len() - 1];
    for w in inner.windows(2) {
        let key = pair_key(&t.vocab[w[0]], &t.vocab[w[1]]);
        assert!(!t.rules.contains_key(&key));
    }
}
