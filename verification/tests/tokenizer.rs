use rustynet::tokenizer::Tokenizer;

#[test]
fn builds_sorted_vocab_with_bos() {
    let docs = vec!["cab".to_string(), "ba".to_string()];
    let tok = Tokenizer::from_docs(&docs);
    // unique sorted chars: a, b, c -> ids 0,1,2 ; BOS = 3 ; vocab = 4
    assert_eq!(tok.vocab_size(), 4);
    assert_eq!(tok.bos(), 3);
    assert_eq!(tok.encode('a'), 0);
    assert_eq!(tok.encode('c'), 2);
    assert_eq!(tok.decode(1), Some('b'));
    assert_eq!(tok.decode(tok.bos()), None);
}

#[test]
fn empty_docs_give_only_bos() {
    let docs: Vec<String> = vec![];
    let tok = Tokenizer::from_docs(&docs);
    assert_eq!(tok.bos(), 0);
    assert_eq!(tok.vocab_size(), 1);
    assert_eq!(tok.decode(0), None);
}

#[test]
fn vocab_is_sorted_by_code_point_and_deduplicated() {
    let docs = vec!["zoë".to_string(), "Zed".to_string(), "".to_string(), "éz".to_string()];
    let tok = Tokenizer::from_docs(&docs);
    // distinct chars sorted by code point: Z(0x5A) d(0x64) e(0x65) o(0x6F) z(0x7A) é(0xE9) ë(0xEB)
    let expected = ['Z', 'd', 'e', 'o', 'z', 'é', 'ë'];
    assert_eq!(tok.bos(), expected.len());
    assert_eq!(tok.vocab_size(), expected.len() + 1);
    for (id, &ch) in expected.iter().enumerate() {
        assert_eq!(tok.decode(id), Some(ch));
        assert_eq!(tok.encode(ch), id);
    }
    assert_eq!(tok.decode(expected.len() + 5), None);
}

#[test]
fn encode_then_decode_round_trips() {
    let docs = vec!["emma".to_string(), "olivia".to_string(), "ava".to_string()];
    let tok = Tokenizer::from_docs(&docs);
    for doc in &docs {
        for ch in doc.chars() {
            assert_eq!(tok.decode(tok.encode(ch)), Some(ch));
        }
    }
    for id in 0..tok.bos() {
        let ch = tok.decode(id).unwrap();
        assert_eq!(tok.encode(ch), id);
    }
}

#[test]
fn token_ids_follow_character_order() {
    let docs = vec!["mia".to_string(), "lucas".to_string()];
    let tok = Tokenizer::from_docs(&docs);
    assert!(tok.encode('a') < tok.encode('c'));
    assert!(tok.encode('l') < tok.encode('m'));
    assert!(tok.encode('s') < tok.encode('u'));
}

#[test]
fn vocab_does_not_depend_on_document_order() {
    let a = Tokenizer::from_docs(&["ab".to_string(), "cd".to_string()]);
    let b = Tokenizer::from_docs(&["dc".to_string(), "ba".to_string()]);
    assert_eq!(a.vocab_size(), b.vocab_size());
    for id in 0..a.vocab_size() {
        assert_eq!(a.decode(id), b.decode(id));
    }
}
