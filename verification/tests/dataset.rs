use rand::rngs::StdRng;
use rand::SeedableRng;
use rustynet::dataset::{make_examples, prepare_dataset, BLOCK_SIZE};
use rustynet::text::docs_from_text;
use rustynet::tokenizer::Tokenizer;

#[test]
fn examples_slide_a_window_over_the_document() {
    let tok = Tokenizer::from_docs(&["ab".to_string()]);
    let bos = tok.bos();
    assert_eq!(BLOCK_SIZE, 3);
    let ex = make_examples("aba", &tok);
    assert_eq!(
        ex,
        vec![
            (vec![bos, bos, bos], 0),
            (vec![bos, bos, 0], 1),
            (vec![bos, 0, 1], 0),
            (vec![0, 1, 0], bos),
        ]
    );
}

#[test]
fn empty_document_predicts_only_bos() {
    let tok = Tokenizer::from_docs(&["x".to_string()]);
    let bos = tok.bos();
    let ex = make_examples("", &tok);
    assert_eq!(ex, vec![(vec![bos, bos, bos], bos)]);
}

#[test]
fn each_context_is_the_previous_one_slid_by_one() {
    let tok = Tokenizer::from_docs(&["abcdefg".to_string()]);
    let ex = make_examples("gfedcba", &tok);
    assert_eq!(ex.len(), 8);
    for i in 0..ex.len() - 1 {
        let mut slid = ex[i].0[1..].to_vec();
        slid.push(ex[i].1);
        assert_eq!(ex[i + 1].0, slid);
        assert_eq!(ex[i].0.len(), BLOCK_SIZE);
    }
    assert_eq!(ex[0].1, tok.encode('g'));
    assert_eq!(ex[7].1, tok.bos());
}

#[test]
fn docs_are_trimmed_non_empty_lines() {
    let text = "  anna \r\nbob\n\n   \n\tcarl\r\nd\r";
    let docs = docs_from_text(text).unwrap();
    assert_eq!(docs, vec!["anna".to_string(), "bob".to_string(), "carl".to_string(), "d".to_string()]);
}

#[test]
fn inner_whitespace_is_kept() {
    let docs = docs_from_text("mary ann\n").unwrap();
    assert_eq!(docs, vec!["mary ann".to_string()]);
}

#[test]
fn text_without_documents_is_refused() {
    assert_eq!(docs_from_text(""), None);
    assert_eq!(docs_from_text("\n \r\n\t\n"), None);
}

#[test]
fn last_line_needs_no_line_ending() {
    assert_eq!(docs_from_text("ab\ncd"), Some(vec!["ab".to_string(), "cd".to_string()]));
    assert_eq!(docs_from_text("ab\ncd\n"), Some(vec!["ab".to_string(), "cd".to_string()]));
}

#[test]
fn prepared_dataset_is_a_shuffle_of_the_docs() {
    let names = ["ava", "ben", "cora", "dan", "eve", "finn", "gus", "hana", "ivy", "jon", "kai", "lea"];
    let text = names.join("\n");
    let mut rng = StdRng::seed_from_u64(42);
    let (docs, tok) = prepare_dataset(&text, &mut rng).unwrap();
    let mut sorted = docs.clone();
    sorted.sort();
    let mut expected: Vec<String> = names.iter().map(|s| s.to_string()).collect();
    expected.sort();
    assert_eq!(sorted, expected);
    // The order changed: twelve names are hardly left in place by a seeded shuffle.
    let given_order: Vec<String> = names.iter().map(|s| s.to_string()).collect();
    assert_ne!(docs, given_order);
    // The tokenizer covers exactly the characters of the documents.
    let fresh = Tokenizer::from_docs(&given_order);
    assert_eq!(tok.vocab_size(), fresh.vocab_size());
    for id in 0..tok.vocab_size() {
        assert_eq!(tok.decode(id), fresh.decode(id));
    }
    // Every document can be turned into examples with this tokenizer.
    for doc in &docs {
        let ex = make_examples(doc, &tok);
        assert_eq!(ex.len(), doc.chars().count() + 1);
    }
}

#[test]
fn prepared_dataset_refuses_empty_text() {
    let mut rng = StdRng::seed_from_u64(1);
    assert!(prepare_dataset("  \n\n", &mut rng).is_none());
}

#[test]
fn whitespace_test_agrees_with_std_on_every_char() {
    for u in 0..=0x10FFFFu32 {
        if let Some(c) = char::from_u32(u) {
            assert_eq!(rustynet::text::char_is_whitespace(c), c.is_whitespace(), "U+{u:04X}");
        }
    }
}

#[test]
fn unicode_spaces_are_trimmed() {
    let docs = docs_from_text("\u{3000}emma\u{A0}\n\u{200B}olivia\u{2029}").unwrap();
    assert_eq!(docs, vec!["emma".to_string(), "\u{200B}olivia".to_string()]);
}
