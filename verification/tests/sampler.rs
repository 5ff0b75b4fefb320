use rustynet::sampler::{NameSampler, MAX_NAME_LEN};
use rustynet::tokenizer::Tokenizer;

fn tok() -> Tokenizer {
    Tokenizer::from_docs(&["abc".to_string()])
}

#[test]
fn starts_with_a_bos_context() {
    let t = tok();
    let s = NameSampler::start(&t, 3);
    assert_eq!(s.context(), &vec![3, 3, 3]);
    assert!(!s.is_finished());
    assert_eq!(s.into_name(), "");
}

#[test]
fn tokens_extend_the_name_and_slide_the_context() {
    let t = tok();
    let mut s = NameSampler::start(&t, 3);
    s.feed(2, &t);
    assert_eq!(s.context(), &vec![3, 3, 2]);
    s.feed(0, &t);
    assert_eq!(s.context(), &vec![3, 2, 0]);
    s.feed(1, &t);
    assert_eq!(s.context(), &vec![2, 0, 1]);
    assert!(!s.is_finished());
    s.feed(t.bos(), &t);
    assert!(s.is_finished());
    assert_eq!(s.context(), &vec![2, 0, 1]);
    assert_eq!(s.into_name(), "cab");
}

#[test]
fn bos_first_gives_an_empty_name() {
    let t = tok();
    let mut s = NameSampler::start(&t, 2);
    s.feed(t.bos(), &t);
    assert!(s.is_finished());
    assert_eq!(s.into_name(), "");
}

#[test]
fn stops_after_the_length_cap() {
    let t = tok();
    let mut s = NameSampler::start(&t, 3);
    let mut fed = 0;
    while !s.is_finished() {
        s.feed(0, &t);
        fed += 1;
    }
    assert_eq!(fed, MAX_NAME_LEN);
    assert_eq!(s.into_name(), "a".repeat(MAX_NAME_LEN));
}

#[test]
fn unknown_token_adds_no_character() {
    let t = tok();
    let mut s = NameSampler::start(&t, 1);
    s.feed(t.bos() + 1, &t);
    assert!(!s.is_finished());
    assert_eq!(s.context(), &vec![t.bos() + 1]);
    s.feed(1, &t);
    assert_eq!(s.into_name(), "b");
}
