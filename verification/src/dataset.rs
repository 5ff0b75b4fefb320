//! Turning documents into training examples.
//!
//! A document (a name) is predicted one token at a time from a fixed window of the previous
//! `BLOCK_SIZE` tokens. The window starts as all-BOS and slides forward one token per example;
//! the final example predicts the terminating BOS.

use rand::rngs::StdRng;
use rand::seq::SliceRandom;
use vstd::prelude::*;

use crate::text::{docs_from_text, parse_docs};
use crate::tokenizer::{
    doc_chars, lemma_decode_token_id, lemma_doc_chars_reorder, lemma_increasing_len_bound, views,
    Tokenizer,
};

verus! {

/// How many previous tokens the model conditions on.
pub const BLOCK_SIZE: usize = 3;

/// The token ids a document is trained to predict: the ids of its characters, then BOS.
pub open spec fn target_ids(t: Tokenizer, doc: Seq<char>) -> Seq<usize> {
    Seq::new(
        (doc.len() + 1) as nat,
        |i: int| if i < doc.len() { t.token_id(doc[i]) as usize } else { t.vocab().len() as usize },
    )
}

/// The context window before predicting `targets[i]`: the last `block` tokens of `block` BOS
/// tokens followed by the first `i` targets.
pub open spec fn context_at(bos: usize, targets: Seq<usize>, i: int, block: nat) -> Seq<usize> {
    (Seq::new(block, |_j: int| bos) + targets.take(i)).subrange(i, i + block)
}

/// The first context window is all BOS.
pub proof fn lemma_first_context(bos: usize, targets: Seq<usize>, block: nat)
    ensures
        context_at(bos, targets, 0, block) == Seq::new(block, |_j: int| bos),
{
    assert(context_at(bos, targets, 0, block) =~= Seq::new(block, |_j: int| bos));
}

/// Each context window is the previous one slid forward by one token: its first token drops
/// out and the previous target comes in at the end.
pub proof fn lemma_context_slides(bos: usize, targets: Seq<usize>, i: int, block: nat)
    requires
        0 <= i < targets.len(),
        block > 0,
    ensures
        context_at(bos, targets, i + 1, block) == context_at(bos, targets, i, block).drop_first().push(targets[i]),
{
    let pre = Seq::new(block, |_j: int| bos);
    assert(pre + targets.take(i + 1) =~= (pre + targets.take(i)).push(targets[i]));
    assert(context_at(bos, targets, i + 1, block) =~= context_at(bos, targets, i, block).drop_first().push(targets[i]));
}

/// Each character of a document is predicted as its own token id (a real token whose vocabulary
/// entry is that character), and the one target after the last character is BOS.
pub proof fn lemma_targets_encode_chars(t: Tokenizer, doc: Seq<char>)
    requires
        t.wf(),
        forall|j: int| 0 <= j < doc.len() ==> t.vocab().contains(#[trigger] doc[j]),
    ensures
        target_ids(t, doc).len() == doc.len() + 1,
        forall|i: int|
            0 <= i < doc.len() ==> {
                &&& (#[trigger] target_ids(t, doc)[i]) < t.vocab().len()
                &&& t.vocab()[target_ids(t, doc)[i] as int] == doc[i]
            },
        target_ids(t, doc)[doc.len() as int] == t.vocab().len(),
{
    lemma_increasing_len_bound(t.vocab());
    assert forall|i: int| 0 <= i < doc.len() implies {
        &&& (#[trigger] target_ids(t, doc)[i]) < t.vocab().len()
        &&& t.vocab()[target_ids(t, doc)[i] as int] == doc[i]
    } by {
        assert(t.vocab().contains(doc[i]));
        lemma_decode_token_id(t, doc[i]);
    }
}

/// Turn one document into `(context, target)` training pairs via a sliding window.
///
/// The context starts as all-BOS and slides forward one character at a time; the model learns to
/// predict each character, and finally the terminating BOS, from the previous `BLOCK_SIZE`
/// tokens.
pub fn make_examples(doc: &str, tokenizer: &Tokenizer) -> (examples: Vec<(Vec<usize>, usize)>)
    requires
        tokenizer.wf(),
        forall|j: int| 0 <= j < doc@.len() ==> tokenizer.vocab().contains(#[trigger] doc@[j]),
    ensures
        examples@.len() == doc@.len() + 1,
        forall|i: int| 0 <= i < examples@.len() ==> {
            &&& (#[trigger] examples@[i]).0@ == context_at(tokenizer.vocab().len() as usize, target_ids(*tokenizer, doc@), i, BLOCK_SIZE as nat)
            &&& examples@[i].1 == target_ids(*tokenizer, doc@)[i]
        },
        forall|i: int|
            0 <= i < doc@.len() ==> {
                &&& (#[trigger] examples@[i]).1 < tokenizer.vocab().len()
                &&& tokenizer.vocab()[examples@[i].1 as int] == doc@[i]
            },
        examples@[doc@.len() as int].1 == tokenizer.vocab().len(),
        examples@[0].0@ == Seq::new(BLOCK_SIZE as nat, |_j: int| tokenizer.vocab().len() as usize),
        forall|i: int|
            0 <= i < doc@.len() ==> examples@[i + 1].0@ == (#[trigger] examples@[i]).0@.drop_first().push(
                examples@[i].1,
            ),
{
    broadcast use vstd::string::axiom_spec_iter;
    let ghost targets = target_ids(*tokenizer, doc@);
    let bos = tokenizer.bos();
    let mut context: Vec<usize> = Vec::new();
    for j in 0..BLOCK_SIZE
        invariant
            context@ == Seq::new(j as nat, |_k: int| bos),
    {
        context.push(bos);
        assert(context@ =~= Seq::new((j + 1) as nat, |_k: int| bos));
    }
    proof {
        lemma_first_context(bos, targets, BLOCK_SIZE as nat);
    }
    let mut examples: Vec<(Vec<usize>, usize)> = Vec::new();
    let chars = doc.chars();
    for ch in it: chars
        invariant
            it.seq() == doc@,
            tokenizer.wf(),
            forall|j: int| 0 <= j < doc@.len() ==> tokenizer.vocab().contains(#[trigger] doc@[j]),
            bos == tokenizer.vocab().len(),
            targets == target_ids(*tokenizer, doc@),
            examples@.len() == it.index(),
            context@ == context_at(bos, targets, it.index(), BLOCK_SIZE as nat),
            forall|i: int| 0 <= i < examples@.len() ==> {
                &&& (#[trigger] examples@[i]).0@ == context_at(bos, targets, i, BLOCK_SIZE as nat)
                &&& examples@[i].1 == targets[i]
            },
    {
        let ghost i = it.index();
        assert(ch == doc@[i]);
        let target = tokenizer.encode(ch);
        let snapshot = context.clone();
        assert(snapshot@ =~= context@);
        examples.push((snapshot, target));
        context.remove(0);
        context.push(target);
        proof {
            lemma_context_slides(bos, targets, i, BLOCK_SIZE as nat);
        }
    }
    let snapshot = context.clone();
    assert(snapshot@ =~= context@);
    examples.push((snapshot, bos));
    proof {
        lemma_targets_encode_chars(*tokenizer, doc@);
        assert forall|i: int| 0 <= i < doc@.len() implies examples@[i + 1].0@ == (
        #[trigger] examples@[i]).0@.drop_first().push(examples@[i].1) by {
            lemma_context_slides(bos, targets, i, BLOCK_SIZE as nat);
        }
    }
    examples
}

/// Declares rand's `StdRng`, the generator that shuffles the dataset, so that it can be passed
/// through; nothing about its contents is assumed.
#[verifier::external_type_specification]
#[verifier::external_body]
pub struct ExStdRng(StdRng);

/// Calls rand's `SliceRandom::shuffle`, a Fisher-Yates shuffle that only swaps elements. The
/// contract claims that the result holds the same strings, each as many times as before; which
/// order comes out depends on the generator and is left open.
#[verifier::external_body]
fn shuffle_docs(docs: &mut Vec<String>, rng: &mut StdRng)
    ensures
        views(final(docs)@).to_multiset() == views(old(docs)@).to_multiset(),
{
    docs.shuffle(rng)
}

/// Read the documents of a dataset text (see `docs_from_text`), shuffle them, and build the
/// tokenizer over their characters. Returns `None` when the text holds no document.
pub fn prepare_dataset(text: &str, rng: &mut StdRng) -> (r: Option<(Vec<String>, Tokenizer)>)
    ensures
        r is None <==> parse_docs(text@).len() == 0,
        r matches Some((docs, t)) ==> {
            &&& views(docs@).to_multiset() == parse_docs(text@).to_multiset()
            &&& t.wf()
            &&& t.vocab().to_set() == doc_chars(parse_docs(text@))
        },
{
    match docs_from_text(text) {
        None => None,
        Some(docs) => {
            let mut docs = docs;
            shuffle_docs(&mut docs, rng);
            let t = Tokenizer::from_docs(&docs);
            proof {
                lemma_doc_chars_reorder(views(docs@), parse_docs(text@));
            }
            Some((docs, t))
        },
    }
}

/// Every character of every document is in a vocabulary built over those documents, so each
/// document can be turned into examples.
pub proof fn lemma_docs_in_vocab(t: Tokenizer, docs: Seq<Seq<char>>)
    requires
        t.vocab().to_set() == doc_chars(docs),
    ensures
        forall|i: int, j: int| 0 <= i < docs.len() && 0 <= j < docs[i].len() ==> t.vocab().contains(#[trigger] docs[i][j]),
{
    assert forall|i: int, j: int| 0 <= i < docs.len() && 0 <= j < docs[i].len() implies t.vocab().contains(#[trigger] docs[i][j]) by {
        assert(doc_chars(docs).contains(docs[i][j]));
        assert(t.vocab().to_set().contains(docs[i][j]));
    }
}

} // verus!
