use ecm_factor::tagging::{TaggedSentence, TaggedWord};

#[test]
fn tagged_word_splits_at_slash() {
    let w = TaggedWord::new("The/at");
    assert_eq!(w.word, "The");
    assert_eq!(w.tag.tag, "at");
}

#[test]
fn tagged_word_keeps_second_field_only() {
    let w = TaggedWord::new("a/b/c");
    assert_eq!(w.word, "a");
    assert_eq!(w.tag.tag, "b");
    let e = TaggedWord::new("/nn");
    assert_eq!(e.word, "");
    assert_eq!(e.tag.tag, "nn");
}

#[test]
fn tagged_sentence_reads_tokens() {
    let s = TaggedSentence::new("  The/at Fulton/np-tl\tCounty/nn-tl ./.  ").unwrap();
    let words: Vec<(&str, &str)> = s.words.iter().map(|w| (w.word.as_str(), w.tag.tag.as_str())).collect();
    assert_eq!(words, vec![("The", "at"), ("Fulton", "np-tl"), ("County", "nn-tl"), (".", ".")]);
    assert_eq!(TaggedSentence::new("").unwrap().words.len(), 0);
}

#[test]
fn tagged_sentence_rejects_token_without_tag() {
    assert!(TaggedSentence::new("The/at Fulton County/nn").is_none());
}
