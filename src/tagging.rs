use vstd::prelude::*;

verus! {

/// The characters of `s` before the first `c` (all of `s` when there is none).
pub open spec fn before_first(s: Seq<char>, c: char) -> Seq<char>
    decreases s.len(),
{
    if s.len() == 0 || s[0] == c {
        Seq::empty()
    } else {
        seq![s[0]] + before_first(s.drop_first(), c)
    }
}

/// The characters of `s` after the first `c` (empty when there is none).
pub open spec fn after_first(s: Seq<char>, c: char) -> Seq<char>
    decreases s.len(),
{
    if s.len() == 0 {
        Seq::empty()
    } else if s[0] == c {
        s.drop_first()
    } else {
        after_first(s.drop_first(), c)
    }
}

/// ASCII whitespace: space, tab, line feed, form feed and carriage return.
pub open spec fn is_ascii_space(c: char) -> bool {
    c == ' ' || c == '\t' || c == '\n' || c == '\x0C' || c == '\r'
}

/// The maximal runs of characters other than ASCII whitespace in `s`, in order.
pub open spec fn ascii_words_of(s: Seq<char>) -> Seq<Seq<char>>
    decreases s.len(),
{
    if s.len() == 0 {
        Seq::empty()
    } else {
        let words = ascii_words_of(s.drop_last());
        let c = s.last();
        if is_ascii_space(c) {
            words
        } else if s.len() >= 2 && !is_ascii_space(s[s.len() - 2]) {
            words.update(words.len() - 1, words.last().push(c))
        } else {
            words.push(seq![c])
        }
    }
}

/// Relies on `str::split_once`: the text before and after the first `c`,
/// or `None` when `c` does not occur.
#[verifier::external_body]
fn split_once(s: &str, c: char) -> (r: Option<(String, String)>)
    ensures
        r is Some <==> s@.contains(c),
        r matches Some((a, b)) ==> a@ == before_first(s@, c) && b@ == after_first(s@, c),
{
    s.split_once(c).map(|(a, b)| (a.to_string(), b.to_string()))
}

/// Relies on `str::split_ascii_whitespace`: the tokens in order.
#[verifier::external_body]
fn split_ascii_whitespace(s: &str) -> (r: Vec<String>)
    ensures
        r.len() == ascii_words_of(s@).len(),
        forall|i: int| 0 <= i < r.len() ==> #[trigger] r[i]@ == ascii_words_of(s@)[i],
{
    s.split_ascii_whitespace().map(|w| w.to_string()).collect()
}

/// A part-of-speech tag.
#[derive(Debug, PartialEq, Eq, Hash)]
pub struct Tag {
    pub tag: String,
}

/// A word with its tag, read from `word/tag`.
#[derive(Debug)]
pub struct TaggedWord {
    pub word: String,
    pub tag: Tag,
}

/// The tagged words of one line.
#[derive(Debug)]
pub struct TaggedSentence {
    pub words: Vec<TaggedWord>,
}

impl TaggedWord {
    /// Reads `word/tag`: the word is the text before the first `/`, the tag the
    /// text after it up to the next `/`.
    pub fn new(word: &str) -> (r: TaggedWord)
        requires
            word@.contains('/'),
        ensures
            r.word@ == before_first(word@, '/'),
            r.tag.tag@ == before_first(after_first(word@, '/'), '/'),
    {
        match split_once(word, '/') {
            Some((w, rest)) => {
                let tag = match split_once(rest.as_str(), '/') {
                    Some((t, _)) => t,
                    None => {
                        proof {
                            lemma_before_first_absent(rest@, '/');
                        }
                        rest
                    },
                };
                TaggedWord { word: w, tag: Tag { tag } }
            },
            None => {
                proof {
                    assert(false);
                }
                TaggedWord { word: String::new(), tag: Tag { tag: String::new() } }
            },
        }
    }
}

/// Without `c`, the text before the first `c` is the whole text.
proof fn lemma_before_first_absent(s: Seq<char>, c: char)
    requires
        !s.contains(c),
    ensures
        before_first(s, c) == s,
    decreases s.len(),
{
    if s.len() > 0 {
        assert(!s.drop_first().contains(c)) by {
            if s.drop_first().contains(c) {
                let k = choose|k: int| 0 <= k < s.drop_first().len() && s.drop_first()[k] == c;
                assert(s[k + 1] == c);
            }
        }
        assert(s[0] != c);
        lemma_before_first_absent(s.drop_first(), c);
        assert(seq![s[0]] + s.drop_first() =~= s);
    }
}

impl TaggedSentence {
    /// Reads a line of `word/tag` tokens separated by ASCII whitespace, or
    /// returns `None` when a token has no `/`.
    pub fn new(line: &str) -> (r: Option<TaggedSentence>)
        ensures
            r is Some <==> forall|i: int|
                0 <= i < ascii_words_of(line@).len() ==> (#[trigger] ascii_words_of(line@)[i]).contains('/'),
            r matches Some(s) ==> s.words.len() == ascii_words_of(line@).len() && forall|i: int|
                0 <= i < s.words.len() ==> (#[trigger] s.words[i]).word@ == before_first(
                    ascii_words_of(line@)[i],
                    '/',
                ) && s.words[i].tag.tag@ == before_first(after_first(ascii_words_of(line@)[i], '/'), '/'),
    {
        let tokens = split_ascii_whitespace(line);
        let mut words: Vec<TaggedWord> = Vec::new();
        let mut i: usize = 0;
        while i < tokens.len()
            invariant
                i <= tokens.len(),
                tokens.len() == ascii_words_of(line@).len(),
                forall|k: int| 0 <= k < tokens.len() ==> #[trigger] tokens[k]@ == ascii_words_of(line@)[k],
                words.len() == i,
                forall|k: int| 0 <= k < i ==> (#[trigger] ascii_words_of(line@)[k]).contains('/'),
                forall|k: int|
                    0 <= k < i ==> (#[trigger] words[k]).word@ == before_first(ascii_words_of(line@)[k], '/')
                        && words[k].tag.tag@ == before_first(after_first(ascii_words_of(line@)[k], '/'), '/'),
            decreases tokens.len() - i,
        {
            let token = tokens[i].as_str();
            if !contains_slash(token) {
                assert(!ascii_words_of(line@)[i as int].contains('/'));
                return None;
            }
            words.push(TaggedWord::new(token));
            i = i + 1;
        }
        Some(TaggedSentence { words })
    }
}

/// Whether `s` holds a `/`.
fn contains_slash(s: &str) -> (r: bool)
    ensures
        r == s@.contains('/'),
{
    split_once(s, '/').is_some()
}

} // verus!
