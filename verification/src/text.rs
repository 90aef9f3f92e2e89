//! Text preprocessing: sentence splitting, word normalisation and vocabulary building.
use unicode_normalization::UnicodeNormalization;
use vstd::hash_map::StringHashMap;
use vstd::prelude::*;

use crate::chars::{
    char_is_alphanumeric, char_is_whitespace, chars_of, has_prefix, is_alnum, is_ascii_digit,
    is_ascii_char, is_ascii_chars, is_ascii_digit_exec, is_ascii_upper, is_space, lowercase,
    split_whitespace_chars,
    str_eq, str_to_lowercase, string_of, trim, trim_chars, ws_split, chars_start_with,
};

verus! {

// ---------------------------------------------------------------------------
// Unicode normalisation
// ---------------------------------------------------------------------------

/// The Unicode canonical composition (NFC) of a string.
pub uninterp spec fn nfc(s: Seq<char>) -> Seq<char>;

/// The NFC form of a text: the text itself when it is ASCII.
pub open spec fn normalized(s: Seq<char>) -> Seq<char> {
    if is_ascii_chars(s) {
        s
    } else {
        nfc(s)
    }
}

/// `UnicodeNormalization::nfc` of the unicode-normalization crate, collected
/// into a `String`: the result is the NFC form of the argument, a function of
/// the argument alone. ASCII text is left as it is: no ASCII character has a
/// canonical decomposition, and no pair of ASCII characters composes.
#[verifier::external_body]
fn nfc_string(s: &str) -> (r: String)
    ensures
        r@ == nfc(s@),
        is_ascii_chars(s@) ==> r@ == s@,
{
    s.nfc().collect::<String>()
}

// ---------------------------------------------------------------------------
// Vocabulary
// ---------------------------------------------------------------------------

/// All words of the sentences, in reading order.
pub open spec fn all_words(sentences: Seq<Seq<Seq<char>>>) -> Seq<Seq<char>>
    decreases sentences.len(),
{
    if sentences.len() == 0 {
        seq![]
    } else {
        all_words(sentences.drop_last()) + sentences.last()
    }
}

/// The distinct words in the order of their first occurrence.
pub open spec fn first_occurrences(words: Seq<Seq<char>>) -> Seq<Seq<char>>
    decreases words.len(),
{
    if words.len() == 0 {
        seq![]
    } else {
        let prev = first_occurrences(words.drop_last());
        if prev.contains(words.last()) {
            prev
        } else {
            prev.push(words.last())
        }
    }
}

/// `ids` maps each word of `words` to its position and holds nothing else.
pub open spec fn is_index_of(ids: Map<Seq<char>, usize>, words: Seq<Seq<char>>) -> bool {
    &&& ids.dom() == words.to_set()
    &&& forall|i: int| 0 <= i < words.len() ==> ids[#[trigger] words[i]] == i
}

/// Builds the vocabulary map and its reverse lookup from tokenized sentences.
///
/// The reverse vocabulary lists the distinct words in the order of their
/// first occurrence; the map sends each of them to its position.
pub fn build_vocab(sentences: &[Vec<String>]) -> (res: (StringHashMap<usize>, Vec<String>))
    ensures
        res.1.deep_view() == first_occurrences(all_words(sentences.deep_view())),
        is_index_of(res.0@, res.1.deep_view()),
{
    let mut vocab: StringHashMap<usize> = StringHashMap::new();
    let mut reverse_vocab: Vec<String> = Vec::new();
    let mut vocab_counter: usize = 0;
    let ghost sv = sentences.deep_view();
    assert(reverse_vocab.deep_view() =~= Seq::<Seq<char>>::empty());
    assert(vocab@.dom() =~= reverse_vocab.deep_view().to_set());
    let mut i: usize = 0;
    while i < sentences.len()
        invariant
            i <= sentences.len(),
            sv == sentences.deep_view(),
            vocab_counter == reverse_vocab.len(),
            reverse_vocab.deep_view() == first_occurrences(all_words(sv.take(i as int))),
            is_index_of(vocab@, reverse_vocab.deep_view()),
        decreases sentences.len() - i,
    {
        let sentence = &sentences[i];
        assert(sv.take(i + 1).drop_last() =~= sv.take(i as int));
        assert(sv[i as int] == sentence.deep_view());
        let ghost before = all_words(sv.take(i as int));
        assert(before + sentence.deep_view().take(0) =~= before);
        let mut j: usize = 0;
        while j < sentence.len()
            invariant
                i < sentences.len(),
                j <= sentence.len(),
                sv == sentences.deep_view(),
                sentence.deep_view() == sv[i as int],
                vocab_counter == reverse_vocab.len(),
                reverse_vocab.deep_view() == first_occurrences(
                    before + sentence.deep_view().take(j as int),
                ),
                is_index_of(vocab@, reverse_vocab.deep_view()),
            decreases sentence.len() - j,
        {
            let word = &sentence[j];
            let ghost prefix = before + sentence.deep_view().take(j as int);
            assert((before + sentence.deep_view().take(j + 1)).drop_last() =~= prefix);
            assert((before + sentence.deep_view().take(j + 1)).last() == word@);
            let ghost rv = reverse_vocab.deep_view();
            if !vocab.contains_key(word.as_str()) {
                assert(!rv.contains(word@)) by {
                    if rv.contains(word@) {
                        assert(rv.to_set().contains(word@));
                    }
                }
                let ghost old_ids = vocab@;
                vocab.insert(word.clone(), vocab_counter);
                reverse_vocab.push(word.clone());
                vocab_counter = reverse_vocab.len();
                assert(reverse_vocab.deep_view() =~= rv.push(word@));
                proof { rv.lemma_push_to_set_commute(word@); }
                assert(vocab@.dom() =~= reverse_vocab.deep_view().to_set());
                assert forall|k: int|
                    0 <= k < reverse_vocab.deep_view().len() implies vocab@[
                    #[trigger] reverse_vocab.deep_view()[k]] == k by {
                    if k < rv.len() {
                        assert(reverse_vocab.deep_view()[k] == rv[k]);
                        assert(rv[k] != word@);
                    }
                }
            } else {
                assert(rv.contains(word@)) by {
                    assert(rv.to_set().contains(word@));
                }
            }
            j = j + 1;
        }
        assert(sentence.deep_view().take(j as int) =~= sentence.deep_view());
        assert(all_words(sv.take(i + 1)) == before + sv[i as int]);
        i = i + 1;
    }
    assert(sv.take(i as int) =~= sv);
    (vocab, reverse_vocab)
}

/// Each word occurs once in its first-occurrence list.
pub proof fn lemma_first_occurrences_distinct(words: Seq<Seq<char>>)
    ensures
        first_occurrences(words).no_duplicates(),
    decreases words.len(),
{
    if words.len() > 0 {
        lemma_first_occurrences_distinct(words.drop_last());
    }
}

/// A word occurs in the first-occurrence list exactly when it occurs in the text.
pub proof fn lemma_first_occurrences_members(words: Seq<Seq<char>>, w: Seq<char>)
    ensures
        first_occurrences(words).contains(w) <==> words.contains(w),
    decreases words.len(),
{
    if words.len() > 0 {
        let d = words.drop_last();
        let l = words.last();
        lemma_first_occurrences_members(d, w);
        lemma_first_occurrences_members(d, l);
        assert(words =~= d.push(l));
        vstd::seq_lib::lemma_seq_contains_after_push(d, l, w);
        vstd::seq_lib::lemma_seq_contains_after_push(first_occurrences(d), l, w);
    }
}

/// Vocabulary law: every word of the sentences has an id below the vocabulary
/// size, and the reverse vocabulary gives the word back for that id; the
/// reverse vocabulary lists no word twice.
pub proof fn lemma_vocab_roundtrip(
    sentences: Seq<Seq<Seq<char>>>,
    ids: Map<Seq<char>, usize>,
    rev: Seq<Seq<char>>,
    w: Seq<char>,
)
    requires
        rev == first_occurrences(all_words(sentences)),
        is_index_of(ids, rev),
        all_words(sentences).contains(w),
    ensures
        ids.contains_key(w),
        ids[w] < rev.len(),
        rev[ids[w] as int] == w,
        rev.no_duplicates(),
{
    lemma_first_occurrences_members(all_words(sentences), w);
    lemma_first_occurrences_distinct(all_words(sentences));
    let k = choose|k: int| 0 <= k < rev.len() && rev[k] == w;
    assert(rev.to_set().contains(w));
    assert(ids[rev[k]] == k);
}

// ---------------------------------------------------------------------------
// Text processing
// ---------------------------------------------------------------------------

/// Configurable text preprocessing pipeline.
///
/// Controls lowercasing, punctuation removal, HTML stripping,
/// URL removal, contraction expansion, and stop-word filtering.
#[derive(Debug, Clone)]
pub struct TextProcessor {
    pub lowercase: bool,
    pub remove_punctuation: bool,
    pub remove_numbers: bool,
    pub remove_stop_words: bool,
    pub remove_html: bool,
    pub remove_urls: bool,
    pub expand_contractions: bool,
    pub normalize_unicode: bool,
    pub language: String,
}

/// The switches of a [`TextProcessor`] that decide what its pipeline does.
pub struct TextFilters {
    pub lowercase: bool,
    pub remove_punctuation: bool,
    pub remove_numbers: bool,
    pub remove_stop_words: bool,
    pub remove_html: bool,
    pub remove_urls: bool,
    pub expand_contractions: bool,
}

impl Default for TextProcessor {
    fn default() -> (p: Self)
        ensures
            p.filters() == TextFilters::standard(),
            !p.normalize_unicode,
            p.language@ == "en"@,
    {
        Self {
            lowercase: true,
            remove_punctuation: true,
            remove_numbers: false,
            remove_stop_words: false,
            remove_html: false,
            remove_urls: false,
            expand_contractions: false,
            normalize_unicode: false,
            language: "en".to_owned(),
        }
    }
}

/// The separators between sentences.
pub open spec fn is_sentence_break(c: char) -> bool {
    c == '.' || c == '!' || c == '?' || c == '\n'
}

/// State of a left-to-right split at sentence breaks: the finished pieces
/// and the piece being read.
pub open spec fn break_split_state(s: Seq<char>) -> (Seq<Seq<char>>, Seq<char>)
    decreases s.len(),
{
    if s.len() == 0 {
        (seq![], seq![])
    } else {
        let (done, cur) = break_split_state(s.drop_last());
        if is_sentence_break(s.last()) {
            (done.push(cur), seq![])
        } else {
            (done, cur.push(s.last()))
        }
    }
}

/// `str::split` at sentence breaks: the pieces between the breaks,
/// empty ones included.
pub open spec fn sentence_pieces(s: Seq<char>) -> Seq<Seq<char>> {
    break_split_state(s).0.push(break_split_state(s).1)
}

/// The expansion of a lowercase contraction, if it is one the pipeline knows.
pub open spec fn contraction_expansion(w: Seq<char>) -> Option<Seq<char>> {
    if w == "can't"@ {
        Some("cannot"@)
    } else if w == "won't"@ {
        Some("will not"@)
    } else if w == "n't"@ {
        Some(" not"@)
    } else if w == "'re"@ {
        Some(" are"@)
    } else if w == "'ve"@ {
        Some(" have"@)
    } else if w == "'ll"@ {
        Some(" will"@)
    } else if w == "'d"@ {
        Some(" would"@)
    } else if w == "'m"@ {
        Some(" am"@)
    } else if w == "i'm"@ {
        Some("i am"@)
    } else if w == "don't"@ {
        Some("do not"@)
    } else if w == "doesn't"@ {
        Some("does not"@)
    } else if w == "didn't"@ {
        Some("did not"@)
    } else if w == "isn't"@ {
        Some("is not"@)
    } else if w == "aren't"@ {
        Some("are not"@)
    } else if w == "wasn't"@ {
        Some("was not"@)
    } else if w == "weren't"@ {
        Some("were not"@)
    } else if w == "haven't"@ {
        Some("have not"@)
    } else if w == "hasn't"@ {
        Some("has not"@)
    } else if w == "hadn't"@ {
        Some("had not"@)
    } else if w == "wouldn't"@ {
        Some("would not"@)
    } else if w == "couldn't"@ {
        Some("could not"@)
    } else if w == "shouldn't"@ {
        Some("should not"@)
    } else if w == "let's"@ {
        Some("let us"@)
    } else if w == "that's"@ {
        Some("that is"@)
    } else if w == "who's"@ {
        Some("who is"@)
    } else if w == "what's"@ {
        Some("what is"@)
    } else if w == "here's"@ {
        Some("here is"@)
    } else if w == "there's"@ {
        Some("there is"@)
    } else if w == "where's"@ {
        Some("where is"@)
    } else if w == "it's"@ {
        Some("it is"@)
    } else {
        None
    }
}

/// A word with a known contraction (matched case-insensitively) expanded;
/// any other word unchanged.
pub open spec fn expand_contraction_spec(w: Seq<char>) -> Seq<char> {
    match contraction_expansion(lowercase(w)) {
        Some(e) => e,
        None => w,
    }
}

/// No character of the text is an apostrophe.
pub open spec fn no_apostrophe(s: Seq<char>) -> bool {
    forall|i: int| 0 <= i < s.len() ==> s[i] != '\''
}

/// Every contraction the pipeline knows holds an apostrophe.
proof fn lemma_contractions_have_apostrophe(x: Seq<char>)
    ensures
        contraction_expansion(x) is Some ==> !no_apostrophe(x),
{
    reveal_strlit("can't");
    reveal_strlit("won't");
    reveal_strlit("n't");
    reveal_strlit("'re");
    reveal_strlit("'ve");
    reveal_strlit("'ll");
    reveal_strlit("'d");
    reveal_strlit("'m");
    reveal_strlit("i'm");
    reveal_strlit("don't");
    reveal_strlit("doesn't");
    reveal_strlit("didn't");
    reveal_strlit("isn't");
    reveal_strlit("aren't");
    reveal_strlit("wasn't");
    reveal_strlit("weren't");
    reveal_strlit("haven't");
    reveal_strlit("hasn't");
    reveal_strlit("hadn't");
    reveal_strlit("wouldn't");
    reveal_strlit("couldn't");
    reveal_strlit("shouldn't");
    reveal_strlit("let's");
    reveal_strlit("that's");
    reveal_strlit("who's");
    reveal_strlit("what's");
    reveal_strlit("here's");
    reveal_strlit("there's");
    reveal_strlit("where's");
    reveal_strlit("it's");
    if x == "can't"@ {
        assert(x[3] == '\'');
    } else if x == "won't"@ {
        assert(x[3] == '\'');
    } else if x == "n't"@ {
        assert(x[1] == '\'');
    } else if x == "'re"@ {
        assert(x[0] == '\'');
    } else if x == "'ve"@ {
        assert(x[0] == '\'');
    } else if x == "'ll"@ {
        assert(x[0] == '\'');
    } else if x == "'d"@ {
        assert(x[0] == '\'');
    } else if x == "'m"@ {
        assert(x[0] == '\'');
    } else if x == "i'm"@ {
        assert(x[1] == '\'');
    } else if x == "don't"@ {
        assert(x[3] == '\'');
    } else if x == "doesn't"@ {
        assert(x[5] == '\'');
    } else if x == "didn't"@ {
        assert(x[4] == '\'');
    } else if x == "isn't"@ {
        assert(x[3] == '\'');
    } else if x == "aren't"@ {
        assert(x[4] == '\'');
    } else if x == "wasn't"@ {
        assert(x[4] == '\'');
    } else if x == "weren't"@ {
        assert(x[5] == '\'');
    } else if x == "haven't"@ {
        assert(x[5] == '\'');
    } else if x == "hasn't"@ {
        assert(x[4] == '\'');
    } else if x == "hadn't"@ {
        assert(x[4] == '\'');
    } else if x == "wouldn't"@ {
        assert(x[6] == '\'');
    } else if x == "couldn't"@ {
        assert(x[6] == '\'');
    } else if x == "shouldn't"@ {
        assert(x[7] == '\'');
    } else if x == "let's"@ {
        assert(x[3] == '\'');
    } else if x == "that's"@ {
        assert(x[4] == '\'');
    } else if x == "who's"@ {
        assert(x[3] == '\'');
    } else if x == "what's"@ {
        assert(x[4] == '\'');
    } else if x == "here's"@ {
        assert(x[4] == '\'');
    } else if x == "there's"@ {
        assert(x[5] == '\'');
    } else if x == "where's"@ {
        assert(x[5] == '\'');
    } else if x == "it's"@ {
        assert(x[2] == '\'');
    }
}

/// Every expansion is ASCII, already lowercase, and holds no apostrophe.
proof fn lemma_expansion_facts(x: Seq<char>)
    ensures
        contraction_expansion(x) matches Some(e) ==> is_ascii_chars(e) && lowercase(e) == e
            && no_apostrophe(e),
{
    reveal_strlit(" am");
    reveal_strlit(" are");
    reveal_strlit(" have");
    reveal_strlit(" not");
    reveal_strlit(" will");
    reveal_strlit(" would");
    reveal_strlit("are not");
    reveal_strlit("cannot");
    reveal_strlit("could not");
    reveal_strlit("did not");
    reveal_strlit("do not");
    reveal_strlit("does not");
    reveal_strlit("had not");
    reveal_strlit("has not");
    reveal_strlit("have not");
    reveal_strlit("here is");
    reveal_strlit("i am");
    reveal_strlit("is not");
    reveal_strlit("it is");
    reveal_strlit("let us");
    reveal_strlit("should not");
    reveal_strlit("that is");
    reveal_strlit("there is");
    reveal_strlit("was not");
    reveal_strlit("were not");
    reveal_strlit("what is");
    reveal_strlit("where is");
    reveal_strlit("who is");
    reveal_strlit("will not");
    reveal_strlit("would not");
    if x == "can't"@ {
        assert(is_ascii_chars("cannot"@));
        assert(lowercase("cannot"@) == "cannot"@);
        assert(no_apostrophe("cannot"@));
    } else if x == "won't"@ {
        assert(is_ascii_chars("will not"@));
        assert(lowercase("will not"@) == "will not"@);
        assert(no_apostrophe("will not"@));
    } else if x == "n't"@ {
        assert(is_ascii_chars(" not"@));
        assert(lowercase(" not"@) == " not"@);
        assert(no_apostrophe(" not"@));
    } else if x == "'re"@ {
        assert(is_ascii_chars(" are"@));
        assert(lowercase(" are"@) == " are"@);
        assert(no_apostrophe(" are"@));
    } else if x == "'ve"@ {
        assert(is_ascii_chars(" have"@));
        assert(lowercase(" have"@) == " have"@);
        assert(no_apostrophe(" have"@));
    } else if x == "'ll"@ {
        assert(is_ascii_chars(" will"@));
        assert(lowercase(" will"@) == " will"@);
        assert(no_apostrophe(" will"@));
    } else if x == "'d"@ {
        assert(is_ascii_chars(" would"@));
        assert(lowercase(" would"@) == " would"@);
        assert(no_apostrophe(" would"@));
    } else if x == "'m"@ {
        assert(is_ascii_chars(" am"@));
        assert(lowercase(" am"@) == " am"@);
        assert(no_apostrophe(" am"@));
    } else if x == "i'm"@ {
        assert(is_ascii_chars("i am"@));
        assert(lowercase("i am"@) == "i am"@);
        assert(no_apostrophe("i am"@));
    } else if x == "don't"@ {
        assert(is_ascii_chars("do not"@));
        assert(lowercase("do not"@) == "do not"@);
        assert(no_apostrophe("do not"@));
    } else if x == "doesn't"@ {
        assert(is_ascii_chars("does not"@));
        assert(lowercase("does not"@) == "does not"@);
        assert(no_apostrophe("does not"@));
    } else if x == "didn't"@ {
        assert(is_ascii_chars("did not"@));
        assert(lowercase("did not"@) == "did not"@);
        assert(no_apostrophe("did not"@));
    } else if x == "isn't"@ {
        assert(is_ascii_chars("is not"@));
        assert(lowercase("is not"@) == "is not"@);
        assert(no_apostrophe("is not"@));
    } else if x == "aren't"@ {
        assert(is_ascii_chars("are not"@));
        assert(lowercase("are not"@) == "are not"@);
        assert(no_apostrophe("are not"@));
    } else if x == "wasn't"@ {
        assert(is_ascii_chars("was not"@));
        assert(lowercase("was not"@) == "was not"@);
        assert(no_apostrophe("was not"@));
    } else if x == "weren't"@ {
        assert(is_ascii_chars("were not"@));
        assert(lowercase("were not"@) == "were not"@);
        assert(no_apostrophe("were not"@));
    } else if x == "haven't"@ {
        assert(is_ascii_chars("have not"@));
        assert(lowercase("have not"@) == "have not"@);
        assert(no_apostrophe("have not"@));
    } else if x == "hasn't"@ {
        assert(is_ascii_chars("has not"@));
        assert(lowercase("has not"@) == "has not"@);
        assert(no_apostrophe("has not"@));
    } else if x == "hadn't"@ {
        assert(is_ascii_chars("had not"@));
        assert(lowercase("had not"@) == "had not"@);
        assert(no_apostrophe("had not"@));
    } else if x == "wouldn't"@ {
        assert(is_ascii_chars("would not"@));
        assert(lowercase("would not"@) == "would not"@);
        assert(no_apostrophe("would not"@));
    } else if x == "couldn't"@ {
        assert(is_ascii_chars("could not"@));
        assert(lowercase("could not"@) == "could not"@);
        assert(no_apostrophe("could not"@));
    } else if x == "shouldn't"@ {
        assert(is_ascii_chars("should not"@));
        assert(lowercase("should not"@) == "should not"@);
        assert(no_apostrophe("should not"@));
    } else if x == "let's"@ {
        assert(is_ascii_chars("let us"@));
        assert(lowercase("let us"@) == "let us"@);
        assert(no_apostrophe("let us"@));
    } else if x == "that's"@ {
        assert(is_ascii_chars("that is"@));
        assert(lowercase("that is"@) == "that is"@);
        assert(no_apostrophe("that is"@));
    } else if x == "who's"@ {
        assert(is_ascii_chars("who is"@));
        assert(lowercase("who is"@) == "who is"@);
        assert(no_apostrophe("who is"@));
    } else if x == "what's"@ {
        assert(is_ascii_chars("what is"@));
        assert(lowercase("what is"@) == "what is"@);
        assert(no_apostrophe("what is"@));
    } else if x == "here's"@ {
        assert(is_ascii_chars("here is"@));
        assert(lowercase("here is"@) == "here is"@);
        assert(no_apostrophe("here is"@));
    } else if x == "there's"@ {
        assert(is_ascii_chars("there is"@));
        assert(lowercase("there is"@) == "there is"@);
        assert(no_apostrophe("there is"@));
    } else if x == "where's"@ {
        assert(is_ascii_chars("where is"@));
        assert(lowercase("where is"@) == "where is"@);
        assert(no_apostrophe("where is"@));
    } else if x == "it's"@ {
        assert(is_ascii_chars("it is"@));
        assert(lowercase("it is"@) == "it is"@);
        assert(no_apostrophe("it is"@));
    }
}

/// Expanding contractions twice changes nothing more than expanding once:
/// no expansion is itself a contraction the pipeline knows.
pub proof fn lemma_expand_contraction_idempotent(w: Seq<char>)
    ensures
        expand_contraction_spec(expand_contraction_spec(w)) == expand_contraction_spec(w),
{
    if contraction_expansion(lowercase(w)) is Some {
        let e = contraction_expansion(lowercase(w))->Some_0;
        lemma_expansion_facts(lowercase(w));
        lemma_contractions_have_apostrophe(lowercase(e));
    }
}

/// The characters that survive punctuation removal: letters, digits, whitespace.
pub open spec fn keep_word_chars(s: Seq<char>) -> Seq<char>
    decreases s.len(),
{
    if s.len() == 0 {
        seq![]
    } else if is_alnum(s.last()) || is_space(s.last()) {
        keep_word_chars(s.drop_last()).push(s.last())
    } else {
        keep_word_chars(s.drop_last())
    }
}

/// The characters that are not ASCII digits.
pub open spec fn drop_ascii_digits(s: Seq<char>) -> Seq<char>
    decreases s.len(),
{
    if s.len() == 0 {
        seq![]
    } else if !is_ascii_digit(s.last()) {
        drop_ascii_digits(s.drop_last()).push(s.last())
    } else {
        drop_ascii_digits(s.drop_last())
    }
}

/// Left-to-right state of HTML tag stripping: the kept text and whether a tag is open.
pub open spec fn html_strip_state(s: Seq<char>) -> (Seq<char>, bool)
    decreases s.len(),
{
    if s.len() == 0 {
        (seq![], false)
    } else {
        let (out, in_tag) = html_strip_state(s.drop_last());
        let c = s.last();
        if c == '<' {
            (out, true)
        } else if c == '>' {
            (out, false)
        } else if !in_tag {
            (out.push(c), in_tag)
        } else {
            (out, in_tag)
        }
    }
}

/// The text without what stands between `<` and `>`, the brackets included.
pub open spec fn strip_html_spec(s: Seq<char>) -> Seq<char> {
    html_strip_state(s).0
}

/// Whether a word looks like a URL.
pub open spec fn is_url_word(w: Seq<char>) -> bool {
    has_prefix(w, "http://"@) || has_prefix(w, "https://"@) || has_prefix(w, "www."@)
}

/// The position just past the run of non-whitespace characters at `i`.
pub open spec fn word_end(s: Seq<char>, i: int) -> int
    decreases s.len() - i,
{
    if 0 <= i < s.len() && !is_space(s[i]) {
        word_end(s, i + 1)
    } else {
        i
    }
}

/// The end of a word lies between its start and the end of the text, and
/// past its start when a non-whitespace character is there.
pub proof fn lemma_word_end(s: Seq<char>, i: int)
    requires
        0 <= i <= s.len(),
    ensures
        i <= word_end(s, i) <= s.len(),
        i < s.len() && !is_space(s[i]) ==> word_end(s, i) > i,
        forall|k: int| i <= k < word_end(s, i) ==> !is_space(#[trigger] s[k]),
        word_end(s, i) < s.len() ==> is_space(s[word_end(s, i)]),
    decreases s.len() - i,
{
    if i < s.len() && !is_space(s[i]) {
        lemma_word_end(s, i + 1);
    }
}

/// The text from position `i` on with the URL words (whitespace-separated
/// words that start with `http://`, `https://` or `www.`) left out and
/// everything else, whitespace included, kept as it was.
pub open spec fn strip_urls_from(s: Seq<char>, i: int) -> Seq<char>
    decreases s.len() - i,
{
    if i < 0 || i >= s.len() {
        seq![]
    } else if is_space(s[i]) {
        seq![s[i]] + strip_urls_from(s, i + 1)
    } else {
        proof {
            lemma_word_end(s, i);
        }
        let e = word_end(s, i);
        (if is_url_word(s.subrange(i, e)) {
            seq![]
        } else {
            s.subrange(i, e)
        }) + strip_urls_from(s, e)
    }
}

/// The text with its URL words left out and everything else kept.
pub open spec fn strip_urls_spec(s: Seq<char>) -> Seq<char> {
    strip_urls_from(s, 0)
}

/// The tokens that are not English stop words, in order.
pub open spec fn without_stop_words(ts: Seq<Seq<char>>) -> Seq<Seq<char>>
    decreases ts.len(),
{
    if ts.len() == 0 {
        seq![]
    } else if is_english_stop_word(ts.last()) {
        without_stop_words(ts.drop_last())
    } else {
        without_stop_words(ts.drop_last()).push(ts.last())
    }
}

impl TextFilters {
    /// The switches of the default processor: lowercase and drop punctuation.
    pub open spec fn standard() -> TextFilters {
        TextFilters {
            lowercase: true,
            remove_punctuation: true,
            remove_numbers: false,
            remove_stop_words: false,
            remove_html: false,
            remove_urls: false,
            expand_contractions: false,
        }
    }

    /// One word through the word pipeline: contraction expansion,
    /// lowercasing, punctuation removal with trimming, digit removal.
    pub open spec fn process_word(self, w: Seq<char>) -> Seq<char> {
        let a = if self.expand_contractions {
            expand_contraction_spec(w)
        } else {
            w
        };
        let b = if self.lowercase {
            lowercase(a)
        } else {
            a
        };
        let c = if self.remove_punctuation {
            trim(keep_word_chars(b))
        } else {
            b
        };
        if self.remove_numbers {
            drop_ascii_digits(c)
        } else {
            c
        }
    }

    /// The pieces of a processed word that are kept: all of them, or, when
    /// stop words are removed, those that are not English stop words.
    pub open spec fn kept_tokens(self, ts: Seq<Seq<char>>) -> Seq<Seq<char>> {
        if self.remove_stop_words {
            without_stop_words(ts)
        } else {
            ts
        }
    }

    /// The tokens of the given words, in order: each processed word split at
    /// whitespace, stop words left out when they are removed.
    pub open spec fn tokens_of_words(self, words: Seq<Seq<char>>) -> Seq<Seq<char>>
        decreases words.len(),
    {
        if words.len() == 0 {
            seq![]
        } else {
            self.tokens_of_words(words.drop_last()) + self.kept_tokens(
                ws_split(self.process_word(words.last())),
            )
        }
    }

    /// The tokens of one sentence piece.
    pub open spec fn piece_tokens(self, piece: Seq<char>) -> Seq<Seq<char>> {
        self.tokens_of_words(ws_split(piece))
    }

    /// The token lists of the pieces that have at least one token.
    pub open spec fn sentences_of(self, pieces: Seq<Seq<char>>) -> Seq<Seq<Seq<char>>>
        decreases pieces.len(),
    {
        if pieces.len() == 0 {
            seq![]
        } else if self.piece_tokens(pieces.last()).len() > 0 {
            self.sentences_of(pieces.drop_last()).push(self.piece_tokens(pieces.last()))
        } else {
            self.sentences_of(pieces.drop_last())
        }
    }

    /// The text after NFC normalisation and the optional HTML and URL removal.
    pub open spec fn cleaned(self, text: Seq<char>) -> Seq<char> {
        let a = normalized(text);
        let b = if self.remove_html {
            strip_html_spec(a)
        } else {
            a
        };
        if self.remove_urls {
            strip_urls_spec(b)
        } else {
            b
        }
    }

    /// The tokenized sentences of a text.
    pub open spec fn process_text(self, text: Seq<char>) -> Seq<Seq<Seq<char>>> {
        self.sentences_of(sentence_pieces(self.cleaned(text)))
    }
}

impl TextProcessor {
    /// The switches that decide what the pipeline does.
    pub open spec fn filters(&self) -> TextFilters {
        TextFilters {
            lowercase: self.lowercase,
            remove_punctuation: self.remove_punctuation,
            remove_numbers: self.remove_numbers,
            remove_stop_words: self.remove_stop_words,
            remove_html: self.remove_html,
            remove_urls: self.remove_urls,
            expand_contractions: self.expand_contractions,
        }
    }

    /// Processes raw text into tokenized sentences according to the configured filters.
    pub fn process_text(&self, text: &str) -> (r: Vec<Vec<String>>)
        ensures
            r.deep_view() == self.filters().process_text(text@),
    {
        let mut t = nfc_string(text);
        if self.remove_html {
            t = Self::strip_html(t.as_str());
        }
        if self.remove_urls {
            t = Self::strip_urls(t.as_str());
        }
        let ghost f = self.filters();
        let cs = chars_of(t.as_str());
        let mut sentences: Vec<Vec<String>> = Vec::new();
        let mut cur: Vec<char> = Vec::new();
        let mut i: usize = 0;
        while i < cs.len()
            invariant
                i <= cs.len(),
                f == self.filters(),
                sentences.deep_view() == f.sentences_of(break_split_state(cs@.take(i as int)).0),
                cur@ == break_split_state(cs@.take(i as int)).1,
            decreases cs.len() - i,
        {
            assert(cs@.take(i + 1).drop_last() =~= cs@.take(i as int));
            let c = cs[i];
            if c == '.' || c == '!' || c == '?' || c == '\n' {
                let ghost done = break_split_state(cs@.take(i as int)).0;
                let ghost old_s = sentences.deep_view();
                let toks = self.piece_tokens(&cur);
                assert(done.push(cur@).drop_last() =~= done);
                if toks.len() > 0 {
                    sentences.push(toks);
                    assert(sentences.deep_view() =~= old_s.push(f.piece_tokens(cur@)));
                }
                cur = Vec::new();
            } else {
                cur.push(c);
            }
            i = i + 1;
        }
        assert(cs@.take(i as int) =~= cs@);
        let ghost done = break_split_state(cs@).0;
        let ghost old_s = sentences.deep_view();
        let toks = self.piece_tokens(&cur);
        assert(done.push(cur@).drop_last() =~= done);
        if toks.len() > 0 {
            sentences.push(toks);
            assert(sentences.deep_view() =~= old_s.push(f.piece_tokens(cur@)));
        }
        sentences
    }

    /// The tokens of one sentence piece.
    fn piece_tokens(&self, piece: &[char]) -> (r: Vec<String>)
        ensures
            r.deep_view() == self.filters().piece_tokens(piece@),
    {
        let words = split_whitespace_chars(piece);
        let ghost wv = words.deep_view();
        let ghost f = self.filters();
        let mut out: Vec<String> = Vec::new();
        let mut k: usize = 0;
        while k < words.len()
            invariant
                k <= words.len(),
                wv == words.deep_view(),
                f == self.filters(),
                out.deep_view() == f.tokens_of_words(wv.take(k as int)),
            decreases words.len() - k,
        {
            assert(wv.take(k + 1).drop_last() =~= wv.take(k as int));
            assert(words[k as int]@ == wv[k as int]);
            let w = string_of(words[k].as_slice());
            let pw = self.process_word(w.as_str());
            let pcs = chars_of(pw.as_str());
            let subs = split_whitespace_chars(&pcs);
            let ghost sv = subs.deep_view();
            let ghost base = out.deep_view();
            let mut m: usize = 0;
            while m < subs.len()
                invariant
                    m <= subs.len(),
                    sv == subs.deep_view(),
                    f == self.filters(),
                    out.deep_view() == base + f.kept_tokens(sv.take(m as int)),
                decreases subs.len() - m,
            {
                assert(subs[m as int]@ == sv[m as int]);
                assert(sv.take(m + 1).drop_last() =~= sv.take(m as int));
                let piece = string_of(subs[m].as_slice());
                let ghost prev = out.deep_view();
                if !(self.remove_stop_words && is_english_stop_word_exec(piece.as_str())) {
                    out.push(piece);
                    assert(out.deep_view() =~= prev.push(sv[m as int]));
                    assert(out.deep_view() =~= base + f.kept_tokens(sv.take(m + 1)));
                } else {
                    assert(out.deep_view() =~= base + f.kept_tokens(sv.take(m + 1)));
                }
                m = m + 1;
            }
            assert(sv.take(m as int) =~= sv);
            k = k + 1;
        }
        assert(wv.take(k as int) =~= wv);
        out
    }

    /// Removes everything between `<` and `>`, the brackets included.
    fn strip_html(text: &str) -> (r: String)
        ensures
            r@ == strip_html_spec(text@),
    {
        let cs = chars_of(text);
        let mut out: Vec<char> = Vec::new();
        let mut in_tag = false;
        let mut i: usize = 0;
        while i < cs.len()
            invariant
                i <= cs.len(),
                (out@, in_tag) == html_strip_state(cs@.take(i as int)),
            decreases cs.len() - i,
        {
            assert(cs@.take(i + 1).drop_last() =~= cs@.take(i as int));
            let c = cs[i];
            if c == '<' {
                in_tag = true;
            } else if c == '>' {
                in_tag = false;
            } else if !in_tag {
                out.push(c);
            }
            i = i + 1;
        }
        assert(cs@.take(i as int) =~= cs@);
        string_of(&out)
    }

    /// Drops the words that start with `http://`, `https://` or `www.` and
    /// keeps the rest of the text as it is.
    fn strip_urls(text: &str) -> (r: String)
        ensures
            r@ == strip_urls_spec(text@),
    {
        let cs = chars_of(text);
        let ghost c = cs@;
        let n = cs.len();
        let mut out: Vec<char> = Vec::new();
        let mut i: usize = 0;
        while i < n
            invariant
                n == cs.len(),
                c == cs@,
                i <= n,
                strip_urls_from(c, 0) == out@ + strip_urls_from(c, i as int),
            decreases n - i,
        {
            if char_is_whitespace(cs[i]) {
                out.push(cs[i]);
                i = i + 1;
                assert(out@ + strip_urls_from(c, i as int) =~= out@.drop_last() + (seq![c[i - 1]]
                    + strip_urls_from(c, i as int)));
            } else {
                proof {
                    lemma_word_end(c, i as int);
                }
                let mut j: usize = i;
                while j < n && !char_is_whitespace(cs[j])
                    invariant
                        n == cs.len(),
                        c == cs@,
                        i <= j <= n,
                        word_end(c, i as int) == word_end(c, j as int),
                    decreases n - j,
                {
                    j = j + 1;
                }
                assert(word_end(c, j as int) == j);
                let w = &cs.as_slice()[i..j];
                assert(w@ == c.subrange(i as int, j as int));
                let ghost base = out@;
                if !(chars_start_with(w, "http://") || chars_start_with(w, "https://")
                    || chars_start_with(w, "www.")) {
                    let mut k: usize = i;
                    while k < j
                        invariant
                            n == cs.len(),
                            c == cs@,
                            i <= k <= j <= n,
                            out@ == base + c.subrange(i as int, k as int),
                        decreases j - k,
                    {
                        out.push(cs[k]);
                        assert(c.subrange(i as int, k + 1) =~= c.subrange(i as int, k as int).push(
                            c[k as int],
                        ));
                        k = k + 1;
                    }
                    assert(out@ + strip_urls_from(c, j as int) =~= base + (c.subrange(
                        i as int,
                        j as int,
                    ) + strip_urls_from(c, j as int)));
                } else {
                    assert(strip_urls_from(c, i as int) =~= strip_urls_from(c, j as int));
                }
                i = j;
            }
        }
        string_of(&out)
    }

    /// One word through the word pipeline.
    fn process_word(&self, word: &str) -> (r: String)
        ensures
            r@ == self.filters().process_word(word@),
    {
        let mut result = word.to_owned();
        if self.expand_contractions {
            result = Self::expand_contraction(result.as_str());
        }
        if self.lowercase {
            result = str_to_lowercase(result.as_str());
        }
        if self.remove_punctuation {
            let cs = chars_of(result.as_str());
            let mut kept: Vec<char> = Vec::new();
            let mut i: usize = 0;
            while i < cs.len()
                invariant
                    i <= cs.len(),
                    kept@ == keep_word_chars(cs@.take(i as int)),
                decreases cs.len() - i,
            {
                assert(cs@.take(i + 1).drop_last() =~= cs@.take(i as int));
                let c = cs[i];
                if char_is_alphanumeric(c) || char_is_whitespace(c) {
                    kept.push(c);
                }
                i = i + 1;
            }
            assert(cs@.take(i as int) =~= cs@);
            let t = trim_chars(&kept);
            result = string_of(&t);
        }
        if self.remove_numbers {
            let cs = chars_of(result.as_str());
            let mut kept: Vec<char> = Vec::new();
            let mut i: usize = 0;
            while i < cs.len()
                invariant
                    i <= cs.len(),
                    kept@ == drop_ascii_digits(cs@.take(i as int)),
                decreases cs.len() - i,
            {
                assert(cs@.take(i + 1).drop_last() =~= cs@.take(i as int));
                let c = cs[i];
                if !is_ascii_digit_exec(c) {
                    kept.push(c);
                }
                i = i + 1;
            }
            assert(cs@.take(i as int) =~= cs@);
            result = string_of(&kept);
        }
        result
    }

    /// Expands a known English contraction (matched case-insensitively).
    fn expand_contraction(word: &str) -> (r: String)
        ensures
            r@ == expand_contraction_spec(word@),
    {
        let lower = str_to_lowercase(word);
        let l = lower.as_str();
        if str_eq(l, "can't") {
            "cannot".to_owned()
        } else if str_eq(l, "won't") {
            "will not".to_owned()
        } else if str_eq(l, "n't") {
            " not".to_owned()
        } else if str_eq(l, "'re") {
            " are".to_owned()
        } else if str_eq(l, "'ve") {
            " have".to_owned()
        } else if str_eq(l, "'ll") {
            " will".to_owned()
        } else if str_eq(l, "'d") {
            " would".to_owned()
        } else if str_eq(l, "'m") {
            " am".to_owned()
        } else if str_eq(l, "i'm") {
            "i am".to_owned()
        } else if str_eq(l, "don't") {
            "do not".to_owned()
        } else if str_eq(l, "doesn't") {
            "does not".to_owned()
        } else if str_eq(l, "didn't") {
            "did not".to_owned()
        } else if str_eq(l, "isn't") {
            "is not".to_owned()
        } else if str_eq(l, "aren't") {
            "are not".to_owned()
        } else if str_eq(l, "wasn't") {
            "was not".to_owned()
        } else if str_eq(l, "weren't") {
            "were not".to_owned()
        } else if str_eq(l, "haven't") {
            "have not".to_owned()
        } else if str_eq(l, "hasn't") {
            "has not".to_owned()
        } else if str_eq(l, "hadn't") {
            "had not".to_owned()
        } else if str_eq(l, "wouldn't") {
            "would not".to_owned()
        } else if str_eq(l, "couldn't") {
            "could not".to_owned()
        } else if str_eq(l, "shouldn't") {
            "should not".to_owned()
        } else if str_eq(l, "let's") {
            "let us".to_owned()
        } else if str_eq(l, "that's") {
            "that is".to_owned()
        } else if str_eq(l, "who's") {
            "who is".to_owned()
        } else if str_eq(l, "what's") {
            "what is".to_owned()
        } else if str_eq(l, "here's") {
            "here is".to_owned()
        } else if str_eq(l, "there's") {
            "there is".to_owned()
        } else if str_eq(l, "where's") {
            "where is".to_owned()
        } else if str_eq(l, "it's") {
            "it is".to_owned()
        } else {
            word.to_owned()
        }
    }
}

/// The common English words that the language heuristic counts.
pub open spec fn is_english_stop_word(w: Seq<char>) -> bool {
    w == "the"@
        || w == "and"@
        || w == "a"@
        || w == "an"@
        || w == "in"@
        || w == "on"@
        || w == "at"@
        || w == "to"@
        || w == "for"@
        || w == "of"@
        || w == "with"@
        || w == "by"@
        || w == "is"@
        || w == "are"@
        || w == "was"@
        || w == "were"@
        || w == "be"@
        || w == "been"@
        || w == "being"@
        || w == "have"@
        || w == "has"@
        || w == "had"@
        || w == "do"@
        || w == "does"@
        || w == "did"@
        || w == "will"@
        || w == "would"@
        || w == "shall"@
        || w == "should"@
        || w == "can"@
        || w == "could"@
        || w == "may"@
        || w == "might"@
        || w == "must"@
        || w == "i"@
        || w == "you"@
        || w == "he"@
        || w == "she"@
        || w == "it"@
        || w == "we"@
        || w == "they"@
        || w == "me"@
        || w == "him"@
        || w == "her"@
        || w == "us"@
        || w == "them"@
}

fn is_english_stop_word_exec(w: &str) -> (r: bool)
    ensures
        r == is_english_stop_word(w@),
{
    str_eq(w, "the")
        || str_eq(w, "and")
        || str_eq(w, "a")
        || str_eq(w, "an")
        || str_eq(w, "in")
        || str_eq(w, "on")
        || str_eq(w, "at")
        || str_eq(w, "to")
        || str_eq(w, "for")
        || str_eq(w, "of")
        || str_eq(w, "with")
        || str_eq(w, "by")
        || str_eq(w, "is")
        || str_eq(w, "are")
        || str_eq(w, "was")
        || str_eq(w, "were")
        || str_eq(w, "be")
        || str_eq(w, "been")
        || str_eq(w, "being")
        || str_eq(w, "have")
        || str_eq(w, "has")
        || str_eq(w, "had")
        || str_eq(w, "do")
        || str_eq(w, "does")
        || str_eq(w, "did")
        || str_eq(w, "will")
        || str_eq(w, "would")
        || str_eq(w, "shall")
        || str_eq(w, "should")
        || str_eq(w, "can")
        || str_eq(w, "could")
        || str_eq(w, "may")
        || str_eq(w, "might")
        || str_eq(w, "must")
        || str_eq(w, "i")
        || str_eq(w, "you")
        || str_eq(w, "he")
        || str_eq(w, "she")
        || str_eq(w, "it")
        || str_eq(w, "we")
        || str_eq(w, "they")
        || str_eq(w, "me")
        || str_eq(w, "him")
        || str_eq(w, "her")
        || str_eq(w, "us")
        || str_eq(w, "them")
}

/// How many of the words are English stop words once lowercased.
pub open spec fn stop_word_count(words: Seq<Seq<char>>) -> nat
    decreases words.len(),
{
    if words.len() == 0 {
        0
    } else {
        stop_word_count(words.drop_last()) + if is_english_stop_word(lowercase(words.last())) {
            1nat
        } else {
            0nat
        }
    }
}

proof fn lemma_stop_word_count_bound(words: Seq<Seq<char>>)
    ensures
        stop_word_count(words) <= words.len(),
    decreases words.len(),
{
    if words.len() > 0 {
        lemma_stop_word_count_bound(words.drop_last());
    }
}

/// The language the heuristic names for a text: English when more than a
/// fifth of its whitespace-separated words are English stop words.
pub open spec fn detect_language_spec(text: Seq<char>) -> Seq<char> {
    let words = ws_split(text);
    if stop_word_count(words) > words.len() / 5 {
        "en"@
    } else {
        "unknown"@
    }
}

impl TextProcessor {
    /// Simple heuristic-based language detection.
    pub fn detect_language(&self, text: &str) -> (r: String)
        ensures
            r@ == detect_language_spec(text@),
    {
        let cs = chars_of(text);
        let words = split_whitespace_chars(&cs);
        let ghost wv = words.deep_view();
        let mut english_count: usize = 0;
        let mut k: usize = 0;
        while k < words.len()
            invariant
                k <= words.len(),
                wv == words.deep_view(),
                english_count == stop_word_count(wv.take(k as int)),
            decreases words.len() - k,
        {
            assert(wv.take(k + 1).drop_last() =~= wv.take(k as int));
            assert(words[k as int]@ == wv[k as int]);
            proof {
                lemma_stop_word_count_bound(wv.take(k as int));
            }
            let w = string_of(words[k].as_slice());
            let lower = str_to_lowercase(w.as_str());
            if is_english_stop_word_exec(lower.as_str()) {
                english_count = english_count + 1;
            }
            k = k + 1;
        }
        assert(wv.take(k as int) =~= wv);
        if english_count > words.len() / 5 {
            "en".to_owned()
        } else {
            "unknown".to_owned()
        }
    }
}

/// Tokenizes text using the default [`TextProcessor`] settings.
pub fn load_text_data(text: &str) -> (r: Vec<Vec<String>>)
    ensures
        r.deep_view() == TextFilters::standard().process_text(text@),
{
    let processor = TextProcessor::default();
    processor.process_text(text)
}

/// Tokenizes text using a custom [`TextProcessor`].
pub fn load_text_data_advanced(text: &str, processor: &TextProcessor) -> (r: Vec<Vec<String>>)
    ensures
        r.deep_view() == processor.filters().process_text(text@),
{
    processor.process_text(text)
}

/// Token law: every sentence the pipeline produces has at least one token,
/// and every token is non-empty and holds no whitespace; when stop words are
/// removed, no token is an English stop word; when punctuation is removed,
/// every token is made of letters and digits only.
pub proof fn lemma_processed_tokens_well_formed(f: TextFilters, text: Seq<char>)
    ensures
        forall|i: int|
            0 <= i < f.process_text(text).len() ==> (#[trigger] f.process_text(text)[i]).len() > 0
                && forall|j: int|
                0 <= j < f.process_text(text)[i].len() ==> f.is_kept_token(
                    #[trigger] f.process_text(text)[i][j],
                ),
{
    lemma_sentences_well_formed(f, sentence_pieces(f.cleaned(text)));
}

/// How many sentence breaks a text holds.
pub open spec fn break_count(s: Seq<char>) -> nat
    decreases s.len(),
{
    if s.len() == 0 {
        0
    } else {
        break_count(s.drop_last()) + if is_sentence_break(s.last()) {
            1nat
        } else {
            0nat
        }
    }
}

proof fn lemma_break_split_count(s: Seq<char>)
    ensures
        break_split_state(s).0.len() == break_count(s),
    decreases s.len(),
{
    if s.len() > 0 {
        lemma_break_split_count(s.drop_last());
    }
}

proof fn lemma_sentences_of_len(f: TextFilters, pieces: Seq<Seq<char>>)
    ensures
        f.sentences_of(pieces).len() <= pieces.len(),
    decreases pieces.len(),
{
    if pieces.len() > 0 {
        lemma_sentences_of_len(f, pieces.drop_last());
    }
}

/// Sentence law: a text gives at most one sentence more than the sentence
/// breaks (`.`, `!`, `?`, line feed) of its cleaned form; for ASCII text
/// without HTML or URL removal, the cleaned form is the text itself.
pub proof fn lemma_sentence_count(f: TextFilters, text: Seq<char>)
    ensures
        f.process_text(text).len() <= 1 + break_count(f.cleaned(text)),
        is_ascii_chars(text) && !f.remove_html && !f.remove_urls ==> f.cleaned(text) == text,
{
    lemma_break_split_count(f.cleaned(text));
    lemma_sentences_of_len(f, sentence_pieces(f.cleaned(text)));
}

// ---------------------------------------------------------------------------
// Lowercase tokens of ASCII text
// ---------------------------------------------------------------------------

/// Every character of the text has the property.
pub open spec fn chars_all(s: Seq<char>, prop: spec_fn(char) -> bool) -> bool {
    forall|k: int| 0 <= k < s.len() ==> prop(#[trigger] s[k])
}

/// An ASCII character that is not an uppercase letter.
pub open spec fn is_lower_ascii_char(c: char) -> bool {
    is_ascii_char(c) && !is_ascii_upper(c)
}

proof fn lemma_push_chars_all(s: Seq<char>, c: char, prop: spec_fn(char) -> bool)
    requires
        chars_all(s, prop),
        prop(c),
    ensures
        chars_all(s.push(c), prop),
{
    assert forall|k: int| 0 <= k < s.push(c).len() implies prop(#[trigger] s.push(c)[k]) by {
        if k < s.len() {
            assert(s.push(c)[k] == s[k]);
        }
    }
}

proof fn lemma_init_chars_all(s: Seq<char>, prop: spec_fn(char) -> bool)
    requires
        chars_all(s, prop),
        s.len() > 0,
    ensures
        chars_all(s.drop_last(), prop),
        prop(s.last()),
{
    assert forall|k: int| 0 <= k < s.drop_last().len() implies prop(#[trigger] s.drop_last()[k]) by {
        assert(s.drop_last()[k] == s[k]);
    }
    assert(prop(s[s.len() - 1]));
}

proof fn lemma_html_chars(s: Seq<char>, prop: spec_fn(char) -> bool)
    requires
        chars_all(s, prop),
    ensures
        chars_all(html_strip_state(s).0, prop),
    decreases s.len(),
{
    if s.len() > 0 {
        lemma_init_chars_all(s, prop);
        lemma_html_chars(s.drop_last(), prop);
        let (out, in_tag) = html_strip_state(s.drop_last());
        if s.last() != '<' && s.last() != '>' && !in_tag {
            lemma_push_chars_all(out, s.last(), prop);
        }
    }
}

proof fn lemma_urls_chars(s: Seq<char>, i: int, prop: spec_fn(char) -> bool)
    requires
        chars_all(s, prop),
        0 <= i,
    ensures
        chars_all(strip_urls_from(s, i), prop),
    decreases s.len() - i,
{
    if i < s.len() {
        if is_space(s[i]) {
            lemma_urls_chars(s, i + 1, prop);
            let r = seq![s[i]] + strip_urls_from(s, i + 1);
            assert forall|k: int| 0 <= k < r.len() implies prop(#[trigger] r[k]) by {
                if k > 0 {
                    assert(r[k] == strip_urls_from(s, i + 1)[k - 1]);
                }
            }
        } else {
            lemma_word_end(s, i);
            let e = word_end(s, i);
            lemma_urls_chars(s, e, prop);
            let w = if is_url_word(s.subrange(i, e)) {
                Seq::<char>::empty()
            } else {
                s.subrange(i, e)
            };
            let r = w + strip_urls_from(s, e);
            assert forall|k: int| 0 <= k < r.len() implies prop(#[trigger] r[k]) by {
                if k < w.len() {
                    assert(r[k] == s[i + k]);
                } else {
                    assert(r[k] == strip_urls_from(s, e)[k - w.len()]);
                }
            }
        }
    }
}

proof fn lemma_breaks_chars(s: Seq<char>, prop: spec_fn(char) -> bool)
    requires
        chars_all(s, prop),
    ensures
        forall|j: int|
            0 <= j < break_split_state(s).0.len() ==> chars_all(#[trigger] break_split_state(s).0[j], prop),
        chars_all(break_split_state(s).1, prop),
    decreases s.len(),
{
    if s.len() > 0 {
        lemma_init_chars_all(s, prop);
        lemma_breaks_chars(s.drop_last(), prop);
        let (done, cur) = break_split_state(s.drop_last());
        if is_sentence_break(s.last()) {
            let nd = done.push(cur);
            assert forall|j: int| 0 <= j < nd.len() implies chars_all(#[trigger] nd[j], prop) by {
                if j < done.len() {
                    assert(nd[j] == done[j]);
                }
            }
        } else {
            lemma_push_chars_all(cur, s.last(), prop);
        }
    }
}

proof fn lemma_keep_chars(s: Seq<char>, prop: spec_fn(char) -> bool)
    requires
        chars_all(s, prop),
    ensures
        chars_all(keep_word_chars(s), prop),
        chars_all(drop_ascii_digits(s), prop),
    decreases s.len(),
{
    if s.len() > 0 {
        lemma_init_chars_all(s, prop);
        lemma_keep_chars(s.drop_last(), prop);
        lemma_push_chars_all(keep_word_chars(s.drop_last()), s.last(), prop);
        lemma_push_chars_all(drop_ascii_digits(s.drop_last()), s.last(), prop);
    }
}

proof fn lemma_trim_chars(s: Seq<char>, prop: spec_fn(char) -> bool)
    requires
        chars_all(s, prop),
    ensures
        chars_all(trim(s), prop),
{
    crate::chars::lemma_trim_is_slice(s);
    let (x, y) = choose|x: int, y: int| 0 <= x <= y <= s.len() && trim(s) == s.subrange(x, y);
    assert forall|k: int| 0 <= k < trim(s).len() implies prop(#[trigger] trim(s)[k]) by {
        assert(trim(s)[k] == s[x + k]);
    }
}

/// With lowercasing on, an ASCII word is processed into lowercase ASCII.
proof fn lemma_process_word_lower(f: TextFilters, w: Seq<char>)
    requires
        f.lowercase,
        is_ascii_chars(w),
    ensures
        chars_all(f.process_word(w), |c: char| is_lower_ascii_char(c)),
{
    let low = |c: char| is_lower_ascii_char(c);
    let a = if f.expand_contractions {
        expand_contraction_spec(w)
    } else {
        w
    };
    assert(is_ascii_chars(a)) by {
        if f.expand_contractions {
            lemma_expansion_facts(lowercase(w));
        }
    }
    let b = lowercase(a);
    assert(chars_all(b, low)) by {
        assert forall|k: int| 0 <= k < b.len() implies low(#[trigger] b[k]) by {
            assert(is_ascii_char(a[k]));
            assert(b[k] == crate::chars::ascii_lower_char(a[k]));
        }
    }
    lemma_keep_chars(b, low);
    let c = if f.remove_punctuation {
        lemma_trim_chars(keep_word_chars(b), low);
        trim(keep_word_chars(b))
    } else {
        b
    };
    lemma_keep_chars(c, low);
}

proof fn lemma_tokens_lower(f: TextFilters, words: Seq<Seq<char>>)
    requires
        f.lowercase,
        forall|j: int| 0 <= j < words.len() ==> is_ascii_chars(#[trigger] words[j]),
    ensures
        forall|j: int|
            0 <= j < f.tokens_of_words(words).len() ==> chars_all(
                #[trigger] f.tokens_of_words(words)[j],
                |c: char| is_lower_ascii_char(c),
            ),
    decreases words.len(),
{
    let low = |c: char| is_lower_ascii_char(c);
    if words.len() > 0 {
        let init = words.drop_last();
        assert forall|j: int| 0 <= j < init.len() implies is_ascii_chars(#[trigger] init[j]) by {
            assert(init[j] == words[j]);
        }
        lemma_tokens_lower(f, init);
        assert(is_ascii_chars(words[words.len() - 1]));
        let pw = f.process_word(words.last());
        lemma_process_word_lower(f, words.last());
        crate::chars::lemma_ws_split_chars(pw, low);
        let ws = ws_split(pw);
        let kept = f.kept_tokens(ws);
        assert forall|j: int| 0 <= j < kept.len() implies chars_all(#[trigger] kept[j], low) by {
            lemma_kept_subset(f, ws, j);
            let i = choose|i: int| 0 <= i < ws.len() && ws[i] == kept[j];
            assert forall|k: int| 0 <= k < ws[i].len() implies low(#[trigger] ws[i][k]) by {
            }
        }
        let a = f.tokens_of_words(init);
        assert forall|j: int| 0 <= j < (a + kept).len() implies chars_all(#[trigger] (a + kept)[j], low) by {
            if j < a.len() {
                assert((a + kept)[j] == a[j]);
            } else {
                assert((a + kept)[j] == kept[j - a.len()]);
            }
        }
    }
}

/// Each kept token is one of the tokens it was taken from.
proof fn lemma_kept_subset(f: TextFilters, ts: Seq<Seq<char>>, j: int)
    requires
        0 <= j < f.kept_tokens(ts).len(),
    ensures
        exists|i: int| 0 <= i < ts.len() && ts[i] == f.kept_tokens(ts)[j],
    decreases ts.len(),
{
    if f.remove_stop_words {
        let init = ts.drop_last();
        let prev = without_stop_words(init);
        if ts.len() > 0 {
            if !is_english_stop_word(ts.last()) && j == prev.len() {
                assert(f.kept_tokens(ts)[j] == ts[ts.len() - 1]);
            } else {
                assert(f.kept_tokens(ts)[j] == f.kept_tokens(init)[j]);
                lemma_kept_subset(f, init, j);
                let i = choose|i: int| 0 <= i < init.len() && init[i] == f.kept_tokens(init)[j];
                assert(ts[i] == init[i]);
            }
        }
    } else {
        assert(ts[j] == f.kept_tokens(ts)[j]);
    }
}

/// Lowercase law: with lowercasing on, every token of an ASCII text is made
/// of ASCII characters and is its own lowercase form.
pub proof fn lemma_ascii_tokens_lowercase(f: TextFilters, text: Seq<char>)
    requires
        f.lowercase,
        is_ascii_chars(text),
    ensures
        forall|i: int, j: int|
            0 <= i < f.process_text(text).len() && 0 <= j < f.process_text(text)[i].len() ==> {
                let t = #[trigger] f.process_text(text)[i][j];
                is_ascii_chars(t) && lowercase(t) == t
            },
{
    let asc = |c: char| is_ascii_char(c);
    let low = |c: char| is_lower_ascii_char(c);
    let a = normalized(text);
    assert(chars_all(a, asc));
    let b = if f.remove_html {
        lemma_html_chars(a, asc);
        strip_html_spec(a)
    } else {
        a
    };
    let cl = if f.remove_urls {
        lemma_urls_chars(b, 0, asc);
        strip_urls_spec(b)
    } else {
        b
    };
    assert(cl == f.cleaned(text));
    lemma_breaks_chars(cl, asc);
    let pieces = sentence_pieces(cl);
    assert forall|j: int| 0 <= j < pieces.len() implies chars_all(#[trigger] pieces[j], asc) by {
        if j < break_split_state(cl).0.len() {
            assert(pieces[j] == break_split_state(cl).0[j]);
        }
    }
    lemma_sentences_lower(f, pieces);
    let r = f.process_text(text);
    assert forall|i: int, j: int| 0 <= i < r.len() && 0 <= j < r[i].len() implies {
        let t = #[trigger] r[i][j];
        is_ascii_chars(t) && lowercase(t) == t
    } by {
        let t = r[i][j];
        assert(chars_all(t, low));
        assert(is_ascii_chars(t)) by {
            assert forall|k: int| 0 <= k < t.len() implies is_ascii_char(#[trigger] t[k]) by {
                assert(low(t[k]));
            }
        }
        assert(lowercase(t) =~= t) by {
            assert forall|k: int| 0 <= k < t.len() implies #[trigger] lowercase(t)[k] == t[k] by {
                assert(low(t[k]));
            }
        }
    }
}

proof fn lemma_sentences_lower(f: TextFilters, pieces: Seq<Seq<char>>)
    requires
        f.lowercase,
        forall|j: int| 0 <= j < pieces.len() ==> chars_all(#[trigger] pieces[j], |c: char| is_ascii_char(c)),
    ensures
        forall|i: int, j: int|
            0 <= i < f.sentences_of(pieces).len() && 0 <= j < f.sentences_of(pieces)[i].len()
                ==> chars_all(#[trigger] f.sentences_of(pieces)[i][j], |c: char| is_lower_ascii_char(c)),
    decreases pieces.len(),
{
    let asc = |c: char| is_ascii_char(c);
    let low = |c: char| is_lower_ascii_char(c);
    if pieces.len() > 0 {
        let init = pieces.drop_last();
        assert forall|j: int| 0 <= j < init.len() implies chars_all(#[trigger] init[j], asc) by {
            assert(init[j] == pieces[j]);
        }
        lemma_sentences_lower(f, init);
        let piece = pieces.last();
        assert(chars_all(pieces[pieces.len() - 1], asc));
        crate::chars::lemma_ws_split_chars(piece, asc);
        let words = ws_split(piece);
        assert forall|j: int| 0 <= j < words.len() implies is_ascii_chars(#[trigger] words[j]) by {
            assert forall|k: int| 0 <= k < words[j].len() implies is_ascii_char(#[trigger] words[j][k]) by {
                assert(asc(words[j][k]));
            }
        }
        lemma_tokens_lower(f, words);
        let prev = f.sentences_of(init);
        let t = f.piece_tokens(piece);
        if t.len() > 0 {
            let ns = prev.push(t);
            assert forall|i: int, j: int| 0 <= i < ns.len() && 0 <= j < ns[i].len() implies chars_all(
                #[trigger] ns[i][j],
                low,
            ) by {
                if i < prev.len() {
                    assert(ns[i] == prev[i]);
                } else {
                    assert(ns[i] == t);
                }
            }
        }
    }
}

/// A token: non-empty and free of whitespace.
pub open spec fn is_clean_token(t: Seq<char>) -> bool {
    t.len() > 0 && forall|k: int| 0 <= k < t.len() ==> !is_space(#[trigger] t[k])
}

/// Every character is a letter or a digit.
pub open spec fn all_alnum(t: Seq<char>) -> bool {
    forall|k: int| 0 <= k < t.len() ==> is_alnum(#[trigger] t[k])
}

/// Every character is a letter, a digit or whitespace.
pub open spec fn alnum_or_space(t: Seq<char>) -> bool {
    forall|k: int| 0 <= k < t.len() ==> is_alnum(#[trigger] t[k]) || is_space(t[k])
}

proof fn lemma_keep_word_chars(s: Seq<char>)
    ensures
        alnum_or_space(keep_word_chars(s)),
    decreases s.len(),
{
    if s.len() > 0 {
        lemma_keep_word_chars(s.drop_last());
        let prev = keep_word_chars(s.drop_last());
        if is_alnum(s.last()) || is_space(s.last()) {
            let cur = prev.push(s.last());
            assert forall|k: int| 0 <= k < cur.len() implies is_alnum(#[trigger] cur[k]) || is_space(
                cur[k],
            ) by {
                if k < prev.len() {
                    assert(cur[k] == prev[k]);
                }
            }
        }
    }
}

proof fn lemma_drop_ascii_digits(s: Seq<char>)
    requires
        alnum_or_space(s),
    ensures
        alnum_or_space(drop_ascii_digits(s)),
    decreases s.len(),
{
    if s.len() > 0 {
        let init = s.drop_last();
        assert forall|k: int| 0 <= k < init.len() implies is_alnum(#[trigger] init[k]) || is_space(
            init[k],
        ) by {
            assert(init[k] == s[k]);
        }
        lemma_drop_ascii_digits(init);
        let prev = drop_ascii_digits(init);
        assert(is_alnum(s[s.len() - 1]) || is_space(s[s.len() - 1]));
        if !is_ascii_digit(s.last()) {
            let cur = prev.push(s.last());
            assert forall|k: int| 0 <= k < cur.len() implies is_alnum(#[trigger] cur[k]) || is_space(
                cur[k],
            ) by {
                if k < prev.len() {
                    assert(cur[k] == prev[k]);
                }
            }
        }
    }
}

/// With punctuation removed, a processed word holds only letters, digits
/// and whitespace.
proof fn lemma_process_word_alnum(f: TextFilters, w: Seq<char>)
    requires
        f.remove_punctuation,
    ensures
        alnum_or_space(f.process_word(w)),
{
    let a = if f.expand_contractions {
        expand_contraction_spec(w)
    } else {
        w
    };
    let b = if f.lowercase {
        lowercase(a)
    } else {
        a
    };
    let kept = keep_word_chars(b);
    lemma_keep_word_chars(b);
    crate::chars::lemma_trim_is_slice(kept);
    let c = trim(kept);
    assert(alnum_or_space(c)) by {
        let (x, y) = choose|x: int, y: int| 0 <= x <= y <= kept.len() && c == kept.subrange(x, y);
        assert forall|k: int| 0 <= k < c.len() implies is_alnum(#[trigger] c[k]) || is_space(c[k]) by {
            assert(c[k] == kept[x + k]);
        }
    }
    if f.remove_numbers {
        lemma_drop_ascii_digits(c);
    }
}

impl TextFilters {
    /// What every token of the pipeline is: clean; no English stop word when
    /// stop words are removed; made of letters and digits only when
    /// punctuation is removed.
    pub open spec fn is_kept_token(self, t: Seq<char>) -> bool {
        &&& is_clean_token(t)
        &&& self.remove_stop_words ==> !is_english_stop_word(t)
        &&& self.remove_punctuation ==> all_alnum(t)
    }
}

proof fn lemma_kept_tokens(f: TextFilters, ts: Seq<Seq<char>>)
    requires
        forall|j: int|
            0 <= j < ts.len() ==> is_clean_token(#[trigger] ts[j]) && (f.remove_punctuation
                ==> all_alnum(ts[j])),
    ensures
        forall|j: int|
            0 <= j < f.kept_tokens(ts).len() ==> f.is_kept_token(#[trigger] f.kept_tokens(ts)[j]),
    decreases ts.len(),
{
    if f.remove_stop_words && ts.len() > 0 {
        let init = ts.drop_last();
        assert forall|j: int| 0 <= j < init.len() implies is_clean_token(#[trigger] init[j]) && (
        f.remove_punctuation ==> all_alnum(init[j])) by {
            assert(init[j] == ts[j]);
        }
        lemma_kept_tokens(f, init);
        let last = ts[ts.len() - 1];
        assert(is_clean_token(last) && (f.remove_punctuation ==> all_alnum(last)));
        let prev = without_stop_words(init);
        assert(f.kept_tokens(init) == prev);
        if !is_english_stop_word(last) {
            let cur = prev.push(last);
            assert(f.kept_tokens(ts) == cur);
            assert forall|j: int| 0 <= j < cur.len() implies f.is_kept_token(#[trigger] cur[j]) by {
                if j < prev.len() {
                    assert(cur[j] == prev[j]);
                }
            }
        } else {
            assert(f.kept_tokens(ts) == prev);
        }
    }
}

proof fn lemma_tokens_clean(f: TextFilters, words: Seq<Seq<char>>)
    ensures
        forall|j: int|
            0 <= j < f.tokens_of_words(words).len() ==> f.is_kept_token(
                #[trigger] f.tokens_of_words(words)[j],
            ),
    decreases words.len(),
{
    if words.len() > 0 {
        lemma_tokens_clean(f, words.drop_last());
        let a = f.tokens_of_words(words.drop_last());
        let ws = ws_split(f.process_word(words.last()));
        crate::chars::lemma_ws_split_words(f.process_word(words.last()));
        if f.remove_punctuation {
            lemma_process_word_alnum(f, words.last());
            crate::chars::lemma_ws_split_chars(f.process_word(words.last()), |c: char| is_alnum(c));
            assert forall|j: int| 0 <= j < ws.len() implies all_alnum(#[trigger] ws[j]) by {
                assert forall|k: int| 0 <= k < ws[j].len() implies is_alnum(#[trigger] ws[j][k]) by {
                    assert((|c: char| is_alnum(c))(ws[j][k]));
                }
            }
        }
        lemma_kept_tokens(f, ws);
        let b = f.kept_tokens(ws);
        assert forall|j: int| 0 <= j < (a + b).len() implies f.is_kept_token(#[trigger] (a + b)[j]) by {
            if j < a.len() {
                assert((a + b)[j] == a[j]);
            } else {
                assert((a + b)[j] == b[j - a.len()]);
            }
        }
    }
}

proof fn lemma_sentences_well_formed(f: TextFilters, pieces: Seq<Seq<char>>)
    ensures
        forall|i: int|
            0 <= i < f.sentences_of(pieces).len() ==> (#[trigger] f.sentences_of(pieces)[i]).len() > 0
                && forall|j: int|
                0 <= j < f.sentences_of(pieces)[i].len() ==> f.is_kept_token(
                    #[trigger] f.sentences_of(pieces)[i][j],
                ),
    decreases pieces.len(),
{
    if pieces.len() > 0 {
        lemma_sentences_well_formed(f, pieces.drop_last());
        lemma_tokens_clean(f, ws_split(pieces.last()));
        let prev = f.sentences_of(pieces.drop_last());
        let t = f.piece_tokens(pieces.last());
        if t.len() > 0 {
            let cur = prev.push(t);
            assert forall|i: int| 0 <= i < cur.len() implies (#[trigger] cur[i]).len() > 0
                && forall|j: int| 0 <= j < cur[i].len() ==> f.is_kept_token(#[trigger] cur[i][j]) by {
                if i < prev.len() {
                    assert(cur[i] == prev[i]);
                } else {
                    assert(cur[i] == t);
                }
            }
        }
    }
}

/// Contraction law: with expansion on, each contraction of the table
/// (matched case-insensitively) becomes its expansion, and a word that is
/// none of them is left as it is.
pub proof fn lemma_contraction_table()
    ensures
        forall|w: Seq<char>| lowercase(w) == "can't"@ ==> #[trigger] expand_contraction_spec(w) == "cannot"@,
        forall|w: Seq<char>| lowercase(w) == "won't"@ ==> #[trigger] expand_contraction_spec(w) == "will not"@,
        forall|w: Seq<char>| lowercase(w) == "n't"@ ==> #[trigger] expand_contraction_spec(w) == " not"@,
        forall|w: Seq<char>| lowercase(w) == "'re"@ ==> #[trigger] expand_contraction_spec(w) == " are"@,
        forall|w: Seq<char>| lowercase(w) == "'ve"@ ==> #[trigger] expand_contraction_spec(w) == " have"@,
        forall|w: Seq<char>| lowercase(w) == "'ll"@ ==> #[trigger] expand_contraction_spec(w) == " will"@,
        forall|w: Seq<char>| lowercase(w) == "'d"@ ==> #[trigger] expand_contraction_spec(w) == " would"@,
        forall|w: Seq<char>| lowercase(w) == "'m"@ ==> #[trigger] expand_contraction_spec(w) == " am"@,
        forall|w: Seq<char>| lowercase(w) == "i'm"@ ==> #[trigger] expand_contraction_spec(w) == "i am"@,
        forall|w: Seq<char>| lowercase(w) == "don't"@ ==> #[trigger] expand_contraction_spec(w) == "do not"@,
        forall|w: Seq<char>| lowercase(w) == "doesn't"@ ==> #[trigger] expand_contraction_spec(w) == "does not"@,
        forall|w: Seq<char>| lowercase(w) == "didn't"@ ==> #[trigger] expand_contraction_spec(w) == "did not"@,
        forall|w: Seq<char>| lowercase(w) == "isn't"@ ==> #[trigger] expand_contraction_spec(w) == "is not"@,
        forall|w: Seq<char>| lowercase(w) == "aren't"@ ==> #[trigger] expand_contraction_spec(w) == "are not"@,
        forall|w: Seq<char>| lowercase(w) == "wasn't"@ ==> #[trigger] expand_contraction_spec(w) == "was not"@,
        forall|w: Seq<char>| lowercase(w) == "weren't"@ ==> #[trigger] expand_contraction_spec(w) == "were not"@,
        forall|w: Seq<char>| lowercase(w) == "haven't"@ ==> #[trigger] expand_contraction_spec(w) == "have not"@,
        forall|w: Seq<char>| lowercase(w) == "hasn't"@ ==> #[trigger] expand_contraction_spec(w) == "has not"@,
        forall|w: Seq<char>| lowercase(w) == "hadn't"@ ==> #[trigger] expand_contraction_spec(w) == "had not"@,
        forall|w: Seq<char>| lowercase(w) == "wouldn't"@ ==> #[trigger] expand_contraction_spec(w) == "would not"@,
        forall|w: Seq<char>| lowercase(w) == "couldn't"@ ==> #[trigger] expand_contraction_spec(w) == "could not"@,
        forall|w: Seq<char>| lowercase(w) == "shouldn't"@ ==> #[trigger] expand_contraction_spec(w) == "should not"@,
        forall|w: Seq<char>| lowercase(w) == "let's"@ ==> #[trigger] expand_contraction_spec(w) == "let us"@,
        forall|w: Seq<char>| lowercase(w) == "that's"@ ==> #[trigger] expand_contraction_spec(w) == "that is"@,
        forall|w: Seq<char>| lowercase(w) == "who's"@ ==> #[trigger] expand_contraction_spec(w) == "who is"@,
        forall|w: Seq<char>| lowercase(w) == "what's"@ ==> #[trigger] expand_contraction_spec(w) == "what is"@,
        forall|w: Seq<char>| lowercase(w) == "here's"@ ==> #[trigger] expand_contraction_spec(w) == "here is"@,
        forall|w: Seq<char>| lowercase(w) == "there's"@ ==> #[trigger] expand_contraction_spec(w) == "there is"@,
        forall|w: Seq<char>| lowercase(w) == "where's"@ ==> #[trigger] expand_contraction_spec(w) == "where is"@,
        forall|w: Seq<char>| lowercase(w) == "it's"@ ==> #[trigger] expand_contraction_spec(w) == "it is"@,
        forall|w: Seq<char>|
            !(lowercase(w) == "can't"@ || lowercase(w) == "won't"@ || lowercase(w) == "n't"@ || lowercase(w) == "'re"@ || lowercase(w) == "'ve"@ || lowercase(w) == "'ll"@ || lowercase(w) == "'d"@ || lowercase(w) == "'m"@ || lowercase(w) == "i'm"@ || lowercase(w) == "don't"@ || lowercase(w) == "doesn't"@ || lowercase(w) == "didn't"@ || lowercase(w) == "isn't"@ || lowercase(w) == "aren't"@ || lowercase(w) == "wasn't"@ || lowercase(w) == "weren't"@ || lowercase(w) == "haven't"@ || lowercase(w) == "hasn't"@ || lowercase(w) == "hadn't"@ || lowercase(w) == "wouldn't"@ || lowercase(w) == "couldn't"@ || lowercase(w) == "shouldn't"@ || lowercase(w) == "let's"@ || lowercase(w) == "that's"@ || lowercase(w) == "who's"@ || lowercase(w) == "what's"@ || lowercase(w) == "here's"@ || lowercase(w) == "there's"@ || lowercase(w) == "where's"@ || lowercase(w) == "it's"@) ==> #[trigger] expand_contraction_spec(w) == w,
{
    reveal_strlit(" am");
    reveal_strlit(" are");
    reveal_strlit(" have");
    reveal_strlit(" not");
    reveal_strlit(" will");
    reveal_strlit(" would");
    reveal_strlit("'d");
    reveal_strlit("'ll");
    reveal_strlit("'m");
    reveal_strlit("'re");
    reveal_strlit("'ve");
    reveal_strlit("are not");
    reveal_strlit("aren't");
    reveal_strlit("can't");
    reveal_strlit("cannot");
    reveal_strlit("could not");
    reveal_strlit("couldn't");
    reveal_strlit("did not");
    reveal_strlit("didn't");
    reveal_strlit("do not");
    reveal_strlit("does not");
    reveal_strlit("doesn't");
    reveal_strlit("don't");
    reveal_strlit("had not");
    reveal_strlit("hadn't");
    reveal_strlit("has not");
    reveal_strlit("hasn't");
    reveal_strlit("have not");
    reveal_strlit("haven't");
    reveal_strlit("here is");
    reveal_strlit("here's");
    reveal_strlit("i am");
    reveal_strlit("i'm");
    reveal_strlit("is not");
    reveal_strlit("isn't");
    reveal_strlit("it is");
    reveal_strlit("it's");
    reveal_strlit("let us");
    reveal_strlit("let's");
    reveal_strlit("n't");
    reveal_strlit("should not");
    reveal_strlit("shouldn't");
    reveal_strlit("that is");
    reveal_strlit("that's");
    reveal_strlit("there is");
    reveal_strlit("there's");
    reveal_strlit("was not");
    reveal_strlit("wasn't");
    reveal_strlit("were not");
    reveal_strlit("weren't");
    reveal_strlit("what is");
    reveal_strlit("what's");
    reveal_strlit("where is");
    reveal_strlit("where's");
    reveal_strlit("who is");
    reveal_strlit("who's");
    reveal_strlit("will not");
    reveal_strlit("won't");
    reveal_strlit("would not");
    reveal_strlit("wouldn't");
    assert forall|w: Seq<char>| lowercase(w) == "can't"@ implies #[trigger] expand_contraction_spec(w) == "cannot"@ by {
        assert(contraction_expansion("can't"@) == Some("cannot"@));
    }
    assert forall|w: Seq<char>| lowercase(w) == "won't"@ implies #[trigger] expand_contraction_spec(w) == "will not"@ by {
        assert("won't"@[0] != "can't"@[0]);
        assert(contraction_expansion("won't"@) == Some("will not"@));
    }
    assert forall|w: Seq<char>| lowercase(w) == "n't"@ implies #[trigger] expand_contraction_spec(w) == " not"@ by {
        assert("n't"@.len() != "can't"@.len());
        assert("n't"@.len() != "won't"@.len());
        assert(contraction_expansion("n't"@) == Some(" not"@));
    }
    assert forall|w: Seq<char>| lowercase(w) == "'re"@ implies #[trigger] expand_contraction_spec(w) == " are"@ by {
        assert("'re"@.len() != "can't"@.len());
        assert("'re"@.len() != "won't"@.len());
        assert("'re"@[0] != "n't"@[0]);
        assert(contraction_expansion("'re"@) == Some(" are"@));
    }
    assert forall|w: Seq<char>| lowercase(w) == "'ve"@ implies #[trigger] expand_contraction_spec(w) == " have"@ by {
        assert("'ve"@.len() != "can't"@.len());
        assert("'ve"@.len() != "won't"@.len());
        assert("'ve"@[0] != "n't"@[0]);
        assert("'ve"@[1] != "'re"@[1]);
        assert(contraction_expansion("'ve"@) == Some(" have"@));
    }
    assert forall|w: Seq<char>| lowercase(w) == "'ll"@ implies #[trigger] expand_contraction_spec(w) == " will"@ by {
        assert("'ll"@.len() != "can't"@.len());
        assert("'ll"@.len() != "won't"@.len());
        assert("'ll"@[0] != "n't"@[0]);
        assert("'ll"@[1] != "'re"@[1]);
        assert("'ll"@[1] != "'ve"@[1]);
        assert(contraction_expansion("'ll"@) == Some(" will"@));
    }
    assert forall|w: Seq<char>| lowercase(w) == "'d"@ implies #[trigger] expand_contraction_spec(w) == " would"@ by {
        assert("'d"@.len() != "can't"@.len());
        assert("'d"@.len() != "won't"@.len());
        assert("'d"@.len() != "n't"@.len());
        assert("'d"@.len() != "'re"@.len());
        assert("'d"@.len() != "'ve"@.len());
        assert("'d"@.len() != "'ll"@.len());
        assert(contraction_expansion("'d"@) == Some(" would"@));
    }
    assert forall|w: Seq<char>| lowercase(w) == "'m"@ implies #[trigger] expand_contraction_spec(w) == " am"@ by {
        assert("'m"@.len() != "can't"@.len());
        assert("'m"@.len() != "won't"@.len());
        assert("'m"@.len() != "n't"@.len());
        assert("'m"@.len() != "'re"@.len());
        assert("'m"@.len() != "'ve"@.len());
        assert("'m"@.len() != "'ll"@.len());
        assert("'m"@[1] != "'d"@[1]);
        assert(contraction_expansion("'m"@) == Some(" am"@));
    }
    assert forall|w: Seq<char>| lowercase(w) == "i'm"@ implies #[trigger] expand_contraction_spec(w) == "i am"@ by {
        assert("i'm"@.len() != "can't"@.len());
        assert("i'm"@.len() != "won't"@.len());
        assert("i'm"@[0] != "n't"@[0]);
        assert("i'm"@[0] != "'re"@[0]);
        assert("i'm"@[0] != "'ve"@[0]);
        assert("i'm"@[0] != "'ll"@[0]);
        assert("i'm"@.len() != "'d"@.len());
        assert("i'm"@.len() != "'m"@.len());
        assert(contraction_expansion("i'm"@) == Some("i am"@));
    }
    assert forall|w: Seq<char>| lowercase(w) == "don't"@ implies #[trigger] expand_contraction_spec(w) == "do not"@ by {
        assert("don't"@[0] != "can't"@[0]);
        assert("don't"@[0] != "won't"@[0]);
        assert("don't"@.len() != "n't"@.len());
        assert("don't"@.len() != "'re"@.len());
        assert("don't"@.len() != "'ve"@.len());
        assert("don't"@.len() != "'ll"@.len());
        assert("don't"@.len() != "'d"@.len());
        assert("don't"@.len() != "'m"@.len());
        assert("don't"@.len() != "i'm"@.len());
        assert(contraction_expansion("don't"@) == Some("do not"@));
    }
    assert forall|w: Seq<char>| lowercase(w) == "doesn't"@ implies #[trigger] expand_contraction_spec(w) == "does not"@ by {
        assert("doesn't"@.len() != "can't"@.len());
        assert("doesn't"@.len() != "won't"@.len());
        assert("doesn't"@.len() != "n't"@.len());
        assert("doesn't"@.len() != "'re"@.len());
        assert("doesn't"@.len() != "'ve"@.len());
        assert("doesn't"@.len() != "'ll"@.len());
        assert("doesn't"@.len() != "'d"@.len());
        assert("doesn't"@.len() != "'m"@.len());
        assert("doesn't"@.len() != "i'm"@.len());
        assert("doesn't"@.len() != "don't"@.len());
        assert(contraction_expansion("doesn't"@) == Some("does not"@));
    }
    assert forall|w: Seq<char>| lowercase(w) == "didn't"@ implies #[trigger] expand_contraction_spec(w) == "did not"@ by {
        assert("didn't"@.len() != "can't"@.len());
        assert("didn't"@.len() != "won't"@.len());
        assert("didn't"@.len() != "n't"@.len());
        assert("didn't"@.len() != "'re"@.len());
        assert("didn't"@.len() != "'ve"@.len());
        assert("didn't"@.len() != "'ll"@.len());
        assert("didn't"@.len() != "'d"@.len());
        assert("didn't"@.len() != "'m"@.len());
        assert("didn't"@.len() != "i'm"@.len());
        assert("didn't"@.len() != "don't"@.len());
        assert("didn't"@.len() != "doesn't"@.len());
        assert(contraction_expansion("didn't"@) == Some("did not"@));
    }
    assert forall|w: Seq<char>| lowercase(w) == "isn't"@ implies #[trigger] expand_contraction_spec(w) == "is not"@ by {
        assert("isn't"@[0] != "can't"@[0]);
        assert("isn't"@[0] != "won't"@[0]);
        assert("isn't"@.len() != "n't"@.len());
        assert("isn't"@.len() != "'re"@.len());
        assert("isn't"@.len() != "'ve"@.len());
        assert("isn't"@.len() != "'ll"@.len());
        assert("isn't"@.len() != "'d"@.len());
        assert("isn't"@.len() != "'m"@.len());
        assert("isn't"@.len() != "i'm"@.len());
        assert("isn't"@[0] != "don't"@[0]);
        assert("isn't"@.len() != "doesn't"@.len());
        assert("isn't"@.len() != "didn't"@.len());
        assert(contraction_expansion("isn't"@) == Some("is not"@));
    }
    assert forall|w: Seq<char>| lowercase(w) == "aren't"@ implies #[trigger] expand_contraction_spec(w) == "are not"@ by {
        assert("aren't"@.len() != "can't"@.len());
        assert("aren't"@.len() != "won't"@.len());
        assert("aren't"@.len() != "n't"@.len());
        assert("aren't"@.len() != "'re"@.len());
        assert("aren't"@.len() != "'ve"@.len());
        assert("aren't"@.len() != "'ll"@.len());
        assert("aren't"@.len() != "'d"@.len());
        assert("aren't"@.len() != "'m"@.len());
        assert("aren't"@.len() != "i'm"@.len());
        assert("aren't"@.len() != "don't"@.len());
        assert("aren't"@.len() != "doesn't"@.len());
        assert("aren't"@[0] != "didn't"@[0]);
        assert("aren't"@.len() != "isn't"@.len());
        assert(contraction_expansion("aren't"@) == Some("are not"@));
    }
    assert forall|w: Seq<char>| lowercase(w) == "wasn't"@ implies #[trigger] expand_contraction_spec(w) == "was not"@ by {
        assert("wasn't"@.len() != "can't"@.len());
        assert("wasn't"@.len() != "won't"@.len());
        assert("wasn't"@.len() != "n't"@.len());
        assert("wasn't"@.len() != "'re"@.len());
        assert("wasn't"@.len() != "'ve"@.len());
        assert("wasn't"@.len() != "'ll"@.len());
        assert("wasn't"@.len() != "'d"@.len());
        assert("wasn't"@.len() != "'m"@.len());
        assert("wasn't"@.len() != "i'm"@.len());
        assert("wasn't"@.len() != "don't"@.len());
        assert("wasn't"@.len() != "doesn't"@.len());
        assert("wasn't"@[0] != "didn't"@[0]);
        assert("wasn't"@.len() != "isn't"@.len());
        assert("wasn't"@[0] != "aren't"@[0]);
        assert(contraction_expansion("wasn't"@) == Some("was not"@));
    }
    assert forall|w: Seq<char>| lowercase(w) == "weren't"@ implies #[trigger] expand_contraction_spec(w) == "were not"@ by {
        assert("weren't"@.len() != "can't"@.len());
        assert("weren't"@.len() != "won't"@.len());
        assert("weren't"@.len() != "n't"@.len());
        assert("weren't"@.len() != "'re"@.len());
        assert("weren't"@.len() != "'ve"@.len());
        assert("weren't"@.len() != "'ll"@.len());
        assert("weren't"@.len() != "'d"@.len());
        assert("weren't"@.len() != "'m"@.len());
        assert("weren't"@.len() != "i'm"@.len());
        assert("weren't"@.len() != "don't"@.len());
        assert("weren't"@[0] != "doesn't"@[0]);
        assert("weren't"@.len() != "didn't"@.len());
        assert("weren't"@.len() != "isn't"@.len());
        assert("weren't"@.len() != "aren't"@.len());
        assert("weren't"@.len() != "wasn't"@.len());
        assert(contraction_expansion("weren't"@) == Some("were not"@));
    }
    assert forall|w: Seq<char>| lowercase(w) == "haven't"@ implies #[trigger] expand_contraction_spec(w) == "have not"@ by {
        assert("haven't"@.len() != "can't"@.len());
        assert("haven't"@.len() != "won't"@.len());
        assert("haven't"@.len() != "n't"@.len());
        assert("haven't"@.len() != "'re"@.len());
        assert("haven't"@.len() != "'ve"@.len());
        assert("haven't"@.len() != "'ll"@.len());
        assert("haven't"@.len() != "'d"@.len());
        assert("haven't"@.len() != "'m"@.len());
        assert("haven't"@.len() != "i'm"@.len());
        assert("haven't"@.len() != "don't"@.len());
        assert("haven't"@[0] != "doesn't"@[0]);
        assert("haven't"@.len() != "didn't"@.len());
        assert("haven't"@.len() != "isn't"@.len());
        assert("haven't"@.len() != "aren't"@.len());
        assert("haven't"@.len() != "wasn't"@.len());
        assert("haven't"@[0] != "weren't"@[0]);
        assert(contraction_expansion("haven't"@) == Some("have not"@));
    }
    assert forall|w: Seq<char>| lowercase(w) == "hasn't"@ implies #[trigger] expand_contraction_spec(w) == "has not"@ by {
        assert("hasn't"@.len() != "can't"@.len());
        assert("hasn't"@.len() != "won't"@.len());
        assert("hasn't"@.len() != "n't"@.len());
        assert("hasn't"@.len() != "'re"@.len());
        assert("hasn't"@.len() != "'ve"@.len());
        assert("hasn't"@.len() != "'ll"@.len());
        assert("hasn't"@.len() != "'d"@.len());
        assert("hasn't"@.len() != "'m"@.len());
        assert("hasn't"@.len() != "i'm"@.len());
        assert("hasn't"@.len() != "don't"@.len());
        assert("hasn't"@.len() != "doesn't"@.len());
        assert("hasn't"@[0] != "didn't"@[0]);
        assert("hasn't"@.len() != "isn't"@.len());
        assert("hasn't"@[0] != "aren't"@[0]);
        assert("hasn't"@[0] != "wasn't"@[0]);
        assert("hasn't"@.len() != "weren't"@.len());
        assert("hasn't"@.len() != "haven't"@.len());
        assert(contraction_expansion("hasn't"@) == Some("has not"@));
    }
    assert forall|w: Seq<char>| lowercase(w) == "hadn't"@ implies #[trigger] expand_contraction_spec(w) == "had not"@ by {
        assert("hadn't"@.len() != "can't"@.len());
        assert("hadn't"@.len() != "won't"@.len());
        assert("hadn't"@.len() != "n't"@.len());
        assert("hadn't"@.len() != "'re"@.len());
        assert("hadn't"@.len() != "'ve"@.len());
        assert("hadn't"@.len() != "'ll"@.len());
        assert("hadn't"@.len() != "'d"@.len());
        assert("hadn't"@.len() != "'m"@.len());
        assert("hadn't"@.len() != "i'm"@.len());
        assert("hadn't"@.len() != "don't"@.len());
        assert("hadn't"@.len() != "doesn't"@.len());
        assert("hadn't"@[0] != "didn't"@[0]);
        assert("hadn't"@.len() != "isn't"@.len());
        assert("hadn't"@[0] != "aren't"@[0]);
        assert("hadn't"@[0] != "wasn't"@[0]);
        assert("hadn't"@.len() != "weren't"@.len());
        assert("hadn't"@.len() != "haven't"@.len());
        assert("hadn't"@[2] != "hasn't"@[2]);
        assert(contraction_expansion("hadn't"@) == Some("had not"@));
    }
    assert forall|w: Seq<char>| lowercase(w) == "wouldn't"@ implies #[trigger] expand_contraction_spec(w) == "would not"@ by {
        assert("wouldn't"@.len() != "can't"@.len());
        assert("wouldn't"@.len() != "won't"@.len());
        assert("wouldn't"@.len() != "n't"@.len());
        assert("wouldn't"@.len() != "'re"@.len());
        assert("wouldn't"@.len() != "'ve"@.len());
        assert("wouldn't"@.len() != "'ll"@.len());
        assert("wouldn't"@.len() != "'d"@.len());
        assert("wouldn't"@.len() != "'m"@.len());
        assert("wouldn't"@.len() != "i'm"@.len());
        assert("wouldn't"@.len() != "don't"@.len());
        assert("wouldn't"@.len() != "doesn't"@.len());
        assert("wouldn't"@.len() != "didn't"@.len());
        assert("wouldn't"@.len() != "isn't"@.len());
        assert("wouldn't"@.len() != "aren't"@.len());
        assert("wouldn't"@.len() != "wasn't"@.len());
        assert("wouldn't"@.len() != "weren't"@.len());
        assert("wouldn't"@.len() != "haven't"@.len());
        assert("wouldn't"@.len() != "hasn't"@.len());
        assert("wouldn't"@.len() != "hadn't"@.len());
        assert(contraction_expansion("wouldn't"@) == Some("would not"@));
    }
    assert forall|w: Seq<char>| lowercase(w) == "couldn't"@ implies #[trigger] expand_contraction_spec(w) == "could not"@ by {
        assert("couldn't"@.len() != "can't"@.len());
        assert("couldn't"@.len() != "won't"@.len());
        assert("couldn't"@.len() != "n't"@.len());
        assert("couldn't"@.len() != "'re"@.len());
        assert("couldn't"@.len() != "'ve"@.len());
        assert("couldn't"@.len() != "'ll"@.len());
        assert("couldn't"@.len() != "'d"@.len());
        assert("couldn't"@.len() != "'m"@.len());
        assert("couldn't"@.len() != "i'm"@.len());
        assert("couldn't"@.len() != "don't"@.len());
        assert("couldn't"@.len() != "doesn't"@.len());
        assert("couldn't"@.len() != "didn't"@.len());
        assert("couldn't"@.len() != "isn't"@.len());
        assert("couldn't"@.len() != "aren't"@.len());
        assert("couldn't"@.len() != "wasn't"@.len());
        assert("couldn't"@.len() != "weren't"@.len());
        assert("couldn't"@.len() != "haven't"@.len());
        assert("couldn't"@.len() != "hasn't"@.len());
        assert("couldn't"@.len() != "hadn't"@.len());
        assert("couldn't"@[0] != "wouldn't"@[0]);
        assert(contraction_expansion("couldn't"@) == Some("could not"@));
    }
    assert forall|w: Seq<char>| lowercase(w) == "shouldn't"@ implies #[trigger] expand_contraction_spec(w) == "should not"@ by {
        assert("shouldn't"@.len() != "can't"@.len());
        assert("shouldn't"@.len() != "won't"@.len());
        assert("shouldn't"@.len() != "n't"@.len());
        assert("shouldn't"@.len() != "'re"@.len());
        assert("shouldn't"@.len() != "'ve"@.len());
        assert("shouldn't"@.len() != "'ll"@.len());
        assert("shouldn't"@.len() != "'d"@.len());
        assert("shouldn't"@.len() != "'m"@.len());
        assert("shouldn't"@.len() != "i'm"@.len());
        assert("shouldn't"@.len() != "don't"@.len());
        assert("shouldn't"@.len() != "doesn't"@.len());
        assert("shouldn't"@.len() != "didn't"@.len());
        assert("shouldn't"@.len() != "isn't"@.len());
        assert("shouldn't"@.len() != "aren't"@.len());
        assert("shouldn't"@.len() != "wasn't"@.len());
        assert("shouldn't"@.len() != "weren't"@.len());
        assert("shouldn't"@.len() != "haven't"@.len());
        assert("shouldn't"@.len() != "hasn't"@.len());
        assert("shouldn't"@.len() != "hadn't"@.len());
        assert("shouldn't"@.len() != "wouldn't"@.len());
        assert("shouldn't"@.len() != "couldn't"@.len());
        assert(contraction_expansion("shouldn't"@) == Some("should not"@));
    }
    assert forall|w: Seq<char>| lowercase(w) == "let's"@ implies #[trigger] expand_contraction_spec(w) == "let us"@ by {
        assert("let's"@[0] != "can't"@[0]);
        assert("let's"@[0] != "won't"@[0]);
        assert("let's"@.len() != "n't"@.len());
        assert("let's"@.len() != "'re"@.len());
        assert("let's"@.len() != "'ve"@.len());
        assert("let's"@.len() != "'ll"@.len());
        assert("let's"@.len() != "'d"@.len());
        assert("let's"@.len() != "'m"@.len());
        assert("let's"@.len() != "i'm"@.len());
        assert("let's"@[0] != "don't"@[0]);
        assert("let's"@.len() != "doesn't"@.len());
        assert("let's"@.len() != "didn't"@.len());
        assert("let's"@[0] != "isn't"@[0]);
        assert("let's"@.len() != "aren't"@.len());
        assert("let's"@.len() != "wasn't"@.len());
        assert("let's"@.len() != "weren't"@.len());
        assert("let's"@.len() != "haven't"@.len());
        assert("let's"@.len() != "hasn't"@.len());
        assert("let's"@.len() != "hadn't"@.len());
        assert("let's"@.len() != "wouldn't"@.len());
        assert("let's"@.len() != "couldn't"@.len());
        assert("let's"@.len() != "shouldn't"@.len());
        assert(contraction_expansion("let's"@) == Some("let us"@));
    }
    assert forall|w: Seq<char>| lowercase(w) == "that's"@ implies #[trigger] expand_contraction_spec(w) == "that is"@ by {
        assert("that's"@.len() != "can't"@.len());
        assert("that's"@.len() != "won't"@.len());
        assert("that's"@.len() != "n't"@.len());
        assert("that's"@.len() != "'re"@.len());
        assert("that's"@.len() != "'ve"@.len());
        assert("that's"@.len() != "'ll"@.len());
        assert("that's"@.len() != "'d"@.len());
        assert("that's"@.len() != "'m"@.len());
        assert("that's"@.len() != "i'm"@.len());
        assert("that's"@.len() != "don't"@.len());
        assert("that's"@.len() != "doesn't"@.len());
        assert("that's"@[0] != "didn't"@[0]);
        assert("that's"@.len() != "isn't"@.len());
        assert("that's"@[0] != "aren't"@[0]);
        assert("that's"@[0] != "wasn't"@[0]);
        assert("that's"@.len() != "weren't"@.len());
        assert("that's"@.len() != "haven't"@.len());
        assert("that's"@[0] != "hasn't"@[0]);
        assert("that's"@[0] != "hadn't"@[0]);
        assert("that's"@.len() != "wouldn't"@.len());
        assert("that's"@.len() != "couldn't"@.len());
        assert("that's"@.len() != "shouldn't"@.len());
        assert("that's"@.len() != "let's"@.len());
        assert(contraction_expansion("that's"@) == Some("that is"@));
    }
    assert forall|w: Seq<char>| lowercase(w) == "who's"@ implies #[trigger] expand_contraction_spec(w) == "who is"@ by {
        assert("who's"@[0] != "can't"@[0]);
        assert("who's"@[1] != "won't"@[1]);
        assert("who's"@.len() != "n't"@.len());
        assert("who's"@.len() != "'re"@.len());
        assert("who's"@.len() != "'ve"@.len());
        assert("who's"@.len() != "'ll"@.len());
        assert("who's"@.len() != "'d"@.len());
        assert("who's"@.len() != "'m"@.len());
        assert("who's"@.len() != "i'm"@.len());
        assert("who's"@[0] != "don't"@[0]);
        assert("who's"@.len() != "doesn't"@.len());
        assert("who's"@.len() != "didn't"@.len());
        assert("who's"@[0] != "isn't"@[0]);
        assert("who's"@.len() != "aren't"@.len());
        assert("who's"@.len() != "wasn't"@.len());
        assert("who's"@.len() != "weren't"@.len());
        assert("who's"@.len() != "haven't"@.len());
        assert("who's"@.len() != "hasn't"@.len());
        assert("who's"@.len() != "hadn't"@.len());
        assert("who's"@.len() != "wouldn't"@.len());
        assert("who's"@.len() != "couldn't"@.len());
        assert("who's"@.len() != "shouldn't"@.len());
        assert("who's"@[0] != "let's"@[0]);
        assert("who's"@.len() != "that's"@.len());
        assert(contraction_expansion("who's"@) == Some("who is"@));
    }
    assert forall|w: Seq<char>| lowercase(w) == "what's"@ implies #[trigger] expand_contraction_spec(w) == "what is"@ by {
        assert("what's"@.len() != "can't"@.len());
        assert("what's"@.len() != "won't"@.len());
        assert("what's"@.len() != "n't"@.len());
        assert("what's"@.len() != "'re"@.len());
        assert("what's"@.len() != "'ve"@.len());
        assert("what's"@.len() != "'ll"@.len());
        assert("what's"@.len() != "'d"@.len());
        assert("what's"@.len() != "'m"@.len());
        assert("what's"@.len() != "i'm"@.len());
        assert("what's"@.len() != "don't"@.len());
        assert("what's"@.len() != "doesn't"@.len());
        assert("what's"@[0] != "didn't"@[0]);
        assert("what's"@.len() != "isn't"@.len());
        assert("what's"@[0] != "aren't"@[0]);
        assert("what's"@[1] != "wasn't"@[1]);
        assert("what's"@.len() != "weren't"@.len());
        assert("what's"@.len() != "haven't"@.len());
        assert("what's"@[0] != "hasn't"@[0]);
        assert("what's"@[0] != "hadn't"@[0]);
        assert("what's"@.len() != "wouldn't"@.len());
        assert("what's"@.len() != "couldn't"@.len());
        assert("what's"@.len() != "shouldn't"@.len());
        assert("what's"@.len() != "let's"@.len());
        assert("what's"@[0] != "that's"@[0]);
        assert("what's"@.len() != "who's"@.len());
        assert(contraction_expansion("what's"@) == Some("what is"@));
    }
    assert forall|w: Seq<char>| lowercase(w) == "here's"@ implies #[trigger] expand_contraction_spec(w) == "here is"@ by {
        assert("here's"@.len() != "can't"@.len());
        assert("here's"@.len() != "won't"@.len());
        assert("here's"@.len() != "n't"@.len());
        assert("here's"@.len() != "'re"@.len());
        assert("here's"@.len() != "'ve"@.len());
        assert("here's"@.len() != "'ll"@.len());
        assert("here's"@.len() != "'d"@.len());
        assert("here's"@.len() != "'m"@.len());
        assert("here's"@.len() != "i'm"@.len());
        assert("here's"@.len() != "don't"@.len());
        assert("here's"@.len() != "doesn't"@.len());
        assert("here's"@[0] != "didn't"@[0]);
        assert("here's"@.len() != "isn't"@.len());
        assert("here's"@[0] != "aren't"@[0]);
        assert("here's"@[0] != "wasn't"@[0]);
        assert("here's"@.len() != "weren't"@.len());
        assert("here's"@.len() != "haven't"@.len());
        assert("here's"@[1] != "hasn't"@[1]);
        assert("here's"@[1] != "hadn't"@[1]);
        assert("here's"@.len() != "wouldn't"@.len());
        assert("here's"@.len() != "couldn't"@.len());
        assert("here's"@.len() != "shouldn't"@.len());
        assert("here's"@.len() != "let's"@.len());
        assert("here's"@[0] != "that's"@[0]);
        assert("here's"@.len() != "who's"@.len());
        assert("here's"@[0] != "what's"@[0]);
        assert(contraction_expansion("here's"@) == Some("here is"@));
    }
    assert forall|w: Seq<char>| lowercase(w) == "there's"@ implies #[trigger] expand_contraction_spec(w) == "there is"@ by {
        assert("there's"@.len() != "can't"@.len());
        assert("there's"@.len() != "won't"@.len());
        assert("there's"@.len() != "n't"@.len());
        assert("there's"@.len() != "'re"@.len());
        assert("there's"@.len() != "'ve"@.len());
        assert("there's"@.len() != "'ll"@.len());
        assert("there's"@.len() != "'d"@.len());
        assert("there's"@.len() != "'m"@.len());
        assert("there's"@.len() != "i'm"@.len());
        assert("there's"@.len() != "don't"@.len());
        assert("there's"@[0] != "doesn't"@[0]);
        assert("there's"@.len() != "didn't"@.len());
        assert("there's"@.len() != "isn't"@.len());
        assert("there's"@.len() != "aren't"@.len());
        assert("there's"@.len() != "wasn't"@.len());
        assert("there's"@[0] != "weren't"@[0]);
        assert("there's"@[0] != "haven't"@[0]);
        assert("there's"@.len() != "hasn't"@.len());
        assert("there's"@.len() != "hadn't"@.len());
        assert("there's"@.len() != "wouldn't"@.len());
        assert("there's"@.len() != "couldn't"@.len());
        assert("there's"@.len() != "shouldn't"@.len());
        assert("there's"@.len() != "let's"@.len());
        assert("there's"@.len() != "that's"@.len());
        assert("there's"@.len() != "who's"@.len());
        assert("there's"@.len() != "what's"@.len());
        assert("there's"@.len() != "here's"@.len());
        assert(contraction_expansion("there's"@) == Some("there is"@));
    }
    assert forall|w: Seq<char>| lowercase(w) == "where's"@ implies #[trigger] expand_contraction_spec(w) == "where is"@ by {
        assert("where's"@.len() != "can't"@.len());
        assert("where's"@.len() != "won't"@.len());
        assert("where's"@.len() != "n't"@.len());
        assert("where's"@.len() != "'re"@.len());
        assert("where's"@.len() != "'ve"@.len());
        assert("where's"@.len() != "'ll"@.len());
        assert("where's"@.len() != "'d"@.len());
        assert("where's"@.len() != "'m"@.len());
        assert("where's"@.len() != "i'm"@.len());
        assert("where's"@.len() != "don't"@.len());
        assert("where's"@[0] != "doesn't"@[0]);
        assert("where's"@.len() != "didn't"@.len());
        assert("where's"@.len() != "isn't"@.len());
        assert("where's"@.len() != "aren't"@.len());
        assert("where's"@.len() != "wasn't"@.len());
        assert("where's"@[1] != "weren't"@[1]);
        assert("where's"@[0] != "haven't"@[0]);
        assert("where's"@.len() != "hasn't"@.len());
        assert("where's"@.len() != "hadn't"@.len());
        assert("where's"@.len() != "wouldn't"@.len());
        assert("where's"@.len() != "couldn't"@.len());
        assert("where's"@.len() != "shouldn't"@.len());
        assert("where's"@.len() != "let's"@.len());
        assert("where's"@.len() != "that's"@.len());
        assert("where's"@.len() != "who's"@.len());
        assert("where's"@.len() != "what's"@.len());
        assert("where's"@.len() != "here's"@.len());
        assert("where's"@[0] != "there's"@[0]);
        assert(contraction_expansion("where's"@) == Some("where is"@));
    }
    assert forall|w: Seq<char>| lowercase(w) == "it's"@ implies #[trigger] expand_contraction_spec(w) == "it is"@ by {
        assert("it's"@.len() != "can't"@.len());
        assert("it's"@.len() != "won't"@.len());
        assert("it's"@.len() != "n't"@.len());
        assert("it's"@.len() != "'re"@.len());
        assert("it's"@.len() != "'ve"@.len());
        assert("it's"@.len() != "'ll"@.len());
        assert("it's"@.len() != "'d"@.len());
        assert("it's"@.len() != "'m"@.len());
        assert("it's"@.len() != "i'm"@.len());
        assert("it's"@.len() != "don't"@.len());
        assert("it's"@.len() != "doesn't"@.len());
        assert("it's"@.len() != "didn't"@.len());
        assert("it's"@.len() != "isn't"@.len());
        assert("it's"@.len() != "aren't"@.len());
        assert("it's"@.len() != "wasn't"@.len());
        assert("it's"@.len() != "weren't"@.len());
        assert("it's"@.len() != "haven't"@.len());
        assert("it's"@.len() != "hasn't"@.len());
        assert("it's"@.len() != "hadn't"@.len());
        assert("it's"@.len() != "wouldn't"@.len());
        assert("it's"@.len() != "couldn't"@.len());
        assert("it's"@.len() != "shouldn't"@.len());
        assert("it's"@.len() != "let's"@.len());
        assert("it's"@.len() != "that's"@.len());
        assert("it's"@.len() != "who's"@.len());
        assert("it's"@.len() != "what's"@.len());
        assert("it's"@.len() != "here's"@.len());
        assert("it's"@.len() != "there's"@.len());
        assert("it's"@.len() != "where's"@.len());
        assert(contraction_expansion("it's"@) == Some("it is"@));
    }
}

/// Stop-word law: each of the common English words the language heuristic
/// counts is a stop word.
pub proof fn lemma_stop_word_list()
    ensures
        is_english_stop_word("the"@),
        is_english_stop_word("and"@),
        is_english_stop_word("a"@),
        is_english_stop_word("an"@),
        is_english_stop_word("in"@),
        is_english_stop_word("on"@),
        is_english_stop_word("at"@),
        is_english_stop_word("to"@),
        is_english_stop_word("for"@),
        is_english_stop_word("of"@),
        is_english_stop_word("with"@),
        is_english_stop_word("by"@),
        is_english_stop_word("is"@),
        is_english_stop_word("are"@),
        is_english_stop_word("was"@),
        is_english_stop_word("were"@),
        is_english_stop_word("be"@),
        is_english_stop_word("been"@),
        is_english_stop_word("being"@),
        is_english_stop_word("have"@),
        is_english_stop_word("has"@),
        is_english_stop_word("had"@),
        is_english_stop_word("do"@),
        is_english_stop_word("does"@),
        is_english_stop_word("did"@),
        is_english_stop_word("will"@),
        is_english_stop_word("would"@),
        is_english_stop_word("shall"@),
        is_english_stop_word("should"@),
        is_english_stop_word("can"@),
        is_english_stop_word("could"@),
        is_english_stop_word("may"@),
        is_english_stop_word("might"@),
        is_english_stop_word("must"@),
        is_english_stop_word("i"@),
        is_english_stop_word("you"@),
        is_english_stop_word("he"@),
        is_english_stop_word("she"@),
        is_english_stop_word("it"@),
        is_english_stop_word("we"@),
        is_english_stop_word("they"@),
        is_english_stop_word("me"@),
        is_english_stop_word("him"@),
        is_english_stop_word("her"@),
        is_english_stop_word("us"@),
        is_english_stop_word("them"@),
{
    reveal_strlit("the");
    reveal_strlit("and");
    reveal_strlit("a");
    reveal_strlit("an");
    reveal_strlit("in");
    reveal_strlit("on");
    reveal_strlit("at");
    reveal_strlit("to");
    reveal_strlit("for");
    reveal_strlit("of");
    reveal_strlit("with");
    reveal_strlit("by");
    reveal_strlit("is");
    reveal_strlit("are");
    reveal_strlit("was");
    reveal_strlit("were");
    reveal_strlit("be");
    reveal_strlit("been");
    reveal_strlit("being");
    reveal_strlit("have");
    reveal_strlit("has");
    reveal_strlit("had");
    reveal_strlit("do");
    reveal_strlit("does");
    reveal_strlit("did");
    reveal_strlit("will");
    reveal_strlit("would");
    reveal_strlit("shall");
    reveal_strlit("should");
    reveal_strlit("can");
    reveal_strlit("could");
    reveal_strlit("may");
    reveal_strlit("might");
    reveal_strlit("must");
    reveal_strlit("i");
    reveal_strlit("you");
    reveal_strlit("he");
    reveal_strlit("she");
    reveal_strlit("it");
    reveal_strlit("we");
    reveal_strlit("they");
    reveal_strlit("me");
    reveal_strlit("him");
    reveal_strlit("her");
    reveal_strlit("us");
    reveal_strlit("them");
}

} // verus!
