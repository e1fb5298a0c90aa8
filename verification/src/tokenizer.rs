//! Character prefix n-gram tokenizer.
//!
//! Text is cut into terms (maximal runs of alphanumeric chars, lower-cased). A term
//! without CJK ideographs gives its prefixes up to `max_ngram` chars; a term with CJK
//! ideographs gives every substring of at most `max_ngram` chars, by start position.
//! Each term ends with a boundary token, `#` followed by the term. Tokens get ids in
//! the order in which they are first seen.
use std::collections::HashMap;
use vstd::hash_map::StringHashMap;
use vstd::prelude::*;

use crate::text::{
    alphanumeric, append_chars, chars_of, join_chars, string_of, char_is_alphanumeric, char_to_lowercase, char_vecs, contains_cjk,
    has_cjk, has_char, join_with, lowercase, slice_chars,
};

verus! {

broadcast use vstd::std_specs::hash::group_hash_axioms;

pub const DEFAULT_MAX_NGRAM: usize = 4;

// ---------------------------------------------------------------------------
// Terms and tokens
// ---------------------------------------------------------------------------

/// Scan state after reading chars classified by `alnum` with lowercase chars `lowered`:
/// the terms already closed and the lowercase chars of the term still open. An
/// alphanumeric char adds its lowercase chars to the open term; another char closes the
/// open term, if it has any chars.
pub open spec fn term_scan(alnum: Seq<bool>, lowered: Seq<Seq<char>>) -> (Seq<Seq<char>>, Seq<char>)
    decreases alnum.len(),
{
    if alnum.len() == 0 {
        (seq![], seq![])
    } else {
        let (done, cur) = term_scan(alnum.drop_last(), lowered.drop_last());
        if alnum.last() {
            (done, cur + lowered.last())
        } else if cur.len() > 0 {
            (done.push(cur), seq![])
        } else {
            (done, cur)
        }
    }
}

/// The terms read from a classification of chars: the closed terms and the open one,
/// if it has any chars.
pub open spec fn terms_from(alnum: Seq<bool>, lowered: Seq<Seq<char>>) -> Seq<Seq<char>> {
    let (done, cur) = term_scan(alnum, lowered);
    if cur.len() > 0 {
        done.push(cur)
    } else {
        done
    }
}

/// Whether each char of `text` is alphanumeric.
pub open spec fn alnum_flags(text: Seq<char>) -> Seq<bool> {
    text.map_values(|c: char| alphanumeric(c))
}

/// The lowercase chars of each char of `text`.
pub open spec fn lowered_chars(text: Seq<char>) -> Seq<Seq<char>> {
    text.map_values(|c: char| lowercase(c))
}

/// The terms of `text`: its runs of alphanumeric chars, each char replaced by its
/// lowercase chars; a run is closed by the first other char.
pub open spec fn normalized_terms(text: Seq<char>) -> Seq<Seq<char>> {
    terms_from(alnum_flags(text), lowered_chars(text))
}

/// The token that marks the end of a term: `#` and the term.
pub open spec fn boundary_token(term: Seq<char>) -> Seq<char> {
    seq!['#'] + term
}

pub open spec fn min_nat(a: nat, b: nat) -> nat {
    if a <= b {
        a
    } else {
        b
    }
}

/// The prefixes of `word` of 1 up to `n` chars, then the boundary token.
pub open spec fn prefix_ngrams(word: Seq<char>, n: nat) -> Seq<Seq<char>> {
    Seq::new(min_nat(n, word.len()), |i: int| word.take(i + 1)).push(boundary_token(word))
}

/// The substrings of `term` that start at `start`, of 1 up to `n` chars.
pub open spec fn window_ngrams(term: Seq<char>, n: nat, start: int) -> Seq<Seq<char>> {
    Seq::new(min_nat(n, (term.len() - start) as nat), |l: int| term.subrange(start, start + l + 1))
}

/// Every substring of `term` of 1 up to `n` chars, by start position and then by
/// length, then the boundary token.
pub open spec fn sliding_ngrams(term: Seq<char>, n: nat) -> Seq<Seq<char>> {
    Seq::new(term.len(), |start: int| window_ngrams(term, n, start)).flatten().push(
        boundary_token(term),
    )
}

/// The tokens of one term.
pub open spec fn term_tokens(term: Seq<char>, n: nat) -> Seq<Seq<char>> {
    if has_cjk(term) {
        sliding_ngrams(term, n)
    } else {
        prefix_ngrams(term, n)
    }
}

/// The tokens of `text`, term by term.
pub open spec fn text_tokens(text: Seq<char>, n: nat) -> Seq<Seq<char>> {
    normalized_terms(text).map_values(|t: Seq<char>| term_tokens(t, n)).flatten()
}

/// The terms of a text from the classification of its chars: `alnum[i]` says whether
/// char `i` is alphanumeric and `lowered[i]` holds its lowercase chars.
pub fn normalized_terms_from(alnum: &Vec<bool>, lowered: &Vec<Vec<char>>) -> (r: Vec<Vec<char>>)
    requires
        alnum@.len() == lowered@.len(),
    ensures
        char_vecs(r@) == terms_from(alnum@, char_vecs(lowered@)),
        forall|i: int| 0 <= i < r@.len() ==> (#[trigger] r@[i])@.len() > 0,
{
    let ghost low = char_vecs(lowered@);
    let mut terms: Vec<Vec<char>> = Vec::new();
    let mut current: Vec<char> = Vec::new();
    let mut i: usize = 0;
    while i < alnum.len()
        invariant
            low == char_vecs(lowered@),
            alnum@.len() == lowered@.len(),
            i <= alnum.len(),
            (char_vecs(terms@), current@) == term_scan(alnum@.take(i as int), low.take(i as int)),
            forall|k: int| 0 <= k < terms@.len() ==> (#[trigger] terms@[k])@.len() > 0,
        decreases alnum.len() - i,
    {
        assert(alnum@.take(i + 1).drop_last() =~= alnum@.take(i as int));
        assert(low.take(i + 1).drop_last() =~= low.take(i as int));
        assert(low.take(i + 1).last() == lowered@[i as int]@);
        if alnum[i] {
            append_chars(&mut current, &lowered[i]);
        } else if current.len() > 0 {
            let ghost terms_before = char_vecs(terms@);
            let ghost cur = current@;
            terms.push(current);
            current = Vec::new();
            assert(char_vecs(terms@) =~= terms_before.push(cur));
        }
        i = i + 1;
    }
    assert(alnum@.take(alnum.len() as int) =~= alnum@);
    assert(low.take(alnum.len() as int) =~= low);
    if current.len() > 0 {
        let ghost terms_before = char_vecs(terms@);
        let ghost cur = current@;
        terms.push(current);
        assert(char_vecs(terms@) =~= terms_before.push(cur));
    }
    terms
}

/// The terms of a text: its chars are classified one by one and the result handed to
/// `normalized_terms_from`.
pub fn normalized_terms_of(text: &Vec<char>) -> (r: Vec<Vec<char>>)
    ensures
        char_vecs(r@) == normalized_terms(text@),
        forall|i: int| 0 <= i < r@.len() ==> (#[trigger] r@[i])@.len() > 0,
        forall|i: int| 0 <= i < text@.len() ==> (#[trigger] lowercase(text@[i])).len() >= 1,
        has_alphanumeric(text@) ==> r@.len() > 0,
{
    let mut alnum: Vec<bool> = Vec::new();
    let mut lowered: Vec<Vec<char>> = Vec::new();
    let mut i: usize = 0;
    while i < text.len()
        invariant
            i <= text.len(),
            alnum@ == alnum_flags(text@).take(i as int),
            char_vecs(lowered@) == lowered_chars(text@).take(i as int),
            forall|k: int| 0 <= k < i ==> (#[trigger] lowercase(text@[k])).len() >= 1,
        decreases text.len() - i,
    {
        let ch = text[i];
        alnum.push(char_is_alphanumeric(ch));
        let ghost before = char_vecs(lowered@);
        let low = char_to_lowercase(ch);
        let ghost lv = low@;
        lowered.push(low);
        assert(char_vecs(lowered@) =~= before.push(lv));
        assert(alnum@ =~= alnum_flags(text@).take(i + 1));
        assert(char_vecs(lowered@) =~= lowered_chars(text@).take(i + 1));
        i = i + 1;
    }
    assert(alnum_flags(text@).take(text.len() as int) =~= alnum_flags(text@));
    assert(lowered_chars(text@).take(text.len() as int) =~= lowered_chars(text@));
    proof {
        if has_alphanumeric(text@) {
            let k = choose|k: int| 0 <= k < text@.len() && #[trigger] alphanumeric(text@[k]);
            assert(lowercase(text@[k]).len() >= 1);
            lemma_terms_exist(alnum_flags(text@), lowered_chars(text@), k);
        }
    }
    normalized_terms_from(&alnum, &lowered)
}

/// Whether some char of `text` is alphanumeric.
pub open spec fn has_alphanumeric(text: Seq<char>) -> bool {
    exists|k: int| 0 <= k < text.len() && #[trigger] alphanumeric(text[k])
}

/// A classification with an alphanumeric char whose lowercase chars are not empty
/// gives at least one term.
pub proof fn lemma_terms_exist(alnum: Seq<bool>, lowered: Seq<Seq<char>>, k: int)
    requires
        alnum.len() == lowered.len(),
        0 <= k < alnum.len(),
        alnum[k],
        lowered[k].len() > 0,
    ensures
        terms_from(alnum, lowered).len() > 0,
{
    lemma_scan_open_or_closed(alnum, lowered, k);
}

pub proof fn lemma_scan_open_or_closed(alnum: Seq<bool>, lowered: Seq<Seq<char>>, k: int)
    requires
        alnum.len() == lowered.len(),
        0 <= k < alnum.len(),
        alnum[k],
        lowered[k].len() > 0,
    ensures
        term_scan(alnum, lowered).0.len() > 0 || term_scan(alnum, lowered).1.len() > 0,
    decreases alnum.len(),
{
    let (done, cur) = term_scan(alnum.drop_last(), lowered.drop_last());
    if k < alnum.len() - 1 {
        assert(alnum.drop_last()[k] == alnum[k]);
        assert(lowered.drop_last()[k] == lowered[k]);
        lemma_scan_open_or_closed(alnum.drop_last(), lowered.drop_last(), k);
    } else {
        assert(alnum.last() == alnum[k]);
        assert(lowered.last() == lowered[k]);
        assert((cur + lowered.last()).len() > 0);
    }
}

/// The tokens of a text with at least one term are not empty: every term ends with its
/// boundary token.
pub proof fn lemma_text_tokens_exist(text: Seq<char>, n: nat)
    requires
        normalized_terms(text).len() > 0,
    ensures
        text_tokens(text, n).len() > 0,
{
    let per = normalized_terms(text).map_values(|t: Seq<char>| term_tokens(t, n));
    assert(per[0].len() > 0);
    assert(per.flatten() == per.first() + per.drop_first().flatten());
}

pub fn boundary_token_of(term: &Vec<char>) -> (r: Vec<char>)
    ensures
        r@ == boundary_token(term@),
{
    let mut r: Vec<char> = Vec::new();
    r.push('#');
    append_chars(&mut r, term);
    assert(r@ =~= boundary_token(term@));
    r
}

pub fn ngrams_for_word(word: &Vec<char>, max_ngram: usize) -> (r: Vec<Vec<char>>)
    ensures
        char_vecs(r@) == prefix_ngrams(word@, max_ngram as nat),
{
    let prefix_count = if max_ngram < word.len() {
        max_ngram
    } else {
        word.len()
    };
    let ghost f = |i: int| word@.take(i + 1);
    let mut tokens: Vec<Vec<char>> = Vec::new();
    let mut count: usize = 0;
    while count < prefix_count
        invariant
            f == (|i: int| word@.take(i + 1)),
            prefix_count == min_nat(max_ngram as nat, word@.len()),
            prefix_count <= word@.len(),
            count <= prefix_count,
            char_vecs(tokens@) == Seq::new(count as nat, f),
        decreases prefix_count - count,
    {
        let ghost before = char_vecs(tokens@);
        let piece = slice_chars(word, 0, count + 1);
        let ghost pv = piece@;
        tokens.push(piece);
        assert(char_vecs(tokens@) =~= before.push(pv));
        assert(pv =~= f(count as int));
        assert(Seq::new((count + 1) as nat, f) =~= Seq::new(count as nat, f).push(f(count as int)));
        count = count + 1;
    }
    let ghost before = char_vecs(tokens@);
    let b = boundary_token_of(word);
    tokens.push(b);
    assert(char_vecs(tokens@) =~= before.push(boundary_token(word@)));
    tokens
}

pub fn cjk_ngrams_for_term(term: &Vec<char>, max_ngram: usize) -> (r: Vec<Vec<char>>)
    ensures
        char_vecs(r@) == sliding_ngrams(term@, max_ngram as nat),
{
    let ghost n = max_ngram as nat;
    let ghost g = |start: int| window_ngrams(term@, n, start);
    let mut tokens: Vec<Vec<char>> = Vec::new();
    let mut start: usize = 0;
    while start < term.len()
        invariant
            n == max_ngram as nat,
            g == (|start: int| window_ngrams(term@, n, start)),
            start <= term.len(),
            char_vecs(tokens@) == Seq::new(start as nat, g).flatten(),
        decreases term.len() - start,
    {
        let rest = term.len() - start;
        let max_len = if max_ngram < rest {
            max_ngram
        } else {
            rest
        };
        let ghost done = char_vecs(tokens@);
        let ghost h = |l: int| term@.subrange(start as int, start + l + 1);
        let mut count: usize = 0;
        while count < max_len
            invariant
                h == (|l: int| term@.subrange(start as int, start + l + 1)),
                start < term.len(),
                max_len == min_nat(n, (term@.len() - start) as nat),
                max_len <= term@.len() - start,
                count <= max_len,
                char_vecs(tokens@) == done + Seq::new(count as nat, h),
            decreases max_len - count,
        {
            let ghost before = char_vecs(tokens@);
            let piece = slice_chars(term, start, start + count + 1);
            let ghost pv = piece@;
            tokens.push(piece);
            assert(char_vecs(tokens@) =~= before.push(pv));
            assert(pv =~= h(count as int));
            assert(Seq::new((count + 1) as nat, h) =~= Seq::new(count as nat, h).push(h(count as int)));
            count = count + 1;
        }
        proof {
            assert(Seq::new(count as nat, h) =~= window_ngrams(term@, n, start as int));
            assert(Seq::new((start + 1) as nat, g) =~= Seq::new(start as nat, g).push(
                window_ngrams(term@, n, start as int),
            ));
            Seq::new(start as nat, g).lemma_flatten_push(window_ngrams(term@, n, start as int));
        }
        start = start + 1;
    }
    let ghost before = char_vecs(tokens@);
    let b = boundary_token_of(term);
    tokens.push(b);
    assert(char_vecs(tokens@) =~= before.push(boundary_token(term@)));
    tokens
}

pub fn tokens_for_term(term: &Vec<char>, max_ngram: usize) -> (r: Vec<Vec<char>>)
    ensures
        char_vecs(r@) == term_tokens(term@, max_ngram as nat),
{
    if contains_cjk(term) {
        cjk_ngrams_for_term(term, max_ngram)
    } else {
        ngrams_for_word(term, max_ngram)
    }
}

pub fn tokens_for_text(text: &Vec<char>, max_ngram: usize) -> (r: Vec<Vec<char>>)
    ensures
        char_vecs(r@) == text_tokens(text@, max_ngram as nat),
        has_alphanumeric(text@) ==> r@.len() > 0,
{
    let terms = normalized_terms_of(text);
    proof {
        if has_alphanumeric(text@) {
            lemma_text_tokens_exist(text@, max_ngram as nat);
        }
    }
    let ghost n = max_ngram as nat;
    let ghost per = char_vecs(terms@).map_values(|t: Seq<char>| term_tokens(t, n));
    let mut tokens: Vec<Vec<char>> = Vec::new();
    let mut i: usize = 0;
    while i < terms.len()
        invariant
            n == max_ngram as nat,
            per == char_vecs(terms@).map_values(|t: Seq<char>| term_tokens(t, n)),
            i <= terms.len(),
            char_vecs(tokens@) == per.take(i as int).flatten(),
        decreases terms.len() - i,
    {
        let mut piece = tokens_for_term(&terms[i], max_ngram);
        let ghost before = char_vecs(tokens@);
        let ghost pv = char_vecs(piece@);
        tokens.append(&mut piece);
        assert(char_vecs(tokens@) =~= before + pv);
        proof {
            assert(per.take(i + 1) =~= per.take(i as int).push(per[i as int]));
            per.take(i as int).lemma_flatten_push(per[i as int]);
        }
        i = i + 1;
    }
    assert(per.take(terms.len() as int) =~= per);
    tokens
}

// ---------------------------------------------------------------------------
// Vocabulary model
// ---------------------------------------------------------------------------

/// The abstract vocabulary: the id of each known token, the token recorded for each
/// id, and the id that the next new token receives.
pub struct VocabState {
    pub ids: Map<Seq<char>, u32>,
    pub tokens: Map<u32, Seq<char>>,
    pub next_id: u32,
}

/// An id handed out when the counter stood at `next`: every id below the counter, and
/// the top id once the counter has saturated there.
pub open spec fn issued(id: u32, next: u32) -> bool {
    id < next || (id == next && next == u32::MAX)
}

/// The vocabulary invariant: ids and tokens are inverse to each other below the top
/// id, every id below the counter is in use, and the token recorded for an id has that
/// id.
pub open spec fn vocab_wf(st: VocabState) -> bool {
    &&& forall|t: Seq<char>| #[trigger]
        st.ids.contains_key(t) ==> issued(st.ids[t], st.next_id)
    &&& forall|id: u32| #[trigger]
        st.tokens.contains_key(id) ==> st.ids.contains_key(st.tokens[id]) && st.ids[st.tokens[id]]
            == id
    &&& forall|id: u32| id < st.next_id ==> #[trigger] st.tokens.contains_key(id)
    &&& forall|t: Seq<char>| #[trigger]
        st.ids.contains_key(t) && st.ids[t] != u32::MAX ==> st.tokens.contains_key(st.ids[t])
            && st.tokens[st.ids[t]] == t
}

/// The id of `token` and the vocabulary after it: a known token keeps its id; a new
/// token takes the counter's id, which is recorded both ways, and the counter moves on
/// by one, saturating at the top id.
pub open spec fn insert_token(st: VocabState, token: Seq<char>) -> (VocabState, u32) {
    if st.ids.contains_key(token) {
        (st, st.ids[token])
    } else {
        let id = st.next_id;
        (
            VocabState {
                ids: st.ids.insert(token, id),
                tokens: st.tokens.insert(id, token),
                next_id: if id == u32::MAX {
                    id
                } else {
                    (id + 1) as u32
                },
            },
            id,
        )
    }
}

/// `insert_token` applied to each token in order: the final vocabulary and the ids.
pub open spec fn insert_tokens(st: VocabState, tokens: Seq<Seq<char>>) -> (VocabState, Seq<u32>)
    decreases tokens.len(),
{
    if tokens.len() == 0 {
        (st, seq![])
    } else {
        let (mid, ids) = insert_tokens(st, tokens.drop_last());
        let (fin, id) = insert_token(mid, tokens.last());
        (fin, ids.push(id))
    }
}

/// The ids of the tokens that the vocabulary knows, in order; unknown tokens are left out.
pub open spec fn known_ids(ids: Map<Seq<char>, u32>, tokens: Seq<Seq<char>>) -> Seq<u32>
    decreases tokens.len(),
{
    if tokens.len() == 0 {
        seq![]
    } else {
        let rest = known_ids(ids, tokens.drop_last());
        if ids.contains_key(tokens.last()) {
            rest.push(ids[tokens.last()])
        } else {
            rest
        }
    }
}

/// The tokens recorded for the ids, in order; ids without a token are left out.
pub open spec fn known_tokens(tokens: Map<u32, Seq<char>>, ids: Seq<u32>) -> Seq<Seq<char>>
    decreases ids.len(),
{
    if ids.len() == 0 {
        seq![]
    } else {
        let rest = known_tokens(tokens, ids.drop_last());
        if tokens.contains_key(ids.last()) {
            rest.push(tokens[ids.last()])
        } else {
            rest
        }
    }
}

/// The boundary tokens among `tokens`, each without its leading `#`.
pub open spec fn boundary_words(tokens: Seq<Seq<char>>) -> Seq<Seq<char>>
    decreases tokens.len(),
{
    if tokens.len() == 0 {
        seq![]
    } else {
        let rest = boundary_words(tokens.drop_last());
        let t = tokens.last();
        if t.len() > 0 && t[0] == '#' {
            rest.push(t.drop_first())
        } else {
            rest
        }
    }
}

/// What `decode` gives for `ids`: the boundary words joined by spaces when there are
/// any, else all the known tokens joined by spaces.
pub open spec fn decoded_text(tokens: Map<u32, Seq<char>>, ids: Seq<u32>) -> Seq<char> {
    let found = known_tokens(tokens, ids);
    let words = boundary_words(found);
    if words.len() > 0 {
        join_with(words, seq![' '])
    } else {
        join_with(found, seq![' '])
    }
}

// ---------------------------------------------------------------------------
// The tokenizer
// ---------------------------------------------------------------------------

pub struct Tokenizer {
    pub vocab: StringHashMap<u32>,
    pub id_to_token: HashMap<u32, String>,
    pub next_id: u32,
    pub max_ngram: usize,
}

impl View for Tokenizer {
    type V = VocabState;

    open spec fn view(&self) -> VocabState {
        VocabState {
            ids: self.vocab@,
            tokens: self.id_to_token@.map_values(|s: String| s@),
            next_id: self.next_id,
        }
    }
}

impl Tokenizer {
    pub open spec fn wf(&self) -> bool {
        self.max_ngram >= 1 && vocab_wf(self@)
    }

    /// An empty tokenizer; a `max_ngram` of 0 is taken as 1.
    pub fn new(max_ngram: usize) -> (r: Self)
        ensures
            r.wf(),
            vocab_exact(r@),
            r@.ids == Map::<Seq<char>, u32>::empty(),
            r@.tokens == Map::<u32, Seq<char>>::empty(),
            r.next_id == 0,
            r.max_ngram == if max_ngram >= 1 {
                max_ngram
            } else {
                1
            },
    {
        let r = Tokenizer {
            vocab: StringHashMap::new(),
            id_to_token: HashMap::new(),
            next_id: 0,
            max_ngram: if max_ngram >= 1 {
                max_ngram
            } else {
                1
            },
        };
        assert(r@.tokens =~= Map::<u32, Seq<char>>::empty());
        proof {
            law_empty_vocab_exact();
        }
        r
    }

    /// The number of ids handed out so far (the counter, which saturates at the top id).
    pub fn vocab_size(&self) -> (r: u32)
        ensures
            r == self.next_id,
    {
        self.next_id
    }

    fn get_or_insert(&mut self, token: String) -> (id: u32)
        ensures
            old(self).wf() ==> final(self).wf(),
            final(self).max_ngram == old(self).max_ngram,
            (final(self)@, id) == insert_token(old(self)@, token@),
    {
        if let Some(id) = self.vocab.get(token.as_str()) {
            return *id;
        }
        let id = self.next_id;
        self.next_id = self.next_id.saturating_add(1);
        let ghost old_tokens = self.id_to_token@;
        self.vocab.insert(token.clone(), id);
        self.id_to_token.insert(id, token);
        proof {
            let st = old(self)@;
            assert(self@.tokens =~= st.tokens.insert(id, token@));
            assert(self@.ids =~= st.ids.insert(token@, id));
            if vocab_wf(st) {
                lemma_insert_token_wf(st, token@);
            }
        }
        id
    }

    /// The ids of the tokens of `text`, adding each new token to the vocabulary.
    pub fn encode(&mut self, text: &str) -> (ids: Vec<u32>)
        ensures
            old(self).wf() ==> final(self).wf(),
            vocab_exact(old(self)@) && final(self).next_id < u32::MAX ==> vocab_exact(final(self)@),
            final(self).max_ngram == old(self).max_ngram,
            (final(self)@, ids@) == insert_tokens(
                old(self)@,
                text_tokens(text@, old(self).max_ngram as nat),
            ),
            has_alphanumeric(text@) ==> ids@.len() > 0,
    {
        let chars = chars_of(text);
        let tokens = tokens_for_text(&chars, self.max_ngram);
        let ghost toks = char_vecs(tokens@);
        let mut ids: Vec<u32> = Vec::new();
        let mut i: usize = 0;
        while i < tokens.len()
            invariant
                old(self).wf() ==> self.wf(),
                self.max_ngram == old(self).max_ngram,
                toks == char_vecs(tokens@),
                i <= tokens.len(),
                (self@, ids@) == insert_tokens(old(self)@, toks.take(i as int)),
            decreases tokens.len() - i,
        {
            let token = string_of(&tokens[i]);
            let id = self.get_or_insert(token);
            ids.push(id);
            assert(toks.take(i + 1).drop_last() =~= toks.take(i as int));
            i = i + 1;
        }
        assert(toks.take(tokens.len() as int) =~= toks);
        proof {
            if vocab_exact(old(self)@) && self.next_id < u32::MAX {
                lemma_insert_tokens_exact(old(self)@, toks);
            }
        }
        ids
    }

    /// The ids of the tokens of `text` that the vocabulary already knows; the
    /// vocabulary is left as it is.
    pub fn encode_deterministic(&self, text: &str) -> (ids: Vec<u32>)
        ensures
            ids@ == known_ids(self@.ids, text_tokens(text@, self.max_ngram as nat)),
    {
        let chars = chars_of(text);
        let tokens = tokens_for_text(&chars, self.max_ngram);
        let ghost toks = char_vecs(tokens@);
        let mut ids: Vec<u32> = Vec::new();
        let mut i: usize = 0;
        while i < tokens.len()
            invariant
                toks == char_vecs(tokens@),
                i <= tokens.len(),
                ids@ == known_ids(self@.ids, toks.take(i as int)),
            decreases tokens.len() - i,
        {
            let token = string_of(&tokens[i]);
            assert(toks.take(i + 1).drop_last() =~= toks.take(i as int));
            assert(toks.take(i + 1).last() == token@);
            if let Some(id) = self.vocab.get(token.as_str()) {
                ids.push(*id);
            }
            i = i + 1;
        }
        assert(toks.take(tokens.len() as int) =~= toks);
        ids
    }

    /// The boundary words of the known ids, joined by spaces; if there are none, every
    /// known token joined by spaces. Unknown ids are skipped.
    pub fn decode(&self, ids: &[u32]) -> (text: String)
        ensures
            text@ == decoded_text(self@.tokens, ids@),
    {
        let mut found: Vec<Vec<char>> = Vec::new();
        let mut words: Vec<Vec<char>> = Vec::new();
        let mut i: usize = 0;
        while i < ids.len()
            invariant
                i <= ids.len(),
                char_vecs(found@) == known_tokens(self@.tokens, ids@.take(i as int)),
                char_vecs(words@) == boundary_words(
                    known_tokens(self@.tokens, ids@.take(i as int)),
                ),
            decreases ids.len() - i,
        {
            let id = ids[i];
            assert(ids@.take(i + 1).drop_last() =~= ids@.take(i as int));
            assert(ids@.take(i + 1).last() == id);
            if let Some(token) = self.id_to_token.get(&id) {
                let cs = chars_of(token.as_str());
                let ghost fb = char_vecs(found@);
                let ghost wb = char_vecs(words@);
                if cs.len() > 0 && cs[0] == '#' {
                    let rest = slice_chars(&cs, 1, cs.len());
                    let ghost rv = rest@;
                    words.push(rest);
                    assert(char_vecs(words@) =~= wb.push(rv));
                    assert(rv =~= cs@.drop_first());
                }
                let ghost cv = cs@;
                found.push(cs);
                assert(char_vecs(found@) =~= fb.push(cv));
                assert(char_vecs(found@).drop_last() =~= fb);
            }
            i = i + 1;
        }
        assert(ids@.take(ids.len() as int) =~= ids@);
        let sep: Vec<char> = vec![' '];
        assert(sep@ =~= seq![' ']);
        if words.len() > 0 {
            string_of(&join_chars(&words, &sep))
        } else {
            string_of(&join_chars(&found, &sep))
        }
    }
}

// ---------------------------------------------------------------------------
// Laws
// ---------------------------------------------------------------------------

/// Facts of one run of `insert_tokens`: the counter never goes back, tokens already
/// known keep their ids, every token ends up known, and each returned id is the id
/// that its token has at the end.
pub proof fn lemma_insert_tokens(st: VocabState, tokens: Seq<Seq<char>>)
    ensures
        ({
            let (fin, ids) = insert_tokens(st, tokens);
            &&& ids.len() == tokens.len()
            &&& fin.next_id >= st.next_id
            &&& forall|t: Seq<char>| #[trigger]
                st.ids.contains_key(t) ==> fin.ids.contains_key(t) && fin.ids[t] == st.ids[t]
            &&& forall|i: int|
                0 <= i < tokens.len() ==> fin.ids.contains_key(#[trigger] tokens[i])
                    && fin.ids[tokens[i]] == ids[i]
        }),
    decreases tokens.len(),
{
    if tokens.len() > 0 {
        let (mid, ids0) = insert_tokens(st, tokens.drop_last());
        lemma_insert_tokens(st, tokens.drop_last());
        let (fin, ids) = insert_tokens(st, tokens);
        assert forall|i: int| 0 <= i < tokens.len() implies fin.ids.contains_key(
            #[trigger] tokens[i],
        ) && fin.ids[tokens[i]] == ids[i] by {
            if i < tokens.len() - 1 {
                assert(tokens[i] == tokens.drop_last()[i]);
            }
        }
    }
}

/// `insert_token` keeps the vocabulary invariant.
pub proof fn lemma_insert_token_wf(st: VocabState, token: Seq<char>)
    requires
        vocab_wf(st),
    ensures
        vocab_wf(insert_token(st, token).0),
{
    if !st.ids.contains_key(token) {
        let fin = insert_token(st, token).0;
        let id = st.next_id;
        assert forall|t: Seq<char>| #[trigger] fin.ids.contains_key(t) implies issued(
            fin.ids[t],
            fin.next_id,
        ) by {
            if t != token {
                assert(st.ids.contains_key(t));
            }
        }
        assert forall|i: u32| #[trigger] fin.tokens.contains_key(i) implies fin.ids.contains_key(
            fin.tokens[i],
        ) && fin.ids[fin.tokens[i]] == i by {
            if i != id {
                assert(st.tokens.contains_key(i));
                assert(st.ids[st.tokens[i]] == i);
            }
        }
        assert forall|i: u32| i < fin.next_id implies #[trigger] fin.tokens.contains_key(i) by {
            if i != id {
                assert(i < st.next_id);
            }
        }
        assert forall|t: Seq<char>| #[trigger]
            fin.ids.contains_key(t) && fin.ids[t] != u32::MAX implies fin.tokens.contains_key(
            fin.ids[t],
        ) && fin.tokens[fin.ids[t]] == t by {
            if t != token {
                assert(st.ids.contains_key(t));
            }
        }
    }
}

/// `insert_tokens` keeps the vocabulary invariant.
pub proof fn lemma_insert_tokens_wf(st: VocabState, tokens: Seq<Seq<char>>)
    requires
        vocab_wf(st),
    ensures
        vocab_wf(insert_tokens(st, tokens).0),
    decreases tokens.len(),
{
    if tokens.len() > 0 {
        lemma_insert_tokens_wf(st, tokens.drop_last());
        lemma_insert_token_wf(insert_tokens(st, tokens.drop_last()).0, tokens.last());
    }
}

/// Looking tokens up after they have all been given ids returns those ids.
pub proof fn lemma_known_ids_of_known(ids: Map<Seq<char>, u32>, tokens: Seq<Seq<char>>, out: Seq<u32>)
    requires
        out.len() == tokens.len(),
        forall|i: int|
            0 <= i < tokens.len() ==> ids.contains_key(#[trigger] tokens[i]) && ids[tokens[i]]
                == out[i],
    ensures
        known_ids(ids, tokens) == out,
    decreases tokens.len(),
{
    if tokens.len() > 0 {
        assert forall|i: int| 0 <= i < tokens.len() - 1 implies ids.contains_key(
            #[trigger] tokens.drop_last()[i],
        ) && ids[tokens.drop_last()[i]] == out.drop_last()[i] by {
            assert(tokens.drop_last()[i] == tokens[i]);
        }
        lemma_known_ids_of_known(ids, tokens.drop_last(), out.drop_last());
        assert(tokens.last() == tokens[tokens.len() - 1]);
        assert(out.drop_last().push(out.last()) =~= out);
    }
}

/// Looking ids up whose tokens are all recorded returns those tokens.
pub proof fn lemma_known_tokens_of_known(tokens: Map<u32, Seq<char>>, ids: Seq<u32>, out: Seq<Seq<char>>)
    requires
        out.len() == ids.len(),
        forall|i: int|
            0 <= i < ids.len() ==> tokens.contains_key(#[trigger] ids[i]) && tokens[ids[i]]
                == out[i],
    ensures
        known_tokens(tokens, ids) == out,
    decreases ids.len(),
{
    if ids.len() > 0 {
        assert forall|i: int| 0 <= i < ids.len() - 1 implies tokens.contains_key(
            #[trigger] ids.drop_last()[i],
        ) && tokens[ids.drop_last()[i]] == out.drop_last()[i] by {
            assert(ids.drop_last()[i] == ids[i]);
        }
        lemma_known_tokens_of_known(tokens, ids.drop_last(), out.drop_last());
        assert(out.drop_last().push(out.last()) =~= out);
    }
}

/// Law: after `encode`, `encode_deterministic` on the same text returns the ids that
/// `encode` returned, and encoding the same text again neither changes the vocabulary
/// nor the ids.
pub proof fn law_encode_is_deterministic(before: VocabState, text: Seq<char>, max_ngram: nat)
    ensures
        ({
            let tokens = text_tokens(text, max_ngram);
            let (after, ids) = insert_tokens(before, tokens);
            &&& known_ids(after.ids, tokens) == ids
            &&& insert_tokens(after, tokens) == (after, ids)
        }),
{
    let tokens = text_tokens(text, max_ngram);
    let (after, ids) = insert_tokens(before, tokens);
    lemma_insert_tokens(before, tokens);
    lemma_known_ids_of_known(after.ids, tokens, ids);
    lemma_insert_known(after, tokens, ids);
}

/// Inserting tokens that are all known changes nothing and returns their ids.
pub proof fn lemma_insert_known(st: VocabState, tokens: Seq<Seq<char>>, ids: Seq<u32>)
    requires
        ids.len() == tokens.len(),
        forall|i: int|
            0 <= i < tokens.len() ==> st.ids.contains_key(#[trigger] tokens[i]) && st.ids[tokens[i]]
                == ids[i],
    ensures
        insert_tokens(st, tokens) == (st, ids),
    decreases tokens.len(),
{
    if tokens.len() > 0 {
        assert forall|i: int| 0 <= i < tokens.len() - 1 implies st.ids.contains_key(
            #[trigger] tokens.drop_last()[i],
        ) && st.ids[tokens.drop_last()[i]] == ids.drop_last()[i] by {
            assert(tokens.drop_last()[i] == tokens[i]);
        }
        lemma_insert_known(st, tokens.drop_last(), ids.drop_last());
        assert(tokens.last() == tokens[tokens.len() - 1]);
        assert(ids.drop_last().push(ids.last()) =~= ids);
    }
}

/// Law: encoding never takes an id away: the counter does not go back, and every token
/// known before keeps its id.
pub proof fn law_encode_keeps_ids(before: VocabState, text: Seq<char>, max_ngram: nat)
    ensures
        ({
            let (after, ids) = insert_tokens(before, text_tokens(text, max_ngram));
            &&& after.next_id >= before.next_id
            &&& forall|t: Seq<char>| #[trigger]
                before.ids.contains_key(t) ==> after.ids.contains_key(t) && after.ids[t]
                    == before.ids[t]
        }),
{
    lemma_insert_tokens(before, text_tokens(text, max_ngram));
}

pub open spec fn starts_with_hash(t: Seq<char>) -> bool {
    t.len() > 0 && t[0] == '#'
}

pub proof fn lemma_boundary_words_concat(a: Seq<Seq<char>>, b: Seq<Seq<char>>)
    ensures
        boundary_words(a + b) == boundary_words(a) + boundary_words(b),
    decreases b.len(),
{
    if b.len() == 0 {
        assert(a + b =~= a);
        assert(boundary_words(a) + boundary_words(b) =~= boundary_words(a));
    } else {
        assert((a + b).drop_last() =~= a + b.drop_last());
        lemma_boundary_words_concat(a, b.drop_last());
        assert((a + b).last() == b.last());
        let t = b.last();
        if starts_with_hash(t) {
            assert(boundary_words(a) + boundary_words(b.drop_last()).push(t.drop_first())
                =~= (boundary_words(a) + boundary_words(b.drop_last())).push(t.drop_first()));
        }
    }
}

/// No boundary words among tokens none of which starts with `#`.
pub proof fn lemma_boundary_words_none(toks: Seq<Seq<char>>)
    requires
        forall|i: int| 0 <= i < toks.len() ==> !starts_with_hash(#[trigger] toks[i]),
    ensures
        boundary_words(toks) == Seq::<Seq<char>>::empty(),
    decreases toks.len(),
{
    if toks.len() > 0 {
        assert forall|i: int| 0 <= i < toks.len() - 1 implies !starts_with_hash(
            #[trigger] toks.drop_last()[i],
        ) by {
            assert(toks.drop_last()[i] == toks[i]);
        }
        lemma_boundary_words_none(toks.drop_last());
        assert(!starts_with_hash(toks[toks.len() - 1]));
    }
}

/// The tokens of a term without `#` have that term as their one boundary word.
pub proof fn lemma_term_boundary(term: Seq<char>, n: nat)
    requires
        !has_char(term, '#'),
    ensures
        boundary_words(term_tokens(term, n)) == seq![term],
{
    let toks = term_tokens(term, n);
    let inner = toks.drop_last();
    assert(toks.last() == boundary_token(term));
    assert(boundary_token(term).drop_first() =~= term);
    if has_cjk(term) {
        let g = |start: int| window_ngrams(term, n, start);
        assert(inner =~= Seq::new(term.len(), g).flatten());
        lemma_windows_no_hash(term, n, term.len() as int);
        lemma_boundary_words_none(inner);
    } else {
        assert forall|i: int| 0 <= i < inner.len() implies !starts_with_hash(#[trigger] inner[i]) by {
            assert(inner[i] == term.take(i + 1));
            assert(inner[i][0] == term[0]);
        }
        lemma_boundary_words_none(inner);
    }
    assert(boundary_words(toks) =~= seq![term]);
}

/// No substring window of a term without `#` starts with `#`.
pub proof fn lemma_windows_no_hash(term: Seq<char>, n: nat, m: int)
    requires
        !has_char(term, '#'),
        0 <= m <= term.len(),
    ensures
        ({
            let all = Seq::new(m as nat, |start: int| window_ngrams(term, n, start)).flatten();
            forall|i: int| 0 <= i < all.len() ==> !starts_with_hash(#[trigger] all[i])
        }),
    decreases m,
{
    let g = |start: int| window_ngrams(term, n, start);
    if m > 0 {
        lemma_windows_no_hash(term, n, m - 1);
        assert(Seq::new(m as nat, g) =~= Seq::new((m - 1) as nat, g).push(g(m - 1)));
        Seq::new((m - 1) as nat, g).lemma_flatten_push(g(m - 1));
        let prev = Seq::new((m - 1) as nat, g).flatten();
        let w = g(m - 1);
        let all = Seq::new(m as nat, g).flatten();
        assert forall|i: int| 0 <= i < all.len() implies !starts_with_hash(#[trigger] all[i]) by {
            if i < prev.len() {
                assert(all[i] == prev[i]);
            } else {
                let l = i - prev.len();
                assert(all[i] == w[l]);
                assert(w[l] == term.subrange(m - 1, m - 1 + l + 1));
                assert(w[l][0] == term[m - 1]);
            }
        }
    } else {
        assert(Seq::new(0, g).flatten() =~= Seq::<Seq<char>>::empty());
    }
}

/// The boundary words of the tokens of terms without `#` are the terms.
pub proof fn lemma_terms_boundary(terms: Seq<Seq<char>>, n: nat)
    requires
        forall|i: int| 0 <= i < terms.len() ==> !has_char(#[trigger] terms[i], '#'),
    ensures
        boundary_words(terms.map_values(|t: Seq<char>| term_tokens(t, n)).flatten()) == terms,
    decreases terms.len(),
{
    if terms.len() == 0 {
        assert(terms.map_values(|t: Seq<char>| term_tokens(t, n)).flatten() =~= Seq::<
            Seq<char>,
        >::empty());
        assert(boundary_words(Seq::<Seq<char>>::empty()) =~= terms);
    } else {
        let init = terms.drop_last();
        assert forall|i: int| 0 <= i < init.len() implies !has_char(#[trigger] init[i], '#') by {
            assert(init[i] == terms[i]);
        }
        lemma_terms_boundary(init, n);
        let f = |t: Seq<char>| term_tokens(t, n);
        assert(terms.map_values(f) =~= init.map_values(f).push(f(terms.last())));
        init.map_values(f).lemma_flatten_push(f(terms.last()));
        lemma_boundary_words_concat(init.map_values(f).flatten(), f(terms.last()));
        assert(!has_char(terms[terms.len() - 1], '#'));
        lemma_term_boundary(terms.last(), n);
        assert(init.push(terms.last()) =~= terms);
    }
}

/// Law: decoding what `encode` returned gives back the terms of the text joined by
/// spaces, provided the vocabulary is well formed, its counter has not reached the top
/// id, and no term contains `#`.
pub proof fn law_decode_after_encode(before: VocabState, text: Seq<char>, max_ngram: nat)
    requires
        vocab_wf(before),
        insert_tokens(before, text_tokens(text, max_ngram)).0.next_id < u32::MAX,
        forall|i: int|
            0 <= i < normalized_terms(text).len() ==> !has_char(
                #[trigger] normalized_terms(text)[i],
                '#',
            ),
    ensures
        ({
            let (after, ids) = insert_tokens(before, text_tokens(text, max_ngram));
            decoded_text(after.tokens, ids) == join_with(normalized_terms(text), seq![' '])
        }),
{
    let tokens = text_tokens(text, max_ngram);
    let (after, ids) = insert_tokens(before, tokens);
    lemma_insert_tokens(before, tokens);
    lemma_insert_tokens_wf(before, tokens);
    assert forall|i: int| 0 <= i < ids.len() implies after.tokens.contains_key(#[trigger] ids[i])
        && after.tokens[ids[i]] == tokens[i] by {
        assert(after.ids.contains_key(tokens[i]));
        assert(issued(after.ids[tokens[i]], after.next_id));
    }
    lemma_known_tokens_of_known(after.tokens, ids, tokens);
    lemma_terms_boundary(normalized_terms(text), max_ngram);
    let terms = normalized_terms(text);
    if terms.len() == 0 {
        assert(terms.map_values(|t: Seq<char>| term_tokens(t, max_ngram)).flatten() =~= Seq::<
            Seq<char>,
        >::empty());
    }
}

/// Law: words without CJK ideographs that agree on their first `k` chars, `k` at most
/// `n`, agree on their first `k` tokens (the prefixes), so related words share ids.
pub proof fn law_shared_prefix_tokens(w1: Seq<char>, w2: Seq<char>, n: nat, k: nat)
    requires
        k <= n,
        k <= w1.len(),
        k <= w2.len(),
        w1.take(k as int) == w2.take(k as int),
        !has_cjk(w1),
        !has_cjk(w2),
    ensures
        forall|i: int| 0 <= i < k ==> #[trigger] term_tokens(w1, n)[i] == term_tokens(w2, n)[i],
{
    assert forall|i: int| 0 <= i < k implies #[trigger] term_tokens(w1, n)[i] == term_tokens(
        w2,
        n,
    )[i] by {
        assert(term_tokens(w1, n)[i] == w1.take(i + 1));
        assert(term_tokens(w2, n)[i] == w2.take(i + 1));
        assert(w1.take(i + 1) =~= w1.take(k as int).take(i + 1));
        assert(w2.take(i + 1) =~= w2.take(k as int).take(i + 1));
    }
}

/// The windows of the starts below `m` hold every substring of at most `n` chars that
/// starts below `m`.
pub proof fn lemma_windows_contain(term: Seq<char>, n: nat, m: int, a: int, b: int)
    requires
        0 <= a < m <= term.len(),
        a < b <= term.len(),
        b - a <= n,
    ensures
        Seq::new(m as nat, |start: int| window_ngrams(term, n, start)).flatten().contains(
            term.subrange(a, b),
        ),
    decreases m,
{
    let g = |start: int| window_ngrams(term, n, start);
    assert(Seq::new(m as nat, g) =~= Seq::new((m - 1) as nat, g).push(g(m - 1)));
    Seq::new((m - 1) as nat, g).lemma_flatten_push(g(m - 1));
    let prev = Seq::new((m - 1) as nat, g).flatten();
    let all = Seq::new(m as nat, g).flatten();
    if a < m - 1 {
        lemma_windows_contain(term, n, m - 1, a, b);
        let i = choose|i: int| 0 <= i < prev.len() && prev[i] == term.subrange(a, b);
        assert(all[i] == prev[i]);
    } else {
        let w = g(a);
        let l = b - a - 1;
        assert(w[l] == term.subrange(a, b));
        assert(all[prev.len() + l] == w[l]);
    }
}

/// Law: the tokens of a term with CJK ideographs hold every substring of the term of
/// 1 up to `n` chars, so phrases that share short character runs share ids.
pub proof fn law_cjk_substrings_are_tokens(term: Seq<char>, n: nat, a: int, b: int)
    requires
        has_cjk(term),
        0 <= a < b <= term.len(),
        b - a <= n,
    ensures
        term_tokens(term, n).contains(term.subrange(a, b)),
{
    lemma_windows_contain(term, n, term.len() as int, a, b);
    let all = Seq::new(term.len(), |start: int| window_ngrams(term, n, start)).flatten();
    let i = choose|i: int| 0 <= i < all.len() && all[i] == term.subrange(a, b);
    assert(term_tokens(term, n)[i] == all[i]);
}

/// Law: what a text encodes to depends only on its terms, so texts that differ only in
/// punctuation, spacing or letter case encode to the same ids from the same vocabulary.
pub proof fn law_terms_decide_encoding(before: VocabState, a: Seq<char>, b: Seq<char>, n: nat)
    requires
        normalized_terms(a) == normalized_terms(b),
    ensures
        insert_tokens(before, text_tokens(a, n)) == insert_tokens(before, text_tokens(b, n)),
{
}

pub proof fn lemma_no_flags_no_terms(alnum: Seq<bool>, lowered: Seq<Seq<char>>)
    requires
        forall|i: int| 0 <= i < alnum.len() ==> !#[trigger] alnum[i],
    ensures
        term_scan(alnum, lowered).0.len() == 0,
        term_scan(alnum, lowered).1.len() == 0,
    decreases alnum.len(),
{
    if alnum.len() > 0 {
        assert forall|i: int| 0 <= i < alnum.drop_last().len() implies !#[trigger] alnum.drop_last()[i] by {
            assert(alnum.drop_last()[i] == alnum[i]);
        }
        lemma_no_flags_no_terms(alnum.drop_last(), lowered.drop_last());
        assert(!alnum[alnum.len() - 1]);
    }
}

/// Law: a text without alphanumeric chars has no tokens, so encoding it returns no ids
/// and leaves the vocabulary as it was.
pub proof fn law_no_alphanumeric_no_ids(before: VocabState, text: Seq<char>, n: nat)
    requires
        forall|i: int| 0 <= i < text.len() ==> !alphanumeric(#[trigger] text[i]),
    ensures
        text_tokens(text, n).len() == 0,
        insert_tokens(before, text_tokens(text, n)) == (before, Seq::<u32>::empty()),
{
    assert forall|i: int| 0 <= i < alnum_flags(text).len() implies !#[trigger] alnum_flags(text)[i] by {
        assert(!alphanumeric(text[i]));
    }
    lemma_no_flags_no_terms(alnum_flags(text), lowered_chars(text));
    assert(normalized_terms(text) =~= Seq::<Seq<char>>::empty());
    assert(normalized_terms(text).map_values(|t: Seq<char>| term_tokens(t, n)) =~= Seq::<
        Seq<Seq<char>>,
    >::empty());
    assert(text_tokens(text, n) =~= Seq::<Seq<char>>::empty());
}

/// Law: every term read from a classification is non-empty, whatever the
/// classification; in particular every term of a text is non-empty.
pub proof fn law_terms_nonempty(alnum: Seq<bool>, lowered: Seq<Seq<char>>)
    ensures
        forall|i: int|
            0 <= i < terms_from(alnum, lowered).len() ==> (#[trigger] terms_from(
                alnum,
                lowered,
            )[i]).len() > 0,
{
    lemma_scan_nonempty(alnum, lowered);
}

pub proof fn lemma_scan_nonempty(alnum: Seq<bool>, lowered: Seq<Seq<char>>)
    ensures
        forall|i: int|
            0 <= i < term_scan(alnum, lowered).0.len() ==> (#[trigger] term_scan(
                alnum,
                lowered,
            ).0[i]).len() > 0,
    decreases alnum.len(),
{
    if alnum.len() > 0 {
        lemma_scan_nonempty(alnum.drop_last(), lowered.drop_last());
        let (done, cur) = term_scan(alnum.drop_last(), lowered.drop_last());
        if !alnum.last() && cur.len() > 0 {
            assert forall|i: int| 0 <= i < done.push(cur).len() implies (#[trigger] done.push(
                cur,
            )[i]).len() > 0 by {
                if i < done.len() {
                    assert(done.push(cur)[i] == done[i]);
                }
            }
        }
    }
}

pub proof fn lemma_new_key_grows(st: VocabState, tokens: Seq<Seq<char>>)
    ensures
        forall|t: Seq<char>|
            #![trigger insert_tokens(st, tokens).0.ids.contains_key(t)]
            insert_tokens(st, tokens).0.ids.contains_key(t) && !st.ids.contains_key(t)
                && st.next_id < u32::MAX ==> insert_tokens(st, tokens).0.next_id > st.next_id,
    decreases tokens.len(),
{
    if tokens.len() > 0 {
        lemma_new_key_grows(st, tokens.drop_last());
        lemma_insert_tokens(st, tokens.drop_last());
        let mid = insert_tokens(st, tokens.drop_last()).0;
        let fin = insert_tokens(st, tokens).0;
        assert forall|t: Seq<char>|
            #![trigger fin.ids.contains_key(t)]
            fin.ids.contains_key(t) && !st.ids.contains_key(t) && st.next_id < u32::MAX implies fin.next_id
            > st.next_id by {
            if mid.ids.contains_key(t) {
                assert(mid.next_id > st.next_id);
            } else {
                assert(t == tokens.last());
            }
        }
    }
}

/// Law: encoding a text with a token that the vocabulary does not know makes the
/// vocabulary grow, unless the counter has already reached the top id.
pub proof fn law_new_token_grows_vocab(before: VocabState, text: Seq<char>, n: nat, k: int)
    requires
        0 <= k < text_tokens(text, n).len(),
        !before.ids.contains_key(text_tokens(text, n)[k]),
        before.next_id < u32::MAX,
    ensures
        insert_tokens(before, text_tokens(text, n)).0.next_id > before.next_id,
{
    let tokens = text_tokens(text, n);
    lemma_insert_tokens(before, tokens);
    lemma_new_key_grows(before, tokens);
    assert(insert_tokens(before, tokens).0.ids.contains_key(tokens[k]));
}

/// The vocabulary while its counter has not saturated: there are as many known tokens
/// as ids handed out, the two maps are inverse to each other, and the recorded ids are
/// exactly those below the counter.
pub open spec fn vocab_exact(st: VocabState) -> bool {
    &&& st.ids.dom().finite()
    &&& st.ids.dom().len() == st.next_id
    &&& forall|t: Seq<char>| #[trigger]
        st.ids.contains_key(t) ==> st.ids[t] < st.next_id && st.tokens.contains_key(st.ids[t])
            && st.tokens[st.ids[t]] == t
    &&& forall|id: u32| #[trigger] st.tokens.contains_key(id) <==> id < st.next_id
    &&& forall|id: u32| #[trigger]
        st.tokens.contains_key(id) ==> st.ids.contains_key(st.tokens[id]) && st.ids[st.tokens[id]]
            == id
}

/// Law: the vocabulary of a new tokenizer is exact.
pub proof fn law_empty_vocab_exact()
    ensures
        vocab_exact(
            VocabState {
                ids: Map::<Seq<char>, u32>::empty(),
                tokens: Map::<u32, Seq<char>>::empty(),
                next_id: 0,
            },
        ),
{
    assert(Map::<Seq<char>, u32>::empty().dom() =~= Set::<Seq<char>>::empty());
}

/// An exact vocabulary also meets the general invariant.
pub proof fn lemma_exact_is_wf(st: VocabState)
    requires
        vocab_exact(st),
    ensures
        vocab_wf(st),
{
}

/// Law: adding a token keeps the vocabulary exact while the counter is below the top id.
pub proof fn law_insert_token_exact(st: VocabState, token: Seq<char>)
    requires
        vocab_exact(st),
        st.next_id < u32::MAX,
    ensures
        vocab_exact(insert_token(st, token).0),
{
    if !st.ids.contains_key(token) {
        let fin = insert_token(st, token).0;
        let id = st.next_id;
        assert(fin.ids.dom() =~= st.ids.dom().insert(token));
        assert forall|t: Seq<char>| #[trigger] fin.ids.contains_key(t) implies fin.ids[t]
            < fin.next_id && fin.tokens.contains_key(fin.ids[t]) && fin.tokens[fin.ids[t]] == t by {
            if t != token {
                assert(st.ids.contains_key(t));
                assert(st.ids[t] != id);
            }
        }
        assert forall|i: u32| #[trigger] fin.tokens.contains_key(i) <==> i < fin.next_id by {
            if i != id {
                assert(st.tokens.contains_key(i) <==> i < st.next_id);
            }
        }
        assert forall|i: u32| #[trigger] fin.tokens.contains_key(i) implies fin.ids.contains_key(
            fin.tokens[i],
        ) && fin.ids[fin.tokens[i]] == i by {
            if i != id {
                assert(st.tokens.contains_key(i));
                assert(st.ids[st.tokens[i]] == i);
            }
        }
    }
}

/// Law: encoding keeps the vocabulary exact as long as the counter ends below the top
/// id: the known tokens are as many as the ids handed out and the maps stay inverse.
pub proof fn law_encode_keeps_exact_vocab(before: VocabState, text: Seq<char>, n: nat)
    requires
        vocab_exact(before),
        insert_tokens(before, text_tokens(text, n)).0.next_id < u32::MAX,
    ensures
        vocab_exact(insert_tokens(before, text_tokens(text, n)).0),
{
    lemma_insert_tokens_exact(before, text_tokens(text, n));
}

pub proof fn lemma_insert_tokens_exact(st: VocabState, tokens: Seq<Seq<char>>)
    requires
        vocab_exact(st),
        insert_tokens(st, tokens).0.next_id < u32::MAX,
    ensures
        vocab_exact(insert_tokens(st, tokens).0),
    decreases tokens.len(),
{
    if tokens.len() > 0 {
        let mid = insert_tokens(st, tokens.drop_last()).0;
        let fin = insert_tokens(st, tokens).0;
        assert(fin.next_id >= mid.next_id);
        lemma_insert_tokens_exact(st, tokens.drop_last());
        law_insert_token_exact(mid, tokens.last());
    }
}

/// Law: looking tokens up goes token by token, skipping the unknown ones: the ids of
/// `a + b` are the ids of `a` followed by the ids of `b`, so a known token keeps its id
/// in the result whatever unknown tokens come before it.
pub proof fn law_lookup_splits(ids: Map<Seq<char>, u32>, a: Seq<Seq<char>>, b: Seq<Seq<char>>)
    ensures
        known_ids(ids, a + b) == known_ids(ids, a) + known_ids(ids, b),
    decreases b.len(),
{
    if b.len() == 0 {
        assert(a + b =~= a);
        assert(known_ids(ids, a) + known_ids(ids, b) =~= known_ids(ids, a));
    } else {
        law_lookup_splits(ids, a, b.drop_last());
        assert((a + b).drop_last() =~= a + b.drop_last());
        assert((a + b).last() == b.last());
        let x = known_ids(ids, a);
        let y = known_ids(ids, b.drop_last());
        if ids.contains_key(b.last()) {
            assert((x + y).push(ids[b.last()]) =~= x + y.push(ids[b.last()]));
        }
    }
}

/// Law: looking up a single token gives its id when the vocabulary knows it, and
/// nothing when it does not.
pub proof fn law_lookup_one(ids: Map<Seq<char>, u32>, t: Seq<char>)
    ensures
        known_ids(ids, seq![t]) == (if ids.contains_key(t) {
            seq![ids[t]]
        } else {
            Seq::<u32>::empty()
        }),
{
    let e = seq![t].drop_last();
    assert(e =~= Seq::<Seq<char>>::empty());
    assert(known_ids(ids, e) == Seq::<u32>::empty());
    assert(seq![t].last() == t);
    if ids.contains_key(t) {
        assert(Seq::<u32>::empty().push(ids[t]) =~= seq![ids[t]]);
    }
}

/// Law: the looked-up ids are exactly the ids of the known tokens, in the order of the
/// tokens.
pub proof fn law_lookup_keeps_known(ids: Map<Seq<char>, u32>, tokens: Seq<Seq<char>>)
    ensures
        known_ids(ids, tokens) == tokens.filter(|t: Seq<char>| ids.contains_key(t)).map_values(
            |t: Seq<char>| ids[t],
        ),
    decreases tokens.len(),
{
    reveal(Seq::filter);
    if tokens.len() > 0 {
        law_lookup_keeps_known(ids, tokens.drop_last());
        let f = tokens.drop_last().filter(|t: Seq<char>| ids.contains_key(t));
        if ids.contains_key(tokens.last()) {
            assert(f.push(tokens.last()).map_values(|t: Seq<char>| ids[t]) =~= f.map_values(
                |t: Seq<char>| ids[t],
            ).push(ids[tokens.last()]));
        }
    }
}

/// Law: decoding goes id by id, skipping the unknown ones: the tokens of `a + b` are the
/// tokens of `a` followed by the tokens of `b`.
pub proof fn law_token_lookup_splits(tokens: Map<u32, Seq<char>>, a: Seq<u32>, b: Seq<u32>)
    ensures
        known_tokens(tokens, a + b) == known_tokens(tokens, a) + known_tokens(tokens, b),
    decreases b.len(),
{
    if b.len() == 0 {
        assert(a + b =~= a);
        assert(known_tokens(tokens, a) + known_tokens(tokens, b) =~= known_tokens(tokens, a));
    } else {
        law_token_lookup_splits(tokens, a, b.drop_last());
        assert((a + b).drop_last() =~= a + b.drop_last());
        assert((a + b).last() == b.last());
        let x = known_tokens(tokens, a);
        let y = known_tokens(tokens, b.drop_last());
        if tokens.contains_key(b.last()) {
            assert((x + y).push(tokens[b.last()]) =~= x + y.push(tokens[b.last()]));
        }
    }
}

/// Law: an id that has no recorded token changes nothing in what `decode` gives: ids
/// `a`, then `u`, then `b` decode to the same text as `a` then `b`.
pub proof fn law_decode_skips_unknown(tokens: Map<u32, Seq<char>>, a: Seq<u32>, u: u32, b: Seq<u32>)
    requires
        !tokens.contains_key(u),
    ensures
        decoded_text(tokens, a + seq![u] + b) == decoded_text(tokens, a + b),
{
    law_token_lookup_splits(tokens, a + seq![u], b);
    law_token_lookup_splits(tokens, a, seq![u]);
    law_token_lookup_splits(tokens, a, b);
    let e = seq![u].drop_last();
    assert(e =~= Seq::<u32>::empty());
    assert(known_tokens(tokens, e) == Seq::<Seq<char>>::empty());
    assert(seq![u].last() == u);
    assert(known_tokens(tokens, seq![u]) =~= Seq::<Seq<char>>::empty());
    assert(known_tokens(tokens, a) + known_tokens(tokens, seq![u]) =~= known_tokens(tokens, a));
}

impl Default for Tokenizer {
    fn default() -> (r: Self)
        ensures
            r.wf(),
            vocab_exact(r@),
            r@.ids == Map::<Seq<char>, u32>::empty(),
            r@.tokens == Map::<u32, Seq<char>>::empty(),
            r.next_id == 0,
            r.max_ngram == DEFAULT_MAX_NGRAM,
    {
        Self::new(DEFAULT_MAX_NGRAM)
    }
}

} // verus!
