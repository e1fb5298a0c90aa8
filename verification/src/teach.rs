//! Turning taught text into facts: splitting text into teachable units and
//! extracting an (input, target) association from each unit.
use vstd::prelude::*;
use vstd::string::StringExecFns;

use crate::text::{
    alphanumeric, append_chars, ascii_lower, char_is_alphanumeric, char_to_lowercase, char_vecs,
    chars_of, is_white_space, join_chars, join_with, lower_all, matches_str, slice_chars,
    split_whitespace, string_of, trim_by, trim_whitespace, trim_ws, white_space, words_of,
    has_char, contains_char, starts_with, starts_with_chars, split_once, split_once_chars, find,
    find_chars, lower_chars, occurs_at,
    lead_count, trail_count, lemma_lead_count_is, lemma_trail_count_is,
};

verus! {

// ---------------------------------------------------------------------------
// Sentence trimming
// ---------------------------------------------------------------------------

/// The punctuation that `trim_sentence` strips from both ends.
pub open spec fn sentence_mark(c: char) -> bool {
    ||| c == '.'
    ||| c == ','
    ||| c == ';'
    ||| c == ':'
    ||| c == '!'
    ||| c == '?'
    ||| c == '"'
    ||| c == '\''
    ||| c == '。'
    ||| c == '，'
    ||| c == '；'
    ||| c == '：'
    ||| c == '！'
    ||| c == '？'
    ||| c == '“'
    ||| c == '”'
    ||| c == '‘'
    ||| c == '’'
}

pub fn is_sentence_mark(c: char) -> (r: bool)
    ensures
        r == sentence_mark(c),
{
    c == '.' || c == ',' || c == ';' || c == ':' || c == '!' || c == '?' || c == '"' || c == '\''
        || c == '。' || c == '，' || c == '；' || c == '：' || c == '！' || c == '？' || c == '“'
        || c == '”' || c == '‘' || c == '’'
}

pub open spec fn mark_pred() -> spec_fn(char) -> bool {
    |c: char| sentence_mark(c)
}

/// Text trimmed of white space, then of sentence punctuation, then of white space again.
pub open spec fn trim_sentence(s: Seq<char>) -> Seq<char> {
    trim_ws(trim_by(trim_ws(s), mark_pred()))
}

pub fn trim_marks(v: &Vec<char>) -> (r: Vec<char>)
    ensures
        r@ == trim_by(v@, mark_pred()),
{
    let ghost p = mark_pred();
    let mut i: usize = 0;
    while i < v.len() && is_sentence_mark(v[i])
        invariant
            p == mark_pred(),
            i <= v.len(),
            forall|k: int| 0 <= k < i ==> p(#[trigger] v@[k]),
        decreases v.len() - i,
    {
        i = i + 1;
    }
    proof {
        lemma_lead_count_is(v@, p, i as int);
    }
    if i == v.len() {
        return Vec::new();
    }
    let mut j: usize = v.len();
    while j > i && is_sentence_mark(v[j - 1])
        invariant
            p == mark_pred(),
            i < v.len(),
            i <= j <= v.len(),
            !p(v@[i as int]),
            forall|k: int| j <= k < v.len() ==> p(#[trigger] v@[k]),
        decreases j,
    {
        j = j - 1;
    }
    proof {
        lemma_trail_count_is(v@, p, v.len() - j);
    }
    slice_chars(v, i, j)
}

pub fn trim_sentence_chars(v: &Vec<char>) -> (r: Vec<char>)
    ensures
        r@ == trim_sentence(v@),
{
    let a = trim_whitespace(v);
    let b = trim_marks(&a);
    trim_whitespace(&b)
}

/// Sentence trimming of a string.
pub fn trim_sentence_str(text: &str) -> (r: String)
    ensures
        r@ == trim_sentence(text@),
{
    string_of(&trim_sentence_chars(&chars_of(text)))
}

// ---------------------------------------------------------------------------
// Words
// ---------------------------------------------------------------------------

/// The alphanumeric chars of `s`, in order.
pub open spec fn alnum_chars(s: Seq<char>) -> Seq<char>
    decreases s.len(),
{
    if s.len() == 0 {
        seq![]
    } else if alphanumeric(s.last()) {
        alnum_chars(s.drop_last()).push(s.last())
    } else {
        alnum_chars(s.drop_last())
    }
}

/// A word reduced to its alphanumeric chars, lower-cased.
pub open spec fn normalize_word(w: Seq<char>) -> Seq<char> {
    lower_all(alnum_chars(w))
}

pub proof fn lemma_lower_all_push(s: Seq<char>, c: char)
    ensures
        lower_all(s.push(c)) == lower_all(s) + lowercase_of(c),
{
    assert(s.push(c).drop_last() =~= s);
}

pub open spec fn lowercase_of(c: char) -> Seq<char> {
    crate::text::lowercase(c)
}

pub fn normalize_word_chars(w: &Vec<char>) -> (r: Vec<char>)
    ensures
        r@ == normalize_word(w@),
{
    let mut r: Vec<char> = Vec::new();
    let mut i: usize = 0;
    while i < w.len()
        invariant
            i <= w.len(),
            r@ == normalize_word(w@.take(i as int)),
        decreases w.len() - i,
    {
        let c = w[i];
        assert(w@.take(i + 1).drop_last() =~= w@.take(i as int));
        if char_is_alphanumeric(c) {
            let low = char_to_lowercase(c);
            append_chars(&mut r, &low);
            proof {
                lemma_lower_all_push(alnum_chars(w@.take(i as int)), c);
            }
        }
        i = i + 1;
    }
    assert(w@.take(w.len() as int) =~= w@);
    r
}

/// The non-empty normalised words of `s`, split at white space.
pub open spec fn normalized_words(s: Seq<char>) -> Seq<Seq<char>> {
    nonempty_words(words_of(s).map_values(|w: Seq<char>| normalize_word(w)))
}

/// The non-empty sequences of `ws`, in order.
pub open spec fn nonempty_words(ws: Seq<Seq<char>>) -> Seq<Seq<char>>
    decreases ws.len(),
{
    if ws.len() == 0 {
        seq![]
    } else if ws.last().len() > 0 {
        nonempty_words(ws.drop_last()).push(ws.last())
    } else {
        nonempty_words(ws.drop_last())
    }
}

pub fn normalized_words_of(s: &Vec<char>) -> (r: Vec<Vec<char>>)
    ensures
        char_vecs(r@) == normalized_words(s@),
{
    let raw = split_whitespace(s);
    let ghost norm = char_vecs(raw@).map_values(|w: Seq<char>| normalize_word(w));
    let mut r: Vec<Vec<char>> = Vec::new();
    let mut i: usize = 0;
    while i < raw.len()
        invariant
            norm == char_vecs(raw@).map_values(|w: Seq<char>| normalize_word(w)),
            i <= raw.len(),
            char_vecs(r@) == nonempty_words(norm.take(i as int)),
        decreases raw.len() - i,
    {
        let cleaned = normalize_word_chars(&raw[i]);
        assert(norm.take(i + 1).drop_last() =~= norm.take(i as int));
        assert(norm.take(i + 1).last() == cleaned@);
        if cleaned.len() > 0 {
            let ghost before = char_vecs(r@);
            let ghost cv = cleaned@;
            r.push(cleaned);
            assert(char_vecs(r@) =~= before.push(cv));
        }
        i = i + 1;
    }
    assert(norm.take(raw.len() as int) =~= norm);
    r
}

/// The short function words that are never taken as a subject.
pub open spec fn teach_stopword(w: Seq<char>) -> bool {
    ||| w == "a"@
    ||| w == "an"@
    ||| w == "and"@
    ||| w == "are"@
    ||| w == "is"@
    ||| w == "of"@
    ||| w == "the"@
    ||| w == "to"@
    ||| w == "was"@
    ||| w == "were"@
}

pub fn is_stopword(w: &Vec<char>) -> (r: bool)
    ensures
        r == teach_stopword(w@),
{
    matches_str(w, "a") || matches_str(w, "an") || matches_str(w, "and") || matches_str(w, "are")
        || matches_str(w, "is") || matches_str(w, "of") || matches_str(w, "the") || matches_str(
        w,
        "to",
    ) || matches_str(w, "was") || matches_str(w, "were")
}

/// The articles that `strip_leading_article` removes.
pub open spec fn article(w: Seq<char>) -> bool {
    w == "a"@ || w == "an"@ || w == "the"@
}

/// Text without a leading article, with single spaces between words, sentence-trimmed.
pub open spec fn strip_leading_article(s: Seq<char>) -> Seq<char> {
    let ws = words_of(s);
    let kept = if ws.len() > 0 && article(normalize_word(ws[0])) {
        ws.drop_first()
    } else {
        ws
    };
    trim_sentence(join_with(kept, seq![' ']))
}

pub fn strip_leading_article_chars(s: &Vec<char>) -> (r: Vec<char>)
    ensures
        r@ == strip_leading_article(s@),
{
    let mut ws = split_whitespace(s);
    let ghost all = char_vecs(ws@);
    if ws.len() > 0 {
        let first = normalize_word_chars(&ws[0]);
        if matches_str(&first, "a") || matches_str(&first, "an") || matches_str(&first, "the") {
            ws.remove(0);
            assert(char_vecs(ws@) =~= all.drop_first());
        }
    }
    let sep: Vec<char> = vec![' '];
    assert(sep@ =~= seq![' ']);
    let joined = join_chars(&ws, &sep);
    trim_sentence_chars(&joined)
}

/// `str::eq_ignore_ascii_case`: equal once ASCII letters are lower-cased.
pub open spec fn eq_ignore_ascii_case(a: Seq<char>, b: Seq<char>) -> bool {
    a.len() == b.len() && forall|i: int| 0 <= i < a.len() ==> ascii_lower(#[trigger] a[i])
        == ascii_lower(b[i])
}

pub fn ascii_lower_char(c: char) -> (r: char)
    ensures
        r == ascii_lower(c),
{
    let u = c as u32;
    if 0x41 <= u && u <= 0x5A {
        let l: u32 = u + 32;
        assert(l == (u + 32) as u32);
        char_from_ascii_upper(c)
    } else {
        c
    }
}

fn char_from_ascii_upper(c: char) -> (r: char)
    requires
        0x41 <= (c as u32) <= 0x5A,
    ensures
        r == ((c as u32) + 32) as char,
{
    let b = c as u8;
    assert(b == c as u32);
    let l = (b + 32) as char;
    l
}

pub fn eq_ignore_ascii_case_chars(a: &Vec<char>, b: &Vec<char>) -> (r: bool)
    ensures
        r == eq_ignore_ascii_case(a@, b@),
{
    if a.len() != b.len() {
        return false;
    }
    let mut i: usize = 0;
    while i < a.len()
        invariant
            a@.len() == b@.len(),
            i <= a.len(),
            forall|k: int| 0 <= k < i ==> ascii_lower(#[trigger] a@[k]) == ascii_lower(b@[k]),
        decreases a.len() - i,
    {
        if ascii_lower_char(a[i]) != ascii_lower_char(b[i]) {
            return false;
        }
        i = i + 1;
    }
    true
}

/// A subject written twice in a row ("Paris Paris") is taken once.
pub open spec fn normalize_repeated_subject(s: Seq<char>) -> Seq<char> {
    let t = trim_sentence(s);
    let ws = words_of(t);
    let mid = ws.len() / 2;
    if ws.len() >= 2 && ws.len() % 2 == 0 && (forall|i: int|
        0 <= i < mid ==> eq_ignore_ascii_case(#[trigger] ws[i], ws[mid + i])) {
        join_with(ws.take(mid as int), seq![' '])
    } else {
        t
    }
}

pub fn normalize_repeated_subject_chars(s: &Vec<char>) -> (r: Vec<char>)
    ensures
        r@ == normalize_repeated_subject(s@),
{
    let trimmed = trim_sentence_chars(s);
    let words = split_whitespace(&trimmed);
    let ghost ws = char_vecs(words@);
    if words.len() >= 2 && words.len() % 2 == 0 {
        let n = words.len();
        let midpoint = n / 2;
        let mut i: usize = 0;
        while i < midpoint
            invariant
                n == words@.len(),
                ws == char_vecs(words@),
                trimmed@ == trim_sentence(s@),
                ws == words_of(trimmed@),
                midpoint == words@.len() / 2,
                words@.len() == 2 * midpoint,
                words@.len() >= 2,
                i <= midpoint,
                forall|k: int| 0 <= k < i ==> eq_ignore_ascii_case(#[trigger] ws[k], ws[midpoint + k]),
            decreases midpoint - i,
        {
            if !eq_ignore_ascii_case_chars(&words[i], &words[midpoint + i]) {
                assert(!eq_ignore_ascii_case(ws[i as int], ws[midpoint + i]));
                assert(!(forall|k: int|
                    0 <= k < midpoint ==> eq_ignore_ascii_case(#[trigger] ws[k], ws[midpoint + k])));
                return trimmed;
            }
            i = i + 1;
        }
            let mut first: Vec<Vec<char>> = Vec::new();
            let mut k: usize = 0;
            while k < midpoint
                invariant
                    ws == char_vecs(words@),
                    midpoint <= words@.len(),
                    k <= midpoint,
                    char_vecs(first@) == ws.take(k as int),
                decreases midpoint - k,
            {
                let piece = slice_chars(&words[k], 0, words[k].len());
                let ghost before = char_vecs(first@);
                let ghost pv = piece@;
                first.push(piece);
                assert(pv =~= ws[k as int]);
                assert(char_vecs(first@) =~= before.push(pv));
                assert(ws.take(k + 1) =~= ws.take(k as int).push(ws[k as int]));
                k = k + 1;
            }
            let sep: Vec<char> = vec![' '];
            assert(sep@ =~= seq![' ']);
            return join_chars(&first, &sep);
    }
    trimmed
}

// ---------------------------------------------------------------------------
// Question and answer formats
// ---------------------------------------------------------------------------

/// Whether text reads as a question or a short key: it has a question mark, or at most
/// 32 chars.
pub open spec fn question_or_short_key(t: Seq<char>) -> bool {
    has_char(t, '?') || has_char(t, '？') || t.len() <= 32
}

pub fn looks_like_question_or_short_key(t: &Vec<char>) -> (r: bool)
    ensures
        r == question_or_short_key(t@),
{
    contains_char(t, '?') || contains_char(t, '？') || t.len() <= 32
}

/// The question prefixes of the labelled formats, tried in this order.
pub open spec fn qa_question_marker(k: int) -> Seq<char> {
    if k == 0 {
        "问题:"@
    } else if k == 1 {
        "问题："@
    } else if k == 2 {
        "问题:"@
    } else if k == 3 {
        "问题："@
    } else if k == 4 {
        "Q:"@
    } else {
        "Q："@
    }
}

/// The answer labels that go with the question prefixes.
pub open spec fn qa_answer_marker(k: int) -> Seq<char> {
    if k == 0 {
        "答案:"@
    } else if k == 1 {
        "答案："@
    } else if k == 2 {
        "答案："@
    } else if k == 3 {
        "答案:"@
    } else if k == 4 {
        "A:"@
    } else {
        "A："@
    }
}

/// The separators of the unlabelled `question : answer` formats, tried in this order.
pub open spec fn qa_separator(k: int) -> Seq<char> {
    if k == 0 {
        " : "@
    } else if k == 1 {
        " ： "@
    } else if k == 2 {
        "："@
    } else {
        ":"@
    }
}

fn question_marker(k: usize) -> (r: &'static str)
    ensures
        r@ == qa_question_marker(k as int),
{
    if k == 0 {
        "问题:"
    } else if k == 1 {
        "问题："
    } else if k == 2 {
        "问题:"
    } else if k == 3 {
        "问题："
    } else if k == 4 {
        "Q:"
    } else {
        "Q："
    }
}

fn answer_marker(k: usize) -> (r: &'static str)
    ensures
        r@ == qa_answer_marker(k as int),
{
    if k == 0 {
        "答案:"
    } else if k == 1 {
        "答案："
    } else if k == 2 {
        "答案："
    } else if k == 3 {
        "答案:"
    } else if k == 4 {
        "A:"
    } else {
        "A："
    }
}

fn separator(k: usize) -> (r: &'static str)
    ensures
        r@ == qa_separator(k as int),
{
    if k == 0 {
        " : "
    } else if k == 1 {
        " ： "
    } else if k == 2 {
        "："
    } else {
        ":"
    }
}

/// Both parts, sentence-trimmed, when both are non-empty.
pub open spec fn trimmed_pair(a: Seq<char>, b: Seq<char>) -> Option<(Seq<char>, Seq<char>)> {
    let input = trim_sentence(a);
    let target = trim_sentence(b);
    if input.len() > 0 && target.len() > 0 {
        Some((input, target))
    } else {
        None
    }
}

/// The labelled format `k`: the question prefix starts the text and the answer label
/// follows it.
pub open spec fn qa_labelled(text: Seq<char>, k: int) -> Option<(Seq<char>, Seq<char>)> {
    let q = qa_question_marker(k);
    if starts_with(text, q) {
        match split_once(text.skip(q.len() as int), qa_answer_marker(k)) {
            Some((question, answer)) => trimmed_pair(question, answer),
            None => None,
        }
    } else {
        None
    }
}

/// The unlabelled format `k`: the text before the separator reads as a question or a
/// short key, and the text after it is not empty.
pub open spec fn qa_separated(text: Seq<char>, k: int) -> Option<(Seq<char>, Seq<char>)> {
    match split_once(text, qa_separator(k)) {
        Some((question, answer)) => {
            let input = trim_sentence(question);
            let target = trim_sentence(answer);
            if question_or_short_key(input) && target.len() > 0 {
                Some((input, target))
            } else {
                None
            }
        },
        None => None,
    }
}

pub open spec fn qa_separated_from(text: Seq<char>, k: int) -> Option<(Seq<char>, Seq<char>)>
    decreases 4 - k,
{
    if k >= 4 || k < 0 {
        None
    } else {
        match qa_separated(text, k) {
            Some(p) => Some(p),
            None => qa_separated_from(text, k + 1),
        }
    }
}

pub open spec fn qa_labelled_from(text: Seq<char>, k: int) -> Option<(Seq<char>, Seq<char>)>
    decreases 6 - k,
{
    if k >= 6 || k < 0 {
        qa_separated_from(text, 0)
    } else {
        match qa_labelled(text, k) {
            Some(p) => Some(p),
            None => qa_labelled_from(text, k + 1),
        }
    }
}

/// The question and answer of a text in one of the question and answer formats: the
/// labelled formats first, then the separated ones, each in its order.
pub open spec fn qa_association(text: Seq<char>) -> Option<(Seq<char>, Seq<char>)> {
    qa_labelled_from(text, 0)
}

fn trimmed_pair_exec(a: &Vec<char>, b: &Vec<char>) -> (r: Option<(Vec<char>, Vec<char>)>)
    ensures
        match r {
            Some((x, y)) => trimmed_pair(a@, b@) == Some((x@, y@)),
            None => trimmed_pair(a@, b@) is None,
        },
{
    let input = trim_sentence_chars(a);
    let target = trim_sentence_chars(b);
    if input.len() > 0 && target.len() > 0 {
        Some((input, target))
    } else {
        None
    }
}

pub fn extract_qa_association_chars(text: &Vec<char>) -> (r: Option<(Vec<char>, Vec<char>)>)
    ensures
        match r {
            Some((x, y)) => qa_association(text@) == Some((x@, y@)),
            None => qa_association(text@) is None,
        },
{
    let mut k: usize = 0;
    while k < 6
        invariant
            k <= 6,
            qa_association(text@) == qa_labelled_from(text@, k as int),
        decreases 6 - k,
    {
        let q = chars_of(question_marker(k));
        let a = chars_of(answer_marker(k));
        if starts_with_chars(text, &q) {
            let rest = slice_chars(text, q.len(), text.len());
            assert(rest@ =~= text@.skip(q@.len() as int));
            if let Some((question, answer)) = split_once_chars(&rest, &a) {
                if let Some(p) = trimmed_pair_exec(&question, &answer) {
                    return Some(p);
                }
            }
        }
        k = k + 1;
    }
    let mut k: usize = 0;
    while k < 4
        invariant
            k <= 4,
            qa_association(text@) == qa_separated_from(text@, k as int),
        decreases 4 - k,
    {
        let sep = chars_of(separator(k));
        if let Some((question, answer)) = split_once_chars(text, &sep) {
            let input = trim_sentence_chars(&question);
            let target = trim_sentence_chars(&answer);
            if looks_like_question_or_short_key(&input) && target.len() > 0 {
                return Some((input, target));
            }
        }
        k = k + 1;
    }
    None
}

// ---------------------------------------------------------------------------
// Byte offsets
// ---------------------------------------------------------------------------

/// The number of bytes of the UTF-8 encoding of `c` (`char::len_utf8`).
pub open spec fn utf8_width(c: char) -> nat {
    let u = c as u32;
    if u < 0x80 {
        1
    } else if u < 0x800 {
        2
    } else if u < 0x10000 {
        3
    } else {
        4
    }
}

/// The number of bytes of the UTF-8 encoding of `s`.
pub open spec fn utf8_len(s: Seq<char>) -> nat
    decreases s.len(),
{
    if s.len() == 0 {
        0
    } else {
        utf8_len(s.drop_last()) + utf8_width(s.last())
    }
}

/// The char index, at `k` or later, at which the UTF-8 encoding of `s` reaches byte
/// `b`; none when `b` is not on a char boundary of `s`.
pub open spec fn char_index_from(s: Seq<char>, b: int, k: int) -> Option<int>
    decreases s.len() + 1 - k,
{
    if k < 0 || k > s.len() {
        None
    } else if utf8_len(s.take(k)) == b {
        Some(k)
    } else if utf8_len(s.take(k)) > b {
        None
    } else {
        char_index_from(s, b, k + 1)
    }
}

pub proof fn lemma_char_index_from(s: Seq<char>, b: int, k: int)
    ensures
        match char_index_from(s, b, k) {
            Some(i) => k <= i <= s.len() && utf8_len(s.take(i)) == b,
            None => true,
        },
    decreases s.len() + 1 - k,
{
    if k < 0 || k > s.len() {
    } else if utf8_len(s.take(k)) == b {
    } else if utf8_len(s.take(k)) > b {
    } else {
        lemma_char_index_from(s, b, k + 1);
    }
}

/// The char index at which byte offset `b` falls in `s`, when it is a char boundary.
pub open spec fn char_index_at_byte(s: Seq<char>, b: int) -> Option<int> {
    char_index_from(s, b, 0)
}

fn utf8_width_exec(c: char) -> (r: u128)
    ensures
        r == utf8_width(c),
{
    let u = c as u32;
    if u < 0x80 {
        1
    } else if u < 0x800 {
        2
    } else if u < 0x10000 {
        3
    } else {
        4
    }
}

/// The byte length of the first `k` chars of `s`.
fn utf8_prefix_len(s: &Vec<char>, k: usize) -> (r: u128)
    requires
        k <= s@.len(),
    ensures
        r == utf8_len(s@.take(k as int)),
        r <= 4 * k,
{
    let mut total: u128 = 0;
    let mut i: usize = 0;
    while i < k
        invariant
            i <= k <= s@.len(),
            total == utf8_len(s@.take(i as int)),
            total <= 4 * i,
        decreases k - i,
    {
        assert(s@.take(i + 1).drop_last() =~= s@.take(i as int));
        total = total + utf8_width_exec(s[i]);
        i = i + 1;
    }
    total
}

fn char_index_at_byte_exec(s: &Vec<char>, b: u128) -> (r: Option<usize>)
    ensures
        match r {
            Some(k) => char_index_at_byte(s@, b as int) == Some(k as int),
            None => char_index_at_byte(s@, b as int) is None,
        },
{
    let mut total: u128 = 0;
    let mut k: usize = 0;
    loop
        invariant
            k <= s@.len(),
            total == utf8_len(s@.take(k as int)),
            total <= 4 * k,
            char_index_at_byte(s@, b as int) == char_index_from(s@, b as int, k as int),
        decreases s@.len() - k,
    {
        if total == b {
            return Some(k);
        }
        if total > b || k == s.len() {
            proof {
                if k == s@.len() && total < b {
                    assert(char_index_from(s@, b as int, k + 1) is None);
                }
            }
            return None;
        }
        assert(s@.take(k + 1).drop_last() =~= s@.take(k as int));
        total = total + utf8_width_exec(s[k]);
        k = k + 1;
    }
}

// ---------------------------------------------------------------------------
// Sentence formats
// ---------------------------------------------------------------------------

/// The English linking words, tried in this order.
pub open spec fn english_marker(k: int) -> Seq<char> {
    if k == 0 {
        " refers to "@
    } else if k == 1 {
        " means "@
    } else if k == 2 {
        " were "@
    } else if k == 3 {
        " was "@
    } else if k == 4 {
        " are "@
    } else {
        " is "@
    }
}

fn english_marker_str(k: usize) -> (r: &'static str)
    ensures
        r@ == english_marker(k as int),
{
    if k == 0 {
        " refers to "
    } else if k == 1 {
        " means "
    } else if k == 2 {
        " were "
    } else if k == 3 {
        " was "
    } else if k == 4 {
        " are "
    } else {
        " is "
    }
}

/// The Chinese linking words, tried in this order.
pub open spec fn chinese_marker(k: int) -> Seq<char> {
    if k == 0 {
        "指的是"@
    } else if k == 1 {
        "意味着"@
    } else if k == 2 {
        "叫做"@
    } else if k == 3 {
        "位于"@
    } else if k == 4 {
        "属于"@
    } else {
        "是"@
    }
}

fn chinese_marker_str(k: usize) -> (r: &'static str)
    ensures
        r@ == chinese_marker(k as int),
{
    if k == 0 {
        "指的是"
    } else if k == 1 {
        "意味着"
    } else if k == 2 {
        "叫做"
    } else if k == 3 {
        "位于"
    } else if k == 4 {
        "属于"
    } else {
        "是"
    }
}

/// The outcome of one stage of the extraction.
pub enum Stage {
    /// An input and a target were found.
    Found(Seq<char>, Seq<char>),
    /// The text is cut at a byte offset that is not a char boundary of the text, which
    /// makes the slicing panic.
    Panics,
    /// The stage found nothing.
    NoMatch,
}

/// English linking word `k`: it is looked up in the lower-cased text and the text is
/// cut at the same byte offsets. The text is lower-cased char by char; lower-casing the
/// whole string differs from that only in a final Greek sigma, a non-ASCII char of the
/// same UTF-8 width, so the offset of an ASCII linking word is the same either way.
pub open spec fn english_split(cleaned: Seq<char>, k: int) -> Stage {
    let lower = lower_all(cleaned);
    let m = english_marker(k);
    match find(lower, m) {
        None => Stage::NoMatch,
        Some(p) => {
            let b = utf8_len(lower.take(p)) as int;
            match (char_index_at_byte(cleaned, b), char_index_at_byte(cleaned, b + m.len())) {
                (Some(i), Some(j)) => {
                    let input = normalize_repeated_subject(strip_leading_article(cleaned.take(i)));
                    let target = strip_leading_article(cleaned.skip(j));
                    if input.len() > 0 && target.len() > 0 {
                        Stage::Found(input, target)
                    } else {
                        Stage::NoMatch
                    }
                },
                _ => Stage::Panics,
            }
        },
    }
}

/// The English linking words from `k` on: the first that gives a non-empty input and
/// target, unless a cut panics before.
pub open spec fn english_from(cleaned: Seq<char>, k: int) -> Stage
    decreases 6 - k,
{
    if k >= 6 || k < 0 {
        Stage::NoMatch
    } else {
        match english_split(cleaned, k) {
            Stage::NoMatch => english_from(cleaned, k + 1),
            other => other,
        }
    }
}

/// The Chinese linking words from `k` on: the first whose two sides, sentence-trimmed,
/// are both non-empty.
pub open spec fn chinese_from(cleaned: Seq<char>, k: int) -> Option<(Seq<char>, Seq<char>)>
    decreases 6 - k,
{
    if k >= 6 || k < 0 {
        None
    } else {
        match split_once(cleaned, chinese_marker(k)) {
            Some((a, b)) => match trimmed_pair(a, b) {
                Some(p) => Some(p),
                None => chinese_from(cleaned, k + 1),
            },
            None => chinese_from(cleaned, k + 1),
        }
    }
}

/// The first word that is not a stop word.
pub open spec fn first_subject(words: Seq<Seq<char>>) -> Option<Seq<char>>
    decreases words.len(),
{
    if words.len() == 0 {
        None
    } else if !teach_stopword(words[0]) {
        Some(words[0])
    } else {
        first_subject(words.drop_first())
    }
}

/// What `extract_association` makes of a text.
pub enum Extraction {
    Pair(Seq<char>, Seq<char>),
    Empty,
    NoSubject,
    Panics,
}

/// The association of a text: it is sentence-trimmed; an empty text has none; then
/// the question and answer formats, the English linking words, the Chinese linking
/// words are tried in turn; failing all, the first normalised word that is not a stop
/// word is the input and the whole trimmed text the target.
pub open spec fn extraction(text: Seq<char>) -> Extraction {
    let cleaned = trim_sentence(text);
    if cleaned.len() == 0 {
        Extraction::Empty
    } else {
        match qa_association(cleaned) {
            Some((i, t)) => Extraction::Pair(i, t),
            None => match english_from(cleaned, 0) {
                Stage::Found(i, t) => Extraction::Pair(i, t),
                Stage::Panics => Extraction::Panics,
                Stage::NoMatch => match chinese_from(cleaned, 0) {
                    Some((i, t)) => Extraction::Pair(i, t),
                    None => match first_subject(normalized_words(cleaned)) {
                        Some(w) => Extraction::Pair(w, cleaned),
                        None => Extraction::NoSubject,
                    },
                },
            },
        }
    }
}

fn english_association(cleaned: &Vec<char>) -> (r: Option<Option<(Vec<char>, Vec<char>)>>)
    ensures
        match r {
            None => english_from(cleaned@, 0) == Stage::Panics,
            Some(None) => english_from(cleaned@, 0) == Stage::NoMatch,
            Some(Some((i, t))) => english_from(cleaned@, 0) == Stage::Found(i@, t@),
        },
{
    let lower = lower_chars(cleaned);
    let mut k: usize = 0;
    while k < 6
        invariant
            k <= 6,
            lower@ == lower_all(cleaned@),
            english_from(cleaned@, 0) == english_from(cleaned@, k as int),
        decreases 6 - k,
    {
        let m = chars_of(english_marker_str(k));
        if let Some(p) = find_chars(&lower, &m) {
            proof {
                crate::text::lemma_find_from(lower@, m@, 0);
            }
            let b = utf8_prefix_len(&lower, p);
            let mlen = m.len() as u128;
            let i = char_index_at_byte_exec(cleaned, b);
            let j = char_index_at_byte_exec(cleaned, b + mlen);
            match (i, j) {
                (Some(i), Some(j)) => {
                    proof {
                        lemma_char_index_from(cleaned@, b as int, 0);
                        lemma_char_index_from(cleaned@, b + mlen, 0);
                    }
                    let head = slice_chars(cleaned, 0, i);
                    let tail = slice_chars(cleaned, j, cleaned.len());
                    let input = normalize_repeated_subject_chars(&strip_leading_article_chars(&head));
                    let target = strip_leading_article_chars(&tail);
                    if input.len() > 0 && target.len() > 0 {
                        return Some(Some((input, target)));
                    }
                },
                _ => {
                    return None;
                },
            }
        }
        k = k + 1;
    }
    Some(None)
}

fn chinese_association(cleaned: &Vec<char>) -> (r: Option<(Vec<char>, Vec<char>)>)
    ensures
        match r {
            Some((i, t)) => chinese_from(cleaned@, 0) == Some((i@, t@)),
            None => chinese_from(cleaned@, 0) is None,
        },
{
    let mut k: usize = 0;
    while k < 6
        invariant
            k <= 6,
            chinese_from(cleaned@, 0) == chinese_from(cleaned@, k as int),
        decreases 6 - k,
    {
        let m = chars_of(chinese_marker_str(k));
        if let Some((a, b)) = split_once_chars(cleaned, &m) {
            if let Some(p) = trimmed_pair_exec(&a, &b) {
                return Some(p);
            }
        }
        k = k + 1;
    }
    None
}

fn first_subject_of(words: &Vec<Vec<char>>) -> (r: Option<Vec<char>>)
    ensures
        match r {
            Some(w) => first_subject(char_vecs(words@)) == Some(w@),
            None => first_subject(char_vecs(words@)) is None,
        },
{
    let ghost ws = char_vecs(words@);
    assert(ws.skip(0) =~= ws);
    let mut i: usize = 0;
    while i < words.len()
        invariant
            ws == char_vecs(words@),
            i <= words.len(),
            first_subject(ws) == first_subject(ws.skip(i as int)),
        decreases words.len() - i,
    {
        assert(ws.skip(i as int)[0] == ws[i as int]);
        assert(ws.skip(i as int).drop_first() =~= ws.skip(i + 1));
        if !is_stopword(&words[i]) {
            let w = slice_chars(&words[i], 0, words[i].len());
            assert(w@ =~= ws[i as int]);
            return Some(w);
        }
        i = i + 1;
    }
    assert(ws.skip(words.len() as int) =~= Seq::<Seq<char>>::empty());
    None
}

pub proof fn lemma_qa_separated_target(text: Seq<char>, k: int)
    ensures
        qa_separated_from(text, k) matches Some((i, t)) ==> t.len() > 0,
    decreases 4 - k,
{
    if 0 <= k < 4 {
        lemma_qa_separated_target(text, k + 1);
    }
}

pub proof fn lemma_qa_labelled_target(text: Seq<char>, k: int)
    ensures
        qa_labelled_from(text, k) matches Some((i, t)) ==> t.len() > 0,
    decreases 6 - k,
{
    if 0 <= k < 6 {
        lemma_qa_labelled_target(text, k + 1);
    } else {
        lemma_qa_separated_target(text, 0);
    }
}

pub proof fn lemma_english_nonempty(cleaned: Seq<char>, k: int)
    ensures
        english_from(cleaned, k) matches Stage::Found(i, t) ==> i.len() > 0 && t.len() > 0,
    decreases 6 - k,
{
    if 0 <= k < 6 {
        lemma_english_nonempty(cleaned, k + 1);
    }
}

pub proof fn lemma_chinese_nonempty(cleaned: Seq<char>, k: int)
    ensures
        chinese_from(cleaned, k) matches Some((i, t)) ==> i.len() > 0 && t.len() > 0,
    decreases 6 - k,
{
    if 0 <= k < 6 {
        lemma_chinese_nonempty(cleaned, k + 1);
    }
}

pub proof fn lemma_first_subject_nonempty(words: Seq<Seq<char>>)
    requires
        forall|k: int| 0 <= k < words.len() ==> (#[trigger] words[k]).len() > 0,
    ensures
        first_subject(words) matches Some(w) ==> w.len() > 0,
    decreases words.len(),
{
    if words.len() > 0 && teach_stopword(words[0]) {
        assert forall|k: int| 0 <= k < words.drop_first().len() implies (
        #[trigger] words.drop_first()[k]).len() > 0 by {
            assert(words.drop_first()[k] == words[k + 1]);
        }
        lemma_first_subject_nonempty(words.drop_first());
    }
}

pub proof fn lemma_nonempty_words(ws: Seq<Seq<char>>)
    ensures
        forall|k: int|
            0 <= k < nonempty_words(ws).len() ==> (#[trigger] nonempty_words(ws)[k]).len() > 0,
    decreases ws.len(),
{
    if ws.len() > 0 {
        lemma_nonempty_words(ws.drop_last());
        let rest = nonempty_words(ws.drop_last());
        if ws.last().len() > 0 {
            assert forall|k: int| 0 <= k < rest.push(ws.last()).len() implies (
            #[trigger] rest.push(ws.last())[k]).len() > 0 by {
                if k < rest.len() {
                    assert(rest.push(ws.last())[k] == rest[k]);
                }
            }
        }
    }
}

/// Law: an extracted target is never empty, and an input found by the labelled
/// question formats, the linking words or the subject search is never empty either.
pub proof fn law_extracted_target_nonempty(text: Seq<char>)
    ensures
        extraction(text) matches Extraction::Pair(i, t) ==> t.len() > 0,
        extraction(text) matches Extraction::Pair(i, t) ==> i.len() > 0 || qa_association(
            trim_sentence(text),
        ) == Some((i, t)),
{
    let cleaned = trim_sentence(text);
    lemma_qa_labelled_target(cleaned, 0);
    lemma_english_nonempty(cleaned, 0);
    lemma_chinese_nonempty(cleaned, 0);
    lemma_nonempty_words(words_of(cleaned).map_values(|w: Seq<char>| normalize_word(w)));
    lemma_first_subject_nonempty(normalized_words(cleaned));
}

/// Lower-casing a text lower-cases its parts.
pub proof fn lemma_lower_all_concat(a: Seq<char>, b: Seq<char>)
    ensures
        lower_all(a + b) == lower_all(a) + lower_all(b),
    decreases b.len(),
{
    if b.len() == 0 {
        assert(a + b =~= a);
        assert(lower_all(a) + lower_all(b) =~= lower_all(a));
    } else {
        lemma_lower_all_concat(a, b.drop_last());
        assert((a + b).drop_last() =~= a + b.drop_last());
        assert((a + b).last() == b.last());
        assert(lower_all(a) + lower_all(b.drop_last()) + lowercase_of(b.last()) =~= lower_all(a) + (
        lower_all(b.drop_last()) + lowercase_of(b.last())));
    }
}

/// The UTF-8 length of a text is the sum of those of its parts.
pub proof fn lemma_utf8_len_concat(a: Seq<char>, b: Seq<char>)
    ensures
        utf8_len(a + b) == utf8_len(a) + utf8_len(b),
    decreases b.len(),
{
    if b.len() == 0 {
        assert(a + b =~= a);
    } else {
        lemma_utf8_len_concat(a, b.drop_last());
        assert((a + b).drop_last() =~= a + b.drop_last());
        assert((a + b).last() == b.last());
    }
}

/// Every char takes at least one byte: a longer prefix has a longer encoding.
pub proof fn lemma_utf8_prefix_grows(s: Seq<char>, i: int, j: int)
    requires
        0 <= i <= j <= s.len(),
    ensures
        utf8_len(s.take(i)) + (j - i) <= utf8_len(s.take(j)),
    decreases j - i,
{
    if i < j {
        lemma_utf8_prefix_grows(s, i, j - 1);
        assert(s.take(j).drop_last() =~= s.take(j - 1));
    }
}

/// The byte offset of a prefix of `s` falls on the char index at its end.
pub proof fn lemma_char_index_of_prefix(s: Seq<char>, k: int, i: int)
    requires
        0 <= i <= k <= s.len(),
    ensures
        char_index_from(s, utf8_len(s.take(k)) as int, i) == Some(k),
    decreases k - i,
{
    if i < k {
        lemma_utf8_prefix_grows(s, i, k);
        lemma_char_index_of_prefix(s, k, i + 1);
    }
}

/// A text of ASCII chars takes one byte per char.
pub proof fn lemma_utf8_len_ascii(s: Seq<char>)
    requires
        forall|k: int| 0 <= k < s.len() ==> (#[trigger] s[k] as u32) < 0x80,
    ensures
        utf8_len(s) == s.len(),
    decreases s.len(),
{
    if s.len() > 0 {
        assert(s.last() == s[s.len() - 1]);
        assert forall|k: int| 0 <= k < s.drop_last().len() implies (
        #[trigger] s.drop_last()[k] as u32) < 0x80 by {
            assert(s.drop_last()[k] == s[k]);
        }
        lemma_utf8_len_ascii(s.drop_last());
    }
}

/// Law: the English linking words are " refers to ", " means ", " were ", " was ",
/// " are " and " is ", tried in that order. For a sentence `x` `words[k]` `y` that needs
/// no trimming and has no question and answer format, where the lower-cased sentence
/// holds none of the linking words before `words[k]` in that list and no `words[k]`
/// before the one after `x`, and where lower-casing keeps `words[k]` as it is and `x` at
/// its UTF-8 length (so that byte offsets agree), the fact is `x` and `y`, each without a
/// leading article (and `x` without a repeated subject), when both are non-empty. So
/// "Entropy means disorder" gives "Entropy" and "disorder".
pub proof fn law_linking_word_links_subject_to_target(
    words: Seq<Seq<char>>,
    k: int,
    x: Seq<char>,
    y: Seq<char>,
)
    requires
        words == seq![" refers to "@, " means "@, " were "@, " was "@, " are "@, " is "@],
        0 <= k < 6,
        trim_sentence(x + words[k] + y) == x + words[k] + y,
        qa_association(x + words[k] + y) is None,
        lower_all(words[k]) == words[k],
        utf8_len(lower_all(x)) == utf8_len(x),
        forall|i: int, j: int|
            0 <= i < k ==> !#[trigger] occurs_at(lower_all(x + words[k] + y), words[i], j),
        forall|j: int|
            0 <= j < lower_all(x).len() ==> !occurs_at(lower_all(x + words[k] + y), words[k], j),
        normalize_repeated_subject(strip_leading_article(x)).len() > 0,
        strip_leading_article(y).len() > 0,
    ensures
        extraction(x + words[k] + y) == Extraction::Pair(
            normalize_repeated_subject(strip_leading_article(x)),
            strip_leading_article(y),
        ),
{
    let m = words[k];
    let text = x + m + y;
    let lx = lower_all(x);
    let low = lower_all(text);
    assert forall|i: int| 0 <= i < 6 implies english_marker(i) == #[trigger] words[i] by {}
    lemma_lower_all_concat(x + m, y);
    lemma_lower_all_concat(x, m);
    assert(low =~= lx + m + lower_all(y));
    assert forall|i: int| 0 <= i < k implies english_split(text, i) == Stage::NoMatch by {
        assert(english_marker(i) == words[i]);
        lemma_linking_word_absent(text, i);
    }
    lemma_english_from_skips(text, 0, k);
    lemma_first_occurrence(lx, m, lower_all(y));
    assert(low.take(lx.len() as int) =~= lx);
    lemma_linking_words_ascii(words, k);
    lemma_ascii_linking_word_offsets(x, m, y);
    assert(english_marker(k) == m);
    assert(english_split(text, k) == Stage::Found(
        normalize_repeated_subject(strip_leading_article(x)),
        strip_leading_article(y),
    ));
}

/// Linking words that give no match are passed over.
proof fn lemma_english_from_skips(text: Seq<char>, i: int, k: int)
    requires
        0 <= i <= k <= 6,
        forall|j: int| i <= j < k ==> english_split(text, j) == Stage::NoMatch,
    ensures
        english_from(text, i) == english_from(text, k),
    decreases k - i,
{
    if i < k {
        lemma_english_from_skips(text, i + 1, k);
    }
}

/// The English linking words are ASCII.
proof fn lemma_linking_words_ascii(words: Seq<Seq<char>>, k: int)
    requires
        words == seq![" refers to "@, " means "@, " were "@, " was "@, " are "@, " is "@],
        0 <= k < 6,
    ensures
        forall|j: int| 0 <= j < words[k].len() ==> (#[trigger] words[k][j] as u32) < 0x80,
{
    reveal_strlit(" refers to ");
    reveal_strlit(" means ");
    reveal_strlit(" were ");
    reveal_strlit(" was ");
    reveal_strlit(" are ");
    reveal_strlit(" is ");
    let w = words[k];
    if k == 0 {
        assert(w == " refers to "@);
    } else if k == 1 {
        assert(w == " means "@);
    } else if k == 2 {
        assert(w == " were "@);
    } else if k == 3 {
        assert(w == " was "@);
    } else if k == 4 {
        assert(w == " are "@);
    } else {
        assert(w == " is "@);
    }
    assert forall|j: int| 0 <= j < w.len() implies (#[trigger] w[j] as u32) < 0x80 by {}
}

/// The labelled format `k`, when no earlier format's question prefix starts the text,
/// gives the sentence-trimmed question and answer.
proof fn lemma_qa_labelled_at(k: int, a: Seq<char>, b: Seq<char>)
    requires
        0 <= k < 6,
        forall|i: int|
            0 <= i < k ==> !starts_with(
                qa_question_marker(k) + a + qa_answer_marker(k) + b,
                #[trigger] qa_question_marker(i),
            ),
        forall|j: int|
            0 <= j < a.len() ==> !occurs_at(a + qa_answer_marker(k) + b, qa_answer_marker(k), j),
        trim_sentence(a).len() > 0,
        trim_sentence(b).len() > 0,
    ensures
        qa_association(qa_question_marker(k) + a + qa_answer_marker(k) + b) == Some(
            (trim_sentence(a), trim_sentence(b)),
        ),
{
    let q = qa_question_marker(k);
    let m = qa_answer_marker(k);
    let text = q + a + m + b;
    assert forall|i: int| 0 <= i < k implies qa_labelled(text, i) is None by {
        assert(!starts_with(text, qa_question_marker(i)));
    }
    lemma_qa_labelled_skips(text, 0, k);
    assert(text.take(q.len() as int) =~= q);
    assert(text.skip(q.len() as int) =~= a + m + b);
    lemma_first_occurrence(a, m, b);
    assert((a + m + b).take(a.len() as int) =~= a);
    assert((a + m + b).skip((a.len() + m.len()) as int) =~= b);
}

/// Labelled formats that give nothing are passed over.
proof fn lemma_qa_labelled_skips(text: Seq<char>, i: int, k: int)
    requires
        0 <= i <= k < 6,
        forall|j: int| i <= j < k ==> qa_labelled(text, j) is None,
    ensures
        qa_labelled_from(text, i) == qa_labelled_from(text, k),
    decreases k - i,
{
    if i < k {
        lemma_qa_labelled_skips(text, i + 1, k);
    }
}

/// Law: a text "Q:" `a` "A:" `b`, where `a` holds no "A:", is a question `a` with the
/// answer `b`, each sentence-trimmed, when both are non-empty.
pub proof fn law_question_and_answer_labels(a: Seq<char>, b: Seq<char>)
    requires
        forall|j: int| 0 <= j < a.len() ==> !occurs_at(a + "A:"@ + b, "A:"@, j),
        trim_sentence(a).len() > 0,
        trim_sentence(b).len() > 0,
    ensures
        qa_association("Q:"@ + a + "A:"@ + b) == Some((trim_sentence(a), trim_sentence(b))),
{
    reveal_strlit("Q:");
    reveal_strlit("问题:");
    reveal_strlit("问题：");
    let text = "Q:"@ + a + "A:"@ + b;
    assert forall|i: int| 0 <= i < 4 implies !starts_with(text, #[trigger] qa_question_marker(i)) by {
        assert(text[0] == 'Q');
        assert(qa_question_marker(i)[0] == '问');
        if starts_with(text, qa_question_marker(i)) {
            assert(text.take(qa_question_marker(i).len() as int)[0] == text[0]);
        }
    }
    lemma_qa_labelled_at(4, a, b);
}

/// Law: a text "问题：" `a` "答案：" `b` (with full-width colons), where `a` holds no
/// "答案：", is a question `a` with the answer `b`, each sentence-trimmed, when both are
/// non-empty.
pub proof fn law_chinese_question_and_answer_labels(a: Seq<char>, b: Seq<char>)
    requires
        forall|j: int| 0 <= j < a.len() ==> !occurs_at(a + "答案："@ + b, "答案："@, j),
        trim_sentence(a).len() > 0,
        trim_sentence(b).len() > 0,
    ensures
        qa_association("问题："@ + a + "答案："@ + b) == Some(
            (trim_sentence(a), trim_sentence(b)),
        ),
{
    reveal_strlit("问题:");
    reveal_strlit("问题：");
    let text = "问题："@ + a + "答案："@ + b;
    assert(!starts_with(text, qa_question_marker(0))) by {
        assert(text[2] == '：');
        if starts_with(text, qa_question_marker(0)) {
            assert(text.take(3)[2] == text[2]);
        }
    }
    lemma_qa_labelled_at(1, a, b);
}

/// Law: the Chinese linking words are "指的是", "意味着", "叫做", "位于", "属于" and "是",
/// tried in that order once no English linking word is found. For a sentence `x`
/// `chinese[k]` `y` that needs no trimming, has no question and answer format and whose
/// lower-cased text holds none of the English linking words, where the sentence holds
/// none of the Chinese linking words before `chinese[k]` in that list and no `chinese[k]`
/// inside `x`, the fact is `x` and `y`, sentence-trimmed, when both are non-empty. So
/// "山是由构造力形成的" gives "山" and "由构造力形成的".
pub proof fn law_chinese_linking_word_links_subject_to_target(
    english: Seq<Seq<char>>,
    chinese: Seq<Seq<char>>,
    k: int,
    x: Seq<char>,
    y: Seq<char>,
)
    requires
        english == seq![" refers to "@, " means "@, " were "@, " was "@, " are "@, " is "@],
        chinese == seq!["指的是"@, "意味着"@, "叫做"@, "位于"@, "属于"@, "是"@],
        0 <= k < 6,
        trim_sentence(x + chinese[k] + y) == x + chinese[k] + y,
        qa_association(x + chinese[k] + y) is None,
        forall|i: int, j: int|
            0 <= i < 6 ==> !#[trigger] occurs_at(lower_all(x + chinese[k] + y), english[i], j),
        forall|i: int, j: int|
            0 <= i < k ==> !#[trigger] occurs_at(x + chinese[k] + y, chinese[i], j),
        forall|j: int| 0 <= j < x.len() ==> !occurs_at(x + chinese[k] + y, chinese[k], j),
        trim_sentence(x).len() > 0,
        trim_sentence(y).len() > 0,
    ensures
        extraction(x + chinese[k] + y) == Extraction::Pair(trim_sentence(x), trim_sentence(y)),
{
    let m = chinese[k];
    let text = x + m + y;
    assert forall|i: int| 0 <= i < 6 implies english_marker(i) == #[trigger] english[i] by {}
    assert forall|i: int| 0 <= i < 6 implies chinese_marker(i) == #[trigger] chinese[i] by {}
    assert forall|i: int| 0 <= i < 6 implies english_split(text, i) == Stage::NoMatch by {
        assert(english_marker(i) == english[i]);
        lemma_linking_word_absent(text, i);
    }
    lemma_english_from_skips(text, 0, 6);
    assert forall|i: int| 0 <= i < k implies split_once(text, #[trigger] chinese_marker(i))
        is None by {
        assert(chinese_marker(i) == chinese[i]);
        crate::text::lemma_find_from(text, chinese[i], 0);
    }
    lemma_chinese_from_skips(text, 0, k);
    lemma_first_occurrence(x, m, y);
    assert(text.take(x.len() as int) =~= x);
    assert(text.skip((x.len() + m.len()) as int) =~= y);
    assert(chinese_marker(k) == m);
}

/// Chinese linking words that do not occur are passed over.
proof fn lemma_chinese_from_skips(text: Seq<char>, i: int, k: int)
    requires
        0 <= i <= k < 6,
        forall|j: int| i <= j < k ==> split_once(text, #[trigger] chinese_marker(j)) is None,
    ensures
        chinese_from(text, i) == chinese_from(text, k),
    decreases k - i,
{
    if i < k {
        assert(split_once(text, chinese_marker(i)) is None);
        lemma_chinese_from_skips(text, i + 1, k);
    }
}

/// A linking word that does not occur in the lower-cased text gives no match.
proof fn lemma_linking_word_absent(text: Seq<char>, k: int)
    requires
        forall|j: int| !occurs_at(lower_all(text), english_marker(k), j),
    ensures
        english_split(text, k) == Stage::NoMatch,
{
    crate::text::lemma_find_from(lower_all(text), english_marker(k), 0);
}

/// A word found right after `a`, and nowhere before, is found there first.
proof fn lemma_first_occurrence(a: Seq<char>, m: Seq<char>, b: Seq<char>)
    requires
        forall|j: int| 0 <= j < a.len() ==> !occurs_at(a + m + b, m, j),
    ensures
        find(a + m + b, m) == Some(a.len() as int),
{
    let s = a + m + b;
    assert(s.subrange(a.len() as int, (a.len() + m.len()) as int) =~= m);
    assert(occurs_at(s, m, a.len() as int));
    crate::text::lemma_find_from(s, m, 0);
}

/// In `x` `m` `y`, with `m` all ASCII, the byte offsets of the ends of `x` and of `m` fall
/// on the char indices of those ends.
proof fn lemma_ascii_linking_word_offsets(x: Seq<char>, m: Seq<char>, y: Seq<char>)
    requires
        forall|k: int| 0 <= k < m.len() ==> (#[trigger] m[k] as u32) < 0x80,
    ensures
        char_index_at_byte(x + m + y, utf8_len(x) as int) == Some(x.len() as int),
        char_index_at_byte(x + m + y, (utf8_len(x) + m.len()) as int) == Some(
            (x.len() + m.len()) as int,
        ),
        (x + m + y).take(x.len() as int) == x,
        (x + m + y).skip((x.len() + m.len()) as int) == y,
{
    let text = x + m + y;
    let e = (x.len() + m.len()) as int;
    assert(text.take(x.len() as int) =~= x);
    lemma_char_index_of_prefix(text, x.len() as int, 0);
    assert(text.take(e) =~= x + m);
    lemma_utf8_len_concat(x, m);
    lemma_utf8_len_ascii(m);
    lemma_char_index_of_prefix(text, e, 0);
    assert(text.skip(e) =~= y);
}

/// The association of a text, or `None` where the slicing of the English stage panics.
fn extraction_of(text: &str) -> (r: Option<Result<(Vec<char>, Vec<char>), bool>>)
    ensures
        match r {
            None => extraction(text@) == Extraction::Panics,
            Some(Ok((i, t))) => extraction(text@) == Extraction::Pair(i@, t@),
            Some(Err(empty)) => extraction(text@) == if empty {
                Extraction::Empty
            } else {
                Extraction::NoSubject
            },
        },
{
    let cleaned = trim_sentence_chars(&chars_of(text));
    if cleaned.len() == 0 {
        return Some(Err(true));
    }
    if let Some(p) = extract_qa_association_chars(&cleaned) {
        return Some(Ok(p));
    }
    match english_association(&cleaned) {
        None => {
            return None;
        },
        Some(Some(p)) => {
            return Some(Ok(p));
        },
        Some(None) => {},
    }
    if let Some(p) = chinese_association(&cleaned) {
        return Some(Ok(p));
    }
    let words = normalized_words_of(&cleaned);
    match first_subject_of(&words) {
        Some(w) => Some(Ok((w, cleaned))),
        None => Some(Err(false)),
    }
}

/// The (input, target) association of one teachable unit.
///
/// Errors: "input text is empty" when nothing is left after trimming, and "could not
/// find a teachable subject" when no format applies and every word is a stop word.
pub fn extract_association(text: &str) -> (r: Result<(String, String), String>)
    requires
        extraction(text@) != Extraction::Panics,
    ensures
        match r {
            Ok((i, t)) => extraction(text@) == Extraction::Pair(i@, t@),
            Err(e) => (extraction(text@) == Extraction::Empty && e@ == "input text is empty"@) || (
            extraction(text@) == Extraction::NoSubject && e@
                == "could not find a teachable subject"@),
        },
{
    match extraction_of(text) {
        Some(found) => association_result(found),
        None => Err(String::from_str("input text is empty")),
    }
}

fn association_result(found: Result<(Vec<char>, Vec<char>), bool>) -> (r: Result<
    (String, String),
    String,
>)
    ensures
        match (found, r) {
            (Ok((i, t)), Ok((si, st))) => si@ == i@ && st@ == t@,
            (Err(true), Err(e)) => e@ == "input text is empty"@,
            (Err(false), Err(e)) => e@ == "could not find a teachable subject"@,
            _ => false,
        },
{
    match found {
        Ok((i, t)) => Ok((string_of(&i), string_of(&t))),
        Err(true) => Err(String::from_str("input text is empty")),
        Err(false) => Err(String::from_str("could not find a teachable subject")),
    }
}

/// `extract_association` where it does not panic; `None` on the texts on which the
/// English stage cuts inside a char (a lower-cased char of a different UTF-8 length
/// before the linking word).
pub fn checked_extract_association(text: &str) -> (r: Option<Result<(String, String), String>>)
    ensures
        r is None <==> extraction(text@) == Extraction::Panics,
        match r {
            Some(Ok((i, t))) => extraction(text@) == Extraction::Pair(i@, t@),
            Some(Err(e)) => (extraction(text@) == Extraction::Empty && e@ == "input text is empty"@)
                || (extraction(text@) == Extraction::NoSubject && e@
                == "could not find a teachable subject"@),
            None => true,
        },
{
    match extraction_of(text) {
        Some(found) => Some(association_result(found)),
        None => None,
    }
}

// ---------------------------------------------------------------------------
// Teachable units
// ---------------------------------------------------------------------------

pub open spec fn hash_pred() -> spec_fn(char) -> bool {
    |c: char| c == '#'
}

/// A Markdown heading: after leading white space, one to six `#` and then white space.
pub open spec fn markdown_heading(s: Seq<char>) -> bool {
    let t = s.skip(lead_count(s, crate::text::is_ws_pred()) as int);
    let h = lead_count(t, hash_pred());
    1 <= h <= 6 && h < t.len() && white_space(t[h as int])
}

pub fn is_markdown_heading(s: &Vec<char>) -> (r: bool)
    ensures
        r == markdown_heading(s@),
{
    let ghost p = crate::text::is_ws_pred();
    let mut i: usize = 0;
    while i < s.len() && is_white_space(s[i])
        invariant
            p == crate::text::is_ws_pred(),
            i <= s.len(),
            forall|k: int| 0 <= k < i ==> p(#[trigger] s@[k]),
        decreases s.len() - i,
    {
        i = i + 1;
    }
    proof {
        lemma_lead_count_is(s@, p, i as int);
    }
    let t = slice_chars(s, i, s.len());
    assert(t@ =~= s@.skip(i as int));
    let ghost q = hash_pred();
    let mut h: usize = 0;
    while h < t.len() && t[h] == '#'
        invariant
            q == hash_pred(),
            h <= t.len(),
            forall|k: int| 0 <= k < h ==> q(#[trigger] t@[k]),
        decreases t.len() - h,
    {
        h = h + 1;
    }
    proof {
        lemma_lead_count_is(t@, q, h as int);
    }
    1 <= h && h <= 6 && h < t.len() && is_white_space(t[h])
}

/// The chars after which a teachable unit ends.
pub open spec fn unit_end(c: char) -> bool {
    c == '.' || c == '!' || c == '?' || c == '。' || c == '！' || c == '\n'
}

/// `units` with the trimmed `current` added, unless that is empty or a heading.
pub open spec fn keep_unit(units: Seq<Seq<char>>, current: Seq<char>) -> Seq<Seq<char>> {
    let u = trim_ws(current);
    if u.len() > 0 && !markdown_heading(u) {
        units.push(u)
    } else {
        units
    }
}

/// Scan state after reading `s`: the units kept so far and the text of the open unit.
pub open spec fn unit_scan(s: Seq<char>) -> (Seq<Seq<char>>, Seq<char>)
    decreases s.len(),
{
    if s.len() == 0 {
        (seq![], seq![])
    } else {
        let (units, current) = unit_scan(s.drop_last());
        let c = s.last();
        if unit_end(c) {
            (keep_unit(units, current.push(c)), seq![])
        } else {
            (units, current.push(c))
        }
    }
}

/// The teachable units of a text: the pieces that end at a sentence end or a line
/// break, and the rest, each trimmed, without empty pieces and headings. A text with no
/// such unit that is not blank is one unit, trimmed.
pub open spec fn units_of(text: Seq<char>) -> Seq<Seq<char>> {
    let (units, current) = unit_scan(text);
    let kept = keep_unit(units, current);
    if kept.len() == 0 && trim_ws(text).len() > 0 {
        seq![trim_ws(text)]
    } else {
        kept
    }
}

pub fn is_unit_end(c: char) -> (r: bool)
    ensures
        r == unit_end(c),
{
    c == '.' || c == '!' || c == '?' || c == '。' || c == '！' || c == '\n'
}

/// Adds the trimmed open unit to `units` unless it is empty or a heading, and empties it.
pub fn push_teachable_unit(units: &mut Vec<Vec<char>>, current: &mut Vec<char>)
    ensures
        char_vecs(final(units)@) == keep_unit(char_vecs(old(units)@), old(current)@),
        final(current)@ == Seq::<char>::empty(),
{
    let unit = trim_whitespace(current);
    if unit.len() > 0 && !is_markdown_heading(&unit) {
        let ghost before = char_vecs(units@);
        let ghost uv = unit@;
        units.push(unit);
        assert(char_vecs(units@) =~= before.push(uv));
    }
    *current = Vec::new();
}

/// A trimmed text starts and ends with chars that are not white space, so trimming it
/// again leaves it as it is.
pub proof fn lemma_trim_ws_idempotent(s: Seq<char>)
    ensures
        trim_ws(trim_ws(s)) == trim_ws(s),
{
    let p = crate::text::is_ws_pred();
    let t = trim_ws(s);
    crate::text::lemma_lead_count(s, p);
    crate::text::lemma_trail_count(s, p);
    if t.len() > 0 {
        let a = lead_count(s, p) as int;
        let b = s.len() - trail_count(s, p);
        assert(t[0] == s[a]);
        assert(!p(t[0]));
        if b - 1 < a {
            assert(false);
        }
        assert(t[t.len() - 1] == s[b - 1]);
        assert(!p(t[t.len() - 1]));
        lemma_lead_count_is(t, p, 0);
        lemma_trail_count_is(t, p, 0);
        assert(t.subrange(0, t.len() as int) =~= t);
    } else {
        assert(trim_ws(t) =~= t);
    }
}

pub proof fn lemma_unit_scan_units(s: Seq<char>)
    ensures
        forall|k: int|
            0 <= k < unit_scan(s).0.len() ==> (#[trigger] unit_scan(s).0[k]).len() > 0 && trim_ws(
                unit_scan(s).0[k],
            ) == unit_scan(s).0[k],
    decreases s.len(),
{
    if s.len() > 0 {
        lemma_unit_scan_units(s.drop_last());
        let (units, current) = unit_scan(s.drop_last());
        lemma_trim_ws_idempotent(current.push(s.last()));
    }
}

/// Law: every teachable unit is non-empty and has no white space at either end.
pub proof fn law_units_are_trimmed(text: Seq<char>)
    ensures
        forall|k: int|
            0 <= k < units_of(text).len() ==> (#[trigger] units_of(text)[k]).len() > 0 && trim_ws(
                units_of(text)[k],
            ) == units_of(text)[k],
{
    lemma_unit_scan_units(text);
    let (units, current) = unit_scan(text);
    lemma_trim_ws_idempotent(current);
    lemma_trim_ws_idempotent(text);
}

/// Law: the teachable units are never Markdown headings, unless the whole text yields
/// no other unit, in which case the text itself, trimmed, is the one unit.
pub proof fn law_units_skip_headings(text: Seq<char>)
    ensures
        units_of(text).len() == 1 && units_of(text)[0] == trim_ws(text) || forall|k: int|
            0 <= k < units_of(text).len() ==> !markdown_heading(#[trigger] units_of(text)[k]),
{
    lemma_unit_scan_headings(text);
}

pub proof fn lemma_unit_scan_headings(s: Seq<char>)
    ensures
        forall|k: int|
            0 <= k < unit_scan(s).0.len() ==> !markdown_heading(#[trigger] unit_scan(s).0[k]),
    decreases s.len(),
{
    if s.len() > 0 {
        lemma_unit_scan_headings(s.drop_last());
        let (units, current) = unit_scan(s.drop_last());
        let c = s.last();
        if unit_end(c) {
            let fin = keep_unit(units, current.push(c));
            assert forall|k: int| 0 <= k < fin.len() implies !markdown_heading(#[trigger] fin[k]) by {
                if k < units.len() {
                    assert(fin[k] == units[k]);
                }
            }
        }
    }
}

/// A text trims to nothing exactly when all its chars are white space.
pub proof fn lemma_trim_ws_blank(s: Seq<char>)
    ensures
        trim_ws(s).len() == 0 <==> forall|k: int| 0 <= k < s.len() ==> white_space(#[trigger] s[k]),
{
    let p = crate::text::is_ws_pred();
    crate::text::lemma_lead_count(s, p);
    crate::text::lemma_trail_count(s, p);
    if forall|k: int| 0 <= k < s.len() ==> white_space(#[trigger] s[k]) {
        assert forall|k: int| 0 <= k < s.len() implies p(#[trigger] s[k]) by {
            assert(white_space(s[k]));
        }
        lemma_lead_count_is(s, p, s.len() as int);
    } else {
        let k = choose|k: int| 0 <= k < s.len() && !white_space(#[trigger] s[k]);
        assert(!p(s[k]));
        assert(lead_count(s, p) <= k);
        assert(s.len() - trail_count(s, p) > k);
    }
}

/// The chars of a trimmed text are chars of the text.
pub proof fn lemma_trim_ws_chars(s: Seq<char>, c: char)
    requires
        !s.contains(c),
    ensures
        !trim_ws(s).contains(c),
{
    let p = crate::text::is_ws_pred();
    crate::text::lemma_lead_count(s, p);
    crate::text::lemma_trail_count(s, p);
    let t = trim_ws(s);
    if t.contains(c) {
        let j = choose|j: int| 0 <= j < t.len() && t[j] == c;
        assert(t[j] == s[lead_count(s, p) + j]);
        assert(false);
    }
}

/// A Markdown heading holds a `#`.
pub proof fn lemma_heading_has_hash(u: Seq<char>)
    requires
        markdown_heading(u),
    ensures
        u.contains('#'),
{
    let a = lead_count(u, crate::text::is_ws_pred());
    crate::text::lemma_lead_count(u, crate::text::is_ws_pred());
    let t = u.skip(a as int);
    crate::text::lemma_lead_count(t, hash_pred());
    assert(hash_pred()(t[0]));
    assert(u[a as int] == t[0]);
}

/// Scanning a text without `#`: the open unit is the end of the text, and while no unit
/// has been kept, everything before the open unit is white space.
pub proof fn lemma_unit_scan_plain(s: Seq<char>)
    requires
        !s.contains('#'),
    ensures
        unit_scan(s).1.len() <= s.len(),
        unit_scan(s).1 == s.skip(s.len() - unit_scan(s).1.len()),
        unit_scan(s).0.len() == 0 ==> forall|k: int|
            0 <= k < s.len() - unit_scan(s).1.len() ==> white_space(#[trigger] s[k]),
    decreases s.len(),
{
    if s.len() > 0 {
        let init = s.drop_last();
        assert(!init.contains('#')) by {
            if init.contains('#') {
                let j = choose|j: int| 0 <= j < init.len() && init[j] == '#';
                assert(s[j] == '#');
            }
        }
        lemma_unit_scan_plain(init);
        let (units, current) = unit_scan(init);
        let c = s.last();
        let cur = current.push(c);
        assert(cur =~= s.skip(s.len() - cur.len()));
        if unit_end(c) {
            let u = trim_ws(cur);
            if keep_unit(units, cur).len() == 0 {
                assert(!cur.contains('#')) by {
                    if cur.contains('#') {
                        let j = choose|j: int| 0 <= j < cur.len() && cur[j] == '#';
                        assert(s[s.len() - cur.len() + j] == '#');
                    }
                }
                lemma_trim_ws_chars(cur, '#');
                if u.len() > 0 {
                    if markdown_heading(u) {
                        lemma_heading_has_hash(u);
                    }
                }
                lemma_trim_ws_blank(cur);
                assert forall|k: int| 0 <= k < s.len() implies white_space(#[trigger] s[k]) by {
                    if k >= s.len() - cur.len() {
                        assert(s[k] == cur[k - (s.len() - cur.len())]);
                    } else {
                        assert(s[k] == init[k]);
                    }
                }
            }
            assert(Seq::<char>::empty() =~= s.skip(s.len() as int));
        } else {
            assert forall|k: int| 0 <= k < s.len() - cur.len() implies s[k] == init[k] by {}
        }
    }
}

/// A text without `#` never falls back to the whole text as its one unit: its units are
/// the pieces kept by the scan.
pub proof fn lemma_units_plain(s: Seq<char>)
    requires
        !s.contains('#'),
    ensures
        units_of(s) == keep_unit(unit_scan(s).0, unit_scan(s).1),
{
    lemma_unit_scan_plain(s);
    let (units, current) = unit_scan(s);
    let kept = keep_unit(units, current);
    if kept.len() == 0 {
        let u = trim_ws(current);
        assert(!current.contains('#')) by {
            if current.contains('#') {
                let j = choose|j: int| 0 <= j < current.len() && current[j] == '#';
                assert(s[s.len() - current.len() + j] == '#');
            }
        }
        lemma_trim_ws_chars(current, '#');
        if u.len() > 0 && markdown_heading(u) {
            lemma_heading_has_hash(u);
        }
        lemma_trim_ws_blank(current);
        assert forall|k: int| 0 <= k < s.len() implies white_space(#[trigger] s[k]) by {
            if k >= s.len() - current.len() {
                assert(s[k] == current[k - (s.len() - current.len())]);
            }
        }
        lemma_trim_ws_blank(s);
    }
}

/// Kept units before the scan of a text stay in front of it.
pub proof fn lemma_unit_scan_after(s1: Seq<char>, s2: Seq<char>)
    requires
        unit_scan(s1).1.len() == 0,
    ensures
        unit_scan(s1 + s2) == (unit_scan(s1).0 + unit_scan(s2).0, unit_scan(s2).1),
    decreases s2.len(),
{
    if s2.len() == 0 {
        assert(s1 + s2 =~= s1);
        assert(unit_scan(s1).0 + unit_scan(s2).0 =~= unit_scan(s1).0);
        assert(unit_scan(s1).1 =~= Seq::<char>::empty());
    } else {
        lemma_unit_scan_after(s1, s2.drop_last());
        assert((s1 + s2).drop_last() =~= s1 + s2.drop_last());
        assert((s1 + s2).last() == s2.last());
        let a = unit_scan(s1).0;
        let (b, cur) = unit_scan(s2.drop_last());
        lemma_keep_unit_after(a, b, cur.push(s2.last()));
    }
}

/// Keeping a unit after some units leaves those units in front.
pub proof fn lemma_keep_unit_after(a: Seq<Seq<char>>, b: Seq<Seq<char>>, current: Seq<char>)
    ensures
        keep_unit(a + b, current) == a + keep_unit(b, current),
{
    let u = trim_ws(current);
    if u.len() > 0 && !markdown_heading(u) {
        assert((a + b).push(u) =~= a + b.push(u));
    }
}

/// Law: a teachable unit ends at '.', '!', '?', '。', '！' and at a line break: a text
/// that ends in one of them gives its own units, and what follows gives its units after
/// them. (A `#` could start a Markdown heading, which is left out, and a text whose
/// pieces are all headings is its own one unit; texts without `#` are taken here.)
pub proof fn law_units_split_after_unit_end(s1: Seq<char>, s2: Seq<char>)
    requires
        s1.len() > 0,
        s1.last() == '.' || s1.last() == '!' || s1.last() == '?' || s1.last() == '。'
            || s1.last() == '！' || s1.last() == '\n',
        !s1.contains('#'),
        !s2.contains('#'),
    ensures
        units_of(s1 + s2) == units_of(s1) + units_of(s2),
{
    assert(!(s1 + s2).contains('#')) by {
        if (s1 + s2).contains('#') {
            let j = choose|j: int| 0 <= j < (s1 + s2).len() && (s1 + s2)[j] == '#';
            if j < s1.len() {
                assert(s1[j] == '#');
            } else {
                assert(s2[j - s1.len()] == '#');
            }
        }
    }
    assert(unit_scan(s1).1.len() == 0);
    lemma_units_plain(s1);
    lemma_units_plain(s2);
    lemma_units_plain(s1 + s2);
    lemma_unit_scan_after(s1, s2);
    let (a, ca) = unit_scan(s1);
    let (b, cb) = unit_scan(s2);
    lemma_keep_unit_after(a, b, cb);
    assert(trim_ws(ca).len() == 0) by {
        lemma_trim_ws_blank(ca);
    }
    assert(keep_unit(a, ca) == a);
}

/// The teachable units of a text.
pub fn teachable_units(text: &str) -> (r: Vec<String>)
    ensures
        crate::text::views(r@) == units_of(text@),
{
    let chars = chars_of(text);
    let mut units: Vec<Vec<char>> = Vec::new();
    let mut current: Vec<char> = Vec::new();
    let mut i: usize = 0;
    while i < chars.len()
        invariant
            i <= chars.len(),
            (char_vecs(units@), current@) == unit_scan(chars@.take(i as int)),
        decreases chars.len() - i,
    {
        let ch = chars[i];
        assert(chars@.take(i + 1).drop_last() =~= chars@.take(i as int));
        current.push(ch);
        if is_unit_end(ch) {
            push_teachable_unit(&mut units, &mut current);
        }
        i = i + 1;
    }
    assert(chars@.take(chars.len() as int) =~= chars@);
    push_teachable_unit(&mut units, &mut current);
    if units.len() == 0 {
        let trimmed = trim_whitespace(&chars);
        if trimmed.len() > 0 {
            let ghost tv = trimmed@;
            units.push(trimmed);
            assert(char_vecs(units@) =~= seq![tv]);
        }
    }
    let r = crate::text::strings_of(&units);
    assert(crate::text::views(r@) =~= char_vecs(units@));
    r
}

} // verus!
