//! The word choices of answer decoding: which known words may answer a question and
//! which of the ranked candidates make up the answer. The scoring of candidates against
//! the network output is left to the caller.
use vstd::prelude::*;

use crate::teach::{normalized_words, normalized_words_of};
use crate::text::{char_vecs, chars_of, contains_cjk, has_cjk, matches_str, same_chars, views};

verus! {

/// The words that are never part of an answer.
pub open spec fn answer_stopword(w: Seq<char>) -> bool {
    ||| w == "a"@
    ||| w == "an"@
    ||| w == "and"@
    ||| w == "are"@
    ||| w == "as"@
    ||| w == "at"@
    ||| w == "be"@
    ||| w == "by"@
    ||| w == "for"@
    ||| w == "from"@
    ||| w == "in"@
    ||| w == "is"@
    ||| w == "it"@
    ||| w == "of"@
    ||| w == "on"@
    ||| w == "or"@
    ||| w == "the"@
    ||| w == "to"@
    ||| w == "was"@
    ||| w == "were"@
    ||| w == "what"@
    ||| w == "when"@
    ||| w == "where"@
    ||| w == "who"@
    ||| w == "why"@
    ||| w == "with"@
}

pub fn is_stopword(w: &Vec<char>) -> (r: bool)
    ensures
        r == answer_stopword(w@),
{
    matches_str(w, "a") || matches_str(w, "an") || matches_str(w, "and") || matches_str(w, "are")
        || matches_str(w, "as") || matches_str(w, "at") || matches_str(w, "be") || matches_str(
        w,
        "by",
    ) || matches_str(w, "for") || matches_str(w, "from") || matches_str(w, "in") || matches_str(
        w,
        "is",
    ) || matches_str(w, "it") || matches_str(w, "of") || matches_str(w, "on") || matches_str(
        w,
        "or",
    ) || matches_str(w, "the") || matches_str(w, "to") || matches_str(w, "was") || matches_str(
        w,
        "were",
    ) || matches_str(w, "what") || matches_str(w, "when") || matches_str(w, "where")
        || matches_str(w, "who") || matches_str(w, "why") || matches_str(w, "with")
}

/// A candidate that is returned alone when it scores very high: it has CJK ideographs
/// or more than 12 chars.
pub open spec fn best_candidate_only(candidate: Seq<char>) -> bool {
    has_cjk(candidate) || candidate.len() > 12
}

pub fn should_return_best_candidate_only(candidate: &str) -> (r: bool)
    ensures
        r == best_candidate_only(candidate@),
{
    let cs = chars_of(candidate);
    contains_cjk(&cs) || cs.len() > 12
}

/// The known words, in order, that are not among the question's words and are not stop
/// words.
pub open spec fn candidate_words(known: Seq<Seq<char>>, question: Seq<Seq<char>>) -> Seq<Seq<char>>
    decreases known.len(),
{
    if known.len() == 0 {
        seq![]
    } else {
        let rest = candidate_words(known.drop_last(), question);
        let w = known.last();
        if !question.contains(w) && !answer_stopword(w) {
            rest.push(w)
        } else {
            rest
        }
    }
}

/// Law: the candidates are exactly the known words, in order, that are neither words
/// of the question nor stop words: no candidate repeats a word of the question, and
/// every other known word that is not a stop word is a candidate.
pub proof fn law_candidates_leave_out_question_words(known: Seq<Seq<char>>, question: Seq<char>)
    ensures
        candidate_words(known, normalized_words(question)) == known.filter(
            |w: Seq<char>| !normalized_words(question).contains(w) && !answer_stopword(w),
        ),
        forall|k: int|
            0 <= k < candidate_words(known, normalized_words(question)).len() ==> !normalized_words(
                question,
            ).contains(#[trigger] candidate_words(known, normalized_words(question))[k])
                && !answer_stopword(candidate_words(known, normalized_words(question))[k]),
        forall|k: int|
            0 <= k < known.len() && !normalized_words(question).contains(#[trigger] known[k])
                && !answer_stopword(known[k]) ==> candidate_words(
                known,
                normalized_words(question),
            ).contains(known[k]),
{
    let q = normalized_words(question);
    let p = |w: Seq<char>| !q.contains(w) && !answer_stopword(w);
    lemma_candidates_filter(known, q);
    assert forall|k: int| 0 <= k < known.filter(p).len() implies p(
        #[trigger] known.filter(p)[k],
    ) by {
        known.lemma_filter_pred(p, k);
    }
    assert forall|k: int| 0 <= k < known.len() && p(#[trigger] known[k]) implies known.filter(
        p,
    ).contains(known[k]) by {
        known.lemma_filter_contains(p, k);
    }
}

proof fn lemma_candidates_filter(known: Seq<Seq<char>>, q: Seq<Seq<char>>)
    ensures
        candidate_words(known, q) == known.filter(
            |w: Seq<char>| !q.contains(w) && !answer_stopword(w),
        ),
    decreases known.len(),
{
    reveal(Seq::filter);
    if known.len() > 0 {
        lemma_candidates_filter(known.drop_last(), q);
    }
}

fn contains_word(words: &Vec<Vec<char>>, w: &Vec<char>) -> (r: bool)
    ensures
        r == char_vecs(words@).contains(w@),
{
    let ghost ws = char_vecs(words@);
    let mut i: usize = 0;
    while i < words.len()
        invariant
            ws == char_vecs(words@),
            i <= words.len(),
            forall|k: int| 0 <= k < i ==> ws[k] != w@,
        decreases words.len() - i,
    {
        if same_chars(&words[i], w) {
            assert(ws[i as int] == w@);
            return true;
        }
        i = i + 1;
    }
    false
}

/// The candidate answer words among the known words for a question.
pub fn answer_candidates(known_words: &Vec<String>, question: &str) -> (r: Vec<String>)
    ensures
        views(r@) == candidate_words(views(known_words@), normalized_words(question@)),
{
    let query = normalized_words_of(&chars_of(question));
    let ghost known = views(known_words@);
    let mut r: Vec<String> = Vec::new();
    let mut i: usize = 0;
    while i < known_words.len()
        invariant
            known == views(known_words@),
            char_vecs(query@) == normalized_words(question@),
            i <= known_words.len(),
            views(r@) == candidate_words(known.take(i as int), normalized_words(question@)),
        decreases known_words.len() - i,
    {
        let w = chars_of(known_words[i].as_str());
        assert(known.take(i + 1).drop_last() =~= known.take(i as int));
        assert(known.take(i + 1).last() == w@);
        if !contains_word(&query, &w) && !is_stopword(&w) {
            let ghost before = views(r@);
            r.push(known_words[i].clone());
            assert(views(r@) =~= before.push(w@));
        }
        i = i + 1;
    }
    assert(known.take(known_words.len() as int) =~= known);
    r
}

/// The words whose flag is set, in order.
pub open spec fn flagged(words: Seq<Seq<char>>, flags: Seq<bool>) -> Seq<Seq<char>>
    decreases words.len(),
{
    if words.len() == 0 || flags.len() == 0 {
        seq![]
    } else {
        let rest = flagged(words.drop_last(), flags.drop_last());
        if flags.last() {
            rest.push(words.last())
        } else {
            rest
        }
    }
}

/// Topping up a short answer from the ranked words, from index `i` on: stop at three
/// words or at the first word whose score is not positive; skip words already taken.
pub open spec fn fill_words(
    chosen: Seq<Seq<char>>,
    ranked: Seq<Seq<char>>,
    positive: Seq<bool>,
    i: int,
) -> Seq<Seq<char>>
    decreases ranked.len() - i,
{
    if i < 0 || i >= ranked.len() || chosen.len() >= 3 || !positive[i] {
        chosen
    } else if chosen.contains(ranked[i]) {
        fill_words(chosen, ranked, positive, i + 1)
    } else {
        fill_words(chosen.push(ranked[i]), ranked, positive, i + 1)
    }
}

pub open spec fn min_int(a: int, b: int) -> int {
    if a <= b {
        a
    } else {
        b
    }
}

/// The answer words: the first six ranked words that reach the threshold; fewer than
/// three are topped up from the ranked words with a positive score.
pub open spec fn answer_words(ranked: Seq<Seq<char>>, passes: Seq<bool>, positive: Seq<bool>) -> Seq<
    Seq<char>,
> {
    let all = flagged(ranked, passes);
    let first = all.take(min_int(6, all.len() as int));
    if first.len() < 3 {
        fill_words(first, ranked, positive, 0)
    } else {
        first
    }
}

/// The flagged words are words of the list, and a list without repeats gives flagged
/// words without repeats.
proof fn lemma_flagged_from(words: Seq<Seq<char>>, flags: Seq<bool>)
    ensures
        forall|k: int|
            0 <= k < flagged(words, flags).len() ==> words.contains(
                #[trigger] flagged(words, flags)[k],
            ),
        words.no_duplicates() ==> flagged(words, flags).no_duplicates(),
    decreases words.len(),
{
    if words.len() > 0 && flags.len() > 0 {
        let init = words.drop_last();
        lemma_flagged_from(init, flags.drop_last());
        let rest = flagged(init, flags.drop_last());
        assert forall|k: int| 0 <= k < rest.len() implies words.contains(#[trigger] rest[k]) by {
            let j = choose|j: int| 0 <= j < init.len() && init[j] == rest[k];
            assert(words[j] == init[j]);
        }
        assert(words.last() == words[words.len() - 1]);
        if flags.last() {
            let out = rest.push(words.last());
            assert forall|k: int| 0 <= k < out.len() implies words.contains(#[trigger] out[k]) by {
                if k < rest.len() {
                    assert(out[k] == rest[k]);
                }
            }
            if words.no_duplicates() {
                assert(init.no_duplicates()) by {
                    assert forall|i: int, j: int|
                        0 <= i < init.len() && 0 <= j < init.len() && i != j implies init[i]
                        != init[j] by {
                        assert(init[i] == words[i] && init[j] == words[j]);
                    }
                }
                assert forall|k: int| 0 <= k < rest.len() implies rest[k] != words.last() by {
                    let j = choose|j: int| 0 <= j < init.len() && init[j] == rest[k];
                    assert(init[j] == words[j]);
                }
                assert forall|i: int, j: int|
                    0 <= i < out.len() && 0 <= j < out.len() && i != j implies out[i]
                    != out[j] by {
                    if i < rest.len() && j < rest.len() {
                        assert(out[i] == rest[i] && out[j] == rest[j]);
                    } else if i < rest.len() {
                        assert(out[i] == rest[i]);
                    } else if j < rest.len() {
                        assert(out[j] == rest[j]);
                    }
                }
            }
        }
    }
}

/// Topping up keeps the words chosen so far in front, adds only ranked words not yet
/// chosen, and stops at three words.
proof fn lemma_fill_words(
    chosen: Seq<Seq<char>>,
    ranked: Seq<Seq<char>>,
    positive: Seq<bool>,
    i: int,
)
    requires
        forall|k: int| 0 <= k < chosen.len() ==> ranked.contains(#[trigger] chosen[k]),
    ensures
        chosen.no_duplicates() ==> fill_words(chosen, ranked, positive, i).no_duplicates(),
        forall|k: int|
            0 <= k < fill_words(chosen, ranked, positive, i).len() ==> ranked.contains(
                #[trigger] fill_words(chosen, ranked, positive, i)[k],
            ),
        fill_words(chosen, ranked, positive, i).len() >= chosen.len(),
        fill_words(chosen, ranked, positive, i).take(chosen.len() as int) == chosen,
        fill_words(chosen, ranked, positive, i).len() <= if chosen.len() >= 3 {
            chosen.len() as int
        } else {
            3
        },
    decreases ranked.len() - i,
{
    if i < 0 || i >= ranked.len() || chosen.len() >= 3 || !positive[i] {
        assert(chosen.take(chosen.len() as int) =~= chosen);
    } else if chosen.contains(ranked[i]) {
        lemma_fill_words(chosen, ranked, positive, i + 1);
    } else {
        let next = chosen.push(ranked[i]);
        assert forall|a: int, b: int|
            chosen.no_duplicates() && 0 <= a < next.len() && 0 <= b < next.len() && a != b implies next[a] != next[b] by {
            if a < chosen.len() && b < chosen.len() {
                assert(next[a] == chosen[a] && next[b] == chosen[b]);
            } else if a < chosen.len() {
                assert(next[a] == chosen[a]);
            } else if b < chosen.len() {
                assert(next[b] == chosen[b]);
            }
        }
        assert forall|k: int| 0 <= k < next.len() implies ranked.contains(#[trigger] next[k]) by {
            if k < chosen.len() {
                assert(next[k] == chosen[k]);
            }
        }
        lemma_fill_words(next, ranked, positive, i + 1);
        let out = fill_words(next, ranked, positive, i + 1);
        assert(out.take(chosen.len() as int) =~= out.take(next.len() as int).take(
            chosen.len() as int,
        ));
        assert(next.take(chosen.len() as int) =~= chosen);
    }
}

/// Law: the answer has at most six words; it starts with the first (up to six) ranked
/// words that reach the threshold; when fewer than three reach it, it is topped up to at
/// most three words; every answer word is a ranked word, and when the ranked words are
/// all different, no answer word comes twice.
pub proof fn law_answer_words_shape(
    ranked: Seq<Seq<char>>,
    passes: Seq<bool>,
    positive: Seq<bool>,
)
    requires
        passes.len() == ranked.len(),
        positive.len() == ranked.len(),
    ensures
        answer_words(ranked, passes, positive).len() <= 6,
        answer_words(ranked, passes, positive).take(
            min_int(6, flagged(ranked, passes).len() as int),
        ) == flagged(ranked, passes).take(min_int(6, flagged(ranked, passes).len() as int)),
        flagged(ranked, passes).len() < 3 ==> answer_words(ranked, passes, positive).len() <= 3,
        forall|k: int|
            0 <= k < answer_words(ranked, passes, positive).len() ==> ranked.contains(
                #[trigger] answer_words(ranked, passes, positive)[k],
            ),
        ranked.no_duplicates() ==> answer_words(ranked, passes, positive).no_duplicates(),
{
    let all = flagged(ranked, passes);
    let n = min_int(6, all.len() as int);
    let first = all.take(n);
    lemma_flagged_from(ranked, passes);
    assert forall|k: int| 0 <= k < first.len() implies ranked.contains(#[trigger] first[k]) by {
        assert(first[k] == all[k]);
    }
    if ranked.no_duplicates() {
        assert forall|a: int, b: int|
            0 <= a < first.len() && 0 <= b < first.len() && a != b implies first[a]
            != first[b] by {
            assert(first[a] == all[a] && first[b] == all[b]);
        }
    }
    if first.len() < 3 {
        lemma_fill_words(first, ranked, positive, 0);
        assert(fill_words(first, ranked, positive, 0).take(n) == first);
    } else {
        assert(first.take(n) =~= first);
    }
}

/// Chooses the answer words among the ranked candidates (best first): `passes[i]` says
/// that candidate `i` reaches the threshold, `positive[i]` that its score is above zero.
pub fn select_answer_words(ranked: &Vec<String>, passes: &Vec<bool>, positive: &Vec<bool>) -> (r: Vec<
    String,
>)
    requires
        passes@.len() == ranked@.len(),
        positive@.len() == ranked@.len(),
    ensures
        views(r@) == answer_words(views(ranked@), passes@, positive@),
{
    let ghost rk = views(ranked@);
    let mut chosen: Vec<Vec<char>> = Vec::new();
    let mut i: usize = 0;
    while i < ranked.len()
        invariant
            rk == views(ranked@),
            passes@.len() == ranked@.len(),
            i <= ranked.len(),
            char_vecs(chosen@) == flagged(rk.take(i as int), passes@.take(i as int)),
        decreases ranked.len() - i,
    {
        assert(rk.take(i + 1).drop_last() =~= rk.take(i as int));
        assert(passes@.take(i + 1).drop_last() =~= passes@.take(i as int));
        if passes[i] {
            let w = chars_of(ranked[i].as_str());
            let ghost before = char_vecs(chosen@);
            let ghost wv = w@;
            chosen.push(w);
            assert(char_vecs(chosen@) =~= before.push(wv));
        }
        i = i + 1;
    }
    assert(rk.take(ranked.len() as int) =~= rk);
    assert(passes@.take(ranked.len() as int) =~= passes@);
    let ghost all = char_vecs(chosen@);
    if chosen.len() > 6 {
        chosen.truncate(6);
    }
    assert(char_vecs(chosen@) =~= all.take(min_int(6, all.len() as int)));
    if chosen.len() < 3 {
        let mut k: usize = 0;
        let ghost first = char_vecs(chosen@);
        while k < ranked.len()
            invariant
                rk == views(ranked@),
                positive@.len() == ranked@.len(),
                k <= ranked.len(),
                fill_words(first, rk, positive@, 0) == fill_words(
                    char_vecs(chosen@),
                    rk,
                    positive@,
                    k as int,
                ),
            ensures
                fill_words(first, rk, positive@, 0) == char_vecs(chosen@),
            decreases ranked.len() - k,
        {
            if chosen.len() >= 3 || !positive[k] {
                break;
            }
            let w = chars_of(ranked[k].as_str());
            if !contains_word(&chosen, &w) {
                let ghost before = char_vecs(chosen@);
                let ghost wv = w@;
                chosen.push(w);
                assert(char_vecs(chosen@) =~= before.push(wv));
            }
            k = k + 1;
        }
    }
    let r = crate::text::strings_of(&chosen);
    assert(views(r@) =~= char_vecs(chosen@));
    r
}

} // verus!
