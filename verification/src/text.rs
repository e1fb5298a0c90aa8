//! Character classes and the sequence operations on text that the tokenizer,
//! the association extractor and the command layer share.
//!
//! Text is modelled as `Seq<char>`, the view of `str` and `String`.
use vstd::prelude::*;

verus! {

// ---------------------------------------------------------------------------
// Character classes
// ---------------------------------------------------------------------------

/// What `char::is_alphanumeric` answers for `c` (Unicode Alphabetic or Numeric).
pub uninterp spec fn alphanumeric(c: char) -> bool;

/// The chars that `char::to_lowercase` yields for `c` (the Unicode lowercase mapping).
pub uninterp spec fn lowercase(c: char) -> Seq<char>;

/// ASCII upper-case letters are mapped to lower case; every other char is kept.
pub open spec fn ascii_lower(c: char) -> char {
    let u = c as u32;
    if 0x41 <= u <= 0x5A {
        (u + 32) as char
    } else {
        c
    }
}

/// `char::is_alphanumeric`. Claims only that the answer is `alphanumeric(c)`, a
/// function of `c`; nothing is claimed of the Unicode tables behind it.
#[verifier::external_body]
pub(crate) fn char_is_alphanumeric(c: char) -> (r: bool)
    ensures
        r == alphanumeric(c),
{
    c.is_alphanumeric()
}

/// `char::to_lowercase`, its chars collected in order. Claims that the chars are
/// `lowercase(c)`, a function of `c`, and that there is at least one (the std
/// documentation: the lowercase mapping "as one or more chars"); nothing is claimed of
/// the Unicode tables behind it.
#[verifier::external_body]
pub(crate) fn char_to_lowercase(c: char) -> (r: Vec<char>)
    ensures
        r@ == lowercase(c),
        r@.len() >= 1,
{
    c.to_lowercase().collect()
}

/// `String::push`: appends one char.
#[verifier::external_body]
pub(crate) fn push_char(s: &mut String, c: char)
    ensures
        final(s)@ == old(s)@.push(c),
{
    s.push(c)
}

/// The Unicode `White_Space` property, which is what `char::is_whitespace` tests.
pub open spec fn white_space(c: char) -> bool {
    let u = c as u32;
    ||| 0x09 <= u <= 0x0D
    ||| u == 0x20
    ||| u == 0x85
    ||| u == 0xA0
    ||| u == 0x1680
    ||| 0x2000 <= u <= 0x200A
    ||| u == 0x2028
    ||| u == 0x2029
    ||| u == 0x202F
    ||| u == 0x205F
    ||| u == 0x3000
}

pub fn is_white_space(c: char) -> (r: bool)
    ensures
        r == white_space(c),
{
    let u = c as u32;
    (0x09 <= u && u <= 0x0D) || u == 0x20 || u == 0x85 || u == 0xA0 || u == 0x1680 || (0x2000
        <= u && u <= 0x200A) || u == 0x2028 || u == 0x2029 || u == 0x202F || u == 0x205F || u
        == 0x3000
}

/// The CJK ideograph blocks (unified ideographs, extensions A to F, compatibility ideographs).
pub open spec fn cjk(c: char) -> bool {
    let u = c as u32;
    ||| 0x3400 <= u <= 0x4DBF
    ||| 0x4E00 <= u <= 0x9FFF
    ||| 0xF900 <= u <= 0xFAFF
    ||| 0x20000 <= u <= 0x2A6DF
    ||| 0x2A700 <= u <= 0x2B73F
    ||| 0x2B740 <= u <= 0x2B81F
    ||| 0x2B820 <= u <= 0x2CEAF
    ||| 0x2CEB0 <= u <= 0x2EBEF
}

pub fn is_cjk(c: char) -> (r: bool)
    ensures
        r == cjk(c),
{
    let u = c as u32;
    (0x3400 <= u && u <= 0x4DBF) || (0x4E00 <= u && u <= 0x9FFF) || (0xF900 <= u && u <= 0xFAFF)
        || (0x20000 <= u && u <= 0x2A6DF) || (0x2A700 <= u && u <= 0x2B73F) || (0x2B740 <= u && u
        <= 0x2B81F) || (0x2B820 <= u && u <= 0x2CEAF) || (0x2CEB0 <= u && u <= 0x2EBEF)
}

/// Whether any char of `s` is a CJK ideograph.
pub open spec fn has_cjk(s: Seq<char>) -> bool {
    exists|i: int| 0 <= i < s.len() && #[trigger] cjk(s[i])
}

pub fn contains_cjk(s: &Vec<char>) -> (r: bool)
    ensures
        r == has_cjk(s@),
{
    let mut i: usize = 0;
    while i < s.len()
        invariant
            i <= s.len(),
            forall|j: int| 0 <= j < i ==> !#[trigger] cjk(s@[j]),
        decreases s.len() - i,
    {
        if is_cjk(s[i]) {
            return true;
        }
        i = i + 1;
    }
    false
}

// ---------------------------------------------------------------------------
// Conversions between strings and char vectors
// ---------------------------------------------------------------------------

pub fn chars_of(s: &str) -> (v: Vec<char>)
    ensures
        v@ == s@,
{
    let mut v: Vec<char> = Vec::new();
    for c in it: s.chars()
        invariant
            v@ == it.seq().take(it.index() as int),
            it.seq() == s@,
    {
        v.push(c);
    }
    v
}

pub fn string_of(v: &Vec<char>) -> (s: String)
    ensures
        s@ == v@,
{
    let mut s = String::new();
    let mut i: usize = 0;
    while i < v.len()
        invariant
            i <= v.len(),
            s@ == v@.take(i as int),
        decreases v.len() - i,
    {
        push_char(&mut s, v[i]);
        i = i + 1;
        assert(s@ == v@.take(i as int));
    }
    assert(v@.take(v.len() as int) == v@);
    s
}

pub fn strings_of(vs: &Vec<Vec<char>>) -> (r: Vec<String>)
    ensures
        r@.len() == vs@.len(),
        forall|i: int| 0 <= i < vs@.len() ==> #[trigger] r@[i]@ == vs@[i]@,
{
    let mut r: Vec<String> = Vec::new();
    let mut i: usize = 0;
    while i < vs.len()
        invariant
            i <= vs.len(),
            r@.len() == i,
            forall|k: int| 0 <= k < i ==> #[trigger] r@[k]@ == vs@[k]@,
        decreases vs.len() - i,
    {
        r.push(string_of(&vs[i]));
        i = i + 1;
    }
    r
}

/// The char sequences held by a list of char vectors.
pub open spec fn char_vecs(vs: Seq<Vec<char>>) -> Seq<Seq<char>> {
    vs.map_values(|v: Vec<char>| v@)
}

/// The char sequences of a list of strings.
pub open spec fn views(ss: Seq<String>) -> Seq<Seq<char>> {
    ss.map_values(|s: String| s@)
}

pub fn char_vecs_of(ss: &Vec<String>) -> (r: Vec<Vec<char>>)
    ensures
        char_vecs(r@) == views(ss@),
{
    let mut r: Vec<Vec<char>> = Vec::new();
    let mut i: usize = 0;
    while i < ss.len()
        invariant
            i <= ss.len(),
            char_vecs(r@) == views(ss@).take(i as int),
        decreases ss.len() - i,
    {
        let cs = chars_of(ss[i].as_str());
        let ghost before = char_vecs(r@);
        r.push(cs);
        assert(char_vecs(r@) =~= before.push(cs@));
        i = i + 1;
        assert(views(ss@).take(i as int) =~= views(ss@).take(i - 1).push(ss@[i - 1]@));
    }
    assert(views(ss@).take(ss@.len() as int) =~= views(ss@));
    r
}

pub fn slice_chars(v: &Vec<char>, i: usize, j: usize) -> (r: Vec<char>)
    requires
        i <= j <= v@.len(),
    ensures
        r@ == v@.subrange(i as int, j as int),
{
    let mut r: Vec<char> = Vec::new();
    let mut k: usize = i;
    while k < j
        invariant
            i <= k <= j <= v@.len(),
            r@ == v@.subrange(i as int, k as int),
        decreases j - k,
    {
        r.push(v[k]);
        k = k + 1;
        assert(r@ =~= v@.subrange(i as int, k as int));
    }
    r
}

pub fn append_chars(dst: &mut Vec<char>, src: &Vec<char>)
    ensures
        final(dst)@ == old(dst)@ + src@,
{
    let mut k: usize = 0;
    while k < src.len()
        invariant
            k <= src.len(),
            dst@ == old(dst)@ + src@.take(k as int),
        decreases src.len() - k,
    {
        dst.push(src[k]);
        k = k + 1;
        assert(dst@ =~= old(dst)@ + src@.take(k as int));
    }
    assert(src@.take(src.len() as int) =~= src@);
}

pub fn same_chars(a: &Vec<char>, b: &Vec<char>) -> (r: bool)
    ensures
        r == (a@ == b@),
{
    if a.len() != b.len() {
        return false;
    }
    let mut i: usize = 0;
    while i < a.len()
        invariant
            a@.len() == b@.len(),
            i <= a.len(),
            forall|k: int| 0 <= k < i ==> a@[k] == b@[k],
        decreases a.len() - i,
    {
        if a[i] != b[i] {
            return false;
        }
        i = i + 1;
    }
    assert(a@ =~= b@);
    true
}

// ---------------------------------------------------------------------------
// Lower-casing
// ---------------------------------------------------------------------------

/// Each char replaced by its lowercase mapping, in order.
pub open spec fn lower_all(s: Seq<char>) -> Seq<char>
    decreases s.len(),
{
    if s.len() == 0 {
        seq![]
    } else {
        lower_all(s.drop_last()) + lowercase(s.last())
    }
}

pub fn lower_chars(v: &Vec<char>) -> (r: Vec<char>)
    ensures
        r@ == lower_all(v@),
{
    let mut r: Vec<char> = Vec::new();
    let mut i: usize = 0;
    while i < v.len()
        invariant
            i <= v.len(),
            r@ == lower_all(v@.take(i as int)),
        decreases v.len() - i,
    {
        let low = char_to_lowercase(v[i]);
        append_chars(&mut r, &low);
        assert(v@.take(i + 1).drop_last() =~= v@.take(i as int));
        i = i + 1;
    }
    assert(v@.take(v.len() as int) =~= v@);
    r
}

// ---------------------------------------------------------------------------
// Runs, trimming, joining
// ---------------------------------------------------------------------------

pub open spec fn is_ws_pred() -> spec_fn(char) -> bool {
    |c: char| white_space(c)
}

pub open spec fn not_ws_pred() -> spec_fn(char) -> bool {
    |c: char| !white_space(c)
}

/// Scan state after reading `s`: the runs already closed and the run still open.
pub open spec fn run_scan(s: Seq<char>, keep: spec_fn(char) -> bool) -> (Seq<Seq<char>>, Seq<char>)
    decreases s.len(),
{
    if s.len() == 0 {
        (seq![], seq![])
    } else {
        let (done, cur) = run_scan(s.drop_last(), keep);
        if keep(s.last()) {
            (done, cur.push(s.last()))
        } else if cur.len() > 0 {
            (done.push(cur), seq![])
        } else {
            (done, cur)
        }
    }
}

/// The maximal runs of chars of `s` that satisfy `keep`, in order.
pub open spec fn runs(s: Seq<char>, keep: spec_fn(char) -> bool) -> Seq<Seq<char>> {
    let (done, cur) = run_scan(s, keep);
    if cur.len() > 0 {
        done.push(cur)
    } else {
        done
    }
}

/// `str::split_whitespace`: the maximal runs of non-white-space chars.
pub open spec fn words_of(s: Seq<char>) -> Seq<Seq<char>> {
    runs(s, not_ws_pred())
}

pub fn split_whitespace(v: &Vec<char>) -> (r: Vec<Vec<char>>)
    ensures
        char_vecs(r@) == words_of(v@),
{
    let mut done: Vec<Vec<char>> = Vec::new();
    let mut cur: Vec<char> = Vec::new();
    let mut i: usize = 0;
    while i < v.len()
        invariant
            i <= v.len(),
            (char_vecs(done@), cur@) == run_scan(v@.take(i as int), not_ws_pred()),
        decreases v.len() - i,
    {
        let c = v[i];
        assert(v@.take(i + 1).drop_last() =~= v@.take(i as int));
        if !is_white_space(c) {
            cur.push(c);
        } else if cur.len() > 0 {
            let ghost before = char_vecs(done@);
            let ghost taken = cur@;
            done.push(cur);
            cur = Vec::new();
            assert(char_vecs(done@) =~= before.push(taken));
        }
        i = i + 1;
    }
    assert(v@.take(v.len() as int) =~= v@);
    if cur.len() > 0 {
        let ghost before = char_vecs(done@);
        let ghost c2 = cur@;
        done.push(cur);
        assert(char_vecs(done@) =~= before.push(c2));
    }
    done
}

/// Number of leading chars of `s` that satisfy `p`.
pub open spec fn lead_count(s: Seq<char>, p: spec_fn(char) -> bool) -> nat
    decreases s.len(),
{
    if s.len() > 0 && p(s[0]) {
        1 + lead_count(s.drop_first(), p)
    } else {
        0
    }
}

/// Number of trailing chars of `s` that satisfy `p`.
pub open spec fn trail_count(s: Seq<char>, p: spec_fn(char) -> bool) -> nat
    decreases s.len(),
{
    if s.len() > 0 && p(s.last()) {
        1 + trail_count(s.drop_last(), p)
    } else {
        0
    }
}

/// `s` without its leading and trailing chars that satisfy `p` (`str::trim_matches`).
pub open spec fn trim_by(s: Seq<char>, p: spec_fn(char) -> bool) -> Seq<char> {
    if lead_count(s, p) == s.len() {
        seq![]
    } else {
        s.subrange(lead_count(s, p) as int, s.len() - trail_count(s, p))
    }
}

/// `str::trim`.
pub open spec fn trim_ws(s: Seq<char>) -> Seq<char> {
    trim_by(s, is_ws_pred())
}

pub proof fn lemma_lead_count(s: Seq<char>, p: spec_fn(char) -> bool)
    ensures
        lead_count(s, p) <= s.len(),
        forall|k: int| 0 <= k < lead_count(s, p) ==> p(#[trigger] s[k]),
        lead_count(s, p) < s.len() ==> !p(s[lead_count(s, p) as int]),
    decreases s.len(),
{
    if s.len() > 0 && p(s[0]) {
        lemma_lead_count(s.drop_first(), p);
        assert forall|k: int| 0 <= k < lead_count(s, p) implies p(#[trigger] s[k]) by {
            if k > 0 {
                assert(s[k] == s.drop_first()[k - 1]);
            }
        }
    }
}

pub proof fn lemma_trail_count(s: Seq<char>, p: spec_fn(char) -> bool)
    ensures
        trail_count(s, p) <= s.len(),
        forall|k: int| s.len() - trail_count(s, p) <= k < s.len() ==> p(#[trigger] s[k]),
        trail_count(s, p) < s.len() ==> !p(s[s.len() - 1 - trail_count(s, p)]),
    decreases s.len(),
{
    if s.len() > 0 && p(s.last()) {
        lemma_trail_count(s.drop_last(), p);
        assert forall|k: int| s.len() - trail_count(s, p) <= k < s.len() implies p(
            #[trigger] s[k],
        ) by {
            if k < s.len() - 1 {
                assert(s[k] == s.drop_last()[k]);
            }
        }
    }
}

/// The leading count is the first index whose char fails `p`.
pub proof fn lemma_lead_count_is(s: Seq<char>, p: spec_fn(char) -> bool, n: int)
    requires
        0 <= n <= s.len(),
        forall|k: int| 0 <= k < n ==> p(#[trigger] s[k]),
        n < s.len() ==> !p(s[n]),
    ensures
        lead_count(s, p) == n,
    decreases s.len(),
{
    if n > 0 {
        assert(p(s[0]));
        assert forall|k: int| 0 <= k < n - 1 implies p(#[trigger] s.drop_first()[k]) by {
            assert(s.drop_first()[k] == s[k + 1]);
        }
        lemma_lead_count_is(s.drop_first(), p, n - 1);
    }
}

/// The trailing count is the number of chars after the last one that fails `p`.
pub proof fn lemma_trail_count_is(s: Seq<char>, p: spec_fn(char) -> bool, n: int)
    requires
        0 <= n <= s.len(),
        forall|k: int| s.len() - n <= k < s.len() ==> p(#[trigger] s[k]),
        n < s.len() ==> !p(s[s.len() - 1 - n]),
    ensures
        trail_count(s, p) == n,
    decreases s.len(),
{
    if n > 0 {
        assert(p(s[s.len() - 1]));
        assert forall|k: int| s.len() - 1 - (n - 1) <= k < s.len() - 1 implies p(
            #[trigger] s.drop_last()[k],
        ) by {
            assert(s.drop_last()[k] == s[k]);
        }
        lemma_trail_count_is(s.drop_last(), p, n - 1);
    }
}

pub fn trim_whitespace(v: &Vec<char>) -> (r: Vec<char>)
    ensures
        r@ == trim_ws(v@),
{
    let ghost p = is_ws_pred();
    let mut i: usize = 0;
    while i < v.len() && is_white_space(v[i])
        invariant
            p == is_ws_pred(),
            i <= v.len(),
            forall|k: int| 0 <= k < i ==> p(#[trigger] v@[k]),
        decreases v.len() - i,
    {
        i = i + 1;
    }
    proof {
        lemma_lead_count_is(v@, p, i as int);
    }
    if i == v.len() {
        return Vec::new();
    }
    let mut j: usize = v.len();
    while j > i && is_white_space(v[j - 1])
        invariant
            p == is_ws_pred(),
            i < v.len(),
            i <= j <= v.len(),
            !p(v@[i as int]),
            forall|k: int| j <= k < v.len() ==> p(#[trigger] v@[k]),
        decreases j,
    {
        j = j - 1;
    }
    proof {
        lemma_trail_count_is(v@, p, v.len() - j);
    }
    slice_chars(v, i, j)
}

/// The strings of `ws` with `sep` between neighbours (`[T]::join`).
pub open spec fn join_with(ws: Seq<Seq<char>>, sep: Seq<char>) -> Seq<char>
    decreases ws.len(),
{
    if ws.len() == 0 {
        seq![]
    } else if ws.len() == 1 {
        ws[0]
    } else {
        join_with(ws.drop_last(), sep) + sep + ws.last()
    }
}

pub fn join_chars(ws: &Vec<Vec<char>>, sep: &Vec<char>) -> (r: Vec<char>)
    ensures
        r@ == join_with(char_vecs(ws@), sep@),
{
    let ghost all = char_vecs(ws@);
    let mut r: Vec<char> = Vec::new();
    let mut i: usize = 0;
    while i < ws.len()
        invariant
            i <= ws.len(),
            all == char_vecs(ws@),
            r@ == join_with(all.take(i as int), sep@),
        decreases ws.len() - i,
    {
        assert(all.take(i + 1).drop_last() =~= all.take(i as int));
        assert(all.take(i + 1).last() == ws@[i as int]@);
        if i > 0 {
            append_chars(&mut r, sep);
        } else {
            assert(all.take(1)[0] == ws@[0]@);
        }
        append_chars(&mut r, &ws[i]);
        i = i + 1;
        proof {
            if i == 1 {
                assert(r@ =~= all.take(1)[0]);
            }
        }
    }
    assert(all.take(ws.len() as int) =~= all);
    r
}

// ---------------------------------------------------------------------------
// Searching
// ---------------------------------------------------------------------------

/// `pat` occurs in `s` starting at index `i`.
pub open spec fn occurs_at(s: Seq<char>, pat: Seq<char>, i: int) -> bool {
    0 <= i && i + pat.len() <= s.len() && s.subrange(i, i + pat.len()) == pat
}

/// The first index at or after `i` at which `pat` occurs in `s`.
pub open spec fn find_from(s: Seq<char>, pat: Seq<char>, i: int) -> Option<int>
    decreases s.len() + 1 - i,
{
    if i < 0 || i + pat.len() > s.len() {
        None
    } else if occurs_at(s, pat, i) {
        Some(i)
    } else {
        find_from(s, pat, i + 1)
    }
}

/// The first index at which `pat` occurs in `s` (`str::find`, counted in chars).
pub open spec fn find(s: Seq<char>, pat: Seq<char>) -> Option<int> {
    find_from(s, pat, 0)
}

/// `str::split_once`: the text before and after the first occurrence of `pat`.
pub open spec fn split_once(s: Seq<char>, pat: Seq<char>) -> Option<(Seq<char>, Seq<char>)> {
    match find(s, pat) {
        Some(i) => Some((s.take(i), s.skip(i + pat.len()))),
        None => None,
    }
}

pub proof fn lemma_find_from(s: Seq<char>, pat: Seq<char>, i: int)
    requires
        0 <= i,
    ensures
        match find_from(s, pat, i) {
            Some(k) => i <= k && occurs_at(s, pat, k) && forall|j: int|
                i <= j < k ==> !occurs_at(s, pat, j),
            None => forall|j: int| i <= j ==> !occurs_at(s, pat, j),
        },
    decreases s.len() + 1 - i,
{
    if i + pat.len() > s.len() {
    } else if occurs_at(s, pat, i) {
    } else {
        lemma_find_from(s, pat, i + 1);
    }
}

pub fn occurs_at_exec(s: &Vec<char>, pat: &Vec<char>, i: usize) -> (r: bool)
    ensures
        r == occurs_at(s@, pat@, i as int),
{
    if i > s.len() || pat.len() > s.len() - i {
        return false;
    }
    let mut k: usize = 0;
    while k < pat.len()
        invariant
            i <= s.len(),
            i + pat@.len() <= s@.len(),
            k <= pat.len(),
            forall|j: int| 0 <= j < k ==> s@[i + j] == pat@[j],
        decreases pat.len() - k,
    {
        if s[i + k] != pat[k] {
            assert(s@.subrange(i as int, i + pat@.len())[k as int] != pat@[k as int]);
            return false;
        }
        k = k + 1;
    }
    assert(s@.subrange(i as int, i + pat@.len()) =~= pat@);
    true
}

pub fn find_chars(s: &Vec<char>, pat: &Vec<char>) -> (r: Option<usize>)
    ensures
        match r {
            Some(i) => find(s@, pat@) == Some(i as int),
            None => find(s@, pat@) is None,
        },
{
    if pat.len() == 0 {
        assert(s@.subrange(0, 0) =~= pat@);
        return Some(0);
    }
    let mut i: usize = 0;
    while i < s.len()
        invariant
            pat@.len() > 0,
            i <= s.len(),
            find(s@, pat@) == find_from(s@, pat@, i as int),
        decreases s.len() - i,
    {
        if pat.len() > s.len() - i {
            return None;
        }
        if occurs_at_exec(s, pat, i) {
            return Some(i);
        }
        i = i + 1;
    }
    None
}

pub fn split_once_chars(s: &Vec<char>, pat: &Vec<char>) -> (r: Option<(Vec<char>, Vec<char>)>)
    ensures
        match r {
            Some((a, b)) => split_once(s@, pat@) == Some((a@, b@)),
            None => split_once(s@, pat@) is None,
        },
{
    match find_chars(s, pat) {
        Some(i) => {
            proof {
                lemma_find_from(s@, pat@, 0);
            }
            assert(occurs_at(s@, pat@, i as int));
            assert(i + pat@.len() <= s@.len());
            let slen = s.len();
            let plen = pat.len();
            assert(plen == pat@.len());
            let start: usize = i + plen;
            let a = slice_chars(s, 0, i);
            let b = slice_chars(s, start, slen);
            assert(a@ =~= s@.take(i as int));
            assert(b@ =~= s@.skip(i + pat@.len()));
            Some((a, b))
        },
        None => None,
    }
}

/// Whether the chars of `v` are exactly those of `s`.
pub fn matches_str(v: &Vec<char>, s: &str) -> (r: bool)
    ensures
        r == (v@ == s@),
{
    let w = chars_of(s);
    same_chars(v, &w)
}

/// Whether `c` occurs in `s`.
pub open spec fn has_char(s: Seq<char>, c: char) -> bool {
    exists|i: int| 0 <= i < s.len() && s[i] == c
}

pub fn contains_char(s: &Vec<char>, c: char) -> (r: bool)
    ensures
        r == has_char(s@, c),
{
    let mut i: usize = 0;
    while i < s.len()
        invariant
            i <= s.len(),
            forall|k: int| 0 <= k < i ==> s@[k] != c,
        decreases s.len() - i,
    {
        if s[i] == c {
            return true;
        }
        i = i + 1;
    }
    false
}

/// Whether `prefix` is a prefix of `s` (`str::starts_with`).
pub open spec fn starts_with(s: Seq<char>, prefix: Seq<char>) -> bool {
    prefix.len() <= s.len() && s.take(prefix.len() as int) == prefix
}

pub fn starts_with_chars(s: &Vec<char>, prefix: &Vec<char>) -> (r: bool)
    ensures
        r == starts_with(s@, prefix@),
{
    let r = occurs_at_exec(s, prefix, 0);
    assert(r ==> s@.subrange(0, prefix@.len() as int) =~= s@.take(prefix@.len() as int));
    assert(starts_with(s@, prefix@) ==> s@.subrange(0, prefix@.len() as int) =~= s@.take(
        prefix@.len() as int,
    ));
    r
}

} // verus!
