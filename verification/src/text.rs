//! Character-level text handling: whitespace splitting, trimming and the
//! normalisation of transcript words.

use vstd::prelude::*;
use vstd::std_specs::iter::IteratorSpec;

verus! {

/// Whether `c` has the Unicode `White_Space` property (what `char::is_whitespace`
/// returns): U+0009 to U+000D, U+0020, U+0085, U+00A0, U+1680, U+2000 to U+200A,
/// U+2028, U+2029, U+202F, U+205F and U+3000.
pub open spec fn is_whitespace_char(c: char) -> bool {
    let u = c as u32;
    ||| 0x09 <= u <= 0x0D
    ||| u == 0x20
    ||| u == 0x85
    ||| u == 0xA0
    ||| u == 0x1680
    ||| 0x2000 <= u <= 0x200A
    ||| u == 0x2028
    ||| u == 0x2029
    ||| u == 0x202F
    ||| u == 0x205F
    ||| u == 0x3000
}

/// Whether a character beyond ASCII is alphabetic or numeric in the Unicode
/// sense (what `char::is_alphanumeric` returns for it).
pub uninterp spec fn is_alphanumeric_beyond_ascii(c: char) -> bool;

/// Whether `c` is an ASCII letter or digit.
pub open spec fn is_ascii_alphanumeric(c: char) -> bool {
    ('a' <= c && c <= 'z') || ('A' <= c && c <= 'Z') || ('0' <= c && c <= '9')
}

/// Whether `c` is alphabetic or numeric (what `char::is_alphanumeric` returns):
/// among ASCII characters exactly the letters and digits.
pub open spec fn is_alphanumeric_char(c: char) -> bool {
    if (c as u32) < 128 {
        is_ascii_alphanumeric(c)
    } else {
        is_alphanumeric_beyond_ascii(c)
    }
}

/// Whether the character has the Unicode `White_Space` property, as
/// `char::is_whitespace` answers.
pub fn char_is_whitespace(c: char) -> (b: bool)
    ensures
        b == is_whitespace_char(c),
{
    let u = c as u32;
    (0x09 <= u && u <= 0x0D) || u == 0x20 || u == 0x85 || u == 0xA0 || u == 0x1680 || (0x2000
        <= u && u <= 0x200A) || u == 0x2028 || u == 0x2029 || u == 0x202F || u == 0x205F || u
        == 0x3000
}

/// `char::is_alphanumeric`: whether the character is alphabetic or numeric in
/// the Unicode sense. Among ASCII characters these are the letters and the
/// digits; beyond ASCII the result is only named.
#[verifier::external_body]
fn char_is_alphanumeric(c: char) -> (b: bool)
    ensures
        (c as u32) < 128 ==> b == is_ascii_alphanumeric(c),
        (c as u32) >= 128 ==> b == is_alphanumeric_beyond_ascii(c),
{
    c.is_alphanumeric()
}

/// ASCII lowercasing of one character: `'A'..='Z'` map to `'a'..='z'`,
/// everything else is unchanged.
pub open spec fn ascii_lower(c: char) -> char {
    if 'A' <= c && c <= 'Z' {
        ((c as u32) + 32) as char
    } else {
        c
    }
}

/// ASCII lowercasing of one character, as `char::to_ascii_lowercase` does it:
/// `'A'` to `'Z'` become `'a'` to `'z'` and every other character is unchanged.
pub fn char_to_ascii_lowercase(c: char) -> (r: char)
    ensures
        r == ascii_lower(c),
{
    if 'A' <= c && c <= 'Z' {
        let b = c as u8;
        let r = (b + 32) as char;
        assert(r == ((c as u32) + 32) as char);
        r
    } else {
        c
    }
}

/// `String::push`: appends one character at the end of the string.
#[verifier::external_body]
fn string_push(s: &mut String, c: char)
    ensures
        final(s)@ == old(s)@.push(c),
{
    s.push(c)
}

/// The characters of `s`, in order.
pub fn chars_of(s: &str) -> (v: Vec<char>)
    ensures
        v@ == s@,
{
    broadcast use vstd::string::group_string_axioms;
    let mut v: Vec<char> = Vec::new();
    for c in it: s.chars()
        invariant
            it.seq() == s@,
            v@ == it.seq().take(it.index()),
    {
        assert(it.seq().take(it.index() + 1) =~= it.seq().take(it.index()).push(c));
        v.push(c);
    }
    assert(s@.take(s@.len() as int) =~= s@);
    v
}

/// The string made of the characters of `v`, in order.
pub fn string_of(v: &Vec<char>) -> (s: String)
    ensures
        s@ == v@,
{
    let mut s = String::new();
    let mut i: usize = 0;
    while i < v.len()
        invariant
            i <= v.len(),
            s@ == v@.take(i as int),
        decreases v.len() - i,
    {
        string_push(&mut s, v[i]);
        assert(v@.take(i + 1) =~= v@.take(i as int).push(v@[i as int]));
        i = i + 1;
    }
    assert(v@.take(v.len() as int) =~= v@);
    s
}


/// Drops the leading characters that satisfy `p`.
pub open spec fn trim_start_by(s: Seq<char>, p: spec_fn(char) -> bool) -> Seq<char>
    decreases s.len(),
{
    if s.len() > 0 && p(s[0]) {
        trim_start_by(s.drop_first(), p)
    } else {
        s
    }
}

/// Drops the trailing characters that satisfy `p`.
pub open spec fn trim_end_by(s: Seq<char>, p: spec_fn(char) -> bool) -> Seq<char>
    decreases s.len(),
{
    if s.len() > 0 && p(s.last()) {
        trim_end_by(s.drop_last(), p)
    } else {
        s
    }
}

/// Drops the leading and the trailing characters that satisfy `p`.
pub open spec fn trim_by(s: Seq<char>, p: spec_fn(char) -> bool) -> Seq<char> {
    trim_end_by(trim_start_by(s, p), p)
}

pub open spec fn whitespace() -> spec_fn(char) -> bool {
    |c: char| is_whitespace_char(c)
}

pub open spec fn non_alphanumeric() -> spec_fn(char) -> bool {
    |c: char| !is_alphanumeric_char(c)
}

/// `s` without its leading and trailing whitespace (what `str::trim` gives).
pub open spec fn trim(s: Seq<char>) -> Seq<char> {
    trim_by(s, whitespace())
}

/// The predicate that `strip_chars` drops: non-alphanumeric characters when
/// `alnum` holds, whitespace otherwise.
pub open spec fn strip_pred(alnum: bool) -> spec_fn(char) -> bool {
    if alnum {
        non_alphanumeric()
    } else {
        whitespace()
    }
}

proof fn lemma_trim_start_skip(s: Seq<char>, p: spec_fn(char) -> bool, i: int)
    requires
        0 <= i <= s.len(),
        forall|k: int| 0 <= k < i ==> p(#[trigger] s[k]),
        i == s.len() || !p(s[i]),
    ensures
        trim_start_by(s, p) == s.skip(i),
    decreases i,
{
    if i == 0 {
        assert(s.skip(0) =~= s);
    } else {
        assert forall|k: int| 0 <= k < i - 1 implies p(#[trigger] s.drop_first()[k]) by {
            assert(s.drop_first()[k] == s[k + 1]);
        }
        if i - 1 < s.drop_first().len() {
            assert(s.drop_first()[i - 1] == s[i]);
        }
        lemma_trim_start_skip(s.drop_first(), p, i - 1);
        assert(s.drop_first().skip(i - 1) =~= s.skip(i));
    }
}

proof fn lemma_trim_end_take(s: Seq<char>, p: spec_fn(char) -> bool, j: int)
    requires
        0 <= j <= s.len(),
        forall|k: int| j <= k < s.len() ==> p(#[trigger] s[k]),
        j == 0 || !p(s[j - 1]),
    ensures
        trim_end_by(s, p) == s.take(j),
    decreases s.len() - j,
{
    if j == s.len() {
        assert(s.take(j) =~= s);
    } else {
        assert(p(s[s.len() - 1]));
        assert forall|k: int| j <= k < s.drop_last().len() implies p(#[trigger] s.drop_last()[k]) by {
            assert(s.drop_last()[k] == s[k]);
        }
        if j > 0 {
            assert(s.drop_last()[j - 1] == s[j - 1]);
        }
        lemma_trim_end_take(s.drop_last(), p, j);
        assert(s.drop_last().take(j) =~= s.take(j));
    }
}

/// Whether `c` satisfies `strip_pred(alnum)`.
fn strip_test(c: char, alnum: bool) -> (b: bool)
    ensures
        b == strip_pred(alnum)(c),
{
    if alnum {
        !char_is_alphanumeric(c)
    } else {
        char_is_whitespace(c)
    }
}

/// Strips the leading and trailing characters that satisfy `strip_pred(alnum)`.
pub fn strip_chars(v: &Vec<char>, alnum: bool) -> (r: Vec<char>)
    ensures
        r@ == trim_by(v@, strip_pred(alnum)),
{
    let ghost p = strip_pred(alnum);
    let n = v.len();
    let mut i: usize = 0;
    while i < n && strip_test(v[i], alnum)
        invariant
            n == v.len(),
            i <= n,
            p == strip_pred(alnum),
            forall|k: int| 0 <= k < i ==> p(#[trigger] v@[k]),
        decreases n - i,
    {
        i = i + 1;
    }
    proof {
        lemma_trim_start_skip(v@, p, i as int);
    }
    let mut j: usize = n;
    while j > i && strip_test(v[j - 1], alnum)
        invariant
            n == v.len(),
            i <= j <= n,
            p == strip_pred(alnum),
            forall|k: int| j <= k < n ==> p(#[trigger] v@[k]),
        decreases j,
    {
        j = j - 1;
    }
    let ghost rest = v@.skip(i as int);
    proof {
        assert forall|k: int| j - i <= k < rest.len() implies p(#[trigger] rest[k]) by {
            assert(rest[k] == v@[k + i]);
        }
        if j > i {
            assert(rest[j - i - 1] == v@[j - 1]);
        }
        lemma_trim_end_take(rest, p, j - i);
    }
    let mut r: Vec<char> = Vec::new();
    let mut k: usize = i;
    while k < j
        invariant
            n == v.len(),
            i <= k <= j <= n,
            r@ == v@.subrange(i as int, k as int),
        decreases j - k,
    {
        r.push(v[k]);
        assert(v@.subrange(i as int, k + 1) =~= v@.subrange(i as int, k as int).push(v@[k as int]));
        k = k + 1;
    }
    assert(rest.take(j - i) =~= v@.subrange(i as int, j as int));
    r
}


/// The character sequences held by a vector of character vectors.
pub open spec fn views(v: Seq<Vec<char>>) -> Seq<Seq<char>> {
    v.map_values(|w: Vec<char>| w@)
}

/// Splitting left to right on whitespace: the words completed so far and the
/// word still being read.
pub open spec fn split_state(s: Seq<char>) -> (Seq<Seq<char>>, Seq<char>)
    decreases s.len(),
{
    if s.len() == 0 {
        (seq![], seq![])
    } else {
        let (done, cur) = split_state(s.drop_last());
        let c = s.last();
        if is_whitespace_char(c) {
            (if cur.len() > 0 { done.push(cur) } else { done }, seq![])
        } else {
            (done, cur.push(c))
        }
    }
}

/// The maximal runs of non-whitespace characters of `s`, in order (what
/// `str::split_whitespace` yields).
pub open spec fn words(s: Seq<char>) -> Seq<Seq<char>> {
    let (done, cur) = split_state(s);
    if cur.len() > 0 {
        done.push(cur)
    } else {
        done
    }
}

/// The words of the characters `v`.
pub fn split_words(v: &Vec<char>) -> (r: Vec<Vec<char>>)
    ensures
        views(r@) == words(v@),
{
    let mut done: Vec<Vec<char>> = Vec::new();
    let mut cur: Vec<char> = Vec::new();
    let mut i: usize = 0;
    while i < v.len()
        invariant
            i <= v.len(),
            (views(done@), cur@) == split_state(v@.take(i as int)),
        decreases v.len() - i,
    {
        let c = v[i];
        assert(v@.take(i + 1).drop_last() =~= v@.take(i as int));
        assert(v@.take(i + 1).last() == c);
        if char_is_whitespace(c) {
            if cur.len() > 0 {
                let ghost old_done = done@;
                let w = cur;
                done.push(w);
                assert(views(done@) =~= views(old_done).push(w@));
                cur = Vec::new();
            }
        } else {
            cur.push(c);
        }
        i = i + 1;
    }
    assert(v@.take(v.len() as int) =~= v@);
    if cur.len() > 0 {
        let ghost old_done = done@;
        let w = cur;
        done.push(w);
        assert(views(done@) =~= views(old_done).push(w@));
    }
    done
}

/// One transcript word reduced for comparison: surrounding non-alphanumeric
/// characters dropped, ASCII letters lowercased.
pub open spec fn normalize_word(w: Seq<char>) -> Seq<char> {
    ascii_lower_seq(trim_by(w, non_alphanumeric()))
}

pub open spec fn nonempty() -> spec_fn(Seq<char>) -> bool {
    |w: Seq<char>| w.len() > 0
}

/// The words of `s` that keep at least one character once normalised, normalised.
pub open spec fn normalized_words_of(s: Seq<char>) -> Seq<Seq<char>> {
    words(s).map_values(|w: Seq<char>| normalize_word(w)).filter(nonempty())
}

/// Whether a word holds at least one alphanumeric character.
pub open spec fn has_alphanumeric(w: Seq<char>) -> bool {
    exists|k: int| 0 <= k < w.len() && is_alphanumeric_char(#[trigger] w[k])
}

/// The number of words of `s` that hold an alphanumeric character.
pub open spec fn transcript_word_count(s: Seq<char>) -> nat {
    words(s).filter(|w: Seq<char>| has_alphanumeric(w)).len()
}

/// `s` with ASCII letters lowercased.
pub open spec fn ascii_lower_seq(s: Seq<char>) -> Seq<char> {
    s.map_values(|c: char| ascii_lower(c))
}

/// The characters `v` with ASCII letters lowercased.
pub fn lower_chars(v: &Vec<char>) -> (r: Vec<char>)
    ensures
        r@ == ascii_lower_seq(v@),
{
    let mut r: Vec<char> = Vec::new();
    let mut i: usize = 0;
    while i < v.len()
        invariant
            i <= v.len(),
            r@ == ascii_lower_seq(v@.take(i as int)),
        decreases v.len() - i,
    {
        let c = char_to_ascii_lowercase(v[i]);
        r.push(c);
        assert(ascii_lower_seq(v@.take(i + 1)) =~= ascii_lower_seq(v@.take(i as int)).push(
            ascii_lower(v@[i as int]),
        ));
        i = i + 1;
    }
    assert(v@.take(v.len() as int) =~= v@);
    r
}

/// The normalised form of the word `w`.
pub fn normalize_chars(w: &Vec<char>) -> (r: Vec<char>)
    ensures
        r@ == normalize_word(w@),
{
    let t = strip_chars(w, true);
    lower_chars(&t)
}

/// The normalised words of the characters `v`.
pub fn normalized_words_chars(v: &Vec<char>) -> (r: Vec<Vec<char>>)
    ensures
        views(r@) == normalized_words_of(v@),
{
    let ws = split_words(v);
    let ghost f = |w: Seq<char>| normalize_word(w);
    let ghost m = views(ws@).map_values(f);
    let mut r: Vec<Vec<char>> = Vec::new();
    let mut i: usize = 0;
    while i < ws.len()
        invariant
            i <= ws.len(),
            m == views(ws@).map_values(f),
            f == (|w: Seq<char>| normalize_word(w)),
            views(r@) == m.take(i as int).filter(nonempty()),
        decreases ws.len() - i,
    {
        let nw = normalize_chars(&ws[i]);
        assert(m.take(i + 1).drop_last() =~= m.take(i as int));
        assert(m.take(i + 1).last() == nw@);
        reveal_with_fuel(Seq::filter, 1);
        if nw.len() > 0 {
            let ghost old_r = r@;
            r.push(nw);
            assert(views(r@) =~= views(old_r).push(m.take(i + 1).last()));
        }
        i = i + 1;
    }
    assert(m.take(ws.len() as int) =~= m);
    r
}

/// The normalised words of `text`: its whitespace-separated words with
/// surrounding punctuation dropped and ASCII letters lowercased, leaving out
/// words that become empty.
pub fn normalized_words(text: &str) -> (r: Vec<String>)
    ensures
        r@.map_values(|s: String| s@) == normalized_words_of(text@),
{
    let v = chars_of(text);
    let nws = normalized_words_chars(&v);
    let mut r: Vec<String> = Vec::new();
    let mut i: usize = 0;
    while i < nws.len()
        invariant
            i <= nws.len(),
            r@.map_values(|s: String| s@) == views(nws@).take(i as int),
        decreases nws.len() - i,
    {
        let ghost old_r = r@;
        let s = string_of(&nws[i]);
        r.push(s);
        assert(r@.map_values(|s: String| s@) =~= old_r.map_values(|s: String| s@).push(
            nws@[i as int]@,
        ));
        assert(views(nws@).take(i + 1) =~= views(nws@).take(i as int).push(nws@[i as int]@));
        i = i + 1;
    }
    assert(views(nws@).take(nws.len() as int) =~= views(nws@));
    r
}

/// `word` with its leading and trailing non-alphanumeric characters removed and
/// its ASCII letters lowercased.
pub fn normalize_transcript_word(word: &str) -> (r: String)
    ensures
        r@ == normalize_word(word@),
{
    let v = chars_of(word);
    let n = normalize_chars(&v);
    string_of(&n)
}

proof fn lemma_trim_start_empty_iff(s: Seq<char>, p: spec_fn(char) -> bool)
    ensures
        (trim_start_by(s, p).len() == 0) == (forall|k: int| 0 <= k < s.len() ==> p(#[trigger] s[k])),
        trim_start_by(s, p).len() > 0 ==> !p(trim_start_by(s, p)[0]),
    decreases s.len(),
{
    if s.len() > 0 && p(s[0]) {
        lemma_trim_start_empty_iff(s.drop_first(), p);
        if forall|k: int| 0 <= k < s.drop_first().len() ==> p(#[trigger] s.drop_first()[k]) {
            assert forall|k: int| 0 <= k < s.len() implies p(#[trigger] s[k]) by {
                if k > 0 {
                    assert(s[k] == s.drop_first()[k - 1]);
                }
            }
        } else {
            let k = choose|k: int| 0 <= k < s.drop_first().len() && !p(#[trigger] s.drop_first()[k]);
            assert(s[k + 1] == s.drop_first()[k]);
        }
    } else if s.len() > 0 {
        assert(!p(s[0]));
    }
}

proof fn lemma_trim_end_keeps_first(t: Seq<char>, p: spec_fn(char) -> bool)
    requires
        t.len() > 0,
        !p(t[0]),
    ensures
        trim_end_by(t, p).len() > 0,
    decreases t.len(),
{
    if p(t.last()) {
        assert(t.len() > 1);
        assert(t.drop_last()[0] == t[0]);
        lemma_trim_end_keeps_first(t.drop_last(), p);
    }
}

/// A word keeps some character once normalised exactly when it holds an
/// alphanumeric character.
pub proof fn lemma_normalized_nonempty_iff_alphanumeric(w: Seq<char>)
    ensures
        (normalize_word(w).len() > 0) == has_alphanumeric(w),
{
    let p = non_alphanumeric();
    lemma_trim_start_empty_iff(w, p);
    let t = trim_start_by(w, p);
    if t.len() > 0 {
        lemma_trim_end_keeps_first(t, p);
        let k = choose|k: int| 0 <= k < w.len() && !p(#[trigger] w[k]);
        assert(is_alphanumeric_char(w[k]));
    } else {
        assert(trim_end_by(t, p) =~= t);
        if has_alphanumeric(w) {
            let k = choose|k: int| 0 <= k < w.len() && is_alphanumeric_char(#[trigger] w[k]);
            assert(p(w[k]));
        }
    }
    assert(normalize_word(w).len() == trim_by(w, p).len());
}

proof fn lemma_count_matches(ws: Seq<Seq<char>>)
    ensures
        ws.filter(|w: Seq<char>| has_alphanumeric(w)).len() == ws.map_values(
            |w: Seq<char>| normalize_word(w),
        ).filter(nonempty()).len(),
    decreases ws.len(),
{
    reveal_with_fuel(Seq::filter, 1);
    if ws.len() > 0 {
        lemma_count_matches(ws.drop_last());
        lemma_normalized_nonempty_iff_alphanumeric(ws.last());
        assert(ws.map_values(|w: Seq<char>| normalize_word(w)).drop_last() =~= ws.drop_last().map_values(
            |w: Seq<char>| normalize_word(w),
        ));
    }
}

/// The number of transcript words of a text is the number of its normalised
/// words: a word counts exactly when it keeps a character once normalised.
pub proof fn law_word_count_is_normalized_word_count(text: Seq<char>)
    ensures
        transcript_word_count(text) == normalized_words_of(text).len(),
{
    lemma_count_matches(words(text));
}

proof fn lemma_trim_end_prefix(t: Seq<char>, p: spec_fn(char) -> bool)
    ensures
        trim_end_by(t, p).len() <= t.len(),
        trim_end_by(t, p) == t.take(trim_end_by(t, p).len() as int),
        trim_end_by(t, p).len() > 0 ==> !p(trim_end_by(t, p).last()),
    decreases t.len(),
{
    if t.len() > 0 && p(t.last()) {
        lemma_trim_end_prefix(t.drop_last(), p);
        let r = trim_end_by(t.drop_last(), p);
        assert(t.drop_last().take(r.len() as int) =~= t.take(r.len() as int));
    } else {
        assert(t.take(t.len() as int) =~= t);
    }
}

proof fn lemma_lower_keeps_alphanumeric(c: char)
    ensures
        is_alphanumeric_char(c) ==> is_alphanumeric_char(ascii_lower(c)),
        !('A' <= ascii_lower(c) && ascii_lower(c) <= 'Z'),
        ascii_lower(ascii_lower(c)) == ascii_lower(c),
{
    if 'A' <= c && c <= 'Z' {
        let u = (c as u32) + 32;
        assert(97 <= u <= 122);
        assert((u as char) as u32 == u);
    }
}

proof fn lemma_trim_keeps_when_ends_hold(s: Seq<char>, p: spec_fn(char) -> bool)
    requires
        s.len() > 0 ==> !p(s[0]) && !p(s.last()),
    ensures
        trim_by(s, p) == s,
{
}

/// A normalised word is already normal: normalising it again changes nothing,
/// it holds no ASCII capital letter, and when it is not empty it starts and
/// ends with an alphanumeric character.
pub proof fn law_normalized_word_is_normal(w: Seq<char>)
    ensures
        normalize_word(normalize_word(w)) == normalize_word(w),
        forall|i: int|
            0 <= i < normalize_word(w).len() ==> !('A' <= #[trigger] normalize_word(w)[i]
                && normalize_word(w)[i] <= 'Z'),
        normalize_word(w).len() > 0 ==> is_alphanumeric_char(normalize_word(w)[0])
            && is_alphanumeric_char(normalize_word(w).last()),
{
    let p = non_alphanumeric();
    let st = trim_start_by(w, p);
    lemma_trim_start_empty_iff(w, p);
    lemma_trim_end_prefix(st, p);
    let t = trim_by(w, p);
    let n = normalize_word(w);
    assert(n.len() == t.len());
    assert forall|i: int| 0 <= i < n.len() implies !('A' <= #[trigger] n[i] && n[i] <= 'Z') by {
        lemma_lower_keeps_alphanumeric(t[i]);
    }
    if t.len() > 0 {
        assert(t[0] == st[0]);
        lemma_lower_keeps_alphanumeric(t[0]);
        lemma_lower_keeps_alphanumeric(t.last());
        assert(n[0] == ascii_lower(t[0]));
        assert(n.last() == ascii_lower(t.last()));
    }
    lemma_trim_keeps_when_ends_hold(n, p);
    assert(ascii_lower_seq(n) =~= n) by {
        assert forall|i: int| 0 <= i < n.len() implies #[trigger] ascii_lower_seq(n)[i] == n[i] by {
            lemma_lower_keeps_alphanumeric(t[i]);
        }
    }
}

proof fn lemma_filter_all_normal(ms: Seq<Seq<char>>)
    requires
        forall|i: int| 0 <= i < ms.len() ==> normalize_word(#[trigger] ms[i]) == ms[i],
    ensures
        forall|i: int|
            0 <= i < ms.filter(nonempty()).len() ==> normalize_word(
                #[trigger] ms.filter(nonempty())[i],
            ) == ms.filter(nonempty())[i] && ms.filter(nonempty())[i].len() > 0,
    decreases ms.len(),
{
    reveal_with_fuel(Seq::filter, 1);
    if ms.len() > 0 {
        let d = ms.drop_last();
        assert forall|i: int| 0 <= i < d.len() implies normalize_word(#[trigger] d[i]) == d[i] by {
            assert(d[i] == ms[i]);
        }
        lemma_filter_all_normal(d);
        assert(normalize_word(ms.last()) == ms.last());
        let fd = d.filter(nonempty());
        let fm = ms.filter(nonempty());
        if ms.last().len() > 0 {
            assert(fm == fd.push(ms.last()));
            assert forall|i: int| 0 <= i < fm.len() implies normalize_word(#[trigger] fm[i]) == fm[i]
                && fm[i].len() > 0 by {
                if i < fd.len() {
                    assert(fm[i] == fd[i]);
                }
            }
        } else {
            assert(fm == fd);
        }
    }
}

/// Every normalised word of a text is non-empty and already normal.
pub proof fn law_normalized_words_are_normal(text: Seq<char>)
    ensures
        forall|i: int|
            0 <= i < normalized_words_of(text).len() ==> #[trigger] normalized_words_of(text)[i].len()
                > 0 && normalize_word(normalized_words_of(text)[i]) == normalized_words_of(text)[i],
{
    let ms = words(text).map_values(|w: Seq<char>| normalize_word(w));
    assert forall|i: int| 0 <= i < ms.len() implies normalize_word(#[trigger] ms[i]) == ms[i] by {
        law_normalized_word_is_normal(words(text)[i]);
    }
    lemma_filter_all_normal(ms);
}

proof fn lemma_split_state_append(x: Seq<char>, y: Seq<char>)
    requires
        split_state(x).1.len() == 0,
    ensures
        split_state(x + y) == (split_state(x).0 + split_state(y).0, split_state(y).1),
    decreases y.len(),
{
    if y.len() == 0 {
        assert(x + y =~= x);
    } else {
        assert((x + y).drop_last() =~= x + y.drop_last());
        assert((x + y).last() == y.last());
        lemma_split_state_append(x, y.drop_last());
        let (d, c) = split_state(y.drop_last());
        let dx = split_state(x).0;
        if is_whitespace_char(y.last()) && c.len() > 0 {
            assert(dx + d.push(c) =~= (dx + d).push(c));
        }
    }
}

/// Joining two texts with a space joins their words: the words of `a + " " + b`
/// are the words of `a` followed by those of `b`.
pub proof fn law_words_of_joined_text(a: Seq<char>, b: Seq<char>)
    ensures
        words(a + seq![' '] + b) == words(a) + words(b),
{
    let x = a + seq![' '];
    assert(x.drop_last() =~= a);
    assert(is_whitespace_char(' '));
    assert(split_state(x) == (words(a), Seq::<char>::empty()));
    lemma_split_state_append(x, b);
    let (d, c) = split_state(b);
    if c.len() > 0 {
        assert(words(a) + d.push(c) =~= (words(a) + d).push(c));
    }
}

/// The normalised words of `a + " " + b` are those of `a` followed by those of
/// `b`, and its transcript words number those of `a` and `b` together.
pub proof fn law_joined_text_words_add_up(a: Seq<char>, b: Seq<char>)
    ensures
        normalized_words_of(a + seq![' '] + b) == normalized_words_of(a) + normalized_words_of(b),
        transcript_word_count(a + seq![' '] + b) == transcript_word_count(a) + transcript_word_count(b),
{
    law_words_of_joined_text(a, b);
    let f = |w: Seq<char>| normalize_word(w);
    let p = |w: Seq<char>| has_alphanumeric(w);
    assert((words(a) + words(b)).map_values(f) =~= words(a).map_values(f) + words(b).map_values(f));
    Seq::filter_distributes_over_add(words(a).map_values(f), words(b).map_values(f), nonempty());
    Seq::filter_distributes_over_add(words(a), words(b), p);
}

proof fn lemma_split_state_no_whitespace(s: Seq<char>)
    requires
        forall|i: int| 0 <= i < s.len() ==> !is_whitespace_char(#[trigger] s[i]),
    ensures
        split_state(s) == (Seq::<Seq<char>>::empty(), s),
    decreases s.len(),
{
    if s.len() > 0 {
        let d = s.drop_last();
        assert forall|i: int| 0 <= i < d.len() implies !is_whitespace_char(#[trigger] d[i]) by {
            assert(d[i] == s[i]);
        }
        lemma_split_state_no_whitespace(d);
        assert(!is_whitespace_char(s[s.len() - 1]));
        assert(d.push(s.last()) =~= s);
    }
}

/// Words are split at whitespace only: a non-empty text without a whitespace
/// character is one word, itself (so a word keeps its apostrophes, hyphens
/// and other punctuation).
pub proof fn law_text_without_whitespace_is_one_word(s: Seq<char>)
    requires
        s.len() > 0,
        forall|i: int| 0 <= i < s.len() ==> !is_whitespace_char(#[trigger] s[i]),
    ensures
        words(s) == seq![s],
{
    lemma_split_state_no_whitespace(s);
    assert(Seq::<Seq<char>>::empty().push(s) =~= seq![s]);
}

/// Every whitespace character separates words: the words of `a`, a whitespace
/// character `w` and `b` are the words of `a` followed by those of `b`.
pub proof fn law_whitespace_separates_words(a: Seq<char>, w: char, b: Seq<char>)
    requires
        is_whitespace_char(w),
    ensures
        words(a + seq![w] + b) == words(a) + words(b),
{
    let x = a + seq![w];
    assert(x.drop_last() =~= a);
    assert(split_state(x) == (words(a), Seq::<char>::empty()));
    lemma_split_state_append(x, b);
    let (d, c) = split_state(b);
    if c.len() > 0 {
        assert(words(a) + d.push(c) =~= (words(a) + d).push(c));
    }
}

/// Whether some character of `w` is alphanumeric.
fn any_alphanumeric(w: &Vec<char>) -> (b: bool)
    ensures
        b == has_alphanumeric(w@),
{
    let mut i: usize = 0;
    while i < w.len()
        invariant
            i <= w.len(),
            forall|k: int| 0 <= k < i ==> !is_alphanumeric_char(#[trigger] w@[k]),
        decreases w.len() - i,
    {
        if char_is_alphanumeric(w[i]) {
            return true;
        }
        i = i + 1;
    }
    false
}

/// The number of whitespace-separated words of `text` that contain at least
/// one alphanumeric character.
pub fn count_transcript_words(text: &str) -> (n: u64)
    ensures
        n == transcript_word_count(text@),
{
    let v = chars_of(text);
    let ws = split_words(&v);
    let ghost p = |w: Seq<char>| has_alphanumeric(w);
    let ghost d = views(ws@);
    let mut n: u64 = 0;
    let mut i: usize = 0;
    while i < ws.len()
        invariant
            i <= ws.len(),
            d == views(ws@),
            p == (|w: Seq<char>| has_alphanumeric(w)),
            n == d.take(i as int).filter(p).len(),
            n <= i,
        decreases ws.len() - i,
    {
        assert(d.take(i + 1).drop_last() =~= d.take(i as int));
        reveal_with_fuel(Seq::filter, 1);
        if any_alphanumeric(&ws[i]) {
            n = n + 1;
        }
        i = i + 1;
    }
    assert(d.take(ws.len() as int) =~= d);
    n
}


/// The decimal digit character for `d < 10`.
pub open spec fn digit_char(d: int) -> char {
    (d + 48) as char
}

/// The decimal digits of `n`, most significant first, without leading zeros.
pub open spec fn digits(n: nat) -> Seq<char>
    decreases n,
{
    if n < 10 {
        seq![digit_char(n as int)]
    } else {
        digits(n / 10).push(digit_char((n % 10) as int))
    }
}

/// The decimal representation of `n`, with a leading `-` when it is negative
/// (what `i64`'s `Display` writes).
pub open spec fn decimal(n: int) -> Seq<char> {
    if n < 0 {
        seq!['-'] + digits((-n) as nat)
    } else {
        digits(n as nat)
    }
}

fn push_digits(s: &mut String, m: u64)
    ensures
        final(s)@ == old(s)@ + digits(m as nat),
    decreases m,
{
    if m >= 10 {
        push_digits(s, m / 10);
    }
    let d: u8 = (m % 10) as u8;
    let c = (d + 48) as char;
    assert(c == digit_char((m % 10) as int));
    string_push(s, c);
    if m >= 10 {
        assert(old(s)@ + digits(m as nat) =~= old(s)@ + digits((m / 10) as nat) + seq![c]);
    } else {
        assert(old(s)@ + digits(m as nat) =~= old(s)@.push(c));
    }
}

/// Appends the decimal representation of `n` to `s`.
pub fn push_decimal(s: &mut String, n: i64)
    ensures
        final(s)@ == old(s)@ + decimal(n as int),
{
    if n < 0 {
        string_push(s, '-');
        let m: u64 = (0i128 - (n as i128)) as u64;
        push_digits(s, m);
        assert(old(s)@ + decimal(n as int) =~= old(s)@.push('-') + digits(m as nat));
    } else {
        push_digits(s, n as u64);
    }
}

/// Whether `a` and `b` hold the same characters.
pub fn same_text(a: &str, b: &str) -> (r: bool)
    ensures
        r == (a@ == b@),
{
    let x = chars_of(a);
    let y = chars_of(b);
    if x.len() != y.len() {
        return false;
    }
    let mut i: usize = 0;
    while i < x.len()
        invariant
            x.len() == y.len(),
            x@ == a@,
            y@ == b@,
            i <= x.len(),
            forall|k: int| 0 <= k < i ==> x@[k] == y@[k],
        decreases x.len() - i,
    {
        if x[i] != y[i] {
            return false;
        }
        i = i + 1;
    }
    assert(x@ =~= y@);
    true
}

/// `s` with its leading and trailing whitespace removed.
pub fn trim_text(s: &str) -> (r: String)
    ensures
        r@ == trim(s@),
{
    let v = chars_of(s);
    let t = strip_chars(&v, false);
    string_of(&t)
}

} // verus!
