//! Live transcript handling: merging successive partial transcriptions of a
//! rolling audio window into one running transcript.

use vstd::prelude::*;
use crate::text::{
    chars_of, normalize_word, normalized_words_chars, normalized_words_of, nonempty, split_words,
    string_of, strip_chars, trim, trim_text, same_text, views, words, ascii_lower_seq, lower_chars,
};

verus! {

/// The words `ws` joined by single spaces.
pub open spec fn join_words(ws: Seq<Seq<char>>) -> Seq<char>
    decreases ws.len(),
{
    if ws.len() == 0 {
        seq![]
    } else if ws.len() == 1 {
        ws[0]
    } else {
        join_words(ws.drop_last()) + seq![' '] + ws.last()
    }
}

/// Whether `needle` occurs as a contiguous run of `hay`.
pub open spec fn has_window(hay: Seq<Seq<char>>, needle: Seq<Seq<char>>) -> bool {
    exists|p: int|
        0 <= p && p + needle.len() <= hay.len() && #[trigger] hay.subrange(p, p + needle.len())
            == needle
}

/// Whether the last `k` words of `ne` are the first `k` words of `nu`.
pub open spec fn overlaps_by(ne: Seq<Seq<char>>, nu: Seq<Seq<char>>, k: int) -> bool {
    ne.subrange(ne.len() - k, ne.len() as int) == nu.take(k)
}

/// The largest `j` with `1 <= j <= k` by which `ne` ends the way `nu` starts, or 0.
pub open spec fn best_overlap(ne: Seq<Seq<char>>, nu: Seq<Seq<char>>, k: int) -> int
    decreases k,
{
    if k <= 0 {
        0
    } else if overlaps_by(ne, nu, k) {
        k
    } else {
        best_overlap(ne, nu, k - 1)
    }
}

/// The first position at or after `p` where `needle` occurs in `hay`.
pub open spec fn first_window_from(hay: Seq<Seq<char>>, needle: Seq<Seq<char>>, p: int) -> Option<
    int,
>
    decreases hay.len() + 1 - p,
{
    if p < 0 || p + needle.len() > hay.len() {
        None
    } else if hay.subrange(p, p + needle.len()) == needle {
        Some(p)
    } else {
        first_window_from(hay, needle, p + 1)
    }
}

/// `n - m`, or 0 where that is negative.
pub open spec fn saturating_diff(n: int, m: int) -> int {
    if n >= m {
        n - m
    } else {
        0
    }
}

/// Where the recent tail of the existing words starts: the last 80 of them.
pub open spec fn recent_tail_start(ne: Seq<Seq<char>>) -> int {
    saturating_diff(ne.len() as int, 80)
}

/// The longest prefix of `nu`, of length between 3 and `len`, whose first
/// occurrence in the recent tail of `ne` ends within the last 12 words of `ne`.
pub open spec fn tail_match(ne: Seq<Seq<char>>, nu: Seq<Seq<char>>, len: int) -> Option<int>
    decreases len,
{
    if len < 3 {
        None
    } else {
        let ts = recent_tail_start(ne);
        let found = first_window_from(ne.skip(ts), nu.take(len), 0);
        if found is Some && ts + found->0 + len >= saturating_diff(ne.len() as int, 12) {
            Some(len)
        } else {
            tail_match(ne, nu, len - 1)
        }
    }
}

/// `e` followed by a space and the words `rest`, or `e` alone when `rest` joins
/// to nothing.
pub open spec fn with_remainder(e: Seq<char>, rest: Seq<Seq<char>>) -> Seq<char> {
    if join_words(rest).len() == 0 {
        e
    } else {
        e + seq![' '] + join_words(rest)
    }
}

pub open spec fn min_int(a: int, b: int) -> int {
    if a <= b {
        a
    } else {
        b
    }
}

/// The running transcript after a new partial transcription `update` arrives.
/// Both texts are trimmed. An empty side yields the other. An update whose
/// normalised words already occur in the transcript changes nothing. Otherwise
/// the longest overlap between the end of the transcript and the start of the
/// update is dropped from the update; failing that, an update that starts with
/// three or more words found near the end of the transcript continues from
/// there; failing that, the update is appended whole.
pub open spec fn merged(existing: Seq<char>, update: Seq<char>) -> Seq<char> {
    let e = trim(existing);
    let u = trim(update);
    if e.len() == 0 {
        u
    } else if u.len() == 0 {
        e
    } else {
        let uw = words(u);
        let ne = normalized_words_of(e);
        let nu = normalized_words_of(u);
        if nu.len() > 0 && has_window(ne, nu) {
            e
        } else {
            let k = best_overlap(ne, nu, min_int(ne.len() as int, nu.len() as int));
            if k > 0 {
                with_remainder(e, uw.skip(k))
            } else {
                let t = tail_match(ne, nu, nu.len() as int);
                if t is Some {
                    with_remainder(e, uw.skip(t->0))
                } else {
                    e + seq![' '] + u
                }
            }
        }
    }
}

/// Merging never loses the running transcript: the trimmed transcript starts
/// the result; a blank update leaves the trimmed transcript as it is; a blank
/// transcript takes the trimmed update.
pub proof fn law_merge_keeps_existing_transcript(existing: Seq<char>, update: Seq<char>)
    ensures
        trim(existing).len() > 0 ==> trim(existing).is_prefix_of(merged(existing, update)),
        trim(update).len() == 0 ==> merged(existing, update) == trim(existing),
        trim(existing).len() == 0 ==> merged(existing, update) == trim(update),
{
    let e = trim(existing);
    let m = merged(existing, update);
    if e.len() > 0 {
        assert(m.len() >= e.len());
        assert(m.subrange(0, e.len() as int) =~= e);
    }
}

/// Merging a transcript with itself changes nothing beyond trimming, as long
/// as it has a word to compare.
pub proof fn law_merge_with_itself(text: Seq<char>)
    requires
        normalized_words_of(trim(text)).len() > 0,
    ensures
        merged(text, text) == trim(text),
{
    let ne = normalized_words_of(trim(text));
    let z: int = 0;
    assert(ne.subrange(z, z + ne.len()) =~= ne);
    assert(has_window(ne, ne));
}

/// An update whose normalised words all occur, in order and together, in the
/// running transcript leaves the trimmed transcript unchanged.
pub proof fn law_merge_ignores_repeated_update(existing: Seq<char>, update: Seq<char>)
    requires
        trim(existing).len() > 0,
        normalized_words_of(trim(update)).len() > 0,
        has_window(normalized_words_of(trim(existing)), normalized_words_of(trim(update))),
    ensures
        merged(existing, update) == trim(existing),
{
    if trim(update).len() == 0 {
        reveal_with_fuel(Seq::filter, 1);
        assert(words(trim(update)).len() == 0);
        assert(normalized_words_of(trim(update)).len() == 0);
    }
}

/// `best_overlap` finds the largest overlap up to `kmax`: given that `k` is an
/// overlap (or 0) and nothing larger up to `kmax` is one, it returns `k`.
proof fn lemma_best_overlap_is_largest(ne: Seq<Seq<char>>, nu: Seq<Seq<char>>, kmax: int, k: int)
    requires
        0 <= k <= kmax,
        k > 0 ==> ne.subrange(ne.len() - k, ne.len() as int) == nu.take(k),
        forall|j: int|
            k < j <= kmax ==> ne.subrange(ne.len() - j, ne.len() as int) != #[trigger] nu.take(j),
    ensures
        best_overlap(ne, nu, kmax) == k,
    decreases kmax,
{
    if kmax > k {
        assert(ne.subrange(ne.len() - kmax, ne.len() as int) != nu.take(kmax));
        lemma_best_overlap_is_largest(ne, nu, kmax - 1, k);
    }
}

/// Whether `needle` first occurs in `hay` at position `p`.
pub open spec fn first_occurrence_at(hay: Seq<Seq<char>>, needle: Seq<Seq<char>>, p: int) -> bool {
    &&& 0 <= p
    &&& p + needle.len() <= hay.len()
    &&& hay.subrange(p, p + needle.len()) == needle
    &&& forall|q: int| 0 <= q < p ==> #[trigger] hay.subrange(q, q + needle.len()) != needle
}

/// Whether the first `l` normalised words of the update `nu` first occur among
/// the last 80 words of the transcript `ne` at a place that ends within its
/// last 12 words.
pub open spec fn prefix_found_near_end(ne: Seq<Seq<char>>, nu: Seq<Seq<char>>, l: int) -> bool {
    exists|p: int|
        #[trigger] first_occurrence_at(ne.skip(last_words_start(ne.len() as int, 80)), nu.take(l), p)
            && last_words_start(ne.len() as int, 80) + p + l >= last_words_start(ne.len() as int, 12)
}

/// Where the last `m` of `n` words start.
pub open spec fn last_words_start(n: int, m: int) -> int {
    if n >= m {
        n - m
    } else {
        0
    }
}

/// `first_window_from` finds the first occurrence at or after `q`, or reports
/// that there is none.
proof fn lemma_first_window_from(hay: Seq<Seq<char>>, needle: Seq<Seq<char>>, q: int)
    requires
        q >= 0,
    ensures
        first_window_from(hay, needle, q) matches Some(p) ==> q <= p && p + needle.len()
            <= hay.len() && hay.subrange(p, p + needle.len()) == needle && forall|r: int|
            q <= r < p ==> #[trigger] hay.subrange(r, r + needle.len()) != needle,
        first_window_from(hay, needle, q) is None ==> forall|r: int|
            q <= r && r + needle.len() <= hay.len() ==> #[trigger] hay.subrange(
                r,
                r + needle.len(),
            ) != needle,
    decreases hay.len() + 1 - q,
{
    if q + needle.len() <= hay.len() && hay.subrange(q, q + needle.len()) != needle {
        lemma_first_window_from(hay, needle, q + 1);
    }
}

/// For a prefix of three or more words, the test in `tail_match` holds exactly
/// when the prefix is found near the end.
proof fn lemma_tail_test(ne: Seq<Seq<char>>, nu: Seq<Seq<char>>, len: int)
    ensures
        ({
            let ts = recent_tail_start(ne);
            let found = first_window_from(ne.skip(ts), nu.take(len), 0);
            found is Some && ts + found->0 + len >= saturating_diff(ne.len() as int, 12)
        }) == prefix_found_near_end(ne, nu, len),
{
    let ts = recent_tail_start(ne);
    let hay = ne.skip(ts);
    let needle = nu.take(len);
    lemma_first_window_from(hay, needle, 0);
    match first_window_from(hay, needle, 0) {
        Some(p) => {
            assert(first_occurrence_at(hay, needle, p));
            assert(ts == saturating_diff(ne.len() as int, 80));
            if ts + p + len >= saturating_diff(ne.len() as int, 12) {
                assert(last_words_start(ne.len() as int, 80) == ts);
                assert(first_occurrence_at(ne.skip(last_words_start(ne.len() as int, 80)), nu.take(len), p));
                assert(prefix_found_near_end(ne, nu, len));
            }
            if prefix_found_near_end(ne, nu, len) {
                let p2 = choose|p2: int|
                    #[trigger] first_occurrence_at(hay, needle, p2) && ts + p2 + len
                        >= saturating_diff(ne.len() as int, 12);
                if p2 < p {
                    assert(hay.subrange(p2, p2 + needle.len()) != needle);
                } else if p < p2 {
                    assert(hay.subrange(p, p + needle.len()) != needle);
                }
                assert(p2 == p);
                assert(ts + p + len >= saturating_diff(ne.len() as int, 12));
            }
        },
        None => {
            if prefix_found_near_end(ne, nu, len) {
                let p2 = choose|p2: int|
                    #[trigger] first_occurrence_at(hay, needle, p2) && ts + p2 + len
                        >= saturating_diff(ne.len() as int, 12);
                assert(hay.subrange(p2, p2 + needle.len()) == needle);
            }
        },
    }
}

/// `tail_match` finds the longest qualifying prefix up to `lmax`.
proof fn lemma_tail_match_is_longest(ne: Seq<Seq<char>>, nu: Seq<Seq<char>>, lmax: int, l: int)
    requires
        3 <= l <= lmax,
        prefix_found_near_end(ne, nu, l),
        forall|m: int| l < m <= lmax ==> !#[trigger] prefix_found_near_end(ne, nu, m),
    ensures
        tail_match(ne, nu, lmax) == Some(l),
    decreases lmax,
{
    lemma_tail_test(ne, nu, lmax);
    if lmax > l {
        assert(!prefix_found_near_end(ne, nu, lmax));
        lemma_tail_match_is_longest(ne, nu, lmax - 1, l);
    }
}

/// The running transcript `e` continued by the words `rest`, joined by single
/// spaces.
pub open spec fn continued_by(e: Seq<char>, rest: Seq<Seq<char>>) -> Seq<char> {
    if join_words(rest).len() == 0 {
        e
    } else {
        e + seq![' '] + join_words(rest)
    }
}

/// When the update is not already in the transcript and the transcript ends
/// with the update's first `k` normalised words, `k` being the largest such
/// overlap, the merge drops exactly those `k` words of the update and keeps
/// the rest.
pub proof fn law_merge_drops_longest_overlap(existing: Seq<char>, update: Seq<char>, k: int)
    requires
        trim(existing).len() > 0,
        trim(update).len() > 0,
        !has_window(normalized_words_of(trim(existing)), normalized_words_of(trim(update))),
        1 <= k <= normalized_words_of(trim(existing)).len(),
        k <= normalized_words_of(trim(update)).len(),
        normalized_words_of(trim(existing)).subrange(
            normalized_words_of(trim(existing)).len() - k,
            normalized_words_of(trim(existing)).len() as int,
        ) == normalized_words_of(trim(update)).take(k),
        forall|j: int|
            k < j <= normalized_words_of(trim(existing)).len() && j <= normalized_words_of(
                trim(update),
            ).len() ==> normalized_words_of(trim(existing)).subrange(
                normalized_words_of(trim(existing)).len() - j,
                normalized_words_of(trim(existing)).len() as int,
            ) != #[trigger] normalized_words_of(trim(update)).take(j),
    ensures
        merged(existing, update) == continued_by(trim(existing), words(trim(update)).skip(k)),
{
    let ne = normalized_words_of(trim(existing));
    let nu = normalized_words_of(trim(update));
    lemma_best_overlap_is_largest(ne, nu, min_int(ne.len() as int, nu.len() as int), k);
}

/// When the update is not already in the transcript and no end of the
/// transcript overlaps its start, but its first `l >= 3` normalised words are
/// found near the end of the transcript, `l` being the longest such prefix, the
/// merge continues the transcript with the update's words after those `l`.
pub proof fn law_merge_continues_after_longest_recent_prefix(
    existing: Seq<char>,
    update: Seq<char>,
    l: int,
)
    requires
        trim(existing).len() > 0,
        trim(update).len() > 0,
        !has_window(normalized_words_of(trim(existing)), normalized_words_of(trim(update))),
        forall|j: int|
            1 <= j <= normalized_words_of(trim(existing)).len() && j <= normalized_words_of(
                trim(update),
            ).len() ==> normalized_words_of(trim(existing)).subrange(
                normalized_words_of(trim(existing)).len() - j,
                normalized_words_of(trim(existing)).len() as int,
            ) != #[trigger] normalized_words_of(trim(update)).take(j),
        3 <= l <= normalized_words_of(trim(update)).len(),
        prefix_found_near_end(normalized_words_of(trim(existing)), normalized_words_of(trim(update)), l),
        forall|m: int|
            l < m <= normalized_words_of(trim(update)).len() ==> !#[trigger] prefix_found_near_end(
                normalized_words_of(trim(existing)),
                normalized_words_of(trim(update)),
                m,
            ),
    ensures
        merged(existing, update) == continued_by(trim(existing), words(trim(update)).skip(l)),
{
    let ne = normalized_words_of(trim(existing));
    let nu = normalized_words_of(trim(update));
    lemma_best_overlap_is_largest(ne, nu, min_int(ne.len() as int, nu.len() as int), 0);
    lemma_tail_match_is_longest(ne, nu, nu.len() as int, l);
}

fn chars_eq(x: &Vec<char>, y: &Vec<char>) -> (b: bool)
    ensures
        b == (x@ == y@),
{
    if x.len() != y.len() {
        return false;
    }
    let mut i: usize = 0;
    while i < x.len()
        invariant
            x.len() == y.len(),
            i <= x.len(),
            forall|k: int| 0 <= k < i ==> x@[k] == y@[k],
        decreases x.len() - i,
    {
        if x[i] != y[i] {
            return false;
        }
        i = i + 1;
    }
    assert(x@ =~= y@);
    true
}

/// Whether `a[ai..ai + n]` and `b[bi..bi + n]` hold the same words.
fn words_eq(a: &Vec<Vec<char>>, ai: usize, b: &Vec<Vec<char>>, bi: usize, n: usize) -> (r: bool)
    requires
        ai + n <= a.len(),
        bi + n <= b.len(),
    ensures
        r == (views(a@).subrange(ai as int, ai + n) == views(b@).subrange(bi as int, bi + n)),
{
    let mut i: usize = 0;
    while i < n
        invariant
            ai + n <= a.len(),
            bi + n <= b.len(),
            i <= n,
            forall|k: int|
                0 <= k < i ==> #[trigger] views(a@).subrange(ai as int, ai + n)[k] == views(
                    b@,
                ).subrange(bi as int, bi + n)[k],
        decreases n - i,
    {
        assert(views(a@).subrange(ai as int, ai + n)[i as int] == a@[ai + i]@);
        assert(views(b@).subrange(bi as int, bi + n)[i as int] == b@[bi + i]@);
        if !chars_eq(&a[ai + i], &b[bi + i]) {
            return false;
        }
        i = i + 1;
    }
    assert(views(a@).subrange(ai as int, ai + n) =~= views(b@).subrange(bi as int, bi + n));
    true
}

/// Whether the words of `needle` occur as a contiguous run of `hay`.
fn contains_window(hay: &Vec<Vec<char>>, needle: &Vec<Vec<char>>) -> (r: bool)
    ensures
        r == has_window(views(hay@), views(needle@)),
{
    let n = needle.len();
    if n > hay.len() {
        return false;
    }
    let last = hay.len() - n;
    let mut p: usize = 0;
    loop
        invariant
            n == needle.len(),
            n <= hay.len(),
            last == hay.len() - n,
            p <= last,
            forall|q: int|
                0 <= q < p ==> #[trigger] views(hay@).subrange(q, q + n) != views(needle@),
        decreases last - p,
    {
        assert(views(needle@).subrange(0, n as int) =~= views(needle@));
        if words_eq(hay, p, needle, 0, n) {
            assert(views(hay@).subrange(p as int, p + n) == views(needle@));
            return true;
        }
        if p == last {
            return false;
        }
        p = p + 1;
    }
}

/// The first position where `needle[..len]` occurs in `hay[from..]`.
fn first_window(hay: &Vec<Vec<char>>, from: usize, needle: &Vec<Vec<char>>, len: usize) -> (r:
    Option<usize>)
    requires
        from <= hay.len(),
        len <= needle.len(),
    ensures
        r matches Some(p) ==> first_window_from(
            views(hay@).skip(from as int),
            views(needle@).take(len as int),
            0,
        ) == Some(p as int),
        r is None ==> first_window_from(
            views(hay@).skip(from as int),
            views(needle@).take(len as int),
            0,
        ) is None,
        r matches Some(p) ==> p + len <= hay.len() - from,
{
    let ghost h = views(hay@).skip(from as int);
    let ghost nd = views(needle@).take(len as int);
    let m = hay.len() - from;
    if len > m {
        return None;
    }
    let last = m - len;
    let mut p: usize = 0;
    loop
        invariant
            len <= m,
            last == m - len,
            p <= last,
            from <= hay.len(),
            m == hay.len() - from,
            len <= needle.len(),
            h == views(hay@).skip(from as int),
            nd == views(needle@).take(len as int),
            first_window_from(h, nd, 0) == first_window_from(h, nd, p as int),
        decreases last - p,
    {
        let same = words_eq(hay, from + p, needle, 0, len);
        assert(h.subrange(p as int, p + len) =~= views(hay@).subrange(from + p, from + p + len));
        assert(views(needle@).subrange(0, len as int) =~= nd);
        if same {
            return Some(p);
        }
        if p == last {
            assert(first_window_from(h, nd, p + 1) is None);
            return None;
        }
        p = p + 1;
    }
}

/// The characters of the words `ws[k..]` joined by single spaces.
fn join_from(ws: &Vec<Vec<char>>, k: usize) -> (r: Vec<char>)
    requires
        k <= ws.len(),
    ensures
        r@ == join_words(views(ws@).skip(k as int)),
{
    let ghost s = views(ws@).skip(k as int);
    let mut r: Vec<char> = Vec::new();
    let mut j: usize = k;
    while j < ws.len()
        invariant
            k <= j <= ws.len(),
            s == views(ws@).skip(k as int),
            r@ == join_words(s.take(j - k)),
        decreases ws.len() - j,
    {
        assert(s.take(j + 1 - k).drop_last() =~= s.take(j - k));
        assert(s.take(j + 1 - k).last() == ws@[j as int]@);
        if j > k {
            r.push(' ');
        } else {
            assert(s.take(1)[0] == ws@[j as int]@);
        }
        let w = &ws[j];
        let ghost before = r@;
        let mut i: usize = 0;
        while i < w.len()
            invariant
                i <= w.len(),
                r@ == before + w@.take(i as int),
            decreases w.len() - i,
        {
            r.push(w[i]);
            assert(w@.take(i + 1) =~= w@.take(i as int).push(w@[i as int]));
            i = i + 1;
        }
        assert(w@.take(w.len() as int) =~= w@);
        if j == k {
            assert(r@ =~= w@);
        }
        j = j + 1;
    }
    assert(s.take(ws.len() - k) =~= s);
    r
}

/// `e` followed by a space and the words `ws[k..]`, or `e` alone when those
/// join to nothing.
fn append_remainder(e: &Vec<char>, ws: &Vec<Vec<char>>, k: usize) -> (r: Vec<char>)
    requires
        k <= ws.len(),
    ensures
        r@ == with_remainder(e@, views(ws@).skip(k as int)),
{
    let rest = join_from(ws, k);
    if rest.len() == 0 {
        return e.clone();
    }
    let mut r = e.clone();
    r.push(' ');
    append_chars(&mut r, &rest);
    r
}

fn append_chars(r: &mut Vec<char>, x: &Vec<char>)
    ensures
        final(r)@ == old(r)@ + x@,
{
    let mut i: usize = 0;
    while i < x.len()
        invariant
            i <= x.len(),
            r@ == old(r)@ + x@.take(i as int),
        decreases x.len() - i,
    {
        r.push(x[i]);
        assert(x@.take(i + 1) =~= x@.take(i as int).push(x@[i as int]));
        i = i + 1;
    }
    assert(x@.take(x.len() as int) =~= x@);
}

/// The largest overlap (at most `max`) by which `ne` ends the way `nu` starts.
fn overlap_len(ne: &Vec<Vec<char>>, nu: &Vec<Vec<char>>, max: usize) -> (k: usize)
    requires
        max <= ne.len(),
        max <= nu.len(),
    ensures
        k as int == best_overlap(views(ne@), views(nu@), max as int),
        k <= max,
{
    let mut k: usize = max;
    while k > 0
        invariant
            k <= max <= ne.len(),
            max <= nu.len(),
            best_overlap(views(ne@), views(nu@), max as int) == best_overlap(
                views(ne@),
                views(nu@),
                k as int,
            ),
        decreases k,
    {
        let same = words_eq(ne, ne.len() - k, nu, 0, k);
        assert(views(nu@).subrange(0, k as int) =~= views(nu@).take(k as int));
        if same {
            return k;
        }
        k = k - 1;
    }
    0
}

/// The prefix length chosen by `tail_match`, searched from `nu.len()` down.
fn tail_prefix_len(ne: &Vec<Vec<char>>, nu: &Vec<Vec<char>>) -> (r: Option<usize>)
    ensures
        r matches Some(l) ==> tail_match(views(ne@), views(nu@), nu.len() as int) == Some(l as int)
            && l <= nu.len(),
        r is None ==> tail_match(views(ne@), views(nu@), nu.len() as int) is None,
{
    let n = ne.len();
    let ts: usize = if n >= 80 {
        n - 80
    } else {
        0
    };
    let threshold: usize = if n >= 12 {
        n - 12
    } else {
        0
    };
    let mut len: usize = nu.len();
    while len >= 3
        invariant
            n == ne.len(),
            ts as int == recent_tail_start(views(ne@)),
            threshold as int == saturating_diff(n as int, 12),
            len <= nu.len(),
            tail_match(views(ne@), views(nu@), nu.len() as int) == tail_match(
                views(ne@),
                views(nu@),
                len as int,
            ),
        decreases len,
    {
        match first_window(ne, ts, nu, len) {
            Some(pos) => {
                if ts + pos + len >= threshold {
                    return Some(len);
                }
            },
            None => {},
        }
        len = len - 1;
    }
    None
}

/// Merges a new partial transcription `update` into the running transcript
/// `existing`, dropping the words the two share at their seam.
pub fn merge_live_partial(existing: &str, update: &str) -> (r: String)
    ensures
        r@ == merged(existing@, update@),
{
    let ev = chars_of(existing);
    let uv = chars_of(update);
    let e = strip_chars(&ev, false);
    let u = strip_chars(&uv, false);
    if e.len() == 0 {
        return string_of(&u);
    }
    if u.len() == 0 {
        return string_of(&e);
    }
    let uw = split_words(&u);
    let ne = normalized_words_chars(&e);
    let nu = normalized_words_chars(&u);
    proof {
        words(u@).map_values(|w: Seq<char>| normalize_word(w)).lemma_filter_len(nonempty());
    }
    if nu.len() > 0 && contains_window(&ne, &nu) {
        return string_of(&e);
    }
    let max: usize = if ne.len() <= nu.len() {
        ne.len()
    } else {
        nu.len()
    };
    let k = overlap_len(&ne, &nu, max);
    if k > 0 {
        let r = append_remainder(&e, &uw, k);
        return string_of(&r);
    }
    match tail_prefix_len(&ne, &nu) {
        Some(len) => {
            let r = append_remainder(&e, &uw, len);
            string_of(&r)
        },
        None => {
            let mut r = e.clone();
            r.push(' ');
            append_chars(&mut r, &u);
            string_of(&r)
        },
    }
}


/// Fewest samples (half a second at 16 kHz) before a live transcription is tried.
pub const LIVE_TRANSCRIPT_MIN_SAMPLES: usize = 16_000 / 2;

/// Fewest new samples (a third of a second) between two live transcriptions.
pub const LIVE_TRANSCRIPT_MIN_NEW_SAMPLES: usize = 16_000 / 3;

/// How many of the latest samples (three seconds) a live transcription covers.
pub const LIVE_TRANSCRIPT_ROLLING_WINDOW_SAMPLES: usize = 16_000 * 3;

/// Where the recording overlay sits.
#[derive(Clone, Copy, Debug, PartialEq, Eq, Structural)]
pub enum OverlayPosition {
    /// No overlay ("none" in the settings).
    Hidden,
    Top,
    Bottom,
}

/// Where the live transcript is shown.
#[derive(Clone, Copy, Debug, PartialEq, Eq, Structural)]
pub enum LiveTranscriptPosition {
    ExistingOverlay,
    NearCursor,
    BottomCenter,
}

/// The settings that decide whether and how the overlay shows.
#[derive(Clone, Copy, Debug)]
pub struct OverlaySettings {
    pub overlay_position: OverlayPosition,
    pub live_transcript_enabled: bool,
    pub live_transcript_position: LiveTranscriptPosition,
}

/// Whether the overlay window is shown at all: it is unless its position is
/// hidden and no live transcript needs a place of its own.
pub fn should_show_overlay(settings: &OverlaySettings) -> (b: bool)
    ensures
        b == (settings.overlay_position != OverlayPosition::Hidden || (
        settings.live_transcript_enabled && settings.live_transcript_position
            != LiveTranscriptPosition::ExistingOverlay)),
{
    settings.overlay_position != OverlayPosition::Hidden || (settings.live_transcript_enabled
        && settings.live_transcript_position != LiveTranscriptPosition::ExistingOverlay)
}

/// A point on the screen, in pixels.
#[derive(Clone, Copy, Debug)]
pub struct ScreenPosition {
    pub x: i32,
    pub y: i32,
}

/// The size of a monitor, in pixels.
#[derive(Clone, Copy, Debug)]
pub struct ScreenSize {
    pub width: u32,
    pub height: u32,
}

/// Whether the mouse at `mouse_pos` is on the monitor at `monitor_pos` of size
/// `monitor_size` (left and top edges included, right and bottom excluded).
/// The sizes are read as `i32`, and the far edges must be representable.
pub fn is_mouse_within_monitor(
    mouse_pos: (i32, i32),
    monitor_pos: &ScreenPosition,
    monitor_size: &ScreenSize,
) -> (b: bool)
    requires
        i32::MIN <= monitor_pos.x + (monitor_size.width as i32) <= i32::MAX,
        i32::MIN <= monitor_pos.y + (monitor_size.height as i32) <= i32::MAX,
    ensures
        b == (monitor_pos.x <= mouse_pos.0 < monitor_pos.x + (monitor_size.width as i32)
            && monitor_pos.y <= mouse_pos.1 < monitor_pos.y + (monitor_size.height as i32)),
{
    let (mouse_x, mouse_y) = mouse_pos;
    let width = monitor_size.width as i32;
    let height = monitor_size.height as i32;
    mouse_x >= monitor_pos.x && mouse_x < monitor_pos.x + width && mouse_y >= monitor_pos.y
        && mouse_y < monitor_pos.y + height
}

/// Whether a live transcription session starts: the live transcript is
/// enabled and the model is not unloaded right after each use.
pub fn live_session_wanted(live_transcript_enabled: bool, model_unloads_immediately: bool) -> (b:
    bool)
    ensures
        b == (live_transcript_enabled && !model_unloads_immediately),
{
    live_transcript_enabled && !model_unloads_immediately
}

/// The latest samples of a recording that a live transcription covers: the
/// last `LIVE_TRANSCRIPT_ROLLING_WINDOW_SAMPLES` of them, or all when fewer.
pub fn live_transcript_chunk<T: Copy>(samples: &[T]) -> (chunk: Vec<T>)
    ensures
        chunk@ == samples@.skip(
            saturating_diff(samples@.len() as int, LIVE_TRANSCRIPT_ROLLING_WINDOW_SAMPLES as int),
        ),
{
    let n = samples.len();
    let start: usize = if n >= LIVE_TRANSCRIPT_ROLLING_WINDOW_SAMPLES {
        n - LIVE_TRANSCRIPT_ROLLING_WINDOW_SAMPLES
    } else {
        0
    };
    let mut chunk: Vec<T> = Vec::new();
    let mut i: usize = start;
    while i < n
        invariant
            n == samples@.len(),
            start <= i <= n,
            chunk@ == samples@.subrange(start as int, i as int),
        decreases n - i,
    {
        chunk.push(samples[i]);
        assert(chunk@ =~= samples@.subrange(start as int, i + 1));
        i = i + 1;
    }
    assert(samples@.subrange(start as int, n as int) =~= samples@.skip(start as int));
    chunk
}

/// The text a stopped live session leaves: its latest partial transcript,
/// trimmed, unless that is blank.
pub fn finished_partial(latest: &str) -> (r: Option<String>)
    ensures
        match r {
            Some(t) => t@ == trim(latest@) && t@.len() > 0,
            None => trim(latest@).len() == 0,
        },
{
    let t = trim_text(latest);
    if t.as_str().unicode_len() == 0 {
        None
    } else {
        Some(t)
    }
}

/// The state of a live transcription session between two rounds.
#[derive(Debug)]
pub struct LiveTranscriptProgress {
    /// The recording length, in samples, at the last transcription tried.
    pub last_attempt_sample_len: usize,
    /// The running transcript.
    pub partial_text: String,
    /// The transcript last shown.
    pub last_emitted_text: String,
}

impl LiveTranscriptProgress {
    /// A session that has transcribed and shown nothing yet.
    pub fn new() -> (p: LiveTranscriptProgress)
        ensures
            p.last_attempt_sample_len == 0,
            p.partial_text@.len() == 0,
            p.last_emitted_text@.len() == 0,
    {
        LiveTranscriptProgress {
            last_attempt_sample_len: 0,
            partial_text: String::new(),
            last_emitted_text: String::new(),
        }
    }

    /// Whether a recording of `sample_len` samples is transcribed in this
    /// round: it holds enough samples, and enough new ones since the last try,
    /// which then becomes this one.
    pub fn should_transcribe(&mut self, sample_len: usize) -> (b: bool)
        ensures
            b == (sample_len >= LIVE_TRANSCRIPT_MIN_SAMPLES && saturating_diff(
                sample_len as int,
                old(self).last_attempt_sample_len as int,
            ) >= LIVE_TRANSCRIPT_MIN_NEW_SAMPLES),
            b ==> final(self).last_attempt_sample_len == sample_len,
            !b ==> final(self).last_attempt_sample_len == old(self).last_attempt_sample_len,
            final(self).partial_text == old(self).partial_text,
            final(self).last_emitted_text == old(self).last_emitted_text,
    {
        let new_samples: usize = if sample_len >= self.last_attempt_sample_len {
            sample_len - self.last_attempt_sample_len
        } else {
            0
        };
        if sample_len < LIVE_TRANSCRIPT_MIN_SAMPLES || new_samples < LIVE_TRANSCRIPT_MIN_NEW_SAMPLES {
            return false;
        }
        self.last_attempt_sample_len = sample_len;
        true
    }

    /// Takes in the transcription `text` of the latest window. A blank one
    /// changes nothing. Otherwise it is merged into the running transcript, and
    /// the transcript is returned to be shown when it differs from the one
    /// shown last.
    pub fn accept_transcription(&mut self, text: &str) -> (shown: Option<String>)
        ensures
            final(self).last_attempt_sample_len == old(self).last_attempt_sample_len,
            trim(text@).len() == 0 ==> shown is None && final(self).partial_text
                == old(self).partial_text && final(self).last_emitted_text
                == old(self).last_emitted_text,
            trim(text@).len() > 0 ==> {
                &&& final(self).partial_text@ == merged(old(self).partial_text@, trim(text@))
                &&& if final(self).partial_text@ != old(self).last_emitted_text@ {
                    &&& shown matches Some(t) && t@ == final(self).partial_text@
                    &&& final(self).last_emitted_text@ == final(self).partial_text@
                } else {
                    &&& shown is None
                    &&& final(self).last_emitted_text == old(self).last_emitted_text
                }
            },
    {
        let trimmed = trim_text(text);
        if trimmed.as_str().unicode_len() == 0 {
            return None;
        }
        self.partial_text = merge_live_partial(self.partial_text.as_str(), trimmed.as_str());
        if same_text(self.partial_text.as_str(), self.last_emitted_text.as_str()) {
            return None;
        }
        self.last_emitted_text = self.partial_text.clone();
        Some(self.partial_text.clone())
    }
}


/// Whether an on/off setting given as text is on: it is set, and once
/// trimmed and ASCII-lowercased it is none of "", "0", "false", "no", "off".
pub open spec fn flag_value_enabled(value: Option<Seq<char>>) -> bool {
    match value {
        Some(v) => {
            let w = ascii_lower_seq(trim(v));
            w != ""@ && w != "0"@ && w != "false"@ && w != "no"@ && w != "off"@
        },
        None => false,
    }
}

/// Whether the on/off setting `value` (absent when unset) is on.
pub fn flag_enabled(value: Option<&str>) -> (b: bool)
    ensures
        b == flag_value_enabled(
            match value {
                Some(v) => Some(v@),
                None => None,
            },
        ),
{
    match value {
        None => false,
        Some(v) => {
            let cs = chars_of(v);
            let t = strip_chars(&cs, false);
            let l = lower_chars(&t);
            let w = string_of(&l);
            let ws = w.as_str();
            !(same_text(ws, "") || same_text(ws, "0") || same_text(ws, "false") || same_text(
                ws,
                "no",
            ) || same_text(ws, "off"))
        },
    }
}

/// Size of the overlay without a live transcript, in logical pixels.
pub const OVERLAY_WIDTH: u32 = 172;
pub const OVERLAY_HEIGHT: u32 = 36;

/// Size of the overlay that shows a live transcript, in logical pixels.
pub const LIVE_OVERLAY_WIDTH: u32 = 560;
pub const LIVE_OVERLAY_HEIGHT: u32 = 220;

/// Width and height of the overlay: larger when it shows a live transcript.
pub fn overlay_dimensions(settings: &OverlaySettings) -> (dims: (u32, u32))
    ensures
        dims == (if settings.live_transcript_enabled {
            (LIVE_OVERLAY_WIDTH, LIVE_OVERLAY_HEIGHT)
        } else {
            (OVERLAY_WIDTH, OVERLAY_HEIGHT)
        }),
{
    if settings.live_transcript_enabled {
        (LIVE_OVERLAY_WIDTH, LIVE_OVERLAY_HEIGHT)
    } else {
        (OVERLAY_WIDTH, OVERLAY_HEIGHT)
    }
}

/// Where on the monitor the overlay goes.
#[derive(Clone, Copy, Debug, PartialEq, Eq, Structural)]
pub enum OverlayPlacement {
    /// Just below the mouse cursor.
    NearCursor,
    /// Centred at the top.
    Top,
    /// Centred at the bottom.
    Bottom,
}

/// Where the overlay goes: below the cursor when the live transcript is
/// enabled, asked for there, and the cursor position is known; at the bottom
/// for a live transcript asked for there; otherwise where the overlay
/// position says (a hidden overlay counts as the bottom).
pub fn overlay_placement(settings: &OverlaySettings, cursor_known: bool) -> (p: OverlayPlacement)
    ensures
        p == (if settings.live_transcript_enabled && settings.live_transcript_position
            == LiveTranscriptPosition::NearCursor && cursor_known {
            OverlayPlacement::NearCursor
        } else if settings.live_transcript_enabled && settings.live_transcript_position
            == LiveTranscriptPosition::BottomCenter {
            OverlayPlacement::Bottom
        } else if settings.overlay_position == OverlayPosition::Top {
            OverlayPlacement::Top
        } else {
            OverlayPlacement::Bottom
        }),
{
    if settings.live_transcript_enabled && settings.live_transcript_position
        == LiveTranscriptPosition::NearCursor && cursor_known {
        return OverlayPlacement::NearCursor;
    }
    match (settings.live_transcript_enabled, settings.live_transcript_position, settings.overlay_position) {
        (true, LiveTranscriptPosition::BottomCenter, _) => OverlayPlacement::Bottom,
        (_, _, OverlayPosition::Top) => OverlayPlacement::Top,
        (_, _, OverlayPosition::Bottom) | (_, _, OverlayPosition::Hidden) => OverlayPlacement::Bottom,
    }
}

} // verus!
