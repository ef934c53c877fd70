//! Fuzzy matching for the command palette.
//!
//! Commands and vault files are ranked against the same few keystrokes, so the
//! score has to mean something comparable across both:
//!
//! - The query must appear in order, but not contiguously.
//! - Matching the start of a word beats matching the middle of one.
//! - Runs of adjacent characters beat scattered ones.
//! - Matching the file's own name beats matching a folder along its path.

use vstd::prelude::*;

use crate::text::{
    char_is_uppercase, char_lowercase, chars_of, is_uppercase, lowercase_char, slice_chars,
};

verus! {

/// Characters after which the next character counts as starting a word.
pub open spec fn boundary_char(ch: char) -> bool {
    ch == ' ' || ch == '/' || ch == '\\' || ch == '-' || ch == '_' || ch == '.' || ch == '('
        || ch == '['
}

/// Whether `ch` ends a word, so the character after it starts one.
pub fn is_boundary(ch: char) -> (r: bool)
    ensures
        r == boundary_char(ch),
{
    ch == ' ' || ch == '/' || ch == '\\' || ch == '-' || ch == '_' || ch == '.' || ch == '('
        || ch == '['
}

/// The query, lowercased character by character (a character may lowercase
/// to several).
pub open spec fn lower_query(q: Seq<char>) -> Seq<char>
    decreases q.len(),
{
    if q.len() == 0 {
        seq![]
    } else {
        lower_query(q.drop_last()) + char_lowercase(q.last())
    }
}

/// The first character of a haystack character's lowercase form, which is
/// what a query character is compared with.
pub open spec fn first_lower(c: char) -> char {
    char_lowercase(c)[0]
}

/// The first position at or after `from` whose character matches `wanted`.
pub open spec fn next_match(hay: Seq<char>, from: int, wanted: char) -> Option<int>
    decreases hay.len() - from,
{
    if from < 0 || from >= hay.len() {
        None
    } else if first_lower(hay[from]) == wanted {
        Some(from)
    } else {
        next_match(hay, from + 1, wanted)
    }
}

/// What a gap of `gap` skipped characters costs: the gap taken as an `i32`
/// (wrapping past the largest `i32`), but at most eight.
pub open spec fn gap_charge(gap: int) -> int {
    let g = gap as i32;
    if g < 8 {
        g as int
    } else {
        8
    }
}

/// Points for matching at `at`, given where the previous character matched:
/// ten for the match, plus eighteen at the start of the text or of a word,
/// or ten at an uppercase letter inside a word; plus twelve when it extends a
/// run, or minus the gap charge when it does not.
pub open spec fn char_points(hay: Seq<char>, at: int, previous: Option<int>) -> int {
    let start = if at == 0 || boundary_char(hay[at - 1]) {
        18int
    } else if char_is_uppercase(hay[at]) {
        10int
    } else {
        0int
    };
    let run = match previous {
        Some(p) => if p == at - 1 {
            12int
        } else {
            -gap_charge(at - p - 1)
        },
        None => 0int,
    };
    10 + start + run
}

/// What a haystack of `n` characters costs: its length, taken as an `i32`
/// (wrapping past the largest `i32`), divided by twelve and rounded toward
/// zero.
pub open spec fn length_penalty(n: nat) -> int {
    let w = n as i32;
    if w >= 0 {
        w / 12
    } else {
        -((-w) / 12)
    }
}

proof fn lemma_length_penalty(n: nat)
    ensures
        -178_956_970 <= length_penalty(n) <= 178_956_970,
        n <= i32::MAX ==> length_penalty(n) == n / 12,
{
}

/// The score once the needle from position `i` on is matched greedily from
/// `from`, with `total` points so far; `None` when it runs out of haystack.
pub open spec fn score_from(
    hay: Seq<char>,
    needle: Seq<char>,
    i: int,
    from: int,
    previous: Option<int>,
    total: int,
) -> Option<int>
    decreases needle.len() - i,
{
    if i < 0 || i >= needle.len() {
        Some(total - length_penalty(hay.len()))
    } else {
        match next_match(hay, from, needle[i]) {
            None => None,
            Some(at) => score_from(
                hay,
                needle,
                i + 1,
                at + 1,
                Some(at),
                total + char_points(hay, at, previous),
            ),
        }
    }
}

/// Scoring the needle from position `i` on keeps every value it computes in
/// an `i32`: each character's points, each running total, and the total less
/// the length penalty.
pub open spec fn stays_in_i32(
    hay: Seq<char>,
    needle: Seq<char>,
    i: int,
    from: int,
    previous: Option<int>,
    total: int,
) -> bool
    decreases needle.len() - i,
{
    if i < 0 || i >= needle.len() {
        i32::MIN <= total - length_penalty(hay.len()) <= i32::MAX
    } else {
        match next_match(hay, from, needle[i]) {
            None => true,
            Some(at) => {
                let points = char_points(hay, at, previous);
                &&& points <= i32::MAX
                &&& total + points <= i32::MAX
                &&& stays_in_i32(hay, needle, i + 1, at + 1, Some(at), total + points)
            },
        }
    }
}

/// The score of `hay` against `query`: zero for an empty query, else the
/// greedy in-order match, less the length penalty.
pub open spec fn fuzzy_score(hay: Seq<char>, query: Seq<char>) -> Option<int> {
    if query.len() == 0 {
        Some(0)
    } else {
        score_from(hay, lower_query(query), 0, 0, None, 0)
    }
}

/// Scoring `hay` against `query` keeps its arithmetic within an `i32`.
pub open spec fn score_in_range(hay: Seq<char>, query: Seq<char>) -> bool {
    query.len() == 0 || stays_in_i32(hay, lower_query(query), 0, 0, None, 0)
}

proof fn lemma_next_match(hay: Seq<char>, from: int, wanted: char)
    requires
        0 <= from,
    ensures
        next_match(hay, from, wanted) matches Some(at) ==> from <= at < hay.len() && first_lower(
            hay[at],
        ) == wanted && (forall|j: int| from <= j < at ==> first_lower(hay[j]) != wanted),
        next_match(hay, from, wanted) is None ==> (forall|j: int|
            from <= j < hay.len() ==> first_lower(hay[j]) != wanted),
    decreases hay.len() - from,
{
    if from < hay.len() && first_lower(hay[from]) != wanted {
        lemma_next_match(hay, from + 1, wanted);
    }
}

proof fn lemma_char_points(hay: Seq<char>, at: int, previous: Option<int>)
    requires
        previous matches Some(p) ==> p < at && at - p - 1 <= i32::MAX,
    ensures
        2 <= char_points(hay, at, previous) <= 40,
        previous is None ==> 10 <= char_points(hay, at, previous) <= 28,
{
}

/// A score that stays in range fits in an `i32`.
proof fn lemma_stays_bounds(
    hay: Seq<char>,
    needle: Seq<char>,
    i: int,
    from: int,
    previous: Option<int>,
    total: int,
)
    requires
        stays_in_i32(hay, needle, i, from, previous, total),
    ensures
        score_from(hay, needle, i, from, previous, total) matches Some(v) ==> i32::MIN <= v
            <= i32::MAX,
    decreases needle.len() - i,
{
    if 0 <= i < needle.len() {
        match next_match(hay, from, needle[i]) {
            None => {},
            Some(at) => {
                lemma_stays_bounds(
                    hay,
                    needle,
                    i + 1,
                    at + 1,
                    Some(at),
                    total + char_points(hay, at, previous),
                );
            },
        }
    }
}

/// Every matched character earns between two and forty points, the first
/// between ten and twenty-eight, when no gap exceeds the largest `i32`.
proof fn lemma_score_points(
    hay: Seq<char>,
    needle: Seq<char>,
    i: int,
    from: int,
    previous: Option<int>,
    total: int,
)
    requires
        0 <= i <= needle.len(),
        0 <= from <= hay.len(),
        hay.len() <= i32::MAX,
        previous matches Some(p) ==> 0 <= p < from,
        previous is None <==> i == 0,
    ensures
        score_from(hay, needle, i, from, previous, total) matches Some(v) ==> {
            let r = v + length_penalty(hay.len()) - total;
            let m = needle.len() - i;
            &&& m <= hay.len() - from
            &&& i > 0 ==> 2 * m <= r <= 40 * m
            &&& i == 0 && m >= 1 ==> 10 + 2 * (m - 1) <= r <= 28 + 40 * (m - 1)
        },
    decreases needle.len() - i,
{
    if i < needle.len() {
        lemma_next_match(hay, from, needle[i]);
        match next_match(hay, from, needle[i]) {
            None => {},
            Some(at) => {
                assert(from <= at < hay.len());
                lemma_char_points(hay, at, previous);
                let cp = char_points(hay, at, previous);
                lemma_score_points(hay, needle, i + 1, at + 1, Some(at), total + cp);
                assert(score_from(hay, needle, i, from, previous, total) == score_from(
                    hay,
                    needle,
                    i + 1,
                    at + 1,
                    Some(at),
                    total + cp,
                ));
            },
        }
    }
}

proof fn lemma_stays_small(
    hay: Seq<char>,
    needle: Seq<char>,
    i: int,
    from: int,
    previous: Option<int>,
    total: int,
)
    requires
        0 <= i <= needle.len(),
        0 <= from <= hay.len(),
        40 * needle.len() + hay.len() <= i32::MAX,
        previous matches Some(p) ==> 0 <= p < from,
        0 <= total <= 40 * i,
    ensures
        stays_in_i32(hay, needle, i, from, previous, total),
    decreases needle.len() - i,
{
    if i < needle.len() {
        lemma_next_match(hay, from, needle[i]);
        match next_match(hay, from, needle[i]) {
            None => {},
            Some(at) => {
                assert(from <= at < hay.len());
                lemma_char_points(hay, at, previous);
                let cp = char_points(hay, at, previous);
                lemma_stays_small(hay, needle, i + 1, at + 1, Some(at), total + cp);
            },
        }
    } else {
        lemma_length_penalty(hay.len());
    }
}

/// Scoring stays within an `i32` whenever forty points for each lowercased
/// query character, plus the haystack's length, fit in one.
pub proof fn lemma_short_inputs_in_range(hay: Seq<char>, query: Seq<char>)
    requires
        40 * lower_query(query).len() + hay.len() <= i32::MAX,
    ensures
        score_in_range(hay, query),
{
    if query.len() > 0 {
        lemma_stays_small(hay, lower_query(query), 0, 0, None, 0);
    }
}

/// The query lowercased character by character.
fn lowered_needle(query: &str) -> (needle: Vec<char>)
    ensures
        needle@ == lower_query(query@),
        needle@.len() >= query@.len(),
{
    let query_chars = chars_of(query);
    let mut needle: Vec<char> = Vec::new();
    let mut q: usize = 0;
    while q < query_chars.len()
        invariant
            q <= query_chars@.len(),
            needle@ == lower_query(query_chars@.take(q as int)),
            needle@.len() >= q,
        decreases query_chars@.len() - q,
    {
        let lowered = lowercase_char(query_chars[q]);
        let mut k: usize = 0;
        let ghost before = needle@;
        while k < lowered.len()
            invariant
                k <= lowered@.len(),
                needle@ == before + lowered@.take(k as int),
            decreases lowered@.len() - k,
        {
            needle.push(lowered[k]);
            assert(lowered@.take(k + 1) =~= lowered@.take(k as int).push(lowered@[k as int]));
            k = k + 1;
        }
        proof {
            assert(lowered@.take(k as int) =~= lowered@);
            let t = query_chars@.take(q + 1);
            assert(t.drop_last() =~= query_chars@.take(q as int));
            assert(t.last() == query_chars@[q as int]);
        }
        q = q + 1;
    }
    assert(query_chars@.take(q as int) =~= query_chars@);
    needle
}

/// The greedy match of `needle` in `hay`, computed without bound on the
/// points, and whether every value the scoring computes stays in an `i32`.
fn scored(hay: &Vec<char>, needle: &Vec<char>) -> (r: (Option<i128>, bool))
    ensures
        r.0 matches Some(v) ==> score_from(hay@, needle@, 0, 0, None, 0) == Some(v as int),
        r.0 is None ==> score_from(hay@, needle@, 0, 0, None, 0) is None,
        r.1 == stays_in_i32(hay@, needle@, 0, 0, None, 0),
{
    let ghost h = hay@;
    let ghost n = needle@;
    let mut total: i128 = 0;
    let mut ok = true;
    let mut hay_index: usize = 0;
    let mut previous: Option<usize> = None;
    let ghost mut previous_int: Option<int> = None;
    let mut i: usize = 0;
    while i < needle.len()
        invariant
            h == hay@,
            n == needle@,
            i <= n.len(),
            i <= hay_index <= h.len(),
            0 <= total <= i * 3_000_000_000,
            previous_int == (match previous {
                Some(p) => Some(p as int),
                None => None,
            }),
            previous matches Some(p) ==> p < hay_index,
            score_from(h, n, 0, 0, None, 0) == score_from(
                h,
                n,
                i as int,
                hay_index as int,
                previous_int,
                total as int,
            ),
            stays_in_i32(h, n, 0, 0, None, 0) == (ok && stays_in_i32(
                h,
                n,
                i as int,
                hay_index as int,
                previous_int,
                total as int,
            )),
        decreases n.len() - i,
    {
        let wanted = needle[i];
        let mut j: usize = hay_index;
        proof {
            lemma_next_match(h, hay_index as int, wanted);
        }
        while j < hay.len() && lowercase_char(hay[j])[0] != wanted
            invariant
                h == hay@,
                hay_index <= j <= h.len(),
                next_match(h, hay_index as int, wanted) == next_match(h, j as int, wanted),
            decreases h.len() - j,
        {
            j = j + 1;
        }
        if j >= hay.len() {
            assert(next_match(h, j as int, wanted) is None);
            assert(n[i as int] == wanted);
            return (None, ok);
        }
        let at = j;
        let ch = hay[at];
        let mut points: i128 = 10;
        if at == 0 || is_boundary(hay[at - 1]) {
            points = points + 18;
        } else if is_uppercase(ch) {
            points = points + 10;
        }
        match previous {
            Some(p) => {
                if p + 1 == at {
                    points = points + 12;
                } else {
                    let g: i32 = #[verifier::truncate] ((at - p - 1) as i32);
                    let charge: i32 = if g < 8 {
                        g
                    } else {
                        8
                    };
                    points = points - charge as i128;
                }
            },
            None => {},
        }
        assert(points as int == char_points(h, at as int, previous_int));
        assert(points <= 2_200_000_000);
        ok = ok && points <= i32::MAX as i128 && total + points <= i32::MAX as i128;
        total = total + points;
        previous = Some(at);
        proof {
            previous_int = Some(at as int);
        }
        hay_index = at + 1;
        i = i + 1;
    }
    let w: i32 = #[verifier::truncate] (hay.len() as i32);
    let w64: i64 = w as i64;
    let p64: i64 = if w64 >= 0 {
        w64 / 12
    } else {
        -((-w64) / 12)
    };
    proof {
        lemma_length_penalty(h.len());
        assert(p64 == length_penalty(h.len()));
    }
    let result = total - p64 as i128;
    ok = ok && i32::MIN as i128 <= result && result <= i32::MAX as i128;
    (Some(result), ok)
}

/// Score `haystack` against `query`, or `None` when the query does not appear
/// in order. Higher is a better match; scores are only meaningful relative to
/// other scores for the same query.
pub fn score(haystack: &str, query: &str) -> (r: Option<i32>)
    requires
        score_in_range(haystack@, query@),
    ensures
        r matches Some(v) ==> fuzzy_score(haystack@, query@) == Some(v as int),
        r is None ==> fuzzy_score(haystack@, query@) is None,
        query@.len() > 0 && r is Some && haystack@.len() <= i32::MAX ==> ({
            let k = lower_query(query@).len();
            let s = r->0 + length_penalty(haystack@.len());
            &&& k >= 1
            &&& 10 + 2 * (k - 1) <= s <= 28 + 40 * (k - 1)
            &&& 0 <= s <= 40 * haystack@.len()
        }),
{
    if query.is_empty() {
        return Some(0);
    }
    let hay = chars_of(haystack);
    let needle = lowered_needle(query);
    let (result, ok) = scored(&hay, &needle);
    proof {
        lemma_stays_bounds(hay@, needle@, 0, 0, None, 0);
        if haystack@.len() <= i32::MAX {
            lemma_score_points(hay@, needle@, 0, 0, None, 0);
        }
    }
    match result {
        Some(v) => Some(v as i32),
        None => None,
    }
}

/// The part of a vault path after its last `/`, or the whole path.
pub open spec fn file_part(path: Seq<char>) -> Seq<char> {
    match last_index_of(path, '/') {
        Some(i) => path.skip(i + 1),
        None => path,
    }
}

/// The last position holding `c`, if any.
pub open spec fn last_index_of(s: Seq<char>, c: char) -> Option<int>
    decreases s.len(),
{
    if s.len() == 0 {
        None
    } else if s.last() == c {
        Some(s.len() - 1)
    } else {
        last_index_of(s.drop_last(), c)
    }
}

proof fn lemma_last_index_of(s: Seq<char>, c: char)
    ensures
        last_index_of(s, c) matches Some(i) ==> 0 <= i < s.len() && s[i] == c && (forall|j: int|
            i < j < s.len() ==> s[j] != c),
        last_index_of(s, c) is None ==> (forall|j: int| 0 <= j < s.len() ==> s[j] != c),
    decreases s.len(),
{
    if s.len() > 0 && s.last() != c {
        lemma_last_index_of(s.drop_last(), c);
        assert forall|j: int| 0 <= j < s.len() - 1 implies s[j] == s.drop_last()[j] by {}
    }
}

/// The larger of two optional scores.
pub open spec fn best_of(a: Option<int>, b: Option<int>) -> Option<int> {
    match (a, b) {
        (Some(x), Some(y)) => Some(if x >= y { x } else { y }),
        (Some(x), None) => Some(x),
        (None, Some(y)) => Some(y),
        (None, None) => None,
    }
}

/// The score of a vault path: the better of the whole path's score and the
/// file name's score plus twenty-four.
pub open spec fn path_score(path: Seq<char>, query: Seq<char>) -> Option<int> {
    let name = match fuzzy_score(file_part(path), query) {
        Some(s) => Some(s + 24),
        None => None,
    };
    best_of(fuzzy_score(path, query), name)
}

/// Scoring a path keeps its arithmetic within an `i32`: both scores stay in
/// range, and the file name's score leaves room for its twenty-four.
pub open spec fn path_score_in_range(path: Seq<char>, query: Seq<char>) -> bool {
    &&& score_in_range(path, query)
    &&& score_in_range(file_part(path), query)
    &&& fuzzy_score(file_part(path), query) matches Some(s) ==> s + 24 <= i32::MAX
}

/// The file name of a vault path: what follows its last `/`.
fn file_name_part(path: &str) -> (f: String)
    ensures
        f@ == file_part(path@),
{
    let chars = chars_of(path);
    let mut cut: usize = chars.len();
    let mut found = false;
    proof {
        lemma_last_index_of(path@, '/');
    }
    while cut > 0 && !found
        invariant
            cut <= chars@.len(),
            chars@ == path@,
            found ==> cut > 0 && chars@[cut - 1] == '/' && last_index_of(path@, '/') == Some(
                cut - 1,
            ),
            !found ==> forall|j: int| cut <= j < chars@.len() ==> chars@[j] != '/',
            last_index_of(path@, '/') matches Some(i) ==> 0 <= i < path@.len() && path@[i] == '/'
                && (forall|j: int| i < j < path@.len() ==> path@[j] != '/'),
            last_index_of(path@, '/') is None ==> (forall|j: int|
                0 <= j < path@.len() ==> path@[j] != '/'),
        decreases cut + (if found { 0int } else { 1int }),
    {
        if chars[cut - 1] == '/' {
            found = true;
        } else {
            cut = cut - 1;
        }
    }
    let name_chars = slice_chars(&chars, cut, chars.len());
    let filename = crate::text::string_of(&name_chars);
    assert(filename@ == file_part(path@)) by {
        if !found {
            assert(cut == 0);
            assert(name_chars@ =~= path@);
        }
    }
    filename
}

/// Score a vault path, favouring matches in the file's own name over matches
/// in the folders leading to it.
pub fn score_path(path: &str, query: &str) -> (r: Option<i32>)
    requires
        path_score_in_range(path@, query@),
    ensures
        r matches Some(v) ==> path_score(path@, query@) == Some(v as int),
        r is None ==> path_score(path@, query@) is None,
{
    let filename = file_name_part(path);
    let whole = score(path, query);
    let name = match score(&filename, query) {
        Some(s) => Some(s + 24),
        None => None,
    };
    match (whole, name) {
        (Some(a), Some(b)) => Some(if a >= b { a } else { b }),
        (Some(a), None) => Some(a),
        (None, Some(b)) => Some(b),
        (None, None) => None,
    }
}

/// Whether scoring `haystack` against `query` stays within an `i32`, as
/// `score_in_range` states.
fn in_range(haystack: &str, query: &str) -> (r: bool)
    ensures
        r == score_in_range(haystack@, query@),
{
    if query.is_empty() {
        return true;
    }
    let hay = chars_of(haystack);
    let needle = lowered_needle(query);
    let (_, ok) = scored(&hay, &needle);
    ok
}

/// [`score`] where its arithmetic stays within an `i32`; `None` where it
/// would not.
pub fn score_checked(haystack: &str, query: &str) -> (r: Option<Option<i32>>)
    ensures
        r is Some <==> score_in_range(haystack@, query@),
        r matches Some(s) ==> (s matches Some(v) ==> fuzzy_score(haystack@, query@) == Some(
            v as int,
        )) && (s is None ==> fuzzy_score(haystack@, query@) is None),
{
    if in_range(haystack, query) {
        Some(score(haystack, query))
    } else {
        None
    }
}

/// [`score_path`] where its arithmetic stays within an `i32`; `None` where
/// it would not.
pub fn score_path_checked(path: &str, query: &str) -> (r: Option<Option<i32>>)
    ensures
        r is Some <==> path_score_in_range(path@, query@),
        r matches Some(s) ==> (s matches Some(v) ==> path_score(path@, query@) == Some(v as int))
            && (s is None ==> path_score(path@, query@) is None),
{
    let filename = file_name_part(path);
    if !in_range(path, query) || !in_range(&filename, query) {
        return None;
    }
    match score(&filename, query) {
        Some(s) => {
            if s > i32::MAX - 24 {
                return None;
            }
        },
        None => {},
    }
    Some(score_path(path, query))
}

/// `idx` picks, in strictly increasing order and at or after `from`, a
/// haystack position for each needle character whose lowercase form starts
/// with it.
pub open spec fn picks_in_order(hay: Seq<char>, needle: Seq<char>, from: int, idx: Seq<int>) -> bool {
    &&& idx.len() == needle.len()
    &&& forall|k: int|
        0 <= k < idx.len() ==> from <= #[trigger] idx[k] < hay.len() && first_lower(hay[idx[k]])
            == needle[k]
    &&& forall|j: int, k: int| 0 <= j < k < idx.len() ==> #[trigger] idx[j] < #[trigger] idx[k]
}

/// The needle occurs in the haystack in order, not necessarily contiguously,
/// at or after `from`.
pub open spec fn occurs_in_order(hay: Seq<char>, needle: Seq<char>, from: int) -> bool {
    exists|idx: Seq<int>| picks_in_order(hay, needle, from, idx)
}

proof fn lemma_score_from_in_order(
    hay: Seq<char>,
    needle: Seq<char>,
    i: int,
    from: int,
    previous: Option<int>,
    total: int,
)
    requires
        0 <= i <= needle.len(),
        0 <= from,
    ensures
        score_from(hay, needle, i, from, previous, total) is Some <==> occurs_in_order(
            hay,
            needle.skip(i),
            from,
        ),
    decreases needle.len() - i,
{
    let rest = needle.skip(i);
    if i == needle.len() {
        assert(picks_in_order(hay, rest, from, Seq::<int>::empty()));
    } else {
        lemma_next_match(hay, from, needle[i]);
        match next_match(hay, from, needle[i]) {
            None => {
                if occurs_in_order(hay, rest, from) {
                    let idx = choose|idx: Seq<int>| picks_in_order(hay, rest, from, idx);
                    assert(from <= idx[0] < hay.len());
                    assert(first_lower(hay[idx[0]]) == rest[0]);
                    assert(false);
                }
            },
            Some(at) => {
                lemma_score_from_in_order(
                    hay,
                    needle,
                    i + 1,
                    at + 1,
                    Some(at),
                    total + char_points(hay, at, previous),
                );
                let tail = needle.skip(i + 1);
                let next = at + 1;
                assert(rest.drop_first() =~= tail);
                if occurs_in_order(hay, tail, next) {
                    let t = choose|t: Seq<int>| picks_in_order(hay, tail, next, t);
                    let idx = seq![at] + t;
                    assert forall|k: int| 0 <= k < idx.len() implies from <= #[trigger] idx[k]
                        < hay.len() && first_lower(hay[idx[k]]) == rest[k] by {
                        if k > 0 {
                            assert(idx[k] == t[k - 1]);
                            assert(rest[k] == tail[k - 1]);
                        }
                    }
                    assert forall|j: int, k: int|
                        0 <= j < k < idx.len() implies #[trigger] idx[j] < #[trigger] idx[k] by {
                        assert(idx[k] == t[k - 1]);
                        if j > 0 {
                            assert(idx[j] == t[j - 1]);
                        }
                    }
                    assert(picks_in_order(hay, rest, from, idx));
                }
                if occurs_in_order(hay, rest, from) {
                    let idx = choose|idx: Seq<int>| picks_in_order(hay, rest, from, idx);
                    assert(from <= idx[0]);
                    assert(first_lower(hay[idx[0]]) == needle[i]);
                    assert(at <= idx[0]);
                    let t = idx.drop_first();
                    assert forall|k: int| 0 <= k < t.len() implies at + 1 <= #[trigger] t[k]
                        < hay.len() && first_lower(hay[t[k]]) == tail[k] by {
                        assert(t[k] == idx[k + 1]);
                        assert(idx[0] < idx[k + 1]);
                        assert(tail[k] == rest[k + 1]);
                    }
                    assert forall|j: int, k: int|
                        0 <= j < k < t.len() implies #[trigger] t[j] < #[trigger] t[k] by {
                        assert(t[j] == idx[j + 1]);
                        assert(t[k] == idx[k + 1]);
                    }
                    assert(picks_in_order(hay, tail, at + 1, t));
                }
            },
        }
    }
}

/// The query must appear in order: a haystack scores exactly when the
/// lowercased query occurs in it in order, not necessarily contiguously.
pub proof fn lemma_score_requires_order(hay: Seq<char>, query: Seq<char>)
    ensures
        fuzzy_score(hay, query) is Some <==> occurs_in_order(hay, lower_query(query), 0),
{
    if query.len() == 0 {
        assert(lower_query(query) =~= Seq::<char>::empty());
        assert(picks_in_order(hay, lower_query(query), 0, Seq::<int>::empty()));
    } else {
        lemma_score_from_in_order(hay, lower_query(query), 0, 0, None, 0);
        assert(lower_query(query).skip(0) =~= lower_query(query));
    }
}

/// A path scores at least as well as its whole text does, and at least
/// twenty-four more than its file name alone does.
pub proof fn lemma_path_score_dominates(path: Seq<char>, query: Seq<char>)
    ensures
        fuzzy_score(path, query) matches Some(a) ==> path_score(path, query) matches Some(p)
            && p >= a,
        fuzzy_score(file_part(path), query) matches Some(b) ==> path_score(
            path,
            query,
        ) matches Some(p) && p >= b + 24,
        path_score(path, query) is Some <==> fuzzy_score(path, query) is Some,
{
    lemma_last_index_of(path, '/');
    match last_index_of(path, '/') {
        Some(i) => {
            lemma_score_requires_order(path, query);
            lemma_score_requires_order(file_part(path), query);
            if fuzzy_score(file_part(path), query) is Some {
                lemma_suffix_in_order(path, lower_query(query), i + 1);
            }
        },
        None => {},
    }
}

/// What occurs in order in a suffix of a haystack occurs in order in the
/// haystack.
proof fn lemma_suffix_in_order(hay: Seq<char>, needle: Seq<char>, off: int)
    requires
        0 <= off <= hay.len(),
        occurs_in_order(hay.skip(off), needle, 0),
    ensures
        occurs_in_order(hay, needle, 0),
{
    let tail = hay.skip(off);
    let idx = choose|idx: Seq<int>| picks_in_order(tail, needle, 0, idx);
    let moved = Seq::new(idx.len(), |k: int| idx[k] + off);
    assert forall|k: int| 0 <= k < moved.len() implies 0 <= #[trigger] moved[k] < hay.len()
        && first_lower(hay[moved[k]]) == needle[k] by {
        assert(0 <= idx[k] < tail.len());
        assert(tail[idx[k]] == hay[idx[k] + off]);
    }
    assert forall|j: int, k: int| 0 <= j < k < moved.len() implies #[trigger] moved[j]
        < #[trigger] moved[k] by {
        assert(idx[j] < idx[k]);
    }
    assert(picks_in_order(hay, needle, 0, moved));
}


proof fn lemma_first_match_at(hay: Seq<char>, from: int, wanted: char, at: int)
    requires
        0 <= from <= at < hay.len(),
        first_lower(hay[at]) == wanted,
        forall|j: int| from <= j < at ==> first_lower(hay[j]) != wanted,
    ensures
        next_match(hay, from, wanted) == Some(at),
{
    lemma_next_match(hay, from, wanted);
    match next_match(hay, from, wanted) {
        Some(x) => {
            if x < at {
                assert(first_lower(hay[x]) != wanted);
            }
            if x > at {
                assert(first_lower(hay[at]) != wanted);
            }
        },
        None => {
            assert(first_lower(hay[at]) != wanted);
        },
    }
}

/// A one-character query scores at its first match: ten points, plus
/// eighteen when that match starts the text or follows a space, `/`, `\`,
/// `-`, `_`, `.`, `(` or `[`, or else ten when it is an uppercase letter;
/// less one point per twelve haystack characters.
pub proof fn lemma_single_character_score(hay: Seq<char>, qc: char, w: char, at: int)
    requires
        char_lowercase(qc) == seq![w],
        0 <= at < hay.len() <= i32::MAX,
        first_lower(hay[at]) == w,
        forall|j: int| 0 <= j < at ==> first_lower(hay[j]) != w,
    ensures
        fuzzy_score(hay, seq![qc]) == Some(
            (if at == 0 || hay[at - 1] == ' ' || hay[at - 1] == '/' || hay[at - 1] == '\\'
                || hay[at - 1] == '-' || hay[at - 1] == '_' || hay[at - 1] == '.' || hay[at - 1]
                == '(' || hay[at - 1] == '[' {
                28int
            } else if char_is_uppercase(hay[at]) {
                20int
            } else {
                10int
            }) - hay.len() / 12,
        ),
{
    let q = seq![qc];
    assert(q.drop_last() =~= Seq::<char>::empty());
    assert(lower_query(q.drop_last()) =~= Seq::<char>::empty());
    assert(q.last() == qc);
    assert(lower_query(q) == lower_query(q.drop_last()) + char_lowercase(qc));
    assert(lower_query(q) =~= seq![w]);
    let n = lower_query(q);
    lemma_first_match_at(hay, 0, w, at);
    lemma_length_penalty(hay.len());
    assert(score_from(hay, n, 1, at + 1, Some(at), char_points(hay, at, None)) == Some(
        char_points(hay, at, None) - length_penalty(hay.len()),
    ));
}

/// A two-character query scores at the first match of its first character
/// and the first match of its second after that: each earns ten, plus
/// eighteen at the start of the text or after a space, `/`, `\`, `-`, `_`,
/// `.`, `(` or `[`, or else ten at an uppercase letter; the second earns
/// twelve more when it directly follows the first, or loses one point per
/// character skipped, at most eight; and one point per twelve haystack
/// characters is taken off.
pub proof fn lemma_two_character_score(
    hay: Seq<char>,
    q1: char,
    q2: char,
    w1: char,
    w2: char,
    a: int,
    b: int,
)
    requires
        char_lowercase(q1) == seq![w1],
        char_lowercase(q2) == seq![w2],
        0 <= a < b < hay.len() <= i32::MAX,
        first_lower(hay[a]) == w1,
        forall|j: int| 0 <= j < a ==> first_lower(hay[j]) != w1,
        first_lower(hay[b]) == w2,
        forall|j: int| a < j < b ==> first_lower(hay[j]) != w2,
    ensures
        ({
            let sa = if a == 0 || hay[a - 1] == ' ' || hay[a - 1] == '/' || hay[a - 1] == '\\'
                || hay[a - 1] == '-' || hay[a - 1] == '_' || hay[a - 1] == '.' || hay[a - 1] == '('
                || hay[a - 1] == '[' {
                28int
            } else if char_is_uppercase(hay[a]) {
                20int
            } else {
                10int
            };
            let sb = if hay[b - 1] == ' ' || hay[b - 1] == '/' || hay[b - 1] == '\\' || hay[b - 1]
                == '-' || hay[b - 1] == '_' || hay[b - 1] == '.' || hay[b - 1] == '(' || hay[b - 1]
                == '[' {
                28int
            } else if char_is_uppercase(hay[b]) {
                20int
            } else {
                10int
            };
            let link = if b == a + 1 {
                12int
            } else if b - a - 1 < 8 {
                -(b - a - 1)
            } else {
                -8int
            };
            fuzzy_score(hay, seq![q1, q2]) == Some(sa + sb + link - hay.len() / 12)
        }),
{
    let q = seq![q1, q2];
    assert(q.drop_last() =~= seq![q1]);
    assert(seq![q1].drop_last() =~= Seq::<char>::empty());
    assert(lower_query(seq![q1].drop_last()) =~= Seq::<char>::empty());
    assert(seq![q1].last() == q1);
    assert(lower_query(seq![q1]) == lower_query(seq![q1].drop_last()) + char_lowercase(q1));
    assert(lower_query(seq![q1]) =~= seq![w1]);
    assert(q.last() == q2);
    assert(lower_query(q) == lower_query(seq![q1]) + char_lowercase(q2));
    assert(lower_query(q) =~= seq![w1, w2]);
    let n = lower_query(q);
    lemma_first_match_at(hay, 0, w1, a);
    lemma_first_match_at(hay, a + 1, w2, b);
    lemma_length_penalty(hay.len());
    let pa = char_points(hay, a, None);
    let pb = char_points(hay, b, Some(a));
    assert(score_from(hay, n, 2, b + 1, Some(b), pa + pb) == Some(pa + pb - length_penalty(hay.len())));
    assert(score_from(hay, n, 1, a + 1, Some(a), pa) == score_from(hay, n, 2, b + 1, Some(b), pa + pb));
}
} // verus!
