//! How a query matches a text: subsequence matches with a score, substring matches in prose, and
//! the excerpt that shows one.
//!
//! Indices are character indices (not bytes), so highlights are safe on non-ASCII descriptions.

use vstd::prelude::*;

use crate::text::{
    ascii_lower, chars_of, lower_ascii, slice_string, stands, stands_at,
};

verus! {

/// The largest score there is room for.
pub const MAX_SCORE: i32 = 0x7fff_ffff;

/// How much of the surrounding text an excerpt shows on each side.
pub const CONTEXT: usize = 24;

// ── lower case ─────────────────────────────────────────────────────────────

/// The lowercase mapping of a character, as [`char::to_lowercase`] yields it.
pub uninterp spec fn char_lower(c: char) -> Seq<char>;

/// Calls [`char::to_lowercase`]. Claims that what it yields depends on the character alone, and that
/// it is one or more characters.
#[verifier::external_body]
fn lower_char(c: char) -> (r: Vec<char>)
    ensures
        r@ == char_lower(c),
        r@.len() >= 1,
{
    c.to_lowercase().collect()
}

/// The lowercase equivalent of a text, as [`str::to_lowercase`] returns it.
pub uninterp spec fn text_lower(s: Seq<char>) -> Seq<char>;

/// Calls [`str::to_lowercase`]. Claims that its result depends on the text alone.
#[verifier::external_body]
fn lower_text(s: &str) -> (r: String)
    ensures
        r@ == text_lower(s@),
{
    s.to_lowercase()
}

/// The lowercase mappings of the characters of `s`, one after the other.
pub open spec fn lowered(s: Seq<char>) -> Seq<char>
    decreases s.len(),
{
    if s.len() == 0 {
        Seq::empty()
    } else {
        lowered(s.drop_last()) + char_lower(s.last())
    }
}

/// The lowercase mappings of the characters of `v`, one after the other.
pub fn lower_chars(v: &Vec<char>) -> (r: Vec<char>)
    ensures
        r@ == lowered(v@),
        r@.len() >= v@.len(),
{
    let mut out: Vec<char> = Vec::new();
    let mut i: usize = 0;
    assert(v@.take(0) =~= Seq::<char>::empty());
    while i < v.len()
        invariant
            i <= v@.len(),
            out@ == lowered(v@.take(i as int)),
            out@.len() >= i,
        decreases v@.len() - i,
    {
        assert(v@.take(i as int + 1).drop_last() =~= v@.take(i as int));
        let mut more = lower_char(v[i]);
        out.append(&mut more);
        i = i + 1;
    }
    assert(v@.take(i as int) =~= v@);
    out
}

// ── subsequence matches ────────────────────────────────────────────────────

/// A query found as a subsequence of a target.
#[derive(Debug, Clone, PartialEq)]
pub struct FuzzyMatch {
    pub score: i32,
    /// Character indices into the target that matched.
    pub indices: Vec<usize>,
}

/// Model of a [`FuzzyMatch`].
#[verifier::ext_equal]
pub struct FuzzyModel {
    pub score: int,
    pub indices: Seq<int>,
}

/// Indices as numbers.
pub open spec fn as_ints(s: Seq<usize>) -> Seq<int> {
    s.map_values(|i: usize| i as int)
}

impl DeepView for FuzzyMatch {
    type V = FuzzyModel;

    open spec fn deep_view(&self) -> FuzzyModel {
        FuzzyModel { score: self.score as int, indices: as_ints(self.indices@) }
    }
}

/// The two characters are the same but for the case of an ASCII letter.
pub open spec fn alike(a: char, b: char) -> bool {
    ascii_lower(a) == ascii_lower(b)
}

/// The leftmost places in `t` that spell the longest beginning of `q` they can.
pub open spec fn leftmost(q: Seq<char>, t: Seq<char>) -> Seq<int>
    decreases t.len(),
{
    if t.len() == 0 {
        Seq::empty()
    } else {
        let before = leftmost(q, t.drop_last());
        if before.len() < q.len() && alike(t.last(), q[before.len() as int]) {
            before.push(t.len() - 1)
        } else {
            before
        }
    }
}

/// `places` are increasing places in `t` that spell `q`.
pub open spec fn spells(q: Seq<char>, t: Seq<char>, places: Seq<int>) -> bool {
    &&& places.len() == q.len()
    &&& forall|i: int| 0 <= i < places.len() ==> 0 <= #[trigger] places[i] < t.len()
    &&& forall|i: int, j: int|
        0 <= i < j < places.len() ==> #[trigger] places[i] < #[trigger] places[j]
    &&& forall|i: int| 0 <= i < places.len() ==> alike(t[#[trigger] places[i]], q[i])
}

/// How many matches run on without a gap up to the match `i`, that one not counted.
pub open spec fn streak(places: Seq<int>, i: int) -> int
    decreases i,
{
    if 0 < i < places.len() && places[i] == places[i - 1] + 1 {
        streak(places, i - 1) + 1
    } else {
        0
    }
}

/// What the match `i` adds to the score: more within a streak, and more at the start of the target,
/// behind a separator, or at a capital.
pub open spec fn gain(target: Seq<char>, places: Seq<int>, i: int) -> int {
    let run = streak(places, i);
    let at = places[i];
    let flow = if run > 0 { 4 + 2 * run } else { 1 };
    let edge = if at == 0 {
        8int
    } else if target[at - 1] == '_' || target[at - 1] == '-' || target[at - 1] == '.' {
        7
    } else if 'A' <= target[at] <= 'Z' {
        5
    } else {
        0
    };
    flow + edge
}

/// What the first `n` matches add to the score.
pub open spec fn gains(target: Seq<char>, places: Seq<int>, n: nat) -> int
    decreases n,
{
    if n == 0 {
        0
    } else {
        gains(target, places, (n - 1) as nat) + gain(target, places, n - 1)
    }
}

/// `a / b` rounded to the nearest integer, halves up.
pub open spec fn nearest(a: int, b: int) -> int {
    (2 * a + b) / (2 * b)
}

/// One, or `n` where that is more.
pub open spec fn at_least_one(n: int) -> int {
    if n < 1 { 1 } else { n }
}

/// The match of the folded query `q` in the folded target `t`; `target` is the target as written and
/// `query_len` the length of the query as written.
pub open spec fn folded_match(
    query_len: int,
    q: Seq<char>,
    t: Seq<char>,
    target: Seq<char>,
) -> Option<FuzzyModel> {
    let places = leftmost(q, t);
    if places.len() < q.len() {
        None
    } else {
        Some(
            FuzzyModel {
                score: gains(target, places, places.len()) + nearest(
                    8 * query_len,
                    at_least_one(target.len() as int),
                ),
                indices: places,
            },
        )
    }
}

/// Query and target in lower case, or both as written where lower case would lengthen or shorten
/// the target.
pub open spec fn folded(query: Seq<char>, target: Seq<char>) -> (Seq<char>, Seq<char>) {
    if lowered(target).len() == target.len() {
        (lowered(query), lowered(target))
    } else {
        (query, target)
    }
}

/// The subsequence match of `query` in `target`.
pub open spec fn fuzzy(query: Seq<char>, target: Seq<char>) -> Option<FuzzyModel> {
    if query.len() == 0 {
        Some(FuzzyModel { score: 0, indices: Seq::empty() })
    } else {
        let (q, t) = folded(query, target);
        folded_match(query.len() as int, q, t, target)
    }
}

/// There is room for the score of a match, where there is one.
pub open spec fn has_room(m: Option<FuzzyModel>) -> bool {
    m matches Some(f) ==> f.score <= MAX_SCORE
}

proof fn lemma_leftmost(q: Seq<char>, t: Seq<char>)
    ensures
        leftmost(q, t).len() <= q.len(),
        leftmost(q, t).len() <= t.len(),
        forall|i: int|
            0 <= i < leftmost(q, t).len() ==> 0 <= #[trigger] leftmost(q, t)[i] < t.len(),
        forall|i: int, j: int|
            0 <= i < j < leftmost(q, t).len() ==> #[trigger] leftmost(q, t)[i]
                < #[trigger] leftmost(q, t)[j],
        forall|i: int|
            0 <= i < leftmost(q, t).len() ==> alike(t[#[trigger] leftmost(q, t)[i]], q[i]),
    decreases t.len(),
{
    if t.len() > 0 {
        lemma_leftmost(q, t.drop_last());
        let before = leftmost(q, t.drop_last());
        let now = leftmost(q, t);
        assert forall|i: int| 0 <= i < now.len() implies alike(t[#[trigger] now[i]], q[i]) by {
            if i < before.len() {
                assert(now[i] == before[i]);
                assert(t.drop_last()[before[i]] == t[now[i]]);
            }
        }
    }
}

proof fn lemma_leftmost_longest(q: Seq<char>, t: Seq<char>, places: Seq<int>, m: nat)
    requires
        m <= q.len(),
        spells(q.take(m as int), t, places),
    ensures
        leftmost(q, t).len() >= m,
    decreases t.len(),
{
    if m > 0 {
        assert(0 <= places[m - 1] < t.len());
        let rest = t.drop_last();
        if places[m - 1] == t.len() - 1 {
            let fewer = places.drop_last();
            assert forall|i: int| 0 <= i < fewer.len() implies 0 <= #[trigger] fewer[i] < rest.len() by {
                assert(places[i] < places[m - 1]);
            }
            assert forall|i: int| 0 <= i < fewer.len() implies alike(
                rest[#[trigger] fewer[i]],
                q.take(m - 1)[i],
            ) by {
                assert(places[i] < places[m - 1]);
                assert(alike(t[places[i]], q.take(m as int)[i]));
            }
            lemma_leftmost_longest(q, rest, fewer, (m - 1) as nat);
            lemma_leftmost(q, rest);
            assert(alike(t[places[m - 1]], q.take(m as int)[m - 1]));
        } else {
            assert forall|i: int| 0 <= i < places.len() implies 0 <= #[trigger] places[i]
                < rest.len() by {
                if i < m - 1 {
                    assert(places[i] < places[m - 1]);
                }
            }
            assert forall|i: int| 0 <= i < places.len() implies alike(
                rest[#[trigger] places[i]],
                q.take(m as int)[i],
            ) by {
                assert(rest[places[i]] == t[places[i]]);
            }
            lemma_leftmost_longest(q, rest, places, m);
        }
    }
}

/// A query matches exactly the targets it is a subsequence of, but for the case of letters, and the
/// places reported spell it.
pub proof fn matches_are_subsequences(query_len: int, q: Seq<char>, t: Seq<char>, target: Seq<char>)
    ensures
        folded_match(query_len, q, t, target) is Some <==> exists|places: Seq<int>|
            #[trigger] spells(q, t, places),
        folded_match(query_len, q, t, target) matches Some(m) ==> spells(q, t, m.indices),
{
    lemma_leftmost(q, t);
    if leftmost(q, t).len() == q.len() {
        assert(spells(q, t, leftmost(q, t)));
    }
    if exists|places: Seq<int>| #[trigger] spells(q, t, places) {
        let places = choose|places: Seq<int>| #[trigger] spells(q, t, places);
        assert(q.take(q.len() as int) =~= q);
        lemma_leftmost_longest(q, t, places, q.len());
    }
}

proof fn lemma_streak(places: Seq<int>, i: int)
    requires
        0 <= i,
    ensures
        0 <= streak(places, i) <= i,
    decreases i,
{
    if 0 < i < places.len() && places[i] == places[i - 1] + 1 {
        lemma_streak(places, i - 1);
    }
}

proof fn lemma_gains_grow(target: Seq<char>, places: Seq<int>, m: nat, n: nat)
    requires
        m <= n,
    ensures
        gains(target, places, m) <= gains(target, places, n),
    decreases n,
{
    if m < n {
        lemma_gains_grow(target, places, m, (n - 1) as nat);
        lemma_streak(places, n - 1);
    }
}

/// Matches a folded query in a folded target, where there is room for the score. `target` is the
/// target as written, place for place that of `t`, and `query_len` the length of the query as written.
pub fn match_folded(query_len: usize, q: &Vec<char>, t: &Vec<char>, target: &Vec<char>) -> (r: Option<
    Option<FuzzyMatch>,
>)
    requires
        t@.len() == target@.len(),
    ensures
        r is Some <==> has_room(folded_match(query_len as int, q@, t@, target@)),
        r matches Some(m) ==> m.deep_view() == folded_match(query_len as int, q@, t@, target@),
        r matches Some(Some(m)) ==> 0 <= m.score,
{
    let mut places: Vec<usize> = Vec::new();
    let mut i: usize = 0;
    assert(t@.take(0) =~= Seq::<char>::empty());
    assert(as_ints(places@) =~= Seq::<int>::empty());
    while i < t.len()
        invariant
            i <= t@.len(),
            as_ints(places@) == leftmost(q@, t@.take(i as int)),
            places@.len() <= q@.len(),
        decreases t@.len() - i,
    {
        assert(t@.take(i as int + 1).drop_last() =~= t@.take(i as int));
        let ghost before = places@;
        assert(as_ints(places@).len() == places@.len());
        if places.len() < q.len() && lower_ascii(t[i]) == lower_ascii(q[places.len()]) {
            places.push(i);
            assert(as_ints(places@) =~= as_ints(before).push(i as int));
        }
        i = i + 1;
    }
    assert(t@.take(i as int) =~= t@);
    let ghost spots = leftmost(q@, t@);
    assert(as_ints(places@).len() == places@.len());
    if places.len() < q.len() {
        return Some(None);
    }
    let len: u128 = if target.len() < 1 { 1 } else { target.len() as u128 };
    let share: u128 = (2 * (8 * query_len as u128) + len) / (2 * len);
    proof {
        lemma_leftmost(q@, t@);
        assert(share == nearest(8 * query_len, len as int));
        assert(share <= 16 * query_len + 1) by (nonlinear_arith)
            requires
                share == (2 * (8 * query_len) + len) / (2 * len),
                len >= 1,
                query_len >= 0,
        ;
    }
    let n: usize = places.len();
    let mut score: u128 = 0;
    let mut run: u128 = 0;
    let mut k: usize = 0;
    while k < n
        invariant
            k <= n,
            n == places@.len(),
            t@.len() == target@.len(),
            spots == as_ints(places@),
            spots.len() == n,
            forall|i: int| 0 <= i < spots.len() ==> 0 <= #[trigger] spots[i] < t@.len(),
            folded_match(query_len as int, q@, t@, target@) matches Some(m) && m.score == gains(
                target@,
                spots,
                n as nat,
            ) + share,
            score == gains(target@, spots, k as nat),
            score <= MAX_SCORE,
            k > 0 ==> run == streak(spots, k - 1),
            k == 0 ==> run == 0,
            run <= k,
        decreases n - k,
    {
        let at = places[k];
        assert(spots[k as int] == at as int);
        proof {
            lemma_streak(spots, k as int);
        }
        let mut follows: bool = false;
        if k > 0 {
            let last = places[k - 1];
            assert(spots[k - 1] == last as int);
            follows = at > last && at - last == 1;
        }
        if follows {
            run = run + 1;
            score = score + (4 + run * 2);
        } else {
            run = 0;
            score = score + 1;
        }
        if at == 0 {
            score = score + 8;
        } else {
            let left = target[at - 1];
            let here = target[at];
            if left == '_' || left == '-' || left == '.' {
                score = score + 7;
            } else if 'A' <= here && here <= 'Z' {
                score = score + 5;
            }
        }
        k = k + 1;
        if score > MAX_SCORE as u128 {
            proof {
                lemma_gains_grow(target@, spots, k as nat, n as nat);
            }
            return None;
        }
    }
    let total: u128 = score + share;
    if total > MAX_SCORE as u128 {
        return None;
    }
    Some(Some(FuzzyMatch { score: total as i32, indices: places }))
}

/// The subsequence match of `query` in `target`, where there is room for its score.
pub fn fit_score(query: &str, target: &str) -> (r: Option<Option<FuzzyMatch>>)
    ensures
        r is Some <==> has_room(fuzzy(query@, target@)),
        r matches Some(m) ==> m.deep_view() == fuzzy(query@, target@),
        r matches Some(Some(m)) ==> 0 <= m.score,
{
    let written = chars_of(query);
    if written.len() == 0 {
        let r = FuzzyMatch { score: 0, indices: Vec::new() };
        assert(as_ints(r.indices@) =~= Seq::<int>::empty());
        return Some(Some(r));
    }
    let name = chars_of(target);
    let t = lower_chars(&name);
    let q = lower_chars(&written);
    if t.len() == name.len() {
        match_folded(written.len(), &q, &t, &name)
    } else {
        match_folded(written.len(), &written, &name, &name)
    }
}

/// Subsequence match with streak and boundary bonuses. `None` when the query is not a subsequence of
/// the target. An empty query matches with score 0.
pub fn fuzzy_score(query: &str, target: &str) -> (r: Option<FuzzyMatch>)
    requires
        has_room(fuzzy(query@, target@)),
    ensures
        r.deep_view() == fuzzy(query@, target@),
        r matches Some(m) ==> 0 <= m.score,
{
    match fit_score(query, target) {
        Some(m) => m,
        None => None,
    }
}

// ── prose ──────────────────────────────────────────────────────────────────

/// A query found in free-form text.
#[derive(Debug, Clone, Copy, PartialEq)]
pub struct ProseMatch {
    /// Character index of the match start.
    pub index: usize,
    pub score: i32,
}

/// Model of a [`ProseMatch`].
pub struct ProseModel {
    pub index: int,
    pub score: int,
}

impl DeepView for ProseMatch {
    type V = ProseModel;

    open spec fn deep_view(&self) -> ProseModel {
        ProseModel { index: self.index as int, score: self.score as int }
    }
}

/// The first place from `from` on where `part` stands in `s`.
pub open spec fn first_stand(s: Seq<char>, part: Seq<char>, from: int) -> Option<int>
    decreases s.len() + 1 - from,
{
    if from < 0 || from > s.len() {
        None
    } else if stands_at(s, part, from) {
        Some(from)
    } else {
        first_stand(s, part, from + 1)
    }
}

/// What an early hit adds: 6 at the start, one less for every four characters, never below 0.
pub open spec fn early_bonus(index: int) -> int {
    if index / 4 > 6 { 0 } else { 6 - index / 4 }
}

/// The score of a hit at `index`: earlier in shorter text is better.
pub open spec fn prose_score(index: int, query_len: int, text_len: int) -> int {
    4 + early_bonus(index) + nearest(4 * query_len, at_least_one(text_len))
}

/// The sum of the widths.
pub open spec fn total_width(widths: Seq<int>) -> int
    decreases widths.len(),
{
    if widths.len() == 0 {
        0
    } else {
        total_width(widths.drop_last()) + widths.last()
    }
}

/// The character whose lowercase mapping covers the place `at`, `widths` being how many characters
/// each one is mapped to: the last one whose mapping does not start behind `at`.
pub open spec fn origin(widths: Seq<int>, at: int) -> int
    decreases widths.len(),
{
    if widths.len() <= 1 {
        0
    } else if total_width(widths.drop_last()) <= at {
        widths.len() - 1
    } else {
        origin(widths.drop_last(), at)
    }
}

/// How many characters each character of `s` is mapped to in lower case.
pub open spec fn widths_of(s: Seq<char>) -> Seq<int> {
    Seq::new(s.len(), |k: int| char_lower(s[k]).len() as int)
}

/// The first hit of `needle` in `hay`, the lowercase forms of a query and a text. The hit is placed
/// at the character of the text that it starts in; `widths` are those of the text.
pub open spec fn prose_hit(
    hay: Seq<char>,
    needle: Seq<char>,
    query_len: int,
    widths: Seq<int>,
) -> Option<ProseModel> {
    match first_stand(hay, needle, 0) {
        Some(i) => Some(
            ProseModel {
                index: origin(widths, i),
                score: prose_score(origin(widths, i), query_len, widths.len() as int),
            },
        ),
        None => None,
    }
}

/// The substring match of `query` in `text`.
pub open spec fn prose(query: Seq<char>, text: Option<Seq<char>>) -> Option<ProseModel> {
    match text {
        Some(s) => if query.len() == 0 {
            None
        } else {
            prose_hit(text_lower(s), text_lower(query), query.len() as int, widths_of(s))
        },
        None => None,
    }
}

/// There is room for the score of a prose match, where there is one.
pub open spec fn prose_has_room(m: Option<ProseModel>) -> bool {
    m matches Some(p) ==> p.score <= MAX_SCORE
}

/// A prose match starts at a character of the text.
pub proof fn hits_lie_in_the_text(query: Seq<char>, text: Seq<char>)
    requires
        text.len() > 0,
    ensures
        prose(query, Some(text)) matches Some(m) ==> 0 <= m.index < text.len(),
{
    if let Some(i) = first_stand(text_lower(text), text_lower(query), 0) {
        lemma_origin(widths_of(text), i);
    }
}

/// The character that a place in the lowercase text is traced back to is the one whose mapping
/// covers it.
pub proof fn origin_covers_the_place(widths: Seq<int>, at: int)
    requires
        forall|k: int| 0 <= k < widths.len() ==> #[trigger] widths[k] >= 1,
        0 <= at < total_width(widths),
    ensures
        0 <= origin(widths, at) < widths.len(),
        total_width(widths.take(origin(widths, at))) <= at,
        at < total_width(widths.take(origin(widths, at) + 1)),
    decreases widths.len(),
{
    let fewer = widths.drop_last();
    assert(widths.take(widths.len() - 1) =~= fewer);
    assert(widths.take(widths.len() as int) =~= widths);
    if widths.len() == 1 {
        assert(widths.take(0) =~= Seq::<int>::empty());
    } else if total_width(fewer) > at {
        origin_covers_the_place(fewer, at);
        let k = origin(fewer, at);
        assert(widths.take(k) =~= fewer.take(k));
        assert(widths.take(k + 1) =~= fewer.take(k + 1));
    }
}

proof fn lemma_origin(widths: Seq<int>, at: int)
    ensures
        0 <= origin(widths, at),
        widths.len() > 0 ==> origin(widths, at) < widths.len(),
        widths.len() == 0 ==> origin(widths, at) == 0,
    decreases widths.len(),
{
    if widths.len() > 1 {
        lemma_origin(widths.drop_last(), at);
    }
}

fn bonus_at(index: usize) -> (r: i32)
    ensures
        r == early_bonus(index as int),
        0 <= r <= 6,
{
    let late: usize = index / 4;
    if late > 6 {
        0
    } else {
        6 - late as i32
    }
}

fn find_origin(widths: &Vec<usize>, at: usize) -> (r: usize)
    ensures
        r == origin(as_ints(widths@), at as int),
{
    let ghost all = as_ints(widths@);
    let n: usize = widths.len();
    let mut sum: u128 = 0;
    let mut found: usize = 0;
    let mut k: usize = 0;
    assert(all.take(0) =~= Seq::<int>::empty());
    while k < n
        invariant
            k <= n,
            n == widths@.len(),
            all == as_ints(widths@),
            sum == total_width(all.take(k as int)),
            sum <= k * usize::MAX,
            found == origin(all.take(k as int), at as int),
        decreases n - k,
    {
        assert(all.take(k as int + 1).drop_last() =~= all.take(k as int));
        assert(all.take(k as int + 1).last() == widths@[k as int] as int);
        if k > 0 && sum <= at as u128 {
            found = k;
        }
        proof {
            assert(k * usize::MAX + usize::MAX == (k + 1) * usize::MAX) by (nonlinear_arith);
            assert((k + 1) * usize::MAX <= u128::MAX) by (nonlinear_arith)
                requires
                    0 <= k < usize::MAX,
                    usize::MAX <= 0xffff_ffff_ffff_ffff,
            ;
        }
        sum = sum + widths[k] as u128;
        k = k + 1;
    }
    assert(all.take(k as int) =~= all);
    found
}

fn find_widths(text: &Vec<char>) -> (r: Vec<usize>)
    ensures
        as_ints(r@) == widths_of(text@),
{
    let mut out: Vec<usize> = Vec::new();
    let mut k: usize = 0;
    while k < text.len()
        invariant
            k <= text@.len(),
            out@.len() == k,
            forall|j: int| 0 <= j < k ==> #[trigger] out@[j] == char_lower(text@[j]).len(),
        decreases text@.len() - k,
    {
        out.push(lower_char(text[k]).len());
        k = k + 1;
    }
    assert(as_ints(out@) =~= widths_of(text@));
    out
}

/// The first hit of `needle` in `hay`, the lowercase forms of a query and a text, placed in the
/// text, where there is room for its score; `widths` are how many characters each of the text's
/// characters is mapped to.
pub fn hit_in_prose(hay: &Vec<char>, needle: &Vec<char>, query_len: usize, widths: &Vec<usize>) -> (r: Option<
    Option<ProseMatch>,
>)
    ensures
        r is Some <==> prose_has_room(
            prose_hit(hay@, needle@, query_len as int, as_ints(widths@)),
        ),
        r matches Some(m) ==> m.deep_view() == prose_hit(
            hay@,
            needle@,
            query_len as int,
            as_ints(widths@),
        ),
{
    let n: usize = hay.len();
    let mut i: usize = 0;
    loop
        invariant
            i <= n,
            n == hay@.len(),
            first_stand(hay@, needle@, 0) == first_stand(hay@, needle@, i as int),
        decreases n - i,
    {
        if stands(hay, needle, i) {
            let index: usize = find_origin(widths, i);
            let bonus: i32 = bonus_at(index);
            let text_len: usize = widths.len();
            let len: u128 = if text_len < 1 { 1 } else { text_len as u128 };
            let share: u128 = (2 * (4 * query_len as u128) + len) / (2 * len);
            assert(share == nearest(4 * query_len, len as int));
            assert(share <= 8 * query_len + 1) by (nonlinear_arith)
                requires
                    share == (2 * (4 * query_len) + len) / (2 * len),
                    len >= 1,
                    query_len >= 0,
            ;
            assert(as_ints(widths@).len() == text_len);
            let score: u128 = 4 + bonus as u128 + share;
            if score > MAX_SCORE as u128 {
                return None;
            }
            return Some(Some(ProseMatch { index, score: score as i32 }));
        }
        if i == n {
            assert(first_stand(hay@, needle@, n + 1) is None);
            return Some(None);
        }
        i = i + 1;
    }
}

/// The substring match of `query` in `text`, where there is room for its score.
pub fn fit_prose(query: &str, text: Option<&str>) -> (r: Option<Option<ProseMatch>>)
    ensures
        ({
            let m = prose(
                query@,
                match text {
                    Some(s) => Some(s@),
                    None => None,
                },
            );
            &&& r is Some <==> prose_has_room(m)
            &&& r matches Some(p) ==> p.deep_view() == m
            &&& text matches Some(s) ==> m matches Some(p) ==> p.index <= s@.len()
        }),
{
    match text {
        Some(s) => {
            let query_len: usize = chars_of(query).len();
            if query_len == 0 {
                return Some(None);
            }
            let chars = chars_of(s);
            let widths = find_widths(&chars);
            let hay = chars_of(lower_text(s).as_str());
            let needle = chars_of(lower_text(query).as_str());
            proof {
                if let Some(i) = first_stand(hay@, needle@, 0) {
                    lemma_origin(widths_of(s@), i);
                }
            }
            hit_in_prose(&hay, &needle, query_len, &widths)
        },
        None => Some(None),
    }
}

/// Case-insensitive substring match for free-form prose, preferring earlier hits in shorter text.
pub fn prose_match(query: &str, text: Option<&str>) -> (r: Option<ProseMatch>)
    requires
        prose_has_room(
            prose(
                query@,
                match text {
                    Some(s) => Some(s@),
                    None => None,
                },
            ),
        ),
    ensures
        r.deep_view() == prose(
            query@,
            match text {
                Some(s) => Some(s@),
                None => None,
            },
        ),
        text matches Some(s) ==> r matches Some(m) ==> m.index <= s@.len(),
{
    match fit_prose(query, text) {
        Some(m) => m,
        None => None,
    }
}

// ── excerpts ───────────────────────────────────────────────────────────────

/// An excerpt with a highlighted span.
#[derive(Debug, Clone, PartialEq)]
pub struct Snippet {
    pub snippet: String,
    /// Character indices of the highlighted span within `snippet`.
    pub indices: Vec<usize>,
}

/// Model of a [`Snippet`].
#[verifier::ext_equal]
pub struct SnippetModel {
    pub snippet: Seq<char>,
    pub indices: Seq<int>,
}

impl DeepView for Snippet {
    type V = SnippetModel;

    open spec fn deep_view(&self) -> SnippetModel {
        SnippetModel { snippet: self.snippet@, indices: as_ints(self.indices@) }
    }
}

/// Where the excerpt of a match starts in the text.
pub open spec fn excerpt_start(match_start: int) -> int {
    if match_start > CONTEXT { match_start - CONTEXT } else { 0 }
}

/// Where the excerpt of a match ends in the text.
pub open spec fn excerpt_end(text_len: int, match_start: int, query_len: int) -> int {
    let end = match_start + query_len + CONTEXT;
    if end < text_len { end } else { text_len }
}

/// An ellipsis where something was cut away.
pub open spec fn ellipsis(cut: bool) -> Seq<char> {
    if cut { seq!['…'] } else { Seq::empty() }
}

/// How many characters of a match lie within the text.
pub open spec fn shown(text_len: int, match_start: int, query_len: int) -> int {
    let left = text_len - match_start;
    if left <= 0 {
        0
    } else if query_len < left {
        query_len
    } else {
        left
    }
}

/// The excerpt of `text` around a match.
pub open spec fn snippet_of(text: Seq<char>, match_start: int, query_len: int) -> SnippetModel {
    let start = excerpt_start(match_start);
    let end = excerpt_end(text.len() as int, match_start, query_len);
    let base = match_start - start + ellipsis(start > 0).len();
    SnippetModel {
        snippet: ellipsis(start > 0) + text.subrange(start, end) + ellipsis(end < text.len()),
        indices: Seq::new(
            shown(text.len() as int, match_start, query_len) as nat,
            |k: int| base + k,
        ),
    }
}

/// Short ellipsized excerpt centered on the match. The highlighted span ends where the text does.
pub fn make_snippet(text: &str, match_start: usize, query_len: usize) -> (r: Snippet)
    requires
        match_start <= text@.len() + CONTEXT,
    ensures
        r.deep_view() == snippet_of(text@, match_start as int, query_len as int),
{
    let chars = chars_of(text);
    let n: usize = chars.len();
    let start: usize = if match_start > CONTEXT { match_start - CONTEXT } else { 0 };
    let left: usize = if match_start < n { n - match_start } else { 0 };
    let count: usize = if query_len < left { query_len } else { left };
    let end: usize = if left - count > CONTEXT { match_start + count + CONTEXT } else { n };
    let mut snippet = String::new();
    let mut base: usize = match_start - start;
    if start > 0 {
        snippet.push('…');
        base = base + 1;
    }
    assert(snippet@ =~= ellipsis(start > 0));
    let body = slice_string(&chars, start, end);
    snippet.append(body.as_str());
    if end < n {
        snippet.push('…');
    }
    let mut indices: Vec<usize> = Vec::new();
    let mut k: usize = 0;
    while k < count
        invariant
            k <= count,
            base + count <= usize::MAX,
            indices@.len() == k,
            forall|j: int| 0 <= j < k ==> #[trigger] indices@[j] == base + j,
        decreases count - k,
    {
        indices.push(base + k);
        k = k + 1;
    }
    let r = Snippet { snippet, indices };
    assert(r.deep_view() =~= snippet_of(text@, match_start as int, query_len as int));
    r
}

/// Every highlighted index lies within the excerpt and shows the character of the match that it
/// stands for, whatever the text holds; and all of a match that lies within the text is highlighted.
pub proof fn highlight_shows_the_match(text: Seq<char>, match_start: int, query_len: int)
    requires
        0 <= match_start,
        0 <= query_len,
    ensures
        ({
            let s = snippet_of(text, match_start, query_len);
            &&& forall|k: int|
                0 <= k < s.indices.len() ==> {
                    &&& 0 <= #[trigger] s.indices[k] < s.snippet.len()
                    &&& s.snippet[s.indices[k]] == text[match_start + k]
                }
            &&& match_start + query_len <= text.len() ==> s.indices.len() == query_len
        }),
{
}

} // verus!
