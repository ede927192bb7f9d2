//! Strings as sequences of characters: the small vocabulary the scanners share.

use vstd::prelude::*;

verus! {

/// `String::push` of std: the character goes to the end of the text.
pub assume_specification[ String::push ](s: &mut String, c: char)
    ensures
        final(s)@ == old(s)@.push(c),
;

/// The characters of `s`, in order.
pub fn chars_of(s: &str) -> (r: Vec<char>)
    ensures
        r@ == s@,
{
    let mut out: Vec<char> = Vec::new();
    for c in it: s.chars()
        invariant
            out@ == it.seq().take(it.index() as int),
            it.seq() == s@,
    {
        out.push(c);
        assert(it.seq().take(it.index() as int + 1) =~= it.seq().take(it.index() as int).push(c));
    }
    assert(out@ =~= s@);
    out
}

/// The text made of the characters `from..to` of `v`.
pub fn slice_string(v: &Vec<char>, from: usize, to: usize) -> (r: String)
    requires
        from <= to <= v@.len(),
    ensures
        r@ == v@.subrange(from as int, to as int),
{
    let mut out = String::new();
    let mut i: usize = from;
    while i < to
        invariant
            from <= i <= to <= v@.len(),
            out@ == v@.subrange(from as int, i as int),
        decreases to - i,
    {
        out.push(v[i]);
        proof {
            assert(v@.subrange(from as int, i as int + 1) =~= v@.subrange(from as int, i as int).push(v@[i as int]));
        }
        i = i + 1;
    }
    out
}

/// The text made of all of `v`.
pub fn string_of(v: &Vec<char>) -> (r: String)
    ensures
        r@ == v@,
{
    let r = slice_string(v, 0, v.len());
    assert(v@.subrange(0, v@.len() as int) =~= v@);
    r
}

/// Whether two texts hold the same characters.
pub fn same(a: &str, b: &str) -> (r: bool)
    ensures
        r == (a@ == b@),
{
    let x = a.to_owned();
    let y = b.to_owned();
    x == y
}

/// The code points with the Unicode property `White_Space`.
pub open spec fn is_white(c: char) -> bool {
    let u = c as u32;
    ||| 0x9 <= u <= 0xd
    ||| u == 0x20
    ||| u == 0x85
    ||| u == 0xa0
    ||| u == 0x1680
    ||| 0x2000 <= u <= 0x200a
    ||| u == 0x2028
    ||| u == 0x2029
    ||| u == 0x202f
    ||| u == 0x205f
    ||| u == 0x3000
}

/// Decides [`is_white`].
pub fn white(c: char) -> (r: bool)
    ensures
        r == is_white(c),
{
    let u: u32 = c as u32;
    (u >= 0x9 && u <= 0xd) || u == 0x20 || u == 0x85 || u == 0xa0 || u == 0x1680
        || (u >= 0x2000 && u <= 0x200a) || u == 0x2028 || u == 0x2029 || u == 0x202f || u == 0x205f
        || u == 0x3000
}

/// `s` without the white space at its start.
pub open spec fn trim_start(s: Seq<char>) -> Seq<char>
    decreases s.len(),
{
    if s.len() > 0 && is_white(s[0]) {
        trim_start(s.drop_first())
    } else {
        s
    }
}

/// `s` without the white space at its end.
pub open spec fn trim_end(s: Seq<char>) -> Seq<char>
    decreases s.len(),
{
    if s.len() > 0 && is_white(s.last()) {
        trim_end(s.drop_last())
    } else {
        s
    }
}

/// `s` without the white space at either end.
pub open spec fn trim(s: Seq<char>) -> Seq<char> {
    trim_end(trim_start(s))
}

proof fn lemma_trim_start_step(s: Seq<char>, i: int)
    requires
        0 <= i < s.len(),
        is_white(s[i]),
    ensures
        trim_start(s.subrange(i, s.len() as int)) == trim_start(s.subrange(i + 1, s.len() as int)),
{
    let t = s.subrange(i, s.len() as int);
    assert(t.drop_first() =~= s.subrange(i + 1, s.len() as int));
    assert(t[0] == s[i]);
}

proof fn lemma_trim_end_step(s: Seq<char>, i: int, j: int)
    requires
        0 <= i < j <= s.len(),
        is_white(s[j - 1]),
    ensures
        trim_end(s.subrange(i, j)) == trim_end(s.subrange(i, j - 1)),
{
    let t = s.subrange(i, j);
    assert(t.drop_last() =~= s.subrange(i, j - 1));
    assert(t.last() == s[j - 1]);
}

/// The bounds of `v` without the white space at either end.
pub fn trim_bounds(v: &Vec<char>) -> (r: (usize, usize))
    ensures
        r.0 <= r.1 <= v@.len(),
        v@.subrange(r.0 as int, r.1 as int) == trim(v@),
{
    let mut i: usize = 0;
    assert(v@.subrange(0, v@.len() as int) =~= v@);
    while i < v.len() && white(v[i])
        invariant
            i <= v@.len(),
            trim_start(v@) == trim_start(v@.subrange(i as int, v@.len() as int)),
        decreases v@.len() - i,
    {
        proof {
            lemma_trim_start_step(v@, i as int);
        }
        i = i + 1;
    }
    let ghost t = v@.subrange(i as int, v@.len() as int);
    proof {
        if i < v@.len() {
            assert(t[0] == v@[i as int]);
        }
        assert(trim_start(v@) == t);
    }
    let mut j: usize = v.len();
    while j > i && white(v[j - 1])
        invariant
            i <= j <= v@.len(),
            trim_end(t) == trim_end(v@.subrange(i as int, j as int)),
        decreases j,
    {
        proof {
            lemma_trim_end_step(v@, i as int, j as int);
        }
        j = j - 1;
    }
    proof {
        if i < j {
            assert(v@.subrange(i as int, j as int).last() == v@[j - 1]);
        }
    }
    (i, j)
}

/// `s` without the white space at either end.
pub fn trimmed(s: &str) -> (r: String)
    ensures
        r@ == trim(s@),
{
    let v = chars_of(s);
    let (i, j) = trim_bounds(&v);
    slice_string(&v, i, j)
}

/// The digit character of `d`.
pub open spec fn digit(d: nat) -> char {
    ('0' as u32 + d) as char
}

/// `n` in decimal notation.
pub open spec fn decimal(n: nat) -> Seq<char>
    decreases n,
{
    if n < 10 {
        seq![digit(n)]
    } else {
        decimal(n / 10).push(digit(n % 10))
    }
}

fn digit_char(d: u64) -> (r: char)
    requires
        d < 10,
    ensures
        r == digit(d as nat),
{
    let b: u8 = 48u8 + d as u8;
    b as char
}

/// `n` in decimal notation.
pub fn digits_string(n: u64) -> (r: String)
    ensures
        r@ == decimal(n as nat),
    decreases n,
{
    if n < 10 {
        let mut s = String::new();
        s.push(digit_char(n));
        assert(s@ =~= seq![digit(n as nat)]);
        s
    } else {
        let mut s = digits_string(n / 10);
        s.push(digit_char(n % 10));
        s
    }
}

/// `n` in decimal notation.
pub fn decimal_string(n: usize) -> (r: String)
    ensures
        r@ == decimal(n as nat),
{
    digits_string(n as u64)
}

/// `n` zeros.
pub open spec fn zeros(n: nat) -> Seq<char> {
    Seq::new(n, |i: int| '0')
}

/// `n` in decimal notation, with its sign and then as many zeros as bring it to `width`.
pub open spec fn padded(n: int, width: int) -> Seq<char> {
    if n < 0 {
        let d = decimal((-n) as nat);
        seq!['-'] + zeros(if d.len() + 1 < width { (width - 1 - d.len()) as nat } else { 0 }) + d
    } else {
        let d = decimal(n as nat);
        zeros(if d.len() < width { (width - d.len()) as nat } else { 0 }) + d
    }
}

/// `n` in decimal notation, filled up with zeros to `width`.
pub fn padded_string(n: i64, width: usize) -> (r: String)
    requires
        n > i64::MIN,
        0 < width,
    ensures
        r@ == padded(n as int, width as int),
{
    let negative = n < 0;
    let digits = if negative { digits_string((-n) as u64) } else { digits_string(n as u64) };
    let chars = chars_of(&digits);
    let count: usize = chars.len();
    let room: usize = if negative { width - 1 } else { width };
    let mut r = String::new();
    if negative {
        r.push('-');
    }
    let ghost sign = r@;
    let mut k: usize = 0;
    while count < room && k < room - count
        invariant
            r@ == sign + zeros(k as nat),
            k == 0 || k + count <= room,
        decreases room - k,
    {
        r.push('0');
        assert(r@ =~= sign + zeros(k as nat + 1));
        k = k + 1;
    }
    r.append(&digits);
    assert(r@ =~= padded(n as int, width as int));
    r
}

/// Whether `s` ends with `tail`.
pub open spec fn ends_with(s: Seq<char>, tail: Seq<char>) -> bool {
    s.len() >= tail.len() && s.subrange(s.len() - tail.len(), s.len() as int) == tail
}

/// Whether `part` stands in `s` at `at`.
pub open spec fn stands_at(s: Seq<char>, part: Seq<char>, at: int) -> bool {
    0 <= at && at + part.len() <= s.len() && s.subrange(at, at + part.len()) == part
}

/// Decides [`stands_at`].
pub fn stands(s: &Vec<char>, part: &Vec<char>, at: usize) -> (r: bool)
    ensures
        r == stands_at(s@, part@, at as int),
{
    if at > s.len() || part.len() > s.len() - at {
        return false;
    }
    let mut i: usize = 0;
    while i < part.len()
        invariant
            i <= part@.len(),
            at + part@.len() <= s.len(),
            forall|k: int| 0 <= k < i ==> s@[at + k] == part@[k],
        decreases part@.len() - i,
    {
        if s[at + i] != part[i] {
            assert(s@.subrange(at as int, at + part@.len())[i as int] != part@[i as int]);
            return false;
        }
        i = i + 1;
    }
    assert(s@.subrange(at as int, at + part@.len()) =~= part@);
    true
}

/// Decides [`ends_with`].
pub fn ends(s: &str, tail: &str) -> (r: bool)
    ensures
        r == ends_with(s@, tail@),
{
    let v = chars_of(s);
    let t = chars_of(tail);
    if t.len() > v.len() {
        return false;
    }
    stands(&v, &t, v.len() - t.len())
}

/// The first place from `i` on that holds no white space.
pub open spec fn skip_white(s: Seq<char>, i: int) -> int
    decreases s.len() - i,
{
    if 0 <= i < s.len() && is_white(s[i]) {
        skip_white(s, i + 1)
    } else {
        i
    }
}

/// The first place from `i` on that holds no white space.
pub fn skip_whitespace(s: &Vec<char>, from: usize) -> (r: usize)
    requires
        from <= s@.len(),
    ensures
        r == skip_white(s@, from as int),
        from <= r <= s@.len(),
{
    let mut i: usize = from;
    while i < s.len() && white(s[i])
        invariant
            from <= i <= s@.len(),
            skip_white(s@, from as int) == skip_white(s@, i as int),
        decreases s@.len() - i,
    {
        i = i + 1;
    }
    i
}

/// The letter `c` in lower case where it is an ASCII capital, and `c` itself elsewhere.
pub open spec fn ascii_lower(c: char) -> char {
    if 'A' <= c <= 'Z' { ((c as u32) + 32) as char } else { c }
}

/// `c` with an ASCII capital made small.
pub fn lower_ascii(c: char) -> (r: char)
    ensures
        r == ascii_lower(c),
{
    if 'A' <= c && c <= 'Z' {
        let b: u8 = c as u8 + 32;
        b as char
    } else {
        c
    }
}

/// Whether `c` is one of the ten ASCII digits.
pub open spec fn is_digit(c: char) -> bool {
    '0' <= c <= '9'
}

/// The value of an ASCII digit.
pub open spec fn digit_value(c: char) -> int {
    c as u32 - '0' as u32
}

/// Decides [`is_digit`].
pub fn is_ascii_digit(c: char) -> (r: bool)
    ensures
        r == is_digit(c),
{
    '0' <= c && c <= '9'
}

/// The value of an ASCII digit.
pub fn value_of_digit(c: char) -> (r: u32)
    requires
        is_digit(c),
    ensures
        r == digit_value(c),
        r <= 9,
{
    c as u32 - '0' as u32
}

/// `a` comes before `b` in the order of code points, or is `b`.
pub open spec fn text_before(a: Seq<char>, b: Seq<char>) -> bool
    decreases a.len(),
{
    if a.len() == 0 {
        true
    } else if b.len() == 0 {
        false
    } else if a[0] != b[0] {
        a[0] < b[0]
    } else {
        text_before(a.drop_first(), b.drop_first())
    }
}

/// Decides [`text_before`].
pub fn in_order(a: &str, b: &str) -> (r: bool)
    ensures
        r == text_before(a@, b@),
{
    let x = chars_of(a);
    let y = chars_of(b);
    let mut i: usize = 0;
    assert(x@.skip(0) =~= x@);
    assert(y@.skip(0) =~= y@);
    while i < x.len() && i < y.len() && x[i] == y[i]
        invariant
            i <= x@.len(),
            i <= y@.len(),
            text_before(x@, y@) == text_before(x@.skip(i as int), y@.skip(i as int)),
        decreases x@.len() - i,
    {
        assert(x@.skip(i as int).drop_first() =~= x@.skip(i as int + 1));
        assert(y@.skip(i as int).drop_first() =~= y@.skip(i as int + 1));
        i = i + 1;
    }
    if i >= x.len() {
        return true;
    }
    if i >= y.len() {
        return false;
    }
    assert(x@.skip(i as int)[0] == x@[i as int]);
    assert(y@.skip(i as int)[0] == y@[i as int]);
    x[i] < y[i]
}

/// Of two texts, one comes before the other.
pub proof fn lemma_text_total(a: Seq<char>, b: Seq<char>)
    ensures
        text_before(a, b) || text_before(b, a),
    decreases a.len(),
{
    if a.len() > 0 && b.len() > 0 && a[0] == b[0] {
        lemma_text_total(a.drop_first(), b.drop_first());
    }
}

/// The order of texts is transitive.
pub proof fn lemma_text_transitive(a: Seq<char>, b: Seq<char>, c: Seq<char>)
    requires
        text_before(a, b),
        text_before(b, c),
    ensures
        text_before(a, c),
    decreases a.len(),
{
    if a.len() > 0 && b.len() > 0 && c.len() > 0 && a[0] == b[0] && b[0] == c[0] {
        lemma_text_transitive(a.drop_first(), b.drop_first(), c.drop_first());
    }
}

/// A list in order, grown by one text.
pub open spec fn insert_sorted(s: Seq<Seq<char>>, x: Seq<char>) -> Seq<Seq<char>>
    decreases s.len(),
{
    if s.len() == 0 {
        seq![x]
    } else if text_before(s.last(), x) {
        s.push(x)
    } else {
        insert_sorted(s.drop_last(), x).push(s.last())
    }
}

/// The texts in order.
pub open spec fn sorted(s: Seq<Seq<char>>) -> Seq<Seq<char>>
    decreases s.len(),
{
    if s.len() == 0 {
        s
    } else {
        insert_sorted(sorted(s.drop_last()), s.last())
    }
}

/// Each text comes before every later one.
pub open spec fn is_sorted(s: Seq<Seq<char>>) -> bool {
    forall|i: int, j: int| 0 <= i <= j < s.len() ==> text_before(#[trigger] s[i], #[trigger] s[j])
}

proof fn lemma_insert_sorted(s: Seq<Seq<char>>, x: Seq<char>)
    requires
        is_sorted(s),
    ensures
        is_sorted(insert_sorted(s, x)),
        insert_sorted(s, x).to_multiset() == s.to_multiset().insert(x),
        insert_sorted(s, x).len() == s.len() + 1,
    decreases s.len(),
{
    broadcast use vstd::seq_lib::group_to_multiset_ensures;

    lemma_text_total(x, x);
    if s.len() == 0 {
        assert(s.push(x) =~= seq![x]);
    } else if text_before(s.last(), x) {
        let r = s.push(x);
        assert forall|i: int, j: int| 0 <= i <= j < r.len() implies text_before(
            #[trigger] r[i],
            #[trigger] r[j],
        ) by {
            if j == s.len() && i < s.len() {
                assert(text_before(s[i], s[s.len() - 1]));
                lemma_text_transitive(s[i], s.last(), x);
            } else if i < s.len() {
                assert(text_before(s[i], s[j]));
            }
        }
    } else {
        let t = s.drop_last();
        let last = s.last();
        assert forall|i: int, j: int| 0 <= i <= j < t.len() implies text_before(
            #[trigger] t[i],
            #[trigger] t[j],
        ) by {
            assert(text_before(s[i], s[j]));
        }
        lemma_insert_sorted(t, x);
        let m = insert_sorted(t, x);
        let r = m.push(last);
        lemma_text_total(last, x);
        assert(t.push(last) =~= s);
        assert(r.to_multiset() =~= s.to_multiset().insert(x));
        assert forall|i: int, j: int| 0 <= i <= j < r.len() implies text_before(
            #[trigger] r[i],
            #[trigger] r[j],
        ) by {
            if j < m.len() {
                assert(text_before(m[i], m[j]));
            } else if i < m.len() {
                assert(m.to_multiset().contains(m[i]));
                if m[i] != x {
                    assert(t.to_multiset().count(m[i]) > 0);
                    assert(t.contains(m[i]));
                    let k = choose|k: int| 0 <= k < t.len() && t[k] == m[i];
                    assert(text_before(s[k], s[s.len() - 1]));
                }
            } else {
                lemma_text_total(last, last);
            }
        }
    }
}

/// Sorting keeps every text as often as it was there, and puts them in order.
pub proof fn sorted_sorts(s: Seq<Seq<char>>)
    ensures
        is_sorted(sorted(s)),
        sorted(s).to_multiset() == s.to_multiset(),
        sorted(s).len() == s.len(),
    decreases s.len(),
{
    broadcast use vstd::seq_lib::group_to_multiset_ensures;

    if s.len() > 0 {
        sorted_sorts(s.drop_last());
        lemma_insert_sorted(sorted(s.drop_last()), s.last());
        assert(s.drop_last().push(s.last()) =~= s);
    }
}

/// Sorts texts.
pub fn sort_texts(names: &Vec<String>) -> (r: Vec<String>)
    ensures
        r.deep_view() == sorted(names.deep_view()),
{
    let ghost all = names.deep_view();
    let mut out: Vec<String> = Vec::new();
    let mut i: usize = 0;
    assert(all.take(0) =~= Seq::<Seq<char>>::empty());
    assert(out.deep_view() =~= Seq::<Seq<char>>::empty());
    while i < names.len()
        invariant
            i <= names@.len(),
            all == names.deep_view(),
            out.deep_view() == sorted(all.take(i as int)),
        decreases names@.len() - i,
    {
        assert(all.take(i as int + 1).drop_last() =~= all.take(i as int));
        assert(all[i as int] == names@[i as int]@);
        let ghost before = out.deep_view();
        let ghost x = all[i as int];
        let mut k: usize = out.len();
        assert(before.take(k as int) =~= before);
        assert(before.skip(k as int) =~= Seq::<Seq<char>>::empty());
        assert(insert_sorted(before, x) =~= insert_sorted(before.take(k as int), x) + before.skip(
            k as int,
        ));
        while k > 0 && !in_order(out[k - 1].as_str(), names[i].as_str())
            invariant
                k <= out@.len(),
                i < names@.len(),
                before == out.deep_view(),
                x == names@[i as int]@,
                insert_sorted(before, x) == insert_sorted(before.take(k as int), x) + before.skip(
                    k as int,
                ),
            decreases k,
        {
            proof {
                let t = before.take(k as int);
                assert(t.last() == before[k - 1]);
                assert(before[k - 1] == out@[k - 1]@);
                assert(t.drop_last() =~= before.take(k as int - 1));
                assert(before.skip(k as int - 1) =~= seq![before[k - 1]] + before.skip(k as int));
                assert(insert_sorted(before.take(k as int - 1), x).push(before[k - 1]) + before.skip(
                    k as int,
                ) =~= insert_sorted(before.take(k as int - 1), x) + before.skip(k as int - 1));
            }
            k = k - 1;
        }
        proof {
            let t = before.take(k as int);
            if k > 0 {
                assert(t.last() == before[k - 1]);
                assert(before[k - 1] == out@[k - 1]@);
            }
            assert(insert_sorted(t, x) =~= t.push(x));
        }
        out.insert(k, names[i].clone());
        assert(out.deep_view() =~= before.take(k as int).push(x) + before.skip(k as int));
        i = i + 1;
    }
    assert(all.take(i as int) =~= all);
    out
}

} // verus!
