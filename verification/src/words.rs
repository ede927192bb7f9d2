//! Texts cut down to one line.

use vstd::prelude::*;

use crate::text::{chars_of, is_white, slice_string, white};

verus! {

/// The words of `s`: its longest runs without white space.
pub open spec fn words(s: Seq<char>) -> Seq<Seq<char>>
    decreases s.len(),
{
    if s.len() == 0 {
        Seq::empty()
    } else {
        let before = words(s.drop_last());
        if is_white(s.last()) {
            before
        } else if s.len() == 1 || is_white(s[s.len() - 2]) {
            before.push(seq![s.last()])
        } else {
            before.update(before.len() - 1, before.last().push(s.last()))
        }
    }
}

/// The words with one space between each two.
pub open spec fn spaced(words: Seq<Seq<char>>) -> Seq<char>
    decreases words.len(),
{
    if words.len() == 0 {
        Seq::empty()
    } else if words.len() == 1 {
        words[0]
    } else {
        spaced(words.drop_last()).push(' ') + words.last()
    }
}

/// No word is empty, none holds white space, and a text that ends in no white space has one.
proof fn lemma_words(s: Seq<char>)
    ensures
        forall|i: int| 0 <= i < words(s).len() ==> (#[trigger] words(s)[i]).len() > 0,
        forall|i: int, k: int|
            0 <= i < words(s).len() && 0 <= k < words(s)[i].len() ==> !is_white(
                #[trigger] words(s)[i][k],
            ),
        s.len() > 0 && !is_white(s.last()) ==> words(s).len() > 0,
    decreases s.len(),
{
    if s.len() > 0 {
        let rest = s.drop_last();
        lemma_words(rest);
        let before = words(rest);
        let now = words(s);
        if !is_white(s.last()) && s.len() > 1 && !is_white(s[s.len() - 2]) {
            assert(rest.last() == s[s.len() - 2]);
            assert forall|i: int, k: int|
                0 <= i < now.len() && 0 <= k < now[i].len() implies !is_white(
                #[trigger] now[i][k],
            ) by {
                if i < before.len() - 1 {
                    assert(now[i] == before[i]);
                    assert(!is_white(before[i][k]));
                } else if k < before.last().len() {
                    assert(now[i][k] == before[i][k]);
                }
            }
            assert forall|i: int| 0 <= i < now.len() implies (#[trigger] now[i]).len() > 0 by {
                if i < before.len() - 1 {
                    assert(now[i] == before[i]);
                }
            }
        } else if !is_white(s.last()) {
            assert forall|i: int, k: int|
                0 <= i < now.len() && 0 <= k < now[i].len() implies !is_white(
                #[trigger] now[i][k],
            ) by {
                if i < before.len() {
                    assert(now[i] == before[i]);
                    assert(!is_white(before[i][k]));
                }
            }
            assert forall|i: int| 0 <= i < now.len() implies (#[trigger] now[i]).len() > 0 by {
                if i < before.len() {
                    assert(now[i] == before[i]);
                }
            }
        }
    }
}

/// A line holds the words of the text and nothing else: its only white space is single spaces
/// between two words.
pub proof fn a_line_is_its_words(s: Seq<char>)
    ensures
        forall|i: int| 0 <= i < words(s).len() ==> (#[trigger] words(s)[i]).len() > 0,
        forall|i: int, k: int|
            0 <= i < words(s).len() && 0 <= k < words(s)[i].len() ==> !is_white(
                #[trigger] words(s)[i][k],
            ),
        words(spaced(words(s))) == words(s),
{
    lemma_words(s);
    lemma_spaced_words(words(s));
}

/// White space at the end adds no word.
proof fn lemma_append_word(s: Seq<char>, w: Seq<char>)
    requires
        w.len() > 0,
        forall|k: int| 0 <= k < w.len() ==> !is_white(#[trigger] w[k]),
        s.len() == 0 || is_white(s.last()),
    ensures
        words(s + w) == words(s).push(w),
    decreases w.len(),
{
    let t = s + w;
    assert(t.last() == w.last());
    if w.len() == 1 {
        assert(t.drop_last() =~= s);
        assert(seq![w.last()] =~= w);
        if s.len() > 0 {
            assert(t[t.len() - 2] == s.last());
        }
    } else {
        let v = w.drop_last();
        assert(forall|k: int| 0 <= k < v.len() ==> v[k] == w[k]);
        lemma_append_word(s, v);
        assert(t.drop_last() =~= s + v);
        assert(t[t.len() - 2] == w[w.len() - 2]);
        assert(words(s).push(v).update(words(s).len() as int, v.push(w.last())) =~= words(s).push(
            w,
        )) by {
            assert(v.push(w.last()) =~= w);
        }
    }
}

/// Splitting undoes spacing.
proof fn lemma_spaced_words(list: Seq<Seq<char>>)
    requires
        forall|i: int| 0 <= i < list.len() ==> (#[trigger] list[i]).len() > 0,
        forall|i: int, k: int|
            0 <= i < list.len() && 0 <= k < list[i].len() ==> !is_white(#[trigger] list[i][k]),
    ensures
        words(spaced(list)) == list,
    decreases list.len(),
{
    if list.len() == 1 {
        let none = Seq::<char>::empty();
        lemma_append_word(none, list[0]);
        assert(none + list[0] =~= list[0]);
        assert(words(none).push(list[0]) =~= list);
    } else if list.len() > 1 {
        let rest = list.drop_last();
        assert forall|i: int, k: int|
            0 <= i < rest.len() && 0 <= k < rest[i].len() implies !is_white(
            #[trigger] rest[i][k],
        ) by {
            assert(!is_white(list[i][k]));
        }
        assert(forall|i: int| 0 <= i < rest.len() ==> (#[trigger] rest[i]).len() > 0) by {
            assert(forall|i: int| 0 <= i < rest.len() ==> #[trigger] rest[i] == list[i]);
        }
        lemma_spaced_words(rest);
        let head = spaced(rest).push(' ');
        assert(head.drop_last() =~= spaced(rest));
        assert(words(head) == rest);
        let w = list.last();
        assert(w == list[list.len() - 1]);
        lemma_append_word(head, w);
        assert(rest.push(w) =~= list);
    }
}

/// The words of `s` on a single line, with one space between each two.
pub fn one_line(s: &str) -> (r: String)
    ensures
        r@ == spaced(words(s@)),
{
    let v = chars_of(s);
    let mut out = String::new();
    let mut started = false;
    let mut i: usize = 0;
    assert(v@.take(0) =~= Seq::<char>::empty());
    while i < v.len()
        invariant
            i <= v@.len(),
            out@ == spaced(words(v@.take(i as int))),
            started == (words(v@.take(i as int)).len() > 0),
        decreases v@.len() - i,
    {
        let c: char = v[i];
        let ghost seen = v@.take(i as int);
        let ghost now = v@.take(i as int + 1);
        let ghost ws = words(seen);
        assert(now.drop_last() =~= seen);
        proof {
            lemma_words(seen);
        }
        if !white(c) {
            if i == 0 || white(v[i - 1]) {
                if started {
                    out.push(' ');
                }
                out.push(c);
                let ghost more = ws.push(seq![c]);
                assert(more.drop_last() =~= ws);
                assert(out@ =~= spaced(more));
            } else {
                assert(seen.last() == v@[i - 1]);
                let ghost old_text = out@;
                out.push(c);
                let ghost more = ws.update(ws.len() - 1, ws.last().push(c));
                assert(more.drop_last() =~= ws.drop_last());
                assert(out@ =~= spaced(more));
            }
            started = true;
        }
        i = i + 1;
    }
    assert(v@.take(i as int) =~= v@);
    out
}

/// The first `n` characters of `s` and an ellipsis after them.
pub open spec fn cut(s: Seq<char>, n: int) -> Seq<char> {
    s.take(if n <= s.len() { n } else { s.len() as int }).push('…')
}

/// The first `n` characters of a text that is too long for its place, and an ellipsis.
pub fn cut_text(s: &str, n: usize) -> (r: String)
    ensures
        r@ == cut(s@, n as int),
{
    let v = chars_of(s);
    let end: usize = if n <= v.len() { n } else { v.len() };
    let mut r = slice_string(&v, 0, end);
    assert(r@ =~= s@.take(end as int));
    r.push('…');
    r
}

} // verus!
