//! Putting numbered things in the order of their keys. A key is a pair of texts, compared by the
//! first and then by the second; things with one key keep their order.

use vstd::prelude::*;

use crate::text::{in_order, lemma_text_total, lemma_text_transitive, same, text_before};

verus! {

/// Key `a` comes before key `b`, or is it.
pub open spec fn key_before(a: (Seq<char>, Seq<char>), b: (Seq<char>, Seq<char>)) -> bool {
    if a.0 == b.0 {
        text_before(a.1, b.1)
    } else {
        text_before(a.0, b.0)
    }
}

/// A list in order, grown by `x`, which goes after everything that its key does not precede.
pub open spec fn placed(keys: Seq<(Seq<char>, Seq<char>)>, s: Seq<usize>, x: usize) -> Seq<usize>
    decreases s.len(),
{
    if s.len() == 0 {
        seq![x]
    } else if key_before(keys[s.last() as int], keys[x as int]) {
        s.push(x)
    } else {
        placed(keys, s.drop_last(), x).push(s.last())
    }
}

/// The things of `s` in the order of their keys.
pub open spec fn arranged(keys: Seq<(Seq<char>, Seq<char>)>, s: Seq<usize>) -> Seq<usize>
    decreases s.len(),
{
    if s.len() == 0 {
        s
    } else {
        placed(keys, arranged(keys, s.drop_last()), s.last())
    }
}

/// `a` belongs before `b`: its key comes first, or the keys are the same and `a` does.
pub open spec fn belongs_before(
    keys: Seq<(Seq<char>, Seq<char>)>,
    a: usize,
    b: usize,
) -> bool {
    key_before(keys[a as int], keys[b as int]) && (key_before(keys[b as int], keys[a as int]) ==> a
        < b)
}

/// Each thing belongs before every later one.
pub open spec fn in_key_order(keys: Seq<(Seq<char>, Seq<char>)>, s: Seq<usize>) -> bool {
    forall|i: int, j: int|
        0 <= i < j < s.len() ==> belongs_before(keys, #[trigger] s[i], #[trigger] s[j])
}

/// The numbers ascend.
pub open spec fn ascends(s: Seq<usize>) -> bool {
    forall|i: int, j: int| 0 <= i < j < s.len() ==> #[trigger] s[i] < #[trigger] s[j]
}

/// Texts that come before each other are the same.
proof fn lemma_text_same(a: Seq<char>, b: Seq<char>)
    requires
        text_before(a, b),
        text_before(b, a),
    ensures
        a == b,
    decreases a.len(),
{
    if a.len() > 0 && b.len() > 0 {
        lemma_text_same(a.drop_first(), b.drop_first());
        assert(a =~= seq![a[0]] + a.drop_first());
        assert(b =~= seq![b[0]] + b.drop_first());
    } else {
        assert(a =~= b);
    }
}

proof fn lemma_key_total(a: (Seq<char>, Seq<char>), b: (Seq<char>, Seq<char>))
    ensures
        key_before(a, b) || key_before(b, a),
{
    lemma_text_total(a.0, b.0);
    lemma_text_total(a.1, b.1);
}

proof fn lemma_key_transitive(
    a: (Seq<char>, Seq<char>),
    b: (Seq<char>, Seq<char>),
    c: (Seq<char>, Seq<char>),
)
    requires
        key_before(a, b),
        key_before(b, c),
    ensures
        key_before(a, c),
{
    if a.0 == b.0 {
        if b.0 == c.0 {
            lemma_text_transitive(a.1, b.1, c.1);
        }
    } else if b.0 == c.0 {
    } else {
        lemma_text_transitive(a.0, b.0, c.0);
        if a.0 == c.0 {
            lemma_text_same(a.0, b.0);
        }
    }
}

proof fn lemma_placed(keys: Seq<(Seq<char>, Seq<char>)>, s: Seq<usize>, x: usize)
    requires
        in_key_order(keys, s),
        forall|i: int| 0 <= i < s.len() ==> #[trigger] s[i] < x,
    ensures
        in_key_order(keys, placed(keys, s, x)),
        placed(keys, s, x).to_multiset() == s.to_multiset().insert(x),
        placed(keys, s, x).len() == s.len() + 1,
    decreases s.len(),
{
    broadcast use vstd::seq_lib::group_to_multiset_ensures;

    if s.len() == 0 {
        assert(s.push(x) =~= seq![x]);
    } else if key_before(keys[s.last() as int], keys[x as int]) {
        let r = s.push(x);
        assert forall|i: int, j: int| 0 <= i < j < r.len() implies belongs_before(
            keys,
            #[trigger] r[i],
            #[trigger] r[j],
        ) by {
            if j == s.len() {
                assert(r[i] == s[i]);
                if i < s.len() - 1 {
                    assert(belongs_before(keys, s[i], s[s.len() - 1]));
                    lemma_key_transitive(
                        keys[s[i] as int],
                        keys[s.last() as int],
                        keys[x as int],
                    );
                }
            } else {
                assert(belongs_before(keys, s[i], s[j]));
            }
        }
    } else {
        let t = s.drop_last();
        let last = s.last();
        assert forall|i: int, j: int| 0 <= i < j < t.len() implies belongs_before(
            keys,
            #[trigger] t[i],
            #[trigger] t[j],
        ) by {
            assert(belongs_before(keys, s[i], s[j]));
        }
        assert forall|i: int| 0 <= i < t.len() implies #[trigger] t[i] < x by {
            assert(s[i] < x);
        }
        lemma_placed(keys, t, x);
        let m = placed(keys, t, x);
        let r = m.push(last);
        lemma_key_total(keys[last as int], keys[x as int]);
        assert(t.push(last) =~= s);
        assert(r.to_multiset() =~= s.to_multiset().insert(x));
        assert forall|i: int, j: int| 0 <= i < j < r.len() implies belongs_before(
            keys,
            #[trigger] r[i],
            #[trigger] r[j],
        ) by {
            if j < m.len() {
                assert(belongs_before(keys, m[i], m[j]));
            } else {
                assert(r[i] == m[i]);
                assert(m.to_multiset().contains(m[i]));
                if m[i] != x {
                    assert(t.to_multiset().count(m[i]) > 0);
                    assert(t.contains(m[i]));
                    let k = choose|k: int| 0 <= k < t.len() && t[k] == m[i];
                    assert(belongs_before(keys, s[k], s[s.len() - 1]));
                }
            }
        }
    }
}

/// Arranging keeps everything, puts it in the order of the keys, and leaves things with one key in
/// the order that they came in.
pub proof fn arranging_sorts(keys: Seq<(Seq<char>, Seq<char>)>, s: Seq<usize>)
    requires
        ascends(s),
    ensures
        in_key_order(keys, arranged(keys, s)),
        arranged(keys, s).to_multiset() == s.to_multiset(),
        arranged(keys, s).len() == s.len(),
    decreases s.len(),
{
    broadcast use vstd::seq_lib::group_to_multiset_ensures;

    if s.len() > 0 {
        let rest = s.drop_last();
        assert forall|i: int, j: int| 0 <= i < j < rest.len() implies #[trigger] rest[i]
            < #[trigger] rest[j] by {
            assert(s[i] < s[j]);
        }
        arranging_sorts(keys, rest);
        let before = arranged(keys, rest);
        assert forall|i: int| 0 <= i < before.len() implies #[trigger] before[i] < s.last() by {
            assert(before.to_multiset().contains(before[i]));
            assert(rest.contains(before[i]));
            let k = choose|k: int| 0 <= k < rest.len() && rest[k] == before[i];
            assert(s[k] < s[s.len() - 1]);
        }
        lemma_placed(keys, before, s.last());
        assert(rest.push(s.last()) =~= s);
    }
}

/// What is arranged is what was there.
pub proof fn lemma_arranged_members(keys: Seq<(Seq<char>, Seq<char>)>, s: Seq<usize>, bound: int)
    requires
        forall|i: int| 0 <= i < s.len() ==> #[trigger] s[i] < bound,
    ensures
        arranged(keys, s).len() == s.len(),
        forall|i: int| 0 <= i < s.len() ==> #[trigger] arranged(keys, s)[i] < bound,
    decreases s.len(),
{
    if s.len() > 0 {
        let rest = s.drop_last();
        assert forall|i: int| 0 <= i < rest.len() implies #[trigger] rest[i] < bound by {
            assert(s[i] < bound);
        }
        lemma_arranged_members(keys, rest, bound);
        lemma_placed_members(keys, arranged(keys, rest), s.last(), bound);
    }
}

proof fn lemma_placed_members(
    keys: Seq<(Seq<char>, Seq<char>)>,
    s: Seq<usize>,
    x: usize,
    bound: int,
)
    requires
        x < bound,
        forall|i: int| 0 <= i < s.len() ==> #[trigger] s[i] < bound,
    ensures
        placed(keys, s, x).len() == s.len() + 1,
        forall|i: int| 0 <= i < s.len() + 1 ==> #[trigger] placed(keys, s, x)[i] < bound,
    decreases s.len(),
{
    if s.len() > 0 {
        let rest = s.drop_last();
        assert forall|i: int| 0 <= i < rest.len() implies #[trigger] rest[i] < bound by {
            assert(s[i] < bound);
        }
        lemma_placed_members(keys, rest, x, bound);
    }
}

fn keys_in_order(a: &(String, String), b: &(String, String)) -> (r: bool)
    ensures
        r == key_before(a.deep_view(), b.deep_view()),
{
    if same(a.0.as_str(), b.0.as_str()) {
        in_order(a.1.as_str(), b.1.as_str())
    } else {
        in_order(a.0.as_str(), b.0.as_str())
    }
}

/// Puts the numbered things in the order of their keys.
pub fn arrange(keys: &Vec<(String, String)>, items: &Vec<usize>) -> (r: Vec<usize>)
    requires
        forall|i: int| 0 <= i < items@.len() ==> #[trigger] items@[i] < keys@.len(),
    ensures
        r@ == arranged(keys.deep_view(), items@),
        r@.len() == items@.len(),
        forall|i: int| 0 <= i < r@.len() ==> #[trigger] r@[i] < keys@.len(),
{
    let ghost ks = keys.deep_view();
    let mut out: Vec<usize> = Vec::new();
    let mut i: usize = 0;
    assert(items@.take(0) =~= Seq::<usize>::empty());
    assert(out@ =~= Seq::<usize>::empty());
    while i < items.len()
        invariant
            i <= items@.len(),
            ks == keys.deep_view(),
            out@ == arranged(ks, items@.take(i as int)),
            forall|k: int| 0 <= k < items@.len() ==> #[trigger] items@[k] < keys@.len(),
            forall|k: int| 0 <= k < out@.len() ==> #[trigger] out@[k] < keys@.len(),
        decreases items@.len() - i,
    {
        assert(items@.take(i as int + 1).drop_last() =~= items@.take(i as int));
        let x: usize = items[i];
        let ghost before = out@;
        let mut k: usize = out.len();
        assert(before.take(k as int) =~= before);
        assert(before.skip(k as int) =~= Seq::<usize>::empty());
        assert(placed(ks, before, x) =~= placed(ks, before.take(k as int), x) + before.skip(
            k as int,
        ));
        while k > 0 && !keys_in_order(&keys[out[k - 1]], &keys[x])
            invariant
                k <= out@.len(),
                before == out@,
                ks == keys.deep_view(),
                x < keys@.len(),
                forall|j: int| 0 <= j < out@.len() ==> #[trigger] out@[j] < keys@.len(),
                placed(ks, before, x) == placed(ks, before.take(k as int), x) + before.skip(
                    k as int,
                ),
            decreases k,
        {
            proof {
                let t = before.take(k as int);
                assert(t.last() == before[k - 1]);
                assert(t.drop_last() =~= before.take(k as int - 1));
                assert(before.skip(k as int - 1) =~= seq![before[k - 1]] + before.skip(k as int));
                assert(placed(ks, before.take(k as int - 1), x).push(before[k - 1]) + before.skip(
                    k as int,
                ) =~= placed(ks, before.take(k as int - 1), x) + before.skip(k as int - 1));
            }
            k = k - 1;
        }
        proof {
            let t = before.take(k as int);
            if k > 0 {
                assert(t.last() == before[k - 1]);
            }
            assert(placed(ks, t, x) =~= t.push(x));
        }
        out.insert(k, x);
        assert(out@ =~= before.take(k as int).push(x) + before.skip(k as int));
        i = i + 1;
    }
    assert(items@.take(i as int) =~= items@);
    proof {
        lemma_arranged_members(ks, items@, keys@.len() as int);
    }
    out
}

} // verus!
