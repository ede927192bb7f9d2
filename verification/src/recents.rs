//! The two remembered lists: past searches and recently opened schemas. The newest comes first,
//! nothing is listed twice, and each list is capped.

use vstd::prelude::*;

use crate::text::{same, trim, trimmed};

verus! {

/// How many searches are remembered.
pub const SEARCH_LIMIT: usize = 12;

/// How many schemas are remembered.
pub const RECENT_LIMIT: usize = 10;

/// A recently opened schema.
#[derive(Debug, Clone, PartialEq, Eq)]
pub struct RecentEntry {
    pub path: String,
    pub name: String,
}

/// Model of a [`RecentEntry`].
#[verifier::ext_equal]
pub struct EntryModel {
    pub path: Seq<char>,
    pub name: Seq<char>,
}

impl DeepView for RecentEntry {
    type V = EntryModel;

    open spec fn deep_view(&self) -> EntryModel {
        EntryModel { path: self.path@, name: self.name@ }
    }
}

/// The texts other than `x`, in order.
pub open spec fn without(list: Seq<Seq<char>>, x: Seq<char>) -> Seq<Seq<char>>
    decreases list.len(),
{
    if list.len() == 0 {
        Seq::empty()
    } else if list.last() != x {
        without(list.drop_last(), x).push(list.last())
    } else {
        without(list.drop_last(), x)
    }
}

/// The entries with another path, in order.
pub open spec fn without_path(list: Seq<EntryModel>, path: Seq<char>) -> Seq<EntryModel>
    decreases list.len(),
{
    if list.len() == 0 {
        Seq::empty()
    } else if list.last().path != path {
        without_path(list.drop_last(), path).push(list.last())
    } else {
        without_path(list.drop_last(), path)
    }
}

/// `x`, and after it as many of `rest` as the limit leaves room for.
pub open spec fn led_by<A>(x: A, rest: Seq<A>, limit: int) -> Seq<A> {
    let all = seq![x] + rest;
    all.take(if all.len() < limit {
        all.len() as int
    } else {
        limit
    })
}

/// The searches after `query`; a blank one is not remembered.
pub open spec fn searched(list: Seq<Seq<char>>, query: Seq<char>) -> Seq<Seq<char>> {
    if trim(query).len() == 0 {
        list
    } else {
        led_by(trim(query), without(list, trim(query)), 12)
    }
}

/// The recent schemas after `entry` was opened.
pub open spec fn opened(list: Seq<EntryModel>, entry: EntryModel) -> Seq<EntryModel> {
    led_by(entry, without_path(list, entry.path), 10)
}

// ── laws ───────────────────────────────────────────────────────────────────

/// What is left out, and what is kept.
proof fn lemma_without(list: Seq<Seq<char>>, x: Seq<char>)
    ensures
        forall|y: Seq<char>|
            #[trigger] without(list, x).contains(y) <==> list.contains(y) && y != x,
        list.no_duplicates() ==> without(list, x).no_duplicates(),
        without(list, x).len() <= list.len(),
    decreases list.len(),
{
    if list.len() > 0 {
        let rest = list.drop_last();
        lemma_without(rest, x);
        let kept = without(rest, x);
        let last = list.last();
        assert(list =~= rest.push(last));
        assert forall|y: Seq<char>| #[trigger] without(list, x).contains(y) <==> list.contains(y)
            && y != x by {
            lemma_push(rest, last, y);
            lemma_push(kept, last, y);
            assert(kept.contains(y) <==> rest.contains(y) && y != x);
        }
        if list.no_duplicates() {
            assert(rest.no_duplicates());
            assert(!rest.contains(last)) by {
                if rest.contains(last) {
                    let i = choose|i: int| 0 <= i < rest.len() && rest[i] == last;
                    assert(list[i] == list[list.len() - 1]);
                }
            }
            assert(!kept.contains(last)) by {
                assert(kept.contains(last) <==> rest.contains(last) && last != x);
            }
            lemma_push_distinct(kept, last);
        }
    }
}

proof fn lemma_push<A>(s: Seq<A>, x: A, y: A)
    ensures
        s.push(x).contains(y) <==> s.contains(y) || x == y,
{
    let t = s.push(x);
    if s.contains(y) {
        let i = choose|i: int| 0 <= i < s.len() && s[i] == y;
        assert(t[i] == y);
    }
    assert(t[s.len() as int] == x);
    if t.contains(y) {
        let i = choose|i: int| 0 <= i < t.len() && t[i] == y;
        if i < s.len() {
            assert(s[i] == y);
        }
    }
}

proof fn lemma_push_distinct<A>(s: Seq<A>, x: A)
    requires
        s.no_duplicates(),
        !s.contains(x),
    ensures
        s.push(x).no_duplicates(),
{
    let t = s.push(x);
    assert forall|i: int, j: int| 0 <= i < t.len() && 0 <= j < t.len() && i != j implies t[i]
        != t[j] by {
        if i < s.len() && j < s.len() {
            assert(s[i] != s[j]);
        } else if i < s.len() {
            assert(s.contains(s[i]));
        } else {
            assert(s.contains(s[j]));
        }
    }
}

/// Searching puts the query first, keeps the list within its limit and lists nothing twice.
pub proof fn a_search_comes_first(list: Seq<Seq<char>>, query: Seq<char>)
    requires
        trim(query).len() > 0,
        list.no_duplicates(),
    ensures
        searched(list, query).len() > 0,
        searched(list, query)[0] == trim(query),
        searched(list, query).len() <= 12,
        searched(list, query).no_duplicates(),
        forall|y: Seq<char>|
            #[trigger] searched(list, query).contains(y) ==> y == trim(query) || list.contains(y),
{
    let x = trim(query);
    let rest = without(list, x);
    lemma_without(list, x);
    let all = seq![x] + rest;
    assert(!rest.contains(x));
    assert forall|i: int, j: int| 0 <= i < all.len() && 0 <= j < all.len() && i != j implies all[i]
        != all[j] by {
        if i == 0 {
            assert(all[j] == rest[j - 1]);
            assert(rest.contains(rest[j - 1]));
        } else if j == 0 {
            assert(all[i] == rest[i - 1]);
            assert(rest.contains(rest[i - 1]));
        } else {
            assert(all[i] == rest[i - 1] && all[j] == rest[j - 1]);
        }
    }
    assert forall|y: Seq<char>| #[trigger] searched(list, query).contains(y) implies y == x
        || list.contains(y) by {
        let s = searched(list, query);
        let i = choose|i: int| 0 <= i < s.len() && s[i] == y;
        assert(s[i] == all[i]);
        if i > 0 {
            assert(rest[i - 1] == y);
            assert(rest.contains(y));
        }
    }
}

/// Within the limit nothing is forgotten: a list with room keeps every search.
pub proof fn searches_with_room_are_kept(list: Seq<Seq<char>>, query: Seq<char>, y: Seq<char>)
    requires
        trim(query).len() > 0,
        list.len() < 12,
        list.contains(y),
    ensures
        searched(list, query).contains(y),
{
    let x = trim(query);
    let rest = without(list, x);
    lemma_without(list, x);
    let all = seq![x] + rest;
    assert(searched(list, query) =~= all);
    if y == x {
        assert(all[0] == y);
    } else {
        assert(rest.contains(y));
        let i = choose|i: int| 0 <= i < rest.len() && rest[i] == y;
        assert(all[i + 1] == y);
    }
}

/// No two entries have one path.
pub open spec fn distinct_paths(list: Seq<EntryModel>) -> bool {
    forall|i: int, j: int|
        0 <= i < j < list.len() ==> (#[trigger] list[i]).path != (#[trigger] list[j]).path
}

proof fn lemma_without_path(list: Seq<EntryModel>, path: Seq<char>)
    ensures
        forall|i: int|
            0 <= i < without_path(list, path).len() ==> (#[trigger] without_path(
                list,
                path,
            )[i]).path != path,
        forall|i: int|
            0 <= i < without_path(list, path).len() ==> list.contains(
                #[trigger] without_path(list, path)[i],
            ),
        distinct_paths(list) ==> distinct_paths(without_path(list, path)),
    decreases list.len(),
{
    if list.len() > 0 {
        let rest = list.drop_last();
        let last = list.last();
        lemma_without_path(rest, path);
        let kept = without_path(rest, path);
        let now = without_path(list, path);
        assert(list[list.len() - 1] == last);
        assert forall|i: int| 0 <= i < now.len() implies list.contains(#[trigger] now[i]) by {
            if i < kept.len() {
                assert(now[i] == kept[i]);
                assert(rest.contains(kept[i]));
                let k = choose|k: int| 0 <= k < rest.len() && rest[k] == kept[i];
                assert(list[k] == kept[i]);
            } else {
                assert(now[i] == last);
            }
        }
        assert forall|i: int| 0 <= i < now.len() implies (#[trigger] now[i]).path != path by {
            if i < kept.len() {
                assert(now[i] == kept[i]);
            }
        }
        if distinct_paths(list) {
            assert(distinct_paths(rest)) by {
                assert forall|i: int, j: int| 0 <= i < j < rest.len() implies (
                #[trigger] rest[i]).path != (#[trigger] rest[j]).path by {
                    assert(list[i].path != list[j].path);
                }
            }
            assert forall|i: int, j: int| 0 <= i < j < now.len() implies (#[trigger] now[i]).path
                != (#[trigger] now[j]).path by {
                assert(now[i] == kept[i]);
                if j < kept.len() {
                    assert(now[j] == kept[j]);
                } else {
                    assert(rest.contains(kept[i]));
                    let k = choose|k: int| 0 <= k < rest.len() && rest[k] == kept[i];
                    assert(list[k].path != list[list.len() - 1].path);
                }
            }
        }
    }
}

/// Opening a schema puts it first, keeps the list within its limit and lists no path twice.
pub proof fn an_opened_schema_comes_first(list: Seq<EntryModel>, entry: EntryModel)
    requires
        distinct_paths(list),
    ensures
        opened(list, entry).len() > 0,
        opened(list, entry)[0] == entry,
        opened(list, entry).len() <= 10,
        distinct_paths(opened(list, entry)),
{
    lemma_without_path(list, entry.path);
    let rest = without_path(list, entry.path);
    let all = seq![entry] + rest;
    let now = opened(list, entry);
    assert forall|i: int, j: int| 0 <= i < j < now.len() implies (#[trigger] now[i]).path != (
    #[trigger] now[j]).path by {
        assert(now[i] == all[i] && now[j] == all[j]);
        assert(all[j] == rest[j - 1]);
        if i > 0 {
            assert(all[i] == rest[i - 1]);
        }
    }
}

// ── lists ──────────────────────────────────────────────────────────────────

/// Takes a search out of the list.
pub fn remove_search(list: &Vec<String>, query: &str) -> (r: Vec<String>)
    ensures
        r.deep_view() == without(list.deep_view(), query@),
{
    let ghost all = list.deep_view();
    let mut out: Vec<String> = Vec::new();
    let mut i: usize = 0;
    assert(all.take(0) =~= Seq::<Seq<char>>::empty());
    assert(out.deep_view() =~= Seq::<Seq<char>>::empty());
    while i < list.len()
        invariant
            i <= list@.len(),
            all == list.deep_view(),
            out.deep_view() == without(all.take(i as int), query@),
        decreases list@.len() - i,
    {
        let ghost before = out.deep_view();
        assert(all[i as int] == list@[i as int]@);
        assert(all.take(i as int + 1).drop_last() =~= all.take(i as int));
        if !same(list[i].as_str(), query) {
            out.push(list[i].clone());
            assert(out.deep_view() =~= before.push(all[i as int]));
        }
        i = i + 1;
    }
    assert(all.take(i as int) =~= all);
    out
}

/// The remembered searches after `query`: the trimmed query first, then the others, at most
/// [`SEARCH_LIMIT`] in all. A blank query changes nothing.
pub fn push_search(list: Vec<String>, query: &str) -> (r: Vec<String>)
    ensures
        r.deep_view() == searched(list.deep_view(), query@),
{
    let q = trimmed(query);
    if q.as_str().unicode_len() == 0 {
        return list;
    }
    let rest = remove_search(&list, q.as_str());
    let ghost kept = rest.deep_view();
    let ghost all = seq![q@] + kept;
    let mut out: Vec<String> = Vec::new();
    out.push(q);
    assert(out.deep_view() =~= all.take(1));
    let mut i: usize = 0;
    while i < rest.len() && i < SEARCH_LIMIT - 1
        invariant
            i <= rest@.len(),
            i <= SEARCH_LIMIT - 1,
            kept == rest.deep_view(),
            all.len() == kept.len() + 1,
            forall|k: int| 0 <= k < kept.len() ==> all[k + 1] == #[trigger] kept[k],
            out.deep_view() == all.take(i as int + 1),
        decreases rest@.len() - i,
    {
        let ghost before = out.deep_view();
        assert(kept[i as int] == rest@[i as int]@);
        out.push(rest[i].clone());
        assert(out.deep_view() =~= before.push(kept[i as int]));
        assert(all[i + 1] == kept[i as int]);
        assert(out.deep_view() =~= all.take(i as int + 2));
        i = i + 1;
    }
    assert(kept.len() == rest@.len());
    out
}

/// Takes the entries of a path out of the list.
pub fn remove_recent(list: &Vec<RecentEntry>, path: &str) -> (r: Vec<RecentEntry>)
    ensures
        r.deep_view() == without_path(list.deep_view(), path@),
{
    let ghost all = list.deep_view();
    let mut out: Vec<RecentEntry> = Vec::new();
    let mut i: usize = 0;
    assert(all.take(0) =~= Seq::<EntryModel>::empty());
    assert(out.deep_view() =~= Seq::<EntryModel>::empty());
    while i < list.len()
        invariant
            i <= list@.len(),
            all == list.deep_view(),
            out.deep_view() == without_path(all.take(i as int), path@),
        decreases list@.len() - i,
    {
        let ghost before = out.deep_view();
        assert(all[i as int] == list@[i as int].deep_view());
        assert(all.take(i as int + 1).drop_last() =~= all.take(i as int));
        if !same(list[i].path.as_str(), path) {
            out.push(RecentEntry { path: list[i].path.clone(), name: list[i].name.clone() });
            assert(out.deep_view() =~= before.push(all[i as int]));
        }
        i = i + 1;
    }
    assert(all.take(i as int) =~= all);
    out
}

/// The recent schemas after `entry` was opened: it comes first, then the others, at most
/// [`RECENT_LIMIT`] in all.
pub fn push_recent(list: &Vec<RecentEntry>, entry: RecentEntry) -> (r: Vec<RecentEntry>)
    ensures
        r.deep_view() == opened(list.deep_view(), entry.deep_view()),
{
    let rest = remove_recent(list, entry.path.as_str());
    let ghost kept = rest.deep_view();
    let ghost all = seq![entry.deep_view()] + kept;
    let mut out: Vec<RecentEntry> = Vec::new();
    out.push(entry);
    assert(out.deep_view() =~= all.take(1));
    let mut i: usize = 0;
    while i < rest.len() && i < RECENT_LIMIT - 1
        invariant
            i <= rest@.len(),
            i <= RECENT_LIMIT - 1,
            kept == rest.deep_view(),
            all.len() == kept.len() + 1,
            forall|k: int| 0 <= k < kept.len() ==> all[k + 1] == #[trigger] kept[k],
            out.deep_view() == all.take(i as int + 1),
        decreases rest@.len() - i,
    {
        let ghost before = out.deep_view();
        assert(kept[i as int] == rest@[i as int].deep_view());
        out.push(RecentEntry { path: rest[i].path.clone(), name: rest[i].name.clone() });
        assert(out.deep_view() =~= before.push(kept[i as int]));
        assert(all[i + 1] == kept[i as int]);
        assert(out.deep_view() =~= all.take(i as int + 2));
        i = i + 1;
    }
    assert(kept.len() == rest@.len());
    out
}

} // verus!
