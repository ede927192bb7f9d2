//! Lists of names: lookups, copies and set-like growth over sequences of texts.

use vstd::prelude::*;

use crate::text::same;

verus! {

/// The last place of `name` in `names`, or -1.
pub open spec fn last_place(names: Seq<Seq<char>>, name: Seq<char>) -> int
    decreases names.len(),
{
    if names.len() == 0 {
        -1
    } else if names.last() == name {
        names.len() - 1
    } else {
        last_place(names.drop_last(), name)
    }
}

/// The first place of `name` in `names`, or the length of `names`.
pub open spec fn first_place(names: Seq<Seq<char>>, name: Seq<char>) -> int
    decreases names.len(),
{
    if names.len() == 0 {
        0
    } else {
        let before = first_place(names.drop_last(), name);
        if before < names.len() - 1 || names.last() == name {
            before
        } else {
            names.len() as int
        }
    }
}

pub proof fn lemma_last_place(names: Seq<Seq<char>>, name: Seq<char>)
    ensures
        -1 <= last_place(names, name) < names.len(),
        last_place(names, name) >= 0 ==> names[last_place(names, name)] == name,
        forall|i: int| last_place(names, name) < i < names.len() ==> #[trigger] names[i] != name,
        last_place(names, name) >= 0 <==> names.contains(name),
    decreases names.len(),
{
    if names.len() > 0 {
        let rest = names.drop_last();
        lemma_last_place(rest, name);
        assert(names.last() == names[names.len() - 1]);
        if names.contains(name) && names.last() != name {
            let i = choose|i: int| 0 <= i < names.len() && names[i] == name;
            assert(rest[i] == name);
        }
        assert forall|i: int| last_place(names, name) < i < names.len() implies #[trigger] names[i]
            != name by {
            if i < names.len() - 1 {
                assert(rest[i] == names[i]);
            }
        }
        if last_place(names, name) >= 0 {
            assert(names[last_place(names, name)] == name);
        }
    }
}

pub proof fn lemma_first_place(names: Seq<Seq<char>>, name: Seq<char>)
    ensures
        0 <= first_place(names, name) <= names.len(),
        first_place(names, name) < names.len() ==> names[first_place(names, name)] == name,
        forall|i: int| 0 <= i < first_place(names, name) ==> #[trigger] names[i] != name,
        first_place(names, name) < names.len() <==> names.contains(name),
    decreases names.len(),
{
    if names.len() > 0 {
        let rest = names.drop_last();
        lemma_first_place(rest, name);
        assert(names.last() == names[names.len() - 1]);
        assert forall|i: int| 0 <= i < first_place(names, name) implies #[trigger] names[i] != name by {
            if i < names.len() - 1 {
                assert(rest[i] == names[i]);
            }
        }
        if first_place(names, name) < names.len() {
            assert(names[first_place(names, name)] == name);
        }
    }
}

/// The first place is fixed by what stands there and before.
pub proof fn lemma_first_place_is(names: Seq<Seq<char>>, name: Seq<char>, at: int)
    requires
        0 <= at <= names.len(),
        at < names.len() ==> names[at] == name,
        forall|i: int| 0 <= i < at ==> #[trigger] names[i] != name,
    ensures
        first_place(names, name) == at,
{
    lemma_first_place(names, name);
}

/// The last place is fixed by what stands there and after.
pub proof fn lemma_last_place_is(names: Seq<Seq<char>>, name: Seq<char>, at: int)
    requires
        -1 <= at < names.len(),
        at >= 0 ==> names[at] == name,
        forall|i: int| at < i < names.len() ==> #[trigger] names[i] != name,
    ensures
        last_place(names, name) == at,
{
    lemma_last_place(names, name);
}

/// Whether `name` is one of `names`.
pub fn has_name(names: &Vec<String>, name: &str) -> (r: bool)
    ensures
        r == names.deep_view().contains(name@),
{
    let mut i: usize = 0;
    while i < names.len()
        invariant
            i <= names@.len(),
            forall|j: int| 0 <= j < i ==> names.deep_view()[j] != name@,
        decreases names@.len() - i,
    {
        if same(names[i].as_str(), name) {
            assert(names.deep_view()[i as int] == name@);
            return true;
        }
        i = i + 1;
    }
    false
}

/// A copy of a text that may be missing.
pub fn copy_text(t: &Option<String>) -> (r: Option<String>)
    ensures
        r == *t,
        r.deep_view() == t.deep_view(),
{
    match t {
        Some(s) => Some(s.clone()),
        None => None,
    }
}

/// A copy of a list of names.
pub fn copy_names(names: &Vec<String>) -> (r: Vec<String>)
    ensures
        r.deep_view() == names.deep_view(),
{
    let mut out: Vec<String> = Vec::new();
    let mut i: usize = 0;
    while i < names.len()
        invariant
            i <= names@.len(),
            out.deep_view() == names.deep_view().take(i as int),
        decreases names@.len() - i,
    {
        let ghost before = out.deep_view();
        out.push(names[i].clone());
        assert(out.deep_view() =~= before.push(names.deep_view()[i as int]));
        assert(names.deep_view().take(i as int + 1) =~= before.push(names.deep_view()[i as int]));
        i = i + 1;
    }
    assert(out.deep_view() =~= names.deep_view());
    out
}

/// A small map keyed by names; each name is kept once.
#[derive(Debug)]
pub struct Table<V> {
    keys: Vec<String>,
    values: Vec<V>,
}

impl<V: DeepView> Table<V> {
    /// What each name maps to.
    pub closed spec fn map(self) -> Map<Seq<char>, V::V> {
        let keys = self.keys.deep_view();
        let values = self.values.deep_view();
        Map::new(|k: Seq<char>| keys.contains(k), |k: Seq<char>| values[last_place(keys, k)])
    }

    /// The names, in the order they were first inserted.
    pub closed spec fn names(self) -> Seq<Seq<char>> {
        self.keys.deep_view()
    }

    /// Every name has one value.
    pub closed spec fn well_formed(self) -> bool {
        &&& self.keys@.len() == self.values@.len()
        &&& self.keys.deep_view().no_duplicates()
    }

    /// The empty map.
    pub fn new() -> (r: Table<V>)
        ensures
            r.well_formed(),
            r.map() == Map::<Seq<char>, V::V>::empty(),
            r.names() == Seq::<Seq<char>>::empty(),
    {
        let r = Table { keys: Vec::new(), values: Vec::new() };
        assert(r.map() =~= Map::<Seq<char>, V::V>::empty());
        assert(r.names() =~= Seq::<Seq<char>>::empty());
        r
    }

    /// How many names are mapped.
    pub fn len(&self) -> (r: usize)
        ensures
            r == self.names().len(),
    {
        self.keys.len()
    }

    /// The names are the keys, each once.
    pub proof fn lemma_names(&self)
        requires
            self.well_formed(),
        ensures
            self.names().no_duplicates(),
            forall|k: Seq<char>| self.names().contains(k) <==> self.map().dom().contains(k),
    {
    }

    /// The names, in the order they were first inserted.
    pub fn keys(&self) -> (r: Vec<String>)
        ensures
            r.deep_view() == self.names(),
    {
        copy_names(&self.keys)
    }

    fn place(&self, key: &str) -> (r: Option<usize>)
        requires
            self.well_formed(),
        ensures
            match r {
                Some(i) => i < self.keys@.len() && i == last_place(self.keys.deep_view(), key@)
                    && self.map().dom().contains(key@),
                None => !self.map().dom().contains(key@),
            },
    {
        let ghost names = self.keys.deep_view();
        let mut i: usize = self.keys.len();
        while i > 0
            invariant
                i <= self.keys@.len(),
                names == self.keys.deep_view(),
                forall|j: int| i <= j < self.keys@.len() ==> #[trigger] names[j] != key@,
            decreases i,
        {
            i = i - 1;
            assert(names[i as int] == self.keys@[i as int]@);
            if same(self.keys[i].as_str(), key) {
                proof {
                    lemma_last_place_is(names, key@, i as int);
                    assert(names.contains(key@));
                }
                return Some(i);
            }
        }
        proof {
            lemma_last_place_is(names, key@, -1);
            lemma_last_place(names, key@);
        }
        None
    }

    /// Whether `key` is mapped.
    pub fn has(&self, key: &str) -> (r: bool)
        requires
            self.well_formed(),
        ensures
            r == self.map().dom().contains(key@),
    {
        self.place(key).is_some()
    }

    /// What `key` maps to.
    pub fn get(&self, key: &str) -> (r: Option<&V>)
        requires
            self.well_formed(),
        ensures
            match r {
                Some(v) => self.map().dom().contains(key@) && v.deep_view() == self.map()[key@],
                None => !self.map().dom().contains(key@),
            },
    {
        match self.place(key) {
            Some(i) => {
                assert(self.values.deep_view()[i as int] == self.values@[i as int].deep_view());
                Some(&self.values[i])
            },
            None => None,
        }
    }

    /// Maps `key` to `value`, in place of what it mapped to.
    pub fn insert(&mut self, key: &str, value: V)
        requires
            old(self).well_formed(),
        ensures
            final(self).well_formed(),
            final(self).map() == old(self).map().insert(key@, value.deep_view()),
            final(self).names() == (if old(self).map().dom().contains(key@) {
                old(self).names()
            } else {
                old(self).names().push(key@)
            }),
    {
        let ghost keys0 = self.keys.deep_view();
        let ghost values0 = self.values.deep_view();
        let ghost map0 = self.map();
        let ghost vm = value.deep_view();
        match self.place(key) {
            Some(i) => {
                self.values.set(i, value);
                proof {
                    let keys1 = self.keys.deep_view();
                    let values1 = self.values.deep_view();
                    assert(keys1 == keys0);
                    assert(values1 =~= values0.update(i as int, vm));
                    lemma_last_place(keys0, key@);
                    assert forall|k: Seq<char>| #[trigger] keys0.contains(k) && k != key@ implies values1[last_place(
                        keys0,
                        k,
                    )] == values0[last_place(keys0, k)] by {
                        lemma_last_place(keys0, k);
                    }
                    assert(self.map() =~= map0.insert(key@, vm));
                }
            },
            None => {
                self.keys.push(key.to_owned());
                self.values.push(value);
                proof {
                    let keys1 = self.keys.deep_view();
                    let values1 = self.values.deep_view();
                    assert(keys1 =~= keys0.push(key@));
                    assert(values1 =~= values0.push(vm));
                    assert(!keys0.contains(key@));
                    assert(keys1.no_duplicates());
                    assert(keys1.drop_last() =~= keys0);
                    assert forall|k: Seq<char>| keys1.contains(k) <==> (keys0.contains(k) || k == key@) by {
                        if keys0.contains(k) {
                            let j = choose|j: int| 0 <= j < keys0.len() && keys0[j] == k;
                            assert(keys1[j] == k);
                        }
                        if k == key@ {
                            assert(keys1[keys0.len() as int] == k);
                        }
                        if keys1.contains(k) && k != key@ {
                            let j = choose|j: int| 0 <= j < keys1.len() && keys1[j] == k;
                            assert(keys0[j] == k);
                        }
                    }
                    assert forall|k: Seq<char>| #[trigger] keys0.contains(k) implies values1[last_place(
                        keys1,
                        k,
                    )] == values0[last_place(keys0, k)] by {
                        lemma_last_place(keys0, k);
                    }
                    assert(last_place(keys1, key@) == keys0.len());
                    assert(self.map() =~= map0.insert(key@, vm));
                }
            },
        }
    }
}

} // verus!
