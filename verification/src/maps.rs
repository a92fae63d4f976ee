//! Values under names, each name once.

use crate::text;
use vstd::prelude::*;

verus! {

broadcast use vstd::string::group_string_axioms;

/// One value for each name that has one.
#[derive(Debug, Clone)]
pub struct NameMap<V> {
    entries: Vec<(String, V)>,
}

/// The value of the first of the entries from `i` on with this name.
pub open spec fn value_from<V>(s: Seq<(String, V)>, name: Seq<char>, i: int) -> Option<V>
    decreases s.len() - i,
{
    if i < 0 || i >= s.len() {
        None
    } else if s[i].0@ == name {
        Some(s[i].1)
    } else {
        value_from(s, name, i + 1)
    }
}

/// No name occurs twice.
pub open spec fn each_once<V>(s: Seq<(String, V)>) -> bool {
    forall|i: int, j: int|
        0 <= i < j < s.len() ==> (#[trigger] s[i]).0@ != (#[trigger] s[j]).0@
}

/// The value of the last of the first `n` entries with this name.
pub open spec fn last_value<V>(s: Seq<(String, V)>, name: Seq<char>, n: int) -> Option<V>
    decreases n,
{
    if n <= 0 {
        None
    } else if s[n - 1].0@ == name {
        Some(s[n - 1].1)
    } else {
        last_value(s, name, n - 1)
    }
}

impl<V> NameMap<V> {
    /// The names and their values, in the order in which the names came.
    pub closed spec fn view(&self) -> Seq<(String, V)> {
        self.entries@
    }

    /// No name has two values.
    pub open spec fn wf(&self) -> bool {
        each_once(self@)
    }

    /// The value of a name.
    pub open spec fn of(&self, name: Seq<char>) -> Option<V> {
        value_from(self@, name, 0)
    }

    /// No names yet.
    pub fn new() -> (res: NameMap<V>)
        ensures
            res.wf(),
            res@ == Seq::<(String, V)>::empty(),
            forall|name: Seq<char>| (#[trigger] res.of(name)) is None,
    {
        NameMap { entries: Vec::new() }
    }

    /// The place of a name.
    fn place(&self, name: &str) -> (res: Option<usize>)
        ensures
            match res {
                Some(k) => {
                    &&& k < self@.len()
                    &&& self@[k as int].0@ == name@
                    &&& self.of(name@) == Some(self@[k as int].1)
                    &&& forall|j: int| 0 <= j < k ==> (#[trigger] self@[j]).0@ != name@
                },
                None => {
                    &&& self.of(name@) is None
                    &&& forall|j: int|
                        0 <= j < self@.len() ==> (#[trigger] self@[j]).0@ != name@
                },
            },
    {
        let ghost all = self@;
        let mut i: usize = 0;
        while i < self.entries.len()
            invariant
                i <= self.entries@.len(),
                all == self.entries@,
                all == self@,
                self.of(name@) == value_from(all, name@, i as int),
                forall|j: int| 0 <= j < i ==> (#[trigger] all[j]).0@ != name@,
            decreases self.entries@.len() - i,
        {
            assert(all[i as int] == self.entries@[i as int]);
            if text::same(self.entries[i].0.as_str(), name) {
                return Some(i);
            }
            i += 1;
        }
        None
    }

    /// The value of a name.
    pub fn get(&self, name: &str) -> (res: Option<&V>)
        ensures
            match res {
                Some(v) => self.of(name@) == Some(*v),
                None => self.of(name@) is None,
            },
    {
        match self.place(name) {
            Some(k) => Some(&self.entries[k].1),
            None => None,
        }
    }

    /// Gives a name a value in place of any before.
    pub fn set(&mut self, name: &str, value: V)
        requires
            old(self).wf(),
        ensures
            final(self).wf(),
            forall|other: Seq<char>|
                (#[trigger] final(self).of(other)) == if other == name@ {
                    Some(value)
                } else {
                    old(self).of(other)
                },
    {
        let ghost before = self@;
        let entry = (name.to_owned(), value);
        match self.place(name) {
            Some(k) => {
                self.entries.set(k, entry);
                assert(self@ =~= before.update(k as int, entry));
                assert forall|other: Seq<char>| (#[trigger] self.of(other)) == if other == name@ {
                    Some(value)
                } else {
                    old(self).of(other)
                } by {
                    lemma_value_updated(before, k as int, entry, other, 0);
                }
            },
            None => {
                self.entries.push(entry);
                assert(self@ =~= before.push(entry));
                assert forall|other: Seq<char>| (#[trigger] self.of(other)) == if other == name@ {
                    Some(value)
                } else {
                    old(self).of(other)
                } by {
                    lemma_value_pushed(before, entry, other, 0);
                }
            },
        }
    }

    /// The names and their values.
    pub fn entries(&self) -> (res: &Vec<(String, V)>)
        ensures
            res@ == self@,
    {
        &self.entries
    }
}

/// The names of a list with their values; of two values for a name the later one.
pub fn collect(list: Vec<(String, String)>) -> (res: NameMap<String>)
    ensures
        res.wf(),
        forall|name: Seq<char>|
            text::opt(#[trigger] res.of(name)) == text::opt(
                last_value(list@, name, list@.len() as int),
            ),
{
    let mut res: NameMap<String> = NameMap::new();
    let mut i: usize = 0;
    while i < list.len()
        invariant
            i <= list@.len(),
            res.wf(),
            forall|name: Seq<char>|
                text::opt(#[trigger] res.of(name)) == text::opt(
                    last_value(list@, name, i as int),
                ),
        decreases list@.len() - i,
    {
        let ghost before = res;
        res.set(list[i].0.as_str(), list[i].1.clone());
        assert forall|name: Seq<char>|
            text::opt(#[trigger] res.of(name)) == text::opt(
                last_value(list@, name, i + 1),
            ) by {
            assert(text::opt(before.of(name)) == text::opt(last_value(list@, name, i as int)));
        }
        i += 1;
    }
    res
}

/// A copy of names with texts.
pub fn copy_texts(map: &NameMap<String>) -> (res: NameMap<String>)
    ensures
        text::pairs(res@) == text::pairs(map@),
        map.wf() ==> res.wf(),
{
    let res = NameMap { entries: text::copy_pairs(&map.entries) };
    assert(text::pairs(res@) == text::pairs(map@));
    assert(map.wf() ==> res.wf()) by {
        if map.wf() {
            assert forall|i: int, j: int| 0 <= i < j < res@.len() implies (#[trigger] res@[i]).0@
                != (#[trigger] res@[j]).0@ by {
                assert(text::pairs(res@)[i] == text::pairs(map@)[i]);
                assert(text::pairs(res@)[j] == text::pairs(map@)[j]);
            }
        }
    }
    res
}

/// Where each name occurs once, each entry holds the value of its name.
pub proof fn lemma_value_at<V>(s: Seq<(String, V)>, i: int)
    requires
        each_once(s),
        0 <= i < s.len(),
    ensures
        value_from(s, s[i].0@, 0) == Some(s[i].1),
{
    lemma_value_from_at(s, i, 0);
}

proof fn lemma_value_from_at<V>(s: Seq<(String, V)>, i: int, j: int)
    requires
        each_once(s),
        0 <= j <= i < s.len(),
    ensures
        value_from(s, s[i].0@, j) == Some(s[i].1),
    decreases i - j,
{
    if j < i {
        assert(s[j].0@ != s[i].0@);
        lemma_value_from_at(s, i, j + 1);
    }
}

/// The value of a name is held by one of the entries.
pub proof fn lemma_value_is_held<V>(s: Seq<(String, V)>, name: Seq<char>, i: int)
    requires
        0 <= i,
    ensures
        value_from(s, name, i) matches Some(v) ==> exists|j: int|
            0 <= j < s.len() && (#[trigger] s[j]).1 == v,
    decreases s.len() - i,
{
    if i < s.len() {
        if s[i].0@ == name {
            assert(s[i].1 == s[i].1);
        } else {
            lemma_value_is_held(s, name, i + 1);
        }
    }
}

proof fn lemma_value_updated<V>(
    s: Seq<(String, V)>,
    k: int,
    entry: (String, V),
    name: Seq<char>,
    i: int,
)
    requires
        0 <= i <= k < s.len(),
        s[k].0@ == entry.0@,
        forall|j: int| 0 <= j < k ==> (#[trigger] s[j]).0@ != entry.0@,
    ensures
        value_from(s.update(k, entry), name, i) == if name == entry.0@ {
            Some(entry.1)
        } else {
            value_from(s, name, i)
        },
    decreases k - i,
{
    let t = s.update(k, entry);
    if i < k {
        assert(t[i] == s[i]);
        lemma_value_updated(s, k, entry, name, i + 1);
    } else if name != entry.0@ {
        lemma_value_behind(s, t, name, k + 1);
    }
}

proof fn lemma_value_behind<V>(
    s: Seq<(String, V)>,
    t: Seq<(String, V)>,
    name: Seq<char>,
    i: int,
)
    requires
        0 <= i,
        s.len() == t.len(),
        forall|j: int| i <= j < s.len() ==> (#[trigger] s[j]) == t[j],
    ensures
        value_from(s, name, i) == value_from(t, name, i),
    decreases s.len() - i,
{
    if i < s.len() {
        assert(s[i] == t[i]);
        lemma_value_behind(s, t, name, i + 1);
    }
}

proof fn lemma_value_pushed<V>(
    s: Seq<(String, V)>,
    entry: (String, V),
    name: Seq<char>,
    i: int,
)
    requires
        0 <= i <= s.len(),
        forall|j: int| 0 <= j < s.len() ==> (#[trigger] s[j]).0@ != entry.0@,
    ensures
        value_from(s.push(entry), name, i) == if name == entry.0@ {
            Some(entry.1)
        } else {
            value_from(s, name, i)
        },
    decreases s.len() - i,
{
    let t = s.push(entry);
    if i < s.len() {
        assert(t[i] == s[i]);
        lemma_value_pushed(s, entry, name, i + 1);
    } else {
        assert(t[i] == entry);
        assert(value_from(t, name, i + 1) is None);
    }
}

/// The value of a name in a list is that of the last entry for it, wherever it stands;
/// a name without an entry has none.
pub proof fn law_last_value<V>(s: Seq<(String, V)>, name: Seq<char>)
    ensures
        match last_value(s, name, s.len() as int) {
            Some(v) => exists|i: int|
                0 <= i < s.len() && (#[trigger] s[i]).0@ == name && s[i].1 == v && forall|j: int|
                    i < j < s.len() ==> (#[trigger] s[j]).0@ != name,
            None => forall|i: int| 0 <= i < s.len() ==> (#[trigger] s[i]).0@ != name,
        },
{
    lemma_last_value(s, name, s.len() as int);
}

proof fn lemma_last_value<V>(s: Seq<(String, V)>, name: Seq<char>, n: int)
    requires
        0 <= n <= s.len(),
    ensures
        match last_value(s, name, n) {
            Some(v) => exists|i: int|
                0 <= i < n && (#[trigger] s[i]).0@ == name && s[i].1 == v && forall|j: int|
                    i < j < n ==> (#[trigger] s[j]).0@ != name,
            None => forall|i: int| 0 <= i < n ==> (#[trigger] s[i]).0@ != name,
        },
    decreases n,
{
    if n > 0 && s[n - 1].0@ != name {
        lemma_last_value(s, name, n - 1);
    } else if n > 0 {
        assert(s[n - 1].0@ == name);
    }
}

/// The value of a name in a map is that of its entry, wherever it stands; a name without
/// an entry has none.
pub proof fn law_value<V>(s: Seq<(String, V)>, name: Seq<char>)
    requires
        each_once(s),
    ensures
        forall|i: int|
            0 <= i < s.len() && (#[trigger] s[i]).0@ == name ==> value_from(s, name, 0) == Some(
                s[i].1,
            ),
        (forall|i: int| 0 <= i < s.len() ==> (#[trigger] s[i]).0@ != name) ==> value_from(
            s,
            name,
            0,
        ) is None,
{
    lemma_value_found(s, name, 0);
}

proof fn lemma_value_found<V>(s: Seq<(String, V)>, name: Seq<char>, i: int)
    requires
        0 <= i,
        each_once(s),
    ensures
        forall|k: int|
            i <= k < s.len() && (#[trigger] s[k]).0@ == name ==> value_from(s, name, i) == Some(
                s[k].1,
            ),
        (forall|k: int| i <= k < s.len() ==> (#[trigger] s[k]).0@ != name) ==> value_from(
            s,
            name,
            i,
        ) is None,
    decreases s.len() - i,
{
    if i < s.len() {
        lemma_value_found(s, name, i + 1);
    }
}

} // verus!
