//! A table of named things, in the order their names sort in.
use vstd::prelude::*;

use crate::text;

verus! {

/// Things by name: each name once, in order.
#[derive(Debug)]
pub struct Named<T> {
    items: Vec<(String, T)>,
}

/// The place of a name, where one has it.
pub open spec fn place_of<T>(items: Seq<(String, T)>, name: Seq<char>) -> Option<int> {
    if exists|i: int| 0 <= i < items.len() && (#[trigger] items[i]).0@ == name {
        Some(choose|i: int| 0 <= i < items.len() && (#[trigger] items[i]).0@ == name)
    } else {
        None
    }
}

/// Whether things stand in the order their names sort in, each name once.
pub open spec fn in_order<T>(items: Seq<(String, T)>) -> bool {
    forall|i: int, j: int|
        0 <= i < j < items.len() ==> text::before((#[trigger] items[i]).0@, (#[trigger] items[j]).0@)
}

/// Things by name.
pub open spec fn by_name<T>(items: Seq<(String, T)>) -> Map<Seq<char>, T> {
    Map::new(
        |name: Seq<char>| place_of(items, name) is Some,
        |name: Seq<char>| items[place_of(items, name)->0].1,
    )
}

pub proof fn lemma_place<T>(items: Seq<(String, T)>, i: int)
    requires
        in_order(items),
        0 <= i < items.len(),
    ensures
        place_of(items, items[i].0@) == Some(i),
        by_name(items).contains_key(items[i].0@),
        by_name(items)[items[i].0@] == items[i].1,
{
    let name = items[i].0@;
    let j = choose|j: int| 0 <= j < items.len() && (#[trigger] items[j]).0@ == name;
    text::lemma_before_is_strict(name, name);
}

/// Where a name is in a table, or would be, and what putting it there does.
proof fn lemma_put<T>(
    before: Seq<(String, T)>,
    after: Seq<(String, T)>,
    at: int,
    item: (String, T),
)
    requires
        in_order(before),
        in_order(after),
        0 <= at <= before.len(),
        after == before.insert(at, item),
    ensures
        by_name(after) == by_name(before).insert(item.0@, item.1),
{
    let want = by_name(before).insert(item.0@, item.1);
    let have = by_name(after);
    assert(after[at] == item);
    lemma_place(after, at);
    assert forall|name: Seq<char>| #[trigger] want.dom().contains(name) implies have.dom().contains(
        name,
    ) && have[name] == want[name] by {
        if name != item.0@ {
            let k = place_of(before, name)->0;
            lemma_place(before, k);
            let kk = if k < at { k } else { k + 1 };
            assert(after[kk] == before[k]);
            lemma_place(after, kk);
        }
    }
    assert forall|name: Seq<char>| #[trigger] have.dom().contains(name) implies want.dom().contains(
        name,
    ) by {
        if name != item.0@ {
            let k = place_of(after, name)->0;
            lemma_place(after, k);
            assert(k != at);
            let kk = if k < at { k } else { k - 1 };
            assert(after[k] == before[kk]);
            lemma_place(before, kk);
        }
    }
    assert(have.dom() =~= want.dom());
    assert forall|name: Seq<char>| have.dom().contains(name) implies #[trigger] have[name]
        == want[name] by {
        assert(want.dom().contains(name));
    }
    assert(have =~= want);
}

/// What putting something in the place of what has its name does.
proof fn lemma_replace<T>(
    before: Seq<(String, T)>,
    after: Seq<(String, T)>,
    at: int,
    item: (String, T),
)
    requires
        in_order(before),
        0 <= at < before.len(),
        before[at].0@ == item.0@,
        after == before.update(at, item),
    ensures
        in_order(after),
        by_name(after) == by_name(before).insert(item.0@, item.1),
{
    assert forall|i: int, j: int| 0 <= i < j < after.len() implies text::before(
        (#[trigger] after[i]).0@,
        (#[trigger] after[j]).0@,
    ) by {
        assert(before[i].0@ == after[i].0@ && before[j].0@ == after[j].0@);
    }
    let want = by_name(before).insert(item.0@, item.1);
    let have = by_name(after);
    assert(after[at] == item);
    lemma_place(after, at);
    assert forall|name: Seq<char>| #[trigger] want.dom().contains(name) implies have.dom().contains(
        name,
    ) && have[name] == want[name] by {
        if name != item.0@ {
            let k = place_of(before, name)->0;
            lemma_place(before, k);
            assert(after[k] == before[k]);
            lemma_place(after, k);
        }
    }
    assert forall|name: Seq<char>| #[trigger] have.dom().contains(name) implies want.dom().contains(
        name,
    ) by {
        if name != item.0@ {
            let k = place_of(after, name)->0;
            lemma_place(after, k);
            assert(after[k] == before[k]);
            lemma_place(before, k);
        }
    }
    assert(have.dom() =~= want.dom());
    assert forall|name: Seq<char>| have.dom().contains(name) implies #[trigger] have[name]
        == want[name] by {
        assert(want.dom().contains(name));
    }
    assert(have =~= want);
}

impl<T> View for Named<T> {
    type V = Map<Seq<char>, T>;

    closed spec fn view(&self) -> Map<Seq<char>, T> {
        by_name(self.items@)
    }
}

impl<T> Named<T> {
    /// Each name once, in order.
    pub closed spec fn wf(&self) -> bool {
        in_order(self.items@)
    }

    /// An empty table.
    pub fn new() -> (table: Self)
        ensures
            table.wf(),
            table@ == Map::<Seq<char>, T>::empty(),
            table.sorted().len() == 0,
    {
        let table = Named { items: Vec::new() };
        assert(table@ =~= Map::<Seq<char>, T>::empty());
        table
    }

    /// Names something; what had the name before is dropped.
    pub fn insert(&mut self, name: String, value: T)
        requires
            old(self).wf(),
        ensures
            final(self).wf(),
            final(self)@ == old(self)@.insert(name@, value),
            final(self).sorted().len() == old(self).sorted().len() + if old(self)@.contains_key(
                name@,
            ) {
                0int
            } else {
                1
            },
    {
        let ghost before = self.items@;
        let ghost item = (name, value);
        let mut at: usize = 0;
        while at < self.items.len() && text::sorts_before(
            self.items[at].0.as_str(),
            name.as_str(),
        )
            invariant
                at <= self.items@.len(),
                self.items@ == before,
                forall|i: int| 0 <= i < at ==> text::before((#[trigger] before[i]).0@, name@),
            decreases self.items@.len() - at,
        {
            at += 1;
        }
        if at < self.items.len() && text::same(self.items[at].0.as_str(), name.as_str()) {
            self.items.set(at, (name, value));
            proof {
                lemma_place(before, at as int);
                lemma_replace(before, self.items@, at as int, item);
            }
            return;
        }
        self.items.insert(at, (name, value));
        let ghost after = self.items@;
        proof {
            assert(after =~= before.insert(at as int, item));
            assert forall|i: int, j: int| 0 <= i < j < after.len() implies text::before(
                (#[trigger] after[i]).0@,
                (#[trigger] after[j]).0@,
            ) by {
                if at < before.len() {
                    text::lemma_before_is_strict(before[at as int].0@, item.0@);
                }
                if j == at {
                    assert(after[i] == before[i]);
                } else if i == at {
                    assert(after[j] == before[j - 1]);
                    if j - 1 > at {
                        text::lemma_before_chains(item.0@, before[at as int].0@, before[j - 1].0@);
                    }
                } else {
                    let x = if i < at { i } else { i - 1 };
                    let y = if j < at { j } else { j - 1 };
                    assert(after[i] == before[x] && after[j] == before[y]);
                }
            }
            lemma_put(before, after, at as int, item);
            assert forall|j: int| 0 <= j < before.len() implies (#[trigger] before[j]).0@ != name@ by {
                if j < at {
                    text::lemma_before_is_strict(before[j].0@, name@);
                } else if j > at {
                    assert(text::before(before[at as int].0@, before[j].0@));
                }
            }
        }
    }

    /// What has a name.
    pub fn get(&self, name: &str) -> (found: Option<&T>)
        requires
            self.wf(),
        ensures
            match found {
                Some(value) => self@.contains_pair(name@, *value),
                None => !self@.contains_key(name@),
            },
    {
        let mut i: usize = 0;
        while i < self.items.len()
            invariant
                i <= self.items@.len(),
                self.wf(),
                forall|k: int| 0 <= k < i ==> (#[trigger] self.items@[k]).0@ != name@,
            decreases self.items@.len() - i,
        {
            if text::same(self.items[i].0.as_str(), name) {
                proof {
                    lemma_place(self.items@, i as int);
                }
                return Some(&self.items[i].1);
            }
            i += 1;
        }
        None
    }

    /// How many names there are.
    pub fn len(&self) -> (n: usize)
        ensures
            n == self.sorted().len(),
    {
        self.items.len()
    }

    /// The names and what they name, in the order the names sort in.
    pub closed spec fn sorted(&self) -> Seq<(String, T)> {
        self.items@
    }

    /// The names and what they name, in the order the names sort in.
    pub fn items(&self) -> (items: &Vec<(String, T)>)
        requires
            self.wf(),
        ensures
            items@ == self.sorted(),
            in_order(items@),
            by_name(items@) == self@,
    {
        &self.items
    }
}

} // verus!
