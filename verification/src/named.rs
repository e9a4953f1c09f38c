//! Values by name, one for each name.
use vstd::prelude::*;

verus! {

pub struct Entry<T> {
    pub name: String,
    pub value: T,
}

pub struct Named<T> {
    list: Vec<Entry<T>>,
}

/// Whether the entry at `index` is the one of the name `name`.
pub open spec fn is_entry<T>(list: Seq<Entry<T>>, name: Seq<char>, index: int) -> bool {
    0 <= index < list.len() && list[index].name@ == name
}

/// The values by their names.
pub open spec fn by_name<T>(list: Seq<Entry<T>>) -> Map<Seq<char>, T> {
    Map::new(
        |name: Seq<char>| exists|index: int| is_entry(list, name, index),
        |name: Seq<char>| list[choose|index: int| is_entry(list, name, index)].value,
    )
}

spec fn distinct<T>(list: Seq<Entry<T>>) -> bool {
    forall|i: int, j: int| 0 <= i < j < list.len() ==> (#[trigger] list[i]).name@ != (#[trigger] list[j]).name@
}

proof fn the_entry_is_the_value<T>(list: Seq<Entry<T>>, name: Seq<char>, index: int)
    requires
        distinct(list),
        is_entry(list, name, index),
    ensures
        by_name(list).dom().contains(name),
        by_name(list)[name] == list[index].value,
        forall|other: int| is_entry(list, name, other) ==> other == index,
{
    assert forall|other: int| is_entry(list, name, other) implies other == index by {
        if other < index {
            assert(list[other].name@ != list[index].name@);
        } else if index < other {
            assert(list[index].name@ != list[other].name@);
        }
    }
}

/// One more or another value of a name leaves the values of the other names.
proof fn rest_is_kept<T>(before: Seq<Entry<T>>, after: Seq<Entry<T>>, name: Seq<char>, value: T, index: int)
    requires
        distinct(before),
        distinct(after),
        is_entry(after, name, index),
        after[index].value == value,
        before.len() <= after.len(),
        forall|i: int| 0 <= i < after.len() && i != index ==> i < before.len() && (#[trigger] after[i]) == before[i],
        index < before.len() ==> before[index].name@ == name,
    ensures
        by_name(after) == by_name(before).insert(name, value),
{
    the_entry_is_the_value(after, name, index);
    let wanted = by_name(before).insert(name, value);
    assert forall|other: Seq<char>| #[trigger] by_name(after).dom().contains(other) == wanted.dom().contains(
        other,
    ) by {
        if other != name {
            if by_name(before).dom().contains(other) {
                let i = choose|i: int| is_entry(before, other, i);
                assert(after[i] == before[i]);
                assert(is_entry(after, other, i));
            }
            if by_name(after).dom().contains(other) {
                let i = choose|i: int| is_entry(after, other, i);
                assert(is_entry(before, other, i));
            }
        }
    }
    assert forall|other: Seq<char>| #[trigger] by_name(after).dom().contains(other) implies by_name(after)[other]
        == wanted[other] by {
        if other != name {
            let i = choose|i: int| is_entry(after, other, i);
            assert(after[i] == before[i]);
            assert(is_entry(before, other, i));
            the_entry_is_the_value(before, other, i);
            the_entry_is_the_value(after, other, i);
        }
    }
    assert(by_name(after) =~= wanted);
}

impl<T: Copy> Named<T> {
    /// No two entries are of one name.
    pub closed spec fn valid(self) -> bool {
        distinct(self.list@)
    }

    pub closed spec fn entries(self) -> Seq<Entry<T>> {
        self.list@
    }

    pub open spec fn view(&self) -> Map<Seq<char>, T> {
        by_name(self.entries())
    }

    pub fn new() -> (table: Named<T>)
        ensures
            table.valid(),
            table.entries().len() == 0,
            table@ == Map::<Seq<char>, T>::empty(),
    {
        let table = Named { list: Vec::new() };
        assert(table@ =~= Map::<Seq<char>, T>::empty()) by {
            assert forall|name: Seq<char>| !table@.dom().contains(name) by {}
        }
        table
    }

    pub fn len(&self) -> (count: usize)
        ensures
            count == self.entries().len(),
    {
        self.list.len()
    }

    pub fn is_empty(&self) -> (empty: bool)
        ensures
            empty == (self.entries().len() == 0),
    {
        self.list.len() == 0
    }

    /// There is a name for each entry.
    pub proof fn names_match_entries(&self)
        requires
            self.valid(),
        ensures
            self@.dom().finite(),
            self@.dom().len() == self.entries().len(),
    {
        let list = self.list@;
        names_are_counted(list, list.len());
        assert(prefix_names(list, list.len()) =~= self@.dom()) by {
            assert forall|name: Seq<char>| prefix_names(list, list.len()).contains(name) == self@.dom().contains(
                name,
            ) by {
                if prefix_names(list, list.len()).contains(name) {
                    let index = choose|index: int| 0 <= index < list.len() && list[index].name@ == name;
                    assert(is_entry(list, name, index));
                }
            }
        }
    }

    /// Every entry is the value of its name.
    pub proof fn entry_is_value(&self, index: int)
        requires
            self.valid(),
            0 <= index < self.entries().len(),
        ensures
            self@.dom().contains(self.entries()[index].name@),
            self@[self.entries()[index].name@] == self.entries()[index].value,
    {
        assert(is_entry(self.list@, self.list@[index].name@, index));
        the_entry_is_the_value(self.list@, self.list@[index].name@, index);
    }

    /// Every name has an entry.
    pub proof fn value_has_entry(&self, name: Seq<char>) -> (index: int)
        requires
            self.valid(),
            self@.dom().contains(name),
        ensures
            0 <= index < self.entries().len(),
            self.entries()[index].name@ == name,
            self.entries()[index].value == self@[name],
    {
        choose|index: int| is_entry(self.list@, name, index)
    }

    /// The value of the entry at `index`.
    pub fn at(&self, index: usize) -> (value: T)
        requires
            index < self.entries().len(),
        ensures
            value == self.entries()[index as int].value,
    {
        self.list[index].value
    }

    fn place(&self, name: &str) -> (place: Option<usize>)
        ensures
            match place {
                Some(index) => is_entry(self.list@, name@, index as int),
                None => forall|index: int| !is_entry(self.list@, name@, index),
            },
    {
        let wanted = String::from_str(name);
        let count: usize = self.list.len();
        for index in 0..count
            invariant
                count == self.list@.len(),
                wanted@ == name@,
                forall|i: int| 0 <= i < index ==> !is_entry(self.list@, name@, i),
        {
            if self.list[index].name == wanted {
                assert(is_entry(self.list@, name@, index as int));
                return Some(index);
            }
        }
        None
    }

    /// The value of the name `name`, if there is one.
    pub fn get(&self, name: &str) -> (value: Option<T>)
        requires
            self.valid(),
        ensures
            value == (if self@.dom().contains(name@) {
                Some(self@[name@])
            } else {
                None
            }),
    {
        match self.place(name) {
            Some(index) => {
                proof {
                    the_entry_is_the_value(self.list@, name@, index as int);
                }
                Some(self.list[index].value)
            },
            None => None,
        }
    }

    pub fn contains(&self, name: &str) -> (held: bool)
        ensures
            held == self@.dom().contains(name@),
    {
        self.place(name).is_some()
    }

    /// Puts a value in the table, in place of the one of its name.
    pub fn insert(&mut self, name: String, value: T)
        requires
            old(self).valid(),
        ensures
            final(self).valid(),
            final(self)@ == old(self)@.insert(name@, value),
    {
        let ghost before = self.list@;
        let ghost words = name@;
        match self.place(name.as_str()) {
            Some(index) => {
                self.list[index] = Entry { name, value };
                proof {
                    let after = self.list@;
                    assert(is_entry(after, words, index as int));
                    rest_is_kept(before, after, words, value, index as int);
                }
            },
            None => {
                self.list.push(Entry { name, value });
                proof {
                    let after = self.list@;
                    let last = before.len() as int;
                    assert forall|i: int, j: int| 0 <= i < j < after.len() implies (#[trigger] after[i]).name@ != (
                    #[trigger] after[j]).name@ by {
                        if j == last {
                            assert(!is_entry(before, words, i));
                        }
                    }
                    assert(is_entry(after, words, last));
                    rest_is_kept(before, after, words, value, last);
                }
            },
        }
    }
}

spec fn prefix_names<T>(list: Seq<Entry<T>>, count: nat) -> Set<Seq<char>> {
    Set::new(|name: Seq<char>| exists|index: int| 0 <= index < count && (#[trigger] list[index]).name@ == name)
}

proof fn names_are_counted<T>(list: Seq<Entry<T>>, count: nat)
    requires
        distinct(list),
        count <= list.len(),
    ensures
        prefix_names(list, count).finite(),
        prefix_names(list, count).len() == count,
    decreases count,
{
    if count == 0 {
        assert(prefix_names(list, 0) =~= Set::empty());
    } else {
        let less = (count - 1) as nat;
        names_are_counted(list, less);
        let name = list[count - 1].name@;
        assert(!prefix_names(list, less).contains(name));
        assert(prefix_names(list, count) =~= prefix_names(list, less).insert(name)) by {
            assert forall|other: Seq<char>| prefix_names(list, count).contains(other) == prefix_names(
                list,
                less,
            ).insert(name).contains(other) by {
                if prefix_names(list, less).contains(other) {
                    let index = choose|index: int| 0 <= index < less && (#[trigger] list[index]).name@ == other;
                    assert(list[index].name@ == other);
                }
                if other == name {
                    assert(list[count - 1].name@ == other);
                }
            }
        }
    }
}

} // verus!
