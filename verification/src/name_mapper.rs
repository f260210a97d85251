//! The table of original names: each distinct name once, in the order of
//! first use.

use vstd::prelude::*;

verus! {

/// The index that `name` has once it is interned in `names`: where it stands
/// already, or the end of the table.
pub open spec fn interned_index(names: Seq<Seq<char>>, name: Seq<char>) -> int {
    if names.contains(name) {
        names.index_of(name)
    } else {
        names.len() as int
    }
}

/// The table once `name` is interned in `names`: unchanged where the name
/// stands already, else with the name at its end.
pub open spec fn interned_table(names: Seq<Seq<char>>, name: Seq<char>) -> Seq<Seq<char>> {
    if names.contains(name) {
        names
    } else {
        names.push(name)
    }
}

/// Interning keeps a table free of duplicates, puts the name at the index
/// it reports, and moves no name that was there.
pub proof fn lemma_interned(names: Seq<Seq<char>>, name: Seq<char>)
    requires
        names.no_duplicates(),
    ensures
        interned_table(names, name).no_duplicates(),
        0 <= interned_index(names, name) < interned_table(names, name).len(),
        interned_table(names, name)[interned_index(names, name)] == name,
        names.len() <= interned_table(names, name).len(),
        forall|i: int| 0 <= i < names.len() ==> interned_table(names, name)[i] == names[i],
{
    if !names.contains(name) {
        let table = names.push(name);
        assert forall|i: int, j: int| 0 <= i < table.len() && 0 <= j < table.len() && i != j
            implies table[i] != table[j] by {
            if i < names.len() {
                assert(names.contains(names[i]));
            }
            if j < names.len() {
                assert(names.contains(names[j]));
            }
        }
    }
}

/// Interning the same name twice gives the same index both times, and the
/// second time leaves the table as it is; the name then stands in the table
/// exactly once.
pub proof fn lemma_intern_twice(names: Seq<Seq<char>>, name: Seq<char>)
    requires
        names.no_duplicates(),
    ensures
        ({
            let table = interned_table(names, name);
            let index = interned_index(names, name);
            &&& interned_table(table, name) == table
            &&& interned_index(table, name) == index
            &&& forall|i: int| 0 <= i < table.len() ==> (#[trigger] table[i] == name <==> i == index)
        }),
{
    lemma_interned(names, name);
    let table = interned_table(names, name);
    let index = interned_index(names, name);
    assert(table.contains(name));
    let again = table.index_of(name);
    assert(table[again] == name);
    assert(again == index);
}

/// Gives each distinct name a stable index: that of its first use.
pub struct NameMapper {
    names: Vec<String>,
}

impl NameMapper {
    /// The names interned so far, by index.
    pub closed spec fn view(&self) -> Seq<Seq<char>> {
        Seq::new(self.names@.len(), |i: int| self.names@[i]@)
    }

    /// No name stands in the table twice.
    pub open spec fn wf(&self) -> bool {
        self@.no_duplicates()
    }

    /// A mapper with an empty table.
    pub fn new() -> (m: NameMapper)
        ensures
            m@ == Seq::<Seq<char>>::empty(),
            m.wf(),
    {
        let m = NameMapper { names: Vec::new() };
        assert(m@ =~= Seq::<Seq<char>>::empty());
        m
    }

    /// Interns `name` and returns its index.
    pub fn map_name(&mut self, name: &str) -> (index: usize)
        requires
            old(self).wf(),
        ensures
            final(self).wf(),
            final(self)@ == interned_table(old(self)@, name@),
            index == interned_index(old(self)@, name@),
    {
        let wanted = name.to_owned();
        let ghost table = self@;
        let mut i: usize = 0;
        while i < self.names.len()
            invariant
                i <= self.names.len(),
                self@ == table,
                table.no_duplicates(),
                *self == *old(self),
                wanted@ == name@,
                forall|k: int| 0 <= k < i ==> table[k] != name@,
            decreases self.names.len() - i,
        {
            if self.names[i] == wanted {
                proof {
                    assert(table[i as int] == name@);
                    assert(table.contains(name@));
                    let at = table.index_of(name@);
                    assert(table[at] == name@);
                    lemma_interned(table, name@);
                }
                return i;
            }
            i = i + 1;
        }
        proof {
            assert(!table.contains(name@));
            lemma_interned(table, name@);
        }
        self.names.push(wanted);
        assert(self@ =~= table.push(name@));
        i
    }

    /// The table of names, by index.
    pub fn into_names(self) -> (names: Vec<String>)
        ensures
            names@.len() == self@.len(),
            forall|i: int| 0 <= i < names@.len() ==> names@[i]@ == self@[i],
    {
        self.names
    }
}

} // verus!
