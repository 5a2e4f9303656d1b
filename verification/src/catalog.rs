//! The type catalog: declared name to definition, in first-declared order.

use vstd::prelude::*;
use vstd::string::*;
use crate::bytes::{bytes_eq, word};
use crate::model::{Stmt, StmtView};

verus! {

/// The names of a table's entries, in order.
pub open spec fn names(table: Seq<(Seq<u8>, StmtView)>) -> Seq<Seq<u8>> {
    table.map_values(|entry: (Seq<u8>, StmtView)| entry.0)
}

/// Whether no name occurs twice.
pub open spec fn unique(table: Seq<(Seq<u8>, StmtView)>) -> bool {
    names(table).no_duplicates()
}

/// Index of the entry called `name`.
pub open spec fn table_find(table: Seq<(Seq<u8>, StmtView)>, name: Seq<u8>) -> Option<int> {
    names(table).index_of_first(name)
}

/// The definition registered under `name`.
pub open spec fn table_get(table: Seq<(Seq<u8>, StmtView)>, name: Seq<u8>) -> Option<StmtView> {
    match table_find(table, name) {
        Some(i) => Some(table[i].1),
        None => None,
    }
}

/// The table after `name` is registered as `definition`: an entry of that
/// name is overwritten where it stands, a new name goes to the end.
pub open spec fn table_insert(
    table: Seq<(Seq<u8>, StmtView)>,
    name: Seq<u8>,
    definition: StmtView,
) -> Seq<(Seq<u8>, StmtView)> {
    match table_find(table, name) {
        Some(i) => table.update(i, (name, definition)),
        None => table.push((name, definition)),
    }
}

/// The table after the aliases `seeds[from..]` are registered in order.
pub open spec fn table_seed(
    table: Seq<(Seq<u8>, StmtView)>,
    seeds: Seq<(&str, &str)>,
    from: int,
) -> Seq<(Seq<u8>, StmtView)>
    decreases seeds.len() - from,
{
    if 0 <= from < seeds.len() {
        table_seed(
            table_insert(table, word(seeds[from].0), StmtView::Alias(word(seeds[from].1))),
            seeds,
            from + 1,
        )
    } else {
        table
    }
}

/// What `table_find` returns, in plain terms.
pub proof fn lemma_find(table: Seq<(Seq<u8>, StmtView)>, name: Seq<u8>)
    ensures
        match table_find(table, name) {
            Some(i) => 0 <= i < table.len() && table[i].0 == name && forall|j: int|
                0 <= j < i ==> (#[trigger] table[j]).0 != name,
            None => forall|j: int| 0 <= j < table.len() ==> (#[trigger] table[j]).0 != name,
        },
{
    let ns = names(table);
    ns.index_of_first_ensures(name);
    match ns.index_of_first(name) {
        Some(i) => {
            assert forall|j: int| 0 <= j < i implies (#[trigger] table[j]).0 != name by {
                assert(ns[j] != name);
            }
        },
        None => {
            assert forall|j: int| 0 <= j < table.len() implies (#[trigger] table[j]).0
                != name by {
                assert(ns[j] == table[j].0);
            }
        },
    }
}

/// An index that holds `name` with no earlier one is the index found.
pub proof fn lemma_found_at(table: Seq<(Seq<u8>, StmtView)>, name: Seq<u8>, i: int)
    requires
        0 <= i < table.len(),
        table[i].0 == name,
        forall|j: int| 0 <= j < i ==> (#[trigger] table[j]).0 != name,
    ensures
        table_find(table, name) == Some(i),
{
    lemma_find(table, name);
    assert(names(table)[i] == name);
}

/// Registering keeps the names unique.
pub proof fn lemma_insert_unique(
    table: Seq<(Seq<u8>, StmtView)>,
    name: Seq<u8>,
    definition: StmtView,
)
    requires
        unique(table),
    ensures
        unique(table_insert(table, name, definition)),
{
    lemma_find(table, name);
    let after = table_insert(table, name, definition);
    match table_find(table, name) {
        Some(i) => {
            assert(names(after) =~= names(table));
        },
        None => {
            assert(names(after) =~= names(table).push(name));
            assert forall|a: int, b: int|
                0 <= a < names(after).len() && 0 <= b < names(after).len() && a
                    != b implies names(after)[a] != names(after)[b] by {
                if a < table.len() {
                    assert(table[a].0 != name);
                }
                if b < table.len() {
                    assert(table[b].0 != name);
                }
            }
        },
    }
}

/// A lookup after a registration sees the new definition under the
/// registered name and the old table under every other name.
pub proof fn lemma_insert_get(
    table: Seq<(Seq<u8>, StmtView)>,
    name: Seq<u8>,
    definition: StmtView,
    other: Seq<u8>,
)
    ensures
        table_get(table_insert(table, name, definition), other) == if other == name {
            Some(definition)
        } else {
            table_get(table, other)
        },
{
    lemma_find(table, name);
    lemma_find(table, other);
    let after = table_insert(table, name, definition);
    match table_find(table, name) {
        Some(i) => {
            if other == name {
                lemma_found_at(after, other, i);
            } else {
                match table_find(table, other) {
                    Some(k) => {
                        lemma_found_at(after, other, k);
                    },
                    None => {
                        lemma_find(after, other);
                    },
                }
            }
        },
        None => {
            if other == name {
                lemma_found_at(after, other, table.len() as int);
            } else {
                match table_find(table, other) {
                    Some(k) => {
                        lemma_found_at(after, other, k);
                    },
                    None => {
                        lemma_find(after, other);
                    },
                }
            }
        },
    }
}

/// One catalog entry.
pub struct Entry {
    name: Vec<u8>,
    definition: Stmt,
}

/// Mapping from declared type name to definition. The entries keep the
/// order in which their names were first registered. A catalog that starts
/// out empty never holds a name twice.
pub struct Catalog {
    entries: Vec<Entry>,
}

impl View for Catalog {
    type V = Seq<(Seq<u8>, StmtView)>;

    closed spec fn view(&self) -> Seq<(Seq<u8>, StmtView)> {
        self.entries@.map_values(|entry: Entry| (entry.name@, entry.definition@))
    }
}

impl Catalog {
    /// An empty catalog.
    pub fn new() -> (catalog: Self)
        ensures
            catalog@ == Seq::<(Seq<u8>, StmtView)>::empty(),
            unique(catalog@),
    {
        let catalog = Catalog { entries: Vec::new() };
        assert(catalog@ =~= Seq::<(Seq<u8>, StmtView)>::empty());
        catalog
    }

    /// Number of names registered.
    pub fn len(&self) -> (n: usize)
        ensures
            n == self@.len(),
    {
        self.entries.len()
    }

    /// The `i`-th name in first-declared order.
    pub fn name(&self, i: usize) -> (name: &Vec<u8>)
        requires
            i < self@.len(),
        ensures
            name@ == self@[i as int].0,
    {
        &self.entries[i].name
    }

    /// Index of the entry called `name`.
    pub fn find(&self, name: &[u8]) -> (r: Option<usize>)
        ensures
            table_find(self@, name@) == match r {
                Some(i) => Some(i as int),
                None => None,
            },
    {
        let mut i: usize = 0;
        while i < self.entries.len()
            invariant
                0 <= i <= self.entries@.len(),
                forall|j: int| 0 <= j < i ==> (#[trigger] self@[j]).0 != name@,
            decreases self.entries@.len() - i,
        {
            if bytes_eq(self.entries[i].name.as_slice(), name) {
                proof {
                    lemma_found_at(self@, name@, i as int);
                }
                return Some(i);
            }
            i += 1;
        }
        proof {
            lemma_find(self@, name@);
        }
        None
    }

    /// The definition registered under `name`.
    pub fn get(&self, name: &[u8]) -> (r: Option<&Stmt>)
        ensures
            match table_get(self@, name@) {
                Some(definition) => r is Some && r->0@ == definition,
                None => r is None,
            },
    {
        proof {
            lemma_find(self@, name@);
        }
        match self.find(name) {
            Some(i) => {
                assert(self@[i as int].1 == self.entries@[i as int].definition@);
                Some(&self.entries[i].definition)
            },
            None => None,
        }
    }

    /// Registers `name` as `definition`. A definition that the name already
    /// had is overwritten.
    pub fn insert(&mut self, name: Vec<u8>, definition: Stmt)
        ensures
            final(self)@ == table_insert(old(self)@, name@, definition@),
            unique(old(self)@) ==> unique(final(self)@),
    {
        proof {
            lemma_find(self@, name@);
            if unique(self@) {
                lemma_insert_unique(self@, name@, definition@);
            }
        }
        let ghost before = self@;
        let found = self.find(name.as_slice());
        let entry = Entry { name, definition };
        match found {
            Some(i) => {
                assert(table_find(before, name@) == Some(i as int));
                self.entries.set(i, entry);
                assert(self@ =~= before.update(i as int, (name@, definition@)));
            },
            None => {
                self.entries.push(entry);
                assert(self@ =~= before.push((name@, definition@)));
            },
        }
    }

    /// Registers each pair of `seeds`, in order, as an alias from its first
    /// part to its second. A seeded name overwrites a declared one.
    pub fn seed(&mut self, seeds: &[(&str, &str)])
        ensures
            final(self)@ == table_seed(old(self)@, seeds@, 0),
            unique(old(self)@) ==> unique(final(self)@),
    {
        let mut i: usize = 0;
        while i < seeds.len()
            invariant
                0 <= i <= seeds@.len(),
                table_seed(self@, seeds@, i as int) == table_seed(old(self)@, seeds@, 0),
                unique(old(self)@) ==> unique(self@),
            decreases seeds@.len() - i,
        {
            let name = seeds[i].0.as_bytes_vec();
            let target = seeds[i].1.as_bytes_vec();
            self.insert(name, Stmt::Alias(target));
            i += 1;
        }
    }
}

} // verus!
