//! The schema model: tables, columns and foreign-key relations.
use vstd::prelude::*;

verus! {

/// A directed foreign-key fact:
/// `table_name.column_name` references `foreign_table_name.foreign_column_name`.
#[derive(Debug, Clone, PartialEq, Eq)]
pub struct RelationsInfo {
    pub table_schema: String,
    pub table_name: String,
    pub column_name: String,
    pub foreign_table_schema: String,
    pub foreign_table_name: String,
    pub foreign_column_name: String,
}

/// A table and its columns, in declaration order.
#[derive(Debug, Clone, PartialEq, Eq)]
pub struct Table {
    pub name: String,
    pub columns: Vec<String>,
}

/// All tables and all foreign-key relations of one database schema.
#[derive(Debug, Clone, PartialEq, Eq)]
pub struct Schema {
    pub tables: Vec<Table>,
    pub relations: Vec<RelationsInfo>,
}

/// The first position below `n` of a table called `name`, or -1 when there is none.
pub open spec fn index_below(tables: Seq<Table>, name: Seq<char>, n: nat) -> int
    decreases n,
{
    if n == 0 {
        -1
    } else {
        let r = index_below(tables, name, (n - 1) as nat);
        if r >= 0 {
            r
        } else if tables[n - 1].name@ == name {
            n - 1
        } else {
            -1
        }
    }
}

/// The position of the first table called `name`, or -1 when there is none.
pub open spec fn table_index(tables: Seq<Table>, name: Seq<char>) -> int {
    index_below(tables, name, tables.len())
}

pub proof fn lemma_index_below(tables: Seq<Table>, name: Seq<char>, n: nat)
    requires
        n <= tables.len(),
    ensures
        -1 <= index_below(tables, name, n) < n,
        index_below(tables, name, n) >= 0 ==> tables[index_below(tables, name, n)].name@ == name,
        index_below(tables, name, n) >= 0 ==> forall|j: int|
            0 <= j < index_below(tables, name, n) ==> tables[j].name@ != name,
        index_below(tables, name, n) == -1 <==> forall|j: int| 0 <= j < n ==> tables[j].name@ != name,
    decreases n,
{
    if n > 0 {
        lemma_index_below(tables, name, (n - 1) as nat);
    }
}

impl Schema {
    /// Node index of the table that relation `k` starts from.
    pub open spec fn source_of(&self, k: int) -> int {
        table_index(self.tables@, self.relations@[k].table_name@)
    }

    /// Node index of the table that relation `k` references.
    pub open spec fn target_of(&self, k: int) -> int {
        table_index(self.tables@, self.relations@[k].foreign_table_name@)
    }

    /// Relation `k` names two tables of the schema.
    pub open spec fn relation_resolves(&self, k: int) -> bool {
        self.source_of(k) >= 0 && self.target_of(k) >= 0
    }

    /// Every relation names two tables of the schema.
    pub open spec fn resolves(&self) -> bool {
        forall|k: int| 0 <= k < self.relations@.len() ==> #[trigger] self.relation_resolves(k)
    }

    /// Relation `k` runs from table `a` to table `b`.
    pub open spec fn oriented(&self, k: int, a: int, b: int) -> bool {
        self.source_of(k) == a && self.target_of(k) == b
    }

    /// Relation `k` connects tables `a` and `b`, in either direction.
    pub open spec fn connects(&self, k: int, a: int, b: int) -> bool {
        self.oriented(k, a, b) || self.oriented(k, b, a)
    }

    /// Some relation connects tables `a` and `b`.
    pub open spec fn linked(&self, a: int, b: int) -> bool {
        exists|k: int| 0 <= k < self.relations@.len() && #[trigger] self.connects(k, a, b)
    }

    /// The relations below `n` that connect `a` and `b`, ascending.
    pub open spec fn relations_below(&self, a: int, b: int, n: nat) -> Seq<int>
        decreases n,
    {
        if n == 0 {
            seq![]
        } else {
            let p = self.relations_below(a, b, (n - 1) as nat);
            if self.connects(n - 1, a, b) {
                p.push(n - 1)
            } else {
                p
            }
        }
    }

    /// Every relation that connects `a` and `b`, ascending.
    pub open spec fn edge_relations(&self, a: int, b: int) -> Seq<int> {
        self.relations_below(a, b, self.relations@.len())
    }

    /// The tables below `n` linked to `a`, ascending.
    pub open spec fn neighbors_below(&self, a: int, n: nat) -> Seq<int>
        decreases n,
    {
        if n == 0 {
            seq![]
        } else {
            let p = self.neighbors_below(a, (n - 1) as nat);
            if self.linked(a, n - 1) {
                p.push(n - 1)
            } else {
                p
            }
        }
    }

    /// Every table linked to `a`, ascending by node index.
    pub open spec fn neighbors(&self, a: int) -> Seq<int> {
        self.neighbors_below(a, self.tables@.len())
    }
}

/// Position of the first table called `name`.
pub fn find_table(tables: &Vec<Table>, name: &String) -> (r: Option<usize>)
    ensures
        match r {
            Some(i) => i as int == table_index(tables@, name@),
            None => table_index(tables@, name@) == -1,
        },
{
    let mut i: usize = 0;
    while i < tables.len()
        invariant
            i <= tables.len(),
            index_below(tables@, name@, i as nat) == -1,
        decreases tables.len() - i,
    {
        if tables[i].name == *name {
            proof {
                lemma_index_below(tables@, name@, i as nat);
                assert(index_below(tables@, name@, (i + 1) as nat) == i);
                lemma_index_tail(tables@, name@, (i + 1) as nat);
            }
            return Some(i);
        }
        i += 1;
    }
    None
}

/// Once found below `n`, the first position stays the first.
pub proof fn lemma_index_tail(tables: Seq<Table>, name: Seq<char>, n: nat)
    requires
        n <= tables.len(),
        index_below(tables, name, n) >= 0,
    ensures
        table_index(tables, name) == index_below(tables, name, n),
    decreases tables.len() - n,
{
    if n < tables.len() {
        assert(index_below(tables, name, (n + 1) as nat) == index_below(tables, name, n));
        lemma_index_tail(tables, name, (n + 1) as nat);
    }
}

impl Schema {
    pub proof fn lemma_relations_below(&self, a: int, b: int, n: nat)
        ensures
            forall|j: int|
                0 <= j < self.relations_below(a, b, n).len() ==> {
                    let k = #[trigger] self.relations_below(a, b, n)[j];
                    0 <= k < n && self.connects(k, a, b)
                },
            forall|i: int, j: int|
                0 <= i < j < self.relations_below(a, b, n).len() ==> self.relations_below(a, b, n)[i]
                    < self.relations_below(a, b, n)[j],
            self.relations_below(a, b, n).len() == 0 <==> forall|k: int|
                0 <= k < n ==> !#[trigger] self.connects(k, a, b),
        decreases n,
    {
        if n > 0 {
            self.lemma_relations_below(a, b, (n - 1) as nat);
        }
    }

    pub proof fn lemma_neighbors_below(&self, a: int, n: nat)
        ensures
            forall|j: int|
                0 <= j < self.neighbors_below(a, n).len() ==> {
                    let b = #[trigger] self.neighbors_below(a, n)[j];
                    0 <= b < n && self.linked(a, b)
                },
            forall|i: int, j: int|
                0 <= i < j < self.neighbors_below(a, n).len() ==> self.neighbors_below(a, n)[i]
                    < self.neighbors_below(a, n)[j],
            forall|b: int|
                0 <= b < n && #[trigger] self.linked(a, b) ==> self.neighbors_below(a, n).contains(b),
            self.neighbors_below(a, n).len() <= n,
        decreases n,
    {
        if n > 0 {
            self.lemma_neighbors_below(a, (n - 1) as nat);
            let p = self.neighbors_below(a, (n - 1) as nat);
            if self.linked(a, n - 1) {
                assert forall|b: int| 0 <= b < n && #[trigger] self.linked(a, b) implies p.push(n - 1).contains(b) by {
                    if b < n - 1 {
                        let j = choose|j: int| 0 <= j < p.len() && p[j] == b;
                        assert(p.push(n - 1)[j] == b);
                    } else {
                        assert(p.push(n - 1)[p.len() as int] == b);
                    }
                }
            }
        }
    }
}

} // verus!
