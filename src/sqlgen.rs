//! Query plans and their rendering as SQL text, with every identifier and the
//! row identifier quoted.
use vstd::prelude::*;

verus! {

/// A join condition: `left_table.left = right_table.right`.
#[derive(Debug, Clone)]
pub struct On {
    pub left_table: String,
    pub left: String,
    pub right_table: String,
    pub right: String,
}

/// One link of a join chain: the table it brings in, and the condition that ties
/// it to the table before it in the chain.
#[derive(Debug, Clone)]
pub struct Join {
    pub table: String,
    pub on: On,
}

/// The root filter: `table.column = 'value'`.
#[derive(Debug, Clone)]
pub struct Filter {
    pub table: String,
    pub column: String,
    pub value: String,
}

/// A retrieval query: the columns of table `from`, the joins from the root table
/// to `from` in that order, and the filter on the root row.
#[derive(Debug, Clone)]
pub struct Select {
    pub columns: Vec<String>,
    pub from: String,
    pub joins: Vec<Join>,
    pub filter: Filter,
}

/// `s` with each `q` written twice.
pub open spec fn doubled(s: Seq<char>, q: char) -> Seq<char>
    decreases s.len(),
{
    if s.len() == 0 {
        seq![]
    } else if s.last() == q {
        doubled(s.drop_last(), q) + seq![q, q]
    } else {
        doubled(s.drop_last(), q).push(s.last())
    }
}

/// An identifier between double quotes, inner double quotes doubled.
pub open spec fn quoted_ident(s: Seq<char>) -> Seq<char> {
    seq!['"'] + doubled(s, '"') + seq!['"']
}

/// A string literal between single quotes, inner single quotes doubled.
pub open spec fn quoted_literal(s: Seq<char>) -> Seq<char> {
    seq!['\''] + doubled(s, '\'') + seq!['\'']
}

/// `"table"."column"`.
pub open spec fn qualified(table: Seq<char>, column: Seq<char>) -> Seq<char> {
    quoted_ident(table) + seq!['.'] + quoted_ident(column)
}

/// The select list: each column qualified by `table`, separated by `, `.
pub open spec fn column_list(table: Seq<char>, columns: Seq<String>) -> Seq<char>
    decreases columns.len(),
{
    if columns.len() == 0 {
        seq![]
    } else if columns.len() == 1 {
        qualified(table, columns[0]@)
    } else {
        column_list(table, columns.drop_last()) + seq![',', ' '] + qualified(table, columns.last()@)
    }
}

/// ` JOIN "left_table" ON "left_table"."left" = "right_table"."right"`.
pub open spec fn join_clause(j: Join) -> Seq<char> {
    " JOIN "@ + quoted_ident(j.on.left_table@) + " ON "@ + qualified(j.on.left_table@, j.on.left@)
        + " = "@ + qualified(j.on.right_table@, j.on.right@)
}

/// The join clauses, from the target table back to the root, so that each
/// condition names only tables already in scope.
pub open spec fn join_clauses(joins: Seq<Join>) -> Seq<char>
    decreases joins.len(),
{
    if joins.len() == 0 {
        seq![]
    } else {
        join_clause(joins.last()) + join_clauses(joins.drop_last())
    }
}

/// The SQL text of a query plan.
pub open spec fn select_sql(q: Select) -> Seq<char> {
    let list = if q.columns@.len() == 0 {
        quoted_ident(q.from@) + ".*"@
    } else {
        column_list(q.from@, q.columns@)
    };
    "SELECT "@ + list + " FROM "@ + quoted_ident(q.from@) + join_clauses(q.joins@) + " WHERE "@
        + qualified(q.filter.table@, q.filter.column@) + " = "@ + quoted_literal(q.filter.value@)
}

/// `s` with each `q` written twice.
fn double_char(s: &String, q: char) -> (r: String)
    ensures
        r@ == doubled(s@, q),
{
    let t = s.as_str();
    let n = t.unicode_len();
    let mut r = String::new();
    let mut i: usize = 0;
    while i < n
        invariant
            t@ == s@,
            n == s@.len(),
            i <= n,
            r@ == doubled(s@.subrange(0, i as int), q),
        decreases n - i,
    {
        let c = t.get_char(i);
        let one = t.substring_char(i, i + 1);
        r.append(one);
        if c == q {
            r.append(one);
        }
        assert(s@.subrange(0, (i + 1) as int).drop_last() =~= s@.subrange(0, i as int));
        assert(one@ =~= seq![c]);
        assert(r@ =~= doubled(s@.subrange(0, (i + 1) as int), q));
        i += 1;
    }
    assert(s@.subrange(0, n as int) =~= s@);
    r
}

/// An identifier quoted for SQL: `a"b` becomes `"a""b"`.
pub fn quote_ident(s: &String) -> (r: String)
    ensures
        r@ == quoted_ident(s@),
{
    let mut r = String::from_str("\"");
    let inner = double_char(s, '"');
    r.append(inner.as_str());
    r.append("\"");
    proof {
        reveal_strlit("\"");
    }
    assert(r@ =~= quoted_ident(s@));
    r
}

/// A string literal quoted for SQL: `it's` becomes `'it''s'`.
pub fn quote_literal(s: &String) -> (r: String)
    ensures
        r@ == quoted_literal(s@),
{
    let mut r = String::from_str("'");
    let inner = double_char(s, '\'');
    r.append(inner.as_str());
    r.append("'");
    proof {
        reveal_strlit("'");
    }
    assert(r@ =~= quoted_literal(s@));
    r
}

fn qualify(table: &String, column: &String) -> (r: String)
    ensures
        r@ == qualified(table@, column@),
{
    let mut r = quote_ident(table);
    r.append(".");
    let c = quote_ident(column);
    r.append(c.as_str());
    proof {
        reveal_strlit(".");
    }
    assert(r@ =~= qualified(table@, column@));
    r
}

impl Select {
    /// The SQL text of this query plan.
    pub fn to_sql(&self) -> (r: String)
        ensures
            r@ == select_sql(*self),
    {
        let mut r = String::from_str("SELECT ");
        let ghost head = r@;
        if self.columns.len() == 0 {
            let t = quote_ident(&self.from);
            r.append(t.as_str());
            r.append(".*");
        } else {
            let mut i: usize = 0;
            while i < self.columns.len()
                invariant
                    i <= self.columns@.len(),
                    self.columns@.len() > 0,
                    r@ == head + column_list(self.from@, self.columns@.subrange(0, i as int)),
                decreases self.columns@.len() - i,
            {
                if i > 0 {
                    r.append(", ");
                }
                let c = qualify(&self.from, &self.columns[i]);
                r.append(c.as_str());
                proof {
                    reveal_strlit(", ");
                    let sub = self.columns@.subrange(0, (i + 1) as int);
                    assert(sub.drop_last() =~= self.columns@.subrange(0, i as int));
                    assert(r@ =~= head + column_list(self.from@, sub));
                }
                i += 1;
            }
            assert(self.columns@.subrange(0, self.columns@.len() as int) =~= self.columns@);
        }
        let ghost list = if self.columns@.len() == 0 {
            quoted_ident(self.from@) + ".*"@
        } else {
            column_list(self.from@, self.columns@)
        };
        assert(r@ =~= "SELECT "@ + list);
        r.append(" FROM ");
        let f = quote_ident(&self.from);
        r.append(f.as_str());
        let ghost before = r@;
        let mut i: usize = self.joins.len();
        assert(self.joins@.subrange(0, i as int) =~= self.joins@);
        while i > 0
            invariant
                i <= self.joins@.len(),
                before + join_clauses(self.joins@) == r@ + join_clauses(self.joins@.subrange(0, i as int)),
            decreases i,
        {
            let j = &self.joins[i - 1];
            r.append(" JOIN ");
            let t = quote_ident(&j.on.left_table);
            r.append(t.as_str());
            r.append(" ON ");
            let a = qualify(&j.on.left_table, &j.on.left);
            r.append(a.as_str());
            r.append(" = ");
            let b = qualify(&j.on.right_table, &j.on.right);
            r.append(b.as_str());
            proof {
                let sub = self.joins@.subrange(0, i as int);
                assert(sub.drop_last() =~= self.joins@.subrange(0, i - 1));
                assert(sub.last() == *j);
            }
            i -= 1;
        }
        assert(self.joins@.subrange(0, 0) =~= Seq::<Join>::empty());
        r.append(" WHERE ");
        let w = qualify(&self.filter.table, &self.filter.column);
        r.append(w.as_str());
        r.append(" = ");
        let v = quote_literal(&self.filter.value);
        r.append(v.as_str());
        assert(r@ =~= select_sql(*self));
        r
    }
}

/// Column names, as values.
pub open spec fn names(v: Seq<String>) -> Seq<Seq<char>> {
    v.map_values(|c: String| c@)
}

/// What a join holds, as values.
pub open spec fn join_view(j: Join) -> (Seq<char>, Seq<char>, Seq<char>, Seq<char>, Seq<char>) {
    (j.table@, j.on.left_table@, j.on.left@, j.on.right_table@, j.on.right@)
}

/// Two plans that hold the same values.
pub open spec fn same_plan(a: Select, b: Select) -> bool {
    &&& names(a.columns@) == names(b.columns@)
    &&& a.from@ == b.from@
    &&& a.joins@.map_values(|j: Join| join_view(j)) == b.joins@.map_values(|j: Join| join_view(j))
    &&& a.filter.table@ == b.filter.table@
    &&& a.filter.column@ == b.filter.column@
    &&& a.filter.value@ == b.filter.value@
}

pub proof fn lemma_column_list_values(t: Seq<char>, a: Seq<String>, b: Seq<String>)
    requires
        names(a) == names(b),
    ensures
        column_list(t, a) == column_list(t, b),
    decreases a.len(),
{
    assert(a.len() == names(a).len() && b.len() == names(b).len());
    if a.len() > 1 {
        assert(names(a.drop_last()) =~= names(a).drop_last());
        assert(names(b.drop_last()) =~= names(b).drop_last());
        assert(a.last()@ == names(a)[a.len() - 1]);
        assert(b.last()@ == names(b)[b.len() - 1]);
        lemma_column_list_values(t, a.drop_last(), b.drop_last());
    } else if a.len() == 1 {
        assert(a[0]@ == names(a)[0] && b[0]@ == names(b)[0]);
    }
}

pub proof fn lemma_join_clauses_values(a: Seq<Join>, b: Seq<Join>)
    requires
        a.map_values(|j: Join| join_view(j)) == b.map_values(|j: Join| join_view(j)),
    ensures
        join_clauses(a) == join_clauses(b),
    decreases a.len(),
{
    let va = a.map_values(|j: Join| join_view(j));
    let vb = b.map_values(|j: Join| join_view(j));
    assert(a.len() == va.len() && b.len() == vb.len());
    if a.len() > 0 {
        assert(a.drop_last().map_values(|j: Join| join_view(j)) =~= va.drop_last());
        assert(b.drop_last().map_values(|j: Join| join_view(j)) =~= vb.drop_last());
        assert(join_view(a.last()) == va[a.len() - 1]);
        assert(join_view(b.last()) == vb[b.len() - 1]);
        lemma_join_clauses_values(a.drop_last(), b.drop_last());
    }
}

/// Plans that hold the same values have the same SQL text.
pub proof fn lemma_same_plan_same_sql(a: Select, b: Select)
    requires
        same_plan(a, b),
    ensures
        select_sql(a) == select_sql(b),
{
    assert(a.columns@.len() == names(a.columns@).len() && b.columns@.len() == names(b.columns@).len());
    lemma_column_list_values(a.from@, a.columns@, b.columns@);
    lemma_join_clauses_values(a.joins@, b.joins@);
}

} // verus!
