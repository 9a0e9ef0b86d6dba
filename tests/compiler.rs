use rowexport::compiler::{CompileError, Compiler};
use rowexport::introspection::{columns_query, table_names_query};
use rowexport::schema::{RelationsInfo, Schema, Table};
use rowexport::sqlgen::{quote_ident, quote_literal, Filter, Join, On, Select};

fn table(name: &str, columns: &[&str]) -> Table {
    Table {
        name: name.to_string(),
        columns: columns.iter().map(|c| c.to_string()).collect(),
    }
}

fn relation(table: &str, column: &str, foreign_table: &str, foreign_column: &str) -> RelationsInfo {
    RelationsInfo {
        table_schema: "public".to_string(),
        table_name: table.to_string(),
        column_name: column.to_string(),
        foreign_table_schema: "public".to_string(),
        foreign_table_name: foreign_table.to_string(),
        foreign_column_name: foreign_column.to_string(),
    }
}

fn chain_schema() -> Schema {
    Schema {
        tables: vec![
            table("users", &["id"]),
            table("posts", &["id", "user_id"]),
            table("comments", &["id", "post_id"]),
        ],
        relations: vec![
            relation("posts", "user_id", "users", "id"),
            relation("comments", "post_id", "posts", "id"),
        ],
    }
}

#[test]
fn test_traverse() {
    let tables: Vec<Table> = vec![
        Table {
            name: "users".to_string(),
            columns: vec!["id".to_string()],
        },
        Table {
            name: "posts".to_string(),
            columns: vec!["id".to_string(), "user_id".to_string()],
        },
        Table {
            name: "comments".to_string(),
            columns: vec!["id".to_string(), "post_id".to_string()],
        },
    ];
    let relations = vec![
        RelationsInfo {
            table_schema: "public".to_string(),
            foreign_table_schema: "public".to_string(),
            table_name: "users".to_string(),
            foreign_table_name: "posts".to_string(),
            column_name: "id".to_string(),
            foreign_column_name: "user_id".to_string(),
        },
        RelationsInfo {
            table_schema: "public".to_string(),
            foreign_table_schema: "public".to_string(),
            table_name: "posts".to_string(),
            foreign_table_name: "comments".to_string(),
            column_name: "id".to_string(),
            foreign_column_name: "post_id".to_string(),
        },
    ];
    let schema = Schema { relations, tables };
    let introspector = Compiler::new(schema);
    let plans = introspector
        .compile_to_selects("users".to_string(), "id".to_string(), "1".to_string())
        .unwrap();
    let targets: Vec<&str> = plans.iter().map(|p| p.from.as_str()).collect();
    assert_eq!(targets, vec!["users", "posts", "comments"]);
    assert_eq!(plans[2].joins.len(), 2);
}

#[test]
fn complex_select() {
    let select = Select {
        columns: vec!["id".to_string(), "user_id".to_string()],
        from: "posts".to_string(),
        joins: vec![Join {
            table: "posts".to_string(),
            on: On {
                left_table: "users".to_string(),
                left: "id".to_string(),
                right_table: "posts".to_string(),
                right: "user_id".to_string(),
            },
        }],
        filter: Filter {
            table: "users".to_string(),
            column: "id".to_string(),
            value: "7".to_string(),
        },
    };
    assert_eq!(
        select.to_sql(),
        "SELECT \"posts\".\"id\", \"posts\".\"user_id\" FROM \"posts\" JOIN \"users\" ON \"users\".\"id\" = \"posts\".\"user_id\" WHERE \"users\".\"id\" = '7'"
    );
}

#[test]
fn root_only_schema() {
    let schema = Schema { tables: vec![table("users", &["id"])], relations: vec![] };
    let plans = Compiler::new(schema)
        .compile_to_selects("users".to_string(), "id".to_string(), "42".to_string())
        .unwrap();
    assert_eq!(plans.len(), 1);
    assert!(plans[0].joins.is_empty());
    assert_eq!(plans[0].filter.column, "id");
    assert_eq!(plans[0].filter.value, "42");
    assert_eq!(
        plans[0].to_sql(),
        "SELECT \"users\".\"id\" FROM \"users\" WHERE \"users\".\"id\" = '42'"
    );
}

#[test]
fn linear_chain() {
    let plans = Compiler::new(chain_schema())
        .compile_to_selects("comments".to_string(), "id".to_string(), "5".to_string())
        .unwrap();
    let targets: Vec<&str> = plans.iter().map(|p| p.from.as_str()).collect();
    assert_eq!(targets, vec!["comments", "posts", "users"]);
    let users = &plans[2];
    assert_eq!(users.joins.len(), 2);
    assert_eq!(users.joins[0].on.left_table, "comments");
    assert_eq!(users.joins[0].on.left, "post_id");
    assert_eq!(users.joins[0].on.right_table, "posts");
    assert_eq!(users.joins[0].on.right, "id");
    assert_eq!(users.joins[0].table, "posts");
    assert_eq!(users.joins[1].on.left_table, "posts");
    assert_eq!(users.joins[1].on.left, "user_id");
    assert_eq!(users.joins[1].on.right_table, "users");
    assert_eq!(users.joins[1].on.right, "id");
    assert_eq!(users.joins[1].table, "users");
    assert_eq!(
        users.to_sql(),
        "SELECT \"users\".\"id\" FROM \"users\" JOIN \"posts\" ON \"posts\".\"user_id\" = \"users\".\"id\" JOIN \"comments\" ON \"comments\".\"post_id\" = \"posts\".\"id\" WHERE \"comments\".\"id\" = '5'"
    );
}

#[test]
fn multi_relation_pair() {
    let schema = Schema {
        tables: vec![table("a", &["id", "b_id"]), table("b", &["id", "a_id"])],
        relations: vec![relation("b", "a_id", "a", "id"), relation("a", "b_id", "b", "id")],
    };
    let compiler = Compiler::new(schema);
    let arena = compiler.build().unwrap();
    let nodes: Vec<_> = arena.values().collect();
    assert_eq!(nodes.len(), 2);
    assert_eq!(nodes[0].name, "a");
    assert_eq!(nodes[0].relations.len(), 1);
    assert_eq!(nodes[0].relations[0].to, 1);
    assert_eq!(nodes[0].relations[0].relations, vec![0, 1]);
    assert_eq!(nodes[1].relations[0].to, 0);
    assert_eq!(nodes[1].relations[0].relations, vec![0, 1]);

    let from_a = compiler.traversal(&arena, 0);
    assert_eq!(from_a.len(), 2);
    assert_eq!(from_a[1].table, 1);
    assert_eq!(from_a[1].path[0].relation, 1);
    assert!(from_a[1].path[0].forward);

    let from_b = compiler.traversal(&arena, 1);
    assert_eq!(from_b[1].path[0].relation, 0);
    assert!(from_b[1].path[0].forward);

    let plans = compiler
        .compile_to_selects("a".to_string(), "id".to_string(), "1".to_string())
        .unwrap();
    assert_eq!(plans[1].joins[0].on.left, "b_id");
    assert_eq!(plans[1].joins[0].on.right, "id");
}

#[test]
fn reverse_only_relation_is_used_backwards() {
    let plans = Compiler::new(chain_schema())
        .compile_to_selects("users".to_string(), "id".to_string(), "1".to_string())
        .unwrap();
    let posts = &plans[1];
    assert_eq!(posts.from, "posts");
    assert_eq!(posts.joins[0].on.left_table, "users");
    assert_eq!(posts.joins[0].on.left, "id");
    assert_eq!(posts.joins[0].on.right_table, "posts");
    assert_eq!(posts.joins[0].on.right, "user_id");
}

#[test]
fn unknown_root() {
    let result = Compiler::new(chain_schema()).compile_to_selects(
        "orders".to_string(),
        "id".to_string(),
        "1".to_string(),
    );
    assert!(matches!(result, Err(CompileError::UnknownRoot)));
}

#[test]
fn unresolved_relation() {
    let mut schema = chain_schema();
    schema.relations.push(relation("likes", "post_id", "posts", "id"));
    let compiler = Compiler::new(schema);
    assert!(matches!(compiler.build(), Err(CompileError::UnresolvedRelation(2))));
    let result = compiler.compile_to_selects("users".to_string(), "id".to_string(), "1".to_string());
    assert!(matches!(result, Err(CompileError::UnresolvedRelation(2))));
}

#[test]
fn self_reference_visited_once() {
    let schema = Schema {
        tables: vec![table("employees", &["id", "manager_id"])],
        relations: vec![relation("employees", "manager_id", "employees", "id")],
    };
    let plans = Compiler::new(schema)
        .compile_to_selects("employees".to_string(), "id".to_string(), "3".to_string())
        .unwrap();
    assert_eq!(plans.len(), 1);
    assert_eq!(plans[0].from, "employees");
    assert!(plans[0].joins.is_empty());
}

#[test]
fn mutual_cycle_and_unreachable_table() {
    let schema = Schema {
        tables: vec![table("a", &["id", "b_id"]), table("b", &["id", "a_id"]), table("lonely", &["id"])],
        relations: vec![relation("a", "b_id", "b", "id"), relation("b", "a_id", "a", "id")],
    };
    let plans = Compiler::new(schema)
        .compile_to_selects("b".to_string(), "id".to_string(), "1".to_string())
        .unwrap();
    let targets: Vec<&str> = plans.iter().map(|p| p.from.as_str()).collect();
    assert_eq!(targets, vec!["b", "a"]);
}

#[test]
fn diamond_takes_first_path() {
    let schema = Schema {
        tables: vec![table("root", &["id"]), table("left", &["id", "root_id"]), table("right", &["id", "root_id"]), table("leaf", &["id", "left_id", "right_id"])],
        relations: vec![
            relation("left", "root_id", "root", "id"),
            relation("right", "root_id", "root", "id"),
            relation("leaf", "left_id", "left", "id"),
            relation("leaf", "right_id", "right", "id"),
        ],
    };
    let plans = Compiler::new(schema)
        .compile_to_selects("root".to_string(), "id".to_string(), "1".to_string())
        .unwrap();
    let targets: Vec<&str> = plans.iter().map(|p| p.from.as_str()).collect();
    assert_eq!(targets, vec!["root", "left", "leaf", "right"]);
    let leaf = &plans[2];
    let chain: Vec<&str> = leaf.joins.iter().map(|j| j.table.as_str()).collect();
    assert_eq!(chain, vec!["left", "leaf"]);
}

#[test]
fn runs_are_deterministic() {
    let first: Vec<String> = Compiler::new(chain_schema())
        .compile_to_selects("posts".to_string(), "id".to_string(), "9".to_string())
        .unwrap()
        .iter()
        .map(|p| p.to_sql())
        .collect();
    let second: Vec<String> = Compiler::new(chain_schema())
        .compile_to_selects("posts".to_string(), "id".to_string(), "9".to_string())
        .unwrap()
        .iter()
        .map(|p| p.to_sql())
        .collect();
    assert_eq!(first.len(), 3);
    assert_eq!(first, second);
}

#[test]
fn identifiers_and_values_are_quoted() {
    assert_eq!(quote_ident(&"we\"ird".to_string()), "\"we\"\"ird\"");
    assert_eq!(quote_literal(&"it's".to_string()), "'it''s'");
    let schema = Schema { tables: vec![table("t", &["a\"b"])], relations: vec![] };
    let plans = Compiler::new(schema)
        .compile_to_selects("t".to_string(), "id".to_string(), "1' OR '1'='1".to_string())
        .unwrap();
    assert_eq!(
        plans[0].to_sql(),
        "SELECT \"t\".\"a\"\"b\" FROM \"t\" WHERE \"t\".\"id\" = '1'' OR ''1''=''1'"
    );
}

#[test]
fn table_without_columns_selects_all() {
    let schema = Schema { tables: vec![table("t", &[])], relations: vec![] };
    let plans = Compiler::new(schema)
        .compile_to_selects("t".to_string(), "id".to_string(), "1".to_string())
        .unwrap();
    assert_eq!(plans[0].to_sql(), "SELECT \"t\".* FROM \"t\" WHERE \"t\".\"id\" = '1'");
}

#[test]
fn catalogue_queries_quote_their_argument() {
    assert_eq!(
        table_names_query("public"),
        "SELECT table_name FROM information_schema.tables WHERE table_schema = 'public' AND table_type = 'BASE TABLE' ORDER BY table_name;"
    );
    assert_eq!(
        columns_query("o'clock".to_string()),
        "SELECT column_name FROM information_schema.columns WHERE table_name = 'o''clock' ORDER BY ordinal_position;"
    );
}

#[test]
fn empty_schema_has_no_root() {
    let schema = Schema { tables: vec![], relations: vec![] };
    let compiler = Compiler::new(schema);
    assert_eq!(compiler.build().unwrap().len(), 0);
    let result = compiler.compile_to_selects("users".to_string(), "id".to_string(), "1".to_string());
    assert!(matches!(result, Err(CompileError::UnknownRoot)));
}
