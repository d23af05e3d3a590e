use entity_orm::engine::{
    create_statements, delete_statement, drop_statements, fold_get, get_statement, sum_affected,
    update_statement, InsertEngine, Statement, StepResult,
};
use entity_orm::entity::{EntityInner, Graph, OrmError};
use entity_orm::meta::{EntityMeta, FieldKind, FieldMeta, OrmMeta};
use entity_orm::sql::{
    entity_get_columns, sql_create_table, sql_delete, sql_drop_table, sql_insert, sql_select,
    sql_update,
};
use entity_orm::value::SqlValue;

fn field(name: &str, db_ty: &str, kind: FieldKind) -> FieldMeta {
    FieldMeta { field_name: name.to_string(), db_ty: db_ty.to_string(), kind }
}

fn customer_meta() -> EntityMeta {
    EntityMeta {
        entity: "Customer".to_string(),
        table_name: "customer".to_string(),
        fields: vec![
            field("id", "id BIGINT PRIMARY KEY AUTO_INCREMENT", FieldKind::Key),
            field("name", "name VARCHAR(64)", FieldKind::Plain),
        ],
    }
}

fn order_meta() -> EntityMeta {
    EntityMeta {
        entity: "Order".to_string(),
        table_name: "order".to_string(),
        fields: vec![
            field("id", "id BIGINT PRIMARY KEY AUTO_INCREMENT", FieldKind::Key),
            field("total", "total BIGINT", FieldKind::Plain),
            field("customer_id", "customer_id BIGINT", FieldKind::Plain),
            field(
                "customer",
                "",
                FieldKind::SingleRef {
                    target: "Customer".to_string(),
                    fk_field: "customer_id".to_string(),
                    cascade: true,
                },
            ),
            field(
                "shipping_info",
                "",
                FieldKind::OneToOne {
                    target: "ShippingInfo".to_string(),
                    fk_field: "order_id".to_string(),
                    cascade: true,
                },
            ),
        ],
    }
}

fn shipping_meta() -> EntityMeta {
    EntityMeta {
        entity: "ShippingInfo".to_string(),
        table_name: "shipping_info".to_string(),
        fields: vec![
            field("id", "id BIGINT PRIMARY KEY AUTO_INCREMENT", FieldKind::Key),
            field("order_id", "order_id BIGINT", FieldKind::Plain),
            field("address", "address VARCHAR(128)", FieldKind::Plain),
        ],
    }
}

/// Drives a cascade to completion, answering the i-th INSERT with keys[i].
fn drive(g: &mut Graph, root: usize, keys: &[u64]) -> Vec<Statement> {
    let mut eng = InsertEngine::begin(root, g);
    let mut asked: Vec<Statement> = Vec::new();
    loop {
        match eng.step(g) {
            StepResult::Ask(st) => {
                let key = keys[asked.len()];
                asked.push(st);
                eng.feed(g, key);
            }
            StepResult::Working => {}
            StepResult::Done => break,
        }
    }
    asked
}

#[test]
fn insert_lone_node_assigns_key() {
    let mut g = Graph::new();
    let customer = g.default_pointer(customer_meta());
    g.nodes[customer].set_value("name", SqlValue::Text("ada".to_string()));

    let asked = drive(&mut g, customer, &[17]);
    assert_eq!(asked.len(), 1);
    assert_eq!(asked[0].sql, "INSERT INTO `customer`(name) VALUES (:name)");
    assert_eq!(
        asked[0].params,
        vec![("name".to_string(), SqlValue::Text("ada".to_string()))]
    );
    assert_eq!(g.nodes[customer].get_id_u64(), Some(17));
}

#[test]
fn insert_resolves_owning_reference_first() {
    let mut g = Graph::new();
    let customer = g.default_pointer(customer_meta());
    let order = g.default_pointer(order_meta());
    g.nodes[customer].set_value("name", SqlValue::Text("bo".to_string()));
    g.nodes[order].set_value("total", SqlValue::Int(250));
    g.set_pointer(order, "customer", Some(customer));
    // the customer is still keyless, so its foreign key mirrors NULL
    assert_eq!(g.nodes[order].get_value("customer_id"), Some(SqlValue::Null));

    let asked = drive(&mut g, order, &[3, 4]);
    assert_eq!(asked.len(), 2);
    // the referenced row is written and keyed strictly before the owner's INSERT
    assert!(asked[0].sql.starts_with("INSERT INTO `customer`"));
    assert!(asked[1].sql.starts_with("INSERT INTO `order`"));
    // and the owner's INSERT already carries the assigned key
    assert!(asked[1]
        .params
        .contains(&("customer_id".to_string(), SqlValue::UInt(3))));
    assert_eq!(g.nodes[customer].get_id_u64(), Some(3));
    assert_eq!(g.nodes[order].get_id_u64(), Some(4));
    assert_eq!(g.nodes[order].get_value("customer_id"), Some(SqlValue::UInt(3)));
}

#[test]
fn insert_writes_dependent_after_owner() {
    let mut g = Graph::new();
    let order = g.default_pointer(order_meta());
    let shipping = g.default_pointer(shipping_meta());
    g.nodes[order].set_value("total", SqlValue::Int(9));
    g.nodes[shipping].set_value("address", SqlValue::Text("pier 4".to_string()));
    g.set_one_one(order, "shipping_info", Some(shipping));

    let asked = drive(&mut g, order, &[5, 6]);
    assert_eq!(asked.len(), 2);
    // the owner is written first; the dependent follows with the owner's key
    assert!(asked[0].sql.starts_with("INSERT INTO `order`"));
    assert!(asked[1].sql.starts_with("INSERT INTO `shipping_info`"));
    assert!(asked[1]
        .params
        .contains(&("order_id".to_string(), SqlValue::UInt(5))));
    assert_eq!(g.nodes[order].get_id_u64(), Some(5));
    assert_eq!(g.nodes[shipping].get_id_u64(), Some(6));
    assert_eq!(g.nodes[shipping].get_value("order_id"), Some(SqlValue::UInt(5)));
}

#[test]
fn insert_skips_already_keyed_reference() {
    let mut g = Graph::new();
    let customer = g.default_pointer(customer_meta());
    let order = g.default_pointer(order_meta());
    g.nodes[customer].set_value("id", SqlValue::UInt(40));
    g.set_pointer(order, "customer", Some(customer));

    let asked = drive(&mut g, order, &[41]);
    assert_eq!(asked.len(), 1);
    assert!(asked[0].sql.starts_with("INSERT INTO `order`"));
    assert_eq!(g.nodes[customer].get_id_u64(), Some(40));
    assert_eq!(g.nodes[order].get_value("customer_id"), Some(SqlValue::UInt(40)));
}

#[test]
fn get_not_found_carries_the_key() {
    let rows: Vec<Vec<(String, SqlValue)>> = vec![];
    match fold_get(order_meta(), 999, &rows) {
        Err(OrmError::NotFound { entity, key }) => {
            assert_eq!(entity, "Order");
            assert_eq!(key, 999);
        }
        Err(_) => panic!("expected the not-found failure, got another error"),
        Ok(_) => panic!("expected the not-found failure, got a node"),
    }
}

#[test]
fn get_hydrates_from_the_first_row() {
    let rows = vec![vec![
        ("id".to_string(), SqlValue::UInt(12)),
        ("total".to_string(), SqlValue::Int(77)),
    ]];
    let node = fold_get(order_meta(), 12, &rows).unwrap();
    assert_eq!(node.get_id_u64(), Some(12));
    let signed_rows = vec![vec![("id".to_string(), SqlValue::Int(12))]];
    let signed = fold_get(order_meta(), 12, &signed_rows).unwrap();
    assert_eq!(signed.get_id_u64(), Some(12));
    assert_eq!(node.get_value("total"), Some(SqlValue::Int(77)));
    assert_eq!(node.get_value("customer_id"), Some(SqlValue::Null));
}

#[test]
fn round_trip_through_insert_and_get() {
    let mut g = Graph::new();
    let order = g.default_pointer(order_meta());
    g.nodes[order].set_value("total", SqlValue::Int(123));
    g.nodes[order].set_value("customer_id", SqlValue::UInt(2));
    let asked = drive(&mut g, order, &[30]);

    // a row as the store would hand it back: the key plus the written columns
    let mut row = vec![("id".to_string(), SqlValue::UInt(30))];
    row.extend(asked[0].params.iter().cloned());
    let fetched = fold_get(order_meta(), 30, &vec![row]).unwrap();
    assert_eq!(fetched.get_value("total"), g.nodes[order].get_value("total"));
    assert_eq!(
        fetched.get_value("customer_id"),
        g.nodes[order].get_value("customer_id")
    );
    assert_eq!(fetched.get_id_u64(), Some(30));
}

#[test]
fn statement_texts() {
    let meta = order_meta();
    assert_eq!(
        sql_create_table(&meta),
        "CREATE TABLE IF NOT EXISTS `order`(id BIGINT PRIMARY KEY AUTO_INCREMENT, total BIGINT, customer_id BIGINT)"
    );
    assert_eq!(sql_drop_table(&meta), "DROP TABLE IF EXISTS `order`");
    assert_eq!(
        sql_insert(&meta),
        "INSERT INTO `order`(total, customer_id) VALUES (:total, :customer_id)"
    );
    assert_eq!(
        sql_update(&meta),
        "UPDATE `order` SET total = :total, customer_id = :customer_id WHERE id = :id"
    );
    assert_eq!(
        sql_select(&meta),
        "SELECT id, total, customer_id FROM `order` WHERE id = :id"
    );
    assert_eq!(sql_delete(&meta), "DELETE FROM `order` WHERE id = :id");
    assert_eq!(entity_get_columns(&meta), vec!["total".to_string(), "customer_id".to_string()]);
}

#[test]
fn update_get_delete_statements_carry_the_key() {
    let mut node = EntityInner::default(order_meta());
    node.set_value("id", SqlValue::UInt(21));
    node.set_value("total", SqlValue::Int(5));

    let upd = update_statement(&node);
    assert_eq!(
        upd.sql,
        "UPDATE `order` SET total = :total, customer_id = :customer_id WHERE id = :id"
    );
    assert_eq!(upd.params.last(), Some(&("id".to_string(), SqlValue::UInt(21))));

    let get = get_statement(&order_meta(), 21);
    assert_eq!(get.sql, "SELECT id, total, customer_id FROM `order` WHERE id = :id");
    assert_eq!(get.params, vec![("id".to_string(), SqlValue::UInt(21))]);

    let del = delete_statement(&node);
    assert_eq!(del.sql, "DELETE FROM `order` WHERE id = :id");
    assert_eq!(del.params, vec![("id".to_string(), SqlValue::UInt(21))]);
}

#[test]
fn schema_statements_one_per_entity_type() {
    let orm = OrmMeta { entities: vec![customer_meta(), order_meta()] };
    let creates = create_statements(&orm);
    let drops = drop_statements(&orm);
    assert_eq!(creates.len(), 2);
    assert_eq!(drops.len(), 2);
    assert_eq!(
        creates[0],
        "CREATE TABLE IF NOT EXISTS `customer`(id BIGINT PRIMARY KEY AUTO_INCREMENT, name VARCHAR(64))"
    );
    assert_eq!(drops[0], "DROP TABLE IF EXISTS `customer`");
    assert_eq!(drops[1], "DROP TABLE IF EXISTS `order`");
}

#[test]
fn affected_rows_accumulate() {
    assert_eq!(sum_affected(&vec![2, 3, 4]), 9);
    assert_eq!(sum_affected(&vec![]), 0);
    assert_eq!(sum_affected(&vec![u64::MAX, 1]), u64::MAX);
}

#[test]
fn insert_skips_already_synchronized_subgraph() {
    let mut g = Graph::new();
    let customer = g.default_pointer(customer_meta());
    g.cascade_reset(customer);
    let asked = drive(&mut g, customer, &[]);
    assert_eq!(asked.len(), 0);
    assert_eq!(g.nodes[customer].get_id_u64(), None);
}

#[test]
fn insert_skips_reference_keyed_by_signed_value() {
    let mut g = Graph::new();
    let customer = g.default_pointer(customer_meta());
    let order = g.default_pointer(order_meta());
    g.nodes[customer].set_value("id", SqlValue::Int(40));
    g.set_pointer(order, "customer", Some(customer));

    let asked = drive(&mut g, order, &[41]);
    assert_eq!(asked.len(), 1);
    assert!(asked[0].sql.starts_with("INSERT INTO `order`"));
    assert_eq!(g.nodes[order].get_value("customer_id"), Some(SqlValue::Int(40)));
}
