use entity_orm::entity::{Cascade, EntityInner, Graph};
use entity_orm::meta::{EntityMeta, FieldKind, FieldMeta};
use entity_orm::value::SqlValue;

fn field(name: &str, db_ty: &str, kind: FieldKind) -> FieldMeta {
    FieldMeta { field_name: name.to_string(), db_ty: db_ty.to_string(), kind }
}

fn customer_meta() -> EntityMeta {
    EntityMeta {
        entity: "Customer".to_string(),
        table_name: "customer".to_string(),
        fields: vec![
            field("id", "id BIGINT PRIMARY KEY AUTO_INCREMENT", FieldKind::Key),
            field("name", "name VARCHAR(64)", FieldKind::Plain),
            field(
                "orders",
                "",
                FieldKind::OneToMany {
                    target: "Order".to_string(),
                    fk_field: "customer_id".to_string(),
                    cascade: false,
                },
            ),
        ],
    }
}

fn order_meta() -> EntityMeta {
    EntityMeta {
        entity: "Order".to_string(),
        table_name: "order".to_string(),
        fields: vec![
            field("id", "id BIGINT PRIMARY KEY AUTO_INCREMENT", FieldKind::Key),
            field("total", "total BIGINT", FieldKind::Plain),
            field("customer_id", "customer_id BIGINT", FieldKind::Plain),
            field(
                "customer",
                "",
                FieldKind::SingleRef {
                    target: "Customer".to_string(),
                    fk_field: "customer_id".to_string(),
                    cascade: true,
                },
            ),
            field(
                "shipping_info",
                "",
                FieldKind::OneToOne {
                    target: "ShippingInfo".to_string(),
                    fk_field: "order_id".to_string(),
                    cascade: true,
                },
            ),
        ],
    }
}

fn shipping_meta() -> EntityMeta {
    EntityMeta {
        entity: "ShippingInfo".to_string(),
        table_name: "shipping_info".to_string(),
        fields: vec![
            field("id", "id BIGINT PRIMARY KEY AUTO_INCREMENT", FieldKind::Key),
            field("order_id", "order_id BIGINT", FieldKind::Plain),
            field("address", "address VARCHAR(128)", FieldKind::Plain),
        ],
    }
}

#[test]
fn scalar_fields_are_kept_apart() {
    let mut node = EntityInner::default(order_meta());
    node.set_value("total", SqlValue::Int(42));
    node.set_value("customer_id", SqlValue::UInt(7));
    assert_eq!(node.get_value("total"), Some(SqlValue::Int(42)));
    assert_eq!(node.get_value("customer_id"), Some(SqlValue::UInt(7)));
    assert_eq!(node.get_value("missing"), None);
    node.set_value_null("total");
    assert!(node.is_value_null("total"));
    assert!(!node.is_value_null("customer_id"));
}

#[test]
fn key_access() {
    let mut node = EntityInner::default(order_meta());
    assert_eq!(node.get_id_u64(), None);
    assert_eq!(node.get_id_value(), SqlValue::Null);
    node.set_value("id", SqlValue::UInt(31));
    assert_eq!(node.get_id_u64(), Some(31));
    assert_eq!(node.get_id_value(), SqlValue::UInt(31));
}

#[test]
fn key_access_converts_signed_store_values() {
    let mut node = EntityInner::default(order_meta());
    node.set_value("id", SqlValue::Int(31));
    assert_eq!(node.get_id_u64(), Some(31));
    node.set_value("id", SqlValue::Int(0));
    assert_eq!(node.get_id_u64(), Some(0));
    node.set_value("id", SqlValue::Int(-1));
    assert_eq!(node.get_id_u64(), None);
    node.set_value_null("id");
    assert_eq!(node.get_id_u64(), None);
}

#[test]
fn fk_mirroring_on_set_pointer() {
    let mut g = Graph::new();
    let customer = g.default_pointer(customer_meta());
    let order = g.default_pointer(order_meta());
    g.nodes[customer].set_value("id", SqlValue::UInt(7));

    g.set_pointer(order, "customer", Some(customer));
    assert_eq!(g.nodes[order].get_value("customer_id"), Some(SqlValue::UInt(7)));
    assert_eq!(g.get_entity(order, "customer"), Ok(Some(customer)));

    g.set_pointer(order, "customer", None);
    assert_eq!(g.nodes[order].get_value("customer_id"), Some(SqlValue::Null));
    assert_eq!(g.get_entity(order, "customer"), Ok(None));
}

#[test]
fn set_entity_dispatches_on_kind() {
    let mut g = Graph::new();
    let customer = g.default_pointer(customer_meta());
    let order = g.default_pointer(order_meta());
    g.nodes[customer].set_value("id", SqlValue::UInt(9));
    g.set_entity(order, "customer", Some(customer));
    assert_eq!(g.nodes[order].get_value("customer_id"), Some(SqlValue::UInt(9)));
}

#[test]
fn one_one_exclusivity() {
    let mut g = Graph::new();
    let order = g.default_pointer(order_meta());
    let first = g.default_pointer(shipping_meta());
    let second = g.default_pointer(shipping_meta());
    g.nodes[order].set_value("id", SqlValue::UInt(5));

    g.set_one_one(order, "shipping_info", Some(first));
    assert_eq!(g.nodes[first].get_value("order_id"), Some(SqlValue::UInt(5)));

    g.set_one_one(order, "shipping_info", Some(second));
    assert_eq!(g.nodes[first].get_value("order_id"), Some(SqlValue::Null));
    assert_eq!(g.nodes[second].get_value("order_id"), Some(SqlValue::UInt(5)));
    assert_eq!(g.get_entity(order, "shipping_info"), Ok(Some(second)));
}

#[test]
fn one_many_rebind() {
    let mut g = Graph::new();
    let customer = g.default_pointer(customer_meta());
    let p = g.default_pointer(order_meta());
    let q = g.default_pointer(order_meta());
    let x = g.default_pointer(order_meta());
    let y = g.default_pointer(order_meta());
    g.nodes[customer].set_value("id", SqlValue::UInt(3));

    g.set_vec(customer, "orders", vec![p, q]);
    assert_eq!(g.nodes[p].get_value("customer_id"), Some(SqlValue::UInt(3)));
    assert_eq!(g.nodes[q].get_value("customer_id"), Some(SqlValue::UInt(3)));

    g.set_vec(customer, "orders", vec![x, y]);
    assert_eq!(g.nodes[p].get_value("customer_id"), Some(SqlValue::Null));
    assert_eq!(g.nodes[q].get_value("customer_id"), Some(SqlValue::Null));
    assert_eq!(g.nodes[x].get_value("customer_id"), Some(SqlValue::UInt(3)));
    assert_eq!(g.nodes[y].get_value("customer_id"), Some(SqlValue::UInt(3)));
    assert_eq!(g.get_vec(customer, "orders"), Ok(vec![x, y]));
}

#[test]
fn one_many_unlink_all() {
    let mut g = Graph::new();
    let customer = g.default_pointer(customer_meta());
    let a = g.default_pointer(order_meta());
    let b = g.default_pointer(order_meta());
    g.nodes[customer].set_value("id", SqlValue::UInt(8));
    g.set_vec(customer, "orders", vec![a, b]);

    g.set_vec(customer, "orders", vec![]);
    assert_eq!(g.nodes[a].get_value("customer_id"), Some(SqlValue::Null));
    assert_eq!(g.nodes[b].get_value("customer_id"), Some(SqlValue::Null));
    assert_eq!(g.get_vec(customer, "orders"), Ok(vec![]));
}

#[test]
fn unloaded_relations_are_refused() {
    let mut g = Graph::new();
    let order = g.new_pointer(order_meta());
    let customer = g.new_pointer(customer_meta());
    assert!(g.get_entity(order, "customer").is_err());
    assert!(g.get_vec(customer, "orders").is_err());
    assert!(g.nodes[customer].is_vec_null("orders"));
    let hydrated = EntityInner::default(customer_meta());
    assert!(!hydrated.is_vec_null("orders"));
}

#[test]
fn identity_is_the_node_not_its_values() {
    let mut g = Graph::new();
    let one = g.default_pointer(customer_meta());
    let two = g.default_pointer(customer_meta());
    g.nodes[one].set_value("name", SqlValue::Text("same".to_string()));
    g.nodes[two].set_value("name", SqlValue::Text("same".to_string()));
    assert_eq!(g.nodes[one].get_value("name"), g.nodes[two].get_value("name"));
    assert_ne!(g.get_addr(one), g.get_addr(two));
    let again = one;
    assert_eq!(g.get_addr(one), g.get_addr(again));
}

#[test]
fn params_round_trip_restores_plain_fields() {
    let mut node = EntityInner::default(order_meta());
    node.set_value("id", SqlValue::UInt(11));
    node.set_value("total", SqlValue::Int(42));
    node.set_value("customer_id", SqlValue::UInt(7));

    let params = node.get_params();
    assert_eq!(
        params,
        vec![
            ("total".to_string(), SqlValue::Int(42)),
            ("customer_id".to_string(), SqlValue::UInt(7)),
        ]
    );

    let mut fresh = EntityInner::default(order_meta());
    fresh.set_values(&params);
    assert_eq!(fresh.get_value("total"), Some(SqlValue::Int(42)));
    assert_eq!(fresh.get_value("customer_id"), Some(SqlValue::UInt(7)));
    // the key never travels through the parameter list
    assert_eq!(fresh.get_id_u64(), None);
}

#[test]
fn set_values_ignores_unknown_columns() {
    let mut node = EntityInner::default(order_meta());
    let row = vec![
        ("no_such_column".to_string(), SqlValue::Int(1)),
        ("total".to_string(), SqlValue::Int(2)),
    ];
    node.set_values(&row);
    assert_eq!(node.get_value("total"), Some(SqlValue::Int(2)));
    assert_eq!(node.get_value("no_such_column"), None);
}

#[test]
fn rendering_numbers() {
    assert_eq!(entity_orm::json::u64_to_string(0), "0");
    assert_eq!(entity_orm::json::u64_to_string(90217), "90217");
    assert_eq!(entity_orm::json::i64_to_string(-42), "-42");
    assert_eq!(entity_orm::json::i64_to_string(7), "7");
    assert_eq!(entity_orm::json::i64_to_string(i64::MIN), "-9223372036854775808");
}

#[test]
fn rendering_a_node() {
    let mut g = Graph::new();
    let customer = g.default_pointer(customer_meta());
    let a = g.default_pointer(order_meta());
    let b = g.default_pointer(order_meta());
    g.nodes[customer].set_value("id", SqlValue::UInt(4));
    g.nodes[customer].set_value("name", SqlValue::Text("ada".to_string()));
    g.set_vec(customer, "orders", vec![a, b]);
    assert_eq!(
        g.nodes[customer].to_json(),
        "{id: 4, name: \"ada\", orders: [1, 2]}"
    );

    let plain = EntityInner::new(order_meta());
    assert_eq!(plain.to_json(), "{}");
}

#[test]
fn cascade_reset_clears_linked_subgraph() {
    let mut g = Graph::new();
    let customer = g.default_pointer(customer_meta());
    let order = g.default_pointer(order_meta());
    let ship = g.default_pointer(shipping_meta());
    g.nodes[customer].set_value("id", SqlValue::UInt(1));
    g.set_vec(customer, "orders", vec![order]);
    g.set_one_one(order, "shipping_info", Some(ship));
    assert_eq!(g.nodes[order].cascade, Some(Cascade::Insert));

    let lone = g.default_pointer(customer_meta());

    g.cascade_reset(customer);
    assert_eq!(g.nodes[customer].cascade, None);
    assert_eq!(g.nodes[order].cascade, None);
    assert_eq!(g.nodes[ship].cascade, None);
    // a node the subgraph does not reach keeps its mode
    assert_eq!(g.nodes[lone].cascade, Some(Cascade::Insert));
    // only the modes were touched
    assert_eq!(g.nodes[order].get_value("customer_id"), Some(SqlValue::UInt(1)));
}
