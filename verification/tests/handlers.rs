use order_lifecycle::engine::{remove_one_unit, submit, Outcome, Refusal, Stage, Submitted};
use order_lifecycle::estimator::RandomEstimator;
use order_lifecycle::query::get_item_for_table;
use order_lifecycle::rows::{Error, Order, OrderItem};
use order_lifecycle::store::Store;

fn with_static_data() -> Store {
    let mut store = Store::new();
    for code in ["T-01", "T-02", "T-03"] {
        store.register_table(code.to_string()).expect("Insertion Failed");
    }
    for name in ["M-01", "M-02", "M-03", "M-04", "M-05"] {
        store.register_menu(name.to_string()).expect("Insertion Failed");
    }
    store
}

fn line(id: i64, order_id: i64, menu_id: i64, cooking_time: i64, quantity: i64) -> OrderItem {
    OrderItem { id, order_id, menu_id, cooking_time, quantity }
}

#[test]
fn test_create_menu_handler() {
    let mut store = Store::new();
    let result = store.register_menu("Menu-01".to_string());
    assert_eq!(result, Ok(1));
    assert_eq!(store.menu_rows().len(), 1);
    assert_eq!(store.menu_rows()[0].name, "Menu-01");
}

#[test]
fn test_create_table_handler() {
    let mut store = Store::new();
    let result = store.register_table("Table-01".to_string());
    assert_eq!(result, Ok(1));
    assert_eq!(store.table_rows().len(), 1);
    assert_eq!(store.table_rows()[0].code, "Table-01");
}

#[test]
fn test_create_order_handler_wrong_data() {
    let mut store = Store::new();
    let mut estimator = RandomEstimator::new();
    let result = submit(&mut store, &mut estimator, 1, &vec![1, 2]);
    assert_eq!(
        result,
        Err(Refusal { error: Error::ConstraintViolation, stage: Stage::OpenOrder })
    );
    assert!(store.order_rows().is_empty());
    assert!(store.item_rows().is_empty());
}

#[test]
fn test_create_order_handler_wrong_data2() {
    let mut store = with_static_data();
    let mut estimator = RandomEstimator::new();
    let result = submit(&mut store, &mut estimator, 1, &vec![]);
    assert_eq!(result, Err(Refusal { error: Error::InvalidRequest, stage: Stage::Request }));
    assert!(store.order_rows().is_empty());
    assert!(store.item_rows().is_empty());
}

#[test]
fn test_create_order_handler_correct_data() {
    let mut store = with_static_data();
    let mut estimator = RandomEstimator::new();
    let result = submit(&mut store, &mut estimator, 1, &vec![1, 2]);
    assert_eq!(result, Ok(Submitted { order_id: 1, created: true }));
    assert_eq!(store.order_rows().clone(), vec![Order { id: 1, table_id: 1 }]);
    assert_eq!(store.item_rows().len(), 2);
}

#[test]
fn test_remove_item_from_table_handler() {
    let mut store = with_static_data();
    let order_id = store.create_order(1).expect("Order Creation Failed");
    store.create_item(order_id, 1, 6).expect("OrderItems creation failed");
    store.create_item(order_id, 2, 7).expect("OrderItems creation failed");
    let result = remove_one_unit(&mut store, 1, 2);
    assert_eq!(result, Ok(Outcome::ItemRemoved));
    assert_eq!(store.find_open_order(1), Some(order_id));
    assert_eq!(store.item_rows().clone(), vec![line(1, order_id, 1, 6, 1)]);
}

#[test]
fn test_all_order_item_remove_handler() {
    let mut store = with_static_data();
    let order_id = store.create_order(1).expect("Order Creation Failed");
    store.create_item(order_id, 1, 6).expect("OrderItems creation failed");
    let result = remove_one_unit(&mut store, 1, 1);
    assert_eq!(result, Ok(Outcome::ItemRemovedAndOrderClosed));
    assert_eq!(store.find_open_order(1), None);
    assert!(store.order_rows().is_empty());
    assert!(store.item_rows().is_empty());
}

#[test]
fn test_order_item_quantity_reduce_handler() {
    let mut store = with_static_data();
    let order_id = store.create_order(1).expect("Order Creation Failed");
    store.load_item(line(1, order_id, 1, 6, 2)).expect("OrderItems creation failed");
    let result = remove_one_unit(&mut store, 1, 1);
    assert_eq!(result, Ok(Outcome::QuantityReduced));
    assert_eq!(store.item_rows().clone(), vec![line(1, order_id, 1, 3, 1)]);
    assert_eq!(store.find_open_order(1), Some(order_id));
}

#[test]
fn test_get_item_from_table_handler() {
    let mut store = with_static_data();
    let order_id = store.create_order(1).expect("Order Creation Failed");
    store.create_item(order_id, 1, 6).expect("OrderItems creation failed");
    store.create_item(order_id, 2, 7).expect("OrderItems creation failed");
    let found = get_item_for_table(&store, 1, 2).expect("No Item Found");
    assert_eq!(found.menu_name, "M-02");
    assert_eq!(found.item, line(2, order_id, 2, 7, 1));
    assert!(get_item_for_table(&store, 1, 3).is_none());
    assert!(get_item_for_table(&store, 2, 2).is_none());
}
