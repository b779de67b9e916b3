use order_lifecycle::engine::{
    check_request, remove_one_unit, submit, Outcome, Refusal, Stage, Submitted,
};
use order_lifecycle::estimator::{
    Estimator, FixedEstimator, RandomEstimator, MAX_COOKING_TIME, MIN_COOKING_TIME,
};
use order_lifecycle::query::{list_items_for_table, list_open_orders};
use order_lifecycle::rows::{Error, Order, OrderItem};
use order_lifecycle::store::Store;

fn restaurant() -> Store {
    let mut store = Store::new();
    for code in ["T-01", "T-02", "T-03"] {
        store.register_table(code.to_string()).unwrap();
    }
    for name in ["M-01", "M-02", "M-03", "M-04", "M-05"] {
        store.register_menu(name.to_string()).unwrap();
    }
    store
}

fn refused(error: Error, stage: Stage) -> Result<Submitted, Refusal> {
    Err(Refusal { error, stage })
}

fn fixed(value: i64) -> FixedEstimator {
    FixedEstimator::new(value).unwrap()
}

fn row(id: i64, order_id: i64, menu_id: i64, cooking_time: i64, quantity: i64) -> OrderItem {
    OrderItem { id, order_id, menu_id, cooking_time, quantity }
}

fn lines_of(store: &Store, order_id: i64, menu_id: i64) -> Vec<OrderItem> {
    store
        .item_rows()
        .iter()
        .filter(|it| it.order_id == order_id && it.menu_id == menu_id)
        .copied()
        .collect()
}

#[test]
fn one_open_order_per_table_over_many_submissions() {
    let mut store = restaurant();
    let mut est = fixed(7);
    for round in 0..5 {
        let r = submit(&mut store, &mut est, 2, &vec![1, 3]).unwrap();
        assert_eq!(r.created, round == 0);
        let open: Vec<&Order> = store.order_rows().iter().filter(|o| o.table_id == 2).collect();
        assert_eq!(open.len(), 1);
    }
    assert_eq!(store.create_order(2), Err(Error::ConstraintViolation));
    assert_eq!(store.order_rows().len(), 1);
}

#[test]
fn same_menu_twice_across_two_submissions_is_one_line() {
    let mut store = restaurant();
    let mut est = fixed(9);
    let first = submit(&mut store, &mut est, 1, &vec![4]).unwrap();
    let second = submit(&mut store, &mut est, 1, &vec![4]).unwrap();
    assert_eq!(first, Submitted { order_id: 1, created: true });
    assert_eq!(second, Submitted { order_id: 1, created: false });
    assert_eq!(store.item_rows().clone(), vec![row(1, 1, 4, 9, 2)]);
}

#[test]
fn same_menu_twice_in_one_submission_to_an_open_order_is_one_line() {
    let mut store = restaurant();
    let mut est = fixed(5);
    submit(&mut store, &mut est, 1, &vec![2]).unwrap();
    submit(&mut store, &mut est, 1, &vec![3, 3]).unwrap();
    assert_eq!(lines_of(&store, 1, 3), vec![row(2, 1, 3, 5, 2)]);
    assert_eq!(lines_of(&store, 1, 2), vec![row(1, 1, 2, 5, 1)]);
}

#[test]
fn first_submission_merges_a_repeated_menu() {
    let mut store = restaurant();
    let mut est = fixed(5);
    let r = submit(&mut store, &mut est, 1, &vec![3, 3]);
    assert_eq!(r, Ok(Submitted { order_id: 1, created: true }));
    assert_eq!(store.item_rows().clone(), vec![row(1, 1, 3, 5, 2)]);
    assert_eq!(est.times_asked(), 1);
    assert_eq!(remove_one_unit(&mut store, 1, 3), Ok(Outcome::QuantityReduced));
    assert_eq!(store.item_rows().clone(), vec![row(1, 1, 3, 3, 1)]);
    assert_eq!(store.find_open_order(1), Some(1));
}

#[test]
fn first_submission_with_a_repeated_menu_and_random_estimates() {
    let mut store = restaurant();
    let mut est = RandomEstimator::new();
    let r = submit(&mut store, &mut est, 1, &vec![1, 1]);
    assert_eq!(r, Ok(Submitted { order_id: 1, created: true }));
    assert_eq!(store.order_rows().clone(), vec![Order { id: 1, table_id: 1 }]);
    assert_eq!(store.item_rows().len(), 1);
    let line = store.item_rows()[0];
    assert_eq!((line.id, line.order_id, line.menu_id, line.quantity), (1, 1, 1, 2));
    assert!((5..=15).contains(&line.cooking_time));
}

#[test]
fn first_submission_interleaves_new_lines_and_merges() {
    let mut store = restaurant();
    let r = submit(&mut store, &mut fixed(9), 2, &vec![4, 5, 4, 4, 5]);
    assert_eq!(r, Ok(Submitted { order_id: 1, created: true }));
    assert_eq!(store.item_rows().clone(), vec![row(1, 1, 4, 9, 3), row(2, 1, 5, 9, 2)]);
}

#[test]
fn the_store_takes_no_second_line_for_a_pair() {
    let mut store = restaurant();
    let order_id = store.create_order(1).unwrap();
    assert_eq!(store.create_item(order_id, 1, 6), Ok(1));
    assert_eq!(store.create_item(order_id, 1, 7), Err(Error::ConstraintViolation));
    assert_eq!(store.load_item(row(9, order_id, 1, 7, 3)), Err(Error::ConstraintViolation));
    assert_eq!(store.load_item(row(9, order_id, 2, 7, 3)), Ok(()));
    let other = store.create_order(2).unwrap();
    assert_eq!(store.create_item(other, 1, 8), Ok(10));
    assert_eq!(
        store.item_rows().clone(),
        vec![row(1, order_id, 1, 6, 1), row(9, order_id, 2, 7, 3), row(10, other, 1, 8, 1)]
    );
}

#[test]
fn a_request_is_checked_before_anything_else() {
    assert_eq!(check_request(&vec![]), Err(Error::InvalidRequest));
    assert_eq!(check_request(&vec![7]), Ok(()));
    assert_eq!(check_request(&vec![7, 7]), Ok(()));
}

#[test]
fn merge_keeps_the_first_cooking_time() {
    let mut store = restaurant();
    submit(&mut store, &mut fixed(6), 1, &vec![1]).unwrap();
    submit(&mut store, &mut fixed(15), 1, &vec![1, 2]).unwrap();
    assert_eq!(store.item_rows().clone(), vec![row(1, 1, 1, 6, 2), row(2, 1, 2, 15, 1)]);
}

#[test]
fn decrement_boundary() {
    let mut store = restaurant();
    let order_id = store.create_order(1).unwrap();
    let item_id = store.create_item(order_id, 1, 6).unwrap();
    store.increment_quantity(item_id).unwrap();
    assert_eq!(store.item_rows()[0], row(item_id, order_id, 1, 6, 2));
    assert_eq!(remove_one_unit(&mut store, 1, 1), Ok(Outcome::QuantityReduced));
    assert_eq!(store.item_rows()[0], row(item_id, order_id, 1, 3, 1));
    assert_eq!(remove_one_unit(&mut store, 1, 1), Ok(Outcome::ItemRemovedAndOrderClosed));
}

#[test]
fn decrement_takes_the_share_of_one_unit() {
    let mut store = restaurant();
    let order_id = store.create_order(3).unwrap();
    store.load_item(row(10, order_id, 5, 7, 3)).unwrap();
    assert!(store.decrement_one_unit(10));
    assert_eq!(store.item_rows()[0], row(10, order_id, 5, 5, 2));
    assert!(store.decrement_one_unit(10));
    assert_eq!(store.item_rows()[0], row(10, order_id, 5, 3, 1));
    assert!(!store.decrement_one_unit(10));
    assert_eq!(store.item_rows()[0], row(10, order_id, 5, 3, 1));
    assert!(!store.decrement_one_unit(11));
}

#[test]
fn cascade_deletion_closes_the_order() {
    let mut store = restaurant();
    submit(&mut store, &mut fixed(8), 2, &vec![5]).unwrap();
    submit(&mut store, &mut fixed(8), 3, &vec![5]).unwrap();
    assert_eq!(remove_one_unit(&mut store, 2, 5), Ok(Outcome::ItemRemovedAndOrderClosed));
    assert_eq!(store.find_open_order(2), None);
    assert_eq!(store.find_open_order(3), Some(2));
    assert_eq!(store.item_rows().clone(), vec![row(2, 2, 5, 8, 1)]);
}

#[test]
fn non_cascade_keeps_the_order_and_the_other_line() {
    let mut store = restaurant();
    submit(&mut store, &mut fixed(8), 2, &vec![5, 4]).unwrap();
    assert_eq!(remove_one_unit(&mut store, 2, 5), Ok(Outcome::ItemRemoved));
    assert_eq!(store.find_open_order(2), Some(1));
    assert_eq!(store.item_rows().clone(), vec![row(2, 1, 4, 8, 1)]);
    assert!(store.order_has_items(1));
}

#[test]
fn empty_submission_writes_nothing() {
    let mut store = restaurant();
    submit(&mut store, &mut fixed(8), 1, &vec![1]).unwrap();
    let orders = store.order_rows().clone();
    let items = store.item_rows().clone();
    assert_eq!(submit(&mut store, &mut fixed(8), 1, &vec![]), refused(Error::InvalidRequest, Stage::Request));
    assert_eq!(submit(&mut store, &mut fixed(8), 2, &vec![]), refused(Error::InvalidRequest, Stage::Request));
    assert_eq!(submit(&mut store, &mut fixed(8), 99, &vec![]), refused(Error::InvalidRequest, Stage::Request));
    assert_eq!(store.order_rows().clone(), orders);
    assert_eq!(store.item_rows().clone(), items);
}

#[test]
fn removal_of_a_missing_line_changes_nothing() {
    let mut store = restaurant();
    submit(&mut store, &mut fixed(8), 1, &vec![1]).unwrap();
    let orders = store.order_rows().clone();
    let items = store.item_rows().clone();
    assert_eq!(remove_one_unit(&mut store, 1, 2), Ok(Outcome::NotFound));
    assert_eq!(remove_one_unit(&mut store, 2, 1), Ok(Outcome::NotFound));
    assert_eq!(remove_one_unit(&mut store, 42, 1), Ok(Outcome::NotFound));
    assert_eq!(store.order_rows().clone(), orders);
    assert_eq!(store.item_rows().clone(), items);
}

#[test]
fn failed_submission_keeps_what_was_applied_and_retry_merges() {
    let mut store = restaurant();
    let r = submit(&mut store, &mut fixed(10), 1, &vec![1, 99, 2]);
    assert_eq!(r, refused(Error::ConstraintViolation, Stage::NewLine));
    assert_eq!(store.order_rows().clone(), vec![Order { id: 1, table_id: 1 }]);
    assert_eq!(store.item_rows().clone(), vec![row(1, 1, 1, 10, 1)]);
    let again = submit(&mut store, &mut fixed(12), 1, &vec![1, 2]);
    assert_eq!(again, Ok(Submitted { order_id: 1, created: false }));
    assert_eq!(store.item_rows().clone(), vec![row(1, 1, 1, 10, 2), row(2, 1, 2, 12, 1)]);
}

#[test]
fn failure_while_merging_stops_at_the_refused_item() {
    let mut store = restaurant();
    submit(&mut store, &mut fixed(10), 1, &vec![1]).unwrap();
    let r = submit(&mut store, &mut fixed(10), 1, &vec![1, 77, 1]);
    assert_eq!(r, refused(Error::ConstraintViolation, Stage::NewLine));
    assert_eq!(store.item_rows().clone(), vec![row(1, 1, 1, 10, 2)]);
}

#[test]
fn submission_for_an_unknown_table_is_a_constraint_violation() {
    let mut store = restaurant();
    let r = submit(&mut store, &mut fixed(10), 4, &vec![1]);
    assert_eq!(r, refused(Error::ConstraintViolation, Stage::OpenOrder));
    assert!(store.order_rows().is_empty());
}

#[test]
fn exhausted_ids_and_quantities_are_storage_failures() {
    let mut store = restaurant();
    assert_eq!(store.load_order(Order { id: i64::MAX, table_id: 1 }), Err(Error::StorageFailure));
    assert_eq!(store.load_order(Order { id: i64::MAX - 1, table_id: 1 }), Ok(()));
    assert_eq!(store.create_order(2), Err(Error::StorageFailure));
    let order_id = i64::MAX - 1;
    assert_eq!(store.load_item(row(i64::MAX, order_id, 1, 5, 1)), Err(Error::StorageFailure));
    assert_eq!(store.load_item(row(3, order_id, 1, 5, i64::MAX)), Ok(()));
    assert_eq!(store.increment_quantity(3), Err(Error::StorageFailure));
    assert_eq!(
        submit(&mut store, &mut fixed(5), 1, &vec![1]),
        refused(Error::StorageFailure, Stage::MergeLine)
    );
    assert_eq!(store.item_rows()[0].quantity, i64::MAX);
    assert_eq!(
        submit(&mut store, &mut fixed(5), 2, &vec![1]),
        refused(Error::StorageFailure, Stage::OpenOrder)
    );
    assert_eq!(store.load_item(row(i64::MAX - 1, order_id, 2, 5, 1)), Ok(()));
    assert_eq!(
        submit(&mut store, &mut fixed(5), 1, &vec![3]),
        refused(Error::StorageFailure, Stage::NewLine)
    );
}

#[test]
fn repository_refusals() {
    let mut store = restaurant();
    assert_eq!(store.increment_quantity(1), Err(Error::NotFound));
    assert_eq!(store.create_order(9), Err(Error::ConstraintViolation));
    assert_eq!(store.create_item(1, 1, 6), Err(Error::ConstraintViolation));
    let order_id = store.create_order(1).unwrap();
    assert_eq!(store.create_item(order_id, 9, 6), Err(Error::ConstraintViolation));
    assert_eq!(store.create_item(order_id, 1, 0), Err(Error::ConstraintViolation));
    assert_eq!(store.create_item(order_id, 1, 6), Ok(1));
    assert_eq!(store.load_item(row(1, order_id, 2, 6, 1)), Err(Error::ConstraintViolation));
    assert_eq!(store.load_item(row(2, order_id, 2, 6, 0)), Err(Error::ConstraintViolation));
    assert_eq!(store.load_order(Order { id: 1, table_id: 2 }), Err(Error::ConstraintViolation));
    assert_eq!(store.load_table(2, "T-09".to_string()), Err(Error::ConstraintViolation));
    assert_eq!(store.load_table(9, "T-01".to_string()), Err(Error::ConstraintViolation));
    assert_eq!(store.load_table(9, "T-09".to_string()), Ok(()));
    assert_eq!(store.register_table("T-10".to_string()), Ok(10));
    assert_eq!(store.load_menu(5, "M-09".to_string()), Err(Error::ConstraintViolation));
    assert_eq!(store.load_menu(i64::MAX, "M-09".to_string()), Err(Error::StorageFailure));
    assert_eq!(store.load_menu(8, "M-09".to_string()), Ok(()));
    assert_eq!(store.item_rows().clone(), vec![row(1, order_id, 1, 6, 1)]);
}

#[test]
fn registering_twice_keeps_the_id() {
    let mut store = restaurant();
    assert_eq!(store.register_table("T-02".to_string()), Ok(2));
    assert_eq!(store.register_menu("M-05".to_string()), Ok(5));
    assert_eq!(store.register_menu("M-06".to_string()), Ok(6));
    assert_eq!(store.table_rows().len(), 3);
    assert_eq!(store.menu_rows().len(), 6);
    assert!(store.table_exists(3));
    assert!(!store.table_exists(4));
    assert!(store.menu_exists(6));
    assert!(!store.menu_exists(7));
    assert_eq!(store.menu_name(6), Some("M-06".to_string()));
    assert_eq!(store.menu_name(7), None);
}

#[test]
fn find_item_and_delete_item() {
    let mut store = restaurant();
    let order_id = store.create_order(1).unwrap();
    store.create_item(order_id, 1, 6).unwrap();
    store.create_item(order_id, 2, 7).unwrap();
    assert_eq!(store.find_item(order_id, 2), Some(2));
    assert_eq!(store.find_item(order_id, 3), None);
    assert_eq!(store.find_item(order_id + 1, 2), None);
    assert!(!store.delete_item(order_id, 3));
    assert_eq!(store.item_rows().len(), 2);
    assert!(store.delete_item(order_id, 1));
    assert_eq!(store.item_rows().clone(), vec![row(2, order_id, 2, 7, 1)]);
    assert_eq!(store.items_of_order(order_id), vec![row(2, order_id, 2, 7, 1)]);
}

#[test]
fn delete_order_takes_its_lines_along() {
    let mut store = restaurant();
    submit(&mut store, &mut fixed(5), 1, &vec![1, 2]).unwrap();
    submit(&mut store, &mut fixed(6), 2, &vec![3]).unwrap();
    assert!(!store.delete_order(7));
    assert!(store.delete_order(1));
    assert_eq!(store.order_rows().clone(), vec![Order { id: 2, table_id: 2 }]);
    assert_eq!(store.item_rows().clone(), vec![row(3, 2, 3, 6, 1)]);
    assert!(!store.order_has_items(1));
    assert!(store.order_has_items(2));
}

#[test]
fn listings_reflect_the_store() {
    let mut store = restaurant();
    submit(&mut store, &mut fixed(5), 1, &vec![1, 2]).unwrap();
    submit(&mut store, &mut fixed(6), 3, &vec![2]).unwrap();
    let orders = list_open_orders(&store);
    assert_eq!(orders.len(), 2);
    assert_eq!(orders[0].order, Order { id: 1, table_id: 1 });
    assert_eq!(orders[0].items, vec![row(1, 1, 1, 5, 1), row(2, 1, 2, 5, 1)]);
    assert_eq!(orders[1].order, Order { id: 2, table_id: 3 });
    assert_eq!(orders[1].items, vec![row(3, 2, 2, 6, 1)]);
    let items = list_items_for_table(&store, 1);
    assert_eq!(items.len(), 2);
    assert_eq!(items[0].item, row(1, 1, 1, 5, 1));
    assert_eq!(items[0].menu_name, "M-01");
    assert_eq!(items[1].item, row(2, 1, 2, 5, 1));
    assert_eq!(items[1].menu_name, "M-02");
    assert!(list_items_for_table(&store, 2).is_empty());
}

#[test]
fn fixed_estimator_takes_only_admissible_times() {
    assert!(FixedEstimator::new(MIN_COOKING_TIME - 1).is_none());
    assert!(FixedEstimator::new(MAX_COOKING_TIME + 1).is_none());
    assert_eq!(FixedEstimator::new(5).unwrap().estimate(), 5);
    assert_eq!(FixedEstimator::new(15).unwrap().estimate(), 15);
    assert_eq!(MIN_COOKING_TIME, 5);
    assert_eq!(MAX_COOKING_TIME, 15);
}

#[test]
fn random_estimates_lie_in_the_range_and_vary() {
    let mut est = RandomEstimator::new();
    let mut seen_other_than_min = false;
    let mut seen_other_than_max = false;
    for _ in 0..400 {
        let t = est.estimate();
        assert!((5..=15).contains(&t));
        seen_other_than_min = seen_other_than_min || t != 5;
        seen_other_than_max = seen_other_than_max || t != 15;
    }
    assert!(seen_other_than_min && seen_other_than_max);
}

#[test]
fn random_cooking_time_of_a_new_line_lies_in_the_range() {
    let mut store = restaurant();
    let mut est = RandomEstimator::new();
    submit(&mut store, &mut est, 1, &vec![1, 2, 3, 4, 5]).unwrap();
    assert_eq!(store.item_rows().len(), 5);
    for it in store.item_rows().iter() {
        assert!((5..=15).contains(&it.cooking_time));
        assert_eq!(it.quantity, 1);
    }
}

#[test]
fn estimator_is_asked_for_new_lines_only() {
    let mut store = restaurant();
    let mut est = fixed(11);
    assert_eq!(est.times_asked(), 0);
    submit(&mut store, &mut est, 1, &vec![1, 2]).unwrap();
    assert_eq!(est.times_asked(), 2);
    submit(&mut store, &mut est, 1, &vec![1, 2, 1]).unwrap();
    assert_eq!(est.times_asked(), 2);
    submit(&mut store, &mut est, 1, &vec![2, 3, 3]).unwrap();
    assert_eq!(est.times_asked(), 3);
    assert_eq!(
        store.item_rows().clone(),
        vec![row(1, 1, 1, 11, 3), row(2, 1, 2, 11, 3), row(3, 1, 3, 11, 2)]
    );
    assert_eq!(remove_one_unit(&mut store, 1, 3), Ok(Outcome::QuantityReduced));
    assert_eq!(store.item_rows()[2], row(3, 1, 3, 6, 1));
    assert_eq!(est.times_asked(), 3);
    assert_eq!(submit(&mut store, &mut est, 1, &vec![]), refused(Error::InvalidRequest, Stage::Request));
    assert_eq!(est.times_asked(), 3);
    assert_eq!(
        submit(&mut store, &mut est, 1, &vec![4, 99]),
        refused(Error::ConstraintViolation, Stage::NewLine)
    );
    assert_eq!(est.times_asked(), 5);
}
