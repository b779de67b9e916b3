//! The read side: the open orders with their lines, the lines of a table, and
//! one line of a table. Nothing here changes the store.

use vstd::prelude::*;
use crate::rows::{
    Menu, Order, OrderItem, find_first, lemma_find_first, menu_with_id, line_of, item_of_order,
    open_order,
};
use crate::store::Store;

verus! {

/// An order line together with the name of its menu.
#[derive(Debug)]
pub struct OrderItemView {
    pub item: OrderItem,
    pub menu_name: String,
}

/// An open order together with its lines.
#[derive(Debug)]
pub struct OrderView {
    pub order: Order,
    pub items: Vec<OrderItem>,
}

/// The name of the menu with this id; empty where no such menu is registered.
pub open spec fn menu_name_of(menus: Seq<Menu>, id: i64) -> Seq<char> {
    match find_first(menus, menu_with_id(id)) {
        Some(i) => menus[i].name@,
        None => Seq::empty(),
    }
}

/// The lines of the order that is open for a table; none where no order is open.
pub open spec fn table_lines(orders: Seq<Order>, items: Seq<OrderItem>, table_id: i64) -> Seq<
    OrderItem,
> {
    match open_order(orders, table_id) {
        Some(order_id) => items.filter(item_of_order(order_id)),
        None => Seq::empty(),
    }
}

/// The line for a menu in the order that is open for a table.
pub open spec fn table_line(
    orders: Seq<Order>,
    items: Seq<OrderItem>,
    table_id: i64,
    menu_id: i64,
) -> Option<OrderItem> {
    match open_order(orders, table_id) {
        Some(order_id) => match find_first(items, line_of(order_id, menu_id)) {
            Some(i) => Some(items[i]),
            None => None,
        },
        None => None,
    }
}

fn view_of(store: &Store, item: OrderItem) -> (v: OrderItemView)
    ensures
        v.item == item,
        v.menu_name@ == menu_name_of(store.menus(), item.menu_id),
{
    let name = match store.menu_name(item.menu_id) {
        Some(n) => n,
        None => String::new(),
    };
    OrderItemView { item: item, menu_name: name }
}

/// Every open order with its lines, oldest order first.
pub fn list_open_orders(store: &Store) -> (r: Vec<OrderView>)
    ensures
        r@.len() == store.orders().len(),
        forall|k: int|
            0 <= k < r@.len() ==> (#[trigger] r@[k]).order == store.orders()[k] && r@[k].items@
                == store.items().filter(item_of_order(store.orders()[k].id)),
{
    let orders = store.order_rows();
    let mut views: Vec<OrderView> = Vec::new();
    let mut k: usize = 0;
    while k < orders.len()
        invariant
            k <= orders.len(),
            orders@ == store.orders(),
            views@.len() == k,
            forall|j: int|
                0 <= j < k ==> (#[trigger] views@[j]).order == store.orders()[j] && views@[j].items@
                    == store.items().filter(item_of_order(store.orders()[j].id)),
        decreases orders.len() - k,
    {
        let order = orders[k];
        let lines = store.items_of_order(order.id);
        views.push(OrderView { order: order, items: lines });
        k += 1;
    }
    views
}

/// The lines of the order that is open for a table, each with the name of
/// its menu; empty where the table has no open order.
pub fn list_items_for_table(store: &Store, table_id: i64) -> (r: Vec<OrderItemView>)
    ensures
        r@.len() == table_lines(store.orders(), store.items(), table_id).len(),
        forall|k: int|
            0 <= k < r@.len() ==> (#[trigger] r@[k]).item == table_lines(
                store.orders(),
                store.items(),
                table_id,
            )[k] && r@[k].menu_name@ == menu_name_of(store.menus(), r@[k].item.menu_id),
{
    let mut views: Vec<OrderItemView> = Vec::new();
    match store.find_open_order(table_id) {
        None => {},
        Some(order_id) => {
            let lines = store.items_of_order(order_id);
            let mut k: usize = 0;
            while k < lines.len()
                invariant
                    k <= lines.len(),
                    views@.len() == k,
                    forall|j: int|
                        0 <= j < k ==> (#[trigger] views@[j]).item == lines@[j]
                            && views@[j].menu_name@ == menu_name_of(
                            store.menus(),
                            lines@[j].menu_id,
                        ),
                decreases lines.len() - k,
            {
                let v = view_of(store, lines[k]);
                views.push(v);
                k += 1;
            }
        },
    }
    views
}

/// The line for a menu in the order that is open for a table, with the name
/// of the menu; none where the table has no open order or the order no such
/// line.
pub fn get_item_for_table(store: &Store, table_id: i64, menu_id: i64) -> (r: Option<OrderItemView>)
    ensures
        match table_line(store.orders(), store.items(), table_id, menu_id) {
            Some(item) => r matches Some(v) && v.item == item && v.menu_name@ == menu_name_of(
                store.menus(),
                menu_id,
            ),
            None => r is None,
        },
{
    let order_id: i64 = match store.find_open_order(table_id) {
        None => {
            return None;
        },
        Some(o) => o,
    };
    let lines = store.items_of_order(order_id);
    let ghost items = store.items();
    let mut k: usize = 0;
    while k < lines.len()
        invariant
            k <= lines.len(),
            items == store.items(),
            lines@ == items.filter(item_of_order(order_id)),
            open_order(store.orders(), table_id) == Some(order_id),
            forall|j: int| 0 <= j < k ==> (#[trigger] lines@[j]).menu_id != menu_id,
        decreases lines.len() - k,
    {
        if lines[k].menu_id == menu_id {
            proof {
                lemma_first_of_order(items, order_id, menu_id, k as int);
            }
            return Some(view_of(store, lines[k]));
        }
        k += 1;
    }
    proof {
        lemma_none_of_order(items, order_id, menu_id);
    }
    None
}

/// The first line for a menu among the lines of an order is the first such
/// line among all lines.
proof fn lemma_first_of_order(items: Seq<OrderItem>, order_id: i64, menu_id: i64, k: int)
    requires
        0 <= k < items.filter(item_of_order(order_id)).len(),
        items.filter(item_of_order(order_id))[k].menu_id == menu_id,
        forall|j: int|
            0 <= j < k ==> (#[trigger] items.filter(item_of_order(order_id))[j]).menu_id != menu_id,
    ensures
        find_first(items, line_of(order_id, menu_id)) matches Some(i) && items[i] == items.filter(
            item_of_order(order_id),
        )[k],
    decreases items.len(),
{
    reveal(Seq::filter);
    let p = item_of_order(order_id);
    let lines = items.filter(p);
    if items.len() > 0 {
        let shorter = items.drop_last();
        let fewer = shorter.filter(p);
        lemma_find_first(shorter, line_of(order_id, menu_id));
        if k < fewer.len() {
            assert(lines[k] == fewer[k]);
            assert forall|j: int| 0 <= j < k implies (#[trigger] fewer[j]).menu_id != menu_id by {
                assert(lines[j] == fewer[j]);
            }
            lemma_first_of_order(shorter, order_id, menu_id, k);
        } else {
            assert(p(items.last()));
            assert(lines == fewer.push(items.last()));
            assert forall|j: int| 0 <= j < fewer.len() implies (#[trigger] fewer[j]).menu_id
                != menu_id by {
                assert(lines[j] == fewer[j]);
            }
            lemma_none_of_order(shorter, order_id, menu_id);
        }
    }
}

/// Where no line of an order is for a menu, no line at all is a line of that
/// order for that menu.
proof fn lemma_none_of_order(items: Seq<OrderItem>, order_id: i64, menu_id: i64)
    requires
        forall|j: int|
            0 <= j < items.filter(item_of_order(order_id)).len() ==> (#[trigger] items.filter(
                item_of_order(order_id),
            )[j]).menu_id != menu_id,
    ensures
        find_first(items, line_of(order_id, menu_id)) is None,
{
    let p = item_of_order(order_id);
    let lines = items.filter(p);
    lemma_find_first(items, line_of(order_id, menu_id));
    if find_first(items, line_of(order_id, menu_id)) is Some {
        let i = find_first(items, line_of(order_id, menu_id)).unwrap();
        assert(p(items[i]));
        items.lemma_filter_contains(p, i);
        let j = choose|j: int| 0 <= j < lines.len() && lines[j] == items[i];
        assert(lines[j].menu_id != menu_id);
    }
}

} // verus!
