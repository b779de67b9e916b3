//! The records that the store keeps, the error kinds of the library, and the
//! vocabulary in which the contracts speak of sequences of records.

use vstd::prelude::*;

verus! {

/// A table of the restaurant. `code` is its natural key.
#[derive(Debug)]
pub struct Table {
    pub id: i64,
    pub code: String,
}

/// A dish on the menu. `name` is its natural key.
#[derive(Debug)]
pub struct Menu {
    pub id: i64,
    pub name: String,
}

/// The order that is currently open for a table.
#[derive(Clone, Copy, Debug, PartialEq, Eq, Structural)]
pub struct Order {
    pub id: i64,
    pub table_id: i64,
}

/// One menu line of an order, with its aggregate quantity and cooking time.
#[derive(Clone, Copy, Debug, PartialEq, Eq, Structural)]
pub struct OrderItem {
    pub id: i64,
    pub order_id: i64,
    pub menu_id: i64,
    pub cooking_time: i64,
    pub quantity: i64,
}

/// Why an operation was refused.
#[derive(Clone, Copy, Debug, PartialEq, Eq, Structural)]
pub enum Error {
    /// The request itself is malformed (an empty list of items).
    InvalidRequest,
    /// The record that the operation addresses does not exist.
    NotFound,
    /// A reference to a missing record, or a second open order for a table.
    ConstraintViolation,
    /// The store cannot hold the result (an identifier or a quantity is exhausted).
    StorageFailure,
}

/// Index of the first element of `s` that satisfies `p`, if there is one.
pub open spec fn find_first<T>(s: Seq<T>, p: spec_fn(T) -> bool) -> Option<int>
    decreases s.len(),
{
    if s.len() == 0 {
        None
    } else {
        match find_first(s.drop_last(), p) {
            Some(i) => Some(i),
            None => if p(s.last()) {
                Some(s.len() - 1)
            } else {
                None
            },
        }
    }
}

/// `find_first` returns the least index at which `p` holds, and `None` only
/// where `p` holds nowhere.
pub proof fn lemma_find_first<T>(s: Seq<T>, p: spec_fn(T) -> bool)
    ensures
        match find_first(s, p) {
            Some(i) => 0 <= i < s.len() && p(s[i]) && forall|j: int|
                0 <= j < i ==> !p(#[trigger] s[j]),
            None => forall|j: int| 0 <= j < s.len() ==> !p(#[trigger] s[j]),
        },
    decreases s.len(),
{
    if s.len() > 0 {
        let t = s.drop_last();
        lemma_find_first(t, p);
        assert forall|j: int| 0 <= j < t.len() implies t[j] == s[j] by {}
        match find_first(t, p) {
            Some(i) => {
                assert(t[i] == s[i]);
                assert forall|j: int| 0 <= j < i implies !p(#[trigger] s[j]) by {
                    assert(t[j] == s[j]);
                }
            },
            None => {
                assert forall|j: int| 0 <= j < s.len() - 1 implies !p(#[trigger] s[j]) by {
                    assert(t[j] == s[j]);
                }
            },
        }
    }
}

/// The least index at which `p` holds is what `find_first` returns.
pub proof fn lemma_find_first_at<T>(s: Seq<T>, p: spec_fn(T) -> bool, i: int)
    requires
        0 <= i < s.len(),
        p(s[i]),
        forall|j: int| 0 <= j < i ==> !p(#[trigger] s[j]),
    ensures
        find_first(s, p) == Some(i),
{
    lemma_find_first(s, p);
}

/// Where `p` holds nowhere, `find_first` returns `None`.
pub proof fn lemma_find_first_none<T>(s: Seq<T>, p: spec_fn(T) -> bool)
    requires
        forall|j: int| 0 <= j < s.len() ==> !p(#[trigger] s[j]),
    ensures
        find_first(s, p) is None,
{
    lemma_find_first(s, p);
}

/// Where `p` holds somewhere, `find_first` finds an element.
pub proof fn lemma_find_first_some<T>(s: Seq<T>, p: spec_fn(T) -> bool, k: int)
    requires
        0 <= k < s.len(),
        p(s[k]),
    ensures
        find_first(s, p) is Some,
{
    lemma_find_first(s, p);
}

/// Filtering a prefix that is one element longer keeps or drops that element.
pub proof fn lemma_filter_step<T>(s: Seq<T>, p: spec_fn(T) -> bool, i: int)
    requires
        0 <= i < s.len(),
    ensures
        s.take(i + 1).filter(p) == if p(s[i]) {
            s.take(i).filter(p).push(s[i])
        } else {
            s.take(i).filter(p)
        },
{
    reveal(Seq::filter);
    assert(s.take(i + 1).drop_last() =~= s.take(i));
    assert(s.take(i + 1).last() == s[i]);
}

/// A filter that every element passes changes nothing.
pub proof fn lemma_filter_all<T>(s: Seq<T>, p: spec_fn(T) -> bool)
    requires
        forall|i: int| 0 <= i < s.len() ==> p(#[trigger] s[i]),
    ensures
        s.filter(p) == s,
    decreases s.len(),
{
    reveal(Seq::filter);
    if s.len() > 0 {
        let t = s.drop_last();
        assert forall|i: int| 0 <= i < t.len() implies p(#[trigger] t[i]) by {
            assert(t[i] == s[i]);
        }
        lemma_filter_all(t, p);
        assert(t.push(s.last()) =~= s);
    }
}

/// Selects the table with the given id.
pub open spec fn table_with_id(id: i64) -> spec_fn(Table) -> bool {
    |t: Table| t.id == id
}

/// Selects the table with the given code.
pub open spec fn table_with_code(code: Seq<char>) -> spec_fn(Table) -> bool {
    |t: Table| t.code@ == code
}

/// Selects the menu with the given id.
pub open spec fn menu_with_id(id: i64) -> spec_fn(Menu) -> bool {
    |m: Menu| m.id == id
}

/// Selects the menu with the given name.
pub open spec fn menu_with_name(name: Seq<char>) -> spec_fn(Menu) -> bool {
    |m: Menu| m.name@ == name
}

/// Selects the order with the given id.
pub open spec fn order_with_id(id: i64) -> spec_fn(Order) -> bool {
    |o: Order| o.id == id
}

/// Selects the orders of a table.
pub open spec fn order_of_table(table_id: i64) -> spec_fn(Order) -> bool {
    |o: Order| o.table_id == table_id
}

/// Selects the item with the given id.
pub open spec fn item_with_id(id: i64) -> spec_fn(OrderItem) -> bool {
    |it: OrderItem| it.id == id
}

/// Selects the lines of an order for one menu.
pub open spec fn line_of(order_id: i64, menu_id: i64) -> spec_fn(OrderItem) -> bool {
    |it: OrderItem| it.order_id == order_id && it.menu_id == menu_id
}

/// Selects every line but those of an order for one menu.
pub open spec fn not_line_of(order_id: i64, menu_id: i64) -> spec_fn(OrderItem) -> bool {
    |it: OrderItem| !(it.order_id == order_id && it.menu_id == menu_id)
}

/// Selects the lines of an order.
pub open spec fn item_of_order(order_id: i64) -> spec_fn(OrderItem) -> bool {
    |it: OrderItem| it.order_id == order_id
}

/// Selects the lines of every other order.
pub open spec fn not_item_of_order(order_id: i64) -> spec_fn(OrderItem) -> bool {
    |it: OrderItem| it.order_id != order_id
}

/// Whether a table with this id is registered.
pub open spec fn has_table(tables: Seq<Table>, id: i64) -> bool {
    find_first(tables, table_with_id(id)) is Some
}

/// Whether a menu with this id is registered.
pub open spec fn has_menu(menus: Seq<Menu>, id: i64) -> bool {
    find_first(menus, menu_with_id(id)) is Some
}

/// Whether an order with this id exists.
pub open spec fn has_order(orders: Seq<Order>, id: i64) -> bool {
    find_first(orders, order_with_id(id)) is Some
}

/// The id of the order that is open for a table, if there is one.
pub open spec fn open_order(orders: Seq<Order>, table_id: i64) -> Option<i64> {
    match find_first(orders, order_of_table(table_id)) {
        Some(i) => Some(orders[i].id),
        None => None,
    }
}

/// Whether an order has a line for a menu.
pub open spec fn has_line(items: Seq<OrderItem>, order_id: i64, menu_id: i64) -> bool {
    find_first(items, line_of(order_id, menu_id)) is Some
}

/// Whether an order has any line at all.
pub open spec fn has_items(items: Seq<OrderItem>, order_id: i64) -> bool {
    find_first(items, item_of_order(order_id)) is Some
}

/// The line after one more unit was requested.
pub open spec fn incremented(it: OrderItem) -> OrderItem {
    OrderItem { quantity: (it.quantity + 1) as i64, ..it }
}

/// The line after one unit was taken away: the quantity drops by one and the
/// cooking time by the share of one unit, taken before the quantity drops.
pub open spec fn decremented(it: OrderItem) -> OrderItem {
    OrderItem {
        quantity: (it.quantity - 1) as i64,
        cooking_time: (it.cooking_time - it.cooking_time / it.quantity) as i64,
        ..it
    }
}

/// At most one line for each pair of an order and a menu.
pub open spec fn lines_unique(items: Seq<OrderItem>) -> bool {
    forall|i: int, j: int|
        0 <= i < j < items.len() ==> !((#[trigger] items[i]).order_id == (
        #[trigger] items[j]).order_id && items[i].menu_id == items[j].menu_id)
}

/// At most one order for each table.
pub open spec fn one_order_per_table(orders: Seq<Order>) -> bool {
    forall|i: int, j: int|
        0 <= i < j < orders.len() ==> (#[trigger] orders[i]).table_id != (
        #[trigger] orders[j]).table_id
}

} // verus!
