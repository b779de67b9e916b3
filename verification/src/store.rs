//! The store: the four relations of the restaurant, held in memory, with the
//! repository operations over orders and their lines.

use vstd::prelude::*;
use crate::rows::{
    Table, Menu, Order, OrderItem, Error, find_first, lemma_find_first, lemma_find_first_at,
    lemma_find_first_none, lemma_find_first_some, lemma_filter_step, table_with_id,
    table_with_code, menu_with_id, menu_with_name, order_with_id, order_of_table, item_with_id,
    line_of, not_line_of, item_of_order, not_item_of_order, has_table, has_menu, has_order,
    open_order, has_line, has_items, incremented, decremented, one_order_per_table,
    lines_unique,
};

verus! {

/// The tables, menus, open orders and order lines of one restaurant.
pub struct Store {
    tables: Vec<Table>,
    menus: Vec<Menu>,
    orders: Vec<Order>,
    items: Vec<OrderItem>,
    next_table_id: i64,
    next_menu_id: i64,
    next_order_id: i64,
    next_item_id: i64,
}

impl Store {
    /// The registered tables, in the order of their registration.
    pub closed spec fn tables(&self) -> Seq<Table> {
        self.tables@
    }

    /// The registered menus, in the order of their registration.
    pub closed spec fn menus(&self) -> Seq<Menu> {
        self.menus@
    }

    /// The open orders, oldest first.
    pub closed spec fn orders(&self) -> Seq<Order> {
        self.orders@
    }

    /// The lines of all open orders, oldest first.
    pub closed spec fn items(&self) -> Seq<OrderItem> {
        self.items@
    }

    /// The id that the next registered table gets.
    pub closed spec fn next_table_id(&self) -> i64 {
        self.next_table_id
    }

    /// The id that the next registered menu gets.
    pub closed spec fn next_menu_id(&self) -> i64 {
        self.next_menu_id
    }

    /// The id that the next order gets.
    pub closed spec fn next_order_id(&self) -> i64 {
        self.next_order_id
    }

    /// The id that the next order line gets.
    pub closed spec fn next_item_id(&self) -> i64 {
        self.next_item_id
    }

    /// The catalog is consistent: ids are below the next id and so distinct,
    /// and no code or name occurs twice.
    pub open spec fn catalog_wf(&self) -> bool {
        let t = self.tables();
        let m = self.menus();
        &&& forall|i: int| 0 <= i < t.len() ==> (#[trigger] t[i]).id < self.next_table_id()
        &&& forall|i: int, j: int|
            0 <= i < j < t.len() ==> (#[trigger] t[i]).id != (#[trigger] t[j]).id
        &&& forall|i: int, j: int|
            0 <= i < j < t.len() ==> (#[trigger] t[i]).code@ != (#[trigger] t[j]).code@
        &&& forall|i: int| 0 <= i < m.len() ==> (#[trigger] m[i]).id < self.next_menu_id()
        &&& forall|i: int, j: int|
            0 <= i < j < m.len() ==> (#[trigger] m[i]).id != (#[trigger] m[j]).id
        &&& forall|i: int, j: int|
            0 <= i < j < m.len() ==> (#[trigger] m[i]).name@ != (#[trigger] m[j]).name@
    }

    /// The orders are consistent: distinct ids, a registered table each, and
    /// at most one order for a table.
    pub open spec fn orders_wf(&self) -> bool {
        let o = self.orders();
        &&& forall|i: int| 0 <= i < o.len() ==> (#[trigger] o[i]).id < self.next_order_id()
        &&& forall|i: int, j: int|
            0 <= i < j < o.len() ==> (#[trigger] o[i]).id != (#[trigger] o[j]).id
        &&& one_order_per_table(o)
        &&& forall|i: int| 0 <= i < o.len() ==> has_table(self.tables(), (#[trigger] o[i]).table_id)
    }

    /// The lines are consistent: distinct ids, an existing order and a
    /// registered menu each, a positive quantity and cooking time, and at most
    /// one line for each pair of an order and a menu.
    pub open spec fn items_wf(&self) -> bool {
        let it = self.items();
        &&& lines_unique(it)
        &&& forall|i: int| 0 <= i < it.len() ==> (#[trigger] it[i]).id < self.next_item_id()
        &&& forall|i: int, j: int|
            0 <= i < j < it.len() ==> (#[trigger] it[i]).id != (#[trigger] it[j]).id
        &&& forall|i: int|
            0 <= i < it.len() ==> has_order(self.orders(), (#[trigger] it[i]).order_id)
        &&& forall|i: int| 0 <= i < it.len() ==> has_menu(self.menus(), (#[trigger] it[i]).menu_id)
        &&& forall|i: int| 0 <= i < it.len() ==> (#[trigger] it[i]).quantity >= 1
        &&& forall|i: int| 0 <= i < it.len() ==> (#[trigger] it[i]).cooking_time >= 1
    }

    /// The store is well formed. Every store that this library hands out is.
    pub open spec fn wf(&self) -> bool {
        &&& self.catalog_wf()
        &&& self.orders_wf()
        &&& self.items_wf()
    }

    /// Whether two stores hold the same catalog.
    pub open spec fn same_catalog(&self, other: &Store) -> bool {
        &&& self.tables() == other.tables()
        &&& self.menus() == other.menus()
        &&& self.next_table_id() == other.next_table_id()
        &&& self.next_menu_id() == other.next_menu_id()
    }

    /// Whether two stores hold the same orders.
    pub open spec fn same_orders(&self, other: &Store) -> bool {
        &&& self.orders() == other.orders()
        &&& self.next_order_id() == other.next_order_id()
    }

    /// Whether two stores hold the same order lines.
    pub open spec fn same_items(&self, other: &Store) -> bool {
        &&& self.items() == other.items()
        &&& self.next_item_id() == other.next_item_id()
    }

    /// Whether two stores hold the same records throughout.
    pub open spec fn same_as(&self, other: &Store) -> bool {
        &&& self.same_catalog(other)
        &&& self.same_orders(other)
        &&& self.same_items(other)
    }

    /// An empty store. Ids start at 1.
    pub fn new() -> (s: Store)
        ensures
            s.wf(),
            s.tables().len() == 0,
            s.menus().len() == 0,
            s.orders().len() == 0,
            s.items().len() == 0,
            s.next_table_id() == 1,
            s.next_menu_id() == 1,
            s.next_order_id() == 1,
            s.next_item_id() == 1,
    {
        Store {
            tables: Vec::new(),
            menus: Vec::new(),
            orders: Vec::new(),
            items: Vec::new(),
            next_table_id: 1,
            next_menu_id: 1,
            next_order_id: 1,
            next_item_id: 1,
        }
    }

    /// The registered tables.
    pub fn table_rows(&self) -> (r: &Vec<Table>)
        ensures
            r@ == self.tables(),
    {
        &self.tables
    }

    /// The registered menus.
    pub fn menu_rows(&self) -> (r: &Vec<Menu>)
        ensures
            r@ == self.menus(),
    {
        &self.menus
    }

    /// The open orders.
    pub fn order_rows(&self) -> (r: &Vec<Order>)
        ensures
            r@ == self.orders(),
    {
        &self.orders
    }

    /// The lines of all open orders.
    pub fn item_rows(&self) -> (r: &Vec<OrderItem>)
        ensures
            r@ == self.items(),
    {
        &self.items
    }

    fn table_index_by_id(&self, id: i64) -> (r: Option<usize>)
        ensures
            r matches Some(i) ==> i < self.tables().len() && find_first(
                self.tables(),
                table_with_id(id),
            ) == Some(i as int),
            r is None ==> find_first(self.tables(), table_with_id(id)) is None,
    {
        let mut i: usize = 0;
        while i < self.tables.len()
            invariant
                i <= self.tables.len(),
                forall|j: int| 0 <= j < i ==> !table_with_id(id)(#[trigger] self.tables@[j]),
            decreases self.tables.len() - i,
        {
            if self.tables[i].id == id {
                proof {
                    lemma_find_first_at(self.tables@, table_with_id(id), i as int);
                }
                return Some(i);
            }
            i += 1;
        }
        proof {
            lemma_find_first_none(self.tables@, table_with_id(id));
        }
        None
    }

    fn table_index_by_code(&self, code: &String) -> (r: Option<usize>)
        ensures
            r matches Some(i) ==> i < self.tables().len() && find_first(
                self.tables(),
                table_with_code(code@),
            ) == Some(i as int),
            r is None ==> find_first(self.tables(), table_with_code(code@)) is None,
    {
        let mut i: usize = 0;
        while i < self.tables.len()
            invariant
                i <= self.tables.len(),
                forall|j: int| 0 <= j < i ==> !table_with_code(code@)(#[trigger] self.tables@[j]),
            decreases self.tables.len() - i,
        {
            if self.tables[i].code == *code {
                proof {
                    lemma_find_first_at(self.tables@, table_with_code(code@), i as int);
                }
                return Some(i);
            }
            i += 1;
        }
        proof {
            lemma_find_first_none(self.tables@, table_with_code(code@));
        }
        None
    }

    /// Whether a table with this id is registered.
    pub fn table_exists(&self, id: i64) -> (r: bool)
        ensures
            r == has_table(self.tables(), id),
    {
        self.table_index_by_id(id).is_some()
    }

    /// Takes in a table under an id of the caller's choice. Refused where the
    /// id is below the next id of the store or the code is registered already,
    /// and where the id leaves no next id.
    pub fn load_table(&mut self, id: i64, code: String) -> (r: Result<(), Error>)
        requires
            old(self).wf(),
        ensures
            final(self).wf(),
            final(self).same_orders(old(self)),
            final(self).same_items(old(self)),
            final(self).menus() == old(self).menus(),
            final(self).next_menu_id() == old(self).next_menu_id(),
            if id < old(self).next_table_id() || find_first(
                old(self).tables(),
                table_with_code(code@),
            ) is Some {
                r == Err::<(), Error>(Error::ConstraintViolation) && final(self).same_catalog(
                    old(self),
                )
            } else if id == i64::MAX {
                r == Err::<(), Error>(Error::StorageFailure) && final(self).same_catalog(old(self))
            } else {
                &&& r == Ok::<(), Error>(())
                &&& final(self).next_table_id() == id + 1
                &&& final(self).tables().len() == old(self).tables().len() + 1
                &&& final(self).tables().drop_last() == old(self).tables()
                &&& final(self).tables().last().id == id
                &&& final(self).tables().last().code@ == code@
            },
    {
        if id < self.next_table_id || self.table_index_by_code(&code).is_some() {
            return Err(Error::ConstraintViolation);
        }
        if id == i64::MAX {
            return Err(Error::StorageFailure);
        }
        proof {
            lemma_find_first(self.tables@, table_with_code(code@));
        }
        self.tables.push(Table { id: id, code: code });
        self.next_table_id = id + 1;
        proof {
            let before = old(self).tables();
            let after = self.tables();
            assert(after.drop_last() =~= before);
            assert forall|i: int| 0 <= i < before.len() implies after[i] == before[i] by {}
            assert forall|i: int| 0 <= i < before.len() implies (#[trigger] after[i]).code@
                != code@ by {
                assert(!table_with_code(code@)(before[i]));
            }
            assert forall|i: int| 0 <= i < before.len() implies (#[trigger] after[i]).id < id by {
                assert(before[i].id < old(self).next_table_id());
            }
            assert(after[before.len() as int].code@ == code@);
            assert(old(self).items_wf());
            assert(self.items() == old(self).items());
            assert(self.next_item_id() == old(self).next_item_id());
            assert(self.orders() == old(self).orders());
            assert(self.menus() == old(self).menus());
            assert(self.items_wf());
            assert forall|k: int| 0 <= k < self.orders().len() implies has_table(
                self.tables(),
                (#[trigger] self.orders()[k]).table_id,
            ) by {
                lemma_has_table_push(before, after, self.orders()[k].table_id);
            }
        }
        Ok(())
    }

    /// Registers a table under `code` and returns its id. A code that is
    /// registered already keeps its id, and nothing changes.
    pub fn register_table(&mut self, code: String) -> (r: Result<i64, Error>)
        requires
            old(self).wf(),
        ensures
            final(self).wf(),
            final(self).same_orders(old(self)),
            final(self).same_items(old(self)),
            final(self).menus() == old(self).menus(),
            final(self).next_menu_id() == old(self).next_menu_id(),
            match find_first(old(self).tables(), table_with_code(code@)) {
                Some(i) => r == Ok::<i64, Error>(old(self).tables()[i].id)
                    && final(self).same_catalog(old(self)),
                None => if old(self).next_table_id() == i64::MAX {
                    r == Err::<i64, Error>(Error::StorageFailure)
                        && final(self).same_catalog(old(self))
                } else {
                    &&& r == Ok::<i64, Error>(old(self).next_table_id())
                    &&& final(self).next_table_id() == old(self).next_table_id() + 1
                    &&& final(self).tables().len() == old(self).tables().len() + 1
                    &&& final(self).tables().drop_last() == old(self).tables()
                    &&& final(self).tables().last().id == old(self).next_table_id()
                    &&& final(self).tables().last().code@ == code@
                },
            },
    {
        match self.table_index_by_code(&code) {
            Some(i) => Ok(self.tables[i].id),
            None => {
                let id: i64 = self.next_table_id;
                match self.load_table(id, code) {
                    Ok(_) => Ok(id),
                    Err(e) => Err(e),
                }
            },
        }
    }

    fn menu_index_by_id(&self, id: i64) -> (r: Option<usize>)
        ensures
            r matches Some(i) ==> i < self.menus().len() && find_first(
                self.menus(),
                menu_with_id(id),
            ) == Some(i as int),
            r is None ==> find_first(self.menus(), menu_with_id(id)) is None,
    {
        let mut i: usize = 0;
        while i < self.menus.len()
            invariant
                i <= self.menus.len(),
                forall|j: int| 0 <= j < i ==> !menu_with_id(id)(#[trigger] self.menus@[j]),
            decreases self.menus.len() - i,
        {
            if self.menus[i].id == id {
                proof {
                    lemma_find_first_at(self.menus@, menu_with_id(id), i as int);
                }
                return Some(i);
            }
            i += 1;
        }
        proof {
            lemma_find_first_none(self.menus@, menu_with_id(id));
        }
        None
    }

    fn menu_index_by_name(&self, name: &String) -> (r: Option<usize>)
        ensures
            r matches Some(i) ==> i < self.menus().len() && find_first(
                self.menus(),
                menu_with_name(name@),
            ) == Some(i as int),
            r is None ==> find_first(self.menus(), menu_with_name(name@)) is None,
    {
        let mut i: usize = 0;
        while i < self.menus.len()
            invariant
                i <= self.menus.len(),
                forall|j: int| 0 <= j < i ==> !menu_with_name(name@)(#[trigger] self.menus@[j]),
            decreases self.menus.len() - i,
        {
            if self.menus[i].name == *name {
                proof {
                    lemma_find_first_at(self.menus@, menu_with_name(name@), i as int);
                }
                return Some(i);
            }
            i += 1;
        }
        proof {
            lemma_find_first_none(self.menus@, menu_with_name(name@));
        }
        None
    }

    /// Whether a menu with this id is registered.
    pub fn menu_exists(&self, id: i64) -> (r: bool)
        ensures
            r == has_menu(self.menus(), id),
    {
        self.menu_index_by_id(id).is_some()
    }

    /// Takes in a menu under an id of the caller's choice. Refused where the
    /// id is below the next id of the store or the name is registered already,
    /// and where the id leaves no next id.
    pub fn load_menu(&mut self, id: i64, name: String) -> (r: Result<(), Error>)
        requires
            old(self).wf(),
        ensures
            final(self).wf(),
            final(self).same_orders(old(self)),
            final(self).same_items(old(self)),
            final(self).tables() == old(self).tables(),
            final(self).next_table_id() == old(self).next_table_id(),
            if id < old(self).next_menu_id() || find_first(
                old(self).menus(),
                menu_with_name(name@),
            ) is Some {
                r == Err::<(), Error>(Error::ConstraintViolation) && final(self).same_catalog(
                    old(self),
                )
            } else if id == i64::MAX {
                r == Err::<(), Error>(Error::StorageFailure) && final(self).same_catalog(old(self))
            } else {
                &&& r == Ok::<(), Error>(())
                &&& final(self).next_menu_id() == id + 1
                &&& final(self).menus().len() == old(self).menus().len() + 1
                &&& final(self).menus().drop_last() == old(self).menus()
                &&& final(self).menus().last().id == id
                &&& final(self).menus().last().name@ == name@
            },
    {
        if id < self.next_menu_id || self.menu_index_by_name(&name).is_some() {
            return Err(Error::ConstraintViolation);
        }
        if id == i64::MAX {
            return Err(Error::StorageFailure);
        }
        proof {
            lemma_find_first(self.menus@, menu_with_name(name@));
        }
        self.menus.push(Menu { id: id, name: name });
        self.next_menu_id = id + 1;
        proof {
            let before = old(self).menus();
            let after = self.menus();
            assert(after.drop_last() =~= before);
            assert forall|i: int| 0 <= i < before.len() implies after[i] == before[i] by {}
            assert forall|i: int| 0 <= i < before.len() implies (#[trigger] after[i]).name@
                != name@ by {
                assert(!menu_with_name(name@)(before[i]));
            }
            assert forall|i: int| 0 <= i < before.len() implies (#[trigger] after[i]).id < id by {
                assert(before[i].id < old(self).next_menu_id());
            }
            assert(after[before.len() as int].name@ == name@);
            assert(self.items() == old(self).items());
            assert(self.next_item_id() == old(self).next_item_id());
            assert(self.orders() == old(self).orders());
            assert(self.tables() == old(self).tables());
            assert(old(self).items_wf());
            assert forall|k: int| 0 <= k < self.items().len() implies has_menu(
                after,
                (#[trigger] self.items()[k]).menu_id,
            ) by {
                assert(has_menu(before, old(self).items()[k].menu_id));
            }
        }
        Ok(())
    }

    /// Registers a menu under `name` and returns its id. A name that is
    /// registered already keeps its id, and nothing changes.
    pub fn register_menu(&mut self, name: String) -> (r: Result<i64, Error>)
        requires
            old(self).wf(),
        ensures
            final(self).wf(),
            final(self).same_orders(old(self)),
            final(self).same_items(old(self)),
            final(self).tables() == old(self).tables(),
            final(self).next_table_id() == old(self).next_table_id(),
            match find_first(old(self).menus(), menu_with_name(name@)) {
                Some(i) => r == Ok::<i64, Error>(old(self).menus()[i].id)
                    && final(self).same_catalog(old(self)),
                None => if old(self).next_menu_id() == i64::MAX {
                    r == Err::<i64, Error>(Error::StorageFailure)
                        && final(self).same_catalog(old(self))
                } else {
                    &&& r == Ok::<i64, Error>(old(self).next_menu_id())
                    &&& final(self).next_menu_id() == old(self).next_menu_id() + 1
                    &&& final(self).menus().len() == old(self).menus().len() + 1
                    &&& final(self).menus().drop_last() == old(self).menus()
                    &&& final(self).menus().last().id == old(self).next_menu_id()
                    &&& final(self).menus().last().name@ == name@
                },
            },
    {
        match self.menu_index_by_name(&name) {
            Some(i) => Ok(self.menus[i].id),
            None => {
                let id: i64 = self.next_menu_id;
                match self.load_menu(id, name) {
                    Ok(_) => Ok(id),
                    Err(e) => Err(e),
                }
            },
        }
    }

    fn order_index_by_table(&self, table_id: i64) -> (r: Option<usize>)
        ensures
            r matches Some(i) ==> i < self.orders().len() && find_first(
                self.orders(),
                order_of_table(table_id),
            ) == Some(i as int),
            r is None ==> find_first(self.orders(), order_of_table(table_id)) is None,
    {
        let mut i: usize = 0;
        while i < self.orders.len()
            invariant
                i <= self.orders.len(),
                forall|j: int| 0 <= j < i ==> !order_of_table(table_id)(#[trigger] self.orders@[j]),
            decreases self.orders.len() - i,
        {
            if self.orders[i].table_id == table_id {
                proof {
                    lemma_find_first_at(self.orders@, order_of_table(table_id), i as int);
                }
                return Some(i);
            }
            i += 1;
        }
        proof {
            lemma_find_first_none(self.orders@, order_of_table(table_id));
        }
        None
    }

    fn order_index_by_id(&self, id: i64) -> (r: Option<usize>)
        ensures
            r matches Some(i) ==> i < self.orders().len() && find_first(
                self.orders(),
                order_with_id(id),
            ) == Some(i as int),
            r is None ==> find_first(self.orders(), order_with_id(id)) is None,
    {
        let mut i: usize = 0;
        while i < self.orders.len()
            invariant
                i <= self.orders.len(),
                forall|j: int| 0 <= j < i ==> !order_with_id(id)(#[trigger] self.orders@[j]),
            decreases self.orders.len() - i,
        {
            if self.orders[i].id == id {
                proof {
                    lemma_find_first_at(self.orders@, order_with_id(id), i as int);
                }
                return Some(i);
            }
            i += 1;
        }
        proof {
            lemma_find_first_none(self.orders@, order_with_id(id));
        }
        None
    }

    fn item_index_by_id(&self, id: i64) -> (r: Option<usize>)
        ensures
            r matches Some(i) ==> i < self.items().len() && find_first(
                self.items(),
                item_with_id(id),
            ) == Some(i as int),
            r is None ==> find_first(self.items(), item_with_id(id)) is None,
    {
        let mut i: usize = 0;
        while i < self.items.len()
            invariant
                i <= self.items.len(),
                forall|j: int| 0 <= j < i ==> !item_with_id(id)(#[trigger] self.items@[j]),
            decreases self.items.len() - i,
        {
            if self.items[i].id == id {
                proof {
                    lemma_find_first_at(self.items@, item_with_id(id), i as int);
                }
                return Some(i);
            }
            i += 1;
        }
        proof {
            lemma_find_first_none(self.items@, item_with_id(id));
        }
        None
    }

    fn line_index(&self, order_id: i64, menu_id: i64) -> (r: Option<usize>)
        ensures
            r matches Some(i) ==> i < self.items().len() && find_first(
                self.items(),
                line_of(order_id, menu_id),
            ) == Some(i as int),
            r is None ==> find_first(self.items(), line_of(order_id, menu_id)) is None,
    {
        let mut i: usize = 0;
        while i < self.items.len()
            invariant
                i <= self.items.len(),
                forall|j: int|
                    0 <= j < i ==> !line_of(order_id, menu_id)(#[trigger] self.items@[j]),
            decreases self.items.len() - i,
        {
            if self.items[i].order_id == order_id && self.items[i].menu_id == menu_id {
                proof {
                    lemma_find_first_at(self.items@, line_of(order_id, menu_id), i as int);
                }
                return Some(i);
            }
            i += 1;
        }
        proof {
            lemma_find_first_none(self.items@, line_of(order_id, menu_id));
        }
        None
    }

    /// The order that is open for a table, if there is one.
    pub fn find_open_order(&self, table_id: i64) -> (r: Option<i64>)
        ensures
            r == open_order(self.orders(), table_id),
    {
        match self.order_index_by_table(table_id) {
            Some(i) => Some(self.orders[i].id),
            None => None,
        }
    }

    /// Takes in an order under an id of the caller's choice. Refused where the
    /// id is below the next id of the store, the table is not registered or
    /// has an open order already, and where the id leaves no next id.
    pub fn load_order(&mut self, order: Order) -> (r: Result<(), Error>)
        requires
            old(self).wf(),
        ensures
            final(self).wf(),
            final(self).same_catalog(old(self)),
            final(self).same_items(old(self)),
            if order.id < old(self).next_order_id() || !has_table(
                old(self).tables(),
                order.table_id,
            ) || open_order(old(self).orders(), order.table_id) is Some {
                r == Err::<(), Error>(Error::ConstraintViolation) && final(self).same_orders(
                    old(self),
                )
            } else if order.id == i64::MAX {
                r == Err::<(), Error>(Error::StorageFailure) && final(self).same_orders(old(self))
            } else {
                &&& r == Ok::<(), Error>(())
                &&& final(self).next_order_id() == order.id + 1
                &&& final(self).orders() == old(self).orders().push(order)
            },
    {
        if order.id < self.next_order_id {
            return Err(Error::ConstraintViolation);
        }
        if self.table_index_by_id(order.table_id).is_none() {
            return Err(Error::ConstraintViolation);
        }
        if self.order_index_by_table(order.table_id).is_some() {
            return Err(Error::ConstraintViolation);
        }
        if order.id == i64::MAX {
            return Err(Error::StorageFailure);
        }
        proof {
            lemma_find_first(self.orders@, order_of_table(order.table_id));
        }
        self.orders.push(order);
        self.next_order_id = order.id + 1;
        proof {
            let before = old(self).orders();
            let after = self.orders();
            assert(after.drop_last() =~= before);
            assert forall|i: int| 0 <= i < before.len() implies after[i] == before[i] by {}
            assert forall|i: int| 0 <= i < before.len() implies (#[trigger] after[i]).table_id
                != order.table_id by {
                assert(!order_of_table(order.table_id)(before[i]));
            }
            assert forall|i: int| 0 <= i < before.len() implies (#[trigger] after[i]).id
                < order.id by {
                assert(before[i].id < old(self).next_order_id());
            }
            assert(self.tables() == old(self).tables());
            assert(self.menus() == old(self).menus());
            assert(self.items() == old(self).items());
            assert(self.next_item_id() == old(self).next_item_id());
            assert(old(self).items_wf());
            assert(old(self).orders_wf());
            assert forall|k: int| 0 <= k < self.items().len() implies has_order(
                after,
                (#[trigger] self.items()[k]).order_id,
            ) by {
                assert(has_order(before, old(self).items()[k].order_id));
            }
            assert forall|i: int| 0 <= i < after.len() implies has_table(
                self.tables(),
                (#[trigger] after[i]).table_id,
            ) by {
                if i < before.len() {
                    assert(has_table(old(self).tables(), before[i].table_id));
                }
            }
            assert(self.orders_wf());
            assert(self.items_wf());
        }
        Ok(())
    }

    /// Opens an order for a table. Refused where the table is not registered
    /// or has an open order already, and where the order ids are exhausted.
    pub fn create_order(&mut self, table_id: i64) -> (r: Result<i64, Error>)
        requires
            old(self).wf(),
        ensures
            final(self).wf(),
            final(self).same_catalog(old(self)),
            final(self).same_items(old(self)),
            if !has_table(old(self).tables(), table_id) || open_order(
                old(self).orders(),
                table_id,
            ) is Some {
                r == Err::<i64, Error>(Error::ConstraintViolation) && final(self).same_orders(
                    old(self),
                )
            } else if old(self).next_order_id() == i64::MAX {
                r == Err::<i64, Error>(Error::StorageFailure) && final(self).same_orders(old(self))
            } else {
                &&& r == Ok::<i64, Error>(old(self).next_order_id())
                &&& final(self).next_order_id() == old(self).next_order_id() + 1
                &&& final(self).orders() == old(self).orders().push(
                    (Order { id: old(self).next_order_id(), table_id: table_id }),
                )
            },
    {
        let id: i64 = self.next_order_id;
        match self.load_order(Order { id: id, table_id: table_id }) {
            Ok(_) => Ok(id),
            Err(e) => Err(e),
        }
    }

    /// The line of an order for a menu, if there is one.
    pub fn find_item(&self, order_id: i64, menu_id: i64) -> (r: Option<i64>)
        ensures
            r == match find_first(self.items(), line_of(order_id, menu_id)) {
                Some(i) => Some(self.items()[i].id),
                None => None,
            },
    {
        match self.line_index(order_id, menu_id) {
            Some(i) => Some(self.items[i].id),
            None => None,
        }
    }

    /// Whether the store takes a line in: its id is not below the next id, its
    /// order exists and has no line for the menu yet, its menu is registered,
    /// and its quantity and cooking time are positive.
    pub open spec fn admits(&self, item: OrderItem) -> bool {
        &&& item.id >= self.next_item_id()
        &&& !has_line(self.items(), item.order_id, item.menu_id)
        &&& has_order(self.orders(), item.order_id)
        &&& has_menu(self.menus(), item.menu_id)
        &&& item.quantity >= 1
        &&& item.cooking_time >= 1
    }

    /// Takes in a line under an id of the caller's choice. Refused where the
    /// store does not admit it, and where the id leaves no next id.
    pub fn load_item(&mut self, item: OrderItem) -> (r: Result<(), Error>)
        requires
            old(self).wf(),
        ensures
            final(self).wf(),
            final(self).same_catalog(old(self)),
            final(self).same_orders(old(self)),
            if !old(self).admits(item) {
                r == Err::<(), Error>(Error::ConstraintViolation) && final(self).same_items(
                    old(self),
                )
            } else if item.id == i64::MAX {
                r == Err::<(), Error>(Error::StorageFailure) && final(self).same_items(old(self))
            } else {
                &&& r == Ok::<(), Error>(())
                &&& final(self).next_item_id() == item.id + 1
                &&& final(self).items() == old(self).items().push(item)
            },
    {
        if item.id < self.next_item_id || item.quantity < 1 || item.cooking_time < 1 {
            return Err(Error::ConstraintViolation);
        }
        if self.order_index_by_id(item.order_id).is_none() {
            return Err(Error::ConstraintViolation);
        }
        if self.menu_index_by_id(item.menu_id).is_none() {
            return Err(Error::ConstraintViolation);
        }
        if self.line_index(item.order_id, item.menu_id).is_some() {
            return Err(Error::ConstraintViolation);
        }
        if item.id == i64::MAX {
            return Err(Error::StorageFailure);
        }
        proof {
            lemma_find_first(self.items(), line_of(item.order_id, item.menu_id));
        }
        self.items.push(item);
        self.next_item_id = item.id + 1;
        proof {
            let before = old(self).items();
            let after = self.items();
            assert(after == before.push(item));
            assert(after.drop_last() =~= before);
            assert forall|i: int| 0 <= i < before.len() implies after[i] == before[i] by {}
            assert(self.tables() == old(self).tables());
            assert(self.menus() == old(self).menus());
            assert(self.orders() == old(self).orders());
            assert(self.next_order_id() == old(self).next_order_id());
            assert(old(self).items_wf());
            assert(old(self).orders_wf());
            assert(has_order(self.orders(), item.order_id));
            assert(has_menu(self.menus(), item.menu_id));
            assert forall|i: int, j: int| 0 <= i < j < after.len() implies !((
            #[trigger] after[i]).order_id == (#[trigger] after[j]).order_id && after[i].menu_id
                == after[j].menu_id) by {
                if j < before.len() {
                    assert(!(before[i].order_id == before[j].order_id && before[i].menu_id
                        == before[j].menu_id));
                } else {
                    assert(!line_of(item.order_id, item.menu_id)(before[i]));
                }
            }
            assert forall|i: int| 0 <= i < after.len() implies has_order(
                self.orders(),
                (#[trigger] after[i]).order_id,
            ) by {
                if i < before.len() {
                    assert(has_order(old(self).orders(), before[i].order_id));
                }
            }
            assert forall|i: int| 0 <= i < after.len() implies has_menu(
                self.menus(),
                (#[trigger] after[i]).menu_id,
            ) by {
                if i < before.len() {
                    assert(has_menu(old(self).menus(), before[i].menu_id));
                }
            }
            assert forall|i: int| 0 <= i < after.len() implies (#[trigger] after[i]).id
                < self.next_item_id() by {
                if i < before.len() {
                    assert(before[i].id < old(self).next_item_id());
                }
            }
            assert forall|i: int, j: int| 0 <= i < j < after.len() implies (#[trigger] after[i]).id
                != (#[trigger] after[j]).id by {
                assert(before[i].id < old(self).next_item_id());
                if j < before.len() {
                    assert(before[i].id != before[j].id);
                }
            }
            assert forall|i: int| 0 <= i < after.len() implies (#[trigger] after[i]).quantity
                >= 1 by {
                if i < before.len() {
                    assert(before[i].quantity >= 1);
                }
            }
            assert forall|i: int| 0 <= i < after.len() implies (#[trigger] after[i]).cooking_time
                >= 1 by {
                if i < before.len() {
                    assert(before[i].cooking_time >= 1);
                }
            }
            assert(self.items_wf());
        }
        Ok(())
    }

    /// Adds a line with quantity 1 to an order. Refused where the order does
    /// not exist or has a line for the menu already, the menu is not
    /// registered or the cooking time is not positive, and where the item ids
    /// are exhausted.
    pub fn create_item(&mut self, order_id: i64, menu_id: i64, cooking_time: i64) -> (r: Result<
        i64,
        Error,
    >)
        requires
            old(self).wf(),
        ensures
            final(self).wf(),
            final(self).same_catalog(old(self)),
            final(self).same_orders(old(self)),
            if !has_order(old(self).orders(), order_id) || !has_menu(old(self).menus(), menu_id)
                || cooking_time < 1 || has_line(old(self).items(), order_id, menu_id) {
                r == Err::<i64, Error>(Error::ConstraintViolation) && final(self).same_items(
                    old(self),
                )
            } else if old(self).next_item_id() == i64::MAX {
                r == Err::<i64, Error>(Error::StorageFailure) && final(self).same_items(old(self))
            } else {
                &&& r == Ok::<i64, Error>(old(self).next_item_id())
                &&& final(self).next_item_id() == old(self).next_item_id() + 1
                &&& final(self).items() == old(self).items().push(
                    (OrderItem {
                        id: old(self).next_item_id(),
                        order_id: order_id,
                        menu_id: menu_id,
                        cooking_time: cooking_time,
                        quantity: 1,
                    }),
                )
            },
    {
        let id: i64 = self.next_item_id;
        let item = OrderItem {
            id: id,
            order_id: order_id,
            menu_id: menu_id,
            cooking_time: cooking_time,
            quantity: 1,
        };
        match self.load_item(item) {
            Ok(_) => Ok(id),
            Err(e) => Err(e),
        }
    }

    /// Raises the quantity of a line by one. The cooking time stays.
    pub fn increment_quantity(&mut self, item_id: i64) -> (r: Result<(), Error>)
        requires
            old(self).wf(),
        ensures
            final(self).wf(),
            final(self).same_catalog(old(self)),
            final(self).same_orders(old(self)),
            final(self).next_item_id() == old(self).next_item_id(),
            match find_first(old(self).items(), item_with_id(item_id)) {
                None => r == Err::<(), Error>(Error::NotFound) && final(self).items() == old(self).items(),
                Some(i) => if old(self).items()[i].quantity == i64::MAX {
                    r == Err::<(), Error>(Error::StorageFailure) && final(self).items() == old(self).items()
                } else {
                    r == Ok::<(), Error>(()) && final(self).items() == old(self).items().update(
                        i,
                        incremented(old(self).items()[i]),
                    )
                },
            },
    {
        match self.item_index_by_id(item_id) {
            None => Err(Error::NotFound),
            Some(i) => {
                let it = self.items[i];
                if it.quantity == i64::MAX {
                    return Err(Error::StorageFailure);
                }
                self.items.set(i, OrderItem { quantity: it.quantity + 1, ..it });
                proof {
                    self.lemma_line_updated(old(self), i as int);
                }
                Ok(())
            },
        }
    }

    /// Takes one unit from a line that holds more than one: the quantity drops
    /// by one and the cooking time by the share of one unit. Returns whether a
    /// line was changed; one with quantity 1 is left as it is.
    pub fn decrement_one_unit(&mut self, item_id: i64) -> (r: bool)
        requires
            old(self).wf(),
        ensures
            final(self).wf(),
            final(self).same_catalog(old(self)),
            final(self).same_orders(old(self)),
            final(self).next_item_id() == old(self).next_item_id(),
            match find_first(old(self).items(), item_with_id(item_id)) {
                None => !r && final(self).items() == old(self).items(),
                Some(i) => if old(self).items()[i].quantity > 1 {
                    r && final(self).items() == old(self).items().update(
                        i,
                        decremented(old(self).items()[i]),
                    )
                } else {
                    !r && final(self).items() == old(self).items()
                },
            },
    {
        match self.item_index_by_id(item_id) {
            None => false,
            Some(i) => {
                let it = self.items[i];
                if it.quantity <= 1 {
                    return false;
                }
                proof {
                    lemma_unit_share(it.cooking_time as int, it.quantity as int);
                }
                let share: i64 = it.cooking_time / it.quantity;
                self.items.set(
                    i,
                    OrderItem {
                        quantity: it.quantity - 1,
                        cooking_time: it.cooking_time - share,
                        ..it
                    },
                );
                proof {
                    self.lemma_line_updated(old(self), i as int);
                }
                true
            },
        }
    }

    fn order_item_index(&self, order_id: i64) -> (r: Option<usize>)
        ensures
            r matches Some(i) ==> i < self.items().len() && find_first(
                self.items(),
                item_of_order(order_id),
            ) == Some(i as int),
            r is None ==> find_first(self.items(), item_of_order(order_id)) is None,
    {
        let mut i: usize = 0;
        while i < self.items.len()
            invariant
                i <= self.items.len(),
                forall|j: int| 0 <= j < i ==> !item_of_order(order_id)(#[trigger] self.items@[j]),
            decreases self.items.len() - i,
        {
            if self.items[i].order_id == order_id {
                proof {
                    lemma_find_first_at(self.items@, item_of_order(order_id), i as int);
                }
                return Some(i);
            }
            i += 1;
        }
        proof {
            lemma_find_first_none(self.items@, item_of_order(order_id));
        }
        None
    }

    /// Whether an order has any line.
    pub fn order_has_items(&self, order_id: i64) -> (r: bool)
        ensures
            r == has_items(self.items(), order_id),
    {
        self.order_item_index(order_id).is_some()
    }

    /// Drops the lines of an order: those for one menu, or all of them.
    fn retain_items(
        &mut self,
        order_id: i64,
        menu_id: Option<i64>,
        Ghost(keep): Ghost<spec_fn(OrderItem) -> bool>,
    )
        requires
            old(self).wf(),
            forall|it: OrderItem|
                #[trigger] keep(it) == !(it.order_id == order_id && (menu_id matches Some(m)
                    ==> it.menu_id == m)),
        ensures
            final(self).wf(),
            final(self).same_catalog(old(self)),
            final(self).same_orders(old(self)),
            final(self).next_item_id() == old(self).next_item_id(),
            final(self).items() == old(self).items().filter(keep),
    {
        let ghost before = self.items();
        let mut kept: Vec<OrderItem> = Vec::new();
        let mut i: usize = 0;
        proof {
            assert(before.take(0).filter(keep) =~= Seq::<OrderItem>::empty()) by {
                reveal(Seq::filter);
            }
        }
        while i < self.items.len()
            invariant
                self.items() == before,
                self.items@ == before,
                self.wf(),
                forall|it: OrderItem|
                    #[trigger] keep(it) == !(it.order_id == order_id && (menu_id matches Some(m)
                        ==> it.menu_id == m)),
                i <= before.len(),
                kept@ == before.take(i as int).filter(keep),
                forall|a: int|
                    0 <= a < kept@.len() ==> came_from(before, i as int, #[trigger] kept@[a]),
                forall|a: int, b: int|
                    0 <= a < b < kept@.len() ==> (#[trigger] kept@[a]).id != (
                    #[trigger] kept@[b]).id,
            decreases before.len() - i,
        {
            let it = self.items[i];
            let dropped = it.order_id == order_id && match menu_id {
                Some(m) => it.menu_id == m,
                None => true,
            };
            proof {
                lemma_filter_step(before, keep, i as int);
                assert(keep(it) == !dropped);
                assert forall|a: int| 0 <= a < kept@.len() implies came_from(
                    before,
                    i + 1,
                    #[trigger] kept@[a],
                ) by {
                    assert(came_from(before, i as int, kept@[a]));
                }
                assert(came_from(before, i + 1, it)) by {
                    assert(before[i as int] == it);
                }
                assert forall|a: int| 0 <= a < kept@.len() implies (#[trigger] kept@[a]).id
                    != it.id by {
                    assert(came_from(before, i as int, kept@[a]));
                    let k = choose|k: int| 0 <= k < i && before[k] == kept@[a];
                    assert(before[k].id != before[i as int].id);
                }
            }
            if !dropped {
                kept.push(it);
            }
            i += 1;
        }
        proof {
            assert(before.take(before.len() as int) =~= before);
        }
        self.items = kept;
        proof {
            let after = self.items();
            assert(after == before.filter(keep));
            assert(self.tables() == old(self).tables());
            assert(self.menus() == old(self).menus());
            assert(self.orders() == old(self).orders());
            assert(old(self).items_wf());
            assert forall|a: int| 0 <= a < after.len() implies {
                &&& (#[trigger] after[a]).id < self.next_item_id()
                &&& has_order(self.orders(), after[a].order_id)
                &&& has_menu(self.menus(), after[a].menu_id)
                &&& after[a].quantity >= 1
                &&& after[a].cooking_time >= 1
            } by {
                assert(came_from(before, before.len() as int, after[a]));
                let k = choose|k: int| 0 <= k < before.len() && before[k] == after[a];
                assert(before[k].id < old(self).next_item_id());
                assert(has_order(old(self).orders(), before[k].order_id));
                assert(has_menu(old(self).menus(), before[k].menu_id));
                assert(before[k].quantity >= 1);
                assert(before[k].cooking_time >= 1);
            }
            assert forall|a: int, b: int| 0 <= a < b < after.len() implies !((
            #[trigger] after[a]).order_id == (#[trigger] after[b]).order_id && after[a].menu_id
                == after[b].menu_id) by {
                assert(came_from(before, before.len() as int, after[a]));
                assert(came_from(before, before.len() as int, after[b]));
                let ka = choose|k: int| 0 <= k < before.len() && before[k] == after[a];
                let kb = choose|k: int| 0 <= k < before.len() && before[k] == after[b];
                assert(after[a].id != after[b].id);
                if ka < kb {
                    assert(!(before[ka].order_id == before[kb].order_id && before[ka].menu_id
                        == before[kb].menu_id));
                } else {
                    assert(!(before[kb].order_id == before[ka].order_id && before[kb].menu_id
                        == before[ka].menu_id));
                }
            }
            assert(self.items_wf());
        }
    }

    /// Removes the line of an order for a menu. Returns whether there was one.
    pub fn delete_item(&mut self, order_id: i64, menu_id: i64) -> (r: bool)
        requires
            old(self).wf(),
        ensures
            final(self).wf(),
            final(self).same_catalog(old(self)),
            final(self).same_orders(old(self)),
            final(self).next_item_id() == old(self).next_item_id(),
            final(self).items() == old(self).items().filter(not_line_of(order_id, menu_id)),
            r == has_line(old(self).items(), order_id, menu_id),
    {
        let found = self.line_index(order_id, menu_id).is_some();
        self.retain_items(order_id, Some(menu_id), Ghost(not_line_of(order_id, menu_id)));
        found
    }

    /// Removes an order together with its lines. Returns whether it existed.
    pub fn delete_order(&mut self, order_id: i64) -> (r: bool)
        requires
            old(self).wf(),
        ensures
            final(self).wf(),
            final(self).same_catalog(old(self)),
            final(self).next_order_id() == old(self).next_order_id(),
            final(self).next_item_id() == old(self).next_item_id(),
            r == has_order(old(self).orders(), order_id),
            match find_first(old(self).orders(), order_with_id(order_id)) {
                None => {
                    &&& final(self).orders() == old(self).orders()
                    &&& final(self).items() == old(self).items()
                },
                Some(i) => {
                    &&& final(self).orders() == old(self).orders().remove(i)
                    &&& final(self).items() == old(self).items().filter(
                        not_item_of_order(order_id),
                    )
                },
            },
    {
        match self.order_index_by_id(order_id) {
            None => false,
            Some(i) => {
                self.retain_items(order_id, None, Ghost(not_item_of_order(order_id)));
                let ghost mid = *self;
                self.orders.remove(i);
                proof {
                    let before = old(self).orders();
                    let after = self.orders();
                    assert(after == before.remove(i as int));
                    before.remove_ensures(i as int);
                    lemma_find_first(before, order_with_id(order_id));
                    assert(self.tables() == old(self).tables());
                    assert(self.menus() == old(self).menus());
                    assert(self.items() == mid.items());
                    assert(mid.items_wf());
                    assert(old(self).orders_wf());
                    assert forall|a: int| 0 <= a < after.len() implies {
                        &&& (#[trigger] after[a]).id < self.next_order_id()
                        &&& has_table(self.tables(), after[a].table_id)
                    } by {
                        let k = if a < i { a } else { a + 1 };
                        assert(after[a] == before[k]);
                        assert(before[k].id < old(self).next_order_id());
                        assert(has_table(old(self).tables(), before[k].table_id));
                    }
                    assert forall|a: int, b: int| 0 <= a < b < after.len() implies {
                        &&& (#[trigger] after[a]).id != (#[trigger] after[b]).id
                        &&& after[a].table_id != after[b].table_id
                    } by {
                        let ka = if a < i { a } else { a + 1 };
                        let kb = if b < i { b } else { b + 1 };
                        assert(after[a] == before[ka]);
                        assert(after[b] == before[kb]);
                        assert(before[ka].id != before[kb].id);
                        assert(before[ka].table_id != before[kb].table_id);
                    }
                    assert(self.orders_wf());
                    let items = self.items();
                    assert forall|a: int| 0 <= a < items.len() implies has_order(
                        after,
                        (#[trigger] items[a]).order_id,
                    ) by {
                        old(self).items().lemma_filter_pred(not_item_of_order(order_id), a);
                        assert(not_item_of_order(order_id)(items[a]));
                        assert(has_order(mid.orders(), items[a].order_id));
                        lemma_has_order_remove(before, i as int, items[a].order_id);
                    }
                    assert(self.items_wf());
                }
                true
            },
        }
    }

    /// The name of a registered menu.
    pub fn menu_name(&self, id: i64) -> (r: Option<String>)
        ensures
            match find_first(self.menus(), menu_with_id(id)) {
                Some(i) => r matches Some(name) && name@ == self.menus()[i].name@,
                None => r is None,
            },
    {
        match self.menu_index_by_id(id) {
            Some(i) => Some(self.menus[i].name.clone()),
            None => None,
        }
    }

    /// The lines of an order, oldest first.
    pub fn items_of_order(&self, order_id: i64) -> (r: Vec<OrderItem>)
        ensures
            r@ == self.items().filter(item_of_order(order_id)),
    {
        let mut lines: Vec<OrderItem> = Vec::new();
        let mut i: usize = 0;
        proof {
            assert(self.items@.take(0).filter(item_of_order(order_id)) =~= Seq::<
                OrderItem,
            >::empty()) by {
                reveal(Seq::filter);
            }
        }
        while i < self.items.len()
            invariant
                i <= self.items.len(),
                lines@ == self.items@.take(i as int).filter(item_of_order(order_id)),
            decreases self.items.len() - i,
        {
            proof {
                lemma_filter_step(self.items@, item_of_order(order_id), i as int);
            }
            if self.items[i].order_id == order_id {
                lines.push(self.items[i]);
            }
            i += 1;
        }
        proof {
            assert(self.items@.take(self.items@.len() as int) =~= self.items@);
        }
        lines
    }

    /// A store stays well formed when one line gets another quantity and
    /// cooking time, both positive.
    proof fn lemma_line_updated(&self, before: &Store, i: int)
        requires
            before.wf(),
            0 <= i < before.items().len(),
            self.same_catalog(before),
            self.same_orders(before),
            self.next_item_id() == before.next_item_id(),
            self.items().len() == before.items().len(),
            forall|k: int|
                0 <= k < before.items().len() && k != i ==> self.items()[k] == before.items()[k],
            self.items()[i].id == before.items()[i].id,
            self.items()[i].order_id == before.items()[i].order_id,
            self.items()[i].menu_id == before.items()[i].menu_id,
            self.items()[i].quantity >= 1,
            self.items()[i].cooking_time >= 1,
        ensures
            self.wf(),
    {
        let a = self.items();
        let b = before.items();
        assert(before.items_wf());
        assert forall|k: int| 0 <= k < a.len() implies (#[trigger] a[k]).id == b[k].id
            && a[k].order_id == b[k].order_id && a[k].menu_id == b[k].menu_id by {}
        assert forall|k: int| 0 <= k < a.len() implies (#[trigger] a[k]).id
            < self.next_item_id() by {
            assert(b[k].id < before.next_item_id());
        }
        assert forall|k: int, j: int| 0 <= k < j < a.len() implies (#[trigger] a[k]).id != (
        #[trigger] a[j]).id by {
            assert(b[k].id != b[j].id);
        }
        assert forall|k: int| 0 <= k < a.len() implies has_order(
            self.orders(),
            (#[trigger] a[k]).order_id,
        ) by {
            assert(has_order(before.orders(), b[k].order_id));
        }
        assert forall|k: int| 0 <= k < a.len() implies has_menu(
            self.menus(),
            (#[trigger] a[k]).menu_id,
        ) by {
            assert(has_menu(before.menus(), b[k].menu_id));
        }
        assert forall|k: int, j: int| 0 <= k < j < a.len() implies !((#[trigger] a[k]).order_id
            == (#[trigger] a[j]).order_id && a[k].menu_id == a[j].menu_id) by {
            assert(!(b[k].order_id == b[j].order_id && b[k].menu_id == b[j].menu_id));
        }
        assert forall|k: int| 0 <= k < a.len() implies (#[trigger] a[k]).quantity >= 1 by {
            if k != i {
                assert(b[k].quantity >= 1);
            }
        }
        assert forall|k: int| 0 <= k < a.len() implies (#[trigger] a[k]).cooking_time >= 1 by {
            if k != i {
                assert(b[k].cooking_time >= 1);
            }
        }
    }
}

/// A table that is registered stays registered when another is added.
proof fn lemma_has_table_push(before: Seq<Table>, after: Seq<Table>, id: i64)
    requires
        after.len() == before.len() + 1,
        after.drop_last() == before,
        has_table(before, id),
    ensures
        has_table(after, id),
{
}

/// Whether `x` stands in `s` before the index `upto`.
spec fn came_from(s: Seq<OrderItem>, upto: int, x: OrderItem) -> bool {
    exists|k: int| 0 <= k < upto && k < s.len() && #[trigger] s[k] == x
}

/// An order stays when another one is removed.
proof fn lemma_has_order_remove(orders: Seq<Order>, i: int, id: i64)
    requires
        0 <= i < orders.len(),
        has_order(orders, id),
        orders[i].id != id,
    ensures
        has_order(orders.remove(i), id),
{
    lemma_find_first(orders, order_with_id(id));
    let k = find_first(orders, order_with_id(id)).unwrap();
    orders.remove_ensures(i);
    if k < i {
        assert(orders.remove(i)[k] == orders[k]);
        lemma_find_first_some(orders.remove(i), order_with_id(id), k);
    } else {
        assert(orders.remove(i)[k - 1] == orders[k]);
        lemma_find_first_some(orders.remove(i), order_with_id(id), k - 1);
    }
}

/// The share of one unit in a cooking time is less than the whole, where
/// there are at least two units.
pub proof fn lemma_unit_share(cooking_time: int, quantity: int)
    requires
        cooking_time >= 1,
        quantity >= 2,
    ensures
        0 <= cooking_time / quantity < cooking_time,
{
    assert(0 <= cooking_time / quantity < cooking_time) by (nonlinear_arith)
        requires
            cooking_time >= 1,
            quantity >= 2,
    ;
}

} // verus!
