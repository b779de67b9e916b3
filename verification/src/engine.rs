//! The order lifecycle engine: submitting items for a table and removing one
//! unit of an item from a table's order.

use vstd::prelude::*;
use crate::rows::{
    Menu, Order, OrderItem, Error, find_first, lemma_find_first, lemma_find_first_at,
    lemma_find_first_some, lemma_find_first_none, lemma_filter_all, order_with_id,
    order_of_table, item_with_id, line_of, not_line_of, item_of_order, not_item_of_order,
    has_table, has_menu, has_order, open_order, has_items, incremented, decremented,
    lines_unique, one_order_per_table,
};
use crate::store::Store;
use crate::estimator::{Estimator, is_estimate, MIN_COOKING_TIME};

verus! {

/// What a successful submission reports.
#[derive(Clone, Copy, Debug, PartialEq, Eq, Structural)]
pub struct Submitted {
    /// The order that holds the items.
    pub order_id: i64,
    /// Whether the submission opened that order.
    pub created: bool,
}

/// The step of a submission at which it was refused.
#[derive(Clone, Copy, Debug, PartialEq, Eq, Structural)]
pub enum Stage {
    /// The request itself, before the store was touched.
    Request,
    /// Opening the order for the table.
    OpenOrder,
    /// Adding a unit to a line that the order has.
    MergeLine,
    /// Making a line that the order does not have yet.
    NewLine,
}

/// Why a submission was refused, and at which step.
#[derive(Clone, Copy, Debug, PartialEq, Eq, Structural)]
pub struct Refusal {
    pub error: Error,
    pub stage: Stage,
}

/// What the removal of one unit did.
#[derive(Clone, Copy, Debug, PartialEq, Eq, Structural)]
pub enum Outcome {
    /// The line holds one unit less.
    QuantityReduced,
    /// The line is gone; the order has other lines.
    ItemRemoved,
    /// The line is gone, and with it the order, which had no other line.
    ItemRemovedAndOrderClosed,
    /// The table has no open order with a line for the menu.
    NotFound,
}

/// The refusal of a request at a step.
pub open spec fn refused(error: Error, stage: Stage) -> Option<Refusal> {
    Some(Refusal { error: error, stage: stage })
}

/// The new line that a request creates.
pub open spec fn new_line(id: i64, order_id: i64, menu_id: i64, cooking_time: i64) -> OrderItem {
    OrderItem { id: id, order_id: order_id, menu_id: menu_id, cooking_time: cooking_time, quantity: 1 }
}

/// One requested item, applied to the lines `items` with `next_id` the id of
/// the next new line. An existing line of the order for the menu gets one
/// more unit; where there is none, a new line is made with the cooking time
/// `estimate`. The third component is the failure, after which the lines
/// are as before; the fourth is how often the estimator is asked, which is
/// once unless the request is merged into a line.
pub open spec fn apply_one(
    items: Seq<OrderItem>,
    next_id: i64,
    menus: Seq<Menu>,
    order_id: i64,
    menu_id: i64,
    estimate: i64,
) -> (Seq<OrderItem>, i64, Option<Refusal>, nat) {
    let found = find_first(items, line_of(order_id, menu_id));
    if found is Some {
        let i = found.unwrap();
        if items[i].quantity == i64::MAX {
            (items, next_id, refused(Error::StorageFailure, Stage::MergeLine), 0)
        } else {
            (items.update(i, incremented(items[i])), next_id, None, 0)
        }
    } else if !has_menu(menus, menu_id) {
        (items, next_id, refused(Error::ConstraintViolation, Stage::NewLine), 1)
    } else if next_id == i64::MAX {
        (items, next_id, refused(Error::StorageFailure, Stage::NewLine), 1)
    } else {
        (items.push(new_line(next_id, order_id, menu_id, estimate)), (next_id + 1) as i64, None, 1)
    }
}

/// The requested items applied in their order, up to the first failure.
/// `estimates[k]` is the cooking time for the `k`-th request, used where that
/// request makes a new line.
pub open spec fn apply_all(
    items: Seq<OrderItem>,
    next_id: i64,
    menus: Seq<Menu>,
    order_id: i64,
    menu_ids: Seq<i64>,
    estimates: Seq<i64>,
) -> (Seq<OrderItem>, i64, Option<Refusal>, nat)
    decreases menu_ids.len(),
{
    if menu_ids.len() == 0 {
        (items, next_id, None, 0)
    } else {
        let prev = apply_all(
            items,
            next_id,
            menus,
            order_id,
            menu_ids.drop_last(),
            estimates.drop_last(),
        );
        if prev.2 is Some {
            prev
        } else {
            let step = apply_one(
                prev.0,
                prev.1,
                menus,
                order_id,
                menu_ids.last(),
                estimates.last(),
            );
            (step.0, step.1, step.2, prev.3 + step.3)
        }
    }
}

/// Whether `estimates` holds one admissible cooking time for each of `n` requests.
pub open spec fn estimates_for(estimates: Seq<i64>, n: nat) -> bool {
    estimates.len() == n && forall|k: int| 0 <= k < n ==> is_estimate(#[trigger] estimates[k])
}

/// Whether every line of `after` that `before` did not have yet has a cooking
/// time that the estimator offers.
pub open spec fn new_lines_offered<E: Estimator>(
    before: Seq<OrderItem>,
    after: Seq<OrderItem>,
    estimator: &E,
) -> bool {
    forall|k: int|
        before.len() <= k < after.len() ==> estimator.offers((#[trigger] after[k]).cooking_time)
}

/// Whether `after` is what applying the requests to `before` gives, for some
/// cooking times that an estimator may assign, with the estimator asked
/// `asks` times.
pub open spec fn applied(
    before: &Store,
    after: &Store,
    order_id: i64,
    menu_ids: Seq<i64>,
    failed: Option<Refusal>,
    asks: nat,
) -> bool {
    exists|estimates: Seq<i64>| #[trigger]
        estimates_for(estimates, menu_ids.len()) && apply_all(
            before.items(),
            before.next_item_id(),
            before.menus(),
            order_id,
            menu_ids,
            estimates,
        ) == (after.items(), after.next_item_id(), failed, asks)
}

/// What a submission answers for an order, given the failure that stopped it.
pub open spec fn submit_answer(order_id: i64, created: bool, failed: Option<Refusal>) -> Result<
    Submitted,
    Refusal,
> {
    match failed {
        Some(e) => Err(e),
        None => Ok(Submitted { order_id: order_id, created: created }),
    }
}

/// A failure that stopped the requests after `k` of them stops the whole list
/// there, whatever follows.
proof fn lemma_failure_stays(
    items: Seq<OrderItem>,
    next_id: i64,
    menus: Seq<Menu>,
    order_id: i64,
    menu_ids: Seq<i64>,
    estimates: Seq<i64>,
    k: int,
)
    requires
        0 <= k <= menu_ids.len(),
        estimates.len() == menu_ids.len(),
        apply_all(items, next_id, menus, order_id, menu_ids.take(k), estimates.take(k)).2
            is Some,
    ensures
        apply_all(items, next_id, menus, order_id, menu_ids, estimates) == apply_all(
            items,
            next_id,
            menus,
            order_id,
            menu_ids.take(k),
            estimates.take(k),
        ),
    decreases menu_ids.len() - k,
{
    if k == menu_ids.len() {
        assert(menu_ids.take(k) =~= menu_ids);
        assert(estimates.take(k) =~= estimates);
    } else {
        assert(menu_ids.drop_last().take(k) =~= menu_ids.take(k));
        assert(estimates.drop_last().take(k) =~= estimates.take(k));
        lemma_failure_stays(
            items,
            next_id,
            menus,
            order_id,
            menu_ids.drop_last(),
            estimates.drop_last(),
            k,
        );
    }
}

/// In a store whose item ids are distinct, an item is found by its id where it stands.
proof fn lemma_item_by_id(store: &Store, i: int)
    requires
        store.wf(),
        0 <= i < store.items().len(),
    ensures
        find_first(store.items(), item_with_id(store.items()[i].id)) == Some(i),
{
    let items = store.items();
    assert(store.items_wf());
    assert forall|j: int| 0 <= j < i implies !item_with_id(items[i].id)(#[trigger] items[j]) by {
        assert(items[j].id != items[i].id);
    }
    lemma_find_first_at(items, item_with_id(items[i].id), i);
}

/// Applies the requested items to an order, in their order, and stops at the
/// first that the store refuses.
fn apply_items<E: Estimator>(
    store: &mut Store,
    estimator: &mut E,
    order_id: i64,
    menu_ids: &Vec<i64>,
) -> (r: Result<(), Refusal>)
    requires
        old(store).wf(),
        has_order(old(store).orders(), order_id),
    ensures
        final(store).wf(),
        final(store).same_catalog(old(store)),
        final(store).same_orders(old(store)),
        applied(
            old(store),
            final(store),
            order_id,
            menu_ids@,
            match r {
                Ok(_) => None,
                Err(e) => Some(e),
            },
            (final(estimator).asked() - old(estimator).asked()) as nat,
        ),
        final(estimator).asked() >= old(estimator).asked(),
        new_lines_offered(old(store).items(), final(store).items(), old(estimator)),
        forall|u: i64| final(estimator).offers(u) == old(estimator).offers(u),
{
    let ghost mut estimates: Seq<i64> = Seq::empty();
    let ghost start = *store;
    let mut i: usize = 0;
    while i < menu_ids.len()
        invariant
            i <= menu_ids.len(),
            store.wf(),
            start == *old(store),
            store.same_catalog(&start),
            store.same_orders(&start),
            has_order(store.orders(), order_id),
            store.items().len() >= start.items().len(),
            new_lines_offered(start.items(), store.items(), old(estimator)),
            forall|u: i64| estimator.offers(u) == old(estimator).offers(u),
            estimator.asked() >= old(estimator).asked(),
            estimates_for(estimates, i as nat),
            apply_all(
                start.items(),
                start.next_item_id(),
                start.menus(),
                order_id,
                menu_ids@.take(i as int),
                estimates,
            ) == (
                store.items(),
                store.next_item_id(),
                None::<Refusal>,
                (estimator.asked() - old(estimator).asked()) as nat,
            ),
        decreases menu_ids.len() - i,
    {
        let menu_id: i64 = menu_ids[i];
        let ghost before = *store;
        let ghost prefix = menu_ids@.take(i as int);
        let ghost longer = menu_ids@.take(i + 1);
        let ghost earlier = estimates;
        let ghost asked_before = estimator.asked();
        proof {
            assert(longer.drop_last() =~= prefix);
            assert(longer.last() == menu_id);
            lemma_find_first(store.items(), line_of(order_id, menu_id));
        }
        let existing: Option<i64> = store.find_item(order_id, menu_id);
        let step: Result<(), Refusal> = match existing {
            Some(item_id) => {
                proof {
                    let at = find_first(store.items(), line_of(order_id, menu_id)).unwrap();
                    lemma_item_by_id(store, at);
                    estimates = estimates.push(MIN_COOKING_TIME);
                }
                match store.increment_quantity(item_id) {
                    Ok(_) => Ok(()),
                    Err(e) => Err(Refusal { error: e, stage: Stage::MergeLine }),
                }
            },
            None => {
                let t: i64 = estimator.estimate();
                proof {
                    estimates = estimates.push(t);
                }
                match store.create_item(order_id, menu_id, t) {
                    Ok(_) => Ok(()),
                    Err(e) => Err(Refusal { error: e, stage: Stage::NewLine }),
                }
            },
        };
        proof {
            assert(estimates.drop_last() =~= earlier);
            assert(estimates.len() == i + 1);
            let out = apply_all(
                start.items(),
                start.next_item_id(),
                start.menus(),
                order_id,
                longer,
                estimates,
            );
            let one = apply_one(
                before.items(),
                before.next_item_id(),
                start.menus(),
                order_id,
                menu_id,
                estimates.last(),
            );
            assert(one.3 == estimator.asked() - asked_before);
            assert(out == (
                one.0,
                one.1,
                one.2,
                ((asked_before - old(estimator).asked()) as nat + one.3) as nat,
            ));
            assert(out == (
                store.items(),
                store.next_item_id(),
                match step {
                    Ok(_) => None::<Refusal>,
                    Err(e) => Some(e),
                },
                (estimator.asked() - old(estimator).asked()) as nat,
            ));
        }
        match step {
            Ok(_) => {},
            Err(e) => {
                proof {
                    let n = menu_ids@.len();
                    let rest = Seq::new((n - (i + 1)) as nat, |k: int| MIN_COOKING_TIME);
                    let all = estimates + rest;
                    assert(all.take(i + 1) =~= estimates);
                    assert(estimates_for(all, n));
                    lemma_failure_stays(
                        start.items(),
                        start.next_item_id(),
                        start.menus(),
                        order_id,
                        menu_ids@,
                        all,
                        i + 1,
                    );
                }
                return Err(e);
            },
        }
        i += 1;
    }
    proof {
        assert(menu_ids@.take(i as int) =~= menu_ids@);
    }
    Ok(())
}


/// Merging requests into an order never makes a second line for a pair of
/// an order and a menu: where there is at most one line for each pair before,
/// there is at most one after, whatever is requested, how often, and however
/// far the requests got.
pub proof fn law_merge_keeps_lines_unique(
    items: Seq<OrderItem>,
    next_id: i64,
    menus: Seq<Menu>,
    order_id: i64,
    menu_ids: Seq<i64>,
    estimates: Seq<i64>,
)
    requires
        lines_unique(items),
        estimates.len() == menu_ids.len(),
    ensures
        lines_unique(apply_all(items, next_id, menus, order_id, menu_ids, estimates).0),
    decreases menu_ids.len(),
{
    if menu_ids.len() > 0 {
        law_merge_keeps_lines_unique(
            items,
            next_id,
            menus,
            order_id,
            menu_ids.drop_last(),
            estimates.drop_last(),
        );
        let prev = apply_all(
            items,
            next_id,
            menus,
            order_id,
            menu_ids.drop_last(),
            estimates.drop_last(),
        );
        if prev.2 is None {
            lemma_find_first(prev.0, line_of(order_id, menu_ids.last()));
        }
    }
}

/// Requests only add: every line that was there is still there, in its place,
/// with its id, order, menu and cooking time, and with no fewer units than
/// before. A repeated submission so never loses or splits a line.
pub proof fn law_requests_only_add(
    items: Seq<OrderItem>,
    next_id: i64,
    menus: Seq<Menu>,
    order_id: i64,
    menu_ids: Seq<i64>,
    estimates: Seq<i64>,
)
    requires
        estimates.len() == menu_ids.len(),
    ensures
        apply_all(items, next_id, menus, order_id, menu_ids, estimates).0.len()
            >= items.len(),
        forall|k: int|
            #![trigger apply_all(items, next_id, menus, order_id, menu_ids, estimates).0[k]]
            0 <= k < items.len() ==> {
                let now = apply_all(
                    items,
                    next_id,
                    menus,
                    order_id,
                    menu_ids,
                    estimates,
                ).0[k];
                &&& now.id == items[k].id
                &&& now.order_id == items[k].order_id
                &&& now.menu_id == items[k].menu_id
                &&& now.cooking_time == items[k].cooking_time
                &&& now.quantity >= items[k].quantity
            },
    decreases menu_ids.len(),
{
    if menu_ids.len() > 0 {
        law_requests_only_add(
            items,
            next_id,
            menus,
            order_id,
            menu_ids.drop_last(),
            estimates.drop_last(),
        );
        let prev = apply_all(
            items,
            next_id,
            menus,
            order_id,
            menu_ids.drop_last(),
            estimates.drop_last(),
        );
        let out = apply_all(items, next_id, menus, order_id, menu_ids, estimates);
        if prev.2 is None {
            lemma_find_first(prev.0, line_of(order_id, menu_ids.last()));
        }
        assert forall|k: int| 0 <= k < items.len() implies {
            &&& (#[trigger] out.0[k]).id == items[k].id
            &&& out.0[k].order_id == items[k].order_id
            &&& out.0[k].menu_id == items[k].menu_id
            &&& out.0[k].cooking_time == items[k].cooking_time
            &&& out.0[k].quantity >= items[k].quantity
        } by {
            assert(prev.0[k].id == items[k].id);
        }
    }
}

/// The estimator is asked once for each new line and never for a merge:
/// after requests that were all applied, it was asked as often as lines were
/// added; after a refusal, at most once more.
pub proof fn law_asked_once_per_new_line(
    items: Seq<OrderItem>,
    next_id: i64,
    menus: Seq<Menu>,
    order_id: i64,
    menu_ids: Seq<i64>,
    estimates: Seq<i64>,
)
    requires
        estimates.len() == menu_ids.len(),
    ensures
        ({
            let out = apply_all(items, next_id, menus, order_id, menu_ids, estimates);
            &&& out.0.len() >= items.len()
            &&& out.2 is None ==> out.3 == out.0.len() - items.len()
            &&& out.2 is Some ==> out.0.len() - items.len() <= out.3 <= out.0.len() - items.len()
                + 1
        }),
    decreases menu_ids.len(),
{
    if menu_ids.len() > 0 {
        law_asked_once_per_new_line(
            items,
            next_id,
            menus,
            order_id,
            menu_ids.drop_last(),
            estimates.drop_last(),
        );
        let prev = apply_all(
            items,
            next_id,
            menus,
            order_id,
            menu_ids.drop_last(),
            estimates.drop_last(),
        );
        if prev.2 is None {
            lemma_find_first(prev.0, line_of(order_id, menu_ids.last()));
        }
    }
}

/// The units that an order holds of a menu: the quantity of its line for the
/// menu, and none where it has no such line.
pub open spec fn units(items: Seq<OrderItem>, order_id: i64, menu_id: i64) -> int {
    match find_first(items, line_of(order_id, menu_id)) {
        Some(i) => items[i].quantity as int,
        None => 0,
    }
}

/// How often a menu is requested in a list.
pub open spec fn requests_for(menu_ids: Seq<i64>, menu_id: i64) -> int
    decreases menu_ids.len(),
{
    if menu_ids.len() == 0 {
        0
    } else {
        requests_for(menu_ids.drop_last(), menu_id) + if menu_ids.last() == menu_id {
            1int
        } else {
            0int
        }
    }
}

/// Two sequences in which the same places satisfy `p` have the same first such place.
proof fn lemma_find_first_same<T>(a: Seq<T>, b: Seq<T>, p: spec_fn(T) -> bool)
    requires
        a.len() == b.len(),
        forall|k: int| 0 <= k < a.len() ==> p(#[trigger] a[k]) == p(b[k]),
    ensures
        find_first(a, p) == find_first(b, p),
{
    lemma_find_first(a, p);
    lemma_find_first(b, p);
    match find_first(a, p) {
        Some(i) => {
            assert(p(b[i]));
            if find_first(b, p) is Some {
                let j = find_first(b, p).unwrap();
                assert(p(a[j]) == p(b[j]));
                if j < i {
                    assert(!p(a[j]));
                }
                if i < j {
                    assert(!p(b[i]));
                }
            }
        },
        None => {
            if find_first(b, p) is Some {
                let j = find_first(b, p).unwrap();
                assert(p(a[j]) == p(b[j]));
            }
        },
    }
}

/// One merged request adds one unit of the requested menu and none of any other.
proof fn lemma_merge_one_counts(
    items: Seq<OrderItem>,
    next_id: i64,
    menus: Seq<Menu>,
    order_id: i64,
    requested: i64,
    estimate: i64,
    menu_id: i64,
)
    requires
        apply_one(items, next_id, menus, order_id, requested, estimate).2 is None,
    ensures
        units(
            apply_one(items, next_id, menus, order_id, requested, estimate).0,
            order_id,
            menu_id,
        ) == units(items, order_id, menu_id) + if requested == menu_id {
            1int
        } else {
            0int
        },
{
    let out = apply_one(items, next_id, menus, order_id, requested, estimate).0;
    let p = line_of(order_id, menu_id);
    lemma_find_first(items, line_of(order_id, requested));
    lemma_find_first(items, p);
    match find_first(items, line_of(order_id, requested)) {
        Some(i) => {
            assert(out == items.update(i, incremented(items[i])));
            assert forall|k: int| 0 <= k < out.len() implies p(#[trigger] out[k]) == p(
                items[k],
            ) by {}
            lemma_find_first_same(out, items, p);
            if requested != menu_id && find_first(items, p) is Some {
                let j = find_first(items, p).unwrap();
                assert(j != i);
                assert(out[j] == items[j]);
            }
        },
        None => {
            let line = new_line(next_id, order_id, requested, estimate);
            assert(out == items.push(line));
            assert(out.drop_last() =~= items);
            assert(out.last() == line);
            lemma_find_first(out, p);
            if find_first(items, p) is Some {
                let j = find_first(items, p).unwrap();
                assert(out[j] == items[j]);
            }
        },
    }
}

/// Merging accumulates: after requests that were all applied, the order holds
/// of each menu the units it held before and one more for each request of
/// that menu, in the one line that `units` reads. Two requests of a menu that
/// the order did not hold so give one line with two units, in an order that
/// was open as in one that the submission opened.
pub proof fn law_merge_counts_units(
    items: Seq<OrderItem>,
    next_id: i64,
    menus: Seq<Menu>,
    order_id: i64,
    menu_ids: Seq<i64>,
    estimates: Seq<i64>,
    menu_id: i64,
)
    requires
        estimates.len() == menu_ids.len(),
        apply_all(items, next_id, menus, order_id, menu_ids, estimates).2 is None,
    ensures
        units(
            apply_all(items, next_id, menus, order_id, menu_ids, estimates).0,
            order_id,
            menu_id,
        ) == units(items, order_id, menu_id) + requests_for(menu_ids, menu_id),
    decreases menu_ids.len(),
{
    if menu_ids.len() > 0 {
        let prev = apply_all(
            items,
            next_id,
            menus,
            order_id,
            menu_ids.drop_last(),
            estimates.drop_last(),
        );
        law_merge_counts_units(
            items,
            next_id,
            menus,
            order_id,
            menu_ids.drop_last(),
            estimates.drop_last(),
            menu_id,
        );
        lemma_merge_one_counts(
            prev.0,
            prev.1,
            menus,
            order_id,
            menu_ids.last(),
            estimates.last(),
            menu_id,
        );
    }
}

/// Whether a list of requested menus is one that can be submitted: it is not empty.
pub fn check_request(menu_ids: &Vec<i64>) -> (r: Result<(), Error>)
    ensures
        r == if menu_ids@.len() == 0 {
            Err::<(), Error>(Error::InvalidRequest)
        } else {
            Ok::<(), Error>(())
        },
{
    if menu_ids.len() == 0 {
        Err(Error::InvalidRequest)
    } else {
        Ok(())
    }
}

/// Submits items for a table. An empty list is refused before the store is
/// touched. Where the table has no open order, one is opened. Each item is
/// then merged into the order, in the order of the list: a line that exists
/// gets one more unit, another is made with an estimated cooking time, so
/// that a menu that is requested twice makes one line with two units. The
/// first refusal of the store ends the submission; what was applied before it
/// stays, and so does an order that was opened.
pub fn submit<E: Estimator>(
    store: &mut Store,
    estimator: &mut E,
    table_id: i64,
    menu_ids: &Vec<i64>,
) -> (r: Result<Submitted, Refusal>)
    requires
        old(store).wf(),
    ensures
        final(store).wf(),
        one_order_per_table(final(store).orders()),
        lines_unique(final(store).items()),
        final(store).same_catalog(old(store)),
        menu_ids@.len() == 0 ==> {
            &&& r == Err::<Submitted, Refusal>(
                (Refusal { error: Error::InvalidRequest, stage: Stage::Request }),
            )
            &&& final(store).same_as(old(store))
            &&& final(estimator).asked() == old(estimator).asked()
        },
        menu_ids@.len() > 0 ==> match open_order(old(store).orders(), table_id) {
            Some(order_id) => {
                &&& final(store).same_orders(old(store))
                &&& exists|failed: Option<Refusal>|
                    {
                        &&& #[trigger] applied(
                            old(store),
                            final(store),
                            order_id,
                            menu_ids@,
                            failed,
                            (final(estimator).asked() - old(estimator).asked()) as nat,
                        )
                        &&& r == submit_answer(order_id, false, failed)
                    }
            },
            None => if !has_table(old(store).tables(), table_id) {
                &&& r == Err::<Submitted, Refusal>(
                    (Refusal { error: Error::ConstraintViolation, stage: Stage::OpenOrder }),
                )
                &&& final(store).same_as(old(store))
                &&& final(estimator).asked() == old(estimator).asked()
            } else if old(store).next_order_id() == i64::MAX {
                &&& r == Err::<Submitted, Refusal>(
                    (Refusal { error: Error::StorageFailure, stage: Stage::OpenOrder }),
                )
                &&& final(store).same_as(old(store))
                &&& final(estimator).asked() == old(estimator).asked()
            } else {
                let order_id = old(store).next_order_id();
                &&& final(store).next_order_id() == order_id + 1
                &&& final(store).orders() == old(store).orders().push(
                    (Order { id: order_id, table_id: table_id }),
                )
                &&& exists|failed: Option<Refusal>|
                    {
                        &&& #[trigger] applied(
                            old(store),
                            final(store),
                            order_id,
                            menu_ids@,
                            failed,
                            (final(estimator).asked() - old(estimator).asked()) as nat,
                        )
                        &&& r == submit_answer(order_id, true, failed)
                    }
            },
        },
        new_lines_offered(old(store).items(), final(store).items(), old(estimator)),
        forall|u: i64| final(estimator).offers(u) == old(estimator).offers(u),
        final(estimator).asked() >= old(estimator).asked(),
{
    match check_request(menu_ids) {
        Err(e) => {
            return Err(Refusal { error: e, stage: Stage::Request });
        },
        Ok(_) => {},
    }
    let (order_id, created): (i64, bool) = match store.find_open_order(table_id) {
        Some(order_id) => {
            proof {
                lemma_find_first(store.orders(), order_of_table(table_id));
                let at = find_first(store.orders(), order_of_table(table_id)).unwrap();
                lemma_find_first_some(store.orders(), order_with_id(order_id), at);
            }
            (order_id, false)
        },
        None => match store.create_order(table_id) {
            Err(e) => {
                return Err(Refusal { error: e, stage: Stage::OpenOrder });
            },
            Ok(order_id) => {
                proof {
                    lemma_find_first_some(
                        store.orders(),
                        order_with_id(order_id),
                        store.orders().len() - 1,
                    );
                }
                (order_id, true)
            },
        },
    };
    let ghost opened = *store;
    let done = apply_items(store, estimator, order_id, menu_ids);
    proof {
        let failed = match done {
            Ok(_) => None::<Refusal>,
            Err(e) => Some(e),
        };
        let asks = (estimator.asked() - old(estimator).asked()) as nat;
        assert(applied(&opened, store, order_id, menu_ids@, failed, asks));
        assert(applied(old(store), store, order_id, menu_ids@, failed, asks));
        assert(store.items_wf());
    }
    match done {
        Ok(_) => Ok(Submitted { order_id: order_id, created: created }),
        Err(e) => Err(e),
    }
}

/// What the removal of one unit of a menu from a table's order answers.
pub open spec fn removal_outcome(
    orders: Seq<Order>,
    items: Seq<OrderItem>,
    table_id: i64,
    menu_id: i64,
) -> Outcome {
    match open_order(orders, table_id) {
        None => Outcome::NotFound,
        Some(order_id) => match find_first(items, line_of(order_id, menu_id)) {
            None => Outcome::NotFound,
            Some(i) => if items[i].quantity > 1 {
                Outcome::QuantityReduced
            } else if has_items(items.filter(not_line_of(order_id, menu_id)), order_id) {
                Outcome::ItemRemoved
            } else {
                Outcome::ItemRemovedAndOrderClosed
            },
        },
    }
}

/// The lines after the removal of one unit of a menu from a table's order.
pub open spec fn items_after_removal(
    orders: Seq<Order>,
    items: Seq<OrderItem>,
    table_id: i64,
    menu_id: i64,
) -> Seq<OrderItem> {
    match open_order(orders, table_id) {
        None => items,
        Some(order_id) => match find_first(items, line_of(order_id, menu_id)) {
            None => items,
            Some(i) => if items[i].quantity > 1 {
                items.update(i, decremented(items[i]))
            } else {
                items.filter(not_line_of(order_id, menu_id))
            },
        },
    }
}

/// The orders after the removal of one unit of a menu from a table's order.
pub open spec fn orders_after_removal(
    orders: Seq<Order>,
    items: Seq<OrderItem>,
    table_id: i64,
    menu_id: i64,
) -> Seq<Order> {
    if removal_outcome(orders, items, table_id, menu_id) == Outcome::ItemRemovedAndOrderClosed {
        orders.remove(find_first(orders, order_of_table(table_id)).unwrap())
    } else {
        orders
    }
}

/// Where the table has no open order, or its order has no line for the menu,
/// the removal answers `NotFound` and leaves orders and lines as they are.
pub proof fn law_missing_line_changes_nothing(
    orders: Seq<Order>,
    items: Seq<OrderItem>,
    table_id: i64,
    menu_id: i64,
)
    requires
        open_order(orders, table_id) matches Some(order_id) ==> find_first(
            items,
            line_of(order_id, menu_id),
        ) is None,
    ensures
        removal_outcome(orders, items, table_id, menu_id) == Outcome::NotFound,
        items_after_removal(orders, items, table_id, menu_id) == items,
        orders_after_removal(orders, items, table_id, menu_id) == orders,
{
}

/// Cascade: where the order of the table has exactly one line, with one unit,
/// removing that unit removes the line and closes the order, so that the
/// table has no open order afterwards.
pub proof fn law_last_line_closes_order(
    orders: Seq<Order>,
    items: Seq<OrderItem>,
    table_id: i64,
    menu_id: i64,
    order_id: i64,
    line: int,
)
    requires
        one_order_per_table(orders),
        open_order(orders, table_id) == Some(order_id),
        0 <= line < items.len(),
        items[line].order_id == order_id,
        items[line].menu_id == menu_id,
        items[line].quantity == 1,
        forall|k: int| 0 <= k < items.len() && (#[trigger] items[k]).order_id == order_id ==> k == line,
    ensures
        removal_outcome(orders, items, table_id, menu_id) == Outcome::ItemRemovedAndOrderClosed,
        !has_items(items_after_removal(orders, items, table_id, menu_id), order_id),
        open_order(orders_after_removal(orders, items, table_id, menu_id), table_id) is None,
{
    let keep = not_line_of(order_id, menu_id);
    let rest = items.filter(keep);
    lemma_find_first(items, line_of(order_id, menu_id));
    assert(line_of(order_id, menu_id)(items[line]));
    assert(find_first(items, line_of(order_id, menu_id)) == Some(line));
    assert forall|j: int| 0 <= j < rest.len() implies !item_of_order(order_id)(
        #[trigger] rest[j],
    ) by {
        items.lemma_filter_pred(keep, j);
        assert(rest.contains(rest[j]));
        items.lemma_filter_contains_rev(keep, rest[j]);
        let k = choose|k: int| 0 <= k < items.len() && items[k] == rest[j];
        if items[k].order_id == order_id {
            assert(k == line);
        }
    }
    lemma_find_first_none(rest, item_of_order(order_id));
    lemma_find_first(orders, order_of_table(table_id));
    let at = find_first(orders, order_of_table(table_id)).unwrap();
    let fewer = orders.remove(at);
    orders.remove_ensures(at);
    assert forall|j: int| 0 <= j < fewer.len() implies !order_of_table(table_id)(
        #[trigger] fewer[j],
    ) by {
        let k = if j < at { j } else { j + 1 };
        assert(fewer[j] == orders[k]);
        if k < at {
            assert(orders[k].table_id != orders[at].table_id);
        } else {
            assert(orders[at].table_id != orders[k].table_id);
        }
    }
    lemma_find_first_none(fewer, order_of_table(table_id));
}

/// No cascade: where the order of the table has a line for another menu,
/// removing one unit of a menu leaves the order open and that other line as
/// it was.
pub proof fn law_other_line_keeps_order(
    orders: Seq<Order>,
    items: Seq<OrderItem>,
    table_id: i64,
    menu_id: i64,
    order_id: i64,
    other: int,
)
    requires
        open_order(orders, table_id) == Some(order_id),
        0 <= other < items.len(),
        items[other].order_id == order_id,
        items[other].menu_id != menu_id,
    ensures
        removal_outcome(orders, items, table_id, menu_id) != Outcome::ItemRemovedAndOrderClosed,
        orders_after_removal(orders, items, table_id, menu_id) == orders,
        open_order(orders_after_removal(orders, items, table_id, menu_id), table_id) == Some(
            order_id,
        ),
        items_after_removal(orders, items, table_id, menu_id).contains(items[other]),
{
    let keep = not_line_of(order_id, menu_id);
    let rest = items.filter(keep);
    let after = items_after_removal(orders, items, table_id, menu_id);
    lemma_find_first(items, line_of(order_id, menu_id));
    assert(keep(items[other]));
    items.lemma_filter_contains(keep, other);
    let j = choose|j: int| 0 <= j < rest.len() && rest[j] == items[other];
    assert(item_of_order(order_id)(rest[j]));
    lemma_find_first_some(rest, item_of_order(order_id), j);
    match find_first(items, line_of(order_id, menu_id)) {
        None => {
            assert(after[other] == items[other]);
        },
        Some(i) => {
            if items[i].quantity > 1 {
                assert(i != other);
                assert(after[other] == items[other]);
            } else {
                assert(after == rest);
            }
        },
    }
}

/// At most one line holds a pair of an order and a menu in a well-formed
/// store, and so after any sequence of submissions and removals.
pub proof fn law_one_line_per_pair(store: &Store, a: int, b: int)
    requires
        store.wf(),
        0 <= a < store.items().len(),
        0 <= b < store.items().len(),
        a != b,
    ensures
        !(store.items()[a].order_id == store.items()[b].order_id && store.items()[a].menu_id
            == store.items()[b].menu_id),
{
    let items = store.items();
    assert(store.items_wf());
    if a < b {
        assert(!(items[a].order_id == items[b].order_id && items[a].menu_id == items[b].menu_id));
    } else {
        assert(!(items[b].order_id == items[a].order_id && items[b].menu_id == items[a].menu_id));
    }
}

/// At most one order is open for a table in a well-formed store, and so after
/// any sequence of submissions and removals.
pub proof fn law_one_order_per_table(store: &Store, a: int, b: int)
    requires
        store.wf(),
        0 <= a < store.orders().len(),
        0 <= b < store.orders().len(),
        a != b,
    ensures
        store.orders()[a].table_id != store.orders()[b].table_id,
{
    assert(store.orders_wf());
    if a < b {
        assert(store.orders()[a].table_id != store.orders()[b].table_id);
    } else {
        assert(store.orders()[b].table_id != store.orders()[a].table_id);
    }
}

/// Removes one unit of a menu from the order that is open for a table. A line
/// with more than one unit loses one, and the share of one unit in its
/// cooking time. A line with one unit is removed, and the order with it where
/// no line is left. The store refuses nothing here, so the answer is never an
/// error.
pub fn remove_one_unit(store: &mut Store, table_id: i64, menu_id: i64) -> (r: Result<
    Outcome,
    Error,
>)
    requires
        old(store).wf(),
    ensures
        final(store).wf(),
        one_order_per_table(final(store).orders()),
        final(store).same_catalog(old(store)),
        final(store).next_order_id() == old(store).next_order_id(),
        final(store).next_item_id() == old(store).next_item_id(),
        r == Ok::<Outcome, Error>(
            removal_outcome(old(store).orders(), old(store).items(), table_id, menu_id),
        ),
        final(store).items() == items_after_removal(
            old(store).orders(),
            old(store).items(),
            table_id,
            menu_id,
        ),
        final(store).orders() == orders_after_removal(
            old(store).orders(),
            old(store).items(),
            table_id,
            menu_id,
        ),
        r == Ok::<Outcome, Error>(Outcome::NotFound) ==> final(store).same_as(old(store)),
        lines_unique(final(store).items()),
{
    let order_id: i64 = match store.find_open_order(table_id) {
        None => {
            return Ok(Outcome::NotFound);
        },
        Some(o) => o,
    };
    let item_id: i64 = match store.find_item(order_id, menu_id) {
        None => {
            return Ok(Outcome::NotFound);
        },
        Some(id) => id,
    };
    proof {
        lemma_find_first(store.items(), line_of(order_id, menu_id));
        let at = find_first(store.items(), line_of(order_id, menu_id)).unwrap();
        lemma_item_by_id(store, at);
    }
    if store.decrement_one_unit(item_id) {
        return Ok(Outcome::QuantityReduced);
    }
    let _ = store.delete_item(order_id, menu_id);
    match store.find_open_order(table_id) {
        None => Err(Error::StorageFailure),
        Some(open) => {
            if store.order_has_items(open) {
                Ok(Outcome::ItemRemoved)
            } else {
                proof {
                    let orders = store.orders();
                    let items = store.items();
                    lemma_find_first(orders, order_of_table(table_id));
                    let at = find_first(orders, order_of_table(table_id)).unwrap();
                    assert(store.orders_wf());
                    assert forall|j: int| 0 <= j < at implies !order_with_id(open)(
                        #[trigger] orders[j],
                    ) by {
                        assert(orders[j].id != orders[at].id);
                    }
                    lemma_find_first_at(orders, order_with_id(open), at);
                    lemma_find_first(items, item_of_order(open));
                    assert forall|j: int| 0 <= j < items.len() implies not_item_of_order(open)(
                        #[trigger] items[j],
                    ) by {
                        assert(!item_of_order(open)(items[j]));
                    }
                    lemma_filter_all(items, not_item_of_order(open));
                }
                let _ = store.delete_order(open);
                Ok(Outcome::ItemRemovedAndOrderClosed)
            }
        },
    }
}

} // verus!
