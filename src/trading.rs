use vstd::prelude::*;

use crate::constants::MAX_ORDERBOOK_LENGTH;
use crate::error::PredictionMarketError;
use crate::matching::{
    book_after_fills, copy_vec, crosses, fill_plan, filled_by, find_insert_position, insert_position,
    is_insert_position, opposite, owns, price_crosses, settle_fills, settle_match, settle_one, stats_index, is_first_owner, sum_fills,
};
use crate::state::{
    arrival_ordered, better_or_equal, lemma_resting_orders_wf_next, resting_orders_wf, sorted_for, AccountKey, Market, Order, OrderBook, OrderSide,
    TokenType, UserStats,
};

verus! {

/// What an order takes into custody when it is placed: the tokens offered
/// by a sell order, the full notional `quantity * price` of a buy order.
pub open spec fn custody_of(side: OrderSide, quantity: u64, price: u64) -> int {
    match side {
        OrderSide::Sell => quantity as int,
        OrderSide::Buy => quantity * price,
    }
}

/// The locked balance of `s` that an order of `side` in `token` adds to.
pub open spec fn locked_balance(s: UserStats, side: OrderSide, token: TokenType) -> int {
    match (side, token) {
        (OrderSide::Sell, TokenType::Yes) => s.locked_yes as int,
        (OrderSide::Sell, TokenType::No) => s.locked_no as int,
        (OrderSide::Buy, _) => s.locked_collateral as int,
    }
}

/// `s` with `amount` more locked by an order of `side` in `token`.
pub open spec fn lock_custody(s: UserStats, side: OrderSide, token: TokenType, amount: int) -> UserStats {
    match (side, token) {
        (OrderSide::Sell, TokenType::Yes) => UserStats { locked_yes: (s.locked_yes + amount) as u64, ..s },
        (OrderSide::Sell, TokenType::No) => UserStats { locked_no: (s.locked_no + amount) as u64, ..s },
        (OrderSide::Buy, _) => UserStats {
            locked_collateral: (s.locked_collateral + amount) as u64,
            ..s
        },
    }
}

/// The custody that a new order takes, or why it is refused before any
/// matching: the market must be open, quantity and price positive, the
/// notional of a buy order within `u64`, and the caller's `balance` of the
/// committed asset sufficient.
pub open spec fn placement_check(
    market: Market,
    side: OrderSide,
    quantity: u64,
    price: u64,
    balance: u64,
    now: i64,
) -> Result<u64, PredictionMarketError> {
    let custody = custody_of(side, quantity, price);
    if now >= market.settlement_deadline {
        Err(PredictionMarketError::MarketExpired)
    } else if market.is_settled {
        Err(PredictionMarketError::MarketAlreadySettled)
    } else if quantity == 0 {
        Err(PredictionMarketError::InvalidOrderQuantity)
    } else if price == 0 {
        Err(PredictionMarketError::InvalidOrderPrice)
    } else if side == OrderSide::Buy && quantity * price > u64::MAX {
        Err(PredictionMarketError::MathOverflow)
    } else if balance < custody {
        Err(PredictionMarketError::NotEnoughBalance)
    } else {
        Ok(custody as u64)
    }
}

/// The incoming order as it stands after matching.
pub open spec fn incoming_order(
    id: u64,
    market_id: u32,
    user: AccountKey,
    side: OrderSide,
    token: TokenType,
    price: u64,
    quantity: u64,
    filled: int,
    now: i64,
) -> Order {
    Order {
        id,
        market_id,
        user_key: user,
        side,
        token_type: token,
        price,
        quantity,
        filledquantity: filled as u64,
        timestamp: now,
    }
}

/// `own` with `o` placed after every order priced at least as well.
pub open spec fn with_remainder(own: Seq<Order>, o: Order) -> Seq<Order> {
    own.insert(insert_position(own, o.side, o.price), o)
}

/// A failure among the first matches is the failure of all of them.
proof fn lemma_settle_prefix_err(
    own: UserStats,
    recs: Seq<UserStats>,
    book: Seq<Order>,
    fills: Seq<int>,
    k: int,
    side: OrderSide,
    token: TokenType,
    market_id: u32,
)
    requires
        0 <= k <= fills.len(),
        settle_fills(own, recs, book, fills.take(k), side, token, market_id) is Err,
    ensures
        settle_fills(own, recs, book, fills, side, token, market_id) == settle_fills(
            own,
            recs,
            book,
            fills.take(k),
            side,
            token,
            market_id,
        ),
    decreases fills.len(),
{
    if k < fills.len() {
        assert(fills.drop_last().take(k) =~= fills.take(k));
        lemma_settle_prefix_err(own, recs, book, fills.drop_last(), k, side, token, market_id);
    } else {
        assert(fills.take(k) =~= fills);
    }
}

/// Taking fills from the front of a valid book leaves a valid book.
proof fn lemma_book_after_fills_wf(
    book: Seq<Order>,
    fills: Seq<int>,
    market_id: u32,
    token: TokenType,
    side: OrderSide,
    next_id: u64,
)
    requires
        resting_orders_wf(book, market_id, token, side, next_id),
        fills.len() <= book.len(),
        fills.len() > 0 ==> 0 < fills.last() <= book[fills.len() - 1].remaining(),
    ensures
        resting_orders_wf(book_after_fills(book, fills), market_id, token, side, next_id),
{
    let n = fills.len() as int;
    let r = book_after_fills(book, fills);
    if n > 0 {
        let off = if book[n - 1].filledquantity + fills[n - 1] == book[n - 1].quantity {
            n
        } else {
            n - 1
        };
        assert forall|i: int| 0 <= i < r.len() implies {
            &&& (#[trigger] r[i]).price == book[off + i].price
            &&& r[i].id == book[off + i].id
            &&& r[i].market_id == book[off + i].market_id
            &&& r[i].token_type == book[off + i].token_type
            &&& r[i].side == book[off + i].side
            &&& r[i].quantity == book[off + i].quantity
            &&& r[i].filledquantity < r[i].quantity
        } by {
            if off == n || i > 0 {
                assert(r[i] == book[off + i]);
            }
        }
        assert forall|i: int, j: int| 0 <= i < j < r.len() implies better_or_equal(
            side,
            r[i].price,
            r[j].price,
        ) by {
            assert(r[i].price == book[off + i].price);
            assert(r[j].price == book[off + j].price);
        }
        assert forall|i: int, j: int|
            0 <= i < j < r.len() && r[i].price == r[j].price implies r[i].id < r[j].id by {
            assert(r[i].price == book[off + i].price && r[i].id == book[off + i].id);
            assert(r[j].price == book[off + j].price && r[j].id == book[off + j].id);
        }
        assert(sorted_for(side, r));
        assert(arrival_ordered(r));
    }
}

/// Placing an order numbered `next_id` where `insert_position` puts it
/// keeps a valid book valid, with the counter moved past it.
proof fn lemma_insert_wf(own: Seq<Order>, o: Order, p: int, market_id: u32, next_id: u64)
    requires
        resting_orders_wf(own, market_id, o.token_type, o.side, next_id),
        own.len() < MAX_ORDERBOOK_LENGTH,
        is_insert_position(own, o.side, o.price, p),
        o.market_id == market_id,
        o.price > 0,
        o.filledquantity < o.quantity,
        o.id == next_id,
        next_id < u64::MAX,
    ensures
        resting_orders_wf(own.insert(p, o), market_id, o.token_type, o.side, (next_id + 1) as u64),
{
    let r = own.insert(p, o);
    let side = o.side;
    assert forall|i: int, j: int| 0 <= i < j < r.len() implies better_or_equal(
        side,
        r[i].price,
        r[j].price,
    ) && (r[i].price == r[j].price ==> r[i].id < r[j].id) by {
        if j < p {
            assert(r[i] == own[i] && r[j] == own[j]);
        } else if j == p {
            assert(r[i] == own[i]);
        } else if i < p {
            assert(r[i] == own[i] && r[j] == own[j - 1]);
            assert(better_or_equal(side, own[i].price, own[j - 1].price));
        } else if i == p {
            assert(r[j] == own[j - 1]);
            assert(!better_or_equal(side, own[p].price, o.price));
            if j - 1 > p {
                assert(better_or_equal(side, own[p].price, own[j - 1].price));
            }
        } else {
            assert(r[i] == own[i - 1] && r[j] == own[j - 1]);
        }
    }
    assert(sorted_for(side, r));
    assert(arrival_ordered(r));
    assert forall|i: int| 0 <= i < r.len() implies {
        &&& (#[trigger] r[i]).market_id == market_id
        &&& r[i].token_type == o.token_type
        &&& r[i].side == side
        &&& r[i].price > 0
        &&& r[i].filledquantity < r[i].quantity
        &&& r[i].id < next_id + 1
    } by {
        if i < p {
            assert(r[i] == own[i]);
        } else if i > p {
            assert(r[i] == own[i - 1]);
        }
    }
}

/// The resting orders once the first `n` took fills, the last of them
/// `last_fill`.
fn rest_of_book(opp: &Vec<Order>, n: usize, last_fill: u64, fills: Ghost<Seq<int>>) -> (rest: Vec<Order>)
    requires
        n <= opp@.len(),
        fills@.len() == n,
        n > 0 ==> last_fill == fills@[n - 1] && last_fill <= opp@[n - 1].remaining(),
        n > 0 ==> opp@[n - 1].filledquantity <= opp@[n - 1].quantity,
    ensures
        rest@ == book_after_fills(opp@, fills@),
{
    let mut rest: Vec<Order> = Vec::new();
    if n > 0 {
        let last = opp[n - 1];
        if last.filledquantity + last_fill < last.quantity {
            rest.push(
                Order {
                    id: last.id,
                    market_id: last.market_id,
                    user_key: last.user_key,
                    side: last.side,
                    token_type: last.token_type,
                    price: last.price,
                    quantity: last.quantity,
                    filledquantity: last.filledquantity + last_fill,
                    timestamp: last.timestamp,
                },
            );
        }
    }
    let ghost head = rest@;
    let mut j: usize = n;
    while j < opp.len()
        invariant
            n <= j <= opp@.len(),
            rest@ == head + opp@.subrange(n as int, j as int),
        decreases opp@.len() - j,
    {
        rest.push(opp[j]);
        j = j + 1;
        proof {
            assert(rest@ =~= head + opp@.subrange(n as int, j as int));
        }
    }
    proof {
        assert(opp@.subrange(n as int, opp@.len() as int) =~= opp@.skip(n as int));
        if n > 0 && opp@[n - 1].filledquantity + last_fill != opp@[n - 1].quantity {
            assert(opp@.skip(n - 1).update(0, filled_by(opp@[n - 1], fills@[n - 1])) =~= rest@);
        } else {
            assert(head =~= Seq::<Order>::empty());
            assert(rest@ =~= opp@.skip(n as int));
        }
    }
    rest
}

/// Matches an incoming order of `side` for `quantity` units at `price`
/// against the resting orders `opp`, settling each match into `own` and
/// `recs`. On success the result is the quantity filled and the resting
/// orders that remain.
fn match_incoming(
    opp: &Vec<Order>,
    own: &mut UserStats,
    recs: &mut Vec<UserStats>,
    side: OrderSide,
    token_type: TokenType,
    price: u64,
    quantity: u64,
    max_iteration: u64,
    market_id: u32,
    next_id: u64,
) -> (r: Result<(u64, Vec<Order>), PredictionMarketError>)
    requires
        resting_orders_wf(opp@, market_id, token_type, opposite(side), next_id),
    ensures
        ({
            let fills = fill_plan(opp@, side, price, quantity as int, max_iteration as int + 1);
            match settle_fills(*old(own), old(recs)@, opp@, fills, side, token_type, market_id) {
                Ok((s, rs)) => {
                    &&& r is Ok
                    &&& r->Ok_0.0 == sum_fills(fills)
                    &&& r->Ok_0.1@ == book_after_fills(opp@, fills)
                    &&& *final(own) == s
                    &&& final(recs)@ == rs
                },
                Err(e) => r == Err::<(u64, Vec<Order>), _>(e),
            }
        }),
        r matches Ok((filled, rest)) ==> filled <= quantity && resting_orders_wf(
            rest@,
            market_id,
            token_type,
            opposite(side),
            next_id,
        ),
{
    let ghost start_own = *own;
    let ghost start_recs = recs@;
    let ghost rounds = max_iteration as int + 1;
    let ghost plan = fill_plan(opp@, side, price, quantity as int, rounds);
    let ghost mut fills: Seq<int> = Seq::empty();
    let mut i: usize = 0;
    let mut filled: u64 = 0;
    let mut last_fill: u64 = 0;
    assert(opp@.skip(0) =~= opp@);
    assert(fills + plan =~= plan);
    while i < opp.len() && filled < quantity && (i as u64) <= max_iteration && price_crosses(
        side,
        price,
        opp[i].price,
    )
        invariant
            resting_orders_wf(opp@, market_id, token_type, opposite(side), next_id),
            start_own == *old(own),
            start_recs == old(recs)@,
            plan == fill_plan(opp@, side, price, quantity as int, rounds),
            rounds == max_iteration as int + 1,
            0 <= i <= opp@.len(),
            fills.len() == i,
            filled == sum_fills(fills),
            filled <= quantity,
            i > 0 ==> last_fill == fills[i - 1] && 0 < last_fill <= opp@[i - 1].remaining(),
            plan == fills + fill_plan(
                opp@.skip(i as int),
                side,
                price,
                quantity - filled,
                rounds - i,
            ),
            settle_fills(start_own, start_recs, opp@, fills, side, token_type, market_id) == Ok::<
                (UserStats, Seq<UserStats>),
                PredictionMarketError,
            >((*own, recs@)),
        decreases opp@.len() - i,
    {
        let resting = opp[i];
        let remaining = resting.quantity - resting.filledquantity;
        let want = quantity - filled;
        let f = if want <= remaining {
            want
        } else {
            remaining
        };
        let ghost tail = opp@.skip(i as int);
        let ghost next = fills.push(f as int);
        proof {
            assert(tail[0] == resting);
            assert(tail.skip(1) =~= opp@.skip(i + 1));
            assert(next.drop_last() =~= fills);
            assert(plan =~= next + fill_plan(
                opp@.skip(i + 1),
                side,
                price,
                quantity - filled - f,
                rounds - i - 1,
            ));
        }
        let settled = settle_match(own, recs, &resting, f, side, token_type, market_id);
        match settled {
            Ok(()) => {},
            Err(e) => {
                proof {
                    assert(plan.take(i + 1) =~= next);
                    lemma_settle_prefix_err(
                        start_own,
                        start_recs,
                        opp@,
                        plan,
                        i + 1,
                        side,
                        token_type,
                        market_id,
                    );
                }
                return Err(e);
            },
        }
        proof {
            fills = next;
        }
        filled = filled + f;
        last_fill = f;
        i = i + 1;
    }
    proof {
        if i < opp@.len() {
            assert(opp@.skip(i as int)[0] == opp@[i as int]);
        }
        assert(fill_plan(opp@.skip(i as int), side, price, quantity - filled, rounds - i)
            =~= Seq::<int>::empty());
        assert(plan =~= fills);
    }
    let rest = rest_of_book(opp, i, last_fill, Ghost(fills));
    proof {
        lemma_book_after_fills_wf(opp@, fills, market_id, token_type, opposite(side), next_id);
    }
    Ok((filled, rest))
}

/// A copy of `stats` with `custody` more locked for an order of `side` in
/// `token`.
fn lock_for_order(stats: &UserStats, side: OrderSide, token: TokenType, custody: u64) -> (r: Result<
    UserStats,
    PredictionMarketError,
>)
    ensures
        locked_balance(*stats, side, token) + custody > u64::MAX ==> r == Err::<UserStats, _>(
            PredictionMarketError::MathOverflow,
        ),
        locked_balance(*stats, side, token) + custody <= u64::MAX ==> r == Ok::<
            UserStats,
            PredictionMarketError,
        >(lock_custody(*stats, side, token, custody as int)),
{
    let mut s = *stats;
    match (side, token) {
        (OrderSide::Sell, TokenType::Yes) => {
            s.locked_yes = match s.locked_yes.checked_add(custody) {
                Some(v) => v,
                None => return Err(PredictionMarketError::MathOverflow),
            };
        },
        (OrderSide::Sell, TokenType::No) => {
            s.locked_no = match s.locked_no.checked_add(custody) {
                Some(v) => v,
                None => return Err(PredictionMarketError::MathOverflow),
            };
        },
        (OrderSide::Buy, _) => {
            s.locked_collateral = match s.locked_collateral.checked_add(custody) {
                Some(v) => v,
                None => return Err(PredictionMarketError::MathOverflow),
            };
        },
    }
    Ok(s)
}

/// Places an order of `side` for `quantity` units of `token_type` at limit
/// `price`, on behalf of `user`, whose `balance` of the committed asset
/// (outcome tokens for a sell, collateral for a buy) is given.
///
/// The order takes its custody, is matched against the opposite side of the
/// same token (best price first, at the resting order's price, for at most
/// `max_iteration + 1` matches), and what is left of it rests on its own
/// side. The buyer of each match is owed the tokens and the seller the
/// collateral; the records of the resting orders' owners are looked up in
/// `counterparties`. On success the result is the custody that the caller
/// moves into escrow; on failure nothing changes.
pub fn place_order(
    market: &Market,
    orderbook: &mut OrderBook,
    user_stats: &mut UserStats,
    counterparties: &mut Vec<UserStats>,
    user: AccountKey,
    side: OrderSide,
    token_type: TokenType,
    quantity: u64,
    max_iteration: u64,
    price: u64,
    balance: u64,
    now: i64,
) -> (r: Result<u64, PredictionMarketError>)
    requires
        old(orderbook).wf(),
    ensures
        ({
            let market_id = old(orderbook).market_id;
            let opp = old(orderbook).orders(token_type, opposite(side));
            let own = old(orderbook).orders(token_type, side);
            let fills = fill_plan(opp, side, price, quantity as int, max_iteration as int + 1);
            let filled = sum_fills(fills);
            let order = incoming_order(
                old(orderbook).next_order_id,
                market_id,
                user,
                side,
                token_type,
                price,
                quantity,
                filled,
                now,
            );
            match placement_check(*market, side, quantity, price, balance, now) {
                Err(e) => r == Err::<u64, _>(e),
                Ok(custody) => match settle_fills(
                    *old(user_stats),
                    old(counterparties)@,
                    opp,
                    fills,
                    side,
                    token_type,
                    market_id,
                ) {
                    Err(e) => r == Err::<u64, _>(e),
                    Ok((stats, recs)) => if locked_balance(stats, side, token_type) + custody
                        > u64::MAX {
                        r == Err::<u64, _>(PredictionMarketError::MathOverflow)
                    } else if old(orderbook).next_order_id == u64::MAX {
                        r == Err::<u64, _>(PredictionMarketError::MathOverflow)
                    } else if filled < quantity && own.len() >= MAX_ORDERBOOK_LENGTH {
                        r == Err::<u64, _>(PredictionMarketError::MaxOrdersReached)
                    } else {
                        &&& r == Ok::<u64, PredictionMarketError>(custody)
                        &&& *final(user_stats) == lock_custody(stats, side, token_type, custody as int)
                        &&& final(counterparties)@ == recs
                        &&& final(orderbook).orders(token_type, opposite(side)) == book_after_fills(
                            opp,
                            fills,
                        )
                        &&& final(orderbook).orders(token_type, side) == if filled < quantity {
                            with_remainder(own, order)
                        } else {
                            own
                        }
                        &&& final(orderbook).next_order_id == old(orderbook).next_order_id + 1
                    },
                },
            }
        }),
        r is Err ==> {
            &&& *final(orderbook) == *old(orderbook)
            &&& *final(user_stats) == *old(user_stats)
            &&& final(counterparties)@ == old(counterparties)@
        },
        forall|t: TokenType, s: OrderSide|
            t != token_type ==> #[trigger] final(orderbook).orders(t, s) == old(orderbook).orders(t, s),
        final(orderbook).market_id == old(orderbook).market_id,
        final(orderbook).bump == old(orderbook).bump,
        final(orderbook).wf(),
{
    if now >= market.settlement_deadline {
        return Err(PredictionMarketError::MarketExpired);
    }
    if market.is_settled {
        return Err(PredictionMarketError::MarketAlreadySettled);
    }
    if quantity == 0 {
        return Err(PredictionMarketError::InvalidOrderQuantity);
    }
    if price == 0 {
        return Err(PredictionMarketError::InvalidOrderPrice);
    }
    let custody = match side {
        OrderSide::Sell => quantity,
        OrderSide::Buy => match quantity.checked_mul(price) {
            Some(v) => v,
            None => return Err(PredictionMarketError::MathOverflow),
        },
    };
    if balance < custody {
        return Err(PredictionMarketError::NotEnoughBalance);
    }
    let market_id = orderbook.market_id;
    let next_id = orderbook.next_order_id;
    let opp_side = match side {
        OrderSide::Buy => OrderSide::Sell,
        OrderSide::Sell => OrderSide::Buy,
    };
    proof {
        old(orderbook).lemma_wf_by_sides();
    }
    let mut settled = *user_stats;
    let mut recs = copy_vec(counterparties);
    let (filled, rest) = match_incoming(
        orderbook.side_orders(token_type, opp_side),
        &mut settled,
        &mut recs,
        side,
        token_type,
        price,
        quantity,
        max_iteration,
        market_id,
        next_id,
    )?;
    let stats = lock_for_order(&settled, side, token_type, custody)?;
    if next_id == u64::MAX {
        return Err(PredictionMarketError::MathOverflow);
    }
    let ghost before = *orderbook;
    let ghost rest_view = rest@;
    if filled < quantity {
        let own = orderbook.side_orders(token_type, side);
        if own.len() >= MAX_ORDERBOOK_LENGTH as usize {
            return Err(PredictionMarketError::MaxOrdersReached);
        }
        let order = Order {
            id: next_id,
            market_id,
            user_key: user,
            side,
            token_type,
            price,
            quantity,
            filledquantity: filled,
            timestamp: now,
        };
        let pos = find_insert_position(own, side, price);
        let mut placed = copy_vec(own);
        placed.insert(pos, order);
        proof {
            lemma_insert_wf(own@, order, pos as int, market_id, next_id);
        }
        orderbook.set_side_orders(token_type, side, placed);
    }
    let ghost middle = *orderbook;
    orderbook.set_side_orders(token_type, opp_side, rest);
    let ghost after = *orderbook;
    orderbook.next_order_id = next_id + 1;
    proof {
        assert forall|t: TokenType, s: OrderSide| #[trigger]
            orderbook.orders(t, s) == after.orders(t, s) by {}
        assert forall|t: TokenType, s: OrderSide|
            t != token_type implies #[trigger] orderbook.orders(t, s) == before.orders(t, s) by {
            assert(after.orders(t, s) == middle.orders(t, s));
            assert(middle.orders(t, s) == before.orders(t, s));
        }
        assert(after.orders(token_type, side) == middle.orders(token_type, side));
        assert(orderbook.orders(token_type, opp_side) == rest_view);
        assert forall|t: TokenType, s: OrderSide|
            resting_orders_wf(
                #[trigger] orderbook.orders(t, s),
                orderbook.market_id,
                t,
                s,
                orderbook.next_order_id,
            ) by {
            if t != token_type {
                assert(orderbook.orders(t, s) == before.orders(t, s));
                assert(resting_orders_wf(before.orders(t, s), market_id, t, s, next_id));
                lemma_resting_orders_wf_next(before.orders(t, s), market_id, t, s, next_id, orderbook.next_order_id);
            } else if s == opp_side {
                lemma_resting_orders_wf_next(rest_view, market_id, t, s, next_id, orderbook.next_order_id);
            } else if filled >= quantity {
                assert(orderbook.orders(t, s) == before.orders(t, s));
                assert(resting_orders_wf(before.orders(t, s), market_id, t, s, next_id));
                lemma_resting_orders_wf_next(before.orders(t, s), market_id, t, s, next_id, orderbook.next_order_id);
            }
        }
        orderbook.lemma_wf_by_sides();
    }
    *user_stats = stats;
    *counterparties = recs;
    Ok(custody)
}

/// `k` is the first position of the order numbered `id` in `orders`.
pub open spec fn is_first_with_id(orders: Seq<Order>, id: u64, k: int) -> bool {
    &&& 0 <= k < orders.len()
    &&& orders[k].id == id
    &&& forall|j: int| 0 <= j < k ==> (#[trigger] orders[j]).id != id
}

/// The position of the order numbered `id` in `orders`, or -1.
pub open spec fn order_index(orders: Seq<Order>, id: u64) -> int {
    if exists|k: int| is_first_with_id(orders, id, k) {
        choose|k: int| is_first_with_id(orders, id, k)
    } else {
        -1
    }
}

/// What cancelling `o` hands back: its unfilled tokens for a sell order, the
/// collateral for its unfilled quantity at its price for a buy order.
pub open spec fn refund_of(o: Order) -> int {
    match o.side {
        OrderSide::Sell => o.remaining(),
        OrderSide::Buy => o.remaining() * o.price,
    }
}

/// `s` with `amount` less locked by an order of `side` in `token`.
pub open spec fn unlock_custody(s: UserStats, side: OrderSide, token: TokenType, amount: int) -> UserStats {
    match (side, token) {
        (OrderSide::Sell, TokenType::Yes) => UserStats { locked_yes: (s.locked_yes - amount) as u64, ..s },
        (OrderSide::Sell, TokenType::No) => UserStats { locked_no: (s.locked_no - amount) as u64, ..s },
        (OrderSide::Buy, _) => UserStats {
            locked_collateral: (s.locked_collateral - amount) as u64,
            ..s
        },
    }
}

/// The refund for cancelling order `order_id` of `user` from one side of
/// one token, or why it is refused.
pub open spec fn cancel_outcome(
    orders: Seq<Order>,
    stats: UserStats,
    user: AccountKey,
    side: OrderSide,
    token: TokenType,
    order_id: u64,
) -> Result<u64, PredictionMarketError> {
    let k = order_index(orders, order_id);
    if k < 0 {
        Err(PredictionMarketError::OrderNotFound)
    } else if orders[k].user_key@ != user@ {
        Err(PredictionMarketError::NotOrderOwner)
    } else if refund_of(orders[k]) > u64::MAX {
        Err(PredictionMarketError::MathOverflow)
    } else if locked_balance(stats, side, token) < refund_of(orders[k]) {
        Err(PredictionMarketError::MathOverflow)
    } else {
        Ok(refund_of(orders[k]) as u64)
    }
}

/// No two positions are both the first order with one id.
proof fn lemma_first_with_id_unique(orders: Seq<Order>, id: u64, k: int)
    requires
        is_first_with_id(orders, id, k),
    ensures
        order_index(orders, id) == k,
{
    let c = order_index(orders, id);
    assert(is_first_with_id(orders, id, c));
    if c < k {
        assert(orders[c].id != id);
    } else if k < c {
        assert(orders[k].id != id);
    }
}

/// Finds the order numbered `id`.
fn find_order(orders: &Vec<Order>, id: u64) -> (r: Option<usize>)
    ensures
        match r {
            Some(k) => k == order_index(orders@, id),
            None => order_index(orders@, id) == -1,
        },
{
    let mut i: usize = 0;
    while i < orders.len()
        invariant
            0 <= i <= orders@.len(),
            forall|j: int| 0 <= j < i ==> (#[trigger] orders@[j]).id != id,
        decreases orders@.len() - i,
    {
        if orders[i].id == id {
            proof {
                lemma_first_with_id_unique(orders@, id, i as int);
            }
            return Some(i);
        }
        i = i + 1;
    }
    proof {
        if exists|k: int| is_first_with_id(orders@, id, k) {
            let k = choose|k: int| is_first_with_id(orders@, id, k);
            assert(orders@[k].id == id);
        }
    }
    None
}

/// Cancels the resting order `order_id` of `user` on one side of one token:
/// the order leaves the book and what it still holds in custody is unlocked
/// in `user_stats`. On success the result is the refund that the caller
/// moves out of escrow back to the user; on failure nothing changes.
pub fn cancel_order(
    orderbook: &mut OrderBook,
    user_stats: &mut UserStats,
    user: AccountKey,
    side: OrderSide,
    token_type: TokenType,
    order_id: u64,
) -> (r: Result<u64, PredictionMarketError>)
    requires
        old(orderbook).wf(),
    ensures
        r == cancel_outcome(
            old(orderbook).orders(token_type, side),
            *old(user_stats),
            user,
            side,
            token_type,
            order_id,
        ),
        match r {
            Ok(refund) => {
                let orders = old(orderbook).orders(token_type, side);
                &&& final(orderbook).orders(token_type, side) == orders.remove(
                    order_index(orders, order_id),
                )
                &&& *final(user_stats) == unlock_custody(*old(user_stats), side, token_type, refund as int)
                &&& forall|t: TokenType, s: OrderSide|
                    (t != token_type || s != side) ==> #[trigger] final(orderbook).orders(t, s)
                        == old(orderbook).orders(t, s)
                &&& final(orderbook).market_id == old(orderbook).market_id
                &&& final(orderbook).next_order_id == old(orderbook).next_order_id
                &&& final(orderbook).bump == old(orderbook).bump
            },
            Err(_) => *final(orderbook) == *old(orderbook) && *final(user_stats) == *old(user_stats),
        },
        final(orderbook).wf(),
{
    let orders = orderbook.side_orders(token_type, side);
    let k = match find_order(orders, order_id) {
        Some(k) => k,
        None => return Err(PredictionMarketError::OrderNotFound),
    };
    let o = orders[k];
    if !(o.user_key == user) {
        return Err(PredictionMarketError::NotOrderOwner);
    }
    proof {
        old(orderbook).lemma_wf_by_sides();
        assert(resting_orders_wf(orders@, orderbook.market_id, token_type, side, orderbook.next_order_id));
        assert(orders@[k as int].filledquantity < orders@[k as int].quantity);
    }
    let remaining = o.quantity - o.filledquantity;
    let refund = match side {
        OrderSide::Sell => remaining,
        OrderSide::Buy => match remaining.checked_mul(o.price) {
            Some(v) => v,
            None => return Err(PredictionMarketError::MathOverflow),
        },
    };
    let mut stats = *user_stats;
    match (side, token_type) {
        (OrderSide::Sell, TokenType::Yes) => {
            stats.locked_yes = match stats.locked_yes.checked_sub(refund) {
                Some(v) => v,
                None => return Err(PredictionMarketError::MathOverflow),
            };
        },
        (OrderSide::Sell, TokenType::No) => {
            stats.locked_no = match stats.locked_no.checked_sub(refund) {
                Some(v) => v,
                None => return Err(PredictionMarketError::MathOverflow),
            };
        },
        (OrderSide::Buy, _) => {
            stats.locked_collateral = match stats.locked_collateral.checked_sub(refund) {
                Some(v) => v,
                None => return Err(PredictionMarketError::MathOverflow),
            };
        },
    }
    let mut kept = copy_vec(orders);
    kept.remove(k);
    let ghost before = *orderbook;
    proof {
        let s = orders@;
        let r = kept@;
        assert(r =~= s.remove(k as int));
        assert forall|i: int, j: int| 0 <= i < j < r.len() implies better_or_equal(
            side,
            r[i].price,
            r[j].price,
        ) && (r[i].price == r[j].price ==> r[i].id < r[j].id) by {
            let a = if i < k { i } else { i + 1 };
            let b = if j < k { j } else { j + 1 };
            assert(r[i] == s[a] && r[j] == s[b]);
        }
        assert forall|i: int| 0 <= i < r.len() implies {
            &&& (#[trigger] r[i]).market_id == orderbook.market_id
            &&& r[i].token_type == token_type
            &&& r[i].side == side
            &&& r[i].price > 0
            &&& r[i].filledquantity < r[i].quantity
            &&& r[i].id < orderbook.next_order_id
        } by {
            if i < k {
                assert(r[i] == s[i]);
            } else {
                assert(r[i] == s[i + 1]);
            }
        }
    }
    orderbook.set_side_orders(token_type, side, kept);
    proof {
        before.lemma_wf_by_sides();
        assert forall|t: TokenType, s: OrderSide|
            resting_orders_wf(
                #[trigger] orderbook.orders(t, s),
                orderbook.market_id,
                t,
                s,
                orderbook.next_order_id,
            ) by {
            if t != token_type || s != side {
                assert(orderbook.orders(t, s) == before.orders(t, s));
            }
        }
        orderbook.lemma_wf_by_sides();
    }
    *user_stats = stats;
    Ok(refund)
}

/// Cancelling an order that nothing has filled gives back exactly the
/// custody that placing it locked: the caller's record returns to what it
/// was before the order was placed.
pub proof fn lemma_cancel_undoes_placement(
    s: UserStats,
    id: u64,
    market_id: u32,
    user: AccountKey,
    side: OrderSide,
    token: TokenType,
    price: u64,
    quantity: u64,
    now: i64,
)
    requires
        quantity * price <= u64::MAX,
        locked_balance(s, side, token) + custody_of(side, quantity, price) <= u64::MAX,
    ensures
        ({
            let custody = custody_of(side, quantity, price);
            let order = incoming_order(id, market_id, user, side, token, price, quantity, 0, now);
            &&& refund_of(order) == custody
            &&& unlock_custody(lock_custody(s, side, token, custody), side, token, refund_of(order)) == s
        }),
{
    assert(0 <= quantity * price) by (nonlinear_arith);
}

/// When the best resting order on the opposite side crosses the incoming
/// limit and no record of its owner was supplied, settlement fails with the
/// error that names the missing record, before any other failure of the
/// matching; with `place_order`'s contract the whole placement then fails
/// and changes nothing.
pub proof fn lemma_missing_counterparty_fails(
    own: UserStats,
    recs: Seq<UserStats>,
    opp: Seq<Order>,
    side: OrderSide,
    token: TokenType,
    price: u64,
    quantity: u64,
    max_iteration: u64,
    market_id: u32,
)
    requires
        quantity > 0,
        opp.len() > 0,
        opp[0].filledquantity < opp[0].quantity,
        crosses(side, price, opp[0].price),
        forall|j: int| 0 <= j < recs.len() ==> !owns(#[trigger] recs[j], opp[0].user_key, market_id),
    ensures
        settle_fills(
            own,
            recs,
            opp,
            fill_plan(opp, side, price, quantity as int, max_iteration as int + 1),
            side,
            token,
            market_id,
        ) == Err::<(UserStats, Seq<UserStats>), PredictionMarketError>(
            match side {
                OrderSide::Buy => PredictionMarketError::SellerStatsAccountNotProvided,
                OrderSide::Sell => PredictionMarketError::BuyerStatsAccountNotProvided,
            },
        ),
{
    let plan = fill_plan(opp, side, price, quantity as int, max_iteration as int + 1);
    let first = plan.take(1);
    assert(plan.len() >= 1);
    assert(first.drop_last() =~= Seq::<int>::empty());
    assert(first[0] == plan[0]);
    if exists|c: int| is_first_owner(recs, opp[0].user_key, market_id, c) {
        let c = choose|c: int| is_first_owner(recs, opp[0].user_key, market_id, c);
        assert(owns(recs[c], opp[0].user_key, market_id));
    }
    assert(stats_index(recs, opp[0].user_key, market_id) == -1);
    assert(first.len() == 1);
    assert(settle_fills(own, recs, opp, first.drop_last(), side, token, market_id) == Ok::<
        (UserStats, Seq<UserStats>),
        PredictionMarketError,
    >((own, recs)));
    assert(settle_fills(own, recs, opp, first, side, token, market_id) == settle_one(
        own,
        recs,
        opp[0],
        first.last(),
        side,
        token,
        market_id,
    ));
    lemma_settle_prefix_err(own, recs, opp, plan, 1, side, token, market_id);
}

} // verus!
