use vstd::prelude::*;

use crate::error::PredictionMarketError;
use crate::state::{better_or_equal, AccountKey, Order, OrderSide, TokenType, UserStats};

verus! {

/// The side that an order of `side` trades against.
pub open spec fn opposite(side: OrderSide) -> OrderSide {
    match side {
        OrderSide::Buy => OrderSide::Sell,
        OrderSide::Sell => OrderSide::Buy,
    }
}

/// An incoming order of `side` with limit `price` trades with a resting
/// order priced `resting_price`: a bid takes asks at or below its limit, an
/// ask takes bids at or above it.
pub open spec fn crosses(side: OrderSide, price: u64, resting_price: u64) -> bool {
    match side {
        OrderSide::Buy => price >= resting_price,
        OrderSide::Sell => price <= resting_price,
    }
}

/// The quantities that an incoming order wanting `want` more units fills
/// against the resting orders `book`, best first. Each match fills as much
/// as both orders allow; matching stops once the incoming order is filled,
/// the book is exhausted, `rounds` matches have been made, or the next
/// resting price does not cross.
pub open spec fn fill_plan(book: Seq<Order>, side: OrderSide, price: u64, want: int, rounds: int) -> Seq<int>
    decreases book.len(),
{
    if book.len() == 0 || want <= 0 || rounds <= 0 || !crosses(side, price, book[0].price) {
        Seq::empty()
    } else {
        let f = if want <= book[0].remaining() {
            want
        } else {
            book[0].remaining()
        };
        seq![f] + fill_plan(book.skip(1), side, price, want - f, rounds - 1)
    }
}

/// The sum of a sequence of quantities.
pub open spec fn sum_fills(fills: Seq<int>) -> int
    decreases fills.len(),
{
    if fills.len() == 0 {
        0
    } else {
        sum_fills(fills.drop_last()) + fills.last()
    }
}

/// `o` after `f` more of it has been filled.
pub open spec fn filled_by(o: Order, f: int) -> Order {
    Order { filledquantity: (o.filledquantity + f) as u64, ..o }
}

/// The resting orders after the front of `book` took the fills `fills`:
/// the orders that were filled completely leave, and an order filled only in
/// part keeps its place with its new filled quantity.
pub open spec fn book_after_fills(book: Seq<Order>, fills: Seq<int>) -> Seq<Order> {
    let n = fills.len() as int;
    if n == 0 {
        book
    } else if book[n - 1].filledquantity + fills[n - 1] == book[n - 1].quantity {
        book.skip(n)
    } else {
        book.skip(n - 1).update(0, filled_by(book[n - 1], fills[n - 1]))
    }
}

/// Record `s` belongs to the user `key` in the market `market_id`.
pub open spec fn owns(s: UserStats, key: AccountKey, market_id: u32) -> bool {
    s.user@ == key@ && s.market_id == market_id
}

/// `k` is the first position of a record of `key` in `recs`.
pub open spec fn is_first_owner(recs: Seq<UserStats>, key: AccountKey, market_id: u32, k: int) -> bool {
    &&& 0 <= k < recs.len()
    &&& owns(recs[k], key, market_id)
    &&& forall|j: int| 0 <= j < k ==> !owns(#[trigger] recs[j], key, market_id)
}

/// The position of the record of `key` among the supplied records, or -1
/// when none was supplied.
pub open spec fn stats_index(recs: Seq<UserStats>, key: AccountKey, market_id: u32) -> int {
    if exists|k: int| is_first_owner(recs, key, market_id, k) {
        choose|k: int| is_first_owner(recs, key, market_id, k)
    } else {
        -1
    }
}

/// The claimable balance of outcome token `token` in `s`.
pub open spec fn claimable_tokens(s: UserStats, token: TokenType) -> int {
    match token {
        TokenType::Yes => s.claimable_yes as int,
        TokenType::No => s.claimable_no as int,
    }
}

/// `s` owed `qty` more units of `token`.
pub open spec fn credit_tokens(s: UserStats, token: TokenType, qty: int) -> UserStats {
    match token {
        TokenType::Yes => UserStats { claimable_yes: (s.claimable_yes + qty) as u64, ..s },
        TokenType::No => UserStats { claimable_no: (s.claimable_no + qty) as u64, ..s },
    }
}

/// `s` owed `value` more units of collateral.
pub open spec fn credit_collateral(s: UserStats, value: int) -> UserStats {
    UserStats { claimable_collateral: (s.claimable_collateral + value) as u64, ..s }
}

/// Settles one match of `qty` units at the resting order's price. The buyer
/// is owed `qty` tokens and the seller `qty * resting.price` collateral; the
/// incoming order's owner is `own`, the resting order's owner is found by key
/// among `recs`. Fails when the resting owner's record was not supplied, and
/// otherwise when a sum leaves `u64`.
pub open spec fn settle_one(
    own: UserStats,
    recs: Seq<UserStats>,
    resting: Order,
    qty: int,
    side: OrderSide,
    token: TokenType,
    market_id: u32,
) -> Result<(UserStats, Seq<UserStats>), PredictionMarketError> {
    let value = qty * resting.price;
    let k = stats_index(recs, resting.user_key, market_id);
    if k < 0 {
        match side {
            OrderSide::Buy => Err(PredictionMarketError::SellerStatsAccountNotProvided),
            OrderSide::Sell => Err(PredictionMarketError::BuyerStatsAccountNotProvided),
        }
    } else if value > u64::MAX {
        Err(PredictionMarketError::MathOverflow)
    } else {
        match side {
            OrderSide::Buy => if claimable_tokens(own, token) + qty > u64::MAX {
                Err(PredictionMarketError::MathOverflow)
            } else if recs[k].claimable_collateral + value > u64::MAX {
                Err(PredictionMarketError::MathOverflow)
            } else {
                Ok((credit_tokens(own, token, qty), recs.update(k, credit_collateral(recs[k], value))))
            },
            OrderSide::Sell => if own.claimable_collateral + value > u64::MAX {
                Err(PredictionMarketError::MathOverflow)
            } else if claimable_tokens(recs[k], token) + qty > u64::MAX {
                Err(PredictionMarketError::MathOverflow)
            } else {
                Ok((credit_collateral(own, value), recs.update(k, credit_tokens(recs[k], token, qty))))
            },
        }
    }
}

/// Settles the matches `fills` against the front of `book`, in order,
/// stopping at the first failure.
pub open spec fn settle_fills(
    own: UserStats,
    recs: Seq<UserStats>,
    book: Seq<Order>,
    fills: Seq<int>,
    side: OrderSide,
    token: TokenType,
    market_id: u32,
) -> Result<(UserStats, Seq<UserStats>), PredictionMarketError>
    decreases fills.len(),
{
    if fills.len() == 0 {
        Ok((own, recs))
    } else {
        match settle_fills(own, recs, book, fills.drop_last(), side, token, market_id) {
            Ok((own1, recs1)) => settle_one(
                own1,
                recs1,
                book[fills.len() - 1],
                fills.last(),
                side,
                token,
                market_id,
            ),
            Err(e) => Err(e),
        }
    }
}

/// `p` is where a new order priced `price` joins `orders`: after every order
/// priced at least as well, before the first one priced worse.
pub open spec fn is_insert_position(orders: Seq<Order>, side: OrderSide, price: u64, p: int) -> bool {
    &&& 0 <= p <= orders.len()
    &&& forall|j: int| 0 <= j < p ==> better_or_equal(side, #[trigger] orders[j].price, price)
    &&& p < orders.len() ==> !better_or_equal(side, orders[p].price, price)
}

/// The position at which a new order priced `price` joins `orders`.
pub open spec fn insert_position(orders: Seq<Order>, side: OrderSide, price: u64) -> int {
    choose|p: int| is_insert_position(orders, side, price, p)
}

/// No two positions are both the first record of one owner.
proof fn lemma_first_owner_unique(recs: Seq<UserStats>, key: AccountKey, market_id: u32, k: int)
    requires
        is_first_owner(recs, key, market_id, k),
    ensures
        stats_index(recs, key, market_id) == k,
{
    let c = stats_index(recs, key, market_id);
    assert(is_first_owner(recs, key, market_id, c));
    if c < k {
        assert(!owns(recs[c], key, market_id));
    } else if k < c {
        assert(!owns(recs[k], key, market_id));
    }
}

/// Finds the supplied record of `key` in the market `market_id`.
fn find_stats(recs: &Vec<UserStats>, key: &AccountKey, market_id: u32) -> (r: Option<usize>)
    ensures
        match r {
            Some(k) => k == stats_index(recs@, *key, market_id),
            None => stats_index(recs@, *key, market_id) == -1,
        },
{
    let mut i: usize = 0;
    while i < recs.len()
        invariant
            0 <= i <= recs@.len(),
            forall|j: int| 0 <= j < i ==> !owns(#[trigger] recs@[j], *key, market_id),
        decreases recs@.len() - i,
    {
        if recs[i].user == *key && recs[i].market_id == market_id {
            proof {
                lemma_first_owner_unique(recs@, *key, market_id, i as int);
            }
            return Some(i);
        }
        i = i + 1;
    }
    proof {
        if exists|k: int| is_first_owner(recs@, *key, market_id, k) {
            let k = choose|k: int| is_first_owner(recs@, *key, market_id, k);
            assert(owns(recs@[k], *key, market_id));
        }
    }
    None
}

/// Adds `qty` to the claimable balance of `token` in `s`.
fn add_claimable_tokens(s: &mut UserStats, token: TokenType, qty: u64) -> (r: Result<(), PredictionMarketError>)
    ensures
        claimable_tokens(*old(s), token) + qty > u64::MAX ==> r == Err::<(), _>(
            PredictionMarketError::MathOverflow,
        ),
        claimable_tokens(*old(s), token) + qty <= u64::MAX ==> r is Ok && *final(s) == credit_tokens(
            *old(s),
            token,
            qty as int,
        ),
{
    match token {
        TokenType::Yes => {
            match s.claimable_yes.checked_add(qty) {
                Some(v) => {
                    s.claimable_yes = v;
                    Ok(())
                },
                None => Err(PredictionMarketError::MathOverflow),
            }
        },
        TokenType::No => {
            match s.claimable_no.checked_add(qty) {
                Some(v) => {
                    s.claimable_no = v;
                    Ok(())
                },
                None => Err(PredictionMarketError::MathOverflow),
            }
        },
    }
}

/// Adds `value` to the claimable collateral of `s`.
fn add_claimable_collateral(s: &mut UserStats, value: u64) -> (r: Result<(), PredictionMarketError>)
    ensures
        old(s).claimable_collateral + value > u64::MAX ==> r == Err::<(), _>(
            PredictionMarketError::MathOverflow,
        ),
        old(s).claimable_collateral + value <= u64::MAX ==> r is Ok && *final(s)
            == credit_collateral(*old(s), value as int),
{
    match s.claimable_collateral.checked_add(value) {
        Some(v) => {
            s.claimable_collateral = v;
            Ok(())
        },
        None => Err(PredictionMarketError::MathOverflow),
    }
}

/// Settles one match; see `settle_one`. On failure the records are left in
/// an unspecified state, and the caller discards them.
pub(crate) fn settle_match(
    own: &mut UserStats,
    recs: &mut Vec<UserStats>,
    resting: &Order,
    qty: u64,
    side: OrderSide,
    token: TokenType,
    market_id: u32,
) -> (r: Result<(), PredictionMarketError>)
    ensures
        match settle_one(*old(own), old(recs)@, *resting, qty as int, side, token, market_id) {
            Ok((own2, recs2)) => r is Ok && *final(own) == own2 && final(recs)@ == recs2,
            Err(e) => r == Err::<(), _>(e),
        },
{
    let k = match find_stats(recs, &resting.user_key, market_id) {
        Some(k) => k,
        None => {
            return match side {
                OrderSide::Buy => Err(PredictionMarketError::SellerStatsAccountNotProvided),
                OrderSide::Sell => Err(PredictionMarketError::BuyerStatsAccountNotProvided),
            };
        },
    };
    let value = match qty.checked_mul(resting.price) {
        Some(v) => v,
        None => return Err(PredictionMarketError::MathOverflow),
    };
    let mut rec = recs[k];
    match side {
        OrderSide::Buy => {
            add_claimable_tokens(own, token, qty)?;
            add_claimable_collateral(&mut rec, value)?;
        },
        OrderSide::Sell => {
            add_claimable_collateral(own, value)?;
            add_claimable_tokens(&mut rec, token, qty)?;
        },
    }
    recs.set(k, rec);
    Ok(())
}

/// No two positions are both where a new order joins.
proof fn lemma_insert_position_unique(orders: Seq<Order>, side: OrderSide, price: u64, p: int)
    requires
        is_insert_position(orders, side, price, p),
    ensures
        insert_position(orders, side, price) == p,
{
    assert(exists|q: int| is_insert_position(orders, side, price, q));
    let c = insert_position(orders, side, price);
    if c < p {
        assert(better_or_equal(side, orders[c].price, price));
    } else if p < c {
        assert(better_or_equal(side, orders[p].price, price));
    }
}

/// Where a new order priced `price` joins `orders`.
pub(crate) fn find_insert_position(orders: &Vec<Order>, side: OrderSide, price: u64) -> (r: usize)
    ensures
        r == insert_position(orders@, side, price),
        is_insert_position(orders@, side, price, r as int),
{
    let mut i: usize = 0;
    while i < orders.len() && at_least_as_good(side, orders[i].price, price)
        invariant
            0 <= i <= orders@.len(),
            forall|j: int| 0 <= j < i ==> better_or_equal(side, #[trigger] orders@[j].price, price),
        decreases orders@.len() - i,
    {
        i = i + 1;
    }
    proof {
        lemma_insert_position_unique(orders@, side, price, i as int);
    }
    i
}

/// Whether price `p` is at least as good as `q` for resting orders of `side`.
fn at_least_as_good(side: OrderSide, p: u64, q: u64) -> (r: bool)
    ensures
        r == better_or_equal(side, p, q),
{
    match side {
        OrderSide::Buy => p >= q,
        OrderSide::Sell => p <= q,
    }
}

/// Whether an incoming order of `side` at `price` trades with a resting
/// order priced `resting_price`.
pub(crate) fn price_crosses(side: OrderSide, price: u64, resting_price: u64) -> (r: bool)
    ensures
        r == crosses(side, price, resting_price),
{
    match side {
        OrderSide::Buy => price >= resting_price,
        OrderSide::Sell => price <= resting_price,
    }
}

/// A copy of `v`.
pub(crate) fn copy_vec<T: Copy>(v: &Vec<T>) -> (r: Vec<T>)
    ensures
        r@ == v@,
{
    let mut r: Vec<T> = Vec::new();
    let mut i: usize = 0;
    while i < v.len()
        invariant
            0 <= i <= v@.len(),
            r@ == v@.subrange(0, i as int),
        decreases v@.len() - i,
    {
        r.push(v[i]);
        i = i + 1;
        proof {
            assert(r@ =~= v@.subrange(0, i as int));
        }
    }
    proof {
        assert(r@ =~= v@);
    }
    r
}

/// The sum of `seq![a] + rest` is `a` plus the sum of `rest`.
proof fn lemma_sum_fills_prepend(a: int, rest: Seq<int>)
    ensures
        sum_fills(seq![a] + rest) == a + sum_fills(rest),
    decreases rest.len(),
{
    let whole = seq![a] + rest;
    if rest.len() > 0 {
        assert(whole.drop_last() =~= seq![a] + rest.drop_last());
        assert(whole.last() == rest.last());
        lemma_sum_fills_prepend(a, rest.drop_last());
        assert(sum_fills(whole) == sum_fills(whole.drop_last()) + whole.last());
    } else {
        assert(whole.drop_last() =~= Seq::<int>::empty());
        assert(whole.last() == a);
        assert(sum_fills(Seq::<int>::empty()) == 0);
        assert(sum_fills(whole) == sum_fills(whole.drop_last()) + whole.last());
    }
}

/// What matching does to the resting orders it meets: it meets them in book
/// order from the best, each only if its price crosses the incoming limit;
/// each fill is positive and at most what the resting order has left; every
/// order met before the last is filled completely; and the incoming order
/// never fills more than it asked for.
pub proof fn lemma_fill_plan(book: Seq<Order>, side: OrderSide, price: u64, want: int, rounds: int)
    requires
        forall|i: int| 0 <= i < book.len() ==> (#[trigger] book[i]).filledquantity < book[i].quantity,
    ensures
        ({
            let fills = fill_plan(book, side, price, want, rounds);
            &&& fills.len() <= book.len()
            &&& fills.len() <= if rounds < 0 { 0 } else { rounds }
            &&& 0 <= sum_fills(fills)
            &&& sum_fills(fills) <= if want < 0 { 0 } else { want }
            &&& forall|i: int|
                0 <= i < fills.len() ==> {
                    &&& crosses(side, price, (#[trigger] book[i]).price)
                    &&& 0 < fills[i] <= book[i].remaining()
                }
            &&& forall|i: int| 0 <= i < fills.len() - 1 ==> #[trigger] fills[i] == book[i].remaining()
        }),
    decreases book.len(),
{
    let fills = fill_plan(book, side, price, want, rounds);
    if !(book.len() == 0 || want <= 0 || rounds <= 0 || !crosses(side, price, book[0].price)) {
        let f = if want <= book[0].remaining() {
            want
        } else {
            book[0].remaining()
        };
        let tail = book.skip(1);
        assert forall|i: int| 0 <= i < tail.len() implies (#[trigger] tail[i]).filledquantity
            < tail[i].quantity by {
            assert(tail[i] == book[i + 1]);
        }
        lemma_fill_plan(tail, side, price, want - f, rounds - 1);
        let rest = fill_plan(tail, side, price, want - f, rounds - 1);
        lemma_sum_fills_prepend(f, rest);
        assert forall|i: int| 0 <= i < fills.len() implies {
            &&& crosses(side, price, (#[trigger] book[i]).price)
            &&& 0 < fills[i] <= book[i].remaining()
        } by {
            if i > 0 {
                assert(fills[i] == rest[i - 1]);
                assert(book[i] == tail[i - 1]);
            }
        }
        assert forall|i: int| 0 <= i < fills.len() - 1 implies #[trigger] fills[i]
            == book[i].remaining() by {
            if i > 0 {
                assert(fills[i] == rest[i - 1]);
                assert(book[i] == tail[i - 1]);
            } else if rest.len() > 0 {
                assert(want - f > 0);
            }
        }
    } else {
        assert(fills =~= Seq::<int>::empty());
    }
}

/// Each match credits the buyer exactly the quantity traded, in the traded
/// token, and the seller exactly the quantity times the resting order's
/// price, in collateral; no other balance and no other record changes.
pub proof fn lemma_match_credits(
    own: UserStats,
    recs: Seq<UserStats>,
    resting: Order,
    qty: int,
    side: OrderSide,
    token: TokenType,
    market_id: u32,
)
    requires
        qty >= 0,
        settle_one(own, recs, resting, qty, side, token, market_id) is Ok,
    ensures
        ({
            let (own2, recs2) = settle_one(own, recs, resting, qty, side, token, market_id)->Ok_0;
            let k = stats_index(recs, resting.user_key, market_id);
            let (buyer, buyer2, seller, seller2) = match side {
                OrderSide::Buy => (own, own2, recs[k], recs2[k]),
                OrderSide::Sell => (recs[k], recs2[k], own, own2),
            };
            &&& 0 <= k < recs.len()
            &&& owns(recs[k], resting.user_key, market_id)
            &&& claimable_tokens(buyer2, token) == claimable_tokens(buyer, token) + qty
            &&& seller2.claimable_collateral == seller.claimable_collateral + qty * resting.price
            &&& buyer2 == credit_tokens(buyer, token, qty)
            &&& seller2 == credit_collateral(seller, qty * resting.price)
            &&& recs2.len() == recs.len()
            &&& forall|j: int| 0 <= j < recs.len() && j != k ==> #[trigger] recs2[j] == recs[j]
        }),
{
    let k = stats_index(recs, resting.user_key, market_id);
    assert(k >= 0);
    assert(exists|c: int| is_first_owner(recs, resting.user_key, market_id, c));
    assert(is_first_owner(recs, resting.user_key, market_id, k));
    assert(0 <= qty * resting.price) by (nonlinear_arith)
        requires
            qty >= 0,
    ;
}

/// The sum of `f` over the records `recs`.
pub open spec fn total_of(recs: Seq<UserStats>, f: spec_fn(UserStats) -> int) -> int
    decreases recs.len(),
{
    if recs.len() == 0 {
        0
    } else {
        total_of(recs.drop_last(), f) + f(recs.last())
    }
}

/// The collateral that the matches `fills` against the front of `book` are
/// worth, each at its resting order's price.
pub open spec fn trade_value(book: Seq<Order>, fills: Seq<int>) -> int
    decreases fills.len(),
{
    if fills.len() == 0 {
        0
    } else {
        trade_value(book, fills.drop_last()) + fills.last() * book[fills.len() - 1].price
    }
}

/// Replacing one record changes a sum over the records by the difference.
proof fn lemma_total_of_update(recs: Seq<UserStats>, k: int, x: UserStats, f: spec_fn(UserStats) -> int)
    requires
        0 <= k < recs.len(),
    ensures
        total_of(recs.update(k, x), f) == total_of(recs, f) - f(recs[k]) + f(x),
    decreases recs.len(),
{
    let u = recs.update(k, x);
    if k == recs.len() - 1 {
        assert(u.drop_last() =~= recs.drop_last());
    } else {
        assert(u.drop_last() =~= recs.drop_last().update(k, x));
        lemma_total_of_update(recs.drop_last(), k, x, f);
    }
}

/// Over a whole placement, the claims of all parties together grow by
/// exactly what was traded: the buyers' tokens by the total quantity
/// filled, the sellers' collateral by the total value at the resting
/// prices. Nothing else is created or destroyed.
pub proof fn lemma_settlement_conserves_claims(
    own: UserStats,
    recs: Seq<UserStats>,
    book: Seq<Order>,
    fills: Seq<int>,
    side: OrderSide,
    token: TokenType,
    market_id: u32,
)
    requires
        fills.len() <= book.len(),
        forall|i: int| 0 <= i < fills.len() ==> #[trigger] fills[i] >= 0,
        settle_fills(own, recs, book, fills, side, token, market_id) is Ok,
    ensures
        ({
            let (own2, recs2) = settle_fills(own, recs, book, fills, side, token, market_id)->Ok_0;
            let tokens = |s: UserStats| claimable_tokens(s, token);
            let collateral = |s: UserStats| s.claimable_collateral as int;
            &&& recs2.len() == recs.len()
            &&& tokens(own2) + total_of(recs2, tokens) == tokens(own) + total_of(recs, tokens)
                + sum_fills(fills)
            &&& collateral(own2) + total_of(recs2, collateral) == collateral(own) + total_of(
                recs,
                collateral,
            ) + trade_value(book, fills)
        }),
    decreases fills.len(),
{
    if fills.len() > 0 {
        let prev = fills.drop_last();
        let tokens = |s: UserStats| claimable_tokens(s, token);
        let collateral = |s: UserStats| s.claimable_collateral as int;
        assert(settle_fills(own, recs, book, prev, side, token, market_id) is Ok);
        lemma_settlement_conserves_claims(own, recs, book, prev, side, token, market_id);
        let (own1, recs1) = settle_fills(own, recs, book, prev, side, token, market_id)->Ok_0;
        let resting = book[fills.len() - 1];
        let qty = fills.last();
        assert(qty >= 0);
        lemma_match_credits(own1, recs1, resting, qty, side, token, market_id);
        let (own2, recs2) = settle_one(own1, recs1, resting, qty, side, token, market_id)->Ok_0;
        let k = stats_index(recs1, resting.user_key, market_id);
        lemma_total_of_update(recs1, k, recs2[k], tokens);
        lemma_total_of_update(recs1, k, recs2[k], collateral);
        assert(recs2 =~= recs1.update(k, recs2[k]));
    }
}

/// The quantity that the matches `fills` take from resting orders whose
/// owner's record is at position `k` of `recs`.
pub open spec fn owner_quantity(
    recs: Seq<UserStats>,
    book: Seq<Order>,
    fills: Seq<int>,
    market_id: u32,
    k: int,
) -> int
    decreases fills.len(),
{
    if fills.len() == 0 {
        0
    } else {
        owner_quantity(recs, book, fills.drop_last(), market_id, k) + if stats_index(
            recs,
            book[fills.len() - 1].user_key,
            market_id,
        ) == k {
            fills.last()
        } else {
            0
        }
    }
}

/// The collateral that the matches `fills` are worth, at the resting prices,
/// to the resting orders whose owner's record is at position `k` of `recs`.
pub open spec fn owner_value(
    recs: Seq<UserStats>,
    book: Seq<Order>,
    fills: Seq<int>,
    market_id: u32,
    k: int,
) -> int
    decreases fills.len(),
{
    if fills.len() == 0 {
        0
    } else {
        owner_value(recs, book, fills.drop_last(), market_id, k) + if stats_index(
            recs,
            book[fills.len() - 1].user_key,
            market_id,
        ) == k {
            fills.last() * book[fills.len() - 1].price
        } else {
            0
        }
    }
}

/// Two sequences of records with the same owners at the same positions find
/// the same record for every key.
proof fn lemma_stats_index_same(a: Seq<UserStats>, b: Seq<UserStats>, key: AccountKey, market_id: u32)
    requires
        a.len() == b.len(),
        forall|j: int| 0 <= j < a.len() ==> #[trigger] a[j].user == b[j].user && a[j].market_id == b[j].market_id,
    ensures
        stats_index(a, key, market_id) == stats_index(b, key, market_id),
{
    if exists|c: int| is_first_owner(a, key, market_id, c) {
        let c = stats_index(a, key, market_id);
        assert(is_first_owner(a, key, market_id, c));
        assert forall|j: int| 0 <= j < c implies !owns(#[trigger] b[j], key, market_id) by {
            assert(!owns(a[j], key, market_id));
        }
        assert(is_first_owner(b, key, market_id, c));
        lemma_first_owner_unique(b, key, market_id, c);
    } else if exists|c: int| is_first_owner(b, key, market_id, c) {
        let c = stats_index(b, key, market_id);
        assert(is_first_owner(b, key, market_id, c));
        assert forall|j: int| 0 <= j < c implies !owns(#[trigger] a[j], key, market_id) by {
            assert(!owns(b[j], key, market_id));
        }
        assert(a[c].user == b[c].user && a[c].market_id == b[c].market_id);
        assert(owns(a[c], key, market_id));
        assert(is_first_owner(a, key, market_id, c));
    }
}

/// Sums of quantities and values credited are never negative.
proof fn lemma_owner_sums_nonneg(recs: Seq<UserStats>, book: Seq<Order>, fills: Seq<int>, market_id: u32, k: int)
    requires
        fills.len() <= book.len(),
        forall|i: int| 0 <= i < fills.len() ==> #[trigger] fills[i] >= 0,
    ensures
        0 <= owner_value(recs, book, fills, market_id, k),
        0 <= owner_quantity(recs, book, fills, market_id, k),
        0 <= sum_fills(fills),
        0 <= trade_value(book, fills),
    decreases fills.len(),
{
    if fills.len() > 0 {
        let prev = fills.drop_last();
        assert forall|i: int| 0 <= i < prev.len() implies #[trigger] prev[i] >= 0 by {
            assert(prev[i] == fills[i]);
        }
        lemma_owner_sums_nonneg(recs, book, prev, market_id, k);
        let n = fills.len() - 1;
        assert(fills.last() == fills[n]);
        assert(0 <= fills.last() * book[n].price) by (nonlinear_arith)
            requires
                fills.last() >= 0,
        ;
    }
}

/// `own2` and `recs2` are `own` and `recs` after the owner of the incoming
/// order of `side` was credited the total it traded, and the owner of each
/// record the total traded against its own resting orders, with every sum
/// within `u64`.
pub open spec fn credited_per_owner(
    own: UserStats,
    recs: Seq<UserStats>,
    own2: UserStats,
    recs2: Seq<UserStats>,
    book: Seq<Order>,
    fills: Seq<int>,
    side: OrderSide,
    token: TokenType,
    market_id: u32,
) -> bool {
    &&& recs2.len() == recs.len()
    &&& match side {
        OrderSide::Buy => {
            &&& claimable_tokens(own, token) + sum_fills(fills) <= u64::MAX
            &&& own2 == credit_tokens(own, token, sum_fills(fills))
            &&& forall|k: int|
                0 <= k < recs.len() ==> recs[k].claimable_collateral + owner_value(
                    recs,
                    book,
                    fills,
                    market_id,
                    k,
                ) <= u64::MAX && #[trigger] recs2[k] == credit_collateral(
                    recs[k],
                    owner_value(recs, book, fills, market_id, k),
                )
        },
        OrderSide::Sell => {
            &&& own.claimable_collateral + trade_value(book, fills) <= u64::MAX
            &&& own2 == credit_collateral(own, trade_value(book, fills))
            &&& forall|k: int|
                0 <= k < recs.len() ==> claimable_tokens(recs[k], token) + owner_quantity(
                    recs,
                    book,
                    fills,
                    market_id,
                    k,
                ) <= u64::MAX && #[trigger] recs2[k] == credit_tokens(
                    recs[k],
                    token,
                    owner_quantity(recs, book, fills, market_id, k),
                )
        },
    }
}

/// What a whole placement credits each party: the incoming order's owner
/// is credited the total traded on its side of the trades (tokens for a
/// buy, collateral at the resting prices for a sell), and the owner of each
/// supplied record is credited the total of the matches against its own
/// resting orders, on the other side. Every sum fits in `u64`, and nothing
/// else changes in any record.
pub proof fn lemma_settlement_per_owner(
    own: UserStats,
    recs: Seq<UserStats>,
    book: Seq<Order>,
    fills: Seq<int>,
    side: OrderSide,
    token: TokenType,
    market_id: u32,
)
    requires
        fills.len() <= book.len(),
        forall|i: int| 0 <= i < fills.len() ==> #[trigger] fills[i] >= 0,
        settle_fills(own, recs, book, fills, side, token, market_id) is Ok,
    ensures
        credited_per_owner(
            own,
            recs,
            settle_fills(own, recs, book, fills, side, token, market_id)->Ok_0.0,
            settle_fills(own, recs, book, fills, side, token, market_id)->Ok_0.1,
            book,
            fills,
            side,
            token,
            market_id,
        ),
    decreases fills.len(),
{
    let n = fills.len();
    if n == 0 {
        let (own2, recs2) = settle_fills(own, recs, book, fills, side, token, market_id)->Ok_0;
        assert(own2 == own);
        assert(recs2 == recs);
        match side {
            OrderSide::Buy => {
                assert(own2 == credit_tokens(own, token, 0));
                assert(sum_fills(fills) == 0);
                assert forall|k: int|
                    #![trigger recs[k]]
                    #![trigger recs2[k]]
                    0 <= k < recs.len() implies (recs[k].claimable_collateral + owner_value(
                        recs,
                        book,
                        fills,
                        market_id,
                        k,
                    ) <= u64::MAX && recs2[k] == credit_collateral(
                        recs[k],
                        owner_value(recs, book, fills, market_id, k),
                    )) by {
                    assert(owner_value(recs, book, fills, market_id, k) == 0);
                }
            },
            OrderSide::Sell => {
                assert(own2 == credit_collateral(own, 0));
                assert(trade_value(book, fills) == 0);
                assert forall|k: int|
                    #![trigger recs[k]]
                    #![trigger recs2[k]]
                    0 <= k < recs.len() implies (claimable_tokens(recs[k], token) + owner_quantity(
                        recs,
                        book,
                        fills,
                        market_id,
                        k,
                    ) <= u64::MAX && recs2[k] == credit_tokens(
                        recs[k],
                        token,
                        owner_quantity(recs, book, fills, market_id, k),
                    )) by {
                    assert(owner_quantity(recs, book, fills, market_id, k) == 0);
                }
            },
        }
        assert(credited_per_owner(own, recs, own2, recs2, book, fills, side, token, market_id));
    } else {
        let prev = fills.drop_last();
        assert(settle_fills(own, recs, book, prev, side, token, market_id) is Ok);
        lemma_settlement_per_owner(own, recs, book, prev, side, token, market_id);
        let (own1, recs1) = settle_fills(own, recs, book, prev, side, token, market_id)->Ok_0;
        let resting = book[n - 1];
        let qty = fills.last();
        assert(qty == fills[n - 1]);
        assert(prev.len() == n - 1);
        assert(settle_fills(own, recs, book, fills, side, token, market_id) == settle_one(
            own1,
            recs1,
            resting,
            qty,
            side,
            token,
            market_id,
        ));
        let (own2, recs2) = settle_one(own1, recs1, resting, qty, side, token, market_id)->Ok_0;
        assert forall|j: int| 0 <= j < recs1.len() implies #[trigger] recs1[j].user == recs[j].user
            && recs1[j].market_id == recs[j].market_id by {
            match side {
                OrderSide::Buy => assert(recs1[j] == credit_collateral(
                    recs[j],
                    owner_value(recs, book, prev, market_id, j),
                )),
                OrderSide::Sell => assert(recs1[j] == credit_tokens(
                    recs[j],
                    token,
                    owner_quantity(recs, book, prev, market_id, j),
                )),
            }
        }
        lemma_stats_index_same(recs1, recs, resting.user_key, market_id);
        let k0 = stats_index(recs, resting.user_key, market_id);
        assert(k0 >= 0);
        let value = qty * resting.price;
        assert(0 <= value) by (nonlinear_arith)
            requires
                qty >= 0,
                value == qty * resting.price,
        ;
        assert(sum_fills(fills) == sum_fills(prev) + qty);
        assert(trade_value(book, fills) == trade_value(book, prev) + value);
        lemma_owner_sums_nonneg(recs, book, prev, market_id, k0);
        match side {
            OrderSide::Buy => {
                assert(own1 == credit_tokens(own, token, sum_fills(prev)));
                assert(claimable_tokens(own1, token) + qty <= u64::MAX);
                assert(claimable_tokens(own, token) + sum_fills(fills) <= u64::MAX);
                assert(own2 == credit_tokens(own1, token, qty));
                assert(own2 == credit_tokens(own, token, sum_fills(fills)));
                assert(recs2 == recs1.update(k0, credit_collateral(recs1[k0], value)));
                assert forall|k: int|
                    #![trigger recs[k]]
                    #![trigger recs2[k]]
                    0 <= k < recs.len() implies (recs[k].claimable_collateral + owner_value(
                        recs,
                        book,
                        fills,
                        market_id,
                        k,
                    ) <= u64::MAX && recs2[k] == credit_collateral(
                        recs[k],
                        owner_value(recs, book, fills, market_id, k),
                    )) by {
                    assert(recs1[k] == credit_collateral(
                        recs[k],
                        owner_value(recs, book, prev, market_id, k),
                    ));
                    lemma_owner_sums_nonneg(recs, book, prev, market_id, k);
                    if k == k0 {
                        assert(owner_value(recs, book, fills, market_id, k) == owner_value(
                            recs,
                            book,
                            prev,
                            market_id,
                            k,
                        ) + value);
                        assert(recs2[k] == credit_collateral(recs1[k], value));
                        assert(recs1[k].claimable_collateral + value <= u64::MAX);
                        assert(recs[k].claimable_collateral + owner_value(recs, book, fills, market_id, k) <= u64::MAX);
                    } else {
                        assert(owner_value(recs, book, fills, market_id, k) == owner_value(
                            recs,
                            book,
                            prev,
                            market_id,
                            k,
                        ));
                        assert(recs2[k] == recs1[k]);
                    }
                }
                assert(recs1.len() == recs.len());
                assert(recs2.len() == recs.len());
                assert(credited_per_owner(own, recs, own2, recs2, book, fills, side, token, market_id));
            },
            OrderSide::Sell => {
                assert(own1 == credit_collateral(own, trade_value(book, prev)));
                assert(own1.claimable_collateral + value <= u64::MAX);
                assert(own.claimable_collateral + trade_value(book, fills) <= u64::MAX);
                assert(own2 == credit_collateral(own1, value));
                assert(own2 == credit_collateral(own, trade_value(book, fills)));
                assert(recs2 == recs1.update(k0, credit_tokens(recs1[k0], token, qty)));
                assert forall|k: int|
                    #![trigger recs[k]]
                    #![trigger recs2[k]]
                    0 <= k < recs.len() implies (claimable_tokens(recs[k], token) + owner_quantity(
                        recs,
                        book,
                        fills,
                        market_id,
                        k,
                    ) <= u64::MAX && recs2[k] == credit_tokens(
                        recs[k],
                        token,
                        owner_quantity(recs, book, fills, market_id, k),
                    )) by {
                    assert(recs1[k] == credit_tokens(
                        recs[k],
                        token,
                        owner_quantity(recs, book, prev, market_id, k),
                    ));
                    lemma_owner_sums_nonneg(recs, book, prev, market_id, k);
                    if k == k0 {
                        assert(owner_quantity(recs, book, fills, market_id, k) == owner_quantity(
                            recs,
                            book,
                            prev,
                            market_id,
                            k,
                        ) + qty);
                        assert(recs2[k] == credit_tokens(recs1[k], token, qty));
                        assert(claimable_tokens(recs1[k], token) + qty <= u64::MAX);
                    } else {
                        assert(owner_quantity(recs, book, fills, market_id, k) == owner_quantity(
                            recs,
                            book,
                            prev,
                            market_id,
                            k,
                        ));
                        assert(recs2[k] == recs1[k]);
                    }
                }
                assert(recs1.len() == recs.len());
                assert(recs2.len() == recs.len());
                assert(credited_per_owner(own, recs, own2, recs2, book, fills, side, token, market_id));
            },
        }
    }
}

} // verus!
