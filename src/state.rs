use vstd::prelude::*;

use crate::constants::MAX_ORDERBOOK_LENGTH;

verus! {

/// The identity of an account on the ledger: 32 opaque bytes.
#[derive(Clone, Copy, Debug)]
pub struct AccountKey {
    pub bytes: [u8; 32],
}

impl View for AccountKey {
    type V = Seq<u8>;

    open spec fn view(&self) -> Seq<u8> {
        self.bytes@
    }
}

impl PartialEq for AccountKey {
    fn eq(&self, other: &AccountKey) -> (r: bool) {
        let mut i: usize = 0;
        while i < 32
            invariant
                0 <= i <= 32,
                self.bytes@.len() == 32,
                other.bytes@.len() == 32,
                forall|j: int| 0 <= j < i ==> self.bytes@[j] == other.bytes@[j],
            decreases 32 - i,
        {
            if self.bytes[i] != other.bytes[i] {
                return false;
            }
            i = i + 1;
        }
        proof {
            assert(self.bytes@ =~= other.bytes@);
        }
        true
    }
}

impl vstd::std_specs::cmp::PartialEqSpecImpl for AccountKey {
    open spec fn obeys_eq_spec() -> bool {
        true
    }

    open spec fn eq_spec(&self, other: &AccountKey) -> bool {
        self@ == other@
    }
}

impl Eq for AccountKey {
}

impl AccountKey {
    /// The key whose bytes are all zero; it marks a record that nobody owns yet.
    pub fn zero() -> (k: AccountKey)
        ensures
            k.is_zero(),
    {
        AccountKey { bytes: [0u8; 32] }
    }

    /// Every byte of the key is zero.
    pub open spec fn is_zero(&self) -> bool {
        forall|i: int| 0 <= i < 32 ==> self.bytes@[i] == 0u8
    }
}

/// How a market was resolved.
#[derive(Clone, Copy, Debug, PartialEq, Eq, Structural)]
pub enum WinningOutcome {
    OutcomeA,
    OutcomeB,
    /// A draw or an invalid question; no payout rule exists for it yet.
    Neither,
}

/// Which of the two outcome tokens an order trades (`Yes` is outcome A,
/// `No` is outcome B).
#[derive(Clone, Copy, Debug, PartialEq, Eq, Structural)]
pub enum TokenType {
    Yes,
    No,
}

/// Whether an order buys outcome tokens for collateral or sells them.
#[derive(Clone, Copy, Debug, PartialEq, Eq, Structural)]
pub enum OrderSide {
    Buy,
    Sell,
}

/// The record of one prediction question.
#[derive(Clone, Debug)]
pub struct Market {
    pub authority: AccountKey,
    pub market_id: u32,
    pub settlement_deadline: i64,
    pub collateral_mint: AccountKey,
    pub collateral_vault: AccountKey,
    pub is_settled: bool,
    pub winning_outcome: Option<WinningOutcome>,
    /// Collateral currently backing outstanding token pairs.
    pub total_collateral_locked: u64,
    pub bump: u8,
    pub meta_data_url: String,
    pub outcome_yes_mint: AccountKey,
    pub outcome_no_mint: AccountKey,
    pub yes_escrow: AccountKey,
    pub no_escrow: AccountKey,
}

impl Market {
    /// A market is open for trading while it is unsettled and `now` is
    /// before its deadline.
    pub open spec fn is_open(&self, now: i64) -> bool {
        !self.is_settled && now < self.settlement_deadline
    }

    /// A settled market records its outcome, and an unsettled one records none.
    pub open spec fn wf(&self) -> bool {
        self.is_settled == self.winning_outcome.is_some()
    }
}

/// The balances of one user in one market.
#[derive(Clone, Copy, Debug, PartialEq, Eq)]
pub struct UserStats {
    pub user: AccountKey,
    pub market_id: u32,
    /// Outcome-A tokens owed from matched trades.
    pub claimable_yes: u64,
    /// Outcome-A tokens committed to open sell orders.
    pub locked_yes: u64,
    pub claimable_no: u64,
    pub locked_no: u64,
    /// Collateral owed from matched trades.
    pub claimable_collateral: u64,
    /// Collateral committed to open buy orders.
    pub locked_collateral: u64,
    pub reward_claimed: bool,
    pub bump: u8,
}

/// An order; everything but `filledquantity` is fixed when it is placed.
#[derive(Clone, Copy, Debug, PartialEq, Eq)]
pub struct Order {
    pub id: u64,
    pub market_id: u32,
    pub user_key: AccountKey,
    pub side: OrderSide,
    pub token_type: TokenType,
    /// Collateral units per outcome-token unit.
    pub price: u64,
    pub quantity: u64,
    pub filledquantity: u64,
    pub timestamp: i64,
}

impl Order {
    /// What is left to fill.
    pub open spec fn remaining(&self) -> int {
        self.quantity - self.filledquantity
    }
}

/// The open orders of one market: bids and asks for each outcome token.
#[derive(Clone, Debug)]
pub struct OrderBook {
    pub market_id: u32,
    pub next_order_id: u64,
    pub yes_buy_orders: Vec<Order>,
    pub yes_sell_orders: Vec<Order>,
    pub no_buy_orders: Vec<Order>,
    pub no_sell_orders: Vec<Order>,
    pub bump: u8,
}

/// Bytes of an order-book record that do not depend on its orders.
pub const ORDERBOOK_BASE_SIZE: usize = 8 + 4 + 8 + 1 + 16;

/// Bytes that one stored order takes, padding included.
pub const ORDER_SIZE: usize = 80;

/// `orders` is in the canonical order of `side`: bids best (highest) first,
/// asks best (lowest) first, equal prices in any order.
pub open spec fn sorted_for(side: OrderSide, orders: Seq<Order>) -> bool {
    forall|i: int, j: int|
        #![trigger orders[i], orders[j]]
        0 <= i < j < orders.len() ==> better_or_equal(side, orders[i].price, orders[j].price)
}

/// Price `p` is at least as good as price `q` for resting orders of `side`.
pub open spec fn better_or_equal(side: OrderSide, p: u64, q: u64) -> bool {
    match side {
        OrderSide::Buy => p >= q,
        OrderSide::Sell => p <= q,
    }
}

/// Orders of equal price stand in the order they arrived: the one placed
/// first, with the smaller id, comes first.
pub open spec fn arrival_ordered(orders: Seq<Order>) -> bool {
    forall|i: int, j: int|
        #![trigger orders[i], orders[j]]
        0 <= i < j < orders.len() && orders[i].price == orders[j].price ==> orders[i].id < orders[j].id
}

/// Every order in `orders` rests on the book of `market_id` for this token
/// and side, was numbered below `next_id`, and still has something left to
/// fill; prices are in canonical order and equal prices in arrival order.
pub open spec fn resting_orders_wf(
    orders: Seq<Order>,
    market_id: u32,
    token: TokenType,
    side: OrderSide,
    next_id: u64,
) -> bool {
    &&& orders.len() <= MAX_ORDERBOOK_LENGTH
    &&& sorted_for(side, orders)
    &&& arrival_ordered(orders)
    &&& forall|i: int|
        0 <= i < orders.len() ==> {
            &&& (#[trigger] orders[i]).market_id == market_id
            &&& orders[i].token_type == token
            &&& orders[i].side == side
            &&& orders[i].price > 0
            &&& orders[i].filledquantity < orders[i].quantity
            &&& orders[i].id < next_id
        }
}

/// A valid side stays valid when the id counter moves up.
pub proof fn lemma_resting_orders_wf_next(
    orders: Seq<Order>,
    market_id: u32,
    token: TokenType,
    side: OrderSide,
    next_id: u64,
    later: u64,
)
    requires
        resting_orders_wf(orders, market_id, token, side, next_id),
        next_id <= later,
    ensures
        resting_orders_wf(orders, market_id, token, side, later),
{
}

/// Whether `orders` is a valid side of the book of `market_id` for `token`
/// and `side`.
fn side_is_valid(
    orders: &Vec<Order>,
    market_id: u32,
    token: TokenType,
    side: OrderSide,
    next_id: u64,
) -> (r: bool)
    ensures
        r == resting_orders_wf(orders@, market_id, token, side, next_id),
{
    if orders.len() > MAX_ORDERBOOK_LENGTH as usize {
        return false;
    }
    let mut i: usize = 0;
    while i < orders.len()
        invariant
            0 <= i <= orders@.len() <= MAX_ORDERBOOK_LENGTH,
            forall|a: int, b: int|
                #![trigger orders@[a], orders@[b]]
                0 <= a < b < i ==> better_or_equal(side, orders@[a].price, orders@[b].price),
            forall|a: int, b: int|
                #![trigger orders@[a], orders@[b]]
                0 <= a < b < i && orders@[a].price == orders@[b].price ==> orders@[a].id < orders@[b].id,
            forall|k: int|
                0 <= k < i ==> {
                    &&& (#[trigger] orders@[k]).market_id == market_id
                    &&& orders@[k].token_type == token
                    &&& orders@[k].side == side
                    &&& orders@[k].price > 0
                    &&& orders@[k].filledquantity < orders@[k].quantity
                    &&& orders@[k].id < next_id
                },
        decreases orders@.len() - i,
    {
        let o = orders[i];
        if !(o.market_id == market_id && o.token_type == token && o.side == side && o.price > 0
            && o.filledquantity < o.quantity && o.id < next_id) {
            return false;
        }
        if i > 0 {
            let prev = orders[i - 1].price;
            let ordered = match side {
                OrderSide::Buy => prev >= o.price,
                OrderSide::Sell => prev <= o.price,
            };
            if !ordered {
                proof {
                    assert(!better_or_equal(side, orders@[i - 1].price, orders@[i as int].price));
                }
                return false;
            }
            let prev_id = orders[i - 1].id;
            if prev == o.price && prev_id >= o.id {
                proof {
                    assert(orders@[i - 1].price == orders@[i as int].price);
                }
                return false;
            }
            proof {
                assert forall|a: int| 0 <= a < i implies better_or_equal(
                    side,
                    #[trigger] orders@[a].price,
                    orders@[i as int].price,
                ) by {
                    if a < i - 1 {
                        assert(better_or_equal(side, orders@[a].price, orders@[i - 1].price));
                    }
                }
                assert forall|a: int|
                    0 <= a < i && #[trigger] orders@[a].price == orders@[i as int].price implies orders@[a].id
                    < orders@[i as int].id by {
                    if a < i - 1 {
                        assert(better_or_equal(side, orders@[a].price, orders@[i - 1].price));
                        assert(orders@[a].id < orders@[i - 1].id);
                    }
                }
            }
        }
        i = i + 1;
    }
    true
}

impl OrderBook {
    /// The resting orders of one side of one outcome token.
    pub open spec fn orders(&self, token: TokenType, side: OrderSide) -> Seq<Order> {
        match (token, side) {
            (TokenType::Yes, OrderSide::Buy) => self.yes_buy_orders@,
            (TokenType::Yes, OrderSide::Sell) => self.yes_sell_orders@,
            (TokenType::No, OrderSide::Buy) => self.no_buy_orders@,
            (TokenType::No, OrderSide::Sell) => self.no_sell_orders@,
        }
    }

    /// All four sequences are bounded, sorted by price and then by arrival,
    /// and hold only live orders of their own market, token and side that
    /// were numbered below `next_order_id`.
    pub open spec fn wf(&self) -> bool {
        &&& resting_orders_wf(self.yes_buy_orders@, self.market_id, TokenType::Yes, OrderSide::Buy, self.next_order_id)
        &&& resting_orders_wf(self.yes_sell_orders@, self.market_id, TokenType::Yes, OrderSide::Sell, self.next_order_id)
        &&& resting_orders_wf(self.no_buy_orders@, self.market_id, TokenType::No, OrderSide::Buy, self.next_order_id)
        &&& resting_orders_wf(self.no_sell_orders@, self.market_id, TokenType::No, OrderSide::Sell, self.next_order_id)
    }

    /// Bytes of a book record with room for `orders_per_side` orders on each side.
    pub open spec fn space_spec(orders_per_side: int) -> int {
        ORDERBOOK_BASE_SIZE + orders_per_side * ORDER_SIZE * 4
    }

    /// The number of resting orders over all four sides.
    pub open spec fn total_orders_spec(&self) -> int {
        self.yes_buy_orders@.len() + self.yes_sell_orders@.len() + self.no_buy_orders@.len()
            + self.no_sell_orders@.len() as int
    }

    /// The length of the longest of the four sides.
    pub open spec fn max_side_len(&self) -> int {
        let a = self.yes_buy_orders@.len();
        let b = self.yes_sell_orders@.len();
        let c = self.no_buy_orders@.len();
        let d = self.no_sell_orders@.len();
        let ab = if a >= b { a } else { b };
        let cd = if c >= d { c } else { d };
        if ab >= cd { ab as int } else { cd as int }
    }

    /// The book is valid exactly when each of its four sides is.
    pub proof fn lemma_wf_by_sides(&self)
        ensures
            self.wf() <==> forall|t: TokenType, s: OrderSide|
                resting_orders_wf(#[trigger] self.orders(t, s), self.market_id, t, s, self.next_order_id),
    {
        if self.wf() {
            assert forall|t: TokenType, s: OrderSide|
                resting_orders_wf(#[trigger] self.orders(t, s), self.market_id, t, s, self.next_order_id) by {
                match (t, s) {
                    (TokenType::Yes, OrderSide::Buy) => {},
                    (TokenType::Yes, OrderSide::Sell) => {},
                    (TokenType::No, OrderSide::Buy) => {},
                    (TokenType::No, OrderSide::Sell) => {},
                }
            }
        }
        if forall|t: TokenType, s: OrderSide|
            resting_orders_wf(#[trigger] self.orders(t, s), self.market_id, t, s, self.next_order_id) {
            assert(resting_orders_wf(self.orders(TokenType::Yes, OrderSide::Buy), self.market_id, TokenType::Yes, OrderSide::Buy, self.next_order_id));
            assert(resting_orders_wf(self.orders(TokenType::Yes, OrderSide::Sell), self.market_id, TokenType::Yes, OrderSide::Sell, self.next_order_id));
            assert(resting_orders_wf(self.orders(TokenType::No, OrderSide::Buy), self.market_id, TokenType::No, OrderSide::Buy, self.next_order_id));
            assert(resting_orders_wf(self.orders(TokenType::No, OrderSide::Sell), self.market_id, TokenType::No, OrderSide::Sell, self.next_order_id));
        }
    }

    /// Every order resting in a valid book is filled strictly less than its
    /// quantity: an order filled completely is never in the book.
    pub proof fn lemma_resting_orders_unfilled(&self)
        requires
            self.wf(),
        ensures
            forall|t: TokenType, s: OrderSide, i: int|
                0 <= i < self.orders(t, s).len() ==> 0 <= (#[trigger] self.orders(t, s)[i]).filledquantity
                    < self.orders(t, s)[i].quantity,
    {
        self.lemma_wf_by_sides();
        assert forall|t: TokenType, s: OrderSide, i: int|
            0 <= i < self.orders(t, s).len() implies 0 <= (#[trigger] self.orders(t, s)[i]).filledquantity
                < self.orders(t, s)[i].quantity by {
            assert(resting_orders_wf(self.orders(t, s), self.market_id, t, s, self.next_order_id));
        }
    }

    /// In a valid book, bids are ordered by non-increasing price and asks by
    /// non-decreasing price; orders of equal price keep their arrival order,
    /// and every order was numbered before the counter.
    pub proof fn lemma_sides_sorted(&self)
        requires
            self.wf(),
        ensures
            forall|t: TokenType, i: int, j: int|
                0 <= i < j < self.orders(t, OrderSide::Buy).len() ==> #[trigger] self.orders(t, OrderSide::Buy)[i].price
                    >= #[trigger] self.orders(t, OrderSide::Buy)[j].price,
            forall|t: TokenType, i: int, j: int|
                0 <= i < j < self.orders(t, OrderSide::Sell).len() ==> #[trigger] self.orders(t, OrderSide::Sell)[i].price
                    <= #[trigger] self.orders(t, OrderSide::Sell)[j].price,
            forall|t: TokenType, s: OrderSide, i: int, j: int|
                0 <= i < j < self.orders(t, s).len() && #[trigger] self.orders(t, s)[i].price
                    == #[trigger] self.orders(t, s)[j].price ==> self.orders(t, s)[i].id < self.orders(t, s)[j].id,
            forall|t: TokenType, s: OrderSide, i: int|
                0 <= i < self.orders(t, s).len() ==> #[trigger] self.orders(t, s)[i].id < self.next_order_id,
    {
        self.lemma_wf_by_sides();
        assert forall|t: TokenType, s: OrderSide, i: int, j: int|
            0 <= i < j < self.orders(t, s).len() && #[trigger] self.orders(t, s)[i].price
                == #[trigger] self.orders(t, s)[j].price implies self.orders(t, s)[i].id < self.orders(t, s)[j].id by {
            assert(resting_orders_wf(self.orders(t, s), self.market_id, t, s, self.next_order_id));
        }
        assert forall|t: TokenType, s: OrderSide, i: int|
            0 <= i < self.orders(t, s).len() implies #[trigger] self.orders(t, s)[i].id < self.next_order_id by {
            assert(resting_orders_wf(self.orders(t, s), self.market_id, t, s, self.next_order_id));
        }
        assert forall|t: TokenType, i: int, j: int|
            0 <= i < j < self.orders(t, OrderSide::Buy).len() implies #[trigger] self.orders(t, OrderSide::Buy)[i].price
                >= #[trigger] self.orders(t, OrderSide::Buy)[j].price by {
            assert(resting_orders_wf(self.orders(t, OrderSide::Buy), self.market_id, t, OrderSide::Buy, self.next_order_id));
        }
        assert forall|t: TokenType, i: int, j: int|
            0 <= i < j < self.orders(t, OrderSide::Sell).len() implies #[trigger] self.orders(t, OrderSide::Sell)[i].price
                <= #[trigger] self.orders(t, OrderSide::Sell)[j].price by {
            assert(resting_orders_wf(self.orders(t, OrderSide::Sell), self.market_id, t, OrderSide::Sell, self.next_order_id));
        }
    }

    /// Whether the book is valid; a stored book is checked with this before
    /// it is traded on.
    pub fn is_well_formed(&self) -> (r: bool)
        ensures
            r == self.wf(),
    {
        side_is_valid(&self.yes_buy_orders, self.market_id, TokenType::Yes, OrderSide::Buy, self.next_order_id)
            && side_is_valid(&self.yes_sell_orders, self.market_id, TokenType::Yes, OrderSide::Sell, self.next_order_id)
            && side_is_valid(&self.no_buy_orders, self.market_id, TokenType::No, OrderSide::Buy, self.next_order_id)
            && side_is_valid(&self.no_sell_orders, self.market_id, TokenType::No, OrderSide::Sell, self.next_order_id)
    }

    /// The resting orders of one side of one outcome token.
    pub fn side_orders(&self, token: TokenType, side: OrderSide) -> (r: &Vec<Order>)
        ensures
            r@ == self.orders(token, side),
    {
        match (token, side) {
            (TokenType::Yes, OrderSide::Buy) => &self.yes_buy_orders,
            (TokenType::Yes, OrderSide::Sell) => &self.yes_sell_orders,
            (TokenType::No, OrderSide::Buy) => &self.no_buy_orders,
            (TokenType::No, OrderSide::Sell) => &self.no_sell_orders,
        }
    }

    /// Replaces the resting orders of one side of one outcome token.
    pub fn set_side_orders(&mut self, token: TokenType, side: OrderSide, orders: Vec<Order>)
        ensures
            final(self).orders(token, side) == orders@,
            forall|t: TokenType, s: OrderSide|
                (t != token || s != side) ==> #[trigger] final(self).orders(t, s) == old(self).orders(t, s),
            final(self).market_id == old(self).market_id,
            final(self).next_order_id == old(self).next_order_id,
            final(self).bump == old(self).bump,
    {
        match (token, side) {
            (TokenType::Yes, OrderSide::Buy) => self.yes_buy_orders = orders,
            (TokenType::Yes, OrderSide::Sell) => self.yes_sell_orders = orders,
            (TokenType::No, OrderSide::Buy) => self.no_buy_orders = orders,
            (TokenType::No, OrderSide::Sell) => self.no_sell_orders = orders,
        }
    }

    /// Bytes of storage that a book holding `orders_per_side` orders on each
    /// of its four sides needs.
    pub fn space(orders_per_side: usize) -> (r: usize)
        requires
            Self::space_spec(orders_per_side as int) <= usize::MAX,
        ensures
            r == Self::space_spec(orders_per_side as int),
    {
        ORDERBOOK_BASE_SIZE + orders_per_side * ORDER_SIZE * 4
    }

    /// The number of resting orders over all four sides.
    pub fn total_orders(&self) -> (r: usize)
        requires
            self.total_orders_spec() <= usize::MAX,
        ensures
            r == self.total_orders_spec(),
    {
        self.yes_buy_orders.len() + self.yes_sell_orders.len() + self.no_buy_orders.len()
            + self.no_sell_orders.len()
    }

    /// Bytes of storage that the book needs for its longest side.
    pub fn current_space_needed(&self) -> (r: usize)
        requires
            Self::space_spec(self.max_side_len()) <= usize::MAX,
        ensures
            r == Self::space_spec(self.max_side_len()),
    {
        let a = self.yes_buy_orders.len();
        let b = self.yes_sell_orders.len();
        let c = self.no_buy_orders.len();
        let d = self.no_sell_orders.len();
        let ab = if a >= b { a } else { b };
        let cd = if c >= d { c } else { d };
        let max_per_side = if ab >= cd { ab } else { cd };
        Self::space(max_per_side)
    }
}

} // verus!
