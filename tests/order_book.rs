use prediction_market::{
    cancel_order, initialize_market, place_order, set_winning_side, AccountKey, Market,
    MarketAccounts, OrderBook, OrderSide, PredictionMarketError, TokenType, UserStats,
    WinningOutcome, MAX_ORDERBOOK_LENGTH, ORDERBOOK_BASE_SIZE, ORDER_SIZE,
};

fn key(n: u8) -> AccountKey {
    AccountKey { bytes: [n; 32] }
}

fn stats_of(user: AccountKey) -> UserStats {
    UserStats {
        user,
        market_id: 7,
        claimable_yes: 0,
        locked_yes: 0,
        claimable_no: 0,
        locked_no: 0,
        claimable_collateral: 0,
        locked_collateral: 0,
        reward_claimed: false,
        bump: 0,
    }
}

fn open_market() -> (Market, OrderBook) {
    let accounts = MarketAccounts {
        authority: key(1),
        collateral_mint: key(2),
        collateral_vault: key(3),
        outcome_yes_mint: key(4),
        outcome_no_mint: key(5),
        yes_escrow: key(6),
        no_escrow: key(7),
    };
    initialize_market(&accounts, 7, 1_000, 10, 0, 0).unwrap()
}

const NOW: i64 = 20;

/// Places an order with no counterparty records and a large balance.
fn rest(
    m: &Market,
    b: &mut OrderBook,
    s: &mut UserStats,
    side: OrderSide,
    token: TokenType,
    quantity: u64,
    price: u64,
) -> Result<u64, PredictionMarketError> {
    let user = s.user;
    place_order(m, b, s, &mut Vec::new(), user, side, token, quantity, 10, price, 1_000_000, NOW)
}

#[test]
fn full_match_scenario_c() {
    let (m, mut b) = open_market();
    let mut seller = stats_of(key(11));
    let mut buyer = stats_of(key(12));
    assert_eq!(rest(&m, &mut b, &mut seller, OrderSide::Sell, TokenType::Yes, 50, 2), Ok(50));
    assert_eq!(seller.locked_yes, 50);
    assert_eq!(b.yes_sell_orders.len(), 1);
    let mut others = vec![seller];
    let r = place_order(
        &m, &mut b, &mut buyer, &mut others, key(12), OrderSide::Buy, TokenType::Yes, 50, 10, 2, 100, NOW,
    );
    assert_eq!(r, Ok(100));
    assert_eq!(buyer.claimable_yes, 50);
    assert_eq!(buyer.locked_collateral, 100);
    assert_eq!(others[0].claimable_collateral, 100);
    assert!(b.yes_sell_orders.is_empty());
    assert!(b.yes_buy_orders.is_empty());
    assert_eq!(b.next_order_id, 2);
}

#[test]
fn partial_match_scenario_d() {
    let (m, mut b) = open_market();
    let mut seller = stats_of(key(11));
    let mut buyer = stats_of(key(12));
    rest(&m, &mut b, &mut seller, OrderSide::Sell, TokenType::Yes, 50, 2).unwrap();
    let mut others = vec![seller];
    let r = place_order(
        &m, &mut b, &mut buyer, &mut others, key(12), OrderSide::Buy, TokenType::Yes, 30, 10, 2, 60, NOW,
    );
    assert_eq!(r, Ok(60));
    assert_eq!(b.yes_sell_orders.len(), 1);
    assert_eq!(b.yes_sell_orders[0].filledquantity, 30);
    assert_eq!(b.yes_sell_orders[0].quantity, 50);
    assert_eq!(buyer.claimable_yes, 30);
    assert_eq!(others[0].claimable_collateral, 60);
    assert!(b.yes_buy_orders.is_empty());
}

#[test]
fn zero_quantity_or_price_rejected_scenario_e() {
    let (m, mut b) = open_market();
    let mut s = stats_of(key(11));
    assert_eq!(
        rest(&m, &mut b, &mut s, OrderSide::Buy, TokenType::Yes, 0, 2),
        Err(PredictionMarketError::InvalidOrderQuantity)
    );
    assert_eq!(
        rest(&m, &mut b, &mut s, OrderSide::Sell, TokenType::No, 5, 0),
        Err(PredictionMarketError::InvalidOrderPrice)
    );
    assert_eq!(s, stats_of(key(11)));
    assert_eq!(b.total_orders(), 0);
    assert_eq!(b.next_order_id, 0);
}

#[test]
fn missing_counterparty_fails_whole_call_scenario_f() {
    let (m, mut b) = open_market();
    let mut seller = stats_of(key(11));
    let mut buyer = stats_of(key(12));
    rest(&m, &mut b, &mut seller, OrderSide::Sell, TokenType::Yes, 50, 2).unwrap();
    let mut others = vec![stats_of(key(99))];
    let r = place_order(
        &m, &mut b, &mut buyer, &mut others, key(12), OrderSide::Buy, TokenType::Yes, 50, 10, 2, 100, NOW,
    );
    assert_eq!(r, Err(PredictionMarketError::SellerStatsAccountNotProvided));
    assert_eq!(buyer, stats_of(key(12)));
    assert_eq!(others, vec![stats_of(key(99))]);
    assert_eq!(b.yes_sell_orders.len(), 1);
    assert_eq!(b.yes_sell_orders[0].filledquantity, 0);
    assert_eq!(b.next_order_id, 1);
}

#[test]
fn missing_buyer_record_for_incoming_sell() {
    let (m, mut b) = open_market();
    let mut buyer = stats_of(key(11));
    let mut seller = stats_of(key(12));
    rest(&m, &mut b, &mut buyer, OrderSide::Buy, TokenType::No, 10, 3).unwrap();
    let r = place_order(
        &m, &mut b, &mut seller, &mut Vec::new(), key(12), OrderSide::Sell, TokenType::No, 10, 10, 3, 10, NOW,
    );
    assert_eq!(r, Err(PredictionMarketError::BuyerStatsAccountNotProvided));
    assert_eq!(seller, stats_of(key(12)));
}

#[test]
fn counterparty_of_another_market_is_not_used() {
    let (m, mut b) = open_market();
    let mut seller = stats_of(key(11));
    let mut buyer = stats_of(key(12));
    rest(&m, &mut b, &mut seller, OrderSide::Sell, TokenType::Yes, 5, 2).unwrap();
    let mut elsewhere = stats_of(key(11));
    elsewhere.market_id = 8;
    let mut others = vec![elsewhere];
    let r = place_order(
        &m, &mut b, &mut buyer, &mut others, key(12), OrderSide::Buy, TokenType::Yes, 5, 10, 2, 10, NOW,
    );
    assert_eq!(r, Err(PredictionMarketError::SellerStatsAccountNotProvided));
}

#[test]
fn buy_does_not_match_dearer_asks() {
    let (m, mut b) = open_market();
    let mut seller = stats_of(key(11));
    let mut buyer = stats_of(key(12));
    rest(&m, &mut b, &mut seller, OrderSide::Sell, TokenType::Yes, 10, 5).unwrap();
    let mut others = vec![seller];
    let r = place_order(
        &m, &mut b, &mut buyer, &mut others, key(12), OrderSide::Buy, TokenType::Yes, 10, 10, 4, 40, NOW,
    );
    assert_eq!(r, Ok(40));
    assert_eq!(buyer.claimable_yes, 0);
    assert_eq!(b.yes_sell_orders.len(), 1);
    assert_eq!(b.yes_buy_orders.len(), 1);
    assert_eq!(b.yes_buy_orders[0].price, 4);
    assert_eq!(others[0].claimable_collateral, 0);
}

#[test]
fn sell_executes_at_the_resting_bid_price() {
    let (m, mut b) = open_market();
    let mut buyer = stats_of(key(11));
    let mut seller = stats_of(key(12));
    rest(&m, &mut b, &mut buyer, OrderSide::Buy, TokenType::No, 10, 3).unwrap();
    assert_eq!(buyer.locked_collateral, 30);
    let mut others = vec![buyer];
    let r = place_order(
        &m, &mut b, &mut seller, &mut others, key(12), OrderSide::Sell, TokenType::No, 4, 10, 1, 4, NOW,
    );
    assert_eq!(r, Ok(4));
    assert_eq!(seller.locked_no, 4);
    assert_eq!(seller.claimable_collateral, 12);
    assert_eq!(others[0].claimable_no, 4);
    assert_eq!(b.no_buy_orders[0].filledquantity, 4);
    assert!(b.no_sell_orders.is_empty());
}

#[test]
fn sell_does_not_match_lower_bids() {
    let (m, mut b) = open_market();
    let mut buyer = stats_of(key(11));
    let mut seller = stats_of(key(12));
    rest(&m, &mut b, &mut buyer, OrderSide::Buy, TokenType::No, 10, 3).unwrap();
    let mut others = vec![buyer];
    place_order(
        &m, &mut b, &mut seller, &mut others, key(12), OrderSide::Sell, TokenType::No, 4, 10, 5, 4, NOW,
    )
    .unwrap();
    assert_eq!(seller.claimable_collateral, 0);
    assert_eq!(b.no_sell_orders.len(), 1);
    assert_eq!(b.no_buy_orders[0].filledquantity, 0);
}

#[test]
fn incoming_order_sweeps_several_levels() {
    let (m, mut b) = open_market();
    let mut s1 = stats_of(key(11));
    let mut s2 = stats_of(key(12));
    let mut buyer = stats_of(key(13));
    rest(&m, &mut b, &mut s1, OrderSide::Sell, TokenType::Yes, 10, 3).unwrap();
    rest(&m, &mut b, &mut s2, OrderSide::Sell, TokenType::Yes, 10, 2).unwrap();
    rest(&m, &mut b, &mut s1, OrderSide::Sell, TokenType::Yes, 10, 9).unwrap();
    let prices: Vec<u64> = b.yes_sell_orders.iter().map(|o| o.price).collect();
    assert_eq!(prices, vec![2, 3, 9]);
    let mut others = vec![s1, s2];
    let r = place_order(
        &m, &mut b, &mut buyer, &mut others, key(13), OrderSide::Buy, TokenType::Yes, 25, 10, 5, 125, NOW,
    );
    assert_eq!(r, Ok(125));
    assert_eq!(buyer.claimable_yes, 20);
    assert_eq!(others[0].claimable_collateral, 30);
    assert_eq!(others[1].claimable_collateral, 20);
    assert_eq!(b.yes_sell_orders.len(), 1);
    assert_eq!(b.yes_sell_orders[0].price, 9);
    assert_eq!(b.yes_buy_orders.len(), 1);
    assert_eq!(b.yes_buy_orders[0].filledquantity, 20);
    assert_eq!(b.yes_buy_orders[0].quantity, 25);
}

#[test]
fn max_iteration_bounds_the_matches() {
    let (m, mut b) = open_market();
    let mut s1 = stats_of(key(11));
    let mut buyer = stats_of(key(13));
    for _ in 0..3 {
        rest(&m, &mut b, &mut s1, OrderSide::Sell, TokenType::Yes, 1, 1).unwrap();
    }
    let mut others = vec![s1];
    place_order(
        &m, &mut b, &mut buyer, &mut others, key(13), OrderSide::Buy, TokenType::Yes, 3, 0, 1, 3, NOW,
    )
    .unwrap();
    assert_eq!(buyer.claimable_yes, 1);
    assert_eq!(b.yes_sell_orders.len(), 2);
    assert_eq!(b.yes_buy_orders[0].filledquantity, 1);
}

#[test]
fn books_stay_sorted_with_ties_in_arrival_order() {
    let (m, mut b) = open_market();
    let mut s = stats_of(key(11));
    for p in [5u64, 7, 5, 9, 1] {
        rest(&m, &mut b, &mut s, OrderSide::Buy, TokenType::No, 1, p).unwrap();
    }
    let bids: Vec<(u64, u64)> = b.no_buy_orders.iter().map(|o| (o.price, o.id)).collect();
    assert_eq!(bids, vec![(9, 3), (7, 1), (5, 0), (5, 2), (1, 4)]);
    for p in [50u64, 30, 30, 40] {
        rest(&m, &mut b, &mut s, OrderSide::Sell, TokenType::No, 1, p).unwrap();
    }
    let asks: Vec<(u64, u64)> = b.no_sell_orders.iter().map(|o| (o.price, o.id)).collect();
    assert_eq!(asks, vec![(30, 6), (30, 7), (40, 8), (50, 5)]);
}

#[test]
fn filled_quantity_never_exceeds_quantity() {
    let (m, mut b) = open_market();
    let mut seller = stats_of(key(11));
    let mut buyer = stats_of(key(12));
    rest(&m, &mut b, &mut seller, OrderSide::Sell, TokenType::Yes, 7, 1).unwrap();
    let mut others = vec![seller];
    for _ in 0..3 {
        place_order(
            &m, &mut b, &mut buyer, &mut others, key(12), OrderSide::Buy, TokenType::Yes, 3, 10, 1, 3, NOW,
        )
        .unwrap();
        for o in b.yes_sell_orders.iter().chain(b.yes_buy_orders.iter()) {
            assert!(o.filledquantity < o.quantity);
        }
    }
    assert!(b.yes_sell_orders.is_empty());
    assert_eq!(b.yes_buy_orders.len(), 1);
    assert_eq!(b.yes_buy_orders[0].filledquantity, 1);
    assert_eq!(buyer.claimable_yes, 7);
    assert_eq!(others[0].claimable_collateral, 7);
}

#[test]
fn placement_rejections() {
    let (mut m, mut b) = open_market();
    let mut s = stats_of(key(11));
    let user = key(11);
    let mut none: Vec<UserStats> = Vec::new();
    assert_eq!(
        place_order(&m, &mut b, &mut s, &mut none, user, OrderSide::Buy, TokenType::Yes, 10, 1, 3, 29, NOW),
        Err(PredictionMarketError::NotEnoughBalance)
    );
    assert_eq!(
        place_order(&m, &mut b, &mut s, &mut none, user, OrderSide::Sell, TokenType::Yes, 10, 1, 3, 9, NOW),
        Err(PredictionMarketError::NotEnoughBalance)
    );
    assert_eq!(
        place_order(&m, &mut b, &mut s, &mut none, user, OrderSide::Buy, TokenType::Yes, u64::MAX, 1, 2, u64::MAX, NOW),
        Err(PredictionMarketError::MathOverflow)
    );
    assert_eq!(
        place_order(&m, &mut b, &mut s, &mut none, user, OrderSide::Buy, TokenType::Yes, 1, 1, 1, 1, 1_000),
        Err(PredictionMarketError::MarketExpired)
    );
    s.locked_no = u64::MAX;
    assert_eq!(
        place_order(&m, &mut b, &mut s, &mut none, user, OrderSide::Sell, TokenType::No, 1, 1, 1, 1, NOW),
        Err(PredictionMarketError::MathOverflow)
    );
    set_winning_side(&mut m, WinningOutcome::OutcomeA, NOW).unwrap();
    assert_eq!(
        place_order(&m, &mut b, &mut s, &mut none, user, OrderSide::Buy, TokenType::Yes, 1, 1, 1, 1, NOW),
        Err(PredictionMarketError::MarketAlreadySettled)
    );
    assert_eq!(b.total_orders(), 0);
}

#[test]
fn credit_overflow_fails_the_call() {
    let (m, mut b) = open_market();
    let mut seller = stats_of(key(11));
    let mut buyer = stats_of(key(12));
    rest(&m, &mut b, &mut seller, OrderSide::Sell, TokenType::Yes, 5, 2).unwrap();
    seller.claimable_collateral = u64::MAX - 3;
    let mut others = vec![seller];
    let r = place_order(
        &m, &mut b, &mut buyer, &mut others, key(12), OrderSide::Buy, TokenType::Yes, 5, 10, 2, 10, NOW,
    );
    assert_eq!(r, Err(PredictionMarketError::MathOverflow));
    assert_eq!(others[0].claimable_collateral, u64::MAX - 3);
    assert_eq!(b.yes_sell_orders[0].filledquantity, 0);
}

#[test]
fn full_side_refuses_a_resting_remainder() {
    let (m, mut b) = open_market();
    let mut s = stats_of(key(11));
    for _ in 0..MAX_ORDERBOOK_LENGTH {
        rest(&m, &mut b, &mut s, OrderSide::Buy, TokenType::Yes, 1, 1).unwrap();
    }
    assert_eq!(b.yes_buy_orders.len(), MAX_ORDERBOOK_LENGTH as usize);
    assert_eq!(
        rest(&m, &mut b, &mut s, OrderSide::Buy, TokenType::Yes, 1, 1),
        Err(PredictionMarketError::MaxOrdersReached)
    );
    assert_eq!(b.yes_buy_orders.len(), MAX_ORDERBOOK_LENGTH as usize);
}

#[test]
fn cancel_refunds_an_unfilled_order() {
    let (m, mut b) = open_market();
    let mut s = stats_of(key(11));
    rest(&m, &mut b, &mut s, OrderSide::Buy, TokenType::Yes, 10, 3).unwrap();
    rest(&m, &mut b, &mut s, OrderSide::Sell, TokenType::No, 4, 3).unwrap();
    assert_eq!(s.locked_collateral, 30);
    assert_eq!(cancel_order(&mut b, &mut s, key(11), OrderSide::Buy, TokenType::Yes, 0), Ok(30));
    assert_eq!(s.locked_collateral, 0);
    assert_eq!(cancel_order(&mut b, &mut s, key(11), OrderSide::Sell, TokenType::No, 1), Ok(4));
    assert_eq!(s, stats_of(key(11)));
    assert_eq!(b.total_orders(), 0);
}

#[test]
fn cancel_refunds_only_the_unfilled_part() {
    let (m, mut b) = open_market();
    let mut seller = stats_of(key(11));
    let mut buyer = stats_of(key(12));
    rest(&m, &mut b, &mut seller, OrderSide::Sell, TokenType::Yes, 50, 2).unwrap();
    let mut others = vec![seller];
    place_order(
        &m, &mut b, &mut buyer, &mut others, key(12), OrderSide::Buy, TokenType::Yes, 30, 10, 2, 60, NOW,
    )
    .unwrap();
    let mut seller = others[0];
    assert_eq!(cancel_order(&mut b, &mut seller, key(11), OrderSide::Sell, TokenType::Yes, 0), Ok(20));
    assert_eq!(seller.locked_yes, 30);
    assert!(b.yes_sell_orders.is_empty());
}

#[test]
fn cancel_rejections() {
    let (m, mut b) = open_market();
    let mut s = stats_of(key(11));
    rest(&m, &mut b, &mut s, OrderSide::Buy, TokenType::Yes, 10, 3).unwrap();
    assert_eq!(
        cancel_order(&mut b, &mut s, key(11), OrderSide::Buy, TokenType::Yes, 5),
        Err(PredictionMarketError::OrderNotFound)
    );
    assert_eq!(
        cancel_order(&mut b, &mut s, key(11), OrderSide::Sell, TokenType::Yes, 0),
        Err(PredictionMarketError::OrderNotFound)
    );
    let mut other = stats_of(key(12));
    assert_eq!(
        cancel_order(&mut b, &mut other, key(12), OrderSide::Buy, TokenType::Yes, 0),
        Err(PredictionMarketError::NotOrderOwner)
    );
    s.locked_collateral = 5;
    assert_eq!(
        cancel_order(&mut b, &mut s, key(11), OrderSide::Buy, TokenType::Yes, 0),
        Err(PredictionMarketError::MathOverflow)
    );
    assert_eq!(b.yes_buy_orders.len(), 1);
}

#[test]
fn storage_size_of_the_book() {
    let (m, mut b) = open_market();
    assert_eq!(ORDERBOOK_BASE_SIZE, 37);
    assert_eq!(ORDER_SIZE, 80);
    assert_eq!(OrderBook::space(0), 37);
    assert_eq!(OrderBook::space(10), 37 + 10 * 80 * 4);
    let mut s = stats_of(key(11));
    rest(&m, &mut b, &mut s, OrderSide::Buy, TokenType::Yes, 1, 1).unwrap();
    rest(&m, &mut b, &mut s, OrderSide::Buy, TokenType::Yes, 1, 1).unwrap();
    rest(&m, &mut b, &mut s, OrderSide::Sell, TokenType::No, 1, 1).unwrap();
    assert_eq!(b.total_orders(), 3);
    assert_eq!(b.current_space_needed(), 37 + 2 * 320);
}

#[test]
fn account_keys_compare_by_bytes() {
    let mut a = key(3);
    assert!(a == key(3));
    a.bytes[31] = 4;
    assert!(a != key(3));
    assert!(AccountKey::zero() == key(0));
}

#[test]
fn well_formed_books_are_recognised() {
    let (m, mut b) = open_market();
    assert!(b.is_well_formed());
    let mut s = stats_of(key(11));
    rest(&m, &mut b, &mut s, OrderSide::Buy, TokenType::Yes, 1, 4).unwrap();
    rest(&m, &mut b, &mut s, OrderSide::Buy, TokenType::Yes, 1, 6).unwrap();
    assert!(b.is_well_formed());
    let mut unsorted = b.clone();
    unsorted.yes_buy_orders.swap(0, 1);
    assert!(!unsorted.is_well_formed());
    let mut filled = b.clone();
    filled.yes_buy_orders[0].filledquantity = 1;
    assert!(!filled.is_well_formed());
    let mut misplaced = b.clone();
    let o = misplaced.yes_buy_orders.pop().unwrap();
    misplaced.no_buy_orders.push(o);
    assert!(!misplaced.is_well_formed());
}

#[test]
fn sell_with_large_notional_rests() {
    let (m, mut b) = open_market();
    let mut s = stats_of(key(11));
    let quantity: u64 = 1 << 40;
    let price: u64 = 1 << 40;
    let r = place_order(
        &m, &mut b, &mut s, &mut Vec::new(), key(11), OrderSide::Sell, TokenType::Yes, quantity, 10, price, quantity, NOW,
    );
    assert_eq!(r, Ok(quantity));
    assert_eq!(s.locked_yes, quantity);
    assert_eq!(b.yes_sell_orders.len(), 1);
    assert_eq!(b.yes_sell_orders[0].price, price);
    let short = place_order(
        &m, &mut b, &mut s, &mut Vec::new(), key(11), OrderSide::Sell, TokenType::Yes, quantity, 10, price, 0, NOW,
    );
    assert_eq!(short, Err(PredictionMarketError::NotEnoughBalance));
}

#[test]
fn missing_record_is_reported_before_overflow() {
    let (m, mut b) = open_market();
    let mut seller = stats_of(key(11));
    rest(&m, &mut b, &mut seller, OrderSide::Sell, TokenType::Yes, 5, 2).unwrap();
    let mut buyer = stats_of(key(12));
    buyer.claimable_yes = u64::MAX;
    buyer.locked_collateral = u64::MAX;
    let r = place_order(
        &m, &mut b, &mut buyer, &mut Vec::new(), key(12), OrderSide::Buy, TokenType::Yes, 5, 10, 2, 10, NOW,
    );
    assert_eq!(r, Err(PredictionMarketError::SellerStatsAccountNotProvided));
    assert_eq!(buyer.locked_collateral, u64::MAX);
}

#[test]
fn owner_of_several_matched_orders_gets_their_sum() {
    let (m, mut b) = open_market();
    let mut s1 = stats_of(key(11));
    let mut s2 = stats_of(key(12));
    let mut seller = stats_of(key(13));
    rest(&m, &mut b, &mut s1, OrderSide::Buy, TokenType::No, 4, 5).unwrap();
    rest(&m, &mut b, &mut s2, OrderSide::Buy, TokenType::No, 3, 4).unwrap();
    rest(&m, &mut b, &mut s1, OrderSide::Buy, TokenType::No, 6, 3).unwrap();
    let mut others = vec![s2, s1];
    let r = place_order(
        &m, &mut b, &mut seller, &mut others, key(13), OrderSide::Sell, TokenType::No, 10, 10, 3, 10, NOW,
    );
    assert_eq!(r, Ok(10));
    assert_eq!(others[1].claimable_no, 4 + 3);
    assert_eq!(others[0].claimable_no, 3);
    assert_eq!(others[1].claimable_yes, 0);
    assert_eq!(seller.claimable_collateral, 4 * 5 + 3 * 4 + 3 * 3);
    assert_eq!(b.no_buy_orders.len(), 1);
    assert_eq!(b.no_buy_orders[0].filledquantity, 3);
}

#[test]
fn ids_and_arrival_order_are_part_of_validity() {
    let (m, mut b) = open_market();
    let mut s = stats_of(key(11));
    rest(&m, &mut b, &mut s, OrderSide::Sell, TokenType::Yes, 1, 4).unwrap();
    rest(&m, &mut b, &mut s, OrderSide::Sell, TokenType::Yes, 1, 4).unwrap();
    assert!(b.is_well_formed());
    let mut stale = b.clone();
    stale.next_order_id = 1;
    assert!(!stale.is_well_formed());
    let mut reordered = b.clone();
    reordered.yes_sell_orders.swap(0, 1);
    assert!(!reordered.is_well_formed());
}
