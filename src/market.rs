use vstd::prelude::*;

use crate::error::PredictionMarketError;
use crate::state::{AccountKey, Market, OrderBook, TokenType, UserStats, WinningOutcome};

verus! {

/// The ledger accounts that a new market is bound to.
#[derive(Clone, Copy, Debug)]
pub struct MarketAccounts {
    pub authority: AccountKey,
    pub collateral_mint: AccountKey,
    pub collateral_vault: AccountKey,
    pub outcome_yes_mint: AccountKey,
    pub outcome_no_mint: AccountKey,
    pub yes_escrow: AccountKey,
    pub no_escrow: AccountKey,
}

/// Creates an open market and its empty order book; the deadline must lie
/// after `now`.
pub fn initialize_market(
    accounts: &MarketAccounts,
    market_id: u32,
    settlement_deadline: i64,
    now: i64,
    market_bump: u8,
    orderbook_bump: u8,
) -> (r: Result<(Market, OrderBook), PredictionMarketError>)
    ensures
        settlement_deadline <= now ==> r == Err::<(Market, OrderBook), _>(
            PredictionMarketError::InvalidSettlementDeadline,
        ),
        settlement_deadline > now ==> r is Ok,
        r matches Ok((m, b)) ==> {
            &&& m.authority == accounts.authority
            &&& m.market_id == market_id
            &&& m.settlement_deadline == settlement_deadline
            &&& m.collateral_mint == accounts.collateral_mint
            &&& m.collateral_vault == accounts.collateral_vault
            &&& m.outcome_yes_mint == accounts.outcome_yes_mint
            &&& m.outcome_no_mint == accounts.outcome_no_mint
            &&& m.yes_escrow == accounts.yes_escrow
            &&& m.no_escrow == accounts.no_escrow
            &&& !m.is_settled
            &&& m.winning_outcome is None
            &&& m.total_collateral_locked == 0
            &&& m.bump == market_bump
            &&& m.meta_data_url@.len() == 0
            &&& m.wf()
            &&& b.market_id == market_id
            &&& b.next_order_id == 0
            &&& b.yes_buy_orders@.len() == 0
            &&& b.yes_sell_orders@.len() == 0
            &&& b.no_buy_orders@.len() == 0
            &&& b.no_sell_orders@.len() == 0
            &&& b.bump == orderbook_bump
            &&& b.wf()
        },
{
    if settlement_deadline <= now {
        return Err(PredictionMarketError::InvalidSettlementDeadline);
    }
    let market = Market {
        authority: accounts.authority,
        market_id,
        settlement_deadline,
        collateral_mint: accounts.collateral_mint,
        collateral_vault: accounts.collateral_vault,
        is_settled: false,
        winning_outcome: None,
        total_collateral_locked: 0,
        bump: market_bump,
        meta_data_url: String::new(),
        outcome_yes_mint: accounts.outcome_yes_mint,
        outcome_no_mint: accounts.outcome_no_mint,
        yes_escrow: accounts.yes_escrow,
        no_escrow: accounts.no_escrow,
    };
    let book = OrderBook {
        market_id,
        next_order_id: 0,
        yes_buy_orders: Vec::new(),
        yes_sell_orders: Vec::new(),
        no_buy_orders: Vec::new(),
        no_sell_orders: Vec::new(),
        bump: orderbook_bump,
    };
    Ok((market, book))
}

/// The new collateral total after splitting `amount`, or why the split is
/// refused.
pub open spec fn split_outcome(m: Market, amount: u64, now: i64) -> Result<u64, PredictionMarketError> {
    if amount == 0 {
        Err(PredictionMarketError::InvalidAmount)
    } else if m.is_settled {
        Err(PredictionMarketError::MarketAlreadySettled)
    } else if now >= m.settlement_deadline {
        Err(PredictionMarketError::MarketExpired)
    } else if m.total_collateral_locked + amount > u64::MAX {
        Err(PredictionMarketError::MathOverflow)
    } else {
        Ok((m.total_collateral_locked + amount) as u64)
    }
}

/// The number of token pairs that a merge redeems, or why it is refused.
pub open spec fn merge_outcome(m: Market, balance_yes: u64, balance_no: u64, now: i64) -> Result<
    u64,
    PredictionMarketError,
> {
    let amount = if balance_yes <= balance_no { balance_yes } else { balance_no };
    if now >= m.settlement_deadline {
        Err(PredictionMarketError::MarketExpired)
    } else if m.is_settled {
        Err(PredictionMarketError::MarketAlreadySettled)
    } else if amount == 0 {
        Err(PredictionMarketError::InvalidAmount)
    } else if m.total_collateral_locked < amount {
        Err(PredictionMarketError::MathOverflow)
    } else {
        Ok(amount)
    }
}

/// `m` with a new collateral total.
pub open spec fn with_total(m: Market, total: u64) -> Market {
    Market { total_collateral_locked: total, ..m }
}

/// A user's record as it stands once `user` has interacted with the market:
/// an unowned record is claimed with empty balances, an owned one is kept.
pub open spec fn claimed_stats(s: UserStats, user: AccountKey, market_id: u32, bump: u8) -> UserStats {
    if s.user.is_zero() {
        UserStats {
            user,
            market_id,
            claimable_yes: 0,
            locked_yes: 0,
            claimable_no: 0,
            locked_no: 0,
            claimable_collateral: 0,
            locked_collateral: 0,
            reward_claimed: s.reward_claimed,
            bump,
        }
    } else {
        s
    }
}

/// Locks `amount` collateral to issue `amount` outcome-A and `amount`
/// outcome-B tokens. On success the caller moves the collateral into the
/// vault and mints both tokens; on failure nothing changes.
pub fn split_tokens(
    market: &mut Market,
    user_stats: &mut UserStats,
    user: AccountKey,
    stats_bump: u8,
    market_id: u32,
    amount: u64,
    now: i64,
) -> (r: Result<(), PredictionMarketError>)
    ensures
        match split_outcome(*old(market), amount, now) {
            Ok(total) => {
                &&& r is Ok
                &&& *final(market) == with_total(*old(market), total)
                &&& *final(user_stats) == claimed_stats(*old(user_stats), user, market_id, stats_bump)
            },
            Err(e) => {
                &&& r == Err::<(), _>(e)
                &&& *final(market) == *old(market)
                &&& *final(user_stats) == *old(user_stats)
            },
        },
        *final(market) == after_call(*old(market), (CollateralCall::Split { amount, now })),
{
    if amount == 0 {
        return Err(PredictionMarketError::InvalidAmount);
    }
    if market.is_settled {
        return Err(PredictionMarketError::MarketAlreadySettled);
    }
    if now >= market.settlement_deadline {
        return Err(PredictionMarketError::MarketExpired);
    }
    let total = match market.total_collateral_locked.checked_add(amount) {
        Some(t) => t,
        None => return Err(PredictionMarketError::MathOverflow),
    };
    market.total_collateral_locked = total;
    let zero = AccountKey::zero();
    let unowned = user_stats.user == zero;
    proof {
        if user_stats.user.is_zero() {
            assert(user_stats.user.bytes@ =~= zero.bytes@);
        }
    }
    if unowned {
        user_stats.user = user;
        user_stats.market_id = market_id;
        user_stats.locked_yes = 0;
        user_stats.claimable_yes = 0;
        user_stats.locked_no = 0;
        user_stats.claimable_no = 0;
        user_stats.locked_collateral = 0;
        user_stats.claimable_collateral = 0;
        user_stats.bump = stats_bump;
    }
    Ok(())
}

/// Redeems `min(balance_yes, balance_no)` token pairs, the caller's balances
/// of the two outcome tokens. On success the caller burns that many of each
/// token and pays as much collateral out of the vault.
pub fn merge_tokens(market: &mut Market, balance_yes: u64, balance_no: u64, now: i64) -> (r: Result<
    u64,
    PredictionMarketError,
>)
    ensures
        r == merge_outcome(*old(market), balance_yes, balance_no, now),
        match r {
            Ok(amount) => *final(market) == with_total(
                *old(market),
                (old(market).total_collateral_locked - amount) as u64,
            ),
            Err(_) => *final(market) == *old(market),
        },
        *final(market) == after_call(
            *old(market),
            (CollateralCall::Merge { balance_yes, balance_no, now }),
        ),
{
    if now >= market.settlement_deadline {
        return Err(PredictionMarketError::MarketExpired);
    }
    if market.is_settled {
        return Err(PredictionMarketError::MarketAlreadySettled);
    }
    let amount = if balance_yes <= balance_no {
        balance_yes
    } else {
        balance_no
    };
    if amount == 0 {
        return Err(PredictionMarketError::InvalidAmount);
    }
    let total = match market.total_collateral_locked.checked_sub(amount) {
        Some(t) => t,
        None => return Err(PredictionMarketError::MathOverflow),
    };
    market.total_collateral_locked = total;
    Ok(amount)
}

/// Resolves an open market once and for all. On success the caller revokes
/// the market's authority to mint outcome tokens.
pub fn set_winning_side(market: &mut Market, winning_outcome: WinningOutcome, now: i64) -> (r: Result<
    (),
    PredictionMarketError,
>)
    ensures
        now >= old(market).settlement_deadline ==> r == Err::<(), _>(
            PredictionMarketError::MarketExpired,
        ),
        now < old(market).settlement_deadline && old(market).is_settled ==> r == Err::<(), _>(
            PredictionMarketError::MarketAlreadySettled,
        ),
        old(market).is_open(now) ==> r is Ok,
        r is Ok ==> *final(market) == (Market {
            is_settled: true,
            winning_outcome: Some(winning_outcome),
            ..*old(market)
        }),
        r is Err ==> *final(market) == *old(market),
{
    if now >= market.settlement_deadline {
        return Err(PredictionMarketError::MarketExpired);
    }
    if market.is_settled {
        return Err(PredictionMarketError::MarketAlreadySettled);
    }
    market.is_settled = true;
    market.winning_outcome = Some(winning_outcome);
    Ok(())
}

/// The token and amount that a claim redeems, or why it is refused:
/// every unit of the winning token the caller holds is worth one unit of
/// collateral. A draw has no payout rule and is refused.
pub open spec fn claim_outcome(m: Market, balance_yes: u64, balance_no: u64) -> Result<
    (TokenType, u64),
    PredictionMarketError,
> {
    if !m.is_settled {
        Err(PredictionMarketError::MarketNotSettled)
    } else {
        match m.winning_outcome {
            None => Err(PredictionMarketError::WinningOutcomeNotSet),
            Some(WinningOutcome::Neither) => Err(PredictionMarketError::InvalidWinningOutcome),
            Some(WinningOutcome::OutcomeA) => if m.total_collateral_locked < balance_yes {
                Err(PredictionMarketError::MathOverflow)
            } else {
                Ok((TokenType::Yes, balance_yes))
            },
            Some(WinningOutcome::OutcomeB) => if m.total_collateral_locked < balance_no {
                Err(PredictionMarketError::MathOverflow)
            } else {
                Ok((TokenType::No, balance_no))
            },
        }
    }
}

/// Redeems the caller's winning tokens, given the caller's balances of both
/// outcome tokens. On success the caller burns the returned amount of the
/// returned token and pays as much collateral out of the vault.
pub fn claim_rewards(market: &mut Market, balance_yes: u64, balance_no: u64) -> (r: Result<
    (TokenType, u64),
    PredictionMarketError,
>)
    ensures
        r == claim_outcome(*old(market), balance_yes, balance_no),
        match r {
            Ok((_, amount)) => *final(market) == with_total(
                *old(market),
                (old(market).total_collateral_locked - amount) as u64,
            ),
            Err(_) => *final(market) == *old(market),
        },
{
    if !market.is_settled {
        return Err(PredictionMarketError::MarketNotSettled);
    }
    let (token, amount) = match market.winning_outcome {
        None => return Err(PredictionMarketError::WinningOutcomeNotSet),
        Some(WinningOutcome::Neither) => return Err(PredictionMarketError::InvalidWinningOutcome),
        Some(WinningOutcome::OutcomeA) => (TokenType::Yes, balance_yes),
        Some(WinningOutcome::OutcomeB) => (TokenType::No, balance_no),
    };
    let total = match market.total_collateral_locked.checked_sub(amount) {
        Some(t) => t,
        None => return Err(PredictionMarketError::MathOverflow),
    };
    market.total_collateral_locked = total;
    Ok((token, amount))
}

/// One call that issues or redeems token pairs, with its arguments.
pub enum CollateralCall {
    Split { amount: u64, now: i64 },
    Merge { balance_yes: u64, balance_no: u64, now: i64 },
}

/// The market after one call, as `split_tokens` and `merge_tokens` leave it.
pub open spec fn after_call(m: Market, c: CollateralCall) -> Market {
    match c {
        CollateralCall::Split { amount, now } => match split_outcome(m, amount, now) {
            Ok(total) => with_total(m, total),
            Err(_) => m,
        },
        CollateralCall::Merge { balance_yes, balance_no, now } => match merge_outcome(
            m,
            balance_yes,
            balance_no,
            now,
        ) {
            Ok(amount) => with_total(m, (m.total_collateral_locked - amount) as u64),
            Err(_) => m,
        },
    }
}

/// The market after a sequence of calls, in order.
pub open spec fn after_calls(m: Market, calls: Seq<CollateralCall>) -> Market
    decreases calls.len(),
{
    if calls.len() == 0 {
        m
    } else {
        after_call(after_calls(m, calls.drop_last()), calls.last())
    }
}

/// Collateral paid in by the splits among `calls` that succeeded.
pub open spec fn split_total(m: Market, calls: Seq<CollateralCall>) -> int
    decreases calls.len(),
{
    if calls.len() == 0 {
        0
    } else {
        let before = after_calls(m, calls.drop_last());
        split_total(m, calls.drop_last()) + match calls.last() {
            CollateralCall::Split { amount, now } => if split_outcome(before, amount, now) is Ok {
                amount as int
            } else {
                0
            },
            CollateralCall::Merge { .. } => 0,
        }
    }
}

/// Collateral paid out by the merges among `calls` that succeeded.
pub open spec fn merge_total(m: Market, calls: Seq<CollateralCall>) -> int
    decreases calls.len(),
{
    if calls.len() == 0 {
        0
    } else {
        let before = after_calls(m, calls.drop_last());
        merge_total(m, calls.drop_last()) + match calls.last() {
            CollateralCall::Merge { balance_yes, balance_no, now } => match merge_outcome(
                before,
                balance_yes,
                balance_no,
                now,
            ) {
                Ok(amount) => amount as int,
                Err(_) => 0,
            },
            CollateralCall::Split { .. } => 0,
        }
    }
}

/// Over any sequence of splits and merges on one market, the collateral it
/// holds locked is what it started with, plus what the successful splits
/// paid in, minus what the successful merges paid out; it never drops
/// below zero.
pub proof fn lemma_collateral_tracks_splits_and_merges(m: Market, calls: Seq<CollateralCall>)
    ensures
        after_calls(m, calls).total_collateral_locked == m.total_collateral_locked + split_total(
            m,
            calls,
        ) - merge_total(m, calls),
        after_calls(m, calls).total_collateral_locked >= 0,
    decreases calls.len(),
{
    if calls.len() > 0 {
        lemma_collateral_tracks_splits_and_merges(m, calls.drop_last());
    }
}

} // verus!
