use vstd::prelude::*;

verus! {

/// Every way in which an operation on a market can be refused.
#[derive(Clone, Copy, Debug, PartialEq, Eq, Structural)]
pub enum PredictionMarketError {
    InvalidSettlementDeadline,
    MarketAlreadySettled,
    MarketExpired,
    InvalidAmount,
    MathOverflow,
    InvalidWinningOutcome,
    MarketNotSettled,
    WinningOutcomeNotSet,
    InvalidOrderQuantity,
    InvalidOrderPrice,
    NotEnoughBalance,
    SellerStatsAccountNotProvided,
    BuyerStatsAccountNotProvided,
    MaxOrdersReached,
    OrderNotFound,
    NotOrderOwner,
}

} // verus!
