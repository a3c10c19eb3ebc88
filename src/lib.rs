//! Order-book matching engine and collateral accounting for a binary
//! prediction market.
//!
//! The library holds the market's decisions: which operations are allowed,
//! how outcome-token pairs are issued and redeemed, how orders are matched,
//! and what every participant is credited. Moving assets on the ledger is
//! left to the caller, who performs the transfers that a successful call
//! reports and commits everything atomically.
pub mod constants;
pub mod error;
pub mod market;
pub mod matching;
pub mod state;
pub mod trading;

pub use constants::MAX_ORDERBOOK_LENGTH;
pub use error::PredictionMarketError;
pub use market::{
    claim_rewards, initialize_market, merge_tokens, set_winning_side, split_tokens, CollateralCall,
    MarketAccounts,
};
pub use state::{
    AccountKey, Market, Order, OrderBook, OrderSide, TokenType, UserStats, WinningOutcome,
    ORDERBOOK_BASE_SIZE, ORDER_SIZE,
};
pub use trading::{cancel_order, place_order};
