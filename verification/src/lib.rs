//! A verified price–time priority limit-order matching engine for a single
//! instrument: participant accounts with checked cash and holding
//! arithmetic, immutable limit-order descriptors, and an order book that
//! matches incoming orders against resting liquidity, settles every fill
//! between the counterparties' accounts, parks residuals, and answers
//! top-of-book and last-traded-price queries.

pub mod account;
pub mod book;
pub mod order;
