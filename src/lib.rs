pub mod boards;
pub mod entropy;
pub mod history;
pub mod ids;
pub mod keys;
pub mod ledger;
pub mod matchmaking;
pub mod ranking;
pub mod segment;
