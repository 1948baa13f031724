//! Settles shared expenses: builds the graph of who owes whom, reduces it to
//! few transfers, and checks that every participant ends at a fair share.

pub mod fair;
pub mod graph;
pub mod input;
pub mod ledger;
pub mod money;
pub mod payment;
pub mod person;
pub mod settle;
pub mod solver;
