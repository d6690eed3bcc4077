pub mod block;
pub mod report;
pub mod sim;
pub mod transaction;
