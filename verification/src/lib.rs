pub mod unit;
pub mod trace;
pub mod adapter;
pub mod driver;
pub mod engine_automerge;
pub mod engine_cola;
pub mod engine_dt;
pub mod engine_yrs;
