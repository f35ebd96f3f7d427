pub mod arrival_order;
pub mod balance_laws;
pub mod book;
pub mod book_laws;
pub mod book_model;
pub mod collections;
pub mod engine;
pub mod engine_laws;
pub mod engine_model;
pub mod events;
pub mod gateway;
pub mod persistence;
pub mod recovery_laws;
pub mod replace_laws;
pub mod reservation_laws;
pub mod restart_laws;
pub mod risk;
pub mod risk_laws;
pub mod types;
