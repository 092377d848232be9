pub mod order;
pub mod trade;
pub mod order_book;
pub mod engine;
pub mod configuration;
pub mod theorems;
pub mod id_count;
