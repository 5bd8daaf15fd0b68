pub mod manager;
pub mod packet;
