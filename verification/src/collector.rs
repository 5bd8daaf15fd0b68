pub mod collector_server;
pub mod fault_tolerant_handler;
pub mod sensor_collector;
