pub mod sensor_server;
