pub mod encrypted_sensor_value;
pub mod sensor_value;
