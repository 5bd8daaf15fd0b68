pub mod byte_order;
pub mod crypt_utils;
pub mod env_parser;
