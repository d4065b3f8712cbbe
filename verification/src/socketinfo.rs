pub mod linuxsocket;
pub mod linuxsocket_builder;
pub mod linuxsocket_utils;
pub mod utils;
pub mod socketprocessinfo;
pub mod socketprocessinfo_builder;
