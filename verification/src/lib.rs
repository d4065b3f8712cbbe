//! Listing the sockets of a Linux machine from the records of `/proc/net`,
//! and finding the processes that hold them.
pub mod scan;
pub mod socketinfo;
pub mod text;
