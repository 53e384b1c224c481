//! A viewer for electronic announcements over Telnet and TLS: the parts that compute.

pub mod host_laws;
pub mod ip;
pub mod ip_laws;
pub mod list_laws;
pub mod page;
pub mod request;
pub mod security;
pub mod security_laws;
pub mod session;
pub mod stamp;
pub mod telnet;
pub mod text;
pub mod text_laws;
