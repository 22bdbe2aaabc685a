//! A SOCKS5 proxy's protocol logic: the wire messages, the username/password
//! check, the text the controller and its node exchange, and the state machines
//! that decide, event by event, what a connection does next.
pub mod credentials;
pub mod decimal;
pub mod echo;
pub mod ip_text;
pub mod lossy;
pub mod node_messages;
pub mod node_session;
pub mod port_text;
pub mod session;
pub mod wire;
