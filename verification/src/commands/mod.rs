//! The commands the server runs, one executor each. An executor computes
//! the reply frame (and changes the store, for SET and an expired GET); the
//! caller writes the reply to the client.

pub mod config_executor;
pub mod echo_executor;
pub mod error_executor;
pub mod get_executor;
pub mod ping_executor;
pub mod set_executor;

pub use config_executor::ConfigExecutor;
pub use echo_executor::EchoExecutor;
pub use error_executor::ErrorExecutor;
pub use get_executor::GetExecutor;
pub use ping_executor::PingExecutor;
pub use set_executor::SetExecutor;
