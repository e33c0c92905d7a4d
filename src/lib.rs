pub mod grammar;
pub mod reply;
pub mod request;
pub mod request_parsing;
pub mod session;
pub mod store;
pub mod text;

pub use reply::Reply;
pub use request::{LoadRequest, Request, StoreRequest, TaskError};
pub use request_parsing::try_parse_request;
pub use session::{Action, Connection, Event};
pub use store::MemoryStore;
