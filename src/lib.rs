//! Rum: HTTP routing and middleware composition, with verified contracts.
//!
//! The library holds the logic of the framework: the path model, the route
//! trie, the middleware chain builder, route group flattening, and the maps
//! of request parameters. Handlers and middleware are referred to by ids;
//! the code that runs them lives outside the verified library.

mod keyed;
pub mod body;
pub mod cookie;
pub mod error;
pub mod extract;
pub mod header;
pub mod method;
pub mod parse;
pub mod path_params;
pub mod query;
pub mod request;
pub mod response;
pub mod middleware;
pub mod route_group;
pub mod route_level;
pub mod route_path;
mod text;
