//! A minimal HTTP application toolkit: handlers are registered against an
//! application under a method and a route pattern; an incoming request is
//! matched to a handler, a per-request context is built, and whatever value
//! the handler returns is normalised into a canonical response.

pub mod application;
pub mod context;
pub mod json;
pub mod responses;
pub mod router;
pub mod strmap;

pub use application::{Action, Application, Handler, Request};
pub use context::{AppContext, Context, EmptyContext};
pub use json::{decode, encode, JsonValue};
pub use responses::{Body, RenderError, Response, ReturnValue, WirePayload};
pub use strmap::StrMap;
