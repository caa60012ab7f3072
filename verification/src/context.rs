//! The per-request context: a shared handle to the process-wide application
//! state, an exclusively owned request state, the matched path parameters and
//! the request headers.
//!
//! The application state is shared by reference counting and is read-only
//! while shared: a mutable view is handed out only to a context that is the
//! sole owner of the handle at that instant, so no request can observe a torn
//! mutation made by another.

use vstd::prelude::*;

use std::sync::Arc;

use crate::strmap::StrMap;

verus! {

/// Relies on std's Arc::clone: the clone is a handle to the same value.
#[verifier::external_body]
fn share<A>(a: &Arc<A>) -> (r: Arc<A>)
    ensures
        r == *a,
{
    a.clone()
}

/// Relies on std's Arc::get_mut: a mutable view of the shared value is given
/// only when no other handle to it exists at that instant, and it points at
/// that value; whether it is given depends on the live handles, so nothing is
/// promised about which arm comes back.
#[verifier::external_body]
fn sole_owner_mut<A>(a: &mut Arc<A>) -> (r: Option<&mut A>)
    ensures
        match r {
            Some(m) => *m == *old(a) && *final(a) == *final(m),
            None => *final(a) == *old(a),
        },
{
    Arc::get_mut(a)
}

/// The request-scoped view a handler runs against.
pub struct Context<AppState, RequestState> {
    app_state: Arc<AppState>,
    request_state: RequestState,
    params: StrMap,
    headers: StrMap,
}

impl<AppState, RequestState> Context<AppState, RequestState> {
    /// The shared application state, as a value.
    pub closed spec fn app_state_spec(&self) -> Arc<AppState> {
        self.app_state
    }

    /// The request-local state.
    pub closed spec fn request_state_spec(&self) -> RequestState {
        self.request_state
    }

    /// The matched path parameters.
    pub closed spec fn params_spec(&self) -> StrMap {
        self.params
    }

    /// The request headers.
    pub closed spec fn headers_spec(&self) -> StrMap {
        self.headers
    }

    /// The representation invariant: both mappings are well formed.
    pub open spec fn wf(&self) -> bool {
        self.params_spec().wf() && self.headers_spec().wf()
    }

    /// Pure construction from the shared state, a fresh request state, the
    /// matched path parameters and the raw request headers; never fails.
    pub fn new(
        app_state: Arc<AppState>,
        request_state: RequestState,
        params: StrMap,
        raw_headers: StrMap,
    ) -> (r: Context<AppState, RequestState>)
        ensures
            r.app_state_spec() == app_state,
            r.request_state_spec() == request_state,
            r.params_spec() == params,
            r.headers_spec() == raw_headers,
    {
        Context { app_state, request_state, params, headers: raw_headers }
    }

    /// A read-only borrow of the shared application state; always succeeds.
    pub fn app_state(&self) -> (r: &AppState)
        ensures
            *r == self.app_state_spec(),
    {
        &*self.app_state
    }

    /// A mutable view of the shared application state, only if this context
    /// is the sole owner of it at this instant; otherwise nothing. Whether
    /// the view is given depends on the handles live at the call.
    pub fn app_state_mut(&mut self) -> (r: Option<&mut AppState>)
        ensures
            match r {
                Some(m) => *m == old(self).app_state_spec() && final(self).app_state_spec()
                    == *final(m),
                None => final(self).app_state_spec() == old(self).app_state_spec(),
            },
            final(self).request_state_spec() == old(self).request_state_spec(),
            final(self).params_spec() == old(self).params_spec(),
            final(self).headers_spec() == old(self).headers_spec(),
    {
        sole_owner_mut(&mut self.app_state)
    }

    /// A read-only borrow of the request-local state.
    pub fn request_state(&self) -> (r: &RequestState)
        ensures
            *r == self.request_state_spec(),
    {
        &self.request_state
    }

    /// A mutable borrow of the request-local state: it is exclusively owned
    /// by the one in-flight request, so this is unrestricted.
    pub fn request_state_mut(&mut self) -> (r: &mut RequestState)
        ensures
            *r == old(self).request_state_spec(),
            final(self).request_state_spec() == *final(r),
            final(self).app_state_spec() == old(self).app_state_spec(),
            final(self).params_spec() == old(self).params_spec(),
            final(self).headers_spec() == old(self).headers_spec(),
    {
        &mut self.request_state
    }

    /// The matched path parameters.
    pub fn params(&self) -> (r: &StrMap)
        ensures
            *r == self.params_spec(),
    {
        &self.params
    }

    /// A mutable borrow of the path parameters.
    pub fn params_mut(&mut self) -> (r: &mut StrMap)
        ensures
            *r == old(self).params_spec(),
            final(self).params_spec() == *final(r),
            final(self).app_state_spec() == old(self).app_state_spec(),
            final(self).request_state_spec() == old(self).request_state_spec(),
            final(self).headers_spec() == old(self).headers_spec(),
    {
        &mut self.params
    }

    /// The request headers.
    pub fn headers(&self) -> (r: &StrMap)
        ensures
            *r == self.headers_spec(),
    {
        &self.headers
    }

    /// Hand the shared application state on, for a caller that builds the
    /// context itself.
    pub fn share_state(a: &Arc<AppState>) -> (r: Arc<AppState>)
        ensures
            r == *a,
    {
        share(a)
    }
}

/// A context with no application state and no request state.
pub type EmptyContext = Context<(), ()>;

/// A context with application state only.
pub type AppContext<T> = Context<T, ()>;

} // verus!
