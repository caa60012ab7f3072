//! The application: shared state, the routing table and the registered
//! handlers, with the dispatch of one request-response cycle.
//!
//! Dispatch follows the request through `Received -> Matched -> Executing ->
//! Resolved`, or reports "no handler" when no pattern matches: the matcher
//! resolves the path to a handler index, a fresh context is built from the
//! shared state, a defaulted request state, the extracted path parameters and
//! the request headers, the handler runs, and its return value is normalised
//! into the canonical response. Matching is by path alone: the method bound
//! at registration is recorded but, as in the documented dispatch behaviour,
//! not checked against the request's method.

use vstd::prelude::*;

use std::sync::Arc;

use crate::context::Context;
use crate::responses::{convert_spec, Response, ReturnValue};
use crate::router::{nul_free, params_of, route_of, router_add, router_new, router_recognize};
use crate::strmap::StrMap;

verus! {

/// One request as dispatch sees it: the method, the URL path, and the
/// headers, each as plain text.
pub struct Request {
    pub method: String,
    pub path: String,
    pub headers: StrMap,
}

impl Request {
    /// The representation invariant: the header mapping is well formed.
    pub open spec fn wf(&self) -> bool {
        self.headers.wf()
    }
}

/// A handler's action: an arbitrary function from the request context to a
/// return value. Implementations describe their possible outcomes with
/// `yields`; a pure handler is one whose `yields` admits at most one value
/// per context.
pub trait Action<AppState, RequestState>: Send + Sync {
    /// The relation between the context a call is given and the values the
    /// call may return.
    spec fn yields(&self, ctx: Context<AppState, RequestState>, v: ReturnValue) -> bool;

    /// Run the handler on one request's context, to completion, producing
    /// exactly one return value, with every header mapping in it well formed.
    fn run(&self, ctx: Context<AppState, RequestState>) -> (v: ReturnValue)
        ensures
            self.yields(ctx, v),
            v.wf(),
    ;
}

/// A named, method+route-bound handler: created at application-build time,
/// immutable thereafter.
#[verifier::reject_recursive_types(AppState)]
#[verifier::reject_recursive_types(RequestState)]
pub struct Handler<AppState, RequestState> {
    /// The diagnostic name.
    pub name: String,
    /// The HTTP method bound at registration.
    pub method: String,
    /// The route pattern bound at registration.
    pub route: String,
    /// The handler's action, run on the context that dispatch builds.
    pub action: Box<dyn Action<AppState, RequestState>>,
}

impl<AppState, RequestState> Handler<AppState, RequestState> {
    /// Bind a name, a method, a route pattern and an action into an
    /// invocable unit. Nothing about the route syntax is validated here;
    /// that is the matcher's concern. The stored action is pinned by the
    /// type system alone: the verifier does not yet carry the identity of a
    /// `dyn`-typed value through a struct construction, so an ensures clause
    /// `r.action == action` is not provable, here or at a caller's own
    /// literal construction.
    pub fn new(
        name: &str,
        method: &str,
        route: &str,
        action: Box<dyn Action<AppState, RequestState>>,
    ) -> (r: Handler<AppState, RequestState>)
        ensures
            r.name@ == name@,
            r.method@ == method@,
            r.route@ == route@,
    {
        Handler { name: name.to_owned(), method: method.to_owned(), route: route.to_owned(), action }
    }
}

/// Two contexts that look the same to a handler: the same shared state, the
/// same request state, and the same parameter and header mappings.
pub open spec fn equivalent_contexts<AppState, RequestState>(
    c1: Context<AppState, RequestState>,
    c2: Context<AppState, RequestState>,
) -> bool {
    c1.app_state_spec() == c2.app_state_spec() && c1.request_state_spec() == c2.request_state_spec()
        && c1.params_spec()@ == c2.params_spec()@ && c1.headers_spec()@ == c2.headers_spec()@
}

/// A pure handler: on contexts that look the same, its action can only yield
/// one and the same value.
pub open spec fn pure_handler<AppState, RequestState>(
    h: Handler<AppState, RequestState>,
) -> bool {
    forall|c1: Context<AppState, RequestState>, c2: Context<AppState, RequestState>, v1:
        ReturnValue, v2: ReturnValue|
        #![trigger h.action.yields(c1, v1), h.action.yields(c2, v2)]
        equivalent_contexts(c1, c2) && h.action.yields(c1, v1) && h.action.yields(c2, v2) ==> v1
            == v2
}

/// The application: shared immutable state, the routing table, and the
/// ordered handlers. Built by repeated `route` calls; immutable and shareable
/// across concurrent requests once construction ends.
#[verifier::reject_recursive_types(AppState)]
#[verifier::reject_recursive_types(RequestState)]
pub struct Application<AppState, RequestState> {
    app_state: Arc<AppState>,
    router: route_recognizer::Router<usize>,
    handlers: Vec<Handler<AppState, RequestState>>,
}

impl<AppState, RequestState> Application<AppState, RequestState> where
    RequestState: Default,
 {
    /// The shared application state.
    pub closed spec fn state_spec(&self) -> Arc<AppState> {
        self.app_state
    }

    /// The routing table.
    pub closed spec fn router_spec(&self) -> route_recognizer::Router<usize> {
        self.router
    }

    /// The registered handlers, in registration order.
    pub closed spec fn handlers_spec(&self) -> Seq<Handler<AppState, RequestState>> {
        self.handlers@
    }

    /// The representation invariant: every index the matcher can resolve a
    /// path to is a registered handler's.
    pub open spec fn wf(&self) -> bool {
        forall|p: Seq<char>|
            (#[trigger] route_of(self.router_spec(), p)) matches Some(i) ==> i
                < self.handlers_spec().len()
    }

    /// No pattern matches this path.
    pub open spec fn no_route(&self, path: Seq<char>) -> bool {
        route_of(self.router_spec(), path) is None
    }

    /// One complete dispatch of `req` that resolved to `resp`: the matcher
    /// resolved the path to a handler; a context was built from the shared
    /// state, a defaulted request state, the extracted parameters and the
    /// request's headers; the handler yielded a value; and `resp` is exactly
    /// that value's conversion.
    pub open spec fn dispatched(&self, req: Request, resp: Response) -> bool {
        exists|i: usize, ctx: Context<AppState, RequestState>, v: ReturnValue|
            route_of(self.router_spec(), req.path@) == Some(i) && i < self.handlers_spec().len()
                && ctx.app_state_spec() == self.state_spec() && RequestState::default.ensures(
                (),
                ctx.request_state_spec(),
            ) && ctx.params_spec()@ == params_of(self.router_spec(), req.path@)
                && ctx.headers_spec()@ == req.headers@ && #[trigger] self.handlers_spec()[
                i as int
            ].action.yields(ctx, v) && v.wf() && resp.wf() && resp@ == convert_spec(v)
    }

    /// A fresh application around the given state: no routes, no handlers.
    pub fn new(app_state: AppState) -> (r: Application<AppState, RequestState>)
        ensures
            r.wf(),
            r.state_spec() == app_state,
            r.handlers_spec().len() == 0,
            forall|p: Seq<char>| r.no_route(p),
    {
        Application { app_state: Arc::new(app_state), router: router_new(), handlers: Vec::new() }
    }

    /// Register a handler: its route pattern is added to the routing table,
    /// resolving to the handler's index. Any return shape a handler can have
    /// is convertible — the rule table is total over `ReturnValue` — so
    /// registration itself never fails. The matcher walks patterns bytewise
    /// and cannot bear the code point zero, so the pattern must be ASCII
    /// without NUL.
    pub fn route(self, handler: Handler<AppState, RequestState>) -> (r: Application<
        AppState,
        RequestState,
    >)
        requires
            self.wf(),
            vstd::utf8::is_ascii_chars(handler.route@),
            nul_free(handler.route@),
        ensures
            r.wf(),
            r.state_spec() == self.state_spec(),
            r.handlers_spec() == self.handlers_spec().push(handler),
            forall|p: Seq<char>|
                #[trigger] route_of(r.router_spec(), p) == route_of(self.router_spec(), p)
                    || route_of(r.router_spec(), p) == Some(self.handlers_spec().len() as usize),
            !r.no_route(handler.route@),
    {
        let Application { app_state, mut router, mut handlers } = self;
        let index = handlers.len();
        router_add(&mut router, handler.route.as_str(), index);
        handlers.push(handler);
        Application { app_state, router, handlers }
    }

    /// Dispatch one request: match the path, build the context, run the
    /// matched handler, and normalise its return value. `None` reports "no
    /// handler"; the boundary renders it as a 404 with no body. The path must
    /// carry no NUL — the matcher cannot bear the code point zero — which a
    /// percent-encoded URL path satisfies by construction.
    pub fn execute(&self, req: Request) -> (r: Option<Response>)
        requires
            self.wf(),
            req.wf(),
            nul_free(req.path@),
        ensures
            match r {
                Some(resp) => self.dispatched(req, resp) && resp.wf() && 100 <= resp@.status
                    <= 599,
                None => self.no_route(req.path@),
            },
            (r is None) == self.no_route(req.path@),
    {
        match router_recognize(&self.router, req.path.as_str()) {
            Some(found) => {
                let (index, pairs) = found;
                let params = StrMap::from_pairs(pairs);
                let state = Context::<AppState, RequestState>::share_state(&self.app_state);
                let request_state = RequestState::default();
                let ctx = Context::new(state, request_state, params, req.headers);
                let ghost gctx = ctx;
                let h = &self.handlers[index];
                let v = h.action.run(ctx);
                let resp = Response::from_value(v);
                proof {
                    assert(self.handlers_spec()[index as int].action.yields(gctx, v));
                    crate::responses::lemma_status_valid(v);
                }
                Some(resp)
            },
            None => None,
        }
    }
}

/// Idempotence of dispatch: when every registered handler is pure and the
/// request state defaults deterministically, two dispatches of the same
/// request against the same application resolve to structurally identical
/// responses — same status, same headers, same payload.
pub proof fn lemma_dispatch_idempotent<AppState, RequestState: Default>(
    app: &Application<AppState, RequestState>,
    req: Request,
    r1: Response,
    r2: Response,
)
    requires
        app.wf(),
        app.dispatched(req, r1),
        app.dispatched(req, r2),
        forall|i: int|
            0 <= i < app.handlers_spec().len() && route_of(app.router_spec(), req.path@) == Some(
                i as usize,
            ) ==> pure_handler(#[trigger] app.handlers_spec()[i]),
        forall|x: RequestState, y: RequestState|
            RequestState::default.ensures((), x) && RequestState::default.ensures((), y) ==> x
                == y,
    ensures
        r1@ == r2@,
{
    let (i1, c1, v1) = choose|i: usize, ctx: Context<AppState, RequestState>, v: ReturnValue|
        route_of(app.router_spec(), req.path@) == Some(i) && i < app.handlers_spec().len()
            && ctx.app_state_spec() == app.state_spec() && RequestState::default.ensures(
            (),
            ctx.request_state_spec(),
        ) && ctx.params_spec()@ == params_of(app.router_spec(), req.path@) && ctx.headers_spec()@
            == req.headers@ && #[trigger] app.handlers_spec()[i as int].action.yields(ctx, v)
            && v.wf() && r1.wf() && r1@ == convert_spec(v);
    let (i2, c2, v2) = choose|i: usize, ctx: Context<AppState, RequestState>, v: ReturnValue|
        route_of(app.router_spec(), req.path@) == Some(i) && i < app.handlers_spec().len()
            && ctx.app_state_spec() == app.state_spec() && RequestState::default.ensures(
            (),
            ctx.request_state_spec(),
        ) && ctx.params_spec()@ == params_of(app.router_spec(), req.path@) && ctx.headers_spec()@
            == req.headers@ && #[trigger] app.handlers_spec()[i as int].action.yields(ctx, v)
            && v.wf() && r2.wf() && r2@ == convert_spec(v);
    assert(i1 == i2);
    assert(equivalent_contexts(c1, c2));
    assert(pure_handler(app.handlers_spec()[i1 as int]));
    let h = app.handlers_spec()[i1 as int];
    assert(h.action.yields(c1, v1));
    assert(h.action.yields(c2, v2));
    assert(v1 == v2);
}

} // verus!
