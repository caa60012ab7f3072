use std::sync::Arc;

use ludwig::{
    Action, Application, Body, Context, EmptyContext, Handler, JsonValue, Request, Response,
    ReturnValue, StrMap,
};

struct Hello;

impl Action<(), ()> for Hello {
    fn yields(&self, _ctx: EmptyContext, _v: ReturnValue) -> bool {
        true
    }

    fn run(&self, _ctx: EmptyContext) -> ReturnValue {
        let mut extra = StrMap::new();
        extra.insert("x-clacks-overhead".to_string(), "GNU/Terry Pratchett".to_string());
        ReturnValue::Fallible(Ok(Box::new(ReturnValue::WithHeaders(
            201,
            extra,
            Box::new(ReturnValue::StaticText("hello world")),
        ))))
    }
}

struct World;

impl Action<(), ()> for World {
    fn yields(&self, _ctx: EmptyContext, _v: ReturnValue) -> bool {
        true
    }

    fn run(&self, _ctx: EmptyContext) -> ReturnValue {
        ReturnValue::Fallible(Ok(Box::new(ReturnValue::Json(JsonValue::Object(vec![(
            "message".to_string(),
            JsonValue::Text("hello world".to_string()),
        )])))))
    }
}

struct Quiet;

impl Action<(), ()> for Quiet {
    fn yields(&self, _ctx: EmptyContext, _v: ReturnValue) -> bool {
        true
    }

    fn run(&self, _ctx: EmptyContext) -> ReturnValue {
        ReturnValue::Unit
    }
}

struct Failing;

impl Action<(), ()> for Failing {
    fn yields(&self, _ctx: EmptyContext, _v: ReturnValue) -> bool {
        true
    }

    fn run(&self, _ctx: EmptyContext) -> ReturnValue {
        ReturnValue::Fallible(Err("disk error".to_string()))
    }
}

struct EchoParam;

impl Action<(), ()> for EchoParam {
    fn yields(&self, _ctx: EmptyContext, _v: ReturnValue) -> bool {
        true
    }

    fn run(&self, ctx: EmptyContext) -> ReturnValue {
        match ctx.params().get(&String::from("id")) {
            Some(v) => ReturnValue::OwnedText(v.clone()),
            None => ReturnValue::Fallible(Err("missing parameter".to_string())),
        }
    }
}

fn get(path: &str) -> Request {
    Request { method: "GET".to_string(), path: path.to_string(), headers: StrMap::new() }
}

fn app() -> Application<(), ()> {
    Application::new(())
        .route(Handler::new("hello", "GET", "/hello", Box::new(Hello)))
        .route(Handler::new("world", "GET", "/world", Box::new(World)))
        .route(Handler::new("quiet", "GET", "/quiet", Box::new(Quiet)))
        .route(Handler::new("fail", "GET", "/fail", Box::new(Failing)))
        .route(Handler::new("post", "GET", "/posts/:id", Box::new(EchoParam)))
}

fn content_type(r: &Response) -> Option<String> {
    r.headers.get(&String::from("content-type")).cloned()
}

#[test]
fn unit_handler_gives_204_empty_no_content_type() {
    let r = app().execute(get("/quiet")).expect("route should match");
    assert_eq!(r.status, 204);
    assert_eq!(r.body, Body::Empty);
    assert_eq!(content_type(&r), None);
}

#[test]
fn json_handler_gives_200_with_json_body() {
    let r = app().execute(get("/world")).expect("route should match");
    assert_eq!(r.status, 200);
    assert_eq!(content_type(&r), Some("application/json; charset=utf-8".to_string()));
    assert_eq!(
        r.body,
        Body::Json(JsonValue::Object(vec![(
            "message".to_string(),
            JsonValue::Text("hello world".to_string()),
        )]))
    );
}

#[test]
fn triple_handler_gives_201_with_extra_header() {
    let r = app().execute(get("/hello")).expect("route should match");
    assert_eq!(r.status, 201);
    assert_eq!(
        r.headers.get(&String::from("x-clacks-overhead")),
        Some(&"GNU/Terry Pratchett".to_string())
    );
    assert_eq!(r.body, Body::StaticText("hello world"));
}

#[test]
fn unrouted_path_reports_no_handler() {
    assert!(app().execute(get("/missing")).is_none());
}

#[test]
fn failing_handler_gives_500_with_display_text() {
    let r = app().execute(get("/fail")).expect("route should match");
    assert_eq!(r.status, 500);
    assert_eq!(content_type(&r), Some("text/plain; charset=utf-8".to_string()));
    assert_eq!(r.body, Body::OwnedText("disk error".to_string()));
}

#[test]
fn named_segment_reaches_the_handler_as_a_parameter() {
    let r = app().execute(get("/posts/17")).expect("route should match");
    assert_eq!(r.status, 200);
    assert_eq!(r.body, Body::OwnedText("17".to_string()));
}

#[test]
fn dispatch_of_a_pure_handler_is_idempotent() {
    let a = app();
    let r1 = a.execute(get("/hello")).expect("route should match");
    let r2 = a.execute(get("/hello")).expect("route should match");
    assert_eq!(r1.status, r2.status);
    assert_eq!(r1.body, r2.body);
    assert_eq!(
        r1.headers.get(&String::from("x-clacks-overhead")),
        r2.headers.get(&String::from("x-clacks-overhead"))
    );
    assert_eq!(content_type(&r1), content_type(&r2));
}

#[test]
fn handler_metadata_is_kept() {
    let h: Handler<(), ()> = Handler::new("hello", "GET", "/hello", Box::new(Hello));
    assert_eq!(h.name, "hello");
    assert_eq!(h.method, "GET");
    assert_eq!(h.route, "/hello");
}

#[test]
fn shared_state_is_readable_through_the_context() {
    let state = Arc::new(7u64);
    let ctx: Context<u64, ()> =
        Context::new(Arc::clone(&state), (), StrMap::new(), StrMap::new());
    assert_eq!(*ctx.app_state(), 7);
}

#[test]
fn mutable_view_is_refused_while_the_state_is_shared() {
    let state = Arc::new(1u64);
    let mut ctx1: Context<u64, ()> =
        Context::new(Arc::clone(&state), (), StrMap::new(), StrMap::new());
    let mut ctx2: Context<u64, ()> =
        Context::new(Arc::clone(&state), (), StrMap::new(), StrMap::new());
    assert!(ctx1.app_state_mut().is_none());
    assert!(ctx2.app_state_mut().is_none());
}

#[test]
fn mutable_view_is_granted_to_a_sole_owner() {
    let mut ctx: Context<u64, ()> =
        Context::new(Arc::new(1u64), (), StrMap::new(), StrMap::new());
    match ctx.app_state_mut() {
        Some(m) => {
            *m = 2;
        }
        None => panic!("a sole owner should get the mutable view"),
    }
    assert_eq!(*ctx.app_state(), 2);
}

#[test]
fn request_state_is_freely_mutable() {
    let mut ctx: Context<(), u32> = Context::new(Arc::new(()), 5, StrMap::new(), StrMap::new());
    assert_eq!(*ctx.request_state(), 5);
    *ctx.request_state_mut() = 6;
    assert_eq!(*ctx.request_state(), 6);
}

#[test]
fn headers_are_readable_through_the_context() {
    let mut h = StrMap::new();
    h.insert("accept".to_string(), "*/*".to_string());
    let ctx: Context<(), ()> = Context::new(Arc::new(()), (), StrMap::new(), h);
    assert_eq!(ctx.headers().get(&String::from("accept")), Some(&"*/*".to_string()));
}

#[test]
fn root_route_matches_the_empty_path_too() {
    let a = Application::new(()).route(Handler::new("root", "GET", "/", Box::new(Quiet)));
    assert!(a.execute(get("/")).is_some());
    assert!(a.execute(get("")).is_some());
}

#[test]
fn a_later_route_does_not_displace_an_earlier_one() {
    let a = app();
    let r = a.execute(get("/world")).expect("route should match");
    assert_eq!(r.status, 200);
    let r = a.execute(get("/are-not-registered")).map(|x| x.status);
    assert_eq!(r, None);
}
