use fingertips::router::get_form_response;
use fingertips::router::get_gcd_response;
use fingertips::router::not_found_response;
use fingertips::router::req;
use fingertips::router::BasicRouter;

#[test]
fn test_router() {
    let mut router = BasicRouter::new();
    router.add_route("/", get_form_response());
    router.add_route("/gcd", get_gcd_response(&req("/gcd")));

    assert_eq!(router.handle_request(&req("/asdf")).code, 404);
    assert_eq!(router.handle_request(&req("/")).code, 200);
    assert_eq!(router.handle_request(&req("/gcd")).code, 500);
}

#[test]
fn adding_a_route_again_replaces_it() {
    let mut router = BasicRouter::new();
    router.add_route("/x", get_form_response());
    assert_eq!(router.handle_request(&req("/x")).code, 200);
    router.add_route("/x", get_gcd_response(&req("/x")));
    assert_eq!(router.handle_request(&req("/x")).code, 500);
}

#[test]
fn canned_responses_have_their_bodies() {
    assert_eq!(not_found_response().body, b"<h1>Page not found</h1>".to_vec());
    assert_eq!(get_form_response().body, b"<form>".to_vec());
    let r = req("/somewhere");
    assert_eq!(r.method, "GET");
    assert_eq!(r.url, "/somewhere");
    assert!(r.body.is_empty());
}
