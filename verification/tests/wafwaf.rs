use bf_jit::wafwaf::{answer, route_key, Route, WafWaf, NOT_FOUND};

#[test]
fn test_route_key_joins_method_and_url() {
    assert_eq!(route_key("GET", "/hello"), "/GET//hello");
    assert_eq!(route_key("DELETE", ""), "/DELETE/");
}

#[test]
fn test_a_registered_route_is_found() {
    let mut app = WafWaf::new();
    app.get("/hello", 0);
    app.get("/hello/:name", 1);
    assert_eq!(
        app.respond("GET", "/hello"),
        Route::Found {
            handler: 0,
            params: vec![]
        }
    );
    assert_eq!(
        app.respond("GET", "/hello/world"),
        Route::Found {
            handler: 1,
            params: vec![("name".to_string(), "world".to_string())]
        }
    );
}

#[test]
fn test_an_unknown_route_is_not_found() {
    let mut app = WafWaf::new();
    app.get("/hello", 0);
    assert_eq!(app.respond("GET", "/bye"), Route::NotFound);
    assert_eq!(WafWaf::new().respond("GET", "/hello"), Route::NotFound);
    assert_eq!(NOT_FOUND, 404);
}

#[test]
fn test_methods_are_kept_apart() {
    let mut app = WafWaf::new();
    app.get("/item", 0);
    app.put("/item", 1);
    app.post("/item", 2);
    app.delete("/item", 3);
    for (method, handler) in [("GET", 0), ("PUT", 1), ("POST", 2), ("DELETE", 3)] {
        assert_eq!(
            app.respond(method, "/item"),
            Route::Found {
                handler,
                params: vec![]
            }
        );
    }
    assert_eq!(app.respond("PATCH", "/item"), Route::NotFound);
}

#[test]
fn test_registering_again_replaces_the_handler() {
    let mut app = WafWaf::new();
    app.get("/hello", 0);
    app.get("/hello", 5);
    assert_eq!(
        app.respond("GET", "/hello"),
        Route::Found {
            handler: 5,
            params: vec![]
        }
    );
}

#[test]
fn test_answer() {
    assert_eq!(answer(None), Route::NotFound);
    assert_eq!(
        answer(Some((3, vec![("a".to_string(), "b".to_string())]))),
        Route::Found {
            handler: 3,
            params: vec![("a".to_string(), "b".to_string())]
        }
    );
}
