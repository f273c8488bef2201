use acronyms::acronym::Acronym;
use acronyms::rest::{
    handle_request, parse_i32_segment, parse_route, status_for_error, ApiError, Body, Method,
    Response, Route,
};
use acronyms::store::{AcronymStore, StoreError};

#[test]
fn routes_match_the_table() {
    assert!(matches!(parse_route(Method::Get, "/"), Some(Route::ListAll)));
    assert!(matches!(parse_route(Method::Get, "/5"), Some(Route::GetById(5))));
    assert!(matches!(parse_route(Method::Get, "/-3"), Some(Route::GetById(-3))));
    assert!(matches!(parse_route(Method::Post, "/add"), Some(Route::Add)));
    assert!(matches!(parse_route(Method::Put, "/update"), Some(Route::Update)));
    assert!(matches!(parse_route(Method::Delete, "/delete/7"), Some(Route::DeleteById(7))));
    match parse_route(Method::Get, "/search/Layer") {
        Some(Route::Search(term)) => assert_eq!(term, "Layer"),
        other => panic!("unexpected route: {:?}", other),
    }
}

#[test]
fn malformed_paths_match_no_route() {
    assert!(parse_route(Method::Get, "").is_none());
    assert!(parse_route(Method::Get, "/abc").is_none());
    assert!(parse_route(Method::Get, "/1/2").is_none());
    assert!(parse_route(Method::Get, "/search/").is_none());
    assert!(parse_route(Method::Get, "/search/a/b").is_none());
    assert!(parse_route(Method::Delete, "/delete/").is_none());
    assert!(parse_route(Method::Delete, "/delete/x").is_none());
    assert!(parse_route(Method::Post, "/").is_none());
    assert!(parse_route(Method::Put, "/add").is_none());
    assert!(parse_route(Method::Delete, "/add").is_none());
}

#[test]
fn id_segments_parse_as_i32() {
    assert_eq!(parse_i32_segment("0"), Some(0));
    assert_eq!(parse_i32_segment("45"), Some(45));
    assert_eq!(parse_i32_segment("007"), Some(7));
    assert_eq!(parse_i32_segment("-3"), Some(-3));
    assert_eq!(parse_i32_segment("+8"), Some(8));
    assert_eq!(parse_i32_segment("2147483647"), Some(i32::MAX));
    assert_eq!(parse_i32_segment("-2147483648"), Some(i32::MIN));
    assert_eq!(parse_i32_segment("2147483648"), None);
    assert_eq!(parse_i32_segment("-2147483649"), None);
    assert_eq!(parse_i32_segment("99999999999999999999"), None);
    assert_eq!(parse_i32_segment(""), None);
    assert_eq!(parse_i32_segment("-"), None);
    assert_eq!(parse_i32_segment("+"), None);
    assert_eq!(parse_i32_segment("12a"), None);
    assert_eq!(parse_i32_segment(" 1"), None);
}

#[test]
fn failure_statuses_distinguish_miss_from_outage() {
    assert_eq!(status_for_error(&StoreError::NotFound), 404);
    assert_eq!(status_for_error(&StoreError::Unavailable), 503);
}

#[test]
fn api_error_reports_cause_behind_marker() {
    let e = ApiError::new("the store is unreachable".to_string());
    assert_eq!(e.status(), 503);
    assert_eq!(e.message(), "Error: the store is unreachable");
}

fn body_of(acr: &str, def: &str, id: i32) -> Acronym {
    Acronym { id, acronym: acr.to_string(), definition: def.to_string() }
}

#[test]
fn test_get_all_acronyms() {
    let mut store = AcronymStore::new();
    store.insert("TLS".to_string(), "Transport Layer Security".to_string()).unwrap();
    let route = parse_route(Method::Get, "/").unwrap();
    let res: Response = handle_request(&mut store, &route, None);
    assert_eq!(res.status, 200);
    match res.body {
        Body::Rows(rows) => assert!(!rows.is_empty()),
        other => panic!("unexpected body: {:?}", other),
    }
}

#[test]
fn test_get_acronym_by_id() {
    let mut store = AcronymStore::new();
    store.insert("TLS".to_string(), "Transport Layer Security".to_string()).unwrap();
    let route = parse_route(Method::Get, "/1").unwrap();
    let res = handle_request(&mut store, &route, None);
    assert_eq!(res.status, 200);
    match res.body {
        Body::Row(a) => assert_eq!(a.id, 1),
        other => panic!("unexpected body: {:?}", other),
    }
}

#[test]
fn test_add_acronym() {
    let mut store = AcronymStore::new();
    let new_acronym = body_of("Test Acronym", "Test definition", 45);
    let route = parse_route(Method::Post, "/add").unwrap();
    let res = handle_request(&mut store, &route, Some(&new_acronym));
    assert_eq!(res.status, 200);
    match res.body {
        Body::Id(new_id) => assert!(new_id > 0),
        other => panic!("unexpected body: {:?}", other),
    }
}

#[test]
fn add_ignores_the_body_id_and_assigns_its_own() {
    let mut store = AcronymStore::new();
    let res = handle_request(&mut store, &Route::Add, Some(&body_of("TLS", "T", 45)));
    match res.body {
        Body::Id(id) => assert_eq!(id, 1),
        other => panic!("unexpected body: {:?}", other),
    }
    let got = store.get_by_id(1).unwrap();
    assert_eq!(got.acronym, "TLS");
}

#[test]
fn search_over_one_store_returns_exactly_the_hit() {
    let mut store = AcronymStore::new();
    store.insert("TLS".to_string(), "Transport Layer Security".to_string()).unwrap();
    store.insert("DNS".to_string(), "Domain Name System".to_string()).unwrap();
    let route = parse_route(Method::Get, "/search/Layer").unwrap();
    let res = handle_request(&mut store, &route, None);
    assert_eq!(res.status, 200);
    match res.body {
        Body::Rows(rows) => {
            assert_eq!(rows.len(), 1);
            assert_eq!(rows[0].id, 1);
            assert_eq!(rows[0].acronym, "TLS");
            assert_eq!(rows[0].definition, "Transport Layer Security");
        },
        other => panic!("unexpected body: {:?}", other),
    }
}

#[test]
fn get_on_empty_store_is_a_miss_not_a_default_row() {
    let mut store = AcronymStore::new();
    let route = parse_route(Method::Get, "/999").unwrap();
    let res = handle_request(&mut store, &route, None);
    assert_eq!(res.status, 404);
    assert!(matches!(res.body, Body::Empty));
}

#[test]
fn update_and_delete_via_routes() {
    let mut store = AcronymStore::new();
    store.insert("TLS".to_string(), "old".to_string()).unwrap();
    let put = parse_route(Method::Put, "/update").unwrap();
    let res = handle_request(&mut store, &put, Some(&body_of("TLS", "new", 1)));
    assert_eq!(res.status, 200);
    assert_eq!(store.get_by_id(1).unwrap().definition, "new");
    let del = parse_route(Method::Delete, "/delete/1").unwrap();
    let res = handle_request(&mut store, &del, None);
    assert_eq!(res.status, 200);
    assert!(store.get_by_id(1).is_err());
}

#[test]
fn update_miss_reports_not_found_with_a_message() {
    let mut store = AcronymStore::new();
    let res = handle_request(&mut store, &Route::Update, Some(&body_of("X", "Y", 9)));
    assert_eq!(res.status, 404);
    match res.body {
        Body::Message(m) => assert_eq!(m, "Error: no row matches the id"),
        other => panic!("unexpected body: {:?}", other),
    }
}

#[test]
fn add_and_update_without_a_body_are_bad_requests() {
    let mut store = AcronymStore::new();
    let res = handle_request(&mut store, &Route::Add, None);
    assert_eq!(res.status, 400);
    let res = handle_request(&mut store, &Route::Update, None);
    assert_eq!(res.status, 400);
    assert_eq!(store.list().len(), 0);
}
