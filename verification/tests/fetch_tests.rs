use emmuoviti_app::fetch::{pois_url, resolve_fetch, FetchError};
use emmuoviti_app::page::{display_pois, render_page, PageState};

#[test]
fn url_for_page_zero() {
    assert_eq!(pois_url(0, 10), b"http://127.0.0.1:8080/pois?page=0".to_vec());
}

#[test]
fn url_ignores_page_size() {
    assert_eq!(pois_url(7, 10), pois_url(7, 500));
    assert_eq!(pois_url(7, 10), b"http://127.0.0.1:8080/pois?page=7".to_vec());
    assert_eq!(pois_url(123, 1), b"http://127.0.0.1:8080/pois?page=123".to_vec());
}

#[test]
fn transport_failure_yields_transport_error() {
    let r = resolve_fetch(Err(b"connection refused".to_vec()));
    match r {
        Err(FetchError::Transport(m)) => assert_eq!(m, b"connection refused".to_vec()),
        _ => panic!("expected a transport error"),
    }
}

#[test]
fn transport_error_message_carries_its_cause() {
    let r = resolve_fetch(Err(b"connection refused".to_vec()));
    let e = r.err().unwrap();
    assert_eq!(
        e.message(),
        b"Error with API while fetching pois connection refused".to_vec()
    );
}

#[test]
fn malformed_body_yields_decode_error_distinct_from_transport() {
    let bad = resolve_fetch(Ok(b"this is not json".to_vec())).err().unwrap();
    let transport = resolve_fetch(Err(b"x".to_vec())).err().unwrap();
    assert!(matches!(bad, FetchError::Decode(_)));
    assert!(matches!(transport, FetchError::Transport(_)));
    assert_ne!(bad.message(), transport.message());
    assert_eq!(bad.message(), b"Error while parsing pois".to_vec());
}

#[test]
fn server_error_body_renders_empty_and_log_line_is_fixed() {
    // a backend answering HTTP 500 hands back a body that is no POI page
    let state = PageState::new();
    let fetch = Some(resolve_fetch(Ok(b"Internal Server Error".to_vec())));
    let r = render_page(&state, &fetch);
    assert_eq!(r.items.len(), 0);
    assert_eq!(r.button_label, b"Next: 0".to_vec());
    assert_eq!(emmuoviti_app::page::fetch_log_line(), "loading data from API");
}

#[test]
fn click_advances_counter_and_fetches_next_page() {
    let mut state = PageState::new();
    assert_eq!(state.page, 0);
    let fetch_page = state.click_next();
    assert_eq!(state.page, 1);
    assert_eq!(fetch_page, 1);
    let fetch_page = state.click_next();
    assert_eq!(state.page, 2);
    assert_eq!(fetch_page, 2);
}

#[test]
fn initial_mount_with_one_poi_shows_duomo() {
    // the end-to-end happy path: counter 0, backend answers one record
    let state = PageState::new();
    assert_eq!(pois_url(state.page, 10), b"http://127.0.0.1:8080/pois?page=0".to_vec());
    let body = br#"[{"id":1,"name":"Duomo","category_id":1,"address_id":1,"latitude":45.46,"longitude":9.19,"slug":"duomo","created_at":"t","updated_at":"t"}]"#;
    let fetch = Some(resolve_fetch(Ok(body.to_vec())));
    let r = render_page(&state, &fetch);
    assert_eq!(r.items.len(), 1);
    assert_eq!(r.items[0], b"Duomo".to_vec());
    assert_eq!(r.button_label, b"Next: 0".to_vec());
}

#[test]
fn pending_fetch_renders_empty_list() {
    let state = PageState::new();
    let r = render_page(&state, &None);
    assert_eq!(r.items.len(), 0);
    assert_eq!(r.button_label, b"Next: 0".to_vec());
}

#[test]
fn list_view_is_a_pure_projection_in_order() {
    let body = br#"[{"id":1,"name":"Duomo","category_id":1,"address_id":1,"latitude":45.46,"longitude":9.19,"slug":"duomo","created_at":"t","updated_at":"t"},{"id":2,"name":"Navigli","category_id":2,"address_id":2,"latitude":45.45,"longitude":9.17,"slug":"navigli","created_at":"t2","updated_at":"t3"}]"#;
    let pois = resolve_fetch(Ok(body.to_vec())).unwrap();
    let items = display_pois(&pois);
    assert_eq!(items.len(), 2);
    assert_eq!(items[0], b"Duomo".to_vec());
    assert_eq!(items[1], b"Navigli".to_vec());
    let empty = display_pois(&Vec::new());
    assert_eq!(empty.len(), 0);
}
