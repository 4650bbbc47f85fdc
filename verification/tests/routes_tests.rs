use emmuoviti_app::routes::{not_found, route, Route};

#[test]
fn root_path_selects_the_page_view() {
    assert_eq!(route(&b"/".to_vec()), Route::Home);
    assert_eq!(route(&b"".to_vec()), Route::Home);
}

#[test]
fn any_other_path_selects_the_not_found_view() {
    assert_eq!(route(&b"/nowhere".to_vec()), Route::NotFound);
    assert_eq!(route(&b"/pois/1".to_vec()), Route::NotFound);
    assert_eq!(route(&b"//".to_vec()), Route::NotFound);
}

#[test]
fn not_found_renders_heading_and_sets_status_only_on_first_response() {
    let initial = not_found(true);
    assert_eq!(initial.heading, b"Not Found".to_vec());
    assert_eq!(initial.status, Some(404));
    let later = not_found(false);
    assert_eq!(later.heading, b"Not Found".to_vec());
    assert_eq!(later.status, None);
}
