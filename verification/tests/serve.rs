use lsert::index::TermFrequencyIndex;
use lsert::serve::{query_text, Method, QueryError, Route, Serve};
use lsert::term_frequency::term_frequency_of;

fn index() -> TermFrequencyIndex {
    let mut index = TermFrequencyIndex::new();
    index.insert(String::from("a.txt"), term_frequency_of("dog cat dog"));
    index.insert(String::from("b.txt"), term_frequency_of("cat cat"));
    index
}

fn answer_query(body: &str, index: &TermFrequencyIndex) -> Result<String, QueryError> {
    Serve::new(Method::Post, String::from("/")).handle_post_method(body, index)
}

fn page(route: Route) -> (u16, String) {
    match route {
        Route::Page { status, file } => (status, file),
        _ => panic!("no page"),
    }
}

#[test]
fn query_is_the_body_without_its_quotes() {
    assert_eq!(query_text("\"dog cat\""), "dog cat");
    assert_eq!(query_text("\"\""), "");
    assert_eq!(query_text("'é東'"), "é東");
    assert_eq!(query_text("\"a\"b\""), "a\"b");
}

#[test]
fn body_too_short_for_quotes_holds_no_query() {
    assert_eq!(query_text(""), "");
    assert_eq!(query_text("\""), "");
    assert_eq!(query_text("x"), "");
}

#[test]
fn answer_is_the_ranking_as_pairs() {
    assert_eq!(answer_query("\"cat\"", &index()).ok().unwrap(), "[[\"b.txt\",2],[\"a.txt\",1]]");
    assert_eq!(answer_query("\"dog\"", &index()).ok().unwrap(), "[[\"a.txt\",2]]");
}

#[test]
fn answer_without_match_is_an_empty_list() {
    assert_eq!(answer_query("\"bird\"", &index()).ok().unwrap(), "[]");
    assert_eq!(answer_query("\"  \"", &index()).ok().unwrap(), "[]");
}

#[test]
fn empty_query_is_rejected() {
    for body in ["\"\"", "", "\"", "xy"] {
        assert!(matches!(answer_query(body, &index()), Err(QueryError::EmptyQuery)), "{}", body);
    }
}

#[test]
fn post_is_answered_as_a_query() {
    let serve = Serve::new(Method::Post, String::from("/"));
    assert_eq!(serve.method, Method::Post);
    assert_eq!(serve.url, "/");
    assert!(matches!(serve.handle_connection(), Route::Query));
    assert_eq!(serve.handle_post_method("\"cat\"", &index()).ok().unwrap(), "[[\"b.txt\",2],[\"a.txt\",1]]");
    assert!(matches!(serve.handle_post_method("\"\"", &index()), Err(QueryError::EmptyQuery)));
}

#[test]
fn get_of_the_root_is_the_front_page() {
    let serve = Serve::new(Method::Get, String::from("/"));
    assert_eq!(page(serve.handle_connection()), (200, String::from("files/web_files/index.html")));
}

#[test]
fn get_of_anything_else_is_not_found() {
    for url in ["/index.html", "", "//", "/?q=dog", "/a"] {
        let serve = Serve::new(Method::Get, url.to_string());
        assert_eq!(page(serve.handle_connection()), (404, String::from("files/web_files/404.html")));
    }
}

#[test]
fn other_methods_are_not_served() {
    let serve = Serve::new(Method::Other, String::from("/"));
    assert!(matches!(serve.handle_connection(), Route::NotImplemented));
}
