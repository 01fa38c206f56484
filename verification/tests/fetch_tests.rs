use cli_utils::fetch::{check_status, FetchError, Fetcher};
use cli_utils::repo::Repo;

fn mk(name: &str, stars: u32) -> Repo {
    Repo {
        name: name.to_string(),
        stargazers_count: stars,
        language: None,
        description: None,
        fork: false,
        html_url: String::new(),
    }
}

#[test]
fn pagination_concatenates_pages_and_stops_on_empty() {
    let mut f = Fetcher::new();
    assert_eq!(f.next_page(), 1);
    let done = f.on_page(vec![mk("a", 1), mk("b", 2)]);
    assert!(!done);
    assert_eq!(f.next_page(), 2);
    let done = f.on_page(vec![mk("c", 3)]);
    assert!(!done);
    assert_eq!(f.next_page(), 3);
    let done = f.on_page(vec![]);
    assert!(done);
    assert_eq!(f.next_page(), 3);
    let all = f.into_repos();
    let names: Vec<&str> = all.iter().map(|r| r.name.as_str()).collect();
    assert_eq!(names, vec!["a", "b", "c"]);
}

#[test]
fn status_404_is_account_not_found() {
    let r = check_status(404, String::new());
    assert!(matches!(r, Err(FetchError::NotFound)));
}

#[test]
fn status_success_admits_page() {
    assert!(check_status(200, String::new()).is_ok());
    assert!(check_status(299, String::new()).is_ok());
}

#[test]
fn other_status_carries_code_and_body() {
    let r = check_status(500, "boom".to_string());
    assert!(matches!(r, Err(FetchError::Api(500, b)) if b == "boom"));
}
