use cli_utils::pipeline::{filter_by_language, filter_forks, language_tally, most_starred,
    sort_by_key, sort_by_name, sort_by_stars, top_languages, total_stars, truncate_repos};
use cli_utils::repo::Repo;

fn mk(name: &str, stars: u32, language: Option<&str>, fork: bool) -> Repo {
    Repo {
        name: name.to_string(),
        stargazers_count: stars,
        language: language.map(|l| l.to_string()),
        description: None,
        fork,
        html_url: format!("https://example.invalid/{name}"),
    }
}

#[test]
fn fork_filter_removes_exactly_forks() {
    let repos = vec![
        mk("a", 1, Some("Rust"), false),
        mk("b", 2, None, true),
        mk("c", 3, Some("Go"), false),
        mk("d", 4, Some("Rust"), true),
    ];
    let kept = filter_forks(&repos);
    assert_eq!(kept.len(), 2);
    assert_eq!(kept[0].name, "a");
    assert_eq!(kept[1].name, "c");
    assert!(kept.iter().all(|r| !r.fork));
}

#[test]
fn language_filter_is_case_insensitive_and_complete() {
    let repos = vec![
        mk("a", 1, Some("Rust"), false),
        mk("b", 2, Some("rust"), false),
        mk("c", 3, Some("Go"), false),
        mk("d", 4, None, false),
    ];
    let kept = filter_by_language(&repos, "RUST");
    assert_eq!(kept.len(), 2);
    assert_eq!(kept[0].name, "a");
    assert_eq!(kept[1].name, "b");
}

#[test]
fn sort_by_stars_is_non_increasing() {
    let repos = vec![
        mk("a", 3, None, false),
        mk("b", 9, None, false),
        mk("c", 1, None, false),
        mk("d", 9, None, false),
    ];
    let sorted = sort_by_stars(repos);
    assert_eq!(sorted.len(), 4);
    for w in sorted.windows(2) {
        assert!(w[0].stargazers_count >= w[1].stargazers_count);
    }
    assert_eq!(sorted[0].stargazers_count, 9);
    assert_eq!(sorted[3].stargazers_count, 1);
}

#[test]
fn sort_by_name_is_case_insensitive_ascending() {
    let repos = vec![
        mk("beta", 1, None, false),
        mk("Alpha", 2, None, false),
        mk("gamma", 3, None, false),
    ];
    let sorted = sort_by_name(repos);
    let names: Vec<&str> = sorted.iter().map(|r| r.name.as_str()).collect();
    assert_eq!(names, vec!["Alpha", "beta", "gamma"]);
}

#[test]
fn unknown_sort_key_defaults_to_stars() {
    let repos = vec![mk("a", 1, None, false), mk("b", 5, None, false)];
    let sorted = sort_by_key(repos, "zebra");
    assert_eq!(sorted[0].name, "b");
    assert_eq!(sorted[1].name, "a");
}

#[test]
fn truncation_takes_min_and_keeps_order() {
    let repos = vec![
        mk("a", 3, None, false),
        mk("b", 2, None, false),
        mk("c", 1, None, false),
    ];
    let t = truncate_repos(repos, 2);
    assert_eq!(t.len(), 2);
    assert_eq!(t[0].name, "a");
    assert_eq!(t[1].name, "b");

    let repos2 = vec![mk("a", 3, None, false)];
    let t2 = truncate_repos(repos2, 10);
    assert_eq!(t2.len(), 1);
}

#[test]
fn total_stars_sums_full_set_independent_of_truncation() {
    let repos = vec![
        mk("a", 10, None, false),
        mk("b", 50, None, false),
        mk("c", 5, None, false),
    ];
    let total = total_stars(&repos);
    let sorted = sort_by_stars(repos);
    assert_eq!(total_stars(&sorted), total);
    assert_eq!(total, 65);
    let truncated = truncate_repos(sorted, 1);
    assert_eq!(truncated.len(), 1);
    assert_eq!(total, 65);
}

#[test]
fn most_starred_is_maximum() {
    let repos = vec![
        mk("a", 10, None, false),
        mk("b", 50, None, false),
        mk("c", 50, None, false),
    ];
    let i = most_starred(&repos).unwrap();
    assert_eq!(repos[i].name, "b");
    let empty: Vec<Repo> = vec![];
    assert!(most_starred(&empty).is_none());
}

#[test]
fn tally_counts_known_languages_only() {
    let repos = vec![
        mk("a", 1, Some("Rust"), false),
        mk("b", 2, Some("Go"), false),
        mk("c", 3, Some("Rust"), false),
        mk("d", 4, None, false),
    ];
    let t = language_tally(&repos);
    assert_eq!(t.len(), 2);
    let rust = t.iter().find(|e| e.0 == "Rust").unwrap();
    assert_eq!(rust.1, 2);
    let go = t.iter().find(|e| e.0 == "Go").unwrap();
    assert_eq!(go.1, 1);
}

#[test]
fn top_languages_lists_at_most_five_descending() {
    let repos = vec![
        mk("a1", 0, Some("A"), false),
        mk("a2", 0, Some("A"), false),
        mk("a3", 0, Some("A"), false),
        mk("b1", 0, Some("B"), false),
        mk("b2", 0, Some("B"), false),
        mk("c1", 0, Some("C"), false),
        mk("d1", 0, Some("D"), false),
        mk("e1", 0, Some("E"), false),
        mk("f1", 0, Some("F"), false),
        mk("n1", 0, None, false),
    ];
    let top = top_languages(&repos);
    assert_eq!(top.len(), 5);
    for w in top.windows(2) {
        assert!(w[0].1 >= w[1].1);
    }
    assert_eq!(top[0].0, "A");
    assert_eq!(top[0].1, 3);
    assert_eq!(top[1].0, "B");
    assert_eq!(top[1].1, 2);
}

#[test]
fn three_records_scenario() {
    let repos = vec![
        mk("ten", 10, None, false),
        mk("fifty", 50, None, false),
        mk("five", 5, None, false),
    ];
    let kept = filter_forks(&repos);
    assert_eq!(kept.len(), 3);
    let total = total_stars(&kept);
    assert_eq!(total, 65);
    let sorted = sort_by_key(kept, "stars");
    let displayed = truncate_repos(sorted, 2);
    let names: Vec<&str> = displayed.iter().map(|r| r.name.as_str()).collect();
    assert_eq!(names, vec!["fifty", "ten"]);
}

#[test]
fn zig_filter_matches_nothing() {
    let repos = vec![
        mk("a", 1, Some("Rust"), false),
        mk("b", 2, Some("Go"), false),
    ];
    let kept = filter_by_language(&repos, "Zig");
    assert!(kept.is_empty());
    let displayed = truncate_repos(kept, 10);
    assert!(displayed.is_empty());
}
