use fries_corpus_script::crawl::{clone_address, clone_plan, clone_step_for, line_count_command, DependentsCrawl};

#[test]
fn clone_address_gets_empty_credentials() {
    assert_eq!(clone_address("https://github.com/wasmcloud/weld"), "https://:@github.com/wasmcloud/weld");
    assert_eq!(clone_address("git@github.com:a/b"), "git@github.com:a/b");
    assert_eq!(clone_address("a//b//c"), "a//:@b//c");
}

#[test]
fn clone_plan_of_a_dependent() {
    let plan = clone_plan("url", "https://github.com/a/b", 7);
    assert_eq!(
        plan.target_dir,
        "/home/yxz/workspace/fuzz/experiment_root/url/dependents/url_dependent7"
    );
    assert_eq!(plan.address, "https://:@github.com/a/b");
    assert_eq!(
        plan.command,
        "timeout 30s git clone https://:@github.com/a/b /home/yxz/workspace/fuzz/experiment_root/url/dependents/url_dependent7"
    );
}

#[test]
fn line_count_command_text() {
    assert_eq!(
        line_count_command("url"),
        "ls/home/yxz/workspace/fuzz/experiment_root/url/dependents-l | wc -l >> line_count.txt"
    );
}

#[test]
fn crawl_stops_at_the_limit() {
    let mut c = DependentsCrawl::new(2);
    assert_eq!(c.next_page(), 1);
    c.page_fetched(Some(3));
    assert!(!c.is_finished());
    c.repository_found(Some("r1".to_string()));
    c.repository_found(None);
    assert!(!c.is_finished());
    assert_eq!(c.found(), 1);
    c.repository_found(Some("r2".to_string()));
    assert!(c.is_finished());
    assert_eq!(c.into_repositories(), vec!["r1".to_string(), "r2".to_string()]);
}

#[test]
fn crawl_stops_on_a_missing_or_empty_page() {
    let mut c = DependentsCrawl::new(10);
    c.next_page();
    c.page_fetched(Some(1));
    c.repository_found(Some("a".to_string()));
    assert_eq!(c.next_page(), 2);
    assert_eq!(c.page(), 2);
    c.page_fetched(Some(0));
    assert!(c.is_finished());
    let mut d = DependentsCrawl::new(10);
    d.next_page();
    d.page_fetched(None);
    assert!(d.is_finished());
    assert!(d.into_repositories().is_empty());
}

#[test]
fn crawl_with_limit_zero_keeps_none() {
    let c = DependentsCrawl::new(0);
    assert!(c.is_finished());
    assert!(c.into_repositories().is_empty());
}

#[test]
fn crawl_with_limit_one_keeps_one() {
    let mut c = DependentsCrawl::new(1);
    c.next_page();
    c.page_fetched(Some(5));
    assert!(!c.is_finished());
    c.repository_found(None);
    assert!(!c.is_finished());
    c.repository_found(Some("only".to_string()));
    assert!(c.is_finished());
    assert_eq!(c.into_repositories(), vec!["only".to_string()]);
}

#[test]
fn an_existing_target_is_not_cloned() {
    assert!(clone_step_for("url", "https://github.com/a/b", 2, true).is_none());
    let p = clone_step_for("url", "https://github.com/a/b", 2, false).unwrap();
    assert_eq!(p.command, clone_plan("url", "https://github.com/a/b", 2).command);
}
