use spider::crawl::{Crawl, Job, Outcome};
use spider::frontier::Frontier;
use spider::url::UrlError;

fn page_url(job: &Job) -> String {
    match job {
        Job::Page(t) => String::from_utf8(t.url.clone()).unwrap(),
        Job::Image(_) => panic!("expected a page"),
    }
}

fn html(s: &str) -> Outcome {
    Outcome::Html(s.as_bytes().to_vec())
}

#[test]
fn frontier_visits_each_url_once() {
    let mut f = Frontier::new(2);
    assert!(f.offer(b"https://x.test/1".to_vec(), 0));
    assert!(!f.offer(b"https://x.test/1".to_vec(), 1));
    assert!(f.offer(b"https://x.test/2".to_vec(), 1));
    assert!(!f.offer(b"https://x.test/2".to_vec(), 0));
    assert_eq!(f.visited_count(), 2);
}

#[test]
fn frontier_refuses_tasks_over_the_limit() {
    let mut f = Frontier::new(2);
    assert!(!f.offer(b"https://x.test/deep".to_vec(), 3));
    assert!(f.offer(b"https://x.test/deep".to_vec(), 2));
    let t = f.pop().unwrap();
    assert_eq!(t.depth, 2);
    assert!(f.pop().is_none());
}

#[test]
fn frontier_drains_after_finishing() {
    let mut f = Frontier::new(1);
    f.offer(b"https://x.test/".to_vec(), 0);
    f.offer(b"https://x.test/a".to_vec(), 1);
    assert_eq!(f.pop().unwrap().url, b"https://x.test/".to_vec());
    assert_eq!(f.pop().unwrap().url, b"https://x.test/a".to_vec());
    assert!(!f.is_drained());
    f.finish();
    f.finish();
    assert!(f.is_drained());
    assert_eq!(f.finished_count(), 2);
    f.stop();
    assert!(!f.offer(b"https://x.test/b".to_vec(), 1));
}

#[test]
fn without_recursion_only_the_root_is_visited() {
    let mut c = Crawl::new(b"https://x.test/", false, 5).unwrap();
    let job = c.next_job().unwrap();
    assert_eq!(page_url(&job), "https://x.test/");
    c.complete(&job, html("<a href=\"/a\">a</a> <img src=\"p.png\">"));
    let img = c.next_job().unwrap();
    match &img {
        Job::Image(u) => assert_eq!(u, &b"https://x.test/p.png".to_vec()),
        Job::Page(_) => panic!("no page should be admitted"),
    }
    c.complete(&img, Outcome::Saved);
    assert!(c.next_job().is_none());
    assert!(c.is_drained());
    let r = c.report();
    assert_eq!(r.pages_visited, 1);
    assert_eq!(r.downloaded, 1);
    assert_eq!(r.failed, 0);
}

#[test]
fn recursion_stops_at_the_depth_limit() {
    let mut c = Crawl::new(b"https://x.test/", true, 1).unwrap();
    let root = c.next_job().unwrap();
    c.complete(&root, html("<a href=\"/a\">a</a>"));
    let a = c.next_job().unwrap();
    assert_eq!(page_url(&a), "https://x.test/a");
    match &a {
        Job::Page(t) => assert_eq!(t.depth, 1),
        Job::Image(_) => panic!("expected a page"),
    }
    c.complete(&a, html("<a href=\"/b\">b</a>"));
    assert!(c.next_job().is_none());
    assert!(c.is_drained());
    assert_eq!(c.report().pages_visited, 2);
}

#[test]
fn cycles_do_not_revisit_pages() {
    let mut c = Crawl::new(b"https://x.test/", true, 5).unwrap();
    let root = c.next_job().unwrap();
    c.complete(&root, html("<a href=\"/a\">a</a>"));
    let a = c.next_job().unwrap();
    c.complete(&a, html("<a href=\"/\">home</a> <a href=\"https://X.TEST/a#x\">self</a>"));
    assert!(c.next_job().is_none());
    assert_eq!(c.report().pages_visited, 2);
}

#[test]
fn a_failed_branch_does_not_stop_the_others() {
    let mut c = Crawl::new(b"https://x.test/", true, 3).unwrap();
    let root = c.next_job().unwrap();
    c.complete(&root, html("<a href=\"/a\">a</a> <a href=\"/b\">b</a>"));
    let a = c.next_job().unwrap();
    let b = c.next_job().unwrap();
    c.complete(&a, Outcome::Failed);
    c.complete(&b, html("<a href=\"/c\">c</a>"));
    let cc = c.next_job().unwrap();
    assert_eq!(page_url(&cc), "https://x.test/c");
    c.complete(&cc, Outcome::Other);
    assert!(c.is_drained());
    let r = c.report();
    assert_eq!(r.pages_visited, 4);
    assert_eq!(r.failed, 1);
    assert_eq!(r.downloaded, 0);
}

#[test]
fn stopping_admits_nothing_new() {
    let mut c = Crawl::new(b"https://x.test/", true, 3).unwrap();
    let root = c.next_job().unwrap();
    c.stop();
    c.complete(&root, html("<a href=\"/a\">a</a> <img src=\"i.png\">"));
    assert!(c.next_job().is_none());
    assert!(c.is_drained());
}

#[test]
fn invalid_root_is_rejected() {
    assert!(matches!(Crawl::new(b"ftp://x.test/", true, 1), Err(UrlError::UnsupportedScheme)));
    assert!(matches!(Crawl::new(b"x.test", true, 1), Err(UrlError::Malformed)));
}

#[test]
fn claimed_names_are_distinct_per_source() {
    let mut c = Crawl::new(b"https://x.test/", false, 0).unwrap();
    let a = c.claim_name(b"https://x.test/a/pic.png");
    let b = c.claim_name(b"https://x.test/b/pic.png");
    match (a, b) {
        (spider::download::Claim::Fresh(a), spider::download::Claim::Fresh(b)) => {
            assert_eq!(a, b"pic.png".to_vec());
            assert_eq!(b, b"pic-1.png".to_vec());
        }
        _ => panic!("both should be named"),
    }
}

#[test]
fn only_handed_out_jobs_can_be_completed() {
    let mut c = Crawl::new(b"https://x.test/", false, 0).unwrap();
    let fake = Job::Image(b"https://x.test/i.png".to_vec());
    assert!(!c.can_complete(&fake));
    let root = c.next_job().unwrap();
    assert!(c.can_complete(&root));
    c.complete(&root, Outcome::Other);
    assert!(!c.can_complete(&root));
}
