use crawler::registry::VisitedRegistry;
use crawler::report::{elapsed, report, visit_order, ReportLine};

fn registry_with(times: &[u64]) -> VisitedRegistry {
    let mut r = VisitedRegistry::new(times.len());
    for (i, t) in times.iter().enumerate() {
        r.try_register(format!("k{}", i), format!("url{}", i), format!("ref{}", i), *t);
    }
    r
}

#[test]
fn report_is_in_order_of_the_timestamps() {
    let r = registry_with(&[50, 10, 40, 20, 30]);
    assert_eq!(visit_order(&r), vec![1, 3, 4, 2, 0]);
    let out = report(&r, 100, 175);
    let urls: Vec<&str> = out.lines.iter().map(|l| l.url.as_str()).collect();
    assert_eq!(urls, vec!["url1", "url3", "url4", "url2", "url0"]);
    let refs: Vec<&str> = out.lines.iter().map(|l| l.referrer.as_str()).collect();
    assert_eq!(refs, vec!["ref1", "ref3", "ref4", "ref2", "ref0"]);
    assert_eq!(out.elapsed, 75);
    // the registry is as it was
    assert_eq!(r.len(), 5);
    assert_eq!(r.record_at(0).visited_at, 50);
}

#[test]
fn equal_timestamps_keep_the_order_of_admission() {
    let r = registry_with(&[7, 3, 7, 3, 7, 1]);
    assert_eq!(visit_order(&r), vec![5, 1, 3, 0, 2, 4]);
}

#[test]
fn sorted_and_reversed_timestamps() {
    assert_eq!(visit_order(&registry_with(&[1, 2, 3, 4])), vec![0, 1, 2, 3]);
    assert_eq!(visit_order(&registry_with(&[4, 3, 2, 1])), vec![3, 2, 1, 0]);
    assert_eq!(visit_order(&registry_with(&[u64::MAX, 0])), vec![1, 0]);
}

#[test]
fn report_of_nothing_is_empty() {
    let r = VisitedRegistry::new(3);
    let out = report(&r, 5, 5);
    assert!(out.lines.is_empty());
    assert_eq!(out.elapsed, 0);
    assert_eq!(visit_order(&r), Vec::<usize>::new());
}

#[test]
fn elapsed_time_is_the_difference() {
    assert_eq!(elapsed(0, 0), 0);
    assert_eq!(elapsed(10, 25), 15);
    assert_eq!(elapsed(0, u64::MAX), u64::MAX);
    assert_eq!(elapsed(25, 10), 0);
}

#[test]
fn line_is_rendered_with_an_arrow() {
    let line = ReportLine { referrer: "STARTING_URL".to_string(), url: "https://www.cnn.com".to_string() };
    assert_eq!(line.render(), "STARTING_URL - > https://www.cnn.com");
    let empty = ReportLine { referrer: String::new(), url: String::new() };
    assert_eq!(empty.render(), " - > ");
}
