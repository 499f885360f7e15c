use crawler::registry::{RegisterOutcome, VisitedRegistry};

fn offer(r: &mut VisitedRegistry, key: &str, now: u64) -> RegisterOutcome {
    r.try_register(
        key.to_string(),
        format!("https://{}", key),
        "ref".to_string(),
        now,
    )
}

#[test]
fn new_key_is_admitted_with_its_timestamp() {
    let mut r = VisitedRegistry::new(3);
    assert_eq!(r.len(), 0);
    assert_eq!(offer(&mut r, "a.com", 17), RegisterOutcome::Admitted(17));
    assert_eq!(r.len(), 1);
    assert!(r.contains(&"a.com".to_string()));
    let rec = r.get(&"a.com".to_string()).unwrap();
    assert_eq!(rec.url, "https://a.com");
    assert_eq!(rec.referrer, "ref");
    assert_eq!(rec.visited_at, 17);
}

#[test]
fn known_key_is_not_admitted_again_and_its_record_stays() {
    let mut r = VisitedRegistry::new(3);
    assert_eq!(offer(&mut r, "a.com", 1), RegisterOutcome::Admitted(1));
    let again = r.try_register(
        "a.com".to_string(),
        "http://www.a.com/".to_string(),
        "other".to_string(),
        2,
    );
    assert_eq!(again, RegisterOutcome::AlreadyVisited);
    assert_eq!(r.len(), 1);
    let rec = r.get(&"a.com".to_string()).unwrap();
    assert_eq!(rec.url, "https://a.com");
    assert_eq!(rec.referrer, "ref");
    assert_eq!(rec.visited_at, 1);
}

#[test]
fn full_registry_admits_nothing() {
    let mut r = VisitedRegistry::new(2);
    assert_eq!(offer(&mut r, "a", 1), RegisterOutcome::Admitted(1));
    assert!(!r.is_full());
    assert_eq!(offer(&mut r, "b", 2), RegisterOutcome::Admitted(2));
    assert!(r.is_full());
    assert_eq!(offer(&mut r, "c", 3), RegisterOutcome::CapReached);
    assert_eq!(r.len(), 2);
    assert!(!r.contains(&"c".to_string()));
}

#[test]
fn cap_is_looked_at_before_the_key() {
    let mut r = VisitedRegistry::new(1);
    assert_eq!(offer(&mut r, "a", 1), RegisterOutcome::Admitted(1));
    assert_eq!(offer(&mut r, "a", 2), RegisterOutcome::CapReached);
}

#[test]
fn cap_of_zero_admits_nothing() {
    let mut r = VisitedRegistry::new(0);
    assert!(r.is_full());
    assert_eq!(offer(&mut r, "a", 1), RegisterOutcome::CapReached);
    assert_eq!(r.len(), 0);
    assert_eq!(r.cap(), 0);
}

#[test]
fn size_never_passes_the_cap() {
    let cap = 5;
    let mut r = VisitedRegistry::new(cap);
    for i in 0..40u64 {
        let key = format!("k{}", i % 9);
        offer(&mut r, &key, i);
        assert!(r.len() <= cap);
    }
    assert_eq!(r.len(), cap);
}

#[test]
fn each_admitted_key_has_one_record() {
    let mut r = VisitedRegistry::new(10);
    let keys = ["a", "b", "a", "c", "b", "a", "d"];
    for (i, k) in keys.iter().enumerate() {
        offer(&mut r, k, i as u64);
    }
    assert_eq!(r.len(), 4);
    for k in ["a", "b", "c", "d"] {
        let mut count = 0;
        for i in 0..r.len() {
            if r.record_at(i).url == format!("https://{}", k) {
                count += 1;
            }
        }
        assert_eq!(count, 1);
    }
}

#[test]
fn records_keep_the_order_of_admission() {
    let mut r = VisitedRegistry::new(10);
    offer(&mut r, "x", 30);
    offer(&mut r, "y", 10);
    offer(&mut r, "x", 5);
    offer(&mut r, "z", 20);
    assert_eq!(r.record_at(0).visited_at, 30);
    assert_eq!(r.record_at(1).visited_at, 10);
    assert_eq!(r.record_at(2).visited_at, 20);
    assert!(r.get(&"w".to_string()).is_none());
}

#[test]
fn first_offer_to_an_empty_registry_is_admitted() {
    let mut r = VisitedRegistry::new(1);
    let seed = r.try_register(
        "cnn.com".to_string(),
        "https://www.cnn.com".to_string(),
        "STARTING_URL".to_string(),
        0,
    );
    assert_eq!(seed, RegisterOutcome::Admitted(0));
}
