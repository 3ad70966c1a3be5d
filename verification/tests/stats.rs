use pii_eval::counts_map::CountsMap;
use pii_eval::model::SampleCounts;
use pii_eval::stats::Stats;

#[test]
fn stats_accumulates_correctly() {
    let mut stats = Stats::new();

    let c1 = SampleCounts { tp_strict: 2, fp_strict: 1, fn_strict: 0,
                             tp_relaxed: 2, fp_relaxed: 1, fn_relaxed: 0 };
    let c2 = SampleCounts { tp_strict: 1, fp_strict: 0, fn_strict: 1,
                             tp_relaxed: 2, fp_relaxed: 0, fn_relaxed: 0 };

    let mut by_type1 = CountsMap::new();
    by_type1.insert("PERSON".to_string(), c1.clone());
    let mut by_type2 = CountsMap::new();
    by_type2.insert("PERSON".to_string(), c2.clone());

    stats.add(&c1, &by_type1, "it");
    stats.add(&c2, &by_type2, "it");

    let global = stats.global();
    assert_eq!(global.tp_strict, 3);
    assert_eq!(global.fp_strict, 1);
    assert_eq!(global.fn_strict, 1);

    let person = stats.by_type().get("PERSON").unwrap();
    assert_eq!(person.tp_strict, 3);

    let it = stats.by_lang().get("it").unwrap();
    assert_eq!(it.tp_relaxed, 4);
}

#[test]
fn new_stats_are_empty() {
    let stats = Stats::new();
    assert_eq!(stats.global(), SampleCounts::default());
    assert_eq!(stats.by_type().len(), 0);
    assert_eq!(stats.by_lang().len(), 0);
}

#[test]
fn add_order_does_not_matter() {
    let c1 = SampleCounts { tp_strict: 1, fp_strict: 2, fn_strict: 3,
                             tp_relaxed: 4, fp_relaxed: 5, fn_relaxed: 6 };
    let c2 = SampleCounts { tp_strict: 10, fp_strict: 20, fn_strict: 30,
                             tp_relaxed: 40, fp_relaxed: 50, fn_relaxed: 60 };
    let mut t1 = CountsMap::new();
    t1.insert("PERSON".to_string(), c1);
    let mut t2 = CountsMap::new();
    t2.insert("LOCATION".to_string(), c2);
    t2.insert("PERSON".to_string(), c1);

    let mut a = Stats::new();
    a.add(&c1, &t1, "it");
    a.add(&c2, &t2, "en");
    let mut b = Stats::new();
    b.add(&c2, &t2, "en");
    b.add(&c1, &t1, "it");

    assert_eq!(a.global(), b.global());
    for key in ["PERSON", "LOCATION"] {
        assert_eq!(a.by_type().get(key), b.by_type().get(key));
    }
    for key in ["it", "en"] {
        assert_eq!(a.by_lang().get(key), b.by_lang().get(key));
    }
    assert_eq!(a.by_type().get("PERSON").unwrap().tp_strict, 2);
    assert_eq!(a.by_type().get("LOCATION").unwrap().fn_relaxed, 60);
}

#[test]
fn counts_map_keeps_keys_in_ascending_order() {
    let mut m = CountsMap::new();
    for key in ["PERSON", "EMAIL_ADDRESS", "URL", "LOCATION", "PERSON", "é", "Z"] {
        m.insert(key.to_string(), SampleCounts::default());
    }
    let keys: Vec<String> = (0..m.len()).map(|i| m.entry(i).0.clone()).collect();
    let mut sorted = keys.clone();
    sorted.sort();
    sorted.dedup();
    assert_eq!(keys, sorted);
    assert_eq!(keys, vec!["EMAIL_ADDRESS", "LOCATION", "PERSON", "URL", "Z", "é"]);
}

#[test]
fn add_to_key_starts_from_zero() {
    let mut m = CountsMap::new();
    let c = SampleCounts { tp_strict: 1, fp_strict: 0, fn_strict: 2,
                            tp_relaxed: 1, fp_relaxed: 0, fn_relaxed: 2 };
    m.add_to_key("it", &c);
    m.add_to_key("it", &c);
    let got = m.get("it").unwrap();
    assert_eq!(got.fn_strict, 4);
    assert_eq!(got.tp_relaxed, 2);
    assert!(m.get("en").is_none());
}
