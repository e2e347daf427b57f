use mdx2db::load::{LoadStep, Loader, Received, StorePhase, REPORT_EVERY};
use mdx2db::partition::split_tasks;
use mdx2db::sanitize::Sanitizer;

fn pairs(n: usize) -> Vec<(String, String)> {
    (0..n)
        .map(|i| (format!("word{}", i), format!(" <a href='w{}'>def</a> 'q' {} ", i, i)))
        .collect()
}

// Runs the pipeline in one thread: partition, resolve in partition order,
// then let the loader decide on each record; `fail` picks inserts that fail.
fn run(input: &[(String, String)], workers: usize, strip: bool, fail: &dyn Fn(&str) -> bool) -> (Vec<(String, String)>, Loader, bool) {
    let sanitizer = Sanitizer::new(strip).unwrap();
    let keys: Vec<usize> = (0..input.len()).collect();
    let (parts, total) = split_tasks(keys, workers);
    let mut loader = Loader::new(total);
    let mut rows = Vec::new();
    let mut events: Vec<Received> = Vec::new();
    for part in parts.iter().rev() {
        for &i in part {
            let (w, d) = &input[i];
            events.push(Received::Record { word: w.clone(), definition: d.clone() });
        }
    }
    events.push(Received::Closed);
    let mut complete = false;
    for ev in events {
        match loader.on_received(&sanitizer, ev) {
            LoadStep::Insert { word, html } => {
                let ok = !fail(&word);
                if ok {
                    rows.push((word, html));
                }
                loader.on_inserted(ok);
            }
            LoadStep::Finish { complete: c } => {
                complete = c;
                break;
            }
        }
    }
    rows.sort();
    (rows, loader, complete)
}

#[test]
fn end_to_end_ten_thousand_records_four_workers() {
    let input = pairs(10_000);
    let (rows, loader, complete) = run(&input, 4, true, &|_| false);
    assert!(complete);
    assert_eq!(rows.len(), 10_000);
    assert_eq!(loader.inserted, 10_000);
    assert_eq!(loader.skipped, 0);
    assert_eq!(loader.total, 10_000);
    let sanitizer = Sanitizer::new(true).unwrap();
    let mut expected: Vec<(String, String)> =
        input.iter().map(|(w, d)| (w.clone(), sanitizer.sanitize(d))).collect();
    expected.sort();
    assert_eq!(rows, expected);
    assert_eq!(rows.iter().find(|r| r.0 == "word5").unwrap().1, "def \\\"q\\\" 5");
    let (again, _, _) = run(&input, 4, true, &|_| false);
    assert_eq!(rows, again);
}

#[test]
fn one_failing_insert_is_skipped() {
    let input = pairs(10_000);
    let (rows, loader, complete) = run(&input, 4, false, &|w| w == "word1234");
    assert!(complete);
    assert_eq!(rows.len(), 9_999);
    assert_eq!(loader.inserted, 9_999);
    assert_eq!(loader.skipped, 1);
}

#[test]
fn one_and_sixteen_workers_give_the_same_rows() {
    let input = pairs(1_000);
    let (one, _, _) = run(&input, 1, true, &|_| false);
    let (sixteen, _, _) = run(&input, 16, true, &|_| false);
    assert_eq!(one, sixteen);
}

#[test]
fn record_becomes_insert_of_sanitized_text() {
    let sanitizer = Sanitizer::new(false).unwrap();
    let mut loader = Loader::new(1);
    let step = loader.on_received(&sanitizer, Received::Record { word: "w".to_string(), definition: "it's".to_string() });
    match step {
        LoadStep::Insert { word, html } => {
            assert_eq!(word, "w");
            assert_eq!(html, "it\\\"s");
        }
        LoadStep::Finish { .. } => panic!("expected an insert"),
    }
    assert_eq!(loader, Loader::new(1));
}

#[test]
fn broken_stream_finishes_incomplete() {
    let sanitizer = Sanitizer::new(false).unwrap();
    let mut loader = Loader::new(5);
    let step = loader.on_received(&sanitizer, Received::Broken);
    assert!(matches!(step, LoadStep::Finish { complete: false }));
    assert!(loader.finished);
}

#[test]
fn closed_stream_finishes_complete() {
    let sanitizer = Sanitizer::new(false).unwrap();
    let mut loader = Loader::new(0);
    let step = loader.on_received(&sanitizer, Received::Closed);
    assert!(matches!(step, LoadStep::Finish { complete: true }));
    assert!(loader.finished);
    assert_eq!(loader.inserted, 0);
}

#[test]
fn progress_is_reported_every_interval() {
    let mut loader = Loader::new(20_000);
    let mut reports = Vec::new();
    for i in 1..=12_001usize {
        if loader.on_inserted(true) {
            reports.push(i);
        }
    }
    assert_eq!(REPORT_EVERY, 6000);
    assert_eq!(reports, vec![6000, 12_000]);
    assert!(!loader.on_inserted(false));
    assert_eq!(loader.skipped, 1);
    assert_eq!(loader.inserted, 12_001);
}

#[test]
fn store_phases() {
    assert_eq!(StorePhase::opened(false), StorePhase::CreatedEmpty);
    assert_eq!(StorePhase::opened(true), StorePhase::ReusedAsIs);
    assert!(StorePhase::CreatedEmpty.needs_schema());
    assert!(!StorePhase::ReusedAsIs.needs_schema());
    assert_eq!(StorePhase::ReusedAsIs.begin_load(), Some(StorePhase::Populating));
    assert_eq!(StorePhase::CreatedEmpty.begin_load(), Some(StorePhase::Populating));
    assert_eq!(StorePhase::Uninitialized.begin_load(), None);
    assert_eq!(StorePhase::Populating.begin_load(), None);
    assert_eq!(StorePhase::Populating.commit(), Some(StorePhase::Committed));
    assert_eq!(StorePhase::Committed.commit(), None);
    assert_eq!(StorePhase::CreatedEmpty.commit(), None);
}
