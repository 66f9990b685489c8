use podcast_fetch::config::fetch_url;
use podcast_fetch::gate::Gate;
use podcast_fetch::ledger::Ledger;
use podcast_fetch::plan::{discover, plan_candidates, Anchor, Candidate};
use podcast_fetch::run::{ItemState, Outcome, Run, RunResult};

fn cand(r: &str, f: &str) -> Candidate {
    Candidate { reference: r.to_string(), filename: f.to_string() }
}

fn anchor(href: &str, download: &str) -> Anchor {
    Anchor { href: Some(href.to_string()), download: Some(download.to_string()) }
}

const PAGE: &str = r#"<html><body>
<a href="//x/low/audio-nondrm-download-low/a.mp3" download="Show, low.mp3">low</a>
<a href="//x/high/old.mp3" download="Show, old.mp3">old</a>
<a href="//x/high/new.mp3" download="Show, new episode.mp3">new</a>
<a href="//x/page.html" download="Show, page.html">page</a>
</body></html>"#;

#[test]
fn end_to_end_one_new_episode() {
    let ledger = Ledger::load("Generate Podcast Downloader\n----\n20240101000000 //x/high/old.mp3\n");
    let found = discover(PAGE, &ledger).expect("selector parses");
    assert_eq!(found.len(), 1);
    assert_eq!(found[0].reference, "//x/high/new.mp3");
    assert_eq!(found[0].filename, "new_episode.mp3");
    assert_eq!(fetch_url(&found[0].reference), "https://x/high/new.mp3");

    let mut run = Run::new(found, ledger, 4);
    let mut fetches = 0;
    while let Some(i) = run.dispatch() {
        fetches += 1;
        run.finish(i, Outcome::Recorded);
    }
    assert_eq!(fetches, 1);
    assert!(run.is_complete());
    assert_eq!(run.result(), RunResult { total: 1, succeeded: 1, failed: 0 });
    let ledger = run.into_ledger();
    assert!(ledger.contains("//x/high/new.mp3"));

    // a second pass over the same page finds nothing new
    let again = discover(PAGE, &ledger).expect("selector parses");
    assert!(again.is_empty());
}

#[test]
fn failed_item_does_not_stop_the_others() {
    let cands = vec![cand("//x/a.mp3", "a.mp3"), cand("//x/b.mp3", "b.mp3")];
    let mut run = Run::new(cands, Ledger::new(), 4);
    let a = run.dispatch().unwrap();
    let b = run.dispatch().unwrap();
    assert_eq!((a, b), (0, 1));
    run.finish(a, Outcome::Failed);
    run.finish(b, Outcome::Recorded);
    assert!(run.is_complete());
    assert_eq!(run.result(), RunResult { total: 2, succeeded: 1, failed: 1 });
    assert_eq!(run.state(0), ItemState::Failed);
    assert_eq!(run.state(1), ItemState::Recorded);
    assert!(run.ledger().contains("//x/b.mp3"));
    assert!(!run.ledger().contains("//x/a.mp3"));
}

#[test]
fn never_more_than_four_in_flight() {
    let cands: Vec<Candidate> = (0..7).map(|i| cand(&format!("//x/{}.mp3", i), "f")).collect();
    let mut run = Run::new(cands, Ledger::new(), 4);
    let mut in_flight: Vec<usize> = Vec::new();
    let mut peak = 0;
    loop {
        while let Some(i) = run.dispatch() {
            in_flight.push(i);
            peak = peak.max(in_flight.len());
        }
        if in_flight.is_empty() {
            break;
        }
        assert!(in_flight.len() <= 4);
        let i = in_flight.remove(0);
        run.finish(i, Outcome::Saved);
    }
    assert_eq!(peak, 4);
    assert!(run.is_complete());
    assert_eq!(run.result(), RunResult { total: 7, succeeded: 7, failed: 0 });
}

#[test]
fn dispatch_waits_for_a_free_slot() {
    let cands: Vec<Candidate> = (0..5).map(|i| cand(&format!("r{}", i), "f")).collect();
    let mut run = Run::new(cands, Ledger::new(), 4);
    for i in 0..4 {
        assert_eq!(run.dispatch(), Some(i));
    }
    assert_eq!(run.dispatch(), None);
    assert_eq!(run.state(4), ItemState::Pending);
    run.finish(2, Outcome::Failed);
    assert_eq!(run.dispatch(), Some(4));
    assert_eq!(run.dispatch(), None);
    assert!(!run.is_complete());
}

#[test]
fn saved_but_unrecorded_is_fetched_again() {
    let anchors = vec![anchor("//x/a.mp3", "S, a.mp3")];
    let ledger = Ledger::new();
    let first = plan_candidates(&anchors, &ledger, "audio-nondrm-download-low");
    assert_eq!(first.len(), 1);
    let mut run = Run::new(first, ledger, 4);
    let i = run.dispatch().unwrap();
    run.finish(i, Outcome::Saved);
    assert_eq!(run.result(), RunResult { total: 1, succeeded: 1, failed: 0 });
    let ledger = run.into_ledger();
    assert!(!ledger.contains("//x/a.mp3"));
    let second = plan_candidates(&anchors, &ledger, "audio-nondrm-download-low");
    assert_eq!(second.len(), 1);
    assert_eq!(second[0].reference, "//x/a.mp3");
}

#[test]
fn empty_run_is_complete() {
    let mut run = Run::new(Vec::new(), Ledger::new(), 4);
    assert!(run.is_complete());
    assert_eq!(run.dispatch(), None);
    assert_eq!(run.result(), RunResult { total: 0, succeeded: 0, failed: 0 });
}

#[test]
fn plan_drops_unusable_links() {
    let anchors = vec![
        Anchor { href: None, download: Some("S, a.mp3".to_string()) },
        Anchor { href: Some("//x/b.mp3".to_string()), download: None },
        anchor("//x/c.mp3", "S,  "),
        anchor("//x/audio-nondrm-download-low/d.mp3", "S, d.mp3"),
        anchor("//x/e.mp3", "S, e.mp3"),
        anchor("//x/f.mp3", "f file.mp3"),
    ];
    let mut ledger = Ledger::new();
    ledger.insert("//x/e.mp3");
    let got = plan_candidates(&anchors, &ledger, "audio-nondrm-download-low");
    assert_eq!(got.len(), 1);
    assert_eq!(got[0].reference, "//x/f.mp3");
    assert_eq!(got[0].filename, "f_file.mp3");
}

#[test]
fn discover_keeps_listing_order() {
    let page = r#"<a href="//x/2.mp3" download="S, two.mp3"></a><p><a href="//x/1.mp3" download="S, one.mp3"></a></p>"#;
    let got = discover(page, &Ledger::new()).unwrap();
    assert_eq!(got.len(), 2);
    assert_eq!(got[0].filename, "two.mp3");
    assert_eq!(got[1].filename, "one.mp3");
}

#[test]
fn gate_counts_slots() {
    let mut g = Gate::new(2);
    assert!(g.try_acquire());
    assert!(g.try_acquire());
    assert!(!g.try_acquire());
    assert_eq!(g.held(), 2);
    g.release();
    assert_eq!(g.held(), 1);
    assert!(g.try_acquire());
    assert_eq!(g.capacity(), 2);
}
