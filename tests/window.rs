use load_titles::pipeline::{load_url_and_get_title, Outcome, Window};

fn title_of(o: &Outcome) -> Option<String> {
    match o {
        Outcome::Title(t) => t.clone(),
        Outcome::Failed(_) => None,
    }
}

#[test]
fn outcomes_come_out_in_input_order() {
    let mut w = Window::new(3, 10);
    assert_eq!(w.start_next(), Some(0));
    assert_eq!(w.start_next(), Some(1));
    assert_eq!(w.start_next(), Some(2));
    assert_eq!(w.start_next(), None);
    w.complete(2, Outcome::Title(Some("c".to_string())));
    assert!(w.next_result().is_none());
    w.complete(1, Outcome::Title(Some("b".to_string())));
    assert!(w.next_result().is_none());
    w.complete(0, Outcome::Title(Some("a".to_string())));
    let got: Vec<Option<String>> = (0..3).map(|_| title_of(&w.next_result().unwrap())).collect();
    assert_eq!(got, vec![Some("a".to_string()), Some("b".to_string()), Some("c".to_string())]);
    assert!(w.next_result().is_none());
    assert!(w.is_finished());
}

#[test]
fn in_flight_never_exceeds_limit() {
    let mut w = Window::new(5, 2);
    assert_eq!(w.start_next(), Some(0));
    assert_eq!(w.start_next(), Some(1));
    assert_eq!(w.start_next(), None);
    assert_eq!(w.in_flight(), 2);
    w.complete(1, Outcome::Title(None));
    assert_eq!(w.in_flight(), 1);
    assert_eq!(w.start_next(), Some(2));
    assert_eq!(w.start_next(), None);
    assert!(w.is_pending(0) && w.is_pending(2) && !w.is_pending(1));
    w.complete(0, Outcome::Title(None));
    w.complete(2, Outcome::Title(None));
    assert_eq!(w.in_flight(), 0);
    assert!(w.next_result().is_some());
    assert!(w.next_result().is_some());
    assert!(w.next_result().is_some());
    assert!(w.next_result().is_none());
    assert_eq!(w.start_next(), Some(3));
    assert_eq!(w.start_next(), Some(4));
    assert_eq!(w.start_next(), None);
    assert!(!w.is_finished());
}

#[test]
fn failure_in_the_middle_stops_the_run() {
    let mut w = Window::new(3, 10);
    for i in 0..3 {
        assert_eq!(w.start_next(), Some(i));
    }
    w.complete(2, Outcome::Title(Some("third".to_string())));
    w.complete(1, Outcome::Failed("failed to get: `http://two`".to_string()));
    w.complete(0, Outcome::Title(Some("first".to_string())));
    assert_eq!(title_of(&w.next_result().unwrap()), Some("first".to_string()));
    assert!(matches!(w.next_result(), Some(Outcome::Failed(e)) if e == "failed to get: `http://two`"));
    assert!(w.next_result().is_none());
    assert!(w.is_finished());
}

#[test]
fn nothing_starts_after_a_failure() {
    let mut w = Window::new(4, 1);
    assert_eq!(w.start_next(), Some(0));
    w.complete(0, Outcome::Failed("boom".to_string()));
    assert!(matches!(w.next_result(), Some(Outcome::Failed(_))));
    assert_eq!(w.start_next(), None);
}

#[test]
fn empty_run_is_finished() {
    let mut w = Window::new(0, 10);
    assert!(w.is_finished());
    assert_eq!(w.start_next(), None);
    assert!(w.next_result().is_none());
}

#[test]
fn fetched_page_gives_its_title() {
    let o = load_url_and_get_title(Ok("<title> Home </title>".to_string()));
    assert!(matches!(o, Outcome::Title(Some(t)) if t == "Home"));
    let o = load_url_and_get_title(Ok("<p>x</p>".to_string()));
    assert!(matches!(o, Outcome::Title(None)));
}

#[test]
fn failed_fetch_gives_failure() {
    let o = load_url_and_get_title(Err("connection refused".to_string()));
    assert!(matches!(o, Outcome::Failed(e) if e == "connection refused"));
}

fn urls() -> Vec<String> {
    vec!["http://one".to_string(), "http://two".to_string(), "http://three".to_string()]
}

#[test]
fn drained_lines_follow_input_order() {
    let urls = urls();
    let mut w = Window::new(3, 10);
    for i in 0..3 {
        assert_eq!(w.start_next(), Some(i));
    }
    w.complete(2, Outcome::Title(Some("C".to_string())));
    w.complete(1, Outcome::Title(Some("B".to_string())));
    let (lines, failure) = w.drain_ready(&urls, "%title <%url>", false);
    assert!(lines.is_empty() && failure.is_none());
    w.complete(0, Outcome::Title(Some("A".to_string())));
    let (lines, failure) = w.drain_ready(&urls, "%title <%url>", false);
    assert!(failure.is_none());
    let got: Vec<Option<String>> = lines.into_iter().map(|e| e.line).collect();
    assert_eq!(
        got,
        vec![
            Some("A <http://one>".to_string()),
            Some("B <http://two>".to_string()),
            Some("C <http://three>".to_string())
        ]
    );
    assert!(w.is_finished());
}

#[test]
fn drained_missing_title_uses_fallback_or_is_skipped() {
    let urls = urls();
    let mut w = Window::new(3, 10);
    assert_eq!(w.start_next(), Some(0));
    w.complete(0, Outcome::Title(None));
    let (lines, _) = w.drain_ready(&urls, "%title <%url>", false);
    assert_eq!(lines.len(), 1);
    assert!(lines[0].no_title);
    assert_eq!(lines[0].line, Some("@@@ NO TITLE @@@ <http://one>".to_string()));

    let mut w = Window::new(3, 10);
    assert_eq!(w.start_next(), Some(0));
    assert_eq!(w.start_next(), Some(1));
    w.complete(0, Outcome::Title(None));
    w.complete(1, Outcome::Title(Some("B".to_string())));
    let (lines, failure) = w.drain_ready(&urls, "%title <%url>", true);
    assert!(failure.is_none());
    assert_eq!(lines.len(), 2);
    assert!(lines[0].no_title && lines[0].line.is_none());
    assert!(!lines[1].no_title);
    assert_eq!(lines[1].line, Some("B <http://two>".to_string()));
}

#[test]
fn drained_failure_keeps_earlier_lines_only() {
    let urls = urls();
    let mut w = Window::new(3, 10);
    for i in 0..3 {
        assert_eq!(w.start_next(), Some(i));
    }
    w.complete(2, Outcome::Title(Some("C".to_string())));
    w.complete(1, Outcome::Failed("failed to get: `http://two`".to_string()));
    w.complete(0, Outcome::Title(Some("A".to_string())));
    let (lines, failure) = w.drain_ready(&urls, "%title <%url>", false);
    assert_eq!(lines.len(), 1);
    assert_eq!(lines[0].line, Some("A <http://one>".to_string()));
    assert_eq!(failure, Some("failed to get: `http://two`".to_string()));
    let (lines, failure) = w.drain_ready(&urls, "%title <%url>", false);
    assert!(lines.is_empty() && failure.is_none());
    assert!(w.is_finished());
}
