use serial_plotter::connection::{Action, ConnectionError, Event, Phase};
use serial_plotter::pipeline::IngestReport;
use serial_plotter::session::Session;

fn connected(limit: usize) -> Session {
    let mut session = Session::new(limit);
    assert_eq!(session.handle(Event::ConnectRequested), Action::Open);
    assert_eq!(session.handle(Event::Opened), Action::Configure);
    assert_eq!(session.handle(Event::Configured), Action::Nothing);
    assert!(session.is_open());
    session
}

fn texts(session: &Session) -> Vec<(String, String)> {
    session
        .pipeline()
        .snapshot()
        .iter()
        .map(|sample| {
            (
                String::from_utf8(sample.position().as_bytes().to_vec()).unwrap(),
                String::from_utf8(sample.value().as_bytes().to_vec()).unwrap(),
            )
        })
        .collect()
}

fn pair(position: &str, value: &str) -> (String, String) {
    (position.to_string(), value.to_string())
}

#[test]
fn new_session_is_closed_and_empty() {
    let session = Session::new(32);
    assert_eq!(session.phase(), Phase::Closed);
    assert!(!session.is_open());
    assert_eq!(session.pipeline().series().len(), 0);
    assert_eq!(session.pipeline().splitter().limit(), 32);
    assert!(session.pipeline().splitter().is_awaiting_first());
}

#[test]
fn session_follows_the_connection() {
    let mut session = Session::new(32);
    assert_eq!(session.handle(Event::ConnectRequested), Action::Open);
    assert_eq!(session.phase(), Phase::Opening);
    assert_eq!(session.handle(Event::OpenRefused), Action::Report(ConnectionError::OpenFailed));
    assert_eq!(session.phase(), Phase::Closed);
    assert_eq!(session.handle(Event::ConnectRequested), Action::Open);
    assert_eq!(session.handle(Event::Opened), Action::Configure);
    assert_eq!(
        session.handle(Event::ConfigureRefused),
        Action::ReleaseAndReport(ConnectionError::ConfigureFailed)
    );
    assert_eq!(session.phase(), Phase::Closed);
    assert!(!session.is_open());
}

#[test]
fn tick_takes_in_what_the_read_delivered() {
    let mut session = connected(32);
    let mut buffer = [0u8; 32];
    let data = b"pos,val\n1.0,2.0\n3.0,4.0\n5.0";
    buffer[..data.len()].copy_from_slice(data);
    let report = session.tick(&buffer, Some(data.len()));
    assert_eq!(report, IngestReport { accepted: 2, rejected: 0 });
    assert_eq!(texts(&session), vec![pair("1.0", "2.0"), pair("3.0", "4.0")]);
    assert_eq!(session.pipeline().splitter().pending(), b"5.0");
}

#[test]
fn tick_ignores_the_buffer_beyond_what_was_read() {
    let mut session = connected(32);
    let buffer = *b"h\n1,2\n3,4\n";
    let report = session.tick(&buffer, Some(6));
    assert_eq!(report, IngestReport { accepted: 1, rejected: 0 });
    assert_eq!(texts(&session), vec![pair("1", "2")]);
    assert_eq!(session.pipeline().splitter().pending(), b"");
}

#[test]
fn a_read_that_gave_up_changes_nothing() {
    let mut session = connected(32);
    session.tick(b"h\n1,2\n3,", Some(8));
    let report = session.tick(b"4\n5,6\n", None);
    assert_eq!(report, IngestReport { accepted: 0, rejected: 0 });
    assert_eq!(texts(&session), vec![pair("1", "2")]);
    assert_eq!(session.pipeline().splitter().pending(), b"3,");
    assert!(session.is_open());
}

#[test]
fn tick_does_nothing_while_the_connection_does_not_deliver() {
    let mut session = Session::new(32);
    let data = b"h\n1,2\n";
    assert_eq!(session.tick(data, Some(data.len())), IngestReport { accepted: 0, rejected: 0 });
    session.handle(Event::ConnectRequested);
    assert_eq!(session.tick(data, Some(data.len())), IngestReport { accepted: 0, rejected: 0 });
    session.handle(Event::Opened);
    assert_eq!(session.tick(data, Some(data.len())), IngestReport { accepted: 0, rejected: 0 });
    assert_eq!(session.pipeline().series().len(), 0);
    assert!(session.pipeline().splitter().pending().is_empty());
    assert!(session.pipeline().splitter().is_awaiting_first());
    session.handle(Event::Configured);
    assert_eq!(session.tick(data, Some(data.len())), IngestReport { accepted: 1, rejected: 0 });
}

#[test]
fn a_new_connection_starts_a_new_stream_and_keeps_the_series() {
    let mut session = connected(32);
    session.tick(b"head\n1,2\n3,", Some(12));
    assert_eq!(session.handle(Event::ConnectRequested), Action::ReleaseAndOpen);
    assert_eq!(session.pipeline().splitter().pending(), b"3,");
    assert_eq!(session.handle(Event::Opened), Action::Configure);
    assert_eq!(session.handle(Event::Configured), Action::Nothing);
    assert!(session.pipeline().splitter().pending().is_empty());
    assert!(session.pipeline().splitter().is_awaiting_first());
    assert_eq!(texts(&session), vec![pair("1", "2")]);
    let report = session.tick(b"4\n5,6\n", Some(6));
    assert_eq!(report, IngestReport { accepted: 1, rejected: 0 });
    assert_eq!(texts(&session), vec![pair("1", "2"), pair("5", "6")]);
}

#[test]
fn closing_keeps_the_series() {
    let mut session = connected(32);
    session.tick(b"head\n1,2\n", Some(9));
    assert_eq!(session.handle(Event::CloseRequested), Action::Release);
    assert_eq!(session.handle(Event::CloseRequested), Action::Nothing);
    assert_eq!(session.phase(), Phase::Closed);
    assert_eq!(texts(&session), vec![pair("1", "2")]);
    assert_eq!(session.pipeline().export().unwrap(), b"1,2\n");
}

#[test]
fn an_event_out_of_place_leaves_the_stream_alone() {
    let mut session = connected(32);
    session.tick(b"head\n1,", Some(7));
    assert_eq!(session.handle(Event::Configured), Action::Nothing);
    assert_eq!(session.handle(Event::Opened), Action::Nothing);
    assert!(session.is_open());
    assert_eq!(session.pipeline().splitter().pending(), b"1,");
    session.tick(b"2\n", Some(2));
    assert_eq!(texts(&session), vec![pair("1", "2")]);
}

#[test]
fn clear_forgets_the_samples_only() {
    let mut session = connected(32);
    session.tick(b"head\n1,2\n3,", Some(12));
    session.clear();
    assert!(session.is_open());
    assert_eq!(session.pipeline().series().len(), 0);
    assert_eq!(session.pipeline().splitter().pending(), b"3,");
    session.tick(b"4\n", Some(2));
    assert_eq!(texts(&session), vec![pair("3", "4")]);
}
