use archive_router::metrics::{Metrics, MetricsError, MetricsEvent, MetricsWriter};
use archive_router::util::Timestamp;

fn at(nanos: u128) -> Timestamp {
    Timestamp { after_epoch: true, nanos }
}

fn ping_from(worker: Option<&str>) -> MetricsEvent {
    MetricsEvent::Ping { worker_id: worker.map(|w| w.to_string()) }
}

#[test]
fn events_are_named_by_kind() {
    assert_eq!(ping_from(None).name(), "Ping");
    assert_eq!(MetricsEvent::QuerySubmitted { client_id: "c".to_string() }.name(), "QuerySubmitted");
    assert_eq!(MetricsEvent::QueryFinished { client_id: "c".to_string() }.name(), "QueryFinished");
    assert_eq!(MetricsEvent::WorkersSnapshot.name(), "WorkersSnapshot");
}

#[test]
fn metrics_accept_the_expected_sender() {
    let m = Metrics::new_at(Some("peer1".to_string()), ping_from(Some("peer1")), at(1234)).unwrap();
    assert_eq!(m.timestamp, at(1234));
    let early = Timestamp { after_epoch: false, nanos: 5 };
    let m = Metrics::new_at(None, ping_from(None), early).unwrap();
    assert_eq!(m.timestamp, early);
    assert_eq!(m.event.name(), "Ping");
    assert!(Metrics::new_at(None, ping_from(None), at(0)).is_ok());
    assert!(Metrics::new_at(None, MetricsEvent::WorkersSnapshot, at(0)).is_ok());
    let q = MetricsEvent::QueryFinished { client_id: "client".to_string() };
    assert!(Metrics::new_at(Some("client".to_string()), q, at(0)).is_ok());
}

#[test]
fn metrics_refuse_another_sender() {
    let e = Metrics::new_at(Some("peer2".to_string()), ping_from(Some("peer1")), at(0)).err().unwrap();
    assert_eq!(e, MetricsError::InvalidSender);
    assert_eq!(e.message(), "Invalid metrics message sender");
    assert!(Metrics::new_at(None, ping_from(Some("peer1")), at(0)).is_err());
    assert!(Metrics::new_at(Some("peer1".to_string()), ping_from(None), at(0)).is_err());
    assert!(Metrics::new_at(Some("x".to_string()), MetricsEvent::WorkersSnapshot, at(0)).is_err());
    let q = MetricsEvent::QuerySubmitted { client_id: "client".to_string() };
    assert!(Metrics::new(None, q).is_err());
}

#[test]
fn metrics_new_stamps_the_current_time() {
    let m = Metrics::new(Some("p".to_string()), ping_from(Some("p"))).unwrap();
    assert!(m.timestamp.after_epoch && m.timestamp.nanos > 0);
}

#[test]
fn json_line_ends_with_a_newline() {
    assert_eq!(Metrics::to_json_line(b"{\"a\":1}".to_vec()), b"{\"a\":1}\n".to_vec());
    assert_eq!(Metrics::to_json_line(vec![]), vec![b'\n']);
}

#[test]
fn metric_enabled_by_name() {
    let w = MetricsWriter::new(vec!["Ping".to_string(), "QueryFinished".to_string()]);
    assert!(w.metric_enabled(&ping_from(None)));
    assert!(w.metric_enabled(&MetricsEvent::QueryFinished { client_id: "c".to_string() }));
    assert!(!w.metric_enabled(&MetricsEvent::QuerySubmitted { client_id: "c".to_string() }));
    assert!(!w.metric_enabled(&MetricsEvent::WorkersSnapshot));
    let none = MetricsWriter::new(vec![]);
    assert!(!none.metric_enabled(&ping_from(None)));
}

#[test]
fn metrics_to_write_filters_and_checks() {
    let w = MetricsWriter::new(vec!["Ping".to_string()]);
    let r = w.metrics_to_write(Some("p".to_string()), ping_from(Some("p"))).unwrap();
    assert_eq!(r.unwrap().event.name(), "Ping");
    let r = w.metrics_to_write(None, MetricsEvent::WorkersSnapshot).unwrap();
    assert!(r.is_none());
    let r = w.metrics_to_write(Some("q".to_string()), ping_from(Some("p")));
    assert_eq!(r.err(), Some(MetricsError::InvalidSender));
}
