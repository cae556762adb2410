use vstd::prelude::*;
use vstd::string::*;

use crate::util::{clock_now, Timestamp};

verus! {

/// A network event to be recorded, with the peer that is expected to have
/// sent it: a worker for a ping, a client for a query.
pub enum MetricsEvent {
    Ping { worker_id: Option<String> },
    QuerySubmitted { client_id: String },
    QueryFinished { client_id: String },
    WorkersSnapshot,
}

/// The name under which an event is recorded and enabled.
pub open spec fn event_name(event: MetricsEvent) -> Seq<char> {
    match event {
        MetricsEvent::Ping { .. } => "Ping"@,
        MetricsEvent::QuerySubmitted { .. } => "QuerySubmitted"@,
        MetricsEvent::QueryFinished { .. } => "QueryFinished"@,
        MetricsEvent::WorkersSnapshot => "WorkersSnapshot"@,
    }
}

/// The peer that must have sent the event, if any: the worker of a ping
/// (when it names one), the client of a query, none for a snapshot.
pub open spec fn expected_sender(event: MetricsEvent) -> Option<Seq<char>> {
    match event {
        MetricsEvent::Ping { worker_id } => match worker_id {
            Some(w) => Some(w@),
            None => None,
        },
        MetricsEvent::QuerySubmitted { client_id } => Some(client_id@),
        MetricsEvent::QueryFinished { client_id } => Some(client_id@),
        MetricsEvent::WorkersSnapshot => None,
    }
}

/// The text of an optional peer name.
pub open spec fn peer_view(peer_id: Option<String>) -> Option<Seq<char>> {
    match peer_id {
        Some(p) => Some(p@),
        None => None,
    }
}

impl MetricsEvent {
    /// The name under which the event is recorded.
    pub fn name(&self) -> (name: &'static str)
        ensures
            name@ == event_name(*self),
    {
        match self {
            MetricsEvent::Ping { .. } => "Ping",
            MetricsEvent::QuerySubmitted { .. } => "QuerySubmitted",
            MetricsEvent::QueryFinished { .. } => "QueryFinished",
            MetricsEvent::WorkersSnapshot => "WorkersSnapshot",
        }
    }

    /// Whether the event may come from the given peer: the peer is the
    /// expected sender, or there is neither.
    pub fn sent_by(&self, peer_id: &Option<String>) -> (ok: bool)
        ensures
            ok == (peer_view(*peer_id) == expected_sender(*self)),
    {
        let expected: Option<&String> = match self {
            MetricsEvent::Ping { worker_id } => match worker_id {
                Some(w) => Some(w),
                None => None,
            },
            MetricsEvent::QuerySubmitted { client_id } => Some(client_id),
            MetricsEvent::QueryFinished { client_id } => Some(client_id),
            MetricsEvent::WorkersSnapshot => None,
        };
        match (peer_id, expected) {
            (None, None) => true,
            (Some(p), Some(e)) => *p == *e,
            _ => false,
        }
    }
}

/// Why an event is not recorded.
#[derive(Debug, PartialEq, Eq, Structural)]
pub enum MetricsError {
    /// The peer that delivered the event is not the one it speaks for.
    InvalidSender,
}

impl MetricsError {
    /// The text of the error.
    pub fn message(&self) -> (text: &'static str)
        ensures
            text@ == "Invalid metrics message sender"@,
    {
        "Invalid metrics message sender"
    }
}

/// A recorded event with the time it was recorded.
pub struct Metrics {
    pub timestamp: Timestamp,
    pub event: MetricsEvent,
}

impl Metrics {
    /// Records the event delivered by the peer at time `now`; refused when
    /// the peer is not the event's expected sender.
    pub fn new_at(peer_id: Option<String>, event: MetricsEvent, now: Timestamp) -> (r: Result<Self, MetricsError>)
        ensures
            r is Ok <==> peer_view(peer_id) == expected_sender(event),
            r matches Ok(m) ==> m.timestamp == now && m.event == event,
            r matches Err(e) ==> e == MetricsError::InvalidSender,
    {
        if !event.sent_by(&peer_id) {
            return Err(MetricsError::InvalidSender);
        }
        Ok(Metrics { timestamp: now, event })
    }

    /// Records the event delivered by the peer at the current time, as
    /// [`Metrics::new_at`] does for that time.
    pub fn new(peer_id: Option<String>, event: MetricsEvent) -> (r: Result<Self, MetricsError>)
        ensures
            r is Ok <==> peer_view(peer_id) == expected_sender(event),
            r matches Ok(m) ==> m.event == event,
            r matches Err(e) ==> e == MetricsError::InvalidSender,
    {
        let now = clock_now();
        Self::new_at(peer_id, event, now)
    }

    /// One line of the metrics log: the serialized record followed by a
    /// newline.
    pub fn to_json_line(json: Vec<u8>) -> (line: Vec<u8>)
        ensures
            line@ == json@.push(10u8),
    {
        let mut line = json;
        line.push(10u8);
        line
    }
}

/// Which events are written to the metrics log, by name.
pub struct MetricsWriter {
    pub enabled_metrics: Vec<String>,
}

impl MetricsWriter {
    /// A writer that records the events with the given names.
    pub fn new(enabled_metrics: Vec<String>) -> (w: Self)
        ensures
            w.enabled_metrics@ == enabled_metrics@,
    {
        MetricsWriter { enabled_metrics }
    }

    /// Whether events of this kind are written: their name is among the
    /// enabled ones.
    pub fn metric_enabled(&self, event: &MetricsEvent) -> (enabled: bool)
        ensures
            enabled == exists|i: int|
                0 <= i < self.enabled_metrics@.len() && (#[trigger] self.enabled_metrics@[i])@ == event_name(
                    *event,
                ),
    {
        let name = String::from_str(event.name());
        let n = self.enabled_metrics.len();
        let mut i: usize = 0;
        while i < n
            invariant
                n == self.enabled_metrics@.len(),
                i <= n,
                name@ == event_name(*event),
                forall|k: int| 0 <= k < i ==> (#[trigger] self.enabled_metrics@[k])@ != event_name(*event),
            decreases n - i,
        {
            if self.enabled_metrics[i] == name {
                return true;
            }
            i = i + 1;
        }
        false
    }

    /// What to write for an event delivered by a peer: an error when the
    /// peer is not the expected sender, nothing when the event's kind is not
    /// enabled, else the record made at the current time.
    pub fn metrics_to_write(&self, peer_id: Option<String>, event: MetricsEvent) -> (r: Result<
        Option<Metrics>,
        MetricsError,
    >)
        ensures
            r is Err <==> peer_view(peer_id) != expected_sender(event),
            r matches Err(e) ==> e == MetricsError::InvalidSender,
            r matches Ok(Some(m)) ==> m.event == event,
            r is Ok ==> ((r matches Ok(Some(_))) <==> exists|i: int|
                0 <= i < self.enabled_metrics@.len() && (#[trigger] self.enabled_metrics@[i])@ == event_name(
                    event,
                )),
    {
        let metrics = match Metrics::new(peer_id, event) {
            Ok(m) => m,
            Err(e) => return Err(e),
        };
        if self.metric_enabled(&metrics.event) {
            Ok(Some(metrics))
        } else {
            Ok(None)
        }
    }
}

} // verus!
