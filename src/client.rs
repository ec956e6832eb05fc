use vstd::prelude::*;
use vstd::string::StringExecFns;

verus! {

/// Interval between keep-alive pings sent by the subscriber, in milliseconds.
pub const PING_INTERVAL_MS: u64 = 30000;

/// Why a session could not be set up.
#[derive(Clone, Copy, Debug, PartialEq, Eq, Structural)]
pub enum SessionError {
    /// The broker answered CONNECT with this non-zero return code.
    ConnectionRefused(u8),
}

/// Checks the four bytes of a CONNACK: the session is accepted when the
/// return code, its last byte, is zero.
pub fn check_connack(ack: &[u8; 4]) -> (r: Result<(), SessionError>)
    ensures
        ack@[3] == 0 ==> r == Ok::<(), SessionError>(()),
        ack@[3] != 0 ==> r == Err::<(), SessionError>(SessionError::ConnectionRefused(ack@[3])),
{
    let code = ack[3];
    if code != 0 {
        Err(SessionError::ConnectionRefused(code))
    } else {
        Ok(())
    }
}

/// Topic on which a sensor publishes its readings.
pub open spec fn sensor_topic_spec(sensor_id: Seq<char>) -> Seq<char> {
    "home/"@ + sensor_id + "/temperature_humidity"@
}

/// Builds the topic `home/<sensor_id>/temperature_humidity`.
pub fn sensor_topic(sensor_id: &str) -> (r: String)
    ensures
        r@ == sensor_topic_spec(sensor_id@),
{
    let mut topic = String::from_str("home/");
    topic.append(sensor_id);
    topic.append("/temperature_humidity");
    topic
}

/// Keep-alive timer of a session, on a clock in milliseconds.
pub struct Keepalive {
    /// How long the session may stay quiet before a ping is due.
    pub interval_ms: u64,
    /// When the last ping was sent, or the session started.
    pub last_ping_ms: u64,
}

impl Keepalive {
    /// A ping is due once `interval_ms` has passed since the last one. A clock
    /// reading earlier than the last ping never makes one due.
    pub open spec fn due(self, now_ms: u64) -> bool {
        now_ms >= self.last_ping_ms && now_ms - self.last_ping_ms >= self.interval_ms
    }

    /// A timer started at `now_ms`.
    pub fn new(interval_ms: u64, now_ms: u64) -> (r: Keepalive)
        ensures
            r.interval_ms == interval_ms,
            r.last_ping_ms == now_ms,
    {
        Keepalive { interval_ms, last_ping_ms: now_ms }
    }

    /// Checks the timer at `now_ms`. Returns whether a PINGREQ must be sent now;
    /// if so, the timer restarts at `now_ms`.
    pub fn poll(&mut self, now_ms: u64) -> (ping: bool)
        ensures
            ping == old(self).due(now_ms),
            final(self).interval_ms == old(self).interval_ms,
            final(self).last_ping_ms == (if ping {
                now_ms
            } else {
                old(self).last_ping_ms
            }),
    {
        if now_ms >= self.last_ping_ms && now_ms - self.last_ping_ms >= self.interval_ms {
            self.last_ping_ms = now_ms;
            true
        } else {
            false
        }
    }
}

/// Once a ping has been sent at `now_ms`, none is due again until a whole
/// interval has passed, and one is due as soon as it has: a timer checked
/// repeatedly sends exactly one ping per interval.
pub proof fn lemma_keepalive_one_ping_per_interval(k: Keepalive, now_ms: u64, later_ms: u64)
    requires
        k.due(now_ms),
        k.interval_ms > 0,
        now_ms <= later_ms,
    ensures
        ({
            let k2 = Keepalive { interval_ms: k.interval_ms, last_ping_ms: now_ms };
            &&& !k2.due(now_ms)
            &&& (later_ms - now_ms < k.interval_ms ==> !k2.due(later_ms))
            &&& (later_ms - now_ms >= k.interval_ms ==> k2.due(later_ms))
        }),
{
}

/// What one attempt to read a fixed-header byte gave.
#[derive(Clone, Copy, Debug, PartialEq, Eq, Structural)]
pub enum ReadEvent {
    /// One byte arrived: the fixed header of the next packet.
    Header(u8),
    /// The broker closed the connection.
    Closed,
    /// Nothing arrived before the read timeout.
    TimedOut,
    /// The transport failed.
    Failed,
}

/// What the listening loop does next.
#[derive(Clone, Copy, Debug, PartialEq, Eq, Structural)]
pub enum ListenAction {
    /// Read the rest of the packet that starts with this header byte.
    Dispatch(u8),
    /// No data yet: go round the loop again.
    Continue,
    /// Leave the loop.
    Stop,
}

/// Decides the listening loop's next step from the outcome of a read: a
/// timeout is no error, a closed or failed connection ends the loop.
pub fn next_action(event: ReadEvent) -> (r: ListenAction)
    ensures
        r == (match event {
            ReadEvent::Header(b) => ListenAction::Dispatch(b),
            ReadEvent::TimedOut => ListenAction::Continue,
            ReadEvent::Closed => ListenAction::Stop,
            ReadEvent::Failed => ListenAction::Stop,
        }),
{
    match event {
        ReadEvent::Header(b) => ListenAction::Dispatch(b),
        ReadEvent::TimedOut => ListenAction::Continue,
        ReadEvent::Closed | ReadEvent::Failed => ListenAction::Stop,
    }
}

} // verus!
