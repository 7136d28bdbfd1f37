use vstd::prelude::*;
use crate::error::Error;
use crate::strutil::str_eq;

verus! {

/// One event on the push channel, as classified from a complete frame.
#[derive(Debug, Clone, Copy, PartialEq, Eq, Structural)]
pub enum WatchEvent {
    /// A keep-alive from the provider; no state change.
    Ping,
    /// The stream greeting; no state change.
    Connected,
    /// The secret set changed: a reconciliation pass is due.
    SecretsUpdate,
}

/// The decoded payload of one frame.
#[derive(Debug, Clone)]
pub struct EventPayload {
    pub event_type: WatchEvent,
}

/// The fixed prefix every frame must start with: `event: message\ndata:`.
pub open spec fn frame_prefix() -> Seq<u8> {
    seq![
        101u8, 118u8, 101u8, 110u8, 116u8, 58u8, 32u8, 109u8, 101u8, 115u8, 115u8, 97u8, 103u8,
        101u8, 10u8, 100u8, 97u8, 116u8, 97u8, 58u8,
    ]
}

/// The string under the `type` key of a JSON object, when the payload is
/// a JSON object carrying a string there; nothing otherwise.  The result
/// depends on the payload bytes alone.
pub uninterp spec fn json_discriminant(payload: Seq<u8>) -> Option<Seq<char>>;

/// Relies on serde_json's `from_slice`, `Value::get` and `Value::as_str`:
/// parses the payload as JSON and hands out the string under its `type`
/// key, or nothing when the payload is not a JSON object with a string
/// there.  The result is a function of the payload bytes alone.
#[verifier::external_body]
fn json_type_field(payload: &[u8]) -> (r: Option<String>)
    ensures
        match r {
            Some(s) => json_discriminant(payload@) == Some(s@),
            None => json_discriminant(payload@) is None,
        },
{
    serde_json::from_slice::<serde_json::Value>(payload).ok().and_then(
        |v| v.get("type").and_then(|t| t.as_str()).map(|s| s.to_owned()),
    )
}

/// What one complete frame means: frames without the fixed prefix are
/// invalid; otherwise the payload's `type` discriminant picks the event,
/// an unreadable payload and an unknown discriminant each being their own
/// error.
pub open spec fn frame_event(b: Seq<u8>) -> Result<WatchEvent, Seq<char>> {
    if b.len() < 20 || b.take(20) != frame_prefix() {
        Err("invalid event"@)
    } else {
        match json_discriminant(b.skip(20)) {
            None => Err("Protocol error: malformed event payload"@),
            Some(s) => if s == "ping"@ {
                Ok(WatchEvent::Ping)
            } else if s == "connected"@ {
                Ok(WatchEvent::Connected)
            } else if s == "secrets.update"@ {
                Ok(WatchEvent::SecretsUpdate)
            } else {
                Err("Protocol error: unknown event type"@)
            },
        }
    }
}

/// Classifies one complete frame, per [`frame_event`].
pub fn parse_watch_event(raw_payload: &[u8]) -> (r: Result<WatchEvent, Error>)
    ensures
        match r {
            Ok(ev) => frame_event(raw_payload@) == Ok::<WatchEvent, Seq<char>>(ev),
            Err(e) => frame_event(raw_payload@) matches Err(m) && e@ == m,
        },
{
    let n = raw_payload.len();
    if n < 20 {
        return Err(Error::new("invalid event"));
    }
    let mut prefix: Vec<u8> = Vec::new();
    prefix.push(101);
    prefix.push(118);
    prefix.push(101);
    prefix.push(110);
    prefix.push(116);
    prefix.push(58);
    prefix.push(32);
    prefix.push(109);
    prefix.push(101);
    prefix.push(115);
    prefix.push(115);
    prefix.push(97);
    prefix.push(103);
    prefix.push(101);
    prefix.push(10);
    prefix.push(100);
    prefix.push(97);
    prefix.push(116);
    prefix.push(97);
    prefix.push(58);
    proof {
        assert(prefix@ =~= frame_prefix());
    }
    let mut i: usize = 0;
    while i < 20
        invariant
            i <= 20,
            n == raw_payload@.len(),
            n >= 20,
            prefix@ == frame_prefix(),
            forall|j: int| 0 <= j < i ==> raw_payload@[j] == frame_prefix()[j],
        decreases 20 - i,
    {
        if raw_payload[i] != prefix[i] {
            proof {
                assert(raw_payload@.take(20)[i as int] != frame_prefix()[i as int]);
            }
            return Err(Error::new("invalid event"));
        }
        i += 1;
    }
    proof {
        assert(raw_payload@.take(20) =~= frame_prefix());
    }
    let payload = vstd::slice::slice_subrange(raw_payload, 20, n);
    match json_type_field(payload) {
        None => Err(Error::new("Protocol error: malformed event payload")),
        Some(s) => {
            if str_eq(s.as_str(), "ping") {
                Ok(WatchEvent::Ping)
            } else if str_eq(s.as_str(), "connected") {
                Ok(WatchEvent::Connected)
            } else if str_eq(s.as_str(), "secrets.update") {
                Ok(WatchEvent::SecretsUpdate)
            } else {
                Err(Error::new("Protocol error: unknown event type"))
            }
        },
    }
}

/// Whether the accumulated bytes end in a blank line — two consecutive
/// line breaks — which terminates a frame.
pub open spec fn ends_with_terminator(s: Seq<u8>) -> bool {
    s.len() >= 2 && s[s.len() - 1] == 10 && s[s.len() - 2] == 10
}

/// The partial-frame buffer of one connection: chunks accumulate until a
/// blank-line terminator arrives, then the whole buffer is handed out as
/// one frame and the buffer resets.  Each connection starts a fresh one.
pub struct FrameBuffer {
    buf: Vec<u8>,
}

impl View for FrameBuffer {
    type V = Seq<u8>;

    closed spec fn view(&self) -> Seq<u8> {
        self.buf@
    }
}

impl FrameBuffer {
    /// An empty buffer.
    pub fn new() -> (r: FrameBuffer)
        ensures
            r@ == Seq::<u8>::empty(),
    {
        let r = FrameBuffer { buf: Vec::new() };
        proof {
            assert(r@ =~= Seq::<u8>::empty());
        }
        r
    }

    /// Accumulates one chunk.  When the buffer then ends with the
    /// blank-line terminator, the whole accumulated frame is handed out
    /// and the buffer resets; otherwise the bytes are kept for the next
    /// chunk.
    pub fn feed(&mut self, chunk: &[u8]) -> (r: Option<Vec<u8>>)
        ensures
            ({
                let combined = old(self)@ + chunk@;
                if ends_with_terminator(combined) {
                    r matches Some(f) && f@ == combined && final(self)@ == Seq::<u8>::empty()
                } else {
                    r is None && final(self)@ == combined
                }
            }),
    {
        let ghost pre = self.buf@;
        let n = chunk.len();
        let mut i: usize = 0;
        while i < n
            invariant
                i <= n,
                n == chunk@.len(),
                self.buf@ == pre + chunk@.take(i as int),
            decreases n - i,
        {
            self.buf.push(chunk[i]);
            proof {
                assert(pre + chunk@.take(i as int + 1) =~= (pre + chunk@.take(i as int)).push(
                    chunk@[i as int],
                ));
            }
            i += 1;
        }
        proof {
            assert(chunk@.take(n as int) =~= chunk@);
        }
        let len = self.buf.len();
        if len >= 2 && self.buf[len - 1] == 10 && self.buf[len - 2] == 10 {
            let mut frame: Vec<u8> = Vec::new();
            core::mem::swap(&mut frame, &mut self.buf);
            proof {
                assert(self@ =~= Seq::<u8>::empty());
            }
            Some(frame)
        } else {
            None
        }
    }
}

} // verus!
