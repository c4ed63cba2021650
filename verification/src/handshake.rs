//! The follower's opening conversation with its primary: four requests
//! in a fixed order, each answered before the next is sent. The byte
//! strings sent, and the acceptance check on each reply, live here; the
//! connection that carries them stays outside.
use vstd::prelude::*;

verus! {

use vstd::string::StrSliceExecFns;
use vstd::string::StringSliceAdditionalSpecFns;
use crate::ascii::{contains_ci, contains_ignore_case};
use crate::dec::{dec_of, u64_to_dec};
use crate::frame::{encode_of, lemma_deep_list, FrameSpec, Resp};

/// The four steps of the handshake, in order.
#[derive(Clone, Copy, Debug, PartialEq, Eq, Structural)]
pub enum HandshakeStep {
    Ping,
    ReplconfPort,
    ReplconfCapa,
    Psync,
}

/// The request a follower sends at each step, as an array of bulk
/// strings: PING; REPLCONF listening-port with the follower's own port;
/// REPLCONF capa psync2; PSYNC ? -1.
pub open spec fn request_spec(step: HandshakeStep, self_port: u16) -> Seq<u8> {
    match step {
        HandshakeStep::Ping => encode_of(
            FrameSpec::Array(seq![FrameSpec::Bulk("PING".spec_bytes())]),
        ),
        HandshakeStep::ReplconfPort => encode_of(
            FrameSpec::Array(
                seq![
                    FrameSpec::Bulk("REPLCONF".spec_bytes()),
                    FrameSpec::Bulk("listening-port".spec_bytes()),
                    FrameSpec::Bulk(dec_of(self_port as nat)),
                ],
            ),
        ),
        HandshakeStep::ReplconfCapa => encode_of(
            FrameSpec::Array(
                seq![
                    FrameSpec::Bulk("REPLCONF".spec_bytes()),
                    FrameSpec::Bulk("capa".spec_bytes()),
                    FrameSpec::Bulk("psync2".spec_bytes()),
                ],
            ),
        ),
        HandshakeStep::Psync => encode_of(
            FrameSpec::Array(
                seq![
                    FrameSpec::Bulk("PSYNC".spec_bytes()),
                    FrameSpec::Bulk("?".spec_bytes()),
                    FrameSpec::Bulk("-1".spec_bytes()),
                ],
            ),
        ),
    }
}

/// The token a step's reply must carry, up to letter case. The PSYNC
/// reply is read but not checked.
pub open spec fn expected_token(step: HandshakeStep) -> Option<Seq<u8>> {
    match step {
        HandshakeStep::Ping => Some("pong".spec_bytes()),
        HandshakeStep::ReplconfPort => Some("ok".spec_bytes()),
        HandshakeStep::ReplconfCapa => Some("ok".spec_bytes()),
        HandshakeStep::Psync => None,
    }
}

/// The step after `step`, if the handshake goes on.
pub open spec fn next_step_spec(step: HandshakeStep) -> Option<HandshakeStep> {
    match step {
        HandshakeStep::Ping => Some(HandshakeStep::ReplconfPort),
        HandshakeStep::ReplconfPort => Some(HandshakeStep::ReplconfCapa),
        HandshakeStep::ReplconfCapa => Some(HandshakeStep::Psync),
        HandshakeStep::Psync => None,
    }
}

/// The bytes a follower sends at `step`.
pub fn request_bytes(step: HandshakeStep, self_port: u16) -> (r: Vec<u8>)
    ensures
        r@ == request_spec(step, self_port),
{
    let mut items: Vec<Resp> = Vec::new();
    match step {
        HandshakeStep::Ping => {
            items.push(Resp::BulkString(("PING").as_bytes_vec()));
        },
        HandshakeStep::ReplconfPort => {
            items.push(Resp::BulkString(("REPLCONF").as_bytes_vec()));
            items.push(Resp::BulkString(("listening-port").as_bytes_vec()));
            items.push(Resp::BulkString(u64_to_dec(self_port as u64)));
        },
        HandshakeStep::ReplconfCapa => {
            items.push(Resp::BulkString(("REPLCONF").as_bytes_vec()));
            items.push(Resp::BulkString(("capa").as_bytes_vec()));
            items.push(Resp::BulkString(("psync2").as_bytes_vec()));
        },
        HandshakeStep::Psync => {
            items.push(Resp::BulkString(("PSYNC").as_bytes_vec()));
            items.push(Resp::BulkString(("?").as_bytes_vec()));
            items.push(Resp::BulkString(("-1").as_bytes_vec()));
        },
    }
    let frame = Resp::Array(items);
    proof {
        lemma_deep_list(frame->Array_0@);
        match step {
            HandshakeStep::Ping => {
                assert(frame.deep()->Array_0 =~= seq![FrameSpec::Bulk("PING".spec_bytes())]);
            },
            HandshakeStep::ReplconfPort => {
                assert(frame.deep()->Array_0 =~= seq![
                    FrameSpec::Bulk("REPLCONF".spec_bytes()),
                    FrameSpec::Bulk("listening-port".spec_bytes()),
                    FrameSpec::Bulk(dec_of(self_port as nat)),
                ]);
            },
            HandshakeStep::ReplconfCapa => {
                assert(frame.deep()->Array_0 =~= seq![
                    FrameSpec::Bulk("REPLCONF".spec_bytes()),
                    FrameSpec::Bulk("capa".spec_bytes()),
                    FrameSpec::Bulk("psync2".spec_bytes()),
                ]);
            },
            HandshakeStep::Psync => {
                assert(frame.deep()->Array_0 =~= seq![
                    FrameSpec::Bulk("PSYNC".spec_bytes()),
                    FrameSpec::Bulk("?".spec_bytes()),
                    FrameSpec::Bulk("-1".spec_bytes()),
                ]);
            },
        }
    }
    frame.encode()
}

/// Whether the reply to `step` lets the handshake go on: a case-blind
/// search for the step's token. Failure is fatal to the follower, which
/// the caller enforces. The PSYNC reply is accepted as it is.
pub fn reply_accepted(step: HandshakeStep, reply: &[u8]) -> (r: bool)
    ensures
        r == match expected_token(step) {
            Some(t) => contains_ci(reply@, t),
            None => true,
        },
{
    match step {
        HandshakeStep::Ping => contains_ignore_case(reply, ("pong").as_bytes_vec().as_slice()),
        HandshakeStep::ReplconfPort => contains_ignore_case(
            reply,
            ("ok").as_bytes_vec().as_slice(),
        ),
        HandshakeStep::ReplconfCapa => contains_ignore_case(
            reply,
            ("ok").as_bytes_vec().as_slice(),
        ),
        HandshakeStep::Psync => true,
    }
}

/// The step after `step`, if the handshake goes on.
pub fn next_step(step: HandshakeStep) -> (r: Option<HandshakeStep>)
    ensures
        r == next_step_spec(step),
{
    match step {
        HandshakeStep::Ping => Some(HandshakeStep::ReplconfPort),
        HandshakeStep::ReplconfPort => Some(HandshakeStep::ReplconfCapa),
        HandshakeStep::ReplconfCapa => Some(HandshakeStep::Psync),
        HandshakeStep::Psync => None,
    }
}

} // verus!
