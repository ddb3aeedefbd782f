//! The whole decoding pipeline over one datagram: frame the raw payload,
//! parse the framed bytes, then dispatch the message or flatten the
//! bundle. Each call is independent; the core holds no state between
//! datagrams.

use vstd::prelude::*;

use crate::dispatch::dispatch;
use crate::dispatch::dispatch_model;
use crate::dispatch::outcome_model;
use crate::dispatch::AppMessage;
use crate::dispatch::AppModel;
use crate::dispatch::DispatchErrModel;
use crate::dispatch::DispatchError;
use crate::flatten::flatten;
use crate::flatten::flatten_model;
use crate::framer::frame;
use crate::packet::be32;
use crate::packet::encode_packet;
use crate::packet::wf_packet;
use crate::packet::OscPacket;
use crate::packet::PacketModel;
use crate::parser::packet_at;
use crate::parser::parse;
use crate::parser::ParseError;

verus! {

/// Outcomes of one whole packet: a single message gives one outcome, a
/// bundle one per immediate child.
pub open spec fn packet_outcomes(p: PacketModel) -> Seq<Result<AppModel, DispatchErrModel>> {
    match p {
        PacketModel::Message(m) => seq![dispatch_model(m)],
        PacketModel::Bundle(b) => flatten_model(b.children),
    }
}

/// Frame one raw datagram payload and parse it. This is the framing round
/// trip: when it succeeds, the packet's reference encoding is exactly the
/// payload handed in — a parse can never succeed with an address or
/// argument list other than the one the payload encodes — and it fails,
/// with `Malformed`, exactly when no well-formed packet encodes the
/// payload.
pub fn parse_datagram(payload: &Vec<u8>) -> (r: Result<OscPacket, ParseError>)
    requires
        payload@.len() <= u32::MAX,
    ensures
        match r {
            Ok(p) => wf_packet(p@) && encode_packet(p@) == payload@,
            Err(e) => e == ParseError::Malformed,
        },
        forall|p: PacketModel|
            wf_packet(p) && #[trigger] encode_packet(p) == payload@ ==> r is Ok && r->Ok_0@ == p,
{
    let framed = frame(payload);
    let r = parse(&framed);
    proof {
        assert(framed@.skip(4) =~= payload@);
        assert forall|p: PacketModel|
            wf_packet(p) && #[trigger] encode_packet(p) == payload@ implies r is Ok && r->Ok_0@
            == p by {
            assert(framed@.subrange(0, 4) =~= be32((framed@.len() - 4) as u32));
            assert(packet_at(framed@, p));
        }
    }
    r
}

/// Decode one datagram end to end. On success the results are exactly the
/// outcomes of the packet that the payload encodes: one per message, in
/// order, errors scoped to their own slot. Decoding fails, with
/// `Malformed`, exactly when no well-formed packet encodes the payload.
pub fn decode_datagram(payload: &Vec<u8>) -> (r: Result<
    Vec<Result<AppMessage, DispatchError>>,
    ParseError,
>)
    requires
        payload@.len() <= u32::MAX,
    ensures
        match r {
            Ok(results) => exists|p: PacketModel|
                {
                    &&& wf_packet(p)
                    &&& #[trigger] encode_packet(p) == payload@
                    &&& results@.map_values(
                        |x: Result<AppMessage, DispatchError>| outcome_model(x),
                    ) == packet_outcomes(p)
                },
            Err(e) => e == ParseError::Malformed,
        },
        forall|p: PacketModel|
            wf_packet(p) && #[trigger] encode_packet(p) == payload@ ==> r is Ok && (r->Ok_0)@.map_values(
                |x: Result<AppMessage, DispatchError>| outcome_model(x),
            ) == packet_outcomes(p),
{
    let parsed = parse_datagram(payload);
    match parsed {
        Ok(OscPacket::Message(m)) => {
            let out = dispatch(&m);
            let mut results: Vec<Result<AppMessage, DispatchError>> = Vec::new();
            results.push(out);
            proof {
                let p = PacketModel::Message(m@);
                assert(encode_packet(p) == payload@);
                assert(results@.map_values(|x: Result<AppMessage, DispatchError>| outcome_model(x))
                    =~= packet_outcomes(p));
            }
            Ok(results)
        },
        Ok(OscPacket::Bundle(b)) => {
            let results = flatten(&b);
            proof {
                let p = PacketModel::Bundle(b@);
                assert(encode_packet(p) == payload@);
            }
            Ok(results)
        },
        Err(e) => Err(e),
    }
}

} // verus!
