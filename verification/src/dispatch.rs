//! Address dispatcher: maps a parsed message's address and argument shape
//! onto the closed set of application message variants. The table is
//! data-driven in `known_address` / `expected_tags`: one row per variant.

use vstd::prelude::*;
use vstd::string::StringExecFns;

use crate::packet::tag_of;
use crate::packet::tags_of;
use crate::packet::MsgModel;
use crate::packet::OscMessage;
use crate::packet::OscValue;
use crate::packet::ValModel;

verus! {

/// One application message per registered OSC address. `Freq` carries the
/// IEEE-754 bit pattern of its 32-bit float argument; callers convert the
/// bits to a float where they need one.
#[derive(Debug, Clone, PartialEq)]
pub enum AppMessage {
    Freq(u32),
    Error(String),
}

/// Model of an application message.
pub enum AppModel {
    Freq(u32),
    Error(Seq<char>),
}

impl View for AppMessage {
    type V = AppModel;

    open spec fn view(&self) -> AppModel {
        match self {
            AppMessage::Freq(bits) => AppModel::Freq(*bits),
            AppMessage::Error(s) => AppModel::Error(s@),
        }
    }
}

/// Why a structurally valid message or bundle child produced no
/// application message. None of these aborts the pipeline.
#[derive(Debug, Clone, PartialEq)]
pub enum DispatchError {
    /// No variant is registered for this address.
    UnknownAddress(String),
    /// The address is registered but the arguments' type tags differ from
    /// the expected shape.
    ShapeMismatch { address: String, expected: Vec<char>, actual: Vec<char> },
    /// A bundle child was itself a bundle, one nesting level too deep.
    UnsupportedNesting,
}

/// Model of a dispatch error.
pub enum DispatchErrModel {
    UnknownAddress(Seq<char>),
    ShapeMismatch { address: Seq<char>, expected: Seq<char>, actual: Seq<char> },
    UnsupportedNesting,
}

impl View for DispatchError {
    type V = DispatchErrModel;

    open spec fn view(&self) -> DispatchErrModel {
        match self {
            DispatchError::UnknownAddress(a) => DispatchErrModel::UnknownAddress(a@),
            DispatchError::ShapeMismatch { address, expected, actual } => {
                DispatchErrModel::ShapeMismatch {
                    address: address@,
                    expected: expected@,
                    actual: actual@,
                }
            },
            DispatchError::UnsupportedNesting => DispatchErrModel::UnsupportedNesting,
        }
    }
}

/// Model of one dispatch outcome.
pub open spec fn outcome_model(r: Result<AppMessage, DispatchError>) -> Result<
    AppModel,
    DispatchErrModel,
> {
    match r {
        Ok(a) => Ok(a@),
        Err(e) => Err(e@),
    }
}

// ---------------------------------------------------------------------------
// The address table: one row per application message variant.
// ---------------------------------------------------------------------------

/// Whether a variant is registered for this address.
pub open spec fn known_address(a: Seq<char>) -> bool {
    a == "/freq"@ || a == "/error"@
}

/// The argument shape a registered address expects, as type-tag characters.
pub open spec fn expected_tags(a: Seq<char>) -> Seq<char>
    recommends
        known_address(a),
{
    if a == "/freq"@ {
        seq!['f']
    } else {
        seq!['s']
    }
}

/// What dispatching a message returns: the variant of the one matching
/// table row, `UnknownAddress` when no row has its address, and
/// `ShapeMismatch` when a row does but the argument tags differ.
pub open spec fn dispatch_model(m: MsgModel) -> Result<AppModel, DispatchErrModel> {
    if !known_address(m.address) {
        Err(DispatchErrModel::UnknownAddress(m.address))
    } else if tags_of(m.args) != expected_tags(m.address) {
        Err(
            DispatchErrModel::ShapeMismatch {
                address: m.address,
                expected: expected_tags(m.address),
                actual: tags_of(m.args),
            },
        )
    } else if m.address == "/freq"@ {
        Ok(AppModel::Freq(m.args[0]->Float_0))
    } else {
        Ok(AppModel::Error(m.args[0]->Str_0))
    }
}

/// The type-tag character of one argument.
fn tag_char(v: &OscValue) -> (c: char)
    ensures
        c == tag_of(v@),
{
    match v {
        OscValue::Int(_) => 'i',
        OscValue::Float(_) => 'f',
        OscValue::Str(_) => 's',
        OscValue::Blob(_) => 'b',
    }
}

/// The type-tag characters of an argument list, in order.
fn actual_tags(args: &Vec<OscValue>) -> (r: Vec<char>)
    ensures
        r@ == tags_of(args@.map_values(|v: OscValue| v@)),
{
    let mut r: Vec<char> = Vec::new();
    let mut i: usize = 0;
    while i < args.len()
        invariant
            i <= args@.len(),
            r@.len() == i,
            forall|t: int| 0 <= t < i ==> r@[t] == tag_of((#[trigger] args@[t])@),
        decreases args@.len() - i,
    {
        r.push(tag_char(&args[i]));
        i += 1;
    }
    proof {
        assert(r@ =~= tags_of(args@.map_values(|v: OscValue| v@)));
    }
    r
}

/// Map one message onto the application message set. The outcome is a pure
/// function (`dispatch_model`) of the message value alone: exactly one of
/// a matched variant, `UnknownAddress`, or `ShapeMismatch`.
pub fn dispatch(m: &OscMessage) -> (r: Result<AppMessage, DispatchError>)
    ensures
        outcome_model(r) == dispatch_model(m@),
{
    proof {
        reveal_strlit("/freq");
        reveal_strlit("/error");
    }
    let freq_addr: String = String::from_str("/freq");
    let error_addr: String = String::from_str("/error");
    if m.address == freq_addr {
        if m.args.len() == 1 {
            match &m.args[0] {
                OscValue::Float(bits) => {
                    proof {
                        assert(tags_of(m@.args) =~= expected_tags(m@.address));
                    }
                    return Ok(AppMessage::Freq(*bits));
                },
                _ => {},
            }
        }
        proof {
            let margs = m@.args;
            assert(tags_of(margs).len() == margs.len());
            assert(margs.len() == m.args@.len());
            if margs.len() == 1 {
                assert(margs[0] == m.args@[0]@);
                assert(tags_of(margs)[0] == tag_of(margs[0]));
            }
            assert(tags_of(m@.args) != expected_tags(m@.address));
        }
        let expected: Vec<char> = vec!['f'];
        proof {
            assert(expected@ =~= expected_tags(m@.address));
        }
        Err(
            DispatchError::ShapeMismatch {
                address: m.address.clone(),
                expected,
                actual: actual_tags(&m.args),
            },
        )
    } else if m.address == error_addr {
        if m.args.len() == 1 {
            match &m.args[0] {
                OscValue::Str(s) => {
                    proof {
                        assert(tags_of(m@.args) =~= expected_tags(m@.address));
                    }
                    return Ok(AppMessage::Error(s.clone()));
                },
                _ => {},
            }
        }
        proof {
            let margs = m@.args;
            assert(tags_of(margs).len() == margs.len());
            assert(margs.len() == m.args@.len());
            if margs.len() == 1 {
                assert(margs[0] == m.args@[0]@);
                assert(tags_of(margs)[0] == tag_of(margs[0]));
            }
            assert(tags_of(m@.args) != expected_tags(m@.address));
        }
        let expected: Vec<char> = vec!['s'];
        proof {
            assert(expected@ =~= expected_tags(m@.address));
        }
        Err(
            DispatchError::ShapeMismatch {
                address: m.address.clone(),
                expected,
                actual: actual_tags(&m.args),
            },
        )
    } else {
        Err(DispatchError::UnknownAddress(m.address.clone()))
    }
}

// ---------------------------------------------------------------------------
// Laws of the dispatcher
// ---------------------------------------------------------------------------

/// Dispatch totality: every `(address, args)` pair yields exactly one
/// outcome, and it is a matched variant, `UnknownAddress`, or
/// `ShapeMismatch` — dispatching a message never reports nesting.
pub proof fn lemma_dispatch_totality(m: MsgModel)
    ensures
        dispatch_model(m) is Ok <==> (known_address(m.address) && tags_of(m.args) == expected_tags(
            m.address,
        )),
        dispatch_model(m) is Err ==> (dispatch_model(m)->Err_0 is UnknownAddress
            || dispatch_model(m)->Err_0 is ShapeMismatch),
{
}

/// Dispatch determinism: the outcome is a function of the message value
/// alone, with no hidden state, so equal messages dispatch identically.
/// The executable `dispatch` returns exactly `dispatch_model` of its
/// argument, so repeated calls agree.
pub proof fn lemma_dispatch_deterministic(m1: MsgModel, m2: MsgModel)
    requires
        m1 == m2,
    ensures
        dispatch_model(m1) == dispatch_model(m2),
{
}

} // verus!
