//! Packet data model: the parsed OSC types, their mathematical views, and
//! the specification-level encoding of each form back to wire bytes.
//!
//! The encoding functions are the reference grammar: the parser's contract
//! says that a successfully parsed value encodes back to exactly the bytes
//! it was read from.

use vstd::prelude::*;

verus! {

// ---------------------------------------------------------------------------
// Mathematical model
// ---------------------------------------------------------------------------

/// Model of one OSC argument value. A 32-bit float argument is carried as
/// its IEEE-754 bit pattern, so the model stays within exact integer types.
#[verifier::ext_equal]
pub enum ValModel {
    Int(i32),
    Float(u32),
    Str(Seq<char>),
    Blob(Seq<u8>),
}

/// Model of one OSC message: an address and its ordered arguments.
#[verifier::ext_equal]
pub struct MsgModel {
    pub address: Seq<char>,
    pub args: Seq<ValModel>,
}

/// Model of one immediate child of a bundle: either a message, or the raw
/// bytes of a nested bundle, which this core flags rather than parses.
#[verifier::ext_equal]
pub enum ChildModel {
    Message(MsgModel),
    Nested(Seq<u8>),
}

/// Model of a bundle: a time tag and the ordered immediate children.
#[verifier::ext_equal]
pub struct BundleModel {
    pub time_tag: u64,
    pub children: Seq<ChildModel>,
}

/// Model of a whole packet: a single message or a bundle.
#[verifier::ext_equal]
pub enum PacketModel {
    Message(MsgModel),
    Bundle(BundleModel),
}

// ---------------------------------------------------------------------------
// Reference encoding (OSC 1.0 binary grammar)
// ---------------------------------------------------------------------------

/// Big-endian bytes of a 32-bit integer.
pub open spec fn be32(n: u32) -> Seq<u8> {
    seq![(n >> 24) as u8, (n >> 16) as u8, (n >> 8) as u8, n as u8]
}

/// Big-endian bytes of a 64-bit integer.
pub open spec fn be64(n: u64) -> Seq<u8> {
    seq![
        (n >> 56) as u8,
        (n >> 48) as u8,
        (n >> 40) as u8,
        (n >> 32) as u8,
        (n >> 24) as u8,
        (n >> 16) as u8,
        (n >> 8) as u8,
        n as u8,
    ]
}

/// A run of `n` null bytes.
pub open spec fn zeros(n: nat) -> Seq<u8> {
    Seq::new(n, |i: int| 0u8)
}

/// Padding nulls after an OSC string of `n` content bytes: at least one
/// terminator, extended to the next multiple of four.
pub open spec fn str_pad(n: nat) -> nat {
    (4 - n % 4) as nat
}

/// Padding nulls after a blob of `n` content bytes: zero to three, up to
/// the next multiple of four.
pub open spec fn blob_pad(n: nat) -> nat {
    ((4 - n % 4) % 4) as nat
}

/// The byte of each character of an ASCII string.
pub open spec fn ascii_bytes(s: Seq<char>) -> Seq<u8> {
    s.map_values(|c: char| c as u8)
}

/// An ASCII character other than the null terminator.
pub open spec fn is_osc_char(c: char) -> bool {
    0 < (c as u32) && (c as u32) < 128
}

/// An OSC string carries ASCII characters other than the null terminator.
pub open spec fn valid_osc_chars(s: Seq<char>) -> bool {
    forall|i: int| 0 <= i < s.len() ==> is_osc_char(#[trigger] s[i])
}

/// Wire form of an OSC string: content bytes, then padding nulls.
pub open spec fn encode_str(s: Seq<char>) -> Seq<u8> {
    ascii_bytes(s) + zeros(str_pad(s.len()))
}

/// The type-tag character of one argument value.
pub open spec fn tag_of(v: ValModel) -> char {
    match v {
        ValModel::Int(_) => 'i',
        ValModel::Float(_) => 'f',
        ValModel::Str(_) => 's',
        ValModel::Blob(_) => 'b',
    }
}

/// The type-tag characters of an argument list, in order.
pub open spec fn tags_of(args: Seq<ValModel>) -> Seq<char> {
    args.map_values(|v: ValModel| tag_of(v))
}

/// Wire form of one argument value.
pub open spec fn encode_value(v: ValModel) -> Seq<u8> {
    match v {
        ValModel::Int(i) => be32(i as u32),
        ValModel::Float(bits) => be32(bits),
        ValModel::Str(s) => encode_str(s),
        ValModel::Blob(b) => be32(b.len() as u32) + b + zeros(blob_pad(b.len())),
    }
}

/// Wire form of an argument list: each value's bytes, concatenated.
pub open spec fn encode_values(args: Seq<ValModel>) -> Seq<u8>
    decreases args.len(),
{
    if args.len() == 0 {
        Seq::empty()
    } else {
        encode_value(args[0]) + encode_values(args.drop_first())
    }
}

/// Wire form of a message: address string, type-tag string (a comma and
/// one tag per argument), then the argument bytes.
pub open spec fn encode_message(m: MsgModel) -> Seq<u8> {
    encode_str(m.address) + encode_str(seq![','] + tags_of(m.args)) + encode_values(m.args)
}

/// The eight bytes "#bundle" plus a null terminator that open every bundle.
pub open spec fn bundle_marker() -> Seq<u8> {
    seq![35u8, 98u8, 117u8, 110u8, 100u8, 108u8, 101u8, 0u8]
}

/// Wire form of one bundle child, without its length prefix.
pub open spec fn encode_child(c: ChildModel) -> Seq<u8> {
    match c {
        ChildModel::Message(m) => encode_message(m),
        ChildModel::Nested(raw) => raw,
    }
}

/// Wire form of a child list: each child's length prefix and bytes.
pub open spec fn encode_children(cs: Seq<ChildModel>) -> Seq<u8>
    decreases cs.len(),
{
    if cs.len() == 0 {
        Seq::empty()
    } else {
        be32(encode_child(cs[0]).len() as u32) + encode_child(cs[0]) + encode_children(
            cs.drop_first(),
        )
    }
}

/// Wire form of a whole packet.
pub open spec fn encode_packet(p: PacketModel) -> Seq<u8> {
    match p {
        PacketModel::Message(m) => encode_message(m),
        PacketModel::Bundle(b) => bundle_marker() + be64(b.time_tag) + encode_children(b.children),
    }
}

// ---------------------------------------------------------------------------
// Well-formedness
// ---------------------------------------------------------------------------

/// A value the parser may produce: strings are ASCII without nulls, and a
/// blob's length fits its 4-byte prefix.
pub open spec fn wf_value(v: ValModel) -> bool {
    match v {
        ValModel::Str(s) => valid_osc_chars(s),
        ValModel::Blob(b) => b.len() <= u32::MAX,
        _ => true,
    }
}

/// A message the parser may produce: a slash-led ASCII address and
/// well-formed arguments.
pub open spec fn wf_message(m: MsgModel) -> bool {
    &&& valid_osc_chars(m.address)
    &&& m.address.len() > 0
    &&& m.address[0] == '/'
    &&& forall|i: int| 0 <= i < m.args.len() ==> wf_value(#[trigger] m.args[i])
}

/// A bundle child the parser may produce: a well-formed message whose
/// encoding fits the child's 4-byte length prefix, or the verbatim bytes
/// of a nested bundle, which always open with the marker.
pub open spec fn wf_child(c: ChildModel) -> bool {
    match c {
        ChildModel::Message(m) => wf_message(m) && encode_message(m).len() <= u32::MAX,
        ChildModel::Nested(raw) => {
            &&& raw.len() >= 8
            &&& raw.subrange(0, 8) == bundle_marker()
            &&& raw.len() <= u32::MAX
        },
    }
}

/// A child list the parser may produce.
pub open spec fn wf_children(cs: Seq<ChildModel>) -> bool {
    forall|i: int| 0 <= i < cs.len() ==> wf_child(#[trigger] cs[i])
}

/// A packet the parser may produce.
pub open spec fn wf_packet(p: PacketModel) -> bool {
    match p {
        PacketModel::Message(m) => wf_message(m),
        PacketModel::Bundle(b) => wf_children(b.children),
    }
}

// ---------------------------------------------------------------------------
// Executable types
// ---------------------------------------------------------------------------

/// One OSC argument value. `Float` holds the IEEE-754 bit pattern of the
/// 32-bit float argument; callers outside the library convert bits to a
/// float where they need one.
#[derive(Debug, Clone, PartialEq)]
pub enum OscValue {
    Int(i32),
    Float(u32),
    Str(String),
    Blob(Vec<u8>),
}

impl View for OscValue {
    type V = ValModel;

    open spec fn view(&self) -> ValModel {
        match self {
            OscValue::Int(i) => ValModel::Int(*i),
            OscValue::Float(bits) => ValModel::Float(*bits),
            OscValue::Str(s) => ValModel::Str(s@),
            OscValue::Blob(b) => ValModel::Blob(b@),
        }
    }
}

/// One OSC message: an address and its ordered arguments.
#[derive(Debug, Clone, PartialEq)]
pub struct OscMessage {
    pub address: String,
    pub args: Vec<OscValue>,
}

impl View for OscMessage {
    type V = MsgModel;

    open spec fn view(&self) -> MsgModel {
        MsgModel { address: self.address@, args: self.args@.map_values(|v: OscValue| v@) }
    }
}

/// One immediate child of a bundle. A nested bundle is kept as its raw
/// bytes: this core supports one level of nesting and reports deeper
/// bundles instead of recursing into them.
#[derive(Debug, Clone, PartialEq)]
pub enum OscChild {
    Message(OscMessage),
    Nested(Vec<u8>),
}

impl View for OscChild {
    type V = ChildModel;

    open spec fn view(&self) -> ChildModel {
        match self {
            OscChild::Message(m) => ChildModel::Message(m@),
            OscChild::Nested(raw) => ChildModel::Nested(raw@),
        }
    }
}

/// One bundle: a time tag and the ordered immediate children. The time tag
/// is accepted but carries no scheduling semantics here.
#[derive(Debug, Clone, PartialEq)]
pub struct OscBundle {
    pub time_tag: u64,
    pub children: Vec<OscChild>,
}

impl View for OscBundle {
    type V = BundleModel;

    open spec fn view(&self) -> BundleModel {
        BundleModel {
            time_tag: self.time_tag,
            children: self.children@.map_values(|c: OscChild| c@),
        }
    }
}

/// One parsed packet: a single message or a bundle.
#[derive(Debug, Clone, PartialEq)]
pub enum OscPacket {
    Message(OscMessage),
    Bundle(OscBundle),
}

impl View for OscPacket {
    type V = PacketModel;

    open spec fn view(&self) -> PacketModel {
        match self {
            OscPacket::Message(m) => PacketModel::Message(m@),
            OscPacket::Bundle(b) => PacketModel::Bundle(b@),
        }
    }
}

} // verus!
