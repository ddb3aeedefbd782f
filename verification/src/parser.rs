//! Packet parser: decodes the OSC 1.0 binary layout out of a framed byte
//! buffer. Each reader's contract states both directions of correctness:
//! what was read encodes back to exactly the bytes it came from, so a
//! successful parse can never invent or lose structure, and every span
//! that some well-formed value encodes is accepted, so a parse fails only
//! on bytes outside the grammar.

use vstd::prelude::*;

use crate::packet::ascii_bytes;
use crate::packet::be32;
use crate::packet::be64;
use crate::packet::blob_pad;
use crate::packet::bundle_marker;
use crate::packet::encode_child;
use crate::packet::encode_children;
use crate::packet::encode_message;
use crate::packet::encode_packet;
use crate::packet::encode_str;
use crate::packet::encode_value;
use crate::packet::encode_values;
use crate::packet::is_osc_char;
use crate::packet::str_pad;
use crate::packet::tag_of;
use crate::packet::tags_of;
use crate::packet::valid_osc_chars;
use crate::packet::wf_child;
use crate::packet::wf_children;
use crate::packet::wf_message;
use crate::packet::wf_packet;
use crate::packet::wf_value;
use crate::packet::zeros;
use crate::packet::BundleModel;
use crate::packet::ChildModel;
use crate::packet::MsgModel;
use crate::packet::OscBundle;
use crate::packet::OscChild;
use crate::packet::OscMessage;
use crate::packet::OscPacket;
use crate::packet::OscValue;
use crate::packet::PacketModel;
use crate::packet::ValModel;

verus! {

/// The one parse-level error: the bytes do not match the wire grammar.
#[derive(Debug, Clone, PartialEq, Eq)]
pub enum ParseError {
    Malformed,
}

/// Relies on String::from_utf8: bytes that are all ASCII are valid UTF-8
/// and decode to one character per byte, each with the byte's code point.
#[verifier::external_body]
fn ascii_to_string(bytes: &Vec<u8>) -> (s: String)
    requires
        forall|i: int| 0 <= i < bytes@.len() ==> #[trigger] bytes@[i] < 128,
    ensures
        s@ == bytes@.map_values(|b: u8| b as char),
{
    String::from_utf8(bytes.clone()).unwrap()
}

/// The bytes `e` sit verbatim at `pos` of `b`, within `end`.
pub open spec fn has_prefix_at(b: Seq<u8>, pos: int, end: int, e: Seq<u8>) -> bool {
    &&& 0 <= pos
    &&& pos + e.len() <= end <= b.len()
    &&& b.subrange(pos, pos + e.len()) == e
}

/// An ASCII character's byte keeps its code point; an OSC character's is
/// never null.
proof fn lemma_osc_char_byte(c: char)
    requires
        is_osc_char(c),
    ensures
        0 < (c as u8) && (c as u8) < 128,
        (c as u8) as char == c,
{
}

/// Bytes that sit at `pos` as one concatenation sit there piecewise.
proof fn lemma_split_prefix(b: Seq<u8>, pos: int, end: int, x: Seq<u8>, y: Seq<u8>)
    requires
        0 <= pos <= end <= b.len(),
        b.subrange(pos, end) == x + y,
    ensures
        has_prefix_at(b, pos, end, x),
        b.subrange(pos + x.len(), end) == y,
{
    assert((x + y).len() == x.len() + y.len());
    assert forall|i: int| 0 <= i < x.len() implies b.subrange(pos, pos + x.len() as int)[i]
        == x[i] by {
        assert((x + y)[i] == x[i]);
        assert(b.subrange(pos, end)[i] == (x + y)[i]);
    }
    assert(b.subrange(pos, pos + x.len()) =~= x);
    assert forall|i: int| 0 <= i < y.len() implies b.subrange(pos + x.len(), end)[i] == y[i] by {
        assert((x + y)[x.len() + i] == y[i]);
        assert(b.subrange(pos, end)[x.len() + i] == (x + y)[x.len() + i]);
    }
    assert(b.subrange(pos + x.len(), end) =~= y);
}

/// The bytes of an encoded OSC string: content first, then nulls.
proof fn lemma_encode_str_bytes(s: Seq<char>)
    requires
        valid_osc_chars(s),
    ensures
        encode_str(s).len() == s.len() + str_pad(s.len()),
        forall|j: int|
            0 <= j < s.len() ==> (#[trigger] encode_str(s)[j] == s[j] as u8) && 0 < encode_str(
                s,
            )[j] && encode_str(s)[j] < 128,
        forall|j: int| s.len() <= j < encode_str(s).len() ==> #[trigger] encode_str(s)[j] == 0,
{
    assert forall|j: int|
        0 <= j < s.len() implies (#[trigger] encode_str(s)[j] == s[j] as u8) && 0 < encode_str(
        s,
    )[j] && encode_str(s)[j] < 128 by {
        assert(encode_str(s)[j] == ascii_bytes(s)[j]);
        assert(ascii_bytes(s)[j] == s[j] as u8);
        assert(is_osc_char(s[j]));
        lemma_osc_char_byte(s[j]);
    }
}

/// Two equal big-endian byte strings come from one integer.
proof fn lemma_be32_inj(a: u32, b: u32)
    requires
        be32(a) == be32(b),
    ensures
        a == b,
{
    assert(be32(a)[0] == be32(b)[0] && be32(a)[1] == be32(b)[1] && be32(a)[2] == be32(b)[2]
        && be32(a)[3] == be32(b)[3]);
    assert((a >> 24) as u8 == (b >> 24) as u8 && (a >> 16) as u8 == (b >> 16) as u8 && (a >> 8)
        as u8 == (b >> 8) as u8 && a as u8 == b as u8 ==> a == b) by (bit_vector);
}

/// Two equal big-endian byte strings come from one 64-bit integer.
proof fn lemma_be64_inj(a: u64, b: u64)
    requires
        be64(a) == be64(b),
    ensures
        a == b,
{
    assert(be64(a)[0] == be64(b)[0] && be64(a)[1] == be64(b)[1] && be64(a)[2] == be64(b)[2]
        && be64(a)[3] == be64(b)[3] && be64(a)[4] == be64(b)[4] && be64(a)[5] == be64(b)[5]
        && be64(a)[6] == be64(b)[6] && be64(a)[7] == be64(b)[7]);
    assert((a >> 56) as u8 == (b >> 56) as u8 && (a >> 48) as u8 == (b >> 48) as u8 && (a >> 40)
        as u8 == (b >> 40) as u8 && (a >> 32) as u8 == (b >> 32) as u8 && (a >> 24) as u8 == (b
        >> 24) as u8 && (a >> 16) as u8 == (b >> 16) as u8 && (a >> 8) as u8 == (b >> 8) as u8 && a
        as u8 == b as u8 ==> a == b) by (bit_vector);
}

/// Read the big-endian 32-bit integer at `pos`.
fn read_u32(buf: &Vec<u8>, pos: usize) -> (n: u32)
    requires
        pos + 4 <= buf@.len(),
    ensures
        be32(n) == buf@.subrange(pos as int, pos as int + 4),
{
    let l: usize = buf.len();
    let b0 = buf[pos];
    let b1 = buf[pos + 1];
    let b2 = buf[pos + 2];
    let b3 = buf[pos + 3];
    proof {
        assert(l == buf@.len());
    }
    let n: u32 = ((b0 as u32) << 24) | ((b1 as u32) << 16) | ((b2 as u32) << 8) | (b3 as u32);
    proof {
        assert((n >> 24) as u8 == b0 && (n >> 16) as u8 == b1 && (n >> 8) as u8 == b2 && n as u8
            == b3) by (bit_vector)
            requires
                n == ((b0 as u32) << 24) | ((b1 as u32) << 16) | ((b2 as u32) << 8) | (b3 as u32),
        ;
        assert(be32(n) =~= buf@.subrange(pos as int, pos as int + 4));
    }
    n
}

/// Read the big-endian 64-bit integer at `pos`.
fn read_u64(buf: &Vec<u8>, pos: usize) -> (n: u64)
    requires
        pos + 8 <= buf@.len(),
    ensures
        be64(n) == buf@.subrange(pos as int, pos as int + 8),
{
    let l: usize = buf.len();
    let b0 = buf[pos];
    let b1 = buf[pos + 1];
    let b2 = buf[pos + 2];
    let b3 = buf[pos + 3];
    let b4 = buf[pos + 4];
    let b5 = buf[pos + 5];
    let b6 = buf[pos + 6];
    let b7 = buf[pos + 7];
    let n: u64 = ((b0 as u64) << 56) | ((b1 as u64) << 48) | ((b2 as u64) << 40) | ((b3 as u64)
        << 32) | ((b4 as u64) << 24) | ((b5 as u64) << 16) | ((b6 as u64) << 8) | (b7 as u64);
    proof {
        assert(l == buf@.len());
        assert((n >> 56) as u8 == b0 && (n >> 48) as u8 == b1 && (n >> 40) as u8 == b2 && (n >> 32)
            as u8 == b3 && (n >> 24) as u8 == b4 && (n >> 16) as u8 == b5 && (n >> 8) as u8 == b6
            && n as u8 == b7) by (bit_vector)
            requires
                n == ((b0 as u64) << 56) | ((b1 as u64) << 48) | ((b2 as u64) << 40) | ((b3 as u64)
                    << 32) | ((b4 as u64) << 24) | ((b5 as u64) << 16) | ((b6 as u64) << 8) | (
                b7 as u64),
        ;
        assert(be64(n) =~= buf@.subrange(pos as int, pos as int + 8));
    }
    n
}

/// Decide whether the eight bytes at `pos` are the bundle marker.
fn is_bundle_marker(buf: &Vec<u8>, pos: usize) -> (r: bool)
    requires
        pos + 8 <= buf@.len(),
    ensures
        r == (buf@.subrange(pos as int, pos as int + 8) == bundle_marker()),
{
    let l: usize = buf.len();
    let r = buf[pos] == 35 && buf[pos + 1] == 98 && buf[pos + 2] == 117 && buf[pos + 3] == 110
        && buf[pos + 4] == 100 && buf[pos + 5] == 108 && buf[pos + 6] == 101 && buf[pos + 7] == 0;
    proof {
        assert(l == buf@.len());
        if r {
            assert(buf@.subrange(pos as int, pos as int + 8) =~= bundle_marker());
        } else {
            assert(buf@.subrange(pos as int, pos as int + 8) != bundle_marker()) by {
                let s = buf@.subrange(pos as int, pos as int + 8);
                if s == bundle_marker() {
                    assert(s[0] == 35u8 && s[1] == 98u8 && s[2] == 117u8 && s[3] == 110u8 && s[4]
                        == 100u8 && s[5] == 108u8 && s[6] == 101u8 && s[7] == 0u8);
                }
            }
        }
    }
    r
}

/// Where an encoded OSC string sits at `pos`, the first null at or after
/// `pos` stands exactly at the end of its content.
proof fn lemma_first_null(b: Seq<u8>, pos: int, end: int, i: int, s: Seq<char>)
    requires
        valid_osc_chars(s),
        has_prefix_at(b, pos, end, encode_str(s)),
        pos <= i < end,
        forall|k: int| pos <= k < i ==> b[k] != 0,
        b[i] == 0,
    ensures
        i == pos + s.len(),
{
    lemma_encode_str_bytes(s);
    let e = encode_str(s);
    assert forall|t: int| 0 <= t < e.len() implies b[pos + t] == #[trigger] e[t] by {
        assert(b.subrange(pos, pos + e.len())[t] == e[t]);
    }
    if i < pos + s.len() {
        assert(b[i] == e[i - pos]);
        assert(false);
    }
    if i > pos + s.len() {
        assert(b[pos + s.len()] == e[s.len() as int]);
        assert(b[pos + s.len()] != 0);
        assert(false);
    }
}

/// Scan the OSC string that starts at `pos`: content bytes up to the first
/// null, then null padding out to a multiple of four bytes. Returns the
/// content and the position just past the padding. The scan succeeds on,
/// and exactly delimits, every encoded OSC string.
fn scan_osc_str(buf: &Vec<u8>, pos: usize, end: usize) -> (r: Result<(Vec<u8>, usize), ParseError>)
    requires
        pos <= end <= buf@.len(),
    ensures
        match r {
            Ok((bs, np)) => {
                &&& pos < np <= end
                &&& forall|i: int| 0 <= i < bs@.len() ==> 0 < #[trigger] bs@[i] < 128
                &&& buf@.subrange(pos as int, np as int) == bs@ + zeros(str_pad(bs@.len()))
            },
            Err(e) => e == ParseError::Malformed,
        },
        forall|s: Seq<char>|
            valid_osc_chars(s) && #[trigger] has_prefix_at(
                buf@,
                pos as int,
                end as int,
                encode_str(s),
            ) ==> {
                &&& r is Ok
                &&& (r->Ok_0).0@ == ascii_bytes(s)
                &&& (r->Ok_0).1 == pos + encode_str(s).len()
            },
{
    let mut content: Vec<u8> = Vec::new();
    let mut i: usize = pos;
    loop
        invariant_except_break
            pos <= i <= end,
        invariant
            end <= buf@.len(),
            pos <= i,
            content@ == buf@.subrange(pos as int, i as int),
            forall|k: int| 0 <= k < content@.len() ==> 0 < #[trigger] content@[k] < 128,
        ensures
            pos <= i < end,
            buf@[i as int] == 0,
        decreases end - i,
    {
        if i >= end {
            proof {
                assert forall|s: Seq<char>|
                    valid_osc_chars(s) && #[trigger] has_prefix_at(
                        buf@,
                        pos as int,
                        end as int,
                        encode_str(s),
                    ) implies false by {
                    lemma_encode_str_bytes(s);
                    let e = encode_str(s);
                    assert(buf@.subrange(pos as int, pos as int + e.len())[s.len() as int]
                        == e[s.len() as int]);
                    assert(buf@[pos + s.len()] == 0);
                    assert(content@[s.len() as int] == buf@.subrange(pos as int, i as int)[
                        s.len() as int]);
                    assert(content@[s.len() as int] != 0);
                }
            }
            return Err(ParseError::Malformed);
        }
        let b = buf[i];
        if b == 0 {
            break;
        }
        if b >= 128 {
            proof {
                assert forall|s: Seq<char>|
                    valid_osc_chars(s) && #[trigger] has_prefix_at(
                        buf@,
                        pos as int,
                        end as int,
                        encode_str(s),
                    ) implies false by {
                    lemma_encode_str_bytes(s);
                    let e = encode_str(s);
                    assert forall|t: int| 0 <= t < e.len() implies buf@[pos + t] == #[trigger] e[t]
                    by {
                        assert(buf@.subrange(pos as int, pos as int + e.len())[t] == e[t]);
                    }
                    let j = i - pos;
                    if j < s.len() {
                        assert(buf@[i as int] == e[j]);
                    } else if j == s.len() {
                        assert(buf@[i as int] == e[j]);
                    } else {
                        assert(buf@[pos + s.len()] == e[s.len() as int]);
                        assert(content@[s.len() as int] == buf@.subrange(pos as int, i as int)[
                            s.len() as int]);
                        assert(content@[s.len() as int] != 0);
                    }
                }
            }
            return Err(ParseError::Malformed);
        }
        content.push(b);
        i += 1;
        proof {
            assert(content@ =~= buf@.subrange(pos as int, i as int));
        }
    }
    proof {
        assert forall|k: int| pos <= k < i implies buf@[k] != 0 by {
            assert(content@[k - pos] == buf@.subrange(pos as int, i as int)[k - pos]);
        }
    }
    let len = i - pos;
    let pad = 4 - (len % 4);
    if end - i < pad {
        proof {
            assert forall|s: Seq<char>|
                valid_osc_chars(s) && #[trigger] has_prefix_at(
                    buf@,
                    pos as int,
                    end as int,
                    encode_str(s),
                ) implies false by {
                lemma_first_null(buf@, pos as int, end as int, i as int, s);
                lemma_encode_str_bytes(s);
                assert(pos + encode_str(s).len() <= end);
            }
        }
        return Err(ParseError::Malformed);
    }
    let np = i + pad;
    let mut j = i;
    while j < np
        invariant
            pos <= i <= j <= np <= end <= buf@.len(),
            np == i + pad,
            pad == 4 - ((i - pos) % 4),
            buf@[i as int] == 0,
            content@ == buf@.subrange(pos as int, i as int),
            forall|k: int| 0 <= k < content@.len() ==> 0 < #[trigger] content@[k] < 128,
            forall|k: int| pos <= k < i ==> buf@[k] != 0,
            forall|k: int| i <= k < j ==> buf@[k] == 0,
        decreases np - j,
    {
        if buf[j] != 0 {
            proof {
                assert forall|s: Seq<char>|
                    valid_osc_chars(s) && #[trigger] has_prefix_at(
                        buf@,
                        pos as int,
                        end as int,
                        encode_str(s),
                    ) implies false by {
                    lemma_first_null(buf@, pos as int, end as int, i as int, s);
                    lemma_encode_str_bytes(s);
                    let e = encode_str(s);
                    assert(buf@.subrange(pos as int, pos as int + e.len())[j - pos] == e[j - pos]);
                    assert(e[j - pos] == 0);
                }
            }
            return Err(ParseError::Malformed);
        }
        j += 1;
    }
    proof {
        assert(str_pad(content@.len()) == pad);
        assert(buf@.subrange(pos as int, np as int) =~= content@ + zeros(str_pad(content@.len())));
        assert forall|s: Seq<char>|
            valid_osc_chars(s) && #[trigger] has_prefix_at(
                buf@,
                pos as int,
                end as int,
                encode_str(s),
            ) implies content@ == ascii_bytes(s) && np == pos + encode_str(s).len() by {
            lemma_first_null(buf@, pos as int, end as int, i as int, s);
            lemma_encode_str_bytes(s);
            let e = encode_str(s);
            assert forall|t: int| 0 <= t < e.len() implies buf@[pos + t] == #[trigger] e[t] by {
                assert(buf@.subrange(pos as int, pos as int + e.len())[t] == e[t]);
            }
            assert(content@ =~= ascii_bytes(s));
            assert(np == pos + e.len());
        }
    }
    Ok((content, np))
}

/// The hypothesis that some well-formed value with this type tag encodes
/// the bytes at `pos`.
pub open spec fn value_at(b: Seq<u8>, pos: int, end: int, tag: u8, v: ValModel) -> bool {
    &&& wf_value(v)
    &&& tag_of(v) == tag as char
    &&& has_prefix_at(b, pos, end, encode_value(v))
}

/// Parse one argument whose type tag is `tag`, starting at `pos`. The
/// parse succeeds on, and exactly delimits, every encoded value of that
/// tag.
fn parse_value(buf: &Vec<u8>, pos: usize, end: usize, tag: u8) -> (r: Result<
    (OscValue, usize),
    ParseError,
>)
    requires
        pos <= end <= buf@.len(),
    ensures
        match r {
            Ok((v, np)) => {
                &&& pos <= np <= end
                &&& wf_value(v@)
                &&& tag_of(v@) == tag as char
                &&& encode_value(v@) == buf@.subrange(pos as int, np as int)
            },
            Err(e) => e == ParseError::Malformed,
        },
        forall|v: ValModel|
            #[trigger] value_at(buf@, pos as int, end as int, tag, v) ==> r is Ok && (r->Ok_0).0@
                == v && (r->Ok_0).1 == pos + encode_value(v).len(),
{
    if tag == 105 {  // 'i'
        if end - pos < 4 {
            proof {
                assert forall|v: ValModel|
                    #[trigger] value_at(buf@, pos as int, end as int, tag, v) implies false by {
                    assert(encode_value(v).len() >= 4);
                }
            }
            return Err(ParseError::Malformed);
        }
        let n = read_u32(buf, pos);
        proof {
            assert(n as i32 as u32 == n) by (bit_vector);
            assert forall|v: ValModel|
                #[trigger] value_at(buf@, pos as int, end as int, tag, v) implies v == ValModel::Int(
                n as i32,
            ) && pos + 4 == pos + encode_value(v).len() by {
                assert(encode_value(v).len() == 4);
                let i = v->Int_0;
                assert(buf@.subrange(pos as int, pos as int + 4) =~= encode_value(v));
                lemma_be32_inj(n, i as u32);
                assert(i as u32 == n ==> i == n as i32) by (bit_vector);
            }
        }
        Ok((OscValue::Int(n as i32), pos + 4))
    } else if tag == 102 {  // 'f'
        if end - pos < 4 {
            proof {
                assert forall|v: ValModel|
                    #[trigger] value_at(buf@, pos as int, end as int, tag, v) implies false by {
                    assert(encode_value(v).len() >= 4);
                }
            }
            return Err(ParseError::Malformed);
        }
        let n = read_u32(buf, pos);
        proof {
            assert forall|v: ValModel|
                #[trigger] value_at(buf@, pos as int, end as int, tag, v) implies v
                == ValModel::Float(n) && pos + 4 == pos + encode_value(v).len() by {
                assert(encode_value(v).len() == 4);
                assert(buf@.subrange(pos as int, pos as int + 4) =~= encode_value(v));
                lemma_be32_inj(n, v->Float_0);
            }
        }
        Ok((OscValue::Float(n), pos + 4))
    } else if tag == 115 {  // 's'
        let scanned = scan_osc_str(buf, pos, end);
        proof {
            assert forall|v: ValModel|
                #[trigger] value_at(buf@, pos as int, end as int, tag, v) implies scanned is Ok
                && (scanned->Ok_0).1 == pos + encode_value(v).len() by {
                let s = v->Str_0;
                assert(encode_value(v) == encode_str(s));
                assert(has_prefix_at(buf@, pos as int, end as int, encode_str(s)));
            }
        }
        match scanned {
            Ok((bs, np)) => {
                let s = ascii_to_string(&bs);
                proof {
                    lemma_ascii_roundtrip(bs@);
                    assert(encode_value(ValModel::Str(s@)) =~= buf@.subrange(
                        pos as int,
                        np as int,
                    ));
                    assert forall|v: ValModel|
                        #[trigger] value_at(buf@, pos as int, end as int, tag, v) implies v
                        == ValModel::Str(s@) by {
                        let vs = v->Str_0;
                        assert(has_prefix_at(buf@, pos as int, end as int, encode_str(vs)));
                        assert(bs@ == ascii_bytes(vs));
                        assert forall|j: int| 0 <= j < vs.len() implies s@[j] == vs[j] by {
                            assert(ascii_bytes(vs)[j] == vs[j] as u8);
                            assert(is_osc_char(vs[j]));
                            lemma_osc_char_byte(vs[j]);
                            assert(s@[j] == bs@.map_values(|b: u8| b as char)[j]);
                        }
                        assert(s@ =~= vs);
                    }
                }
                Ok((OscValue::Str(s), np))
            },
            Err(e) => Err(e),
        }
    } else if tag == 98 {  // 'b'
        if end - pos < 4 {
            proof {
                assert forall|v: ValModel|
                    #[trigger] value_at(buf@, pos as int, end as int, tag, v) implies false by {
                    assert(encode_value(v).len() >= 4);
                }
            }
            return Err(ParseError::Malformed);
        }
        let n = read_u32(buf, pos);
        let n_us = n as usize;
        proof {
            assert forall|v: ValModel|
                #[trigger] value_at(buf@, pos as int, end as int, tag, v) implies v->Blob_0.len()
                == n_us by {
                let data = v->Blob_0;
                let e = encode_value(v);
                assert(e.len() == 4 + data.len() + blob_pad(data.len()));
                assert(buf@.subrange(pos as int, pos as int + 4) =~= e.subrange(0, 4));
                assert(e.subrange(0, 4) =~= be32(data.len() as u32));
                lemma_be32_inj(n, data.len() as u32);
            }
        }
        if end - (pos + 4) < n_us {
            proof {
                assert forall|v: ValModel|
                    #[trigger] value_at(buf@, pos as int, end as int, tag, v) implies false by {
                    let data = v->Blob_0;
                    assert(encode_value(v).len() == 4 + data.len() + blob_pad(data.len()));
                }
            }
            return Err(ParseError::Malformed);
        }
        let dstart = pos + 4;
        let dend = dstart + n_us;
        let mut data: Vec<u8> = Vec::new();
        let mut i = dstart;
        while i < dend
            invariant
                dstart <= i <= dend <= end <= buf@.len(),
                data@ == buf@.subrange(dstart as int, i as int),
            decreases dend - i,
        {
            data.push(buf[i]);
            i += 1;
            proof {
                assert(data@ =~= buf@.subrange(dstart as int, i as int));
            }
        }
        let pad = if n_us % 4 == 0 {
            0
        } else {
            4 - n_us % 4
        };
        proof {
            assert(pad == blob_pad(n_us as nat));
        }
        if end - dend < pad {
            proof {
                assert forall|v: ValModel|
                    #[trigger] value_at(buf@, pos as int, end as int, tag, v) implies false by {
                    let bd = v->Blob_0;
                    assert(bd.len() == n_us);
                    assert(encode_value(v).len() == 4 + bd.len() + blob_pad(bd.len()));
                }
            }
            return Err(ParseError::Malformed);
        }
        let np = dend + pad;
        let mut j = dend;
        while j < np
            invariant
                tag == 98,
                pos + 4 == dstart,
                dstart + n_us == dend,
                dend <= j <= np <= end <= buf@.len(),
                np == dend + pad,
                pad == blob_pad(n_us as nat),
                forall|v: ValModel|
                    #[trigger] value_at(buf@, pos as int, end as int, tag, v) ==> v->Blob_0.len()
                        == n_us,
                forall|k: int| dend <= k < j ==> buf@[k] == 0,
            decreases np - j,
        {
            if buf[j] != 0 {
                proof {
                    assert forall|v: ValModel|
                        #[trigger] value_at(buf@, pos as int, end as int, tag, v) implies false by {
                        let bd = v->Blob_0;
                        let e = encode_value(v);
                        assert(bd.len() == n_us);
                        assert(e.len() == 4 + bd.len() + blob_pad(bd.len()));
                        assert(buf@.subrange(pos as int, pos as int + e.len())[j - pos] == e[j
                            - pos]);
                        assert(e[j - pos] == zeros(blob_pad(bd.len()))[j - pos - 4 - bd.len()]);
                    }
                }
                return Err(ParseError::Malformed);
            }
            j += 1;
        }
        proof {
            assert(n_us as u32 == n);
            assert(blob_pad(data@.len()) == pad);
            assert(encode_value(ValModel::Blob(data@)) =~= buf@.subrange(pos as int, np as int));
            assert forall|v: ValModel|
                #[trigger] value_at(buf@, pos as int, end as int, tag, v) implies v
                == ValModel::Blob(data@) && np == pos + encode_value(v).len() by {
                let bd = v->Blob_0;
                let e = encode_value(v);
                assert(bd.len() == n_us);
                assert(e.len() == 4 + bd.len() + blob_pad(bd.len()));
                assert forall|t: int| 0 <= t < bd.len() implies bd[t] == data@[t] by {
                    assert(e[4 + t] == (be32(bd.len() as u32) + bd + zeros(blob_pad(bd.len())))[4
                        + t]);
                    assert(e[4 + t] == bd[t]);
                    assert(buf@.subrange(pos as int, pos as int + e.len())[4 + t] == e[4 + t]);
                    assert(data@[t] == buf@.subrange(dstart as int, dend as int)[t]);
                }
                assert(bd =~= data@);
            }
        }
        Ok((OscValue::Blob(data), np))
    } else {
        proof {
            assert forall|v: ValModel|
                #[trigger] value_at(buf@, pos as int, end as int, tag, v) implies false by {
                assert((tag_of(v) as u8) == tag);
                assert(tag_of(v) == 'i' || tag_of(v) == 'f' || tag_of(v) == 's' || tag_of(v)
                    == 'b');
            }
        }
        Err(ParseError::Malformed)
    }
}

/// ASCII bytes turned to characters and back are unchanged.
proof fn lemma_ascii_roundtrip(bytes: Seq<u8>)
    requires
        forall|i: int| 0 <= i < bytes.len() ==> #[trigger] bytes[i] < 128,
    ensures
        ascii_bytes(bytes.map_values(|b: u8| b as char)) == bytes,
{
    assert(ascii_bytes(bytes.map_values(|b: u8| b as char)) =~= bytes);
}

/// `encode_values` of a list with one more value appends that value's bytes.
proof fn lemma_encode_values_push(args: Seq<ValModel>, v: ValModel)
    ensures
        encode_values(args.push(v)) == encode_values(args) + encode_value(v),
    decreases args.len(),
{
    if args.len() == 0 {
        assert(args.push(v).drop_first() =~= Seq::<ValModel>::empty());
        assert(args.push(v)[0] == v);
        assert(encode_values(args.push(v)) == encode_value(v) + encode_values(
            args.push(v).drop_first(),
        ));
        assert(encode_values(args.push(v)) =~= encode_values(args) + encode_value(v));
    } else {
        assert(args.push(v).drop_first() =~= args.drop_first().push(v));
        lemma_encode_values_push(args.drop_first(), v);
        assert(encode_values(args.push(v)) =~= encode_values(args) + encode_value(v));
    }
}

/// `encode_values` splits around any one position.
proof fn lemma_encode_values_split(args: Seq<ValModel>, j: int)
    requires
        0 <= j < args.len(),
    ensures
        encode_values(args) == encode_values(args.take(j)) + encode_value(args[j])
            + encode_values(args.skip(j + 1)),
    decreases j,
{
    if j == 0 {
        assert(args.take(0) =~= Seq::<ValModel>::empty());
        assert(args.skip(1) =~= args.drop_first());
        assert(encode_values(args) == encode_value(args[0]) + encode_values(args.drop_first()));
        assert(encode_values(args) =~= encode_values(args.take(0)) + encode_value(args[0])
            + encode_values(args.skip(1)));
    } else {
        lemma_encode_values_split(args.drop_first(), j - 1);
        assert(args.drop_first().take(j - 1) =~= args.take(j).drop_first());
        assert(args.drop_first()[j - 1] == args[j]);
        assert(args.drop_first().skip(j) =~= args.skip(j + 1));
        assert(args.take(j)[0] == args[0]);
        assert(encode_values(args.take(j)) == encode_value(args[0]) + encode_values(
            args.take(j).drop_first(),
        ));
        assert(encode_values(args) =~= encode_values(args.take(j)) + encode_value(args[j])
            + encode_values(args.skip(j + 1)));
    }
}

/// The type-tag string of any argument list is a valid OSC string.
proof fn lemma_tagchars_valid(args: Seq<ValModel>)
    ensures
        valid_osc_chars(seq![','] + tags_of(args)),
{
    let tc = seq![','] + tags_of(args);
    assert forall|i: int| 0 <= i < tc.len() implies is_osc_char(#[trigger] tc[i]) by {
        if i == 0 {
            assert(tc[0] == ',');
        } else {
            assert(tc[i] == tag_of(args[i - 1]));
            assert(tag_of(args[i - 1]) == 'i' || tag_of(args[i - 1]) == 'f' || tag_of(
                args[i - 1],
            ) == 's' || tag_of(args[i - 1]) == 'b');
        }
    }
}

/// The hypothesis that some well-formed message encodes exactly the bytes
/// from `pos` to `end`.
pub open spec fn message_at(b: Seq<u8>, pos: int, end: int, m: MsgModel) -> bool {
    &&& wf_message(m)
    &&& 0 <= pos <= end <= b.len()
    &&& b.subrange(pos, end) == encode_message(m)
}

/// From a message that encodes `[pos, end)` exactly, each of its three
/// sections sits at its own position.
proof fn lemma_message_sections(b: Seq<u8>, pos: int, end: int, m: MsgModel)
    requires
        message_at(b, pos, end, m),
    ensures
        valid_osc_chars(m.address),
        valid_osc_chars(seq![','] + tags_of(m.args)),
        has_prefix_at(b, pos, end, encode_str(m.address)),
        has_prefix_at(
            b,
            pos + encode_str(m.address).len(),
            end,
            encode_str(seq![','] + tags_of(m.args)),
        ),
        b.subrange(
            pos + encode_str(m.address).len() + encode_str(seq![','] + tags_of(m.args)).len(),
            end,
        ) == encode_values(m.args),
{
    lemma_tagchars_valid(m.args);
    let ea = encode_str(m.address);
    let et = encode_str(seq![','] + tags_of(m.args));
    let ev = encode_values(m.args);
    assert(encode_message(m) =~= ea + (et + ev));
    lemma_split_prefix(b, pos, end, ea, et + ev);
    lemma_split_prefix(b, pos + ea.len(), end, et, ev);
}

/// Parse one message that must fill `buf` from `pos` to exactly `end`.
/// The parse succeeds on exactly those spans that some well-formed message
/// encodes.
fn parse_message(buf: &Vec<u8>, pos: usize, end: usize) -> (r: Result<OscMessage, ParseError>)
    requires
        pos <= end <= buf@.len(),
    ensures
        match r {
            Ok(m) => wf_message(m@) && encode_message(m@) == buf@.subrange(
                pos as int,
                end as int,
            ),
            Err(e) => e == ParseError::Malformed,
        },
        forall|m: MsgModel|
            #[trigger] message_at(buf@, pos as int, end as int, m) ==> r is Ok && r->Ok_0@ == m,
{
    let scanned_addr = scan_osc_str(buf, pos, end);
    proof {
        assert forall|m: MsgModel|
            #[trigger] message_at(buf@, pos as int, end as int, m) implies scanned_addr is Ok && (
        scanned_addr->Ok_0).0@ == ascii_bytes(m.address) && (scanned_addr->Ok_0).1 == pos
            + encode_str(m.address).len() by {
            lemma_message_sections(buf@, pos as int, end as int, m);
            assert(has_prefix_at(buf@, pos as int, end as int, encode_str(m.address)));
        }
    }
    let (addr_bytes, p1) = match scanned_addr {
        Ok(x) => x,
        Err(e) => { return Err(e) },
    };
    if addr_bytes.len() == 0 || addr_bytes[0] != 47 {  // '/'
        proof {
            assert forall|m: MsgModel|
                #[trigger] message_at(buf@, pos as int, end as int, m) implies false by {
                assert(ascii_bytes(m.address).len() == m.address.len());
                assert(ascii_bytes(m.address)[0] == m.address[0] as u8);
                assert(m.address[0] == '/');
            }
        }
        return Err(ParseError::Malformed);
    }
    let address = ascii_to_string(&addr_bytes);
    let scanned_tags = scan_osc_str(buf, p1, end);
    proof {
        assert forall|m: MsgModel|
            #[trigger] message_at(buf@, pos as int, end as int, m) implies scanned_tags is Ok && (
        scanned_tags->Ok_0).0@ == ascii_bytes(seq![','] + tags_of(m.args)) && (scanned_tags->Ok_0).1
            == p1 + encode_str(seq![','] + tags_of(m.args)).len() by {
            lemma_message_sections(buf@, pos as int, end as int, m);
            assert(p1 == pos + encode_str(m.address).len());
            assert(has_prefix_at(
                buf@,
                p1 as int,
                end as int,
                encode_str(seq![','] + tags_of(m.args)),
            ));
        }
    }
    let (tag_bytes, p2) = match scanned_tags {
        Ok(x) => x,
        Err(e) => { return Err(e) },
    };
    if tag_bytes.len() == 0 || tag_bytes[0] != 44 {  // ','
        proof {
            assert forall|m: MsgModel|
                #[trigger] message_at(buf@, pos as int, end as int, m) implies false by {
                let tc = seq![','] + tags_of(m.args);
                assert(ascii_bytes(tc).len() == tc.len());
                assert(ascii_bytes(tc)[0] == tc[0] as u8);
                assert(tc[0] == ',');
            }
        }
        return Err(ParseError::Malformed);
    }
    proof {
        assert forall|m: MsgModel|
            #[trigger] message_at(buf@, pos as int, end as int, m) implies m.args.len()
            == tag_bytes@.len() - 1 && ascii_bytes(seq![','] + tags_of(m.args)) == tag_bytes@
            && buf@.subrange(p2 as int, end as int) == encode_values(m.args) && p2 as int == p2
            + encode_values(m.args.take(0)).len() by {
            lemma_message_sections(buf@, pos as int, end as int, m);
            let tc = seq![','] + tags_of(m.args);
            assert(ascii_bytes(tc).len() == tc.len());
            assert(p1 == pos + encode_str(m.address).len());
            assert(p2 == p1 + encode_str(tc).len());
            assert(m.args.take(0) =~= Seq::<ValModel>::empty());
        }
    }
    let mut args: Vec<OscValue> = Vec::new();
    proof {
        assert(args@.map_values(|vv: OscValue| vv@) =~= Seq::<ValModel>::empty());
    }
    let mut cur = p2;
    let mut k: usize = 1;
    while k < tag_bytes.len()
        invariant
            1 <= k <= tag_bytes@.len(),
            p2 <= cur <= end <= buf@.len(),
            args@.len() == k - 1,
            forall|t: int| 0 <= t < args@.len() ==> wf_value((#[trigger] args@[t])@),
            forall|t: int|
                0 <= t < args@.len() ==> tag_of((#[trigger] args@[t])@) == tag_bytes@[t + 1] as char,
            encode_values(args@.map_values(|vv: OscValue| vv@)) == buf@.subrange(
                p2 as int,
                cur as int,
            ),
            forall|m: MsgModel|
                #[trigger] message_at(buf@, pos as int, end as int, m) ==> {
                    &&& m.args.len() == tag_bytes@.len() - 1
                    &&& ascii_bytes(seq![','] + tags_of(m.args)) == tag_bytes@
                    &&& cur as int == p2 + encode_values(m.args.take(k - 1)).len()
                    &&& args@.map_values(|vv: OscValue| vv@) == m.args.take(k - 1)
                    &&& buf@.subrange(p2 as int, end as int) == encode_values(m.args)
                },
        decreases tag_bytes@.len() - k,
    {
        let tag_k = tag_bytes[k];
        let parsed = parse_value(buf, cur, end, tag_k);
        proof {
            assert forall|m: MsgModel|
                #[trigger] message_at(buf@, pos as int, end as int, m) implies value_at(
                buf@,
                cur as int,
                end as int,
                tag_k,
                m.args[k - 1],
            ) by {
                let margs = m.args;
                let j = k - 1;
                lemma_tagchars_valid(margs);
                let tc = seq![','] + tags_of(margs);
                assert(ascii_bytes(tc)[k as int] == tc[k as int] as u8);
                assert(tc[k as int] == tag_of(margs[j as int]));
                assert(is_osc_char(tc[k as int]));
                lemma_osc_char_byte(tag_of(margs[j as int]));
                assert(tag_k as char == tag_of(margs[j as int]));
                assert(wf_value(margs[j as int]));
                lemma_encode_values_split(margs, j as int);
                assert(buf@.subrange(p2 as int, end as int) =~= encode_values(
                    margs.take(j as int),
                ) + (encode_value(margs[j as int]) + encode_values(margs.skip(j + 1))));
                lemma_split_prefix(
                    buf@,
                    p2 as int,
                    end as int,
                    encode_values(margs.take(j as int)),
                    encode_value(margs[j as int]) + encode_values(margs.skip(j + 1)),
                );
                lemma_split_prefix(
                    buf@,
                    cur as int,
                    end as int,
                    encode_value(margs[j as int]),
                    encode_values(margs.skip(j + 1)),
                );
                assert(has_prefix_at(buf@, cur as int, end as int, encode_value(margs[j as int])));
            }
        }
        let (v, np) = match parsed {
            Ok(x) => x,
            Err(e) => { return Err(e) },
        };
        proof {
            lemma_encode_values_push(args@.map_values(|vv: OscValue| vv@), v@);
            assert(args@.push(v).map_values(|vv: OscValue| vv@) =~= args@.map_values(
                |vv: OscValue| vv@,
            ).push(v@));
            assert(buf@.subrange(p2 as int, np as int) =~= buf@.subrange(p2 as int, cur as int)
                + buf@.subrange(cur as int, np as int));
            assert forall|m: MsgModel|
                #[trigger] message_at(buf@, pos as int, end as int, m) implies np as int == p2
                + encode_values(m.args.take(k as int)).len() && args@.push(v).map_values(
                |vv: OscValue| vv@,
            ) == m.args.take(k as int) by {
                assert(value_at(buf@, cur as int, end as int, tag_k, m.args[k - 1]));
                assert(np == cur + encode_value(m.args[k - 1]).len());
                assert(v@ == m.args[k - 1]);
                assert(m.args.take(k as int) =~= m.args.take(k - 1).push(m.args[k - 1]));
                lemma_encode_values_push(m.args.take(k - 1), m.args[k - 1]);
            }
        }
        args.push(v);
        cur = np;
        k += 1;
    }
    if cur != end {
        proof {
            assert forall|m: MsgModel|
                #[trigger] message_at(buf@, pos as int, end as int, m) implies false by {
                assert(m.args.take(k - 1) =~= m.args);
                assert(buf@.subrange(p2 as int, end as int).len() == encode_values(m.args).len());
            }
        }
        return Err(ParseError::Malformed);
    }
    let msg = OscMessage { address, args };
    proof {
        lemma_ascii_roundtrip(addr_bytes@);
        let models = args@.map_values(|vv: OscValue| vv@);
        let tagchars = seq![','] + tags_of(models);
        assert forall|t: int| 0 <= t < tag_bytes@.len() implies ascii_bytes(tagchars)[t]
            == tag_bytes@[t] by {
            if t > 0 {
                assert(tag_of(args@[t - 1]@) == tag_bytes@[t] as char);
            }
        }
        assert(ascii_bytes(tagchars) =~= tag_bytes@);
        assert(encode_str(msg@.address) =~= buf@.subrange(pos as int, p1 as int));
        assert(encode_str(tagchars) =~= buf@.subrange(p1 as int, p2 as int));
        assert(encode_message(msg@) =~= buf@.subrange(pos as int, end as int));
        assert(wf_message(msg@));
        assert forall|m: MsgModel|
            #[trigger] message_at(buf@, pos as int, end as int, m) implies msg@ == m by {
            assert(m.args.take(k - 1) =~= m.args);
            assert(models == m.args);
            assert(addr_bytes@ == ascii_bytes(m.address));
            assert forall|j: int| 0 <= j < m.address.len() implies address@[j] == m.address[j] by {
                assert(ascii_bytes(m.address)[j] == m.address[j] as u8);
                assert(is_osc_char(m.address[j]));
                lemma_osc_char_byte(m.address[j]);
                assert(address@[j] == addr_bytes@.map_values(|b: u8| b as char)[j]);
            }
            assert(address@ =~= m.address);
            assert(msg@ =~= m);
        }
    }
    Ok(msg)
}

/// `encode_children` of a list with one more child appends its length
/// prefix and bytes.
proof fn lemma_encode_children_push(cs: Seq<ChildModel>, c: ChildModel)
    ensures
        encode_children(cs.push(c)) == encode_children(cs) + be32(encode_child(c).len() as u32)
            + encode_child(c),
    decreases cs.len(),
{
    if cs.len() == 0 {
        assert(cs.push(c).drop_first() =~= Seq::<ChildModel>::empty());
        assert(cs.push(c)[0] == c);
        assert(encode_children(cs.push(c)) == be32(encode_child(c).len() as u32) + encode_child(c)
            + encode_children(cs.push(c).drop_first()));
        assert(encode_children(cs.push(c)) =~= encode_children(cs) + be32(
            encode_child(c).len() as u32,
        ) + encode_child(c));
    } else {
        assert(cs.push(c).drop_first() =~= cs.drop_first().push(c));
        lemma_encode_children_push(cs.drop_first(), c);
        assert(encode_children(cs.push(c)) =~= encode_children(cs) + be32(
            encode_child(c).len() as u32,
        ) + encode_child(c));
    }
}

/// `encode_children` splits around any one position.
proof fn lemma_encode_children_split(cs: Seq<ChildModel>, j: int)
    requires
        0 <= j < cs.len(),
    ensures
        encode_children(cs) == encode_children(cs.take(j)) + be32(encode_child(cs[j]).len() as u32)
            + encode_child(cs[j]) + encode_children(cs.skip(j + 1)),
    decreases j,
{
    if j == 0 {
        assert(cs.take(0) =~= Seq::<ChildModel>::empty());
        assert(cs.skip(1) =~= cs.drop_first());
        assert(encode_children(cs) == be32(encode_child(cs[0]).len() as u32) + encode_child(cs[0])
            + encode_children(cs.drop_first()));
        assert(encode_children(cs) =~= encode_children(cs.take(0)) + be32(
            encode_child(cs[0]).len() as u32,
        ) + encode_child(cs[0]) + encode_children(cs.skip(1)));
    } else {
        lemma_encode_children_split(cs.drop_first(), j - 1);
        assert(cs.drop_first().take(j - 1) =~= cs.take(j).drop_first());
        assert(cs.drop_first()[j - 1] == cs[j]);
        assert(cs.drop_first().skip(j) =~= cs.skip(j + 1));
        assert(cs.take(j)[0] == cs[0]);
        assert(encode_children(cs.take(j)) == be32(encode_child(cs[0]).len() as u32)
            + encode_child(cs[0]) + encode_children(cs.take(j).drop_first()));
        assert(encode_children(cs) =~= encode_children(cs.take(j)) + be32(
            encode_child(cs[j]).len() as u32,
        ) + encode_child(cs[j]) + encode_children(cs.skip(j + 1)));
    }
}

/// The hypothesis that some well-formed bundle encodes exactly the bytes
/// from `pos` to `end`.
pub open spec fn bundle_at(b: Seq<u8>, pos: int, end: int, bm: BundleModel) -> bool {
    &&& wf_packet(PacketModel::Bundle(bm))
    &&& 0 <= pos <= end <= b.len()
    &&& b.subrange(pos, end) == encode_packet(PacketModel::Bundle(bm))
}

/// From a bundle that encodes `[pos, end)` exactly, each of its sections
/// sits at its own position.
proof fn lemma_bundle_sections(b: Seq<u8>, pos: int, end: int, bm: BundleModel)
    requires
        bundle_at(b, pos, end, bm),
    ensures
        pos + 16 <= end,
        b.subrange(pos, pos + 8) == bundle_marker(),
        b.subrange(pos + 8, pos + 16) == be64(bm.time_tag),
        b.subrange(pos + 16, end) == encode_children(bm.children),
{
    let ep = encode_packet(PacketModel::Bundle(bm));
    assert(ep =~= bundle_marker() + (be64(bm.time_tag) + encode_children(bm.children)));
    lemma_split_prefix(
        b,
        pos,
        end,
        bundle_marker(),
        be64(bm.time_tag) + encode_children(bm.children),
    );
    lemma_split_prefix(b, pos + 8, end, be64(bm.time_tag), encode_children(bm.children));
}

/// When bytes remain in a children section whose first `j` children fill
/// `[body, cur)`, more children remain.
proof fn lemma_children_remain(b: Seq<u8>, body: int, end: int, cur: int, bm: BundleModel, j: int)
    requires
        0 <= body <= cur < end <= b.len(),
        b.subrange(body, end) == encode_children(bm.children),
        0 <= j <= bm.children.len(),
        cur == body + encode_children(bm.children.take(j)).len(),
    ensures
        j < bm.children.len(),
{
    if j == bm.children.len() {
        assert(bm.children.take(j) =~= bm.children);
        assert(b.subrange(body, end).len() == encode_children(bm.children).len());
    }
}

/// Inside a bundle's children section, the child at index `j` has its
/// length prefix at `cur` when the earlier children fill `[body, cur)`.
proof fn lemma_child_chunk(b: Seq<u8>, body: int, end: int, cur: int, bm: BundleModel, j: int)
    requires
        wf_packet(PacketModel::Bundle(bm)),
        0 <= body <= cur <= end <= b.len(),
        b.subrange(body, end) == encode_children(bm.children),
        0 <= j < bm.children.len(),
        cur == body + encode_children(bm.children.take(j)).len(),
    ensures
        wf_child(bm.children[j]),
        encode_child(bm.children[j]).len() <= u32::MAX,
        end - cur >= 4 + encode_child(bm.children[j]).len(),
        b.subrange(cur, cur + 4) == be32(encode_child(bm.children[j]).len() as u32),
        b.subrange(cur + 4, cur + 4 + encode_child(bm.children[j]).len()) == encode_child(
            bm.children[j],
        ),
{
    let cj = bm.children[j];
    assert(wf_children(bm.children));
    assert(wf_child(cj));
    lemma_encode_children_split(bm.children, j);
    let pre = encode_children(bm.children.take(j));
    let rest = be32(encode_child(cj).len() as u32) + (encode_child(cj) + encode_children(
        bm.children.skip(j + 1),
    ));
    assert(b.subrange(body, end) =~= pre + rest);
    lemma_split_prefix(b, body, end, pre, rest);
    lemma_split_prefix(
        b,
        cur,
        end,
        be32(encode_child(cj).len() as u32),
        encode_child(cj) + encode_children(bm.children.skip(j + 1)),
    );
    lemma_split_prefix(b, cur + 4, end, encode_child(cj), encode_children(bm.children.skip(j + 1)));
}

/// Parse one bundle that must fill `buf` from `pos` to exactly `end`:
/// the marker, the time tag, then length-prefixed children. A child that
/// itself opens with the bundle marker is kept as its raw bytes. The parse
/// succeeds on exactly those spans that some well-formed bundle encodes.
fn parse_bundle(buf: &Vec<u8>, pos: usize, end: usize) -> (r: Result<OscBundle, ParseError>)
    requires
        pos <= end <= buf@.len(),
    ensures
        match r {
            Ok(b) => {
                &&& wf_packet(PacketModel::Bundle(b@))
                &&& encode_packet(PacketModel::Bundle(b@)) == buf@.subrange(pos as int, end as int)
            },
            Err(e) => e == ParseError::Malformed,
        },
        forall|bm: BundleModel|
            #[trigger] bundle_at(buf@, pos as int, end as int, bm) ==> r is Ok && r->Ok_0@ == bm,
{
    if end - pos < 16 {
        proof {
            assert forall|bm: BundleModel|
                #[trigger] bundle_at(buf@, pos as int, end as int, bm) implies false by {
                lemma_bundle_sections(buf@, pos as int, end as int, bm);
            }
        }
        return Err(ParseError::Malformed);
    }
    if !is_bundle_marker(buf, pos) {
        proof {
            assert forall|bm: BundleModel|
                #[trigger] bundle_at(buf@, pos as int, end as int, bm) implies false by {
                lemma_bundle_sections(buf@, pos as int, end as int, bm);
            }
        }
        return Err(ParseError::Malformed);
    }
    let time_tag = read_u64(buf, pos + 8);
    let body = pos + 16;
    proof {
        assert forall|bm: BundleModel|
            #[trigger] bundle_at(buf@, pos as int, end as int, bm) implies buf@.subrange(
            body as int,
            end as int,
        ) == encode_children(bm.children) && body as int == body
            + encode_children(bm.children.take(0)).len() by {
            lemma_bundle_sections(buf@, pos as int, end as int, bm);
            assert(bm.children.take(0) =~= Seq::<ChildModel>::empty());
        }
    }
    let mut children: Vec<OscChild> = Vec::new();
    proof {
        assert(children@.map_values(|c: OscChild| c@) =~= Seq::<ChildModel>::empty());
    }
    let mut cur = body;
    while cur < end
        invariant
            pos + 16 == body,
            body <= cur <= end <= buf@.len(),
            forall|t: int| 0 <= t < children@.len() ==> wf_child((#[trigger] children@[t])@),
            encode_children(children@.map_values(|c: OscChild| c@)) == buf@.subrange(
                body as int,
                cur as int,
            ),
            forall|bm: BundleModel|
                #[trigger] bundle_at(buf@, pos as int, end as int, bm) ==> {
                    &&& children@.len() <= bm.children.len()
                    &&& cur as int == body + encode_children(
                        bm.children.take(children@.len() as int),
                    ).len()
                    &&& children@.map_values(|c: OscChild| c@) == bm.children.take(
                        children@.len() as int,
                    )
                    &&& buf@.subrange(body as int, end as int) == encode_children(bm.children)
                },
        decreases end - cur,
    {
        let ghost j = children@.len() as int;
        proof {
            assert forall|bm: BundleModel|
                #[trigger] bundle_at(buf@, pos as int, end as int, bm) implies j < bm.children.len()
                && end - cur >= 4 + encode_child(bm.children[j]).len() && encode_child(
                bm.children[j],
            ).len() <= u32::MAX && buf@.subrange(cur as int, cur as int + 4) == be32(
                encode_child(bm.children[j]).len() as u32,
            ) && buf@.subrange(
                cur as int + 4,
                cur as int + 4 + encode_child(bm.children[j]).len(),
            ) == encode_child(bm.children[j]) && wf_child(bm.children[j]) by {
                lemma_children_remain(buf@, body as int, end as int, cur as int, bm, j);
                lemma_child_chunk(buf@, body as int, end as int, cur as int, bm, j);
            }
        }
        if end - cur < 4 {
            return Err(ParseError::Malformed);
        }
        let n = read_u32(buf, cur);
        let n_us = n as usize;
        proof {
            assert forall|bm: BundleModel|
                #[trigger] bundle_at(buf@, pos as int, end as int, bm) implies n_us == encode_child(
                bm.children[j],
            ).len() by {
                lemma_be32_inj(n, encode_child(bm.children[j]).len() as u32);
            }
        }
        if end - (cur + 4) < n_us {
            return Err(ParseError::Malformed);
        }
        let cs = cur + 4;
        let ce = cs + n_us;
        let child: OscChild;
        if n_us >= 8 && is_bundle_marker(buf, cs) {
            let mut raw: Vec<u8> = Vec::new();
            let mut i = cs;
            while i < ce
                invariant
                    cs <= i <= ce <= buf@.len(),
                    raw@ == buf@.subrange(cs as int, i as int),
                decreases ce - i,
            {
                raw.push(buf[i]);
                i += 1;
                proof {
                    assert(raw@ =~= buf@.subrange(cs as int, i as int));
                }
            }
            proof {
                assert(raw@.subrange(0, 8) =~= buf@.subrange(cs as int, cs as int + 8));
            }
            child = OscChild::Nested(raw);
            proof {
                assert forall|bm: BundleModel|
                    #[trigger] bundle_at(buf@, pos as int, end as int, bm) implies child@
                    == bm.children[j] by {
                    let cj = bm.children[j];
                    if cj is Message {
                        lemma_encode_message_head(cj->Message_0);
                        assert(encode_child(cj) == buf@.subrange(cs as int, ce as int));
                        assert(buf@.subrange(cs as int, ce as int)[0] == buf@[cs as int]);
                        assert(buf@.subrange(cs as int, cs as int + 8)[0] == buf@[cs as int]);
                        lemma_osc_char_byte(cj->Message_0.address[0]);
                        assert(false);
                    }
                    assert(cj->Nested_0 == buf@.subrange(cs as int, ce as int));
                    assert(child@ =~= cj);
                }
            }
        } else {
            let parsed = parse_message(buf, cs, ce);
            proof {
                assert forall|bm: BundleModel|
                    #[trigger] bundle_at(buf@, pos as int, end as int, bm) implies parsed is Ok
                    && parsed->Ok_0@ == bm.children[j]->Message_0 && bm.children[j] is Message by {
                    let cj = bm.children[j];
                    if cj is Nested {
                        let raw = cj->Nested_0;
                        assert(raw.len() == n_us && raw.len() >= 8);
                        assert(buf@.subrange(cs as int, cs as int + 8) =~= raw.subrange(0, 8));
                    } else {
                        let mm = cj->Message_0;
                        assert(buf@.subrange(cs as int, ce as int) == encode_message(mm));
                        assert(message_at(buf@, cs as int, ce as int, mm));
                    }
                }
            }
            let m = match parsed {
                Ok(m) => m,
                Err(e) => { return Err(e) },
            };
            child = OscChild::Message(m);
            proof {
                assert forall|bm: BundleModel|
                    #[trigger] bundle_at(buf@, pos as int, end as int, bm) implies child@
                    == bm.children[j] by {
                    assert(bm.children[j] =~= ChildModel::Message(m@));
                }
            }
        }
        proof {
            assert(encode_child(child@) == buf@.subrange(cs as int, ce as int));
            assert(encode_child(child@).len() == n_us);
            assert(n_us as u32 == n);
            lemma_encode_children_push(children@.map_values(|c: OscChild| c@), child@);
            assert(children@.push(child).map_values(|c: OscChild| c@) =~= children@.map_values(
                |c: OscChild| c@,
            ).push(child@));
            assert(buf@.subrange(body as int, ce as int) =~= buf@.subrange(body as int, cur as int)
                + buf@.subrange(cur as int, cur as int + 4) + buf@.subrange(cs as int, ce as int));
            assert forall|bm: BundleModel|
                #[trigger] bundle_at(buf@, pos as int, end as int, bm) implies ce as int == body
                + encode_children(bm.children.take(j + 1)).len() && children@.push(
                child,
            ).map_values(|c: OscChild| c@) == bm.children.take(j + 1) by {
                assert(bm.children.take(j + 1) =~= bm.children.take(j).push(bm.children[j]));
                lemma_encode_children_push(bm.children.take(j), bm.children[j]);
                assert(child@ == bm.children[j]);
            }
        }
        children.push(child);
        cur = ce;
    }
    let b = OscBundle { time_tag, children };
    proof {
        assert(encode_packet(PacketModel::Bundle(b@)) =~= buf@.subrange(pos as int, end as int));
        assert forall|bm: BundleModel|
            #[trigger] bundle_at(buf@, pos as int, end as int, bm) implies b@ == bm by {
            let len_c = children@.len() as int;
            if len_c < bm.children.len() {
                lemma_child_chunk(buf@, body as int, end as int, cur as int, bm, len_c);
                assert(false);
            }
            assert(bm.children.take(len_c) =~= bm.children);
            lemma_bundle_sections(buf@, pos as int, end as int, bm);
            lemma_be64_inj(time_tag, bm.time_tag);
            assert(b@ =~= bm);
        }
    }
    Ok(b)
}

/// A well-formed message's encoding opens with its address's first byte
/// and spans at least the two four-byte strings.
proof fn lemma_encode_message_head(m: MsgModel)
    requires
        wf_message(m),
    ensures
        encode_message(m).len() >= 8,
        encode_message(m)[0] == m.address[0] as u8,
{
    lemma_tagchars_valid(m.args);
    lemma_encode_str_bytes(m.address);
    lemma_encode_str_bytes(seq![','] + tags_of(m.args));
    let ea = encode_str(m.address);
    let et = encode_str(seq![','] + tags_of(m.args));
    assert(ea.len() >= 4 && et.len() >= 4);
    assert(encode_message(m) =~= ea + (et + encode_values(m.args)));
    assert(encode_message(m)[0] == ea[0]);
}

/// The hypothesis that some well-formed packet explains a framed buffer
/// completely: a correct length header, then exactly the packet's bytes.
pub open spec fn packet_at(b: Seq<u8>, p: PacketModel) -> bool {
    &&& wf_packet(p)
    &&& b.len() >= 4
    &&& b.len() - 4 <= u32::MAX
    &&& b.subrange(0, 4) == be32((b.len() - 4) as u32)
    &&& b.skip(4) == encode_packet(p)
}

/// Parse a framed buffer. The 4-byte big-endian header must state exactly
/// the length of the rest, which must be one well-formed packet. On
/// success, the packet's reference encoding is exactly the framed payload;
/// the parse fails, with `Malformed`, exactly when no well-formed packet
/// explains the buffer.
pub fn parse(buf: &Vec<u8>) -> (r: Result<OscPacket, ParseError>)
    ensures
        match r {
            Ok(p) => {
                &&& buf@.len() >= 4
                &&& buf@.subrange(0, 4) == be32((buf@.len() - 4) as u32)
                &&& wf_packet(p@)
                &&& encode_packet(p@) == buf@.skip(4)
            },
            Err(e) => e == ParseError::Malformed,
        },
        forall|p: PacketModel| #[trigger] packet_at(buf@, p) ==> r is Ok && r->Ok_0@ == p,
{
    let blen = buf.len();
    if blen < 4 {
        return Err(ParseError::Malformed);
    }
    let n = read_u32(buf, 0);
    let n_us = n as usize;
    if n_us != blen - 4 {
        proof {
            assert forall|p: PacketModel| #[trigger] packet_at(buf@, p) implies false by {
                lemma_be32_inj(n, (buf@.len() - 4) as u32);
            }
        }
        return Err(ParseError::Malformed);
    }
    proof {
        assert((buf@.len() - 4) as u32 == n);
        assert(buf@.skip(4) =~= buf@.subrange(4, blen as int));
    }
    if blen - 4 >= 8 && is_bundle_marker(buf, 4) {
        let parsed = parse_bundle(buf, 4, blen);
        proof {
            assert forall|p: PacketModel| #[trigger] packet_at(buf@, p) implies parsed is Ok && p
                is Bundle && parsed->Ok_0@ == p->Bundle_0 by {
                if p is Message {
                    lemma_encode_message_head(p->Message_0);
                    assert(buf@.subrange(4, 12)[0] == buf@[4]);
                    assert(buf@.skip(4)[0] == buf@[4]);
                    assert(encode_message(p->Message_0)[0] == p->Message_0.address[0] as u8);
                    lemma_osc_char_byte(p->Message_0.address[0]);
                    assert(false);
                } else {
                    assert(bundle_at(buf@, 4, blen as int, p->Bundle_0));
                }
            }
        }
        match parsed {
            Ok(b) => {
                let packet = OscPacket::Bundle(b);
                proof {
                    assert forall|p: PacketModel| #[trigger] packet_at(buf@, p) implies packet@
                        == p by {
                        assert(p =~= PacketModel::Bundle(b@));
                    }
                }
                Ok(packet)
            },
            Err(e) => Err(e),
        }
    } else {
        let parsed = parse_message(buf, 4, blen);
        proof {
            assert forall|p: PacketModel| #[trigger] packet_at(buf@, p) implies parsed is Ok && p
                is Message && parsed->Ok_0@ == p->Message_0 by {
                if p is Bundle {
                    let bm = p->Bundle_0;
                    let ep = encode_packet(p);
                    assert(ep =~= bundle_marker() + (be64(bm.time_tag) + encode_children(
                        bm.children,
                    )));
                    lemma_split_prefix(
                        buf@,
                        4,
                        blen as int,
                        bundle_marker(),
                        be64(bm.time_tag) + encode_children(bm.children),
                    );
                    assert(blen - 4 >= 16);
                    assert(buf@.subrange(4, 12) == bundle_marker());
                    assert(false);
                } else {
                    assert(message_at(buf@, 4, blen as int, p->Message_0));
                }
            }
        }
        match parsed {
            Ok(m) => {
                let packet = OscPacket::Message(m);
                proof {
                    assert forall|p: PacketModel| #[trigger] packet_at(buf@, p) implies packet@
                        == p by {
                        assert(p =~= PacketModel::Message(m@));
                    }
                }
                Ok(packet)
            },
            Err(e) => Err(e),
        }
    }
}

} // verus!
