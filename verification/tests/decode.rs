//! End-to-end decoding tests: raw OSC payloads built by hand, run through
//! the framing, parsing, dispatching pipeline.

use osc_core::codec::decode_datagram;
use osc_core::codec::parse_datagram;
use osc_core::dispatch::dispatch;
use osc_core::dispatch::AppMessage;
use osc_core::dispatch::DispatchError;
use osc_core::flatten::flatten;
use osc_core::framer::frame;
use osc_core::packet::OscBundle;
use osc_core::packet::OscChild;
use osc_core::packet::OscMessage;
use osc_core::packet::OscPacket;
use osc_core::packet::OscValue;
use osc_core::parser::parse;
use osc_core::parser::ParseError;

fn osc_str_bytes(s: &str) -> Vec<u8> {
    let mut v = s.as_bytes().to_vec();
    let pad = 4 - v.len() % 4;
    for _ in 0..pad {
        v.push(0);
    }
    v
}

fn float_msg(addr: &str, x: f32) -> Vec<u8> {
    let mut v = osc_str_bytes(addr);
    v.extend_from_slice(&osc_str_bytes(",f"));
    v.extend_from_slice(&x.to_bits().to_be_bytes());
    v
}

fn str_msg(addr: &str, arg: &str) -> Vec<u8> {
    let mut v = osc_str_bytes(addr);
    v.extend_from_slice(&osc_str_bytes(",s"));
    v.extend_from_slice(&osc_str_bytes(arg));
    v
}

fn bundle(time_tag: u64, children: &[Vec<u8>]) -> Vec<u8> {
    let mut v = b"#bundle\0".to_vec();
    v.extend_from_slice(&time_tag.to_be_bytes());
    for c in children {
        v.extend_from_slice(&(c.len() as u32).to_be_bytes());
        v.extend_from_slice(c);
    }
    v
}

#[test]
fn frame_prepends_big_endian_length() {
    let payload = vec![1u8, 2, 3];
    let framed = frame(&payload);
    assert_eq!(framed, vec![0u8, 0, 0, 3, 1, 2, 3]);
}

#[test]
fn frame_empty_payload() {
    let payload: Vec<u8> = Vec::new();
    assert_eq!(frame(&payload), vec![0u8, 0, 0, 0]);
}

#[test]
fn scenario_freq_440() {
    let payload = float_msg("/freq", 440.0);
    let results = decode_datagram(&payload).expect("well-formed datagram");
    assert_eq!(results, vec![Ok(AppMessage::Freq(440.0f32.to_bits()))]);
    match &results[0] {
        Ok(AppMessage::Freq(bits)) => assert_eq!(f32::from_bits(*bits), 440.0),
        other => panic!("unexpected outcome: {:?}", other),
    }
}

#[test]
fn scenario_freq_441_1_preserves_value() {
    let payload = float_msg("/freq", 441.1);
    let results = decode_datagram(&payload).expect("well-formed datagram");
    match &results[0] {
        Ok(AppMessage::Freq(bits)) => assert_eq!(f32::from_bits(*bits), 441.1f32),
        other => panic!("unexpected outcome: {:?}", other),
    }
}

#[test]
fn scenario_unknown_address() {
    let payload = float_msg("/unknown", 1.0);
    let results = decode_datagram(&payload).expect("well-formed datagram");
    assert_eq!(
        results,
        vec![Err(DispatchError::UnknownAddress("/unknown".to_string()))]
    );
}

#[test]
fn scenario_freq_with_string_argument() {
    let payload = str_msg("/freq", "loud");
    let results = decode_datagram(&payload).expect("well-formed datagram");
    assert_eq!(
        results,
        vec![Err(DispatchError::ShapeMismatch {
            address: "/freq".to_string(),
            expected: vec!['f'],
            actual: vec!['s'],
        })]
    );
}

#[test]
fn scenario_bundle_two_freqs_and_nested_bundle() {
    let inner = bundle(7, &[float_msg("/freq", 1.0)]);
    let payload = bundle(1, &[float_msg("/freq", 440.0), float_msg("/freq", 441.1), inner]);
    let results = decode_datagram(&payload).expect("well-formed datagram");
    assert_eq!(
        results,
        vec![
            Ok(AppMessage::Freq(440.0f32.to_bits())),
            Ok(AppMessage::Freq(441.1f32.to_bits())),
            Err(DispatchError::UnsupportedNesting),
        ]
    );
}

#[test]
fn bundle_isolation_one_bad_child_leaves_siblings() {
    let payload = bundle(
        0,
        &[
            float_msg("/freq", 1.5),
            str_msg("/freq", "oops"),
            str_msg("/error", "late"),
        ],
    );
    let results = decode_datagram(&payload).expect("well-formed datagram");
    assert_eq!(results.len(), 3);
    assert_eq!(results[0], Ok(AppMessage::Freq(1.5f32.to_bits())));
    assert!(matches!(results[1], Err(DispatchError::ShapeMismatch { .. })));
    assert_eq!(results[2], Ok(AppMessage::Error("late".to_string())));
}

#[test]
fn nested_bundle_in_the_middle_keeps_order() {
    let inner = bundle(9, &[]);
    let payload = bundle(2, &[float_msg("/freq", 2.0), inner, float_msg("/freq", 3.0)]);
    let results = decode_datagram(&payload).expect("well-formed datagram");
    assert_eq!(
        results,
        vec![
            Ok(AppMessage::Freq(2.0f32.to_bits())),
            Err(DispatchError::UnsupportedNesting),
            Ok(AppMessage::Freq(3.0f32.to_bits())),
        ]
    );
}

#[test]
fn error_address_dispatches_to_error_variant() {
    let payload = str_msg("/error", "something broke");
    let results = decode_datagram(&payload).expect("well-formed datagram");
    assert_eq!(results, vec![Ok(AppMessage::Error("something broke".to_string()))]);
}

#[test]
fn empty_bundle_yields_no_results() {
    let payload = bundle(42, &[]);
    let results = decode_datagram(&payload).expect("well-formed datagram");
    assert!(results.is_empty());
}

#[test]
fn parse_reconstructs_message_structure() {
    let mut payload = osc_str_bytes("/mix");
    payload.extend_from_slice(&osc_str_bytes(",isb"));
    payload.extend_from_slice(&(-7i32).to_be_bytes());
    payload.extend_from_slice(&osc_str_bytes("wet"));
    payload.extend_from_slice(&3u32.to_be_bytes());
    payload.extend_from_slice(&[10, 20, 30, 0]);
    let packet = parse_datagram(&payload).expect("well-formed datagram");
    assert_eq!(
        packet,
        OscPacket::Message(OscMessage {
            address: "/mix".to_string(),
            args: vec![
                OscValue::Int(-7),
                OscValue::Str("wet".to_string()),
                OscValue::Blob(vec![10, 20, 30]),
            ],
        })
    );
}

#[test]
fn parse_keeps_bundle_time_tag() {
    let payload = bundle(0x0123_4567_89AB_CDEF, &[float_msg("/freq", 5.0)]);
    match parse_datagram(&payload).expect("well-formed datagram") {
        OscPacket::Bundle(b) => {
            assert_eq!(b.time_tag, 0x0123_4567_89AB_CDEF);
            assert_eq!(b.children.len(), 1);
        },
        OscPacket::Message(_) => panic!("expected a bundle"),
    }
}

#[test]
fn nested_bundle_child_keeps_raw_bytes() {
    let inner = bundle(9, &[float_msg("/freq", 6.0)]);
    let payload = bundle(2, &[inner.clone()]);
    match parse_datagram(&payload).expect("well-formed datagram") {
        OscPacket::Bundle(b) => {
            assert_eq!(b.children, vec![OscChild::Nested(inner)]);
        },
        OscPacket::Message(_) => panic!("expected a bundle"),
    }
}

#[test]
fn dispatch_is_deterministic() {
    let m = OscMessage {
        address: "/freq".to_string(),
        args: vec![OscValue::Float(440.25f32.to_bits())],
    };
    let first = dispatch(&m);
    let second = dispatch(&m);
    assert_eq!(first, second);
    assert_eq!(first, Ok(AppMessage::Freq(440.25f32.to_bits())));
}

#[test]
fn dispatch_yields_exactly_one_outcome_kind() {
    let cases = vec![
        OscMessage { address: "/freq".to_string(), args: vec![OscValue::Float(0)] },
        OscMessage { address: "/freq".to_string(), args: vec![] },
        OscMessage { address: "/error".to_string(), args: vec![OscValue::Int(1)] },
        OscMessage { address: "/nope".to_string(), args: vec![OscValue::Blob(vec![])] },
    ];
    for m in &cases {
        let r = dispatch(m);
        let kinds = [
            matches!(r, Ok(_)),
            matches!(r, Err(DispatchError::UnknownAddress(_))),
            matches!(r, Err(DispatchError::ShapeMismatch { .. })),
            matches!(r, Err(DispatchError::UnsupportedNesting)),
        ];
        assert_eq!(kinds.iter().filter(|k| **k).count(), 1);
        assert!(!matches!(r, Err(DispatchError::UnsupportedNesting)));
    }
}

#[test]
fn flatten_maps_children_in_order() {
    let b = OscBundle {
        time_tag: 1,
        children: vec![
            OscChild::Message(OscMessage {
                address: "/freq".to_string(),
                args: vec![OscValue::Float(7.5f32.to_bits())],
            }),
            OscChild::Nested(b"#bundle\0fake".to_vec()),
        ],
    };
    let results = flatten(&b);
    assert_eq!(
        results,
        vec![
            Ok(AppMessage::Freq(7.5f32.to_bits())),
            Err(DispatchError::UnsupportedNesting),
        ]
    );
}

#[test]
fn shape_mismatch_reports_expected_and_actual() {
    let m = OscMessage {
        address: "/error".to_string(),
        args: vec![OscValue::Int(3), OscValue::Float(0)],
    };
    match dispatch(&m) {
        Err(DispatchError::ShapeMismatch { address, expected, actual }) => {
            assert_eq!(address, "/error");
            assert_eq!(expected, vec!['s']);
            assert_eq!(actual, vec!['i', 'f']);
        },
        other => panic!("expected a shape mismatch, got {:?}", other),
    }
}

#[test]
fn parse_rejects_truncated_buffer() {
    let framed = vec![0u8, 0, 0, 9, b'/', b'a', 0, 0];
    assert_eq!(parse(&framed), Err(ParseError::Malformed));
}

#[test]
fn parse_rejects_length_header_mismatch() {
    let payload = float_msg("/freq", 440.0);
    let mut framed = frame(&payload);
    framed[3] = framed[3].wrapping_add(4);
    assert_eq!(parse(&framed), Err(ParseError::Malformed));
}

#[test]
fn parse_rejects_unknown_type_tag() {
    let mut payload = osc_str_bytes("/freq");
    payload.extend_from_slice(&osc_str_bytes(",x"));
    payload.extend_from_slice(&[0, 0, 0, 0]);
    assert_eq!(decode_datagram(&payload), Err(ParseError::Malformed));
}

#[test]
fn parse_rejects_missing_comma_in_type_tags() {
    let mut payload = osc_str_bytes("/freq");
    payload.extend_from_slice(&osc_str_bytes("f"));
    payload.extend_from_slice(&440.0f32.to_bits().to_be_bytes());
    assert_eq!(decode_datagram(&payload), Err(ParseError::Malformed));
}

#[test]
fn parse_rejects_address_without_slash() {
    let payload = float_msg("freq", 440.0);
    assert_eq!(decode_datagram(&payload), Err(ParseError::Malformed));
}

#[test]
fn parse_rejects_nonzero_string_padding() {
    let mut payload = b"/freq\0\0\0".to_vec();
    payload[7] = 1;
    payload.extend_from_slice(&osc_str_bytes(",f"));
    payload.extend_from_slice(&440.0f32.to_bits().to_be_bytes());
    assert_eq!(decode_datagram(&payload), Err(ParseError::Malformed));
}

#[test]
fn parse_rejects_trailing_garbage_after_message() {
    let mut payload = float_msg("/freq", 440.0);
    payload.extend_from_slice(&[0, 0, 0, 0]);
    assert_eq!(decode_datagram(&payload), Err(ParseError::Malformed));
}

#[test]
fn parse_rejects_unterminated_address() {
    let payload = b"/abc".to_vec();
    assert_eq!(decode_datagram(&payload), Err(ParseError::Malformed));
}

#[test]
fn parse_rejects_truncated_blob() {
    let mut payload = osc_str_bytes("/mix");
    payload.extend_from_slice(&osc_str_bytes(",b"));
    payload.extend_from_slice(&100u32.to_be_bytes());
    payload.extend_from_slice(&[1, 2, 3, 4]);
    assert_eq!(decode_datagram(&payload), Err(ParseError::Malformed));
}

#[test]
fn parse_rejects_non_ascii_address_byte() {
    let mut payload = float_msg("/freq", 440.0);
    payload[1] = 0xC3;
    assert_eq!(decode_datagram(&payload), Err(ParseError::Malformed));
}

#[test]
fn parse_rejects_truncated_bundle_child() {
    let mut payload = b"#bundle\0".to_vec();
    payload.extend_from_slice(&0u64.to_be_bytes());
    payload.extend_from_slice(&32u32.to_be_bytes());
    payload.extend_from_slice(&osc_str_bytes("/freq"));
    assert_eq!(decode_datagram(&payload), Err(ParseError::Malformed));
}

#[test]
fn nested_bundle_decodes_when_sent_alone() {
    let inner = bundle(9, &[float_msg("/freq", 6.0)]);
    let results = decode_datagram(&inner).expect("well-formed datagram");
    assert_eq!(results, vec![Ok(AppMessage::Freq(6.0f32.to_bits()))]);
}

#[test]
fn empty_payload_is_malformed_not_a_panic() {
    let payload: Vec<u8> = Vec::new();
    assert_eq!(decode_datagram(&payload), Err(ParseError::Malformed));
}
