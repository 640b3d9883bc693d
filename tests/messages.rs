use neli::err::{DeError, Nlmsgerr, SerError};
use neli::msg::{
    deserialize_attrs, deserialize_frame, deserialize_msgs, serialize_attrs, serialize_msg,
    serialize_msg_bounded,
    Genlmsghdr, Nlattr, Nlmsghdr, NLA_F_NESTED, NLM_F_MULTI,
};
use neli::{Endian, Nl, NlDeState, NlSerState};

const O: Endian = Endian::Little;

fn attrs_bytes(attrs: &Vec<Nlattr>) -> Vec<u8> {
    let mut st = NlSerState::with_order(O);
    serialize_attrs(attrs, &mut st);
    st.into_inner()
}

#[test]
fn message_header_layout_and_round_trip() {
    let m = Nlmsghdr::new(0x10, 5, 7, 42, vec![1, 2, 3]);
    assert_eq!(m.nl_len, 19);
    let bytes = serialize_msg(&m, O);
    assert_eq!(
        bytes,
        vec![19, 0, 0, 0, 0x10, 0, 5, 0, 7, 0, 0, 0, 42, 0, 0, 0, 1, 2, 3, 0]
    );
    let back = deserialize_frame(&bytes, O).unwrap();
    assert_eq!(back.nl_len, 19);
    assert_eq!(back.nl_type, 0x10);
    assert_eq!(back.nl_flags, 5);
    assert_eq!(back.nl_seq, 7);
    assert_eq!(back.nl_pid, 42);
    assert_eq!(back.nl_payload, vec![1, 2, 3]);
    assert_eq!(m.size(), 19);
    assert_eq!(m.asize(), 20);
}

#[test]
fn short_declared_length_is_unexpected_eob() {
    let mut bytes = serialize_msg(&Nlmsghdr::new(1, 0, 0, 0, vec![]), O);
    bytes[0] = 12;
    assert!(matches!(deserialize_frame(&bytes, O), Err(DeError::UnexpectedEOB)));
    let bytes = serialize_msg(&Nlmsghdr::new(1, 0, 0, 0, vec![1, 2, 3, 4]), O);
    assert!(matches!(deserialize_frame(&bytes[..18], O), Err(DeError::UnexpectedEOB)));
}

#[test]
fn leftover_bytes_are_buffer_not_parsed() {
    let mut bytes = serialize_msg(&Nlmsghdr::new(1, 0, 0, 0, vec![1, 2, 3, 4]), O);
    bytes.extend_from_slice(&[0, 0, 0, 0]);
    assert!(matches!(deserialize_frame(&bytes, O), Err(DeError::BufferNotParsed)));
}

#[test]
fn several_messages_in_one_buffer() {
    let mut bytes = serialize_msg(&Nlmsghdr::new(20, NLM_F_MULTI, 1, 2, vec![9]), O);
    bytes.extend(serialize_msg(&Nlmsghdr::new(20, NLM_F_MULTI, 1, 2, vec![8, 7]), O));
    bytes.extend(serialize_msg(&Nlmsghdr::new(3, NLM_F_MULTI, 1, 2, vec![]), O));
    let ms = deserialize_msgs(&bytes, O).unwrap();
    assert_eq!(ms.len(), 3);
    assert_eq!(ms[0].nl_payload, vec![9]);
    assert_eq!(ms[1].nl_payload, vec![8, 7]);
    assert_eq!(ms[2].nl_type, 3);
}

#[test]
fn attribute_list_keeps_count_and_order() {
    let attrs = vec![
        Nlattr::new(1, vec![1]),
        Nlattr::new(2, vec![]),
        Nlattr::new(3, vec![1, 2, 3, 4, 5]),
    ];
    let bytes = attrs_bytes(&attrs);
    assert_eq!(bytes.len(), 8 + 4 + 12);
    assert_eq!(&bytes[..8], &[5, 0, 1, 0, 1, 0, 0, 0]);
    let back = deserialize_attrs(&bytes, O).unwrap();
    assert_eq!(back.len(), 3);
    assert_eq!(back[0].nla_type, 1);
    assert_eq!(back[0].payload, vec![1]);
    assert_eq!(back[1].nla_type, 2);
    assert_eq!(back[1].nla_len, 4);
    assert!(back[1].payload.is_empty());
    assert_eq!(back[2].nla_type, 3);
    assert_eq!(back[2].payload, vec![1, 2, 3, 4, 5]);
}

#[test]
fn truncated_attribute_list_fails() {
    let attrs = vec![Nlattr::new(1, vec![1, 2, 3, 4]), Nlattr::new(2, vec![5, 6, 7, 8])];
    let bytes = attrs_bytes(&attrs);
    for cut in 9..bytes.len() {
        assert!(matches!(deserialize_attrs(&bytes[..cut], O), Err(DeError::UnexpectedEOB)));
    }
}

#[test]
fn padding_bytes_are_not_read() {
    let attrs = vec![Nlattr::new(1, vec![1]), Nlattr::new(2, vec![2])];
    let mut bytes = attrs_bytes(&attrs);
    bytes[5] = 0xff;
    bytes[6] = 0xee;
    bytes[7] = 0xdd;
    let back = deserialize_attrs(&bytes, O).unwrap();
    assert_eq!(back.len(), 2);
    assert_eq!(back[0].payload, vec![1]);
    assert_eq!(back[1].payload, vec![2]);
}

#[test]
fn nested_attributes_decode_from_the_payload() {
    let inner = attrs_bytes(&vec![Nlattr::new(1, vec![4, 0, 0, 0])]);
    let outer = Nlattr::new(7 | NLA_F_NESTED, inner);
    assert!(outer.is_nested());
    assert_eq!(outer.kind(), 7);
    let nested = deserialize_attrs(&outer.payload, O).unwrap();
    assert_eq!(nested.len(), 1);
    assert_eq!(nested[0].payload, vec![4, 0, 0, 0]);
    assert!(!Nlattr::new(7, vec![]).is_nested());
}

#[test]
fn generic_header_round_trip() {
    let g = Genlmsghdr::new(3, 2, vec![Nlattr::new(2, b"nl80211\0".to_vec())]);
    let bytes = g.to_bytes(O);
    assert_eq!(&bytes[..4], &[3, 2, 0, 0]);
    assert_eq!(bytes.len(), 4 + 12);
    let back = Genlmsghdr::deserialize(&bytes, O).unwrap();
    assert_eq!(back.cmd, 3);
    assert_eq!(back.version, 2);
    assert_eq!(back.reserved, 0);
    assert_eq!(back.attrs.len(), 1);
    assert_eq!(back.attrs[0].payload, b"nl80211\0".to_vec());
    assert!(matches!(Genlmsghdr::deserialize(&bytes[..3], O), Err(DeError::UnexpectedEOB)));
}

#[test]
fn error_frame_round_trip() {
    let e = Nlmsgerr { error: -2, nlmsg: Nlmsghdr::new(0x10, 5, 9, 11, vec![]) };
    let mut st = NlSerState::with_order(Endian::Big);
    e.serialize(&mut st).unwrap();
    let bytes = st.into_inner();
    assert_eq!(bytes.len(), 20);
    assert_eq!(&bytes[..4], &[0xff, 0xff, 0xff, 0xfe]);
    let mut de = NlDeState::with_order(&bytes, Endian::Big);
    let back = Nlmsgerr::deserialize(&mut de).unwrap();
    assert_eq!(back.error, -2);
    assert_eq!(back.nlmsg.nl_len, 16);
    assert_eq!(back.nlmsg.nl_type, 0x10);
    assert_eq!(back.nlmsg.nl_seq, 9);
    assert_eq!(back.nlmsg.nl_pid, 11);
    assert!(!back.is_ack());
    assert_eq!(e.size(), 20);
}

#[test]
fn destination_too_small_is_unexpected_eob() {
    let m = Nlmsghdr::new(1, 0, 0, 0, vec![1, 2, 3]);
    assert_eq!(serialize_msg_bounded(&m, O, 20).unwrap().len(), 20);
    match serialize_msg_bounded(&m, O, 10) {
        Err(SerError::UnexpectedEOB(b)) => assert_eq!(b, vec![19, 0, 0, 0, 1, 0, 0, 0, 0, 0]),
        other => panic!("unexpected {:?}", other),
    }
}

#[test]
fn error_payload_must_be_exactly_the_echoed_header() {
    let e = Nlmsgerr { error: -1, nlmsg: Nlmsghdr::new(0x10, 5, 3, 4, vec![]) };
    let mut st = NlSerState::with_order(O);
    e.serialize(&mut st).unwrap();
    let mut bytes = st.into_inner();
    let back = Nlmsgerr::from_payload(&bytes, O).unwrap();
    assert_eq!(back.error, -1);
    assert_eq!(back.nlmsg.nl_len, 16);
    assert!(matches!(Nlmsgerr::from_payload(&bytes[..19], O), Err(DeError::UnexpectedEOB)));
    bytes.extend_from_slice(&[0, 0, 0, 0]);
    assert!(matches!(Nlmsgerr::from_payload(&bytes, O), Err(DeError::BufferNotParsed)));
    assert_eq!(Nlmsgerr::type_size(), Some(20));
}
