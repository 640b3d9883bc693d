use neli::err::{NlError, Nlmsgerr};
use neli::msg::{serialize_attrs, Genlmsghdr, Nlattr, Nlmsghdr, NLA_F_NESTED, NLMSG_DONE, NLMSG_ERROR, NLM_F_MULTI};
use neli::session::{
    ctrl_getfamily_request, group_flag, resolve_family_id, resolve_mcast_group, Exchange, Step,
};
use neli::{Endian, Nl, NlSerState};

const O: Endian = Endian::Little;

fn attrs_bytes(attrs: &Vec<Nlattr>) -> Vec<u8> {
    let mut st = NlSerState::with_order(O);
    serialize_attrs(attrs, &mut st);
    st.into_inner()
}

fn error_frame(code: i32, seq: u32, pid: u32) -> Nlmsghdr {
    let e = Nlmsgerr { error: code, nlmsg: Nlmsghdr::new(0x10, 5, seq, pid, vec![]) };
    let mut st = NlSerState::with_order(O);
    e.serialize(&mut st).unwrap();
    Nlmsghdr::new(NLMSG_ERROR, 0, seq, pid, st.into_inner())
}

fn group_entry(name: &str, id: u32) -> Nlattr {
    let mut n = name.as_bytes().to_vec();
    n.push(0);
    let fields = attrs_bytes(&vec![Nlattr::new(1, n), Nlattr::new(2, id.to_le_bytes().to_vec())]);
    Nlattr::new(NLA_F_NESTED | 1, fields)
}

fn ctrl_response() -> Genlmsghdr {
    let groups = attrs_bytes(&vec![group_entry("rtnl", 0), group_entry("mcast", 7)]);
    Genlmsghdr::new(
        1,
        2,
        vec![
            Nlattr::new(2, b"fam\0".to_vec()),
            Nlattr::new(1, 0x1cu16.to_le_bytes().to_vec()),
            Nlattr::new(NLA_F_NESTED | 7, groups),
        ],
    )
}

#[test]
fn zero_code_is_an_acknowledgement() {
    let mut ex = Exchange::new(4, 100, true, false);
    assert!(matches!(ex.on_frame(error_frame(0, 4, 100), O), Step::End));
    assert!(ex.ended);
    assert!(ex.on_stream_end().is_none());
}

#[test]
fn nonzero_code_is_a_failure_with_that_code() {
    let mut ex = Exchange::new(4, 100, true, false);
    match ex.on_frame(error_frame(-17, 4, 100), O) {
        Step::Fail(NlError::Nlmsgerr(e)) => {
            assert_eq!(e.error, -17);
            assert_eq!(e.nlmsg.nl_seq, 4);
        }
        other => panic!("unexpected {:?}", other),
    }
    assert!(ex.ended);
}

#[test]
fn short_error_frame_is_a_decode_failure() {
    let mut ex = Exchange::new(4, 100, false, false);
    let m = Nlmsghdr::new(NLMSG_ERROR, 0, 4, 100, vec![0, 0, 0]);
    assert!(matches!(
        ex.on_frame(m, O),
        Step::Fail(NlError::De(neli::err::DeError::UnexpectedEOB))
    ));
}

#[test]
fn wrong_sequence_is_bad_seq() {
    let mut ex = Exchange::new(4, 100, false, false);
    let m = Nlmsghdr::new(20, 0, 5, 100, vec![1, 2, 3, 4]);
    assert!(matches!(ex.on_frame(m, O), Step::Fail(NlError::BadSeq)));
    let ex = Exchange::new(4, 100, false, true);
    let m = Nlmsghdr::new(20, 0, 5, 0, vec![]);
    assert!(matches!(ex.check_correlation(&m), Err(NlError::BadSeq)));
}

#[test]
fn wrong_port_is_bad_pid_unless_multicast() {
    let mut ex = Exchange::new(4, 100, false, false);
    let m = Nlmsghdr::new(20, 0, 4, 0, vec![]);
    assert!(matches!(ex.on_frame(m, O), Step::Fail(NlError::BadPid)));
    let mut ex = Exchange::new(4, 100, false, true);
    let m = Nlmsghdr::new(20, 0, 4, 0, vec![1]);
    match ex.on_frame(m, O) {
        Step::Item(x) => assert_eq!(x.nl_payload, vec![1]),
        other => panic!("unexpected {:?}", other),
    }
}

#[test]
fn multipart_ends_at_done() {
    let frames = vec![
        Nlmsghdr::new(20, NLM_F_MULTI, 9, 1, vec![1]),
        Nlmsghdr::new(20, NLM_F_MULTI, 9, 1, vec![2]),
        Nlmsghdr::new(20, NLM_F_MULTI, 9, 1, vec![3]),
        Nlmsghdr::new(NLMSG_DONE, NLM_F_MULTI, 9, 1, vec![0, 0, 0, 0]),
    ];
    let mut ex = Exchange::new(9, 1, false, false);
    let items = ex.collect(frames, O).unwrap();
    assert_eq!(items.len(), 3);
    assert_eq!(items[0].nl_payload, vec![1]);
    assert_eq!(items[1].nl_payload, vec![2]);
    assert_eq!(items[2].nl_payload, vec![3]);
    assert!(ex.ended);
    let more = ex.collect(vec![Nlmsghdr::new(20, NLM_F_MULTI, 9, 1, vec![4])], O).unwrap();
    assert!(more.is_empty());
}

#[test]
fn single_response_ends_the_exchange() {
    let mut ex = Exchange::new(9, 1, false, false);
    let items = ex
        .collect(vec![Nlmsghdr::new(20, 0, 9, 1, vec![1]), Nlmsghdr::new(20, 0, 9, 1, vec![2])], O)
        .unwrap();
    assert_eq!(items.len(), 1);
}

#[test]
fn collect_stops_at_a_failure() {
    let mut ex = Exchange::new(9, 1, false, false);
    let r = ex.collect(
        vec![Nlmsghdr::new(20, NLM_F_MULTI, 9, 1, vec![1]), Nlmsghdr::new(20, NLM_F_MULTI, 8, 1, vec![2])],
        O,
    );
    assert!(matches!(r, Err(NlError::BadSeq)));
}

#[test]
fn no_frame_for_an_ack_request_is_no_ack() {
    let mut ex = Exchange::new(9, 1, true, false);
    assert!(matches!(ex.on_stream_end(), Some(NlError::NoAck)));
    let mut ex = Exchange::new(9, 1, false, false);
    assert!(ex.on_stream_end().is_none());
}

#[test]
fn resolve_group_by_name() {
    let g = ctrl_response();
    assert_eq!(resolve_mcast_group(&g, b"mcast", O).unwrap(), 7);
    assert_eq!(resolve_mcast_group(&g, b"rtnl", O).unwrap(), 0);
    assert!(matches!(resolve_mcast_group(&g, b"missing", O), Err(NlError::NotFound)));
    assert!(matches!(resolve_mcast_group(&g, b"mcas", O), Err(NlError::NotFound)));
    assert_eq!(resolve_family_id(&g, O).unwrap(), 0x1c);
    let empty = Genlmsghdr::new(1, 2, vec![]);
    assert!(matches!(resolve_mcast_group(&empty, b"mcast", O), Err(NlError::NotFound)));
    assert!(matches!(resolve_family_id(&empty, O), Err(NlError::NotFound)));
}

#[test]
fn oversized_group_id_is_refused() {
    assert!(matches!(group_flag(33), Err(NlError::GroupOutOfRange(33))));
    assert!(matches!(group_flag(32), Err(NlError::GroupOutOfRange(32))));
    assert_eq!(group_flag(31).unwrap(), 1 << 31);
    assert_eq!(group_flag(7).unwrap(), 128);
    assert_eq!(group_flag(0).unwrap(), 1);
}

#[test]
fn getfamily_request_layout() {
    let m = ctrl_getfamily_request(b"nlctrl", 3, 0, O);
    assert_eq!(m.nl_type, 0x10);
    assert_eq!(m.nl_flags, 5);
    assert_eq!(m.nl_seq, 3);
    assert_eq!(m.nl_len as usize, 16 + 4 + 12);
    let g = Genlmsghdr::deserialize(&m.nl_payload, O).unwrap();
    assert_eq!(g.cmd, 3);
    assert_eq!(g.attrs[0].nla_type, 2);
    assert_eq!(g.attrs[0].payload, b"nlctrl\0".to_vec());
}

#[test]
fn ack_request_stays_open_until_the_ack() {
    let mut ex = Exchange::new(5, 1, true, false);
    assert!(matches!(ex.on_frame(Nlmsghdr::new(20, 0, 5, 1, vec![1]), O), Step::Item(_)));
    assert!(!ex.ended);
    assert!(matches!(ex.on_frame(error_frame(0, 5, 1), O), Step::End));
    assert!(ex.ended);
    assert!(matches!(ex.on_frame(Nlmsghdr::new(20, 0, 5, 1, vec![1]), O), Step::End));
}

#[test]
fn error_frame_with_leftover_bytes_is_a_decode_failure() {
    let mut m = error_frame(0, 4, 100);
    m.nl_payload.extend_from_slice(&[1, 2, 3, 4]);
    let m = Nlmsghdr::new(m.nl_type, m.nl_flags, m.nl_seq, m.nl_pid, m.nl_payload);
    let mut ex = Exchange::new(4, 100, true, false);
    assert!(matches!(
        ex.on_frame(m, O),
        Step::Fail(NlError::De(neli::err::DeError::BufferNotParsed))
    ));
    assert!(ex.ended);
}
