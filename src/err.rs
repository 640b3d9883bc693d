//! Error types, and the frame in which the kernel reports an error.
//!
//! * `NlError`: protocol and session failures
//! * `DeError`: failures while decoding
//! * `SerError`: failures while encoding, carrying the buffer back to the caller
//!
//! `Nlmsgerr` is what a netlink socket answers with when a request failed, or
//! when an acknowledgement was asked for; its code is zero in the latter case.

use crate::codec::{lemma_u32_round_trip, read_u16, read_u32, u16_value, u16_wire, u32_value, u32_wire, Endian, Nl, NlDeState, NlSerState};
use vstd::prelude::*;
use vstd::slice::slice_subrange;

verus! {

/// What an error frame means: the code and the echoed request header.
pub struct NlmsgerrView {
    pub error: i32,
    pub len: u32,
    pub ty: u16,
    pub flags: u16,
    pub seq: u32,
    pub pid: u32,
    /// Payload of the echoed header; the kernel echoes none
    pub payload: Seq<u8>,
}

/// The payload of an error frame: the kernel's code (zero for an
/// acknowledgement) and the header of the request it answers.
#[derive(Debug)]
pub struct Nlmsgerr {
    /// Error code, zero or a negated errno
    pub error: libc::c_int,
    /// Header of the request, its payload not echoed
    pub nlmsg: crate::msg::Nlmsghdr,
}

impl View for Nlmsgerr {
    type V = NlmsgerrView;

    open spec fn view(&self) -> NlmsgerrView {
        NlmsgerrView {
            error: self.error,
            len: self.nlmsg.nl_len,
            ty: self.nlmsg.nl_type,
            flags: self.nlmsg.nl_flags,
            seq: self.nlmsg.nl_seq,
            pid: self.nlmsg.nl_pid,
            payload: self.nlmsg.nl_payload@,
        }
    }
}

/// What decoding the whole payload `b` of an error frame gives: the code and
/// the echoed header, with no bytes left over.
pub open spec fn nlmsgerr_payload(b: Seq<u8>, order: Endian) -> Result<NlmsgerrView, DeError> {
    if b.len() < 20 {
        Err(DeError::UnexpectedEOB)
    } else if b.len() > 20 {
        Err(DeError::BufferNotParsed)
    } else {
        Ok(Nlmsgerr::parse(b, order, ()).unwrap().0)
    }
}

impl Nlmsgerr {
    /// The encoded size, the same for every value.
    pub fn type_size() -> (r: Option<usize>)
        ensures
            r == Some(20usize),
            forall|v: NlmsgerrView| #[trigger] Nlmsgerr::spec_size(v) == 20,
    {
        Some(20)
    }

    /// Decodes the whole payload of an error frame: the kernel echoes only the
    /// request's header, so bytes after it are an error.
    pub fn from_payload(b: &[u8], order: Endian) -> (r: Result<Nlmsgerr, DeError>)
        ensures
            match nlmsgerr_payload(b@, order) {
                Ok(v) => r is Ok && r->Ok_0@ == v,
                Err(e) => r is Err && r->Err_0 == e,
            },
    {
        let mut st = NlDeState::with_order(b, order);
        assert(st.rest() =~= b@);
        let e = Nlmsgerr::deserialize(&mut st)?;
        if st.remaining() > 0 {
            return Err(DeError::BufferNotParsed);
        }
        Ok(e)
    }

    /// A code of zero acknowledges the request rather than reporting a failure.
    pub fn is_ack(&self) -> (r: bool)
        ensures
            r == (self.error == 0),
    {
        self.error == 0
    }
}

/// As a value in a stream, an error frame's payload is the code and the
/// echoed header, 20 bytes; `Nlmsgerr::from_payload` decodes a whole payload.
impl Nl for Nlmsgerr {
    type Input = ();

    open spec fn wire(v: NlmsgerrView, order: Endian) -> Seq<u8> {
        u32_wire(v.error as u32, order) + u32_wire(v.len, order) + u16_wire(v.ty, order)
            + u16_wire(v.flags, order) + u32_wire(v.seq, order) + u32_wire(v.pid, order)
    }

    open spec fn spec_size(v: NlmsgerrView) -> nat {
        20
    }

    /// The echoed header carries no payload.
    open spec fn valid(v: NlmsgerrView) -> bool {
        v.payload.len() == 0
    }

    open spec fn hint(v: NlmsgerrView) -> () {
        ()
    }

    open spec fn default_hint() -> () {
        ()
    }

    open spec fn parse(bytes: Seq<u8>, order: Endian, input: ()) -> Option<(NlmsgerrView, nat)> {
        if bytes.len() < 20 {
            None
        } else {
            Some(
                (
                    NlmsgerrView {
                        error: u32_value(bytes, order) as i32,
                        len: u32_value(bytes.subrange(4, 8), order),
                        ty: u16_value(bytes.subrange(8, 10), order),
                        flags: u16_value(bytes.subrange(10, 12), order),
                        seq: u32_value(bytes.subrange(12, 16), order),
                        pid: u32_value(bytes.subrange(16, 20), order),
                        payload: Seq::empty(),
                    },
                    20,
                ),
            )
        }
    }

    proof fn lemma_wire_len(v: NlmsgerrView, order: Endian) {
    }

    proof fn lemma_round_trip(v: NlmsgerrView, order: Endian, tail: Seq<u8>) {
        let w = Self::wire(v, order) + tail;
        let e = v.error;
        lemma_u32_round_trip(e as u32, order, w.subrange(4, w.len() as int));
        lemma_u32_round_trip(v.len, order, Seq::empty());
        crate::codec::lemma_u16_round_trip(v.ty, order, Seq::empty());
        crate::codec::lemma_u16_round_trip(v.flags, order, Seq::empty());
        lemma_u32_round_trip(v.seq, order, Seq::empty());
        lemma_u32_round_trip(v.pid, order, Seq::empty());
        assert(w =~= u32_wire(e as u32, order) + w.subrange(4, w.len() as int));
        assert(((e as u32) as i32) == e) by (bit_vector);
        assert(v.payload =~= Seq::<u8>::empty());
        assert(w.subrange(4, 8) =~= u32_wire(v.len, order) + Seq::<u8>::empty());
        assert(w.subrange(8, 10) =~= u16_wire(v.ty, order) + Seq::<u8>::empty());
        assert(w.subrange(10, 12) =~= u16_wire(v.flags, order) + Seq::<u8>::empty());
        assert(w.subrange(12, 16) =~= u32_wire(v.seq, order) + Seq::<u8>::empty());
        assert(w.subrange(16, 20) =~= u32_wire(v.pid, order) + Seq::<u8>::empty());
    }

    fn serialize(&self, state: &mut NlSerState) -> (r: Result<(), SerError>) {
        let ghost s0 = state@;
        let code = self.error as u32;
        let _ = code.serialize(state);
        let _ = self.nlmsg.nl_len.serialize(state);
        let _ = self.nlmsg.nl_type.serialize(state);
        let _ = self.nlmsg.nl_flags.serialize(state);
        let _ = self.nlmsg.nl_seq.serialize(state);
        let _ = self.nlmsg.nl_pid.serialize(state);
        assert(state@ =~= s0 + Self::wire(self@, state.order));
        Ok(())
    }

    fn deserialize_with(state: &mut NlDeState, input: ()) -> (r: Result<Nlmsgerr, DeError>) {
        let order = state.order;
        if state.remaining() < 20 {
            return Err(DeError::UnexpectedEOB);
        }
        let b = state.take(20);
        let error = read_u32(b, order) as i32;
        let nl_len = read_u32(slice_subrange(b, 4, 8), order);
        let nl_type = read_u16(slice_subrange(b, 8, 10), order);
        let nl_flags = read_u16(slice_subrange(b, 10, 12), order);
        let nl_seq = read_u32(slice_subrange(b, 12, 16), order);
        let nl_pid = read_u32(slice_subrange(b, 16, 20), order);
        proof {
            let rest = old(state).rest();
            assert(b@.subrange(4, 8) =~= rest.subrange(4, 8));
            assert(b@.subrange(8, 10) =~= rest.subrange(8, 10));
            assert(b@.subrange(10, 12) =~= rest.subrange(10, 12));
            assert(b@.subrange(12, 16) =~= rest.subrange(12, 16));
            assert(b@.subrange(16, 20) =~= rest.subrange(16, 20));
        }
        let nlmsg = crate::msg::Nlmsghdr { nl_len, nl_type, nl_flags, nl_seq, nl_pid, nl_payload: Vec::new() };
        Ok(Nlmsgerr { error, nlmsg })
    }

    fn default_input() -> (r: ()) {
        ()
    }

    fn size(&self) -> (r: usize) {
        20
    }
}

/// Protocol and session error.
#[derive(Debug)]
pub enum NlError {
    /// Arbitrary error message
    Msg(String),
    /// Description of an error from lower in the call stack
    Wrapped(String),
    /// No acknowledgement came though the request asked for one
    NoAck,
    /// The sequence number of the response differs from the request's
    BadSeq,
    /// The port id of the response differs from the socket's
    BadPid,
    /// The kernel answered with a nonzero error code
    Nlmsgerr(Nlmsgerr),
    /// A family or multicast group name was not found
    NotFound,
    /// A multicast group id is too large for the membership mask
    GroupOutOfRange(u32),
    /// Encoding failed
    Ser(SerError),
    /// Decoding failed
    De(DeError),
}

impl NlError {
    /// An error with `s` as its message.
    pub fn new(s: &str) -> (r: Self)
        ensures
            r matches NlError::Msg(m) && m@ == s@,
    {
        NlError::Msg(s.to_string())
    }
}

/// Decoding error.
#[derive(Debug)]
pub enum DeError {
    /// Arbitrary error message
    Msg(String),
    /// Description of an error from lower in the call stack
    Wrapped(String),
    /// The end of the buffer was reached before decoding finished
    UnexpectedEOB,
    /// Bytes were left over after a value that should have used them all
    BufferNotParsed,
    /// A null byte was found before the end of a serialized string
    NullError,
    /// No null byte was found at the end of a serialized string
    NoNullError,
}

impl DeError {
    /// An error with `s` as its message.
    pub fn new(s: &str) -> (r: Self)
        ensures
            r matches DeError::Msg(m) && m@ == s@,
    {
        DeError::Msg(s.to_string())
    }
}

/// Encoding error; each variant hands the buffer back.
#[derive(Debug)]
pub enum SerError {
    /// Arbitrary error message
    Msg(String, Vec<u8>),
    /// Description of an error from lower in the call stack
    Wrapped(String, Vec<u8>),
    /// The end of the buffer was reached before encoding finished
    UnexpectedEOB(Vec<u8>),
    /// The bytes written did not fill the space the value declared
    BufferNotFilled(Vec<u8>),
}

impl SerError {
    /// The buffer the error carries.
    pub open spec fn bytes(&self) -> Seq<u8> {
        match self {
            SerError::Msg(_, b) => b@,
            SerError::Wrapped(_, b) => b@,
            SerError::UnexpectedEOB(b) => b@,
            SerError::BufferNotFilled(b) => b@,
        }
    }

    /// The same kind of error with another buffer.
    pub open spec fn same_kind(&self, other: &SerError) -> bool {
        match (self, other) {
            (SerError::Msg(m, _), SerError::Msg(n, _)) => m@ == n@,
            (SerError::Wrapped(m, _), SerError::Wrapped(n, _)) => m@ == n@,
            (SerError::UnexpectedEOB(_), SerError::UnexpectedEOB(_)) => true,
            (SerError::BufferNotFilled(_), SerError::BufferNotFilled(_)) => true,
            _ => false,
        }
    }

    /// An error with `msg` as its message, carrying `bytes`.
    pub fn new(msg: &str, bytes: Vec<u8>) -> (r: Self)
        ensures
            r matches SerError::Msg(m, b) && m@ == msg@ && b@ == bytes@,
    {
        SerError::Msg(msg.to_string(), bytes)
    }

    /// Puts back the parts of the buffer that were split off before and after
    /// the part this error carries, so that the error reaches the caller with
    /// the whole buffer.
    pub fn reconstruct(self, start: Option<Vec<u8>>, end: Option<Vec<u8>>) -> (r: Self)
        ensures
            r.same_kind(&self),
            r.bytes() == (match start {
                Some(s) => s@,
                None => Seq::<u8>::empty(),
            }) + self.bytes() + (match end {
                Some(e) => e@,
                None => Seq::<u8>::empty(),
            }),
    {
        let ghost old_self = self;
        let (kind, mut b) = self.split();
        let mut whole = match start {
            Some(s) => s,
            None => Vec::new(),
        };
        let ghost front = whole@;
        whole.append(&mut b);
        match end {
            Some(mut e) => whole.append(&mut e),
            None => {},
        }
        let r = kind.rejoin(whole);
        proof {
            assert(r.bytes() =~= front + old_self.bytes() + (match end {
                Some(e) => e@,
                None => Seq::<u8>::empty(),
            }));
        }
        r
    }

    /// Separates the error from its buffer.
    fn split(self) -> (r: (SerErrorKind, Vec<u8>))
        ensures
            r.1@ == self.bytes(),
            r.0.rejoin_spec(r.1).same_kind(&self),
    {
        match self {
            SerError::Msg(m, b) => (SerErrorKind::Msg(m), b),
            SerError::Wrapped(m, b) => (SerErrorKind::Wrapped(m), b),
            SerError::UnexpectedEOB(b) => (SerErrorKind::UnexpectedEOB, b),
            SerError::BufferNotFilled(b) => (SerErrorKind::BufferNotFilled, b),
        }
    }
}

/// A `SerError` without its buffer.
enum SerErrorKind {
    Msg(String),
    Wrapped(String),
    UnexpectedEOB,
    BufferNotFilled,
}

impl SerErrorKind {
    spec fn rejoin_spec(self, b: Vec<u8>) -> SerError {
        match self {
            SerErrorKind::Msg(m) => SerError::Msg(m, b),
            SerErrorKind::Wrapped(m) => SerError::Wrapped(m, b),
            SerErrorKind::UnexpectedEOB => SerError::UnexpectedEOB(b),
            SerErrorKind::BufferNotFilled => SerError::BufferNotFilled(b),
        }
    }

    fn rejoin(self, b: Vec<u8>) -> (r: SerError)
        ensures
            r == self.rejoin_spec(b),
    {
        match self {
            SerErrorKind::Msg(m) => SerError::Msg(m, b),
            SerErrorKind::Wrapped(m) => SerError::Wrapped(m, b),
            SerErrorKind::UnexpectedEOB => SerError::UnexpectedEOB(b),
            SerErrorKind::BufferNotFilled => SerError::BufferNotFilled(b),
        }
    }
}

} // verus!
