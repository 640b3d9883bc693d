//! The message envelope: the top-level header, attributes and the generic
//! netlink header.

use crate::codec::{
    align4, lemma_align4, lemma_u16_round_trip, lemma_u32_round_trip, read_u16, read_u32,
    u16_value, u16_wire, u32_value, u32_wire, Endian, Nl, NlDeState, NlSerState,
};
use crate::err::{DeError, SerError};
use vstd::prelude::*;
use vstd::slice::{slice_subrange, slice_to_vec};

verus! {

/// Size of the top-level message header.
pub const NLMSG_HDRLEN: usize = 16;

/// Size of an attribute's header.
pub const NLA_HDRLEN: usize = 4;

/// Size of the generic netlink header.
pub const GENL_HDRLEN: usize = 4;

/// Message type of an empty message.
pub const NLMSG_NOOP: u16 = 1;

/// Message type of an error frame.
pub const NLMSG_ERROR: u16 = 2;

/// Message type that ends a multipart response.
pub const NLMSG_DONE: u16 = 3;

/// Flag of a request.
pub const NLM_F_REQUEST: u16 = 1;

/// Flag of a part of a multipart response.
pub const NLM_F_MULTI: u16 = 2;

/// Flag that asks for an acknowledgement.
pub const NLM_F_ACK: u16 = 4;

/// Attribute type bit that marks a nested attribute list.
pub const NLA_F_NESTED: u16 = 0x8000;

/// Attribute type bit that marks a payload in network byte order.
pub const NLA_F_NET_BYTEORDER: u16 = 0x4000;

/// The bits of an attribute type that are its meaning.
pub const NLA_TYPE_MASK: u16 = 0x3fff;

/// `n` zero bytes.
pub open spec fn zeros(n: nat) -> Seq<u8> {
    Seq::new(n, |_i: int| 0u8)
}

/// `b` followed by the padding up to the next multiple of four.
pub open spec fn padded(b: Seq<u8>) -> Seq<u8> {
    b + zeros((align4(b.len()) - b.len()) as nat)
}

/// What a top-level message means: its length field is derived from the rest.
pub struct NlmsgView {
    pub ty: u16,
    pub flags: u16,
    pub seq: u32,
    pub pid: u32,
    pub payload: Seq<u8>,
}

/// Top-level netlink header with its payload.
#[derive(Debug)]
pub struct Nlmsghdr {
    /// Length of header and payload, without padding
    pub nl_len: u32,
    /// Message type
    pub nl_type: u16,
    /// Flags
    pub nl_flags: u16,
    /// Sequence number
    pub nl_seq: u32,
    /// Port id
    pub nl_pid: u32,
    /// Payload bytes
    pub nl_payload: Vec<u8>,
}

impl View for Nlmsghdr {
    type V = NlmsgView;

    open spec fn view(&self) -> NlmsgView {
        NlmsgView {
            ty: self.nl_type,
            flags: self.nl_flags,
            seq: self.nl_seq,
            pid: self.nl_pid,
            payload: self.nl_payload@,
        }
    }
}

impl Nlmsghdr {
    /// A message around `payload`, its length field set from the payload.
    pub fn new(nl_type: u16, nl_flags: u16, nl_seq: u32, nl_pid: u32, nl_payload: Vec<u8>) -> (r:
        Self)
        requires
            nl_payload@.len() + 16 <= u32::MAX,
        ensures
            r@ == (NlmsgView { ty: nl_type, flags: nl_flags, seq: nl_seq, pid: nl_pid, payload: nl_payload@ }),
            r.nl_len == nl_payload@.len() + 16,
    {
        let nl_len = (nl_payload.len() + NLMSG_HDRLEN) as u32;
        Nlmsghdr { nl_len, nl_type, nl_flags, nl_seq, nl_pid, nl_payload }
    }
}

impl Nl for Nlmsghdr {
    type Input = ();

    open spec fn wire(v: NlmsgView, order: Endian) -> Seq<u8> {
        u32_wire((v.payload.len() + 16) as u32, order) + u16_wire(v.ty, order) + u16_wire(
            v.flags,
            order,
        ) + u32_wire(v.seq, order) + u32_wire(v.pid, order) + v.payload
    }

    open spec fn spec_size(v: NlmsgView) -> nat {
        v.payload.len() + 16
    }

    open spec fn valid(v: NlmsgView) -> bool {
        v.payload.len() + 16 <= u32::MAX
    }

    open spec fn hint(v: NlmsgView) -> () {
        ()
    }

    open spec fn default_hint() -> () {
        ()
    }

    /// The length field comes first; the message is that many bytes, at least
    /// a header's worth.
    open spec fn parse(bytes: Seq<u8>, order: Endian, input: ()) -> Option<(NlmsgView, nat)> {
        if bytes.len() < 16 {
            None
        } else {
            let len = u32_value(bytes, order);
            if len < 16 || len > bytes.len() {
                None
            } else {
                Some(
                    (
                        NlmsgView {
                            ty: u16_value(bytes.subrange(4, 6), order),
                            flags: u16_value(bytes.subrange(6, 8), order),
                            seq: u32_value(bytes.subrange(8, 12), order),
                            pid: u32_value(bytes.subrange(12, 16), order),
                            payload: bytes.subrange(16, len as int),
                        },
                        len as nat,
                    ),
                )
            }
        }
    }

    proof fn lemma_wire_len(v: NlmsgView, order: Endian) {
    }

    proof fn lemma_round_trip(v: NlmsgView, order: Endian, tail: Seq<u8>) {
        let len = (v.payload.len() + 16) as u32;
        let a = u32_wire(len, order);
        let b = u16_wire(v.ty, order);
        let c = u16_wire(v.flags, order);
        let d = u32_wire(v.seq, order);
        let e = u32_wire(v.pid, order);
        let w = Self::wire(v, order) + tail;
        lemma_u32_round_trip(len, order, w.subrange(4, w.len() as int));
        lemma_u16_round_trip(v.ty, order, Seq::empty());
        lemma_u16_round_trip(v.flags, order, Seq::empty());
        lemma_u32_round_trip(v.seq, order, Seq::empty());
        lemma_u32_round_trip(v.pid, order, Seq::empty());
        assert(w =~= a + w.subrange(4, w.len() as int));
        assert(w.subrange(4, 6) =~= b + Seq::<u8>::empty());
        assert(w.subrange(6, 8) =~= c + Seq::<u8>::empty());
        assert(w.subrange(8, 12) =~= d + Seq::<u8>::empty());
        assert(w.subrange(12, 16) =~= e + Seq::<u8>::empty());
        assert(w.subrange(16, len as int) =~= v.payload);
    }

    fn serialize(&self, state: &mut NlSerState) -> (r: Result<(), SerError>) {
        let len = (self.nl_payload.len() + NLMSG_HDRLEN) as u32;
        let ghost s0 = state@;
        let _ = len.serialize(state);
        let _ = self.nl_type.serialize(state);
        let _ = self.nl_flags.serialize(state);
        let _ = self.nl_seq.serialize(state);
        let _ = self.nl_pid.serialize(state);
        let _ = self.nl_payload.serialize(state);
        assert(state@ =~= s0 + Self::wire(self@, state.order));
        Ok(())
    }

    fn deserialize_with(state: &mut NlDeState, input: ()) -> (r: Result<Nlmsghdr, DeError>) {
        let order = state.order;
        if state.remaining() < NLMSG_HDRLEN {
            return Err(DeError::UnexpectedEOB);
        }
        let rest = slice_subrange(state.buf, state.pos, state.buf.len());
        let len = read_u32(rest, order);
        if (len as usize) < NLMSG_HDRLEN || len as usize > state.remaining() {
            return Err(DeError::UnexpectedEOB);
        }
        let frame = state.take(len as usize);
        let nl_type = read_u16(slice_subrange(frame, 4, 6), order);
        let nl_flags = read_u16(slice_subrange(frame, 6, 8), order);
        let nl_seq = read_u32(slice_subrange(frame, 8, 12), order);
        let nl_pid = read_u32(slice_subrange(frame, 12, 16), order);
        let nl_payload = slice_to_vec(slice_subrange(frame, NLMSG_HDRLEN, len as usize));
        proof {
            assert(frame@.subrange(4, 6) =~= old(state).rest().subrange(4, 6));
            assert(frame@.subrange(6, 8) =~= old(state).rest().subrange(6, 8));
            assert(frame@.subrange(8, 12) =~= old(state).rest().subrange(8, 12));
            assert(frame@.subrange(12, 16) =~= old(state).rest().subrange(12, 16));
            assert(frame@.subrange(16, len as int) =~= old(state).rest().subrange(16, len as int));
        }
        Ok(Nlmsghdr { nl_len: len, nl_type, nl_flags, nl_seq, nl_pid, nl_payload })
    }

    fn default_input() -> (r: ()) {
        ()
    }

    fn size(&self) -> (r: usize) {
        self.nl_payload.len() + NLMSG_HDRLEN
    }
}

/// What an attribute means: its type field and its payload.
pub struct NlattrView {
    pub ty: u16,
    pub payload: Seq<u8>,
}

/// A type-length-value attribute.
#[derive(Debug)]
pub struct Nlattr {
    /// Length of header and payload, without padding
    pub nla_len: u16,
    /// Type, with the nested and byte-order bits on top
    pub nla_type: u16,
    /// Payload bytes
    pub payload: Vec<u8>,
}

impl View for Nlattr {
    type V = NlattrView;

    open spec fn view(&self) -> NlattrView {
        NlattrView { ty: self.nla_type, payload: self.payload@ }
    }
}

impl Nlattr {
    /// An attribute around `payload`, its length field set from the payload.
    pub fn new(nla_type: u16, payload: Vec<u8>) -> (r: Self)
        requires
            payload@.len() + 4 <= u16::MAX,
        ensures
            r@ == (NlattrView { ty: nla_type, payload: payload@ }),
            r.nla_len == payload@.len() + 4,
    {
        let nla_len = (payload.len() + NLA_HDRLEN) as u16;
        Nlattr { nla_len, nla_type, payload }
    }

    /// Whether the payload is a nested attribute list.
    pub fn is_nested(&self) -> (r: bool)
        ensures
            r == (self.nla_type & NLA_F_NESTED != 0),
    {
        self.nla_type & NLA_F_NESTED != 0
    }

    /// The type without the nested and byte-order bits.
    pub fn kind(&self) -> (r: u16)
        ensures
            r == self.nla_type & NLA_TYPE_MASK,
    {
        self.nla_type & NLA_TYPE_MASK
    }
}

impl Nl for Nlattr {
    type Input = ();

    open spec fn wire(v: NlattrView, order: Endian) -> Seq<u8> {
        u16_wire((v.payload.len() + 4) as u16, order) + u16_wire(v.ty, order) + v.payload
    }

    open spec fn spec_size(v: NlattrView) -> nat {
        v.payload.len() + 4
    }

    open spec fn valid(v: NlattrView) -> bool {
        v.payload.len() + 4 <= u16::MAX
    }

    open spec fn hint(v: NlattrView) -> () {
        ()
    }

    open spec fn default_hint() -> () {
        ()
    }

    /// The length field comes first; the attribute is that many bytes, at
    /// least a header's worth.
    open spec fn parse(bytes: Seq<u8>, order: Endian, input: ()) -> Option<(NlattrView, nat)> {
        if bytes.len() < 4 {
            None
        } else {
            let len = u16_value(bytes, order);
            if len < 4 || len > bytes.len() {
                None
            } else {
                Some(
                    (
                        NlattrView {
                            ty: u16_value(bytes.subrange(2, 4), order),
                            payload: bytes.subrange(4, len as int),
                        },
                        len as nat,
                    ),
                )
            }
        }
    }

    proof fn lemma_wire_len(v: NlattrView, order: Endian) {
    }

    proof fn lemma_round_trip(v: NlattrView, order: Endian, tail: Seq<u8>) {
        let len = (v.payload.len() + 4) as u16;
        let a = u16_wire(len, order);
        let b = u16_wire(v.ty, order);
        let w = Self::wire(v, order) + tail;
        lemma_u16_round_trip(len, order, w.subrange(2, w.len() as int));
        lemma_u16_round_trip(v.ty, order, Seq::empty());
        assert(w =~= a + w.subrange(2, w.len() as int));
        assert(w.subrange(2, 4) =~= b + Seq::<u8>::empty());
        assert(w.subrange(4, len as int) =~= v.payload);
    }

    fn serialize(&self, state: &mut NlSerState) -> (r: Result<(), SerError>) {
        let len = (self.payload.len() + NLA_HDRLEN) as u16;
        let ghost s0 = state@;
        let _ = len.serialize(state);
        let _ = self.nla_type.serialize(state);
        let _ = self.payload.serialize(state);
        assert(state@ =~= s0 + Self::wire(self@, state.order));
        Ok(())
    }

    fn deserialize_with(state: &mut NlDeState, input: ()) -> (r: Result<Nlattr, DeError>) {
        let order = state.order;
        if state.remaining() < NLA_HDRLEN {
            return Err(DeError::UnexpectedEOB);
        }
        let rest = slice_subrange(state.buf, state.pos, state.buf.len());
        let len = read_u16(rest, order);
        if (len as usize) < NLA_HDRLEN || len as usize > state.remaining() {
            return Err(DeError::UnexpectedEOB);
        }
        let frame = state.take(len as usize);
        let nla_type = read_u16(slice_subrange(frame, 2, 4), order);
        let payload = slice_to_vec(slice_subrange(frame, NLA_HDRLEN, len as usize));
        proof {
            assert(frame@.subrange(2, 4) =~= old(state).rest().subrange(2, 4));
            assert(frame@.subrange(4, len as int) =~= old(state).rest().subrange(4, len as int));
        }
        Ok(Nlattr { nla_len: len, nla_type, payload })
    }

    fn default_input() -> (r: ()) {
        ()
    }

    fn size(&self) -> (r: usize) {
        self.payload.len() + NLA_HDRLEN
    }
}

/// The views of a list of attributes.
pub open spec fn attr_views(v: Seq<Nlattr>) -> Seq<NlattrView> {
    v.map_values(|a: Nlattr| a@)
}

/// Each attribute of the list can be encoded.
pub open spec fn attrs_valid(s: Seq<NlattrView>) -> bool {
    forall|i: int| 0 <= i < s.len() ==> #[trigger] Nlattr::valid(s[i])
}

/// The encoding of an attribute list: each attribute padded to four bytes.
pub open spec fn attrs_wire(s: Seq<NlattrView>, order: Endian) -> Seq<u8>
    decreases s.len(),
{
    if s.len() == 0 {
        Seq::empty()
    } else {
        padded(Nlattr::wire(s[0], order)) + attrs_wire(s.drop_first(), order)
    }
}

/// How far the cursor moves past an attribute of length `len`: to the next
/// multiple of four, or to the end of the bytes if that comes first.
pub open spec fn attr_step(len: nat, avail: nat) -> nat {
    if align4(len) <= avail {
        align4(len)
    } else {
        avail
    }
}

/// Decoding an attribute list: attributes one after the other until no bytes
/// remain; the padding after each is skipped and not looked at.
#[verifier::opaque]
pub open spec fn attrs_parse(b: Seq<u8>, order: Endian) -> Option<Seq<NlattrView>>
    decreases b.len(),
    via attrs_parse_decreases
{
    if b.len() == 0 {
        Some(Seq::empty())
    } else {
        match Nlattr::parse(b, order, ()) {
            None => None,
            Some((a, n)) => match attrs_parse(b.subrange(attr_step(n, b.len()) as int, b.len() as int), order) {
                Some(rest) => Some(seq![a] + rest),
                None => None,
            },
        }
    }
}

#[via_fn]
proof fn attrs_parse_decreases(b: Seq<u8>, order: Endian) {
    if b.len() != 0 {
        if let Some((a, n)) = Nlattr::parse(b, order, ()) {
            lemma_align4(n);
        }
    }
}

/// Appending an attribute appends its padded encoding.
pub proof fn lemma_attrs_wire_push(s: Seq<NlattrView>, a: NlattrView, order: Endian)
    ensures
        attrs_wire(s.push(a), order) == attrs_wire(s, order) + padded(Nlattr::wire(a, order)),
    decreases s.len(),
{
    if s.len() == 0 {
        assert(s.push(a).drop_first() =~= Seq::<NlattrView>::empty());
        assert(attrs_wire(s.push(a).drop_first(), order) == Seq::<u8>::empty());
        assert(s.push(a)[0] == a);
        assert(attrs_wire(s.push(a), order) =~= padded(Nlattr::wire(a, order)));
    } else {
        lemma_attrs_wire_push(s.drop_first(), a, order);
        assert(s.push(a).drop_first() =~= s.drop_first().push(a));
        assert(attrs_wire(s.push(a), order) =~= attrs_wire(s, order) + padded(
            Nlattr::wire(a, order),
        ));
    }
}

/// Decoding a padded attribute followed by more bytes gives the attribute,
/// then what the rest decodes to.
pub proof fn lemma_attrs_parse_step(a: NlattrView, rest: Seq<u8>, order: Endian)
    requires
        Nlattr::valid(a),
    ensures
        attrs_parse(padded(Nlattr::wire(a, order)) + rest, order) == match attrs_parse(rest, order) {
            Some(x) => Some(seq![a] + x),
            None => None,
        },
{
    reveal(attrs_parse);
    let aw = Nlattr::wire(a, order);
    let pad = zeros((align4(aw.len()) - aw.len()) as nat);
    let w = padded(aw) + rest;
    lemma_align4(aw.len());
    assert(w =~= aw + (pad + rest));
    Nlattr::lemma_round_trip(a, order, pad + rest);
    Nlattr::lemma_wire_len(a, order);
    let step = attr_step(aw.len(), w.len());
    assert(step == align4(aw.len()));
    assert(w.subrange(step as int, w.len() as int) =~= rest);
}

/// Decoding attributes after a well-formed attribute list decodes that list
/// first and then the rest, and fails where the rest fails.
#[verifier::rlimit(30)]
pub proof fn lemma_attrs_parse_append(s: Seq<NlattrView>, t: Seq<u8>, order: Endian)
    requires
        attrs_valid(s),
    ensures
        attrs_parse(attrs_wire(s, order) + t, order) == match attrs_parse(t, order) {
            Some(x) => Some(s + x),
            None => None,
        },
    decreases s.len(),
{
    if s.len() == 0 {
        assert(attrs_wire(s, order) + t =~= t);
        assert(attrs_parse(attrs_wire(s, order) + t, order) == attrs_parse(t, order));
        match attrs_parse(t, order) {
            Some(x) => {
                assert(s + x =~= x);
            },
            None => {},
        }
    } else {
        let a = s[0];
        let tl = s.drop_first();
        let rest = attrs_wire(tl, order) + t;
        assert(attrs_valid(tl)) by {
            assert forall|i: int| 0 <= i < tl.len() implies #[trigger] Nlattr::valid(tl[i]) by {
                assert(tl[i] == s[i + 1]);
                assert(Nlattr::valid(s[i + 1]));
            }
        }
        assert(Nlattr::valid(s[0]));
        assert(attrs_wire(s, order) + t =~= padded(Nlattr::wire(a, order)) + rest);
        lemma_attrs_parse_step(a, rest, order);
        lemma_attrs_parse_append(tl, t, order);
        match attrs_parse(t, order) {
            Some(x) => {
                assert(seq![a] + (tl + x) =~= s + x);
            },
            None => {},
        }
    }
}

/// Decoding the concatenated, individually padded encodings of a list of
/// attributes gives back exactly that list, in its order.
pub proof fn lemma_attrs_round_trip(s: Seq<NlattrView>, order: Endian)
    requires
        attrs_valid(s),
    ensures
        attrs_parse(attrs_wire(s, order), order) == Some(s),
{
    reveal(attrs_parse);
    lemma_attrs_parse_append(s, Seq::empty(), order);
    assert(attrs_wire(s, order) + Seq::<u8>::empty() =~= attrs_wire(s, order));
    assert(s + Seq::<NlattrView>::empty() =~= s);
}

/// The bytes that pad an attribute are skipped without being looked at:
/// whatever they hold, the list decodes as with zero padding.
pub proof fn lemma_padding_ignored(a: NlattrView, pad: Seq<u8>, rest: Seq<u8>, order: Endian)
    requires
        Nlattr::valid(a),
        pad.len() == align4(Nlattr::wire(a, order).len()) - Nlattr::wire(a, order).len(),
    ensures
        attrs_parse(Nlattr::wire(a, order) + pad + rest, order) == attrs_parse(
            padded(Nlattr::wire(a, order)) + rest,
            order,
        ),
{
    reveal(attrs_parse);
    let aw = Nlattr::wire(a, order);
    let w1 = aw + pad + rest;
    let w2 = padded(aw) + rest;
    let zp = zeros((align4(aw.len()) - aw.len()) as nat);
    lemma_align4(aw.len());
    assert(w1 =~= aw + (pad + rest));
    assert(w2 =~= aw + (zp + rest));
    Nlattr::lemma_round_trip(a, order, pad + rest);
    Nlattr::lemma_round_trip(a, order, zp + rest);
    Nlattr::lemma_wire_len(a, order);
    assert(attr_step(aw.len(), w1.len()) == align4(aw.len()));
    assert(attr_step(aw.len(), w2.len()) == align4(aw.len()));
    assert(w1.subrange(align4(aw.len()) as int, w1.len() as int) =~= rest);
    assert(w2.subrange(align4(aw.len()) as int, w2.len() as int) =~= rest);
}

/// An attribute list whose last attribute is cut short, inside its header or
/// its payload, does not decode.
pub proof fn lemma_attrs_truncated(s: Seq<NlattrView>, last: NlattrView, cut: int, order: Endian)
    requires
        attrs_valid(s),
        Nlattr::valid(last),
        0 < cut < Nlattr::wire(last, order).len(),
    ensures
        attrs_parse(attrs_wire(s, order) + Nlattr::wire(last, order).subrange(0, cut), order)
            is None,
{
    reveal(attrs_parse);
    let t = Nlattr::wire(last, order).subrange(0, cut);
    lemma_attrs_parse_append(s, t, order);
    if cut >= 4 {
        let len = (last.payload.len() + 4) as u16;
        lemma_u16_round_trip(len, order, Nlattr::wire(last, order).subrange(2, Nlattr::wire(last, order).len() as int));
        assert(Nlattr::wire(last, order) =~= u16_wire(len, order) + Nlattr::wire(last, order).subrange(2, Nlattr::wire(last, order).len() as int));
        assert(t[0] == Nlattr::wire(last, order)[0] && t[1] == Nlattr::wire(last, order)[1]);
        assert(u16_value(t, order) == len);
    }
}

/// Writes each attribute followed by its padding.
pub fn serialize_attrs(attrs: &Vec<Nlattr>, state: &mut NlSerState)
    requires
        attrs_valid(attr_views(attrs@)),
    ensures
        final(state)@ == old(state)@ + attrs_wire(attr_views(attrs@), old(state).order),
        final(state).order == old(state).order,
{
    let ghost views = attr_views(attrs@);
    let mut i: usize = 0;
    assert(views.take(0) =~= Seq::<NlattrView>::empty());
    while i < attrs.len()
        invariant
            i <= attrs@.len(),
            views == attr_views(attrs@),
            attrs_valid(views),
            state@ == old(state)@ + attrs_wire(views.take(i as int), old(state).order),
            state.order == old(state).order,
        decreases attrs@.len() - i,
    {
        let a = &attrs[i];
        assert(Nlattr::valid(views[i as int]));
        let ghost before = state@;
        let _ = a.serialize(state);
        let size = a.size();
        let aligned = a.asize();
        state.pad(aligned - size);
        proof {
            lemma_attrs_wire_push(views.take(i as int), views[i as int], state.order);
            assert(views.take(i + 1) =~= views.take(i as int).push(views[i as int]));
            assert(state@ =~= old(state)@ + attrs_wire(views.take(i + 1), old(state).order));
        }
        i = i + 1;
    }
    assert(views.take(i as int) =~= views);
}

/// Decodes an attribute list that runs to the end of `b`.
pub fn deserialize_attrs(b: &[u8], order: Endian) -> (r: Result<Vec<Nlattr>, DeError>)
    ensures
        match attrs_parse(b@, order) {
            Some(s) => r is Ok && attr_views(r->Ok_0@) == s,
            None => r == Err::<Vec<Nlattr>, DeError>(DeError::UnexpectedEOB),
        },
{
    let mut st = NlDeState::with_order(b, order);
    let mut out: Vec<Nlattr> = Vec::new();
    assert(st.rest() =~= b@);
    reveal(attrs_parse);
    while st.remaining() > 0
        invariant
            st.wf(),
            st.buf@ == b@,
            st.order == order,
            attrs_parse(b@, order) == match attrs_parse(st.rest(), order) {
                Some(s) => Some(attr_views(out@) + s),
                None => None,
            },
        decreases st.rest().len(),
    {
        proof {
            reveal(attrs_parse);
        }
        let ghost rest0 = st.rest();
        let before = st.pos;
        let a = match Nlattr::deserialize(&mut st) {
            Ok(a) => a,
            Err(e) => {
                return Err(e);
            },
        };
        let n = st.pos - before;
        let avail = st.remaining();
        let mut skip = crate::codec::padding(n);
        if skip > avail {
            skip = avail;
        }
        let _ = st.take(skip);
        proof {
            lemma_align4(n as nat);
            assert(attr_step(n as nat, rest0.len()) == n + skip);
            assert(st.rest() =~= rest0.subrange((n + skip) as int, rest0.len() as int));
            assert(attr_views(out@.push(a)) =~= attr_views(out@).push(a@));
            assert(attr_views(out@).push(a@) + Seq::<NlattrView>::empty() =~= attr_views(out@) + seq![a@]);
            match attrs_parse(st.rest(), order) {
                Some(s) => {
                    assert(attr_views(out@.push(a)) + s =~= attr_views(out@) + (seq![a@] + s));
                },
                None => {},
            }
        }
        out.push(a);
    }
    assert(attr_views(out@) + Seq::<NlattrView>::empty() =~= attr_views(out@));
    Ok(out)
}

/// What a generic netlink header means, with its attributes.
pub struct GenlView {
    pub cmd: u8,
    pub version: u8,
    pub reserved: u16,
    pub attrs: Seq<NlattrView>,
}

/// Generic netlink header and the attribute list after it.
#[derive(Debug)]
pub struct Genlmsghdr {
    /// Command
    pub cmd: u8,
    /// Interface version
    pub version: u8,
    /// Reserved
    pub reserved: u16,
    /// Attributes
    pub attrs: Vec<Nlattr>,
}

impl View for Genlmsghdr {
    type V = GenlView;

    open spec fn view(&self) -> GenlView {
        GenlView {
            cmd: self.cmd,
            version: self.version,
            reserved: self.reserved,
            attrs: attr_views(self.attrs@),
        }
    }
}

/// The encoding of a generic netlink header and its attributes.
pub open spec fn genl_wire(v: GenlView, order: Endian) -> Seq<u8> {
    seq![v.cmd, v.version] + u16_wire(v.reserved, order) + attrs_wire(v.attrs, order)
}

/// Decoding a generic netlink payload: the fixed fields, then attributes to
/// the end of the bytes.
pub open spec fn genl_parse(b: Seq<u8>, order: Endian) -> Option<GenlView> {
    if b.len() < 4 {
        None
    } else {
        match attrs_parse(b.subrange(4, b.len() as int), order) {
            Some(attrs) => Some(
                GenlView {
                    cmd: b[0],
                    version: b[1],
                    reserved: u16_value(b.subrange(2, 4), order),
                    attrs,
                },
            ),
            None => None,
        }
    }
}

/// Decoding the encoding of a generic netlink header gives it back.
pub proof fn lemma_genl_round_trip(v: GenlView, order: Endian)
    requires
        attrs_valid(v.attrs),
    ensures
        genl_parse(genl_wire(v, order), order) == Some(v),
{
    let w = genl_wire(v, order);
    let aw = attrs_wire(v.attrs, order);
    lemma_u16_round_trip(v.reserved, order, Seq::empty());
    assert(w.subrange(2, 4) =~= u16_wire(v.reserved, order) + Seq::<u8>::empty());
    assert(w.subrange(4, w.len() as int) =~= aw);
    lemma_attrs_round_trip(v.attrs, order);
}

impl Genlmsghdr {
    /// A header with reserved bits zero.
    pub fn new(cmd: u8, version: u8, attrs: Vec<Nlattr>) -> (r: Self)
        ensures
            r@ == (GenlView { cmd, version, reserved: 0, attrs: attr_views(attrs@) }),
    {
        Genlmsghdr { cmd, version, reserved: 0, attrs }
    }

    /// Writes the header and its attributes.
    pub fn serialize(&self, state: &mut NlSerState)
        requires
            attrs_valid(self@.attrs),
        ensures
            final(state)@ == old(state)@ + genl_wire(self@, old(state).order),
            final(state).order == old(state).order,
    {
        let ghost s0 = state@;
        let _ = self.cmd.serialize(state);
        let _ = self.version.serialize(state);
        let _ = self.reserved.serialize(state);
        serialize_attrs(&self.attrs, state);
        assert(state@ =~= s0 + genl_wire(self@, state.order));
    }

    /// The bytes of the header and its attributes, to stand as a message payload.
    pub fn to_bytes(&self, order: Endian) -> (r: Vec<u8>)
        requires
            attrs_valid(self@.attrs),
        ensures
            r@ == genl_wire(self@, order),
    {
        let mut st = NlSerState::with_order(order);
        self.serialize(&mut st);
        st.into_inner()
    }

    /// Decodes a generic netlink payload that runs to the end of `b`.
    pub fn deserialize(b: &[u8], order: Endian) -> (r: Result<Genlmsghdr, DeError>)
        ensures
            match genl_parse(b@, order) {
                Some(v) => r is Ok && r->Ok_0@ == v,
                None => r == Err::<Genlmsghdr, DeError>(DeError::UnexpectedEOB),
            },
    {
        if b.len() < GENL_HDRLEN {
            return Err(DeError::UnexpectedEOB);
        }
        let reserved = read_u16(slice_subrange(b, 2, 4), order);
        let attrs = deserialize_attrs(slice_subrange(b, GENL_HDRLEN, b.len()), order)?;
        Ok(Genlmsghdr { cmd: b[0], version: b[1], reserved, attrs })
    }
}

/// Decoding a received buffer: messages one after the other, each followed by
/// padding up to four bytes, until no bytes remain.
pub open spec fn msgs_parse(b: Seq<u8>, order: Endian) -> Option<Seq<NlmsgView>>
    decreases b.len(),
    via msgs_parse_decreases
{
    if b.len() == 0 {
        Some(Seq::empty())
    } else {
        match Nlmsghdr::parse(b, order, ()) {
            None => None,
            Some((m, n)) => match msgs_parse(b.subrange(attr_step(n, b.len()) as int, b.len() as int), order) {
                Some(rest) => Some(seq![m] + rest),
                None => None,
            },
        }
    }
}

#[via_fn]
proof fn msgs_parse_decreases(b: Seq<u8>, order: Endian) {
    if b.len() != 0 {
        if let Some((m, n)) = Nlmsghdr::parse(b, order, ()) {
            lemma_align4(n);
        }
    }
}

/// The views of a list of messages.
pub open spec fn msg_views(v: Seq<Nlmsghdr>) -> Seq<NlmsgView> {
    v.map_values(|m: Nlmsghdr| m@)
}

/// The encoding of a list of messages, each padded to four bytes, as one
/// buffer holds them.
pub open spec fn msgs_wire(s: Seq<NlmsgView>, order: Endian) -> Seq<u8>
    decreases s.len(),
{
    if s.len() == 0 {
        Seq::empty()
    } else {
        padded(Nlmsghdr::wire(s[0], order)) + msgs_wire(s.drop_first(), order)
    }
}

/// Each message of the list can be encoded.
pub open spec fn msgs_valid(s: Seq<NlmsgView>) -> bool {
    forall|i: int| 0 <= i < s.len() ==> #[trigger] Nlmsghdr::valid(s[i])
}

/// Decoding a padded message followed by more bytes gives the message, then
/// what the rest decodes to.
pub proof fn lemma_msgs_parse_step(m: NlmsgView, rest: Seq<u8>, order: Endian)
    requires
        Nlmsghdr::valid(m),
    ensures
        msgs_parse(padded(Nlmsghdr::wire(m, order)) + rest, order) == match msgs_parse(rest, order) {
            Some(x) => Some(seq![m] + x),
            None => None,
        },
{
    let mw = Nlmsghdr::wire(m, order);
    let pad = zeros((align4(mw.len()) - mw.len()) as nat);
    let w = padded(mw) + rest;
    lemma_align4(mw.len());
    assert(w =~= mw + (pad + rest));
    Nlmsghdr::lemma_round_trip(m, order, pad + rest);
    Nlmsghdr::lemma_wire_len(m, order);
    let step = attr_step(mw.len(), w.len());
    assert(step == align4(mw.len()));
    assert(w.subrange(step as int, w.len() as int) =~= rest);
}

/// Decoding a buffer that holds a list of messages, each padded, gives back
/// exactly that list, in its order.
pub proof fn lemma_msgs_round_trip(s: Seq<NlmsgView>, order: Endian)
    requires
        msgs_valid(s),
    ensures
        msgs_parse(msgs_wire(s, order), order) == Some(s),
    decreases s.len(),
{
    if s.len() == 0 {
        assert(s =~= Seq::<NlmsgView>::empty());
    } else {
        let tl = s.drop_first();
        assert(msgs_valid(tl)) by {
            assert forall|i: int| 0 <= i < tl.len() implies #[trigger] Nlmsghdr::valid(tl[i]) by {
                assert(tl[i] == s[i + 1]);
                assert(Nlmsghdr::valid(s[i + 1]));
            }
        }
        assert(Nlmsghdr::valid(s[0]));
        lemma_msgs_round_trip(tl, order);
        lemma_msgs_parse_step(s[0], msgs_wire(tl, order), order);
        assert(seq![s[0]] + tl =~= s);
    }
}

/// Splits a received buffer into its messages.
pub fn deserialize_msgs(b: &[u8], order: Endian) -> (r: Result<Vec<Nlmsghdr>, DeError>)
    ensures
        match msgs_parse(b@, order) {
            Some(s) => r is Ok && msg_views(r->Ok_0@) == s,
            None => r == Err::<Vec<Nlmsghdr>, DeError>(DeError::UnexpectedEOB),
        },
{
    let mut st = NlDeState::with_order(b, order);
    let mut out: Vec<Nlmsghdr> = Vec::new();
    assert(st.rest() =~= b@);
    while st.remaining() > 0
        invariant
            st.wf(),
            st.buf@ == b@,
            st.order == order,
            msgs_parse(b@, order) == match msgs_parse(st.rest(), order) {
                Some(s) => Some(msg_views(out@) + s),
                None => None,
            },
        decreases st.rest().len(),
    {
        let ghost rest0 = st.rest();
        let before = st.pos;
        let m = match Nlmsghdr::deserialize(&mut st) {
            Ok(m) => m,
            Err(e) => {
                return Err(e);
            },
        };
        let n = st.pos - before;
        let avail = st.remaining();
        let mut skip = crate::codec::padding(n);
        if skip > avail {
            skip = avail;
        }
        let _ = st.take(skip);
        proof {
            lemma_align4(n as nat);
            assert(attr_step(n as nat, rest0.len()) == n + skip);
            assert(st.rest() =~= rest0.subrange((n + skip) as int, rest0.len() as int));
            match msgs_parse(st.rest(), order) {
                Some(s) => {
                    assert(msg_views(out@.push(m)) + s =~= msg_views(out@) + (seq![m@] + s));
                },
                None => {},
            }
        }
        out.push(m);
    }
    assert(msg_views(out@) + Seq::<NlmsgView>::empty() =~= msg_views(out@));
    Ok(out)
}

/// Decodes exactly one message from a frame; bytes left after it and its
/// padding are an error.
pub fn deserialize_frame(b: &[u8], order: Endian) -> (r: Result<Nlmsghdr, DeError>)
    ensures
        match Nlmsghdr::parse(b@, order, ()) {
            Some((m, n)) => if attr_step(n, b@.len()) == b@.len() {
                r is Ok && r->Ok_0@ == m
            } else {
                r == Err::<Nlmsghdr, DeError>(DeError::BufferNotParsed)
            },
            None => r == Err::<Nlmsghdr, DeError>(DeError::UnexpectedEOB),
        },
{
    let mut st = NlDeState::with_order(b, order);
    assert(st.rest() =~= b@);
    let m = Nlmsghdr::deserialize(&mut st)?;
    let n = st.pos;
    let avail = st.remaining();
    proof {
        lemma_align4(n as nat);
    }
    if crate::codec::padding(n) < avail {
        return Err(DeError::BufferNotParsed);
    }
    Ok(m)
}

/// The bytes of a message followed by its padding, as sent on the socket.
pub fn serialize_msg(m: &Nlmsghdr, order: Endian) -> (r: Vec<u8>)
    requires
        Nlmsghdr::valid(m@),
    ensures
        r@ == padded(Nlmsghdr::wire(m@, order)),
{
    let mut st = NlSerState::with_order(order);
    let _ = m.serialize(&mut st);
    let n = m.size();
    st.pad(crate::codec::padding(n));
    st.into_inner()
}

/// The bytes of a message and its padding, into a destination of `limit`
/// bytes; where they do not fit, the error hands back the part that does.
pub fn serialize_msg_bounded(m: &Nlmsghdr, order: Endian, limit: usize) -> (r: Result<Vec<u8>, SerError>)
    requires
        Nlmsghdr::valid(m@),
    ensures
        padded(Nlmsghdr::wire(m@, order)).len() <= limit ==> (r is Ok && r->Ok_0@ == padded(
            Nlmsghdr::wire(m@, order),
        )),
        padded(Nlmsghdr::wire(m@, order)).len() > limit ==> (r matches Err(SerError::UnexpectedEOB(b))
            && b@ == padded(Nlmsghdr::wire(m@, order)).subrange(0, limit as int)),
{
    let mut bytes = serialize_msg(m, order);
    if bytes.len() <= limit {
        Ok(bytes)
    } else {
        bytes.truncate(limit);
        Err(SerError::UnexpectedEOB(bytes))
    }
}

} // verus!
