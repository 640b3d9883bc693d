//! The decisions of a netlink session, apart from the socket itself.
//!
//! A session sends a request and reads frames until the exchange ends. What
//! each frame means for the exchange (an item, the end, or a failure) is
//! decided here from the frame and the state of the exchange; reading and
//! writing the socket is left to the caller.

use crate::codec::{align4, lemma_align4, read_u16, read_u32, u16_value, u32_value, u32_wire, Endian, Nl};
use crate::err::{DeError, NlError, Nlmsgerr};
use crate::msg::{
    attr_views, attrs_parse, attrs_valid, attrs_wire, lemma_attrs_round_trip, NLA_F_NESTED, deserialize_attrs, genl_wire, GenlView, msg_views, Genlmsghdr, Nlattr, NlattrView, Nlmsghdr,
    NlmsgView, NLA_TYPE_MASK, NLM_F_MULTI, NLMSG_DONE, NLMSG_ERROR,
};
use vstd::prelude::*;
use vstd::slice::slice_to_vec;

verus! {

/// Attribute of a control family response: the family's numeric id.
pub const CTRL_ATTR_FAMILY_ID: u16 = 1;

/// Attribute of a control family response: the nested list of multicast groups.
pub const CTRL_ATTR_MCAST_GROUPS: u16 = 7;

/// Attribute of a multicast group entry: its name, ending in a null byte.
pub const CTRL_ATTR_MCAST_GRP_NAME: u16 = 1;

/// Attribute of a multicast group entry: its numeric id.
pub const CTRL_ATTR_MCAST_GRP_ID: u16 = 2;

/// Message type of the generic netlink control family.
pub const GENL_ID_CTRL: u16 = 0x10;

/// Control family command that asks for a family by name.
pub const CTRL_CMD_GETFAMILY: u8 = 3;

/// Attribute of a control family request: the family's name, ending in a null byte.
pub const CTRL_ATTR_FAMILY_NAME: u16 = 2;

/// Number of group ids that the membership mask can hold.
pub const MAX_GROUP_ID: u32 = 31;

/// The state of one exchange: what the request was, and how far it got.
#[derive(Clone, Copy, Debug, PartialEq, Eq, Structural)]
pub struct Exchange {
    /// Sequence number of the request
    pub seq: u32,
    /// Port id the socket is bound to
    pub pid: u32,
    /// Whether the request asked for an acknowledgement
    pub ack: bool,
    /// Whether frames come from a joined multicast group
    pub multicast: bool,
    /// Whether a frame has arrived
    pub got_frame: bool,
    /// Whether the exchange is over
    pub ended: bool,
}

/// What a frame means for an exchange.
#[derive(Clone, Copy, Debug, PartialEq, Eq, Structural)]
pub enum Outcome {
    /// A payload message to hand to the caller
    Item,
    /// The exchange is over (done frame, acknowledgement, or already ended)
    End,
    /// The sequence number is not the request's
    BadSeq,
    /// The port id is not the socket's
    BadPid,
    /// The kernel reported this nonzero error code
    Kernel(i32),
    /// An error frame too short to decode
    Malformed,
    /// An error frame with bytes after the echoed header
    Leftover,
}

/// The outcome of a frame `m` in exchange `ex`.
pub open spec fn outcome(ex: Exchange, m: NlmsgView, order: Endian) -> Outcome {
    if ex.ended {
        Outcome::End
    } else if m.seq != ex.seq {
        Outcome::BadSeq
    } else if m.pid != ex.pid && !ex.multicast {
        Outcome::BadPid
    } else if m.ty == NLMSG_ERROR {
        match crate::err::nlmsgerr_payload(m.payload, order) {
            Err(DeError::BufferNotParsed) => Outcome::Leftover,
            Err(_) => Outcome::Malformed,
            Ok(e) => if e.error == 0 {
                Outcome::End
            } else {
                Outcome::Kernel(e.error)
            },
        }
    } else if m.ty == NLMSG_DONE {
        Outcome::End
    } else {
        Outcome::Item
    }
}

/// The exchange after frame `m`: it ends on anything but an item, and after an
/// item that is not part of a multipart response unless an acknowledgement is
/// still to come.
pub open spec fn next_state(ex: Exchange, m: NlmsgView, order: Endian) -> Exchange {
    if ex.ended {
        ex
    } else {
        Exchange {
            got_frame: true,
            ended: outcome(ex, m, order) != Outcome::Item || (m.flags & NLM_F_MULTI == 0
                && !ex.ack),
            ..ex
        }
    }
}

/// What a step hands back for a frame.
#[derive(Debug)]
pub enum Step {
    /// A payload message
    Item(Nlmsghdr),
    /// The exchange is over
    End,
    /// The exchange failed
    Fail(NlError),
}

/// `e` is the error that the failing outcome `o` stands for.
pub open spec fn fail_agrees(e: NlError, o: Outcome) -> bool {
    match o {
        Outcome::BadSeq => e is BadSeq,
        Outcome::BadPid => e is BadPid,
        Outcome::Kernel(c) => e matches NlError::Nlmsgerr(x) && x.error == c,
        Outcome::Malformed => e matches NlError::De(DeError::UnexpectedEOB),
        Outcome::Leftover => e matches NlError::De(DeError::BufferNotParsed),
        _ => false,
    }
}

/// `r` is what the outcome `o` of frame `m` hands back.
pub open spec fn step_agrees(r: Step, o: Outcome, m: NlmsgView) -> bool {
    match o {
        Outcome::Item => r matches Step::Item(x) && x@ == m,
        Outcome::End => r is End,
        _ => r matches Step::Fail(e) && fail_agrees(e, o),
    }
}

/// The items and the end of an exchange fed `ms` from state `ex`: `None` where
/// it ended well, or the failing outcome.
pub open spec fn run(ex: Exchange, ms: Seq<NlmsgView>, order: Endian) -> (Seq<NlmsgView>, Option<Outcome>)
    decreases ms.len(),
{
    if ms.len() == 0 {
        (Seq::empty(), None)
    } else {
        let o = outcome(ex, ms[0], order);
        match o {
            Outcome::Item => {
                let (items, fail) = run(next_state(ex, ms[0], order), ms.drop_first(), order);
                (seq![ms[0]] + items, fail)
            },
            Outcome::End => (Seq::empty(), None),
            _ => (Seq::empty(), Some(o)),
        }
    }
}

/// The state an exchange is in after `ms`.
pub open spec fn run_state(ex: Exchange, ms: Seq<NlmsgView>, order: Endian) -> Exchange
    decreases ms.len(),
{
    if ms.len() == 0 {
        ex
    } else if outcome(ex, ms[0], order) == Outcome::Item {
        run_state(next_state(ex, ms[0], order), ms.drop_first(), order)
    } else {
        next_state(ex, ms[0], order)
    }
}

/// An error frame that answers the exchange is an acknowledgement when its
/// code is zero, and otherwise a failure that carries its code; bytes after
/// the echoed header make it a decoding failure instead.
pub proof fn lemma_error_frame_outcome(ex: Exchange, m: NlmsgView, e: crate::err::NlmsgerrView, tail: Seq<u8>, order: Endian)
    requires
        !ex.ended,
        m.seq == ex.seq,
        m.pid == ex.pid || ex.multicast,
        m.ty == NLMSG_ERROR,
        Nlmsgerr::valid(e),
        m.payload == Nlmsgerr::wire(e, order) + tail,
    ensures
        tail.len() == 0 && e.error == 0 ==> outcome(ex, m, order) == Outcome::End,
        tail.len() == 0 && e.error != 0 ==> outcome(ex, m, order) == Outcome::Kernel(e.error),
        tail.len() > 0 ==> outcome(ex, m, order) == Outcome::Leftover,
        next_state(ex, m, order).ended,
{
    Nlmsgerr::lemma_round_trip(e, order, tail);
}

/// A frame whose sequence number is not the request's is refused, however it
/// is formed; a frame from a joined multicast group is never refused for its
/// port id.
pub proof fn lemma_correlation(ex: Exchange, m: NlmsgView, order: Endian)
    requires
        !ex.ended,
    ensures
        m.seq != ex.seq ==> outcome(ex, m, order) == Outcome::BadSeq,
        ex.multicast ==> outcome(ex, m, order) != Outcome::BadPid,
        m.seq == ex.seq && m.pid != ex.pid && !ex.multicast ==> outcome(ex, m, order)
            == Outcome::BadPid,
{
}

/// Each of `items` answers exchange `ex` as a part of a multipart response
/// that carries a payload.
pub open spec fn multipart_items(ex: Exchange, items: Seq<NlmsgView>) -> bool {
    forall|i: int|
        0 <= i < items.len() ==> {
            &&& #[trigger] items[i].seq == ex.seq
            &&& items[i].pid == ex.pid || ex.multicast
            &&& items[i].ty != NLMSG_ERROR
            &&& items[i].ty != NLMSG_DONE
            &&& items[i].flags & NLM_F_MULTI != 0
        }
}

/// The parts of a multipart response followed by its done frame give exactly
/// the parts, in order, and end the exchange; frames after the done frame are
/// not looked at.
pub proof fn lemma_multipart_ends_at_done(
    ex: Exchange,
    items: Seq<NlmsgView>,
    done: NlmsgView,
    later: Seq<NlmsgView>,
    order: Endian,
)
    requires
        !ex.ended,
        multipart_items(ex, items),
        done.seq == ex.seq,
        done.pid == ex.pid || ex.multicast,
        done.ty == NLMSG_DONE,
    ensures
        run(ex, items.push(done) + later, order) == (items, None::<Outcome>),
        run_state(ex, items.push(done) + later, order).ended,
    decreases items.len(),
{
    let ms = items.push(done) + later;
    if items.len() == 0 {
        assert(ms[0] == done);
        assert(items =~= Seq::<NlmsgView>::empty());
    } else {
        let m = items[0];
        assert(ms[0] == m);
        assert(m.seq == ex.seq);
        let ex2 = next_state(ex, m, order);
        assert(outcome(ex, m, order) == Outcome::Item);
        assert(!ex2.ended);
        let tl = items.drop_first();
        assert(multipart_items(ex2, tl)) by {
            assert forall|i: int| 0 <= i < tl.len() implies #[trigger] tl[i].seq == ex2.seq by {
                assert(tl[i] == items[i + 1]);
                assert(items[i + 1].seq == ex.seq);
            }
            assert forall|i: int| 0 <= i < tl.len() implies {
                &&& #[trigger] tl[i].seq == ex2.seq
                &&& tl[i].pid == ex2.pid || ex2.multicast
                &&& tl[i].ty != NLMSG_ERROR
                &&& tl[i].ty != NLMSG_DONE
                &&& tl[i].flags & NLM_F_MULTI != 0
            } by {
                assert(tl[i] == items[i + 1]);
                assert(items[i + 1].seq == ex.seq);
            }
        }
        assert(ms.drop_first() =~= tl.push(done) + later);
        lemma_multipart_ends_at_done(ex2, tl, done, later, order);
        assert(seq![m] + tl =~= items);
    }
}

/// An exchange that has ended gives nothing more, whatever frames follow.
pub proof fn lemma_ended_gives_nothing(ex: Exchange, ms: Seq<NlmsgView>, order: Endian)
    requires
        ex.ended,
    ensures
        run(ex, ms, order) == (Seq::<NlmsgView>::empty(), None::<Outcome>),
        run_state(ex, ms, order) == ex,
{
}

impl Exchange {
    /// An exchange for a request with sequence number `seq` on a socket bound
    /// to port `pid`.
    pub fn new(seq: u32, pid: u32, ack: bool, multicast: bool) -> (r: Self)
        ensures
            r == (Exchange { seq, pid, ack, multicast, got_frame: false, ended: false }),
    {
        Exchange { seq, pid, ack, multicast, got_frame: false, ended: false }
    }

    /// Checks that a frame answers this exchange: the sequence number always,
    /// the port id unless the frame came from a multicast group.
    pub fn check_correlation(&self, m: &Nlmsghdr) -> (r: Result<(), NlError>)
        ensures
            m.nl_seq != self.seq ==> r matches Err(NlError::BadSeq),
            m.nl_seq == self.seq && m.nl_pid != self.pid && !self.multicast ==> r matches Err(
                NlError::BadPid,
            ),
            m.nl_seq == self.seq && (m.nl_pid == self.pid || self.multicast) ==> r is Ok,
    {
        if m.nl_seq != self.seq {
            Err(NlError::BadSeq)
        } else if m.nl_pid != self.pid && !self.multicast {
            Err(NlError::BadPid)
        } else {
            Ok(())
        }
    }

    /// Takes in one frame.
    pub fn on_frame(&mut self, m: Nlmsghdr, order: Endian) -> (r: Step)
        ensures
            *final(self) == next_state(*old(self), m@, order),
            step_agrees(r, outcome(*old(self), m@, order), m@),
    {
        if self.ended {
            return Step::End;
        }
        let ghost mv = m@;
        self.got_frame = true;
        if let Err(e) = self.check_correlation(&m) {
            self.ended = true;
            return Step::Fail(e);
        }
        if m.nl_type == NLMSG_ERROR {
            self.ended = true;
            match Nlmsgerr::from_payload(m.nl_payload.as_slice(), order) {
                Err(e) => Step::Fail(NlError::De(e)),
                Ok(e) => if e.is_ack() {
                    Step::End
                } else {
                    Step::Fail(NlError::Nlmsgerr(e))
                },
            }
        } else if m.nl_type == NLMSG_DONE {
            self.ended = true;
            Step::End
        } else {
            self.ended = m.nl_flags & NLM_F_MULTI == 0 && !self.ack;
            Step::Item(m)
        }
    }

    /// Takes in the end of the stream: an exchange that asked for an
    /// acknowledgement and got no frame at all fails.
    pub fn on_stream_end(&mut self) -> (r: Option<NlError>)
        ensures
            final(self).ended,
            r is Some <==> (!old(self).ended && old(self).ack && !old(self).got_frame),
            r is Some ==> r matches Some(NlError::NoAck),
    {
        let missing = !self.ended && self.ack && !self.got_frame;
        self.ended = true;
        if missing {
            Some(NlError::NoAck)
        } else {
            None
        }
    }

    /// Feeds the frames read for this exchange, in order, and gives the
    /// payload messages they carry up to the end of the exchange, or its
    /// failure.
    pub fn collect(&mut self, frames: Vec<Nlmsghdr>, order: Endian) -> (r: Result<
        Vec<Nlmsghdr>,
        NlError,
    >)
        ensures
            *final(self) == run_state(*old(self), msg_views(frames@), order),
            ({
                let (items, fail) = run(*old(self), msg_views(frames@), order);
                match fail {
                    None => r is Ok && msg_views(r->Ok_0@) == items,
                    Some(o) => r is Err && fail_agrees(r->Err_0, o),
                }
            }),
    {
        let ghost ms = msg_views(frames@);
        let ghost ex0 = *self;
        assert(ex0 == *old(self));
        assert(ms.subrange(0, ms.len() as int) =~= ms);
        assert(msg_views(Seq::<Nlmsghdr>::empty()) + run(*self, ms, order).0 =~= run(*self, ms, order).0);
        let mut pending = frames;
        let mut out: Vec<Nlmsghdr> = Vec::new();
        let mut i: usize = 0;
        let n = pending.len();
        while pending.len() > 0
            invariant
                ms == msg_views(frames@),
                ex0 == *old(self),
                n == ms.len(),
                i + pending@.len() == n,
                msg_views(pending@) == ms.subrange(i as int, n as int),
                run(ex0, ms, order) == ({
                    let (items, fail) = run(*self, ms.subrange(i as int, n as int), order);
                    (msg_views(out@) + items, fail)
                }),
                run_state(ex0, ms, order) == run_state(*self, ms.subrange(i as int, n as int), order),
            decreases pending@.len(),
        {
            let ghost rest = ms.subrange(i as int, n as int);
            let ghost fv = pending@;
            let m = pending.remove(0);
            assert(msg_views(pending@) =~= rest.drop_first());
            let ghost before = *self;
            assert(rest[0] == msg_views(fv)[0]);
            assert(rest[0] == m@);
            let ghost mv = m@;
            assert(rest.drop_first() =~= ms.subrange(i + 1, n as int));
            match self.on_frame(m, order) {
                Step::Item(x) => {
                    proof {
                        assert(msg_views(out@.push(x)) =~= msg_views(out@) + seq![x@]);
                        let (items, fail) = run(*self, ms.subrange(i + 1, n as int), order);
                        assert(msg_views(out@) + (seq![x@] + items) =~= msg_views(out@.push(x)) + items);
                    }
                    out.push(x);
                    i = i + 1;
                },
                Step::End => {
                    assert(outcome(before, mv, order) == Outcome::End);
                    assert(run(before, rest, order) == (Seq::<NlmsgView>::empty(), None::<Outcome>));
                    assert(run_state(before, rest, order) == *self);
                    assert(msg_views(out@) + Seq::<NlmsgView>::empty() =~= msg_views(out@));
                    assert(run(ex0, ms, order).0 == msg_views(out@));
                    assert(run(ex0, ms, order).1 is None);
                    return Ok(out);
                },
                Step::Fail(e) => {
                    assert(outcome(before, mv, order) != Outcome::End);
                    assert(outcome(before, mv, order) != Outcome::Item);
                    assert(run(before, rest, order) == (Seq::<NlmsgView>::empty(), Some(outcome(before, mv, order))));
                    assert(run_state(before, rest, order) == *self);
                    return Err(e);
                },
            }
        }
        assert(ms.subrange(i as int, n as int).len() == 0);
        assert(msg_views(out@) + Seq::<NlmsgView>::empty() =~= msg_views(out@));
        Ok(out)
    }
}

/// The first attribute of `s` whose type, without its flag bits, is `kind`.
pub open spec fn find_attr(s: Seq<NlattrView>, kind: u16) -> Option<NlattrView>
    decreases s.len(),
{
    if s.len() == 0 {
        None
    } else if s[0].ty & NLA_TYPE_MASK == kind {
        Some(s[0])
    } else {
        find_attr(s.drop_first(), kind)
    }
}

/// The id a multicast group entry gives for `name`, if the entry names it.
pub open spec fn entry_id(entry: Seq<u8>, name: Seq<u8>, order: Endian) -> Option<u32> {
    match attrs_parse(entry, order) {
        None => None,
        Some(e) => match (find_attr(e, CTRL_ATTR_MCAST_GRP_NAME), find_attr(e, CTRL_ATTR_MCAST_GRP_ID)) {
            (Some(n), Some(i)) => if n.payload == name.push(0u8) && i.payload.len() == 4 {
                Some(u32_value(i.payload, order))
            } else {
                None
            },
            _ => None,
        },
    }
}

/// The id of the first entry of `entries` that names `name`.
pub open spec fn find_group(entries: Seq<NlattrView>, name: Seq<u8>, order: Endian) -> Option<u32>
    decreases entries.len(),
{
    if entries.len() == 0 {
        None
    } else {
        match entry_id(entries[0].payload, name, order) {
            Some(id) => Some(id),
            None => find_group(entries.drop_first(), name, order),
        }
    }
}

/// The two fields of a multicast group entry for `name` and `id`.
pub open spec fn group_fields(name: Seq<u8>, id: u32, order: Endian) -> Seq<NlattrView> {
    seq![
        NlattrView { ty: CTRL_ATTR_MCAST_GRP_NAME, payload: name.push(0u8) },
        NlattrView { ty: CTRL_ATTR_MCAST_GRP_ID, payload: u32_wire(id, order) },
    ]
}

/// The nested list of multicast groups that a control family response
/// carries for `groups`, pairs of name and id.
pub open spec fn group_list(groups: Seq<(Seq<u8>, u32)>, order: Endian) -> Seq<NlattrView> {
    groups.map_values(
        |g: (Seq<u8>, u32)|
            NlattrView { ty: NLA_F_NESTED | 1, payload: attrs_wire(group_fields(g.0, g.1, order), order) },
    )
}

/// The id of the first of `groups` named `name`.
pub open spec fn first_group_id(groups: Seq<(Seq<u8>, u32)>, name: Seq<u8>) -> Option<u32>
    decreases groups.len(),
{
    if groups.len() == 0 {
        None
    } else if groups[0].0 == name {
        Some(groups[0].1)
    } else {
        first_group_id(groups.drop_first(), name)
    }
}

/// The names of `groups` are short enough for their attributes.
pub open spec fn group_names_fit(groups: Seq<(Seq<u8>, u32)>) -> bool {
    forall|i: int| 0 <= i < groups.len() ==> #[trigger] groups[i].0.len() + 24 <= u16::MAX
}

proof fn lemma_group_entry(n: Seq<u8>, id: u32, name: Seq<u8>, order: Endian)
    requires
        n.len() + 24 <= u16::MAX,
    ensures
        entry_id(attrs_wire(group_fields(n, id, order), order), name, order) == if n == name {
            Some(id)
        } else {
            None::<u32>
        },
        attrs_wire(group_fields(n, id, order), order).len() + 4 <= u16::MAX,
{
    let f = group_fields(n, id, order);
    crate::codec::lemma_u32_round_trip(id, order, Seq::empty());
    assert(u32_wire(id, order) + Seq::<u8>::empty() =~= u32_wire(id, order));
    assert(attrs_valid(f));
    lemma_attrs_round_trip(f, order);
    assert(CTRL_ATTR_MCAST_GRP_NAME & NLA_TYPE_MASK == 1) by (bit_vector);
    assert(CTRL_ATTR_MCAST_GRP_ID & NLA_TYPE_MASK == 2) by (bit_vector);
    assert(find_attr(f, CTRL_ATTR_MCAST_GRP_NAME) == Some(f[0]));
    assert(f.drop_first()[0] == f[1]);
    assert(find_attr(f.drop_first(), CTRL_ATTR_MCAST_GRP_ID) == Some(f[1]));
    assert(find_attr(f, CTRL_ATTR_MCAST_GRP_ID) == Some(f[1]));
    if n.push(0u8) == name.push(0u8) {
        assert(n =~= n.push(0u8).drop_last());
        assert(name =~= name.push(0u8).drop_last());
    }
    let w0 = Nlattr::wire(f[0], order);
    let w1 = Nlattr::wire(f[1], order);
    crate::codec::lemma_align4(w0.len());
    crate::codec::lemma_align4(w1.len());
    assert(f.drop_first().drop_first().len() == 0);
    assert(attrs_wire(f.drop_first().drop_first(), order).len() == 0);
    assert(attrs_wire(f.drop_first(), order).len() == align4(w1.len()));
}

/// Over a group list written for `groups`, the search finds the id of the
/// first group named `name`, and nothing where none is.
proof fn lemma_find_group_list(groups: Seq<(Seq<u8>, u32)>, name: Seq<u8>, order: Endian)
    requires
        group_names_fit(groups),
    ensures
        find_group(group_list(groups, order), name, order) == first_group_id(groups, name),
        attrs_valid(group_list(groups, order)),
    decreases groups.len(),
{
    let l = group_list(groups, order);
    assert forall|i: int| 0 <= i < l.len() implies #[trigger] Nlattr::valid(l[i]) by {
        assert(groups[i].0.len() + 24 <= u16::MAX);
        lemma_group_entry(groups[i].0, groups[i].1, name, order);
    }
    if groups.len() > 0 {
        let tl = groups.drop_first();
        assert(group_names_fit(tl)) by {
            assert forall|i: int| 0 <= i < tl.len() implies #[trigger] tl[i].0.len() + 24 <= u16::MAX by {
                assert(tl[i] == groups[i + 1]);
            }
        }
        lemma_group_entry(groups[0].0, groups[0].1, name, order);
        assert(l.drop_first() =~= group_list(tl, order));
        lemma_find_group_list(tl, name, order);
    }
}

/// Resolving a multicast group in a control family response whose group list
/// was written for `groups` gives the id of the first group named `name`, and
/// a not-found error where no group has that name.
pub proof fn lemma_resolve_group(
    attrs: Seq<NlattrView>,
    groups: Seq<(Seq<u8>, u32)>,
    name: Seq<u8>,
    order: Endian,
)
    requires
        group_names_fit(groups),
        find_attr(attrs, CTRL_ATTR_MCAST_GROUPS) is Some,
        find_attr(attrs, CTRL_ATTR_MCAST_GROUPS)->0.payload == attrs_wire(group_list(groups, order), order),
    ensures
        attrs_parse(find_attr(attrs, CTRL_ATTR_MCAST_GROUPS)->0.payload, order) == Some(
            group_list(groups, order),
        ),
        find_group(group_list(groups, order), name, order) == first_group_id(groups, name),
{
    lemma_find_group_list(groups, name, order);
    lemma_attrs_round_trip(group_list(groups, order), order);
}

/// Finds the first attribute of `attrs` of type `kind`.
pub fn get_attr(attrs: &Vec<Nlattr>, kind: u16) -> (r: Option<usize>)
    ensures
        match find_attr(attr_views(attrs@), kind) {
            None => r is None,
            Some(a) => r is Some && r->0 < attrs@.len() && attrs@[r->0 as int]@ == a,
        },
{
    let ghost views = attr_views(attrs@);
    let mut i: usize = 0;
    assert(views.subrange(0, views.len() as int) =~= views);
    while i < attrs.len()
        invariant
            i <= attrs@.len(),
            views == attr_views(attrs@),
            find_attr(views, kind) == find_attr(views.subrange(i as int, views.len() as int), kind),
        decreases attrs@.len() - i,
    {
        let ghost rest = views.subrange(i as int, views.len() as int);
        assert(rest[0] == attrs@[i as int]@);
        if attrs[i].kind() == kind {
            return Some(i);
        }
        assert(rest.drop_first() =~= views.subrange(i + 1, views.len() as int));
        i = i + 1;
    }
    None
}

/// Whether `payload` is `name` followed by a null byte.
fn is_name(payload: &Vec<u8>, name: &[u8]) -> (r: bool)
    ensures
        r == (payload@ == name@.push(0u8)),
{
    if payload.len() == 0 || payload.len() - 1 != name.len() || payload[name.len()] != 0 {
        assert(payload@.len() != name@.len() + 1 || payload@[name@.len() as int] != 0 ==> payload@ != name@.push(0u8));
        return false;
    }
    let mut i: usize = 0;
    while i < name.len()
        invariant
            i <= name@.len(),
            payload@.len() == name@.len() + 1,
            payload@[name@.len() as int] == 0,
            forall|j: int| 0 <= j < i ==> payload@[j] == name@[j],
        decreases name@.len() - i,
    {
        if payload[i] != name[i] {
            assert(payload@[i as int] != name@.push(0u8)[i as int]);
            return false;
        }
        i = i + 1;
    }
    assert(payload@ =~= name@.push(0u8));
    true
}

/// The id a multicast group entry gives for `name`, if the entry names it.
fn group_entry_id(entry: &Nlattr, name: &[u8], order: Endian) -> (r: Option<u32>)
    ensures
        r == entry_id(entry@.payload, name@, order),
{
    let fields = match deserialize_attrs(entry.payload.as_slice(), order) {
        Ok(f) => f,
        Err(_) => {
            return None;
        },
    };
    let n = match get_attr(&fields, CTRL_ATTR_MCAST_GRP_NAME) {
        Some(n) => n,
        None => {
            return None;
        },
    };
    let i = match get_attr(&fields, CTRL_ATTR_MCAST_GRP_ID) {
        Some(i) => i,
        None => {
            return None;
        },
    };
    if is_name(&fields[n].payload, name) && fields[i].payload.len() == 4 {
        Some(read_u32(fields[i].payload.as_slice(), order))
    } else {
        None
    }
}

/// The multicast group id that a control family response gives for `name`:
/// the first entry of its nested group list that carries that name.
pub fn resolve_mcast_group(genl: &Genlmsghdr, name: &[u8], order: Endian) -> (r: Result<u32, NlError>)
    ensures
        match find_attr(genl@.attrs, CTRL_ATTR_MCAST_GROUPS) {
            None => r matches Err(NlError::NotFound),
            Some(g) => match attrs_parse(g.payload, order) {
                None => r matches Err(NlError::De(DeError::UnexpectedEOB)),
                Some(entries) => match find_group(entries, name@, order) {
                    None => r matches Err(NlError::NotFound),
                    Some(id) => r == Ok::<u32, NlError>(id),
                },
            },
        },
{
    let g = match get_attr(&genl.attrs, CTRL_ATTR_MCAST_GROUPS) {
        Some(g) => g,
        None => {
            return Err(NlError::NotFound);
        },
    };
    let entries = match deserialize_attrs(genl.attrs[g].payload.as_slice(), order) {
        Ok(e) => e,
        Err(e) => {
            return Err(NlError::De(e));
        },
    };
    let ghost views = attr_views(entries@);
    let ghost found = find_attr(genl@.attrs, CTRL_ATTR_MCAST_GROUPS);
    let mut i: usize = 0;
    assert(views.subrange(0, views.len() as int) =~= views);
    while i < entries.len()
        invariant
            found == find_attr(genl@.attrs, CTRL_ATTR_MCAST_GROUPS),
            found is Some,
            attrs_parse(found->0.payload, order) == Some(views),
            i <= entries@.len(),
            views == attr_views(entries@),
            find_group(views, name@, order) == find_group(
                views.subrange(i as int, views.len() as int),
                name@,
                order,
            ),
        decreases entries@.len() - i,
    {
        let ghost rest = views.subrange(i as int, views.len() as int);
        assert(rest[0] == entries@[i as int]@);
        if let Some(id) = group_entry_id(&entries[i], name, order) {
            assert(find_group(rest, name@, order) == Some(id));
            return Ok(id);
        }
        assert(rest.drop_first() =~= views.subrange(i + 1, views.len() as int));
        i = i + 1;
    }
    Err(NlError::NotFound)
}

/// The numeric family id that a control family response carries.
pub fn resolve_family_id(genl: &Genlmsghdr, order: Endian) -> (r: Result<u16, NlError>)
    ensures
        match find_attr(genl@.attrs, CTRL_ATTR_FAMILY_ID) {
            Some(a) => if a.payload.len() == 2 {
                r == Ok::<u16, NlError>(u16_value(a.payload, order))
            } else {
                r matches Err(NlError::De(DeError::BufferNotParsed))
            },
            None => r matches Err(NlError::NotFound),
        },
{
    match get_attr(&genl.attrs, CTRL_ATTR_FAMILY_ID) {
        None => Err(NlError::NotFound),
        Some(i) => {
            if genl.attrs[i].payload.len() == 2 {
                Ok(read_u16(genl.attrs[i].payload.as_slice(), order))
            } else {
                Err(NlError::De(DeError::BufferNotParsed))
            }
        },
    }
}

/// The membership mask bit of multicast group `id`; an id past the mask's
/// bits is refused before any socket call.
pub fn group_flag(id: u32) -> (r: Result<u32, NlError>)
    ensures
        id <= MAX_GROUP_ID ==> r == Ok::<u32, NlError>(1u32 << id),
        id > MAX_GROUP_ID ==> (r matches Err(NlError::GroupOutOfRange(x)) && x == id),
{
    if id > MAX_GROUP_ID {
        Err(NlError::GroupOutOfRange(id))
    } else {
        Ok(1u32 << id)
    }
}

/// The request that asks the control family about `family_name`, to be
/// answered with its id and its multicast groups.
pub fn ctrl_getfamily_request(family_name: &[u8], seq: u32, pid: u32, order: Endian) -> (r: Nlmsghdr)
    requires
        family_name@.len() + 8 <= u16::MAX,
    ensures
        r@ == (NlmsgView {
            ty: GENL_ID_CTRL,
            flags: crate::msg::NLM_F_REQUEST | crate::msg::NLM_F_ACK,
            seq,
            pid,
            payload: genl_wire(
                GenlView {
                    cmd: CTRL_CMD_GETFAMILY,
                    version: 2,
                    reserved: 0,
                    attrs: seq![NlattrView { ty: CTRL_ATTR_FAMILY_NAME, payload: family_name@.push(0u8) }],
                },
                order,
            ),
        }),
{
    let mut name = slice_to_vec(family_name);
    name.push(0u8);
    let attr = Nlattr::new(CTRL_ATTR_FAMILY_NAME, name);
    let mut attrs: Vec<Nlattr> = Vec::new();
    attrs.push(attr);
    let genl = Genlmsghdr::new(CTRL_CMD_GETFAMILY, 2, attrs);
    proof {
        let v = genl@.attrs;
        assert(v.len() == 1);
        assert(attrs_valid(v));
        let aw = Nlattr::wire(v[0], order);
        lemma_align4(aw.len());
        assert(v.drop_first().len() == 0);
        assert(attrs_wire(v.drop_first(), order) == Seq::<u8>::empty());
        assert(attrs_wire(v, order).len() == align4(aw.len()));
        assert(v =~= seq![NlattrView { ty: CTRL_ATTR_FAMILY_NAME, payload: family_name@.push(0u8) }]);
    }
    let payload = genl.to_bytes(order);
    Nlmsghdr::new(
        GENL_ID_CTRL,
        crate::msg::NLM_F_REQUEST | crate::msg::NLM_F_ACK,
        seq,
        pid,
        payload,
    )
}

} // verus!
