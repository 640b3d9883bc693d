//! The `Nl` capability and the primitive codecs.
//!
//! Fixed-width integers are written in the host's byte order. The order is a
//! plain value held by the encoding and decoding states, found once from the
//! host, so every contract here is exact for either order.

use byteorder::{BigEndian, ByteOrder, LittleEndian, NativeEndian};
use vstd::prelude::*;
use vstd::slice::{slice_subrange, slice_to_vec};

verus! {

/// Byte order of fixed-width integers on the wire.
#[derive(Clone, Copy, Debug, PartialEq, Eq, Structural)]
pub enum Endian {
    Little,
    Big,
}

/// The two bytes that encode `v` in `order`.
pub open spec fn u16_wire(v: u16, order: Endian) -> Seq<u8> {
    let lo = (v % 256) as u8;
    let hi = (v / 256) as u8;
    match order {
        Endian::Little => seq![lo, hi],
        Endian::Big => seq![hi, lo],
    }
}

/// The value of the first two bytes of `b` in `order`.
pub open spec fn u16_value(b: Seq<u8>, order: Endian) -> u16
    recommends
        b.len() >= 2,
{
    match order {
        Endian::Little => (b[0] + 256 * b[1]) as u16,
        Endian::Big => (b[1] + 256 * b[0]) as u16,
    }
}

/// The four bytes that encode `v` in `order`.
pub open spec fn u32_wire(v: u32, order: Endian) -> Seq<u8> {
    let b0 = (v % 256) as u8;
    let b1 = ((v / 256) % 256) as u8;
    let b2 = ((v / 65536) % 256) as u8;
    let b3 = (v / 16777216) as u8;
    match order {
        Endian::Little => seq![b0, b1, b2, b3],
        Endian::Big => seq![b3, b2, b1, b0],
    }
}

/// The value of the first four bytes of `b` in `order`.
pub open spec fn u32_value(b: Seq<u8>, order: Endian) -> u32
    recommends
        b.len() >= 4,
{
    match order {
        Endian::Little => (b[0] + 256 * b[1] + 65536 * b[2] + 16777216 * b[3]) as u32,
        Endian::Big => (b[3] + 256 * b[2] + 65536 * b[1] + 16777216 * b[0]) as u32,
    }
}

/// Reading back the bytes of a 16-bit value gives the value.
pub proof fn lemma_u16_round_trip(v: u16, order: Endian, tail: Seq<u8>)
    ensures
        u16_wire(v, order).len() == 2,
        u16_value(u16_wire(v, order) + tail, order) == v,
{
    let w = u16_wire(v, order) + tail;
    assert(w[0] == u16_wire(v, order)[0] && w[1] == u16_wire(v, order)[1]);
    let x = v as int;
    assert(x == x % 256 + 256 * (x / 256)) by (nonlinear_arith);
    assert(x / 256 < 256) by (nonlinear_arith)
        requires
            0 <= x < 65536,
    ;
}

/// Reading back the bytes of a 32-bit value gives the value.
pub proof fn lemma_u32_round_trip(v: u32, order: Endian, tail: Seq<u8>)
    ensures
        u32_wire(v, order).len() == 4,
        u32_value(u32_wire(v, order) + tail, order) == v,
{
    let w = u32_wire(v, order) + tail;
    let s = u32_wire(v, order);
    assert(w[0] == s[0] && w[1] == s[1] && w[2] == s[2] && w[3] == s[3]);
    let x = v as int;
    let a = x % 256;
    let b = (x / 256) % 256;
    let c = (x / 65536) % 256;
    let d = x / 16777216;
    assert(x == a + 256 * b + 65536 * c + 16777216 * d && d < 256) by (nonlinear_arith)
        requires
            0 <= x < 4294967296,
            a == x % 256,
            b == (x / 256) % 256,
            c == (x / 65536) % 256,
            d == x / 16777216,
    {
        assert(x / 65536 == (x / 256) / 256);
        assert(x / 16777216 == (x / 65536) / 256);
    }
}

/// Relies on byteorder's `LittleEndian::write_u16`: the low byte first.
#[verifier::external_body]
fn le_write_u16(v: u16) -> (r: Vec<u8>)
    ensures
        r@ == u16_wire(v, Endian::Little),
{
    let mut b = vec![0u8; 2];
    LittleEndian::write_u16(&mut b, v);
    b
}

/// Relies on byteorder's `BigEndian::write_u16`: the high byte first.
#[verifier::external_body]
fn be_write_u16(v: u16) -> (r: Vec<u8>)
    ensures
        r@ == u16_wire(v, Endian::Big),
{
    let mut b = vec![0u8; 2];
    BigEndian::write_u16(&mut b, v);
    b
}

/// Relies on byteorder's `LittleEndian::write_u32`: the lowest byte first.
#[verifier::external_body]
fn le_write_u32(v: u32) -> (r: Vec<u8>)
    ensures
        r@ == u32_wire(v, Endian::Little),
{
    let mut b = vec![0u8; 4];
    LittleEndian::write_u32(&mut b, v);
    b
}

/// Relies on byteorder's `BigEndian::write_u32`: the highest byte first.
#[verifier::external_body]
fn be_write_u32(v: u32) -> (r: Vec<u8>)
    ensures
        r@ == u32_wire(v, Endian::Big),
{
    let mut b = vec![0u8; 4];
    BigEndian::write_u32(&mut b, v);
    b
}

/// Relies on byteorder's `LittleEndian::read_u16`, which reads the first two bytes
/// and panics on a shorter slice.
#[verifier::external_body]
fn le_read_u16(b: &[u8]) -> (r: u16)
    requires
        b@.len() >= 2,
    ensures
        r == u16_value(b@, Endian::Little),
{
    LittleEndian::read_u16(b)
}

/// Relies on byteorder's `BigEndian::read_u16`, which reads the first two bytes
/// and panics on a shorter slice.
#[verifier::external_body]
fn be_read_u16(b: &[u8]) -> (r: u16)
    requires
        b@.len() >= 2,
    ensures
        r == u16_value(b@, Endian::Big),
{
    BigEndian::read_u16(b)
}

/// Relies on byteorder's `LittleEndian::read_u32`, which reads the first four bytes
/// and panics on a shorter slice.
#[verifier::external_body]
fn le_read_u32(b: &[u8]) -> (r: u32)
    requires
        b@.len() >= 4,
    ensures
        r == u32_value(b@, Endian::Little),
{
    LittleEndian::read_u32(b)
}

/// Relies on byteorder's `BigEndian::read_u32`, which reads the first four bytes
/// and panics on a shorter slice.
#[verifier::external_body]
fn be_read_u32(b: &[u8]) -> (r: u32)
    requires
        b@.len() >= 4,
    ensures
        r == u32_value(b@, Endian::Big),
{
    BigEndian::read_u32(b)
}

/// Relies on byteorder's `NativeEndian::write_u16`: `NativeEndian` is
/// `LittleEndian` or `BigEndian`, whichever the target uses.
#[verifier::external_body]
fn native_write_u16(v: u16) -> (r: Vec<u8>)
    ensures
        r@ == u16_wire(v, Endian::Little) || r@ == u16_wire(v, Endian::Big),
{
    let mut b = vec![0u8; 2];
    NativeEndian::write_u16(&mut b, v);
    b
}

impl Endian {
    /// The byte order of the host, found by encoding the number one.
    pub fn native() -> Endian {
        let b = native_write_u16(1);
        Endian::from_probe(&b)
    }

    /// The byte order in which the number one was written as `b`.
    pub fn from_probe(b: &Vec<u8>) -> (r: Endian)
        requires
            b@ == u16_wire(1, Endian::Little) || b@ == u16_wire(1, Endian::Big),
        ensures
            b@ == u16_wire(1, r),
    {
        if b[0] == 1 {
            Endian::Little
        } else {
            Endian::Big
        }
    }
}

/// Writes `v` in `order`.
pub fn write_u16(v: u16, order: Endian) -> (r: Vec<u8>)
    ensures
        r@ == u16_wire(v, order),
{
    match order {
        Endian::Little => le_write_u16(v),
        Endian::Big => be_write_u16(v),
    }
}

/// Writes `v` in `order`.
pub fn write_u32(v: u32, order: Endian) -> (r: Vec<u8>)
    ensures
        r@ == u32_wire(v, order),
{
    match order {
        Endian::Little => le_write_u32(v),
        Endian::Big => be_write_u32(v),
    }
}

/// Reads the first two bytes of `b` in `order`.
pub fn read_u16(b: &[u8], order: Endian) -> (r: u16)
    requires
        b@.len() >= 2,
    ensures
        r == u16_value(b@, order),
{
    match order {
        Endian::Little => le_read_u16(b),
        Endian::Big => be_read_u16(b),
    }
}

/// Reads the first four bytes of `b` in `order`.
pub fn read_u32(b: &[u8], order: Endian) -> (r: u32)
    requires
        b@.len() >= 4,
    ensures
        r == u32_value(b@, order),
{
    match order {
        Endian::Little => le_read_u32(b),
        Endian::Big => be_read_u32(b),
    }
}


/// `n` rounded up to the next multiple of the netlink alignment unit, four.
pub open spec fn align4(n: nat) -> nat {
    ((n + 3) / 4 * 4) as nat
}

/// Rounds `n` up to the next multiple of four.
pub fn alignto(n: usize) -> (r: usize)
    requires
        n + 3 <= usize::MAX,
    ensures
        r == align4(n as nat),
{
    (n + 3) / 4 * 4
}

/// The padding that follows `n` bytes.
pub fn padding(n: usize) -> (r: usize)
    ensures
        r == align4(n as nat) - n,
        r < 4,
{
    proof {
        lemma_align4(n as nat);
        assert((n + 3) / 4 * 4 - n == (4 - n % 4) % 4) by (nonlinear_arith);
    }
    (4 - n % 4) % 4
}

/// The aligned size is the least multiple of four that is at least the size:
/// it adds fewer than four bytes of padding.
pub proof fn lemma_align4(n: nat)
    ensures
        align4(n) % 4 == 0,
        n <= align4(n) < n + 4,
        n % 4 == 0 ==> align4(n) == n,
{
    let q = (n + 3) / 4;
    assert(q * 4 <= n + 3 && n + 3 < q * 4 + 4) by (nonlinear_arith)
        requires
            q == (n + 3) / 4,
    ;
    assert((q * 4) % 4 == 0) by (nonlinear_arith);
    if n % 4 == 0 {
        assert(q * 4 == n) by (nonlinear_arith)
            requires
                q == (n + 3) / 4,
                n % 4 == 0,
        ;
    }
}

/// A growing buffer that values are serialized into.
pub struct NlSerState {
    pub buf: Vec<u8>,
    pub order: Endian,
}

impl View for NlSerState {
    type V = Seq<u8>;

    open spec fn view(&self) -> Seq<u8> {
        self.buf@
    }
}

impl NlSerState {
    /// An empty buffer that writes in the host's byte order.
    pub fn new() -> (r: Self)
        ensures
            r@ == Seq::<u8>::empty(),
    {
        NlSerState { buf: Vec::new(), order: Endian::native() }
    }

    /// An empty buffer that writes in `order`.
    pub fn with_order(order: Endian) -> (r: Self)
        ensures
            r@ == Seq::<u8>::empty(),
            r.order == order,
    {
        NlSerState { buf: Vec::new(), order }
    }

    /// The bytes written so far.
    pub fn into_inner(self) -> (r: Vec<u8>)
        ensures
            r@ == self@,
    {
        self.buf
    }

    /// Appends `bytes`.
    pub fn put(&mut self, bytes: &[u8])
        ensures
            final(self)@ == old(self)@ + bytes@,
            final(self).order == old(self).order,
    {
        let mut i: usize = 0;
        while i < bytes.len()
            invariant
                i <= bytes@.len(),
                self@ == old(self)@ + bytes@.subrange(0, i as int),
                self.order == old(self).order,
            decreases bytes@.len() - i,
        {
            self.buf.push(bytes[i]);
            i = i + 1;
            assert(bytes@.subrange(0, i as int) == bytes@.subrange(0, i - 1) + seq![bytes@[i - 1]]);
        }
        assert(bytes@.subrange(0, i as int) == bytes@);
    }

    /// Appends `n` zero bytes of padding.
    pub fn pad(&mut self, n: usize)
        ensures
            final(self)@ == old(self)@ + Seq::new(n as nat, |_i: int| 0u8),
            final(self).order == old(self).order,
    {
        let mut i: usize = 0;
        while i < n
            invariant
                i <= n,
                self@ == old(self)@ + Seq::new(i as nat, |_i: int| 0u8),
                self.order == old(self).order,
            decreases n - i,
        {
            self.buf.push(0u8);
            i = i + 1;
            assert(Seq::new(i as nat, |_i: int| 0u8) == Seq::new((i - 1) as nat, |_i: int| 0u8)
                + seq![0u8]);
        }
    }
}

/// A cursor over received bytes.
pub struct NlDeState<'a> {
    pub buf: &'a [u8],
    pub pos: usize,
    pub order: Endian,
}

impl<'a> NlDeState<'a> {
    /// The cursor stays within the bytes.
    pub open spec fn wf(&self) -> bool {
        self.pos <= self.buf@.len()
    }

    /// The bytes not read yet.
    pub open spec fn rest(&self) -> Seq<u8> {
        self.buf@.subrange(self.pos as int, self.buf@.len() as int)
    }

    /// A cursor at the start of `s`, reading in the host's byte order.
    pub fn new(s: &'a [u8]) -> (r: Self)
        ensures
            r.wf(),
            r.pos == 0,
            r.buf@ == s@,
    {
        NlDeState { buf: s, pos: 0, order: Endian::native() }
    }

    /// A cursor at the start of `s`, reading in `order`.
    pub fn with_order(s: &'a [u8], order: Endian) -> (r: Self)
        ensures
            r.wf(),
            r.pos == 0,
            r.buf@ == s@,
            r.order == order,
    {
        NlDeState { buf: s, pos: 0, order }
    }

    /// The number of bytes not read yet.
    pub fn remaining(&self) -> (r: usize)
        requires
            self.wf(),
        ensures
            r == self.rest().len(),
    {
        self.buf.len() - self.pos
    }

    /// Hands out the next `n` bytes and moves past them.
    pub fn take(&mut self, n: usize) -> (r: &'a [u8])
        requires
            old(self).wf(),
            n <= old(self).rest().len(),
        ensures
            final(self).wf(),
            r@ == old(self).rest().subrange(0, n as int),
            final(self).pos == old(self).pos + n,
            final(self).buf == old(self).buf,
            final(self).order == old(self).order,
    {
        let start = self.pos;
        let rest = slice_subrange(self.buf, start, self.buf.len());
        let r = slice_subrange(rest, 0, n);
        self.pos = start + n;
        r
    }
}

/// The capability of a value that has a netlink wire form.
///
/// `wire` is the encoding of a value, `parse` is what decoding finds at the
/// start of some bytes given the length hint, as the value and the number of
/// bytes it took.
pub trait Nl: Sized + View {
    /// What the decoder is told from outside (a length, or nothing).
    type Input;

    spec fn wire(v: Self::V, order: Endian) -> Seq<u8>;

    spec fn spec_size(v: Self::V) -> nat;

    /// The values that can be encoded (their length fields fit).
    spec fn valid(v: Self::V) -> bool;

    /// The hint under which the encoding of `v` decodes back to `v`.
    spec fn hint(v: Self::V) -> Self::Input;

    /// The hint used when the caller gives none.
    spec fn default_hint() -> Self::Input;

    spec fn parse(bytes: Seq<u8>, order: Endian, input: Self::Input) -> Option<(Self::V, nat)>;

    /// The encoding is `spec_size` bytes long in either order.
    proof fn lemma_wire_len(v: Self::V, order: Endian)
        ensures
            Self::wire(v, order).len() == Self::spec_size(v),
    ;

    /// Decoding the encoding of `v`, whatever follows it, gives `v` and
    /// consumes exactly the encoding.
    proof fn lemma_round_trip(v: Self::V, order: Endian, tail: Seq<u8>)
        requires
            Self::valid(v),
            Self::spec_size(v) <= usize::MAX,
        ensures
            Self::parse(Self::wire(v, order) + tail, order, Self::hint(v)) == Some(
                (v, Self::wire(v, order).len()),
            ),
    ;

    fn serialize(&self, state: &mut NlSerState) -> (r: Result<(), crate::err::SerError>)
        requires
            Self::valid(self@),
        ensures
            r is Ok,
            final(state)@ == old(state)@ + Self::wire(self@, old(state).order),
            final(state).order == old(state).order,
    ;

    fn deserialize_with(state: &mut NlDeState, input: Self::Input) -> (r: Result<
        Self,
        crate::err::DeError,
    >)
        requires
            old(state).wf(),
        ensures
            final(state).wf(),
            final(state).buf == old(state).buf,
            final(state).order == old(state).order,
            match Self::parse(old(state).rest(), old(state).order, input) {
                Some((v, n)) => r is Ok && r->Ok_0@ == v && final(state).pos == old(state).pos + n,
                None => r == Err::<Self, crate::err::DeError>(crate::err::DeError::UnexpectedEOB)
                    && final(state).pos == old(state).pos,
            },
    ;

    fn default_input() -> (r: Self::Input)
        ensures
            r == Self::default_hint(),
    ;

    /// Decodes with the default hint.
    fn deserialize(state: &mut NlDeState) -> (r: Result<Self, crate::err::DeError>)
        requires
            old(state).wf(),
        ensures
            final(state).wf(),
            final(state).buf == old(state).buf,
            final(state).order == old(state).order,
            match Self::parse(old(state).rest(), old(state).order, Self::default_hint()) {
                Some((v, n)) => r is Ok && r->Ok_0@ == v && final(state).pos == old(state).pos + n,
                None => r == Err::<Self, crate::err::DeError>(crate::err::DeError::UnexpectedEOB)
                    && final(state).pos == old(state).pos,
            },
    {
        let input = Self::default_input();
        Self::deserialize_with(state, input)
    }

    fn size(&self) -> (r: usize)
        requires
            Self::valid(self@),
        ensures
            r == Self::spec_size(self@),
    ;

    /// The size rounded up to the alignment unit.
    fn asize(&self) -> (r: usize)
        requires
            Self::valid(self@),
            Self::spec_size(self@) + 3 <= usize::MAX,
        ensures
            r == align4(Self::spec_size(self@)),
    {
        alignto(self.size())
    }
}

impl Nl for u8 {
    type Input = ();

    open spec fn wire(v: u8, order: Endian) -> Seq<u8> {
        seq![v]
    }

    open spec fn valid(v: u8) -> bool {
        true
    }

    open spec fn spec_size(v: u8) -> nat {
        1
    }

    open spec fn hint(v: u8) -> () {
        ()
    }

    open spec fn default_hint() -> () {
        ()
    }

    open spec fn parse(bytes: Seq<u8>, order: Endian, input: ()) -> Option<(u8, nat)> {
        if bytes.len() >= 1 {
            Some((bytes[0], 1))
        } else {
            None
        }
    }

    proof fn lemma_wire_len(v: u8, order: Endian) {
    }

    proof fn lemma_round_trip(v: u8, order: Endian, tail: Seq<u8>) {
        assert((seq![v] + tail)[0] == v);
    }

    fn serialize(&self, state: &mut NlSerState) -> (r: Result<(), crate::err::SerError>) {
        state.buf.push(*self);
        Ok(())
    }

    fn deserialize_with(state: &mut NlDeState, input: ()) -> (r: Result<u8, crate::err::DeError>) {
        if state.remaining() < 1 {
            return Err(crate::err::DeError::UnexpectedEOB);
        }
        let b = state.take(1);
        Ok(b[0])
    }

    fn default_input() -> (r: ()) {
        ()
    }

    fn size(&self) -> (r: usize) {
        1
    }
}

impl Nl for u16 {
    type Input = ();

    open spec fn wire(v: u16, order: Endian) -> Seq<u8> {
        u16_wire(v, order)
    }

    open spec fn valid(v: u16) -> bool {
        true
    }

    open spec fn spec_size(v: u16) -> nat {
        2
    }

    open spec fn hint(v: u16) -> () {
        ()
    }

    open spec fn default_hint() -> () {
        ()
    }

    open spec fn parse(bytes: Seq<u8>, order: Endian, input: ()) -> Option<(u16, nat)> {
        if bytes.len() >= 2 {
            Some((u16_value(bytes, order), 2))
        } else {
            None
        }
    }

    proof fn lemma_wire_len(v: u16, order: Endian) {
    }

    proof fn lemma_round_trip(v: u16, order: Endian, tail: Seq<u8>) {
        lemma_u16_round_trip(v, order, tail);
    }

    fn serialize(&self, state: &mut NlSerState) -> (r: Result<(), crate::err::SerError>) {
        let b = write_u16(*self, state.order);
        state.put(b.as_slice());
        Ok(())
    }

    fn deserialize_with(state: &mut NlDeState, input: ()) -> (r: Result<u16, crate::err::DeError>) {
        if state.remaining() < 2 {
            return Err(crate::err::DeError::UnexpectedEOB);
        }
        let order = state.order;
        let b = state.take(2);
        Ok(read_u16(b, order))
    }

    fn default_input() -> (r: ()) {
        ()
    }

    fn size(&self) -> (r: usize) {
        2
    }
}

impl Nl for u32 {
    type Input = ();

    open spec fn wire(v: u32, order: Endian) -> Seq<u8> {
        u32_wire(v, order)
    }

    open spec fn valid(v: u32) -> bool {
        true
    }

    open spec fn spec_size(v: u32) -> nat {
        4
    }

    open spec fn hint(v: u32) -> () {
        ()
    }

    open spec fn default_hint() -> () {
        ()
    }

    open spec fn parse(bytes: Seq<u8>, order: Endian, input: ()) -> Option<(u32, nat)> {
        if bytes.len() >= 4 {
            Some((u32_value(bytes, order), 4))
        } else {
            None
        }
    }

    proof fn lemma_wire_len(v: u32, order: Endian) {
    }

    proof fn lemma_round_trip(v: u32, order: Endian, tail: Seq<u8>) {
        lemma_u32_round_trip(v, order, tail);
    }

    fn serialize(&self, state: &mut NlSerState) -> (r: Result<(), crate::err::SerError>) {
        let b = write_u32(*self, state.order);
        state.put(b.as_slice());
        Ok(())
    }

    fn deserialize_with(state: &mut NlDeState, input: ()) -> (r: Result<u32, crate::err::DeError>) {
        if state.remaining() < 4 {
            return Err(crate::err::DeError::UnexpectedEOB);
        }
        let order = state.order;
        let b = state.take(4);
        Ok(read_u32(b, order))
    }

    fn default_input() -> (r: ()) {
        ()
    }

    fn size(&self) -> (r: usize) {
        4
    }
}

/// A byte sequence is written as it is; decoding takes as many bytes as the
/// hint says.
impl Nl for Vec<u8> {
    type Input = usize;

    open spec fn wire(v: Seq<u8>, order: Endian) -> Seq<u8> {
        v
    }

    open spec fn valid(v: Seq<u8>) -> bool {
        true
    }

    open spec fn spec_size(v: Seq<u8>) -> nat {
        v.len()
    }

    open spec fn hint(v: Seq<u8>) -> usize {
        v.len() as usize
    }

    open spec fn default_hint() -> usize {
        0
    }

    open spec fn parse(bytes: Seq<u8>, order: Endian, input: usize) -> Option<(Seq<u8>, nat)> {
        if input <= bytes.len() {
            Some((bytes.subrange(0, input as int), input as nat))
        } else {
            None
        }
    }

    proof fn lemma_wire_len(v: Seq<u8>, order: Endian) {
    }

    proof fn lemma_round_trip(v: Seq<u8>, order: Endian, tail: Seq<u8>) {
        assert((v + tail).subrange(0, v.len() as int) == v);
    }

    fn serialize(&self, state: &mut NlSerState) -> (r: Result<(), crate::err::SerError>) {
        state.put(self.as_slice());
        Ok(())
    }

    fn deserialize_with(state: &mut NlDeState, input: usize) -> (r: Result<Vec<u8>, crate::err::DeError>) {
        if state.remaining() < input {
            return Err(crate::err::DeError::UnexpectedEOB);
        }
        let b = state.take(input);
        Ok(slice_to_vec(b))
    }

    fn default_input() -> (r: usize) {
        0
    }

    fn size(&self) -> (r: usize) {
        self.len()
    }
}

/// Encoding a value and decoding the bytes with the value's own hint gives the
/// value back and leaves the cursor at the end of the encoding.
pub proof fn lemma_nl_round_trip<T: Nl>(v: T::V, order: Endian)
    requires
        T::valid(v),
        T::spec_size(v) <= usize::MAX,
    ensures
        T::parse(T::wire(v, order), order, T::hint(v)) == Some((v, T::spec_size(v))),
{
    T::lemma_wire_len(v, order);
    T::lemma_round_trip(v, order, Seq::empty());
    assert(T::wire(v, order) + Seq::<u8>::empty() == T::wire(v, order));
}

} // verus!
