//! Sinks: where the bytes of an archive go.
//!
//! A [`Writer`] takes bytes one run after the other. A [`Serializer`] is
//! a sink that also knows where it is, so that what is written through it
//! can hold offsets. The in-memory sinks are those of `rkyv`, whose
//! vector keeps its bytes aligned, and the plain `Vec<u8>`.

use rkyv::ser::serializers::AlignedSerializer;
use rkyv::AlignedVec;
use vstd::prelude::*;

verus! {

/// A sequential sink of bytes.
///
/// `stream` is everything the sink has accepted, in order. `room` is a
/// number of further bytes that the sink is certain to accept; a sink
/// that cannot know, such as one that writes to a device, has no room
/// and simply may fail.
pub trait Writer {
    type Error;

    spec fn stream(&self) -> Seq<u8>;

    spec fn room(&self) -> nat;

    /// Appends all of `bytes`, or fails. After a failure the sink holds
    /// its earlier bytes and then some unspecified part of `bytes`.
    fn write_all(&mut self, bytes: &[u8]) -> (r: Result<(), Self::Error>)
        ensures
            r is Ok ==> final(self).stream() == old(self).stream() + bytes@,
            r is Ok ==> final(self).stream().len() <= usize::MAX,
            r is Ok ==> final(self).room() + bytes@.len() >= old(self).room(),
            r is Err ==> bytes@.len() > old(self).room(),
            old(self).stream().is_prefix_of(final(self).stream()),
    ;
}

/// The bytes that an `rkyv::AlignedVec` holds.
pub uninterp spec fn aligned_vec_bytes(v: AlignedVec) -> Seq<u8>;

/// The bytes that an `rkyv::ser::serializers::AlignedSerializer` over an
/// `AlignedVec` has written.
pub uninterp spec fn aligned_serializer_bytes(s: AlignedSerializer<AlignedVec>) -> Seq<u8>;

/// `rkyv::AlignedVec`, a vector of bytes that keeps them aligned. Its
/// inside is not looked into; what it holds is `aligned_vec_bytes`.
#[verifier::external_type_specification]
#[verifier::external_body]
pub struct ExAlignedVec(AlignedVec);

/// `rkyv::ser::serializers::AlignedSerializer`, a serializer that writes
/// to an `AlignedVec`. Its inside is not looked into; what it has written
/// is `aligned_serializer_bytes`.
#[verifier::external_type_specification]
#[verifier::external_body]
#[verifier::reject_recursive_types(A)]
pub struct ExAlignedSerializer<A>(AlignedSerializer<A>);

/// The largest number of bytes that an `AlignedVec` can hold: beyond it
/// `AlignedVec::reserve` panics.
pub open spec fn aligned_vec_capacity() -> nat {
    (isize::MAX - 15) as nat
}

/// `AlignedVec::len`: the number of bytes held, which never exceeds the
/// largest capacity.
#[verifier::external_body]
fn aligned_vec_len(v: &AlignedVec) -> (n: usize)
    ensures
        n == aligned_vec_bytes(*v).len(),
        n <= aligned_vec_capacity(),
{
    v.len()
}

/// `AlignedVec::extend_from_slice`: appends the bytes in order. It
/// panics where the new length would exceed the largest capacity, which
/// `requires` rules out.
#[verifier::external_body]
fn aligned_vec_extend(v: &mut AlignedVec, bytes: &[u8])
    requires
        aligned_vec_bytes(*old(v)).len() + bytes@.len() <= aligned_vec_capacity(),
    ensures
        aligned_vec_bytes(*final(v)) == aligned_vec_bytes(*old(v)) + bytes@,
{
    v.extend_from_slice(bytes)
}

/// `rkyv::ser::Serializer::pos` of an `AlignedSerializer`: the length of
/// the vector it wraps, which never exceeds the largest capacity.
#[verifier::external_body]
fn aligned_serializer_pos(s: &AlignedSerializer<AlignedVec>) -> (n: usize)
    ensures
        n == aligned_serializer_bytes(*s).len(),
        n <= aligned_vec_capacity(),
{
    rkyv::ser::Serializer::pos(s)
}

/// `rkyv::ser::Serializer::write` of an `AlignedSerializer`: extends the
/// vector it wraps by the bytes, in order. It cannot fail, but panics
/// where the new length would exceed the largest capacity, which
/// `requires` rules out.
#[verifier::external_body]
fn aligned_serializer_write(s: &mut AlignedSerializer<AlignedVec>, bytes: &[u8])
    requires
        aligned_serializer_bytes(*old(s)).len() + bytes@.len() <= aligned_vec_capacity(),
    ensures
        aligned_serializer_bytes(*final(s)) == aligned_serializer_bytes(*old(s)) + bytes@,
{
    rkyv::ser::Serializer::write(s, bytes).unwrap_or(())
}

/// A sink has no room for the bytes it was handed.
#[derive(Clone, Copy, Debug, PartialEq, Eq, Structural)]
pub struct SinkFull;

/// How many of `n` further bytes fit below `limit` when `len` are held.
fn fits(len: usize, n: usize, limit: usize) -> (r: bool)
    ensures
        r <==> len + n <= limit,
{
    n <= limit && len <= limit - n
}

impl Writer for AlignedVec {
    type Error = SinkFull;

    open spec fn stream(&self) -> Seq<u8> {
        aligned_vec_bytes(*self)
    }

    open spec fn room(&self) -> nat {
        (aligned_vec_capacity() - aligned_vec_bytes(*self).len()) as nat
    }

    fn write_all(&mut self, bytes: &[u8]) -> (r: Result<(), SinkFull>) {
        let len: usize = aligned_vec_len(self);
        if !fits(len, bytes.len(), (isize::MAX as usize) - 15) {
            return Err(SinkFull);
        }
        aligned_vec_extend(self, bytes);
        Ok(())
    }
}

impl Writer for Vec<u8> {
    type Error = SinkFull;

    open spec fn stream(&self) -> Seq<u8> {
        self@
    }

    open spec fn room(&self) -> nat {
        (usize::MAX - self@.len()) as nat
    }

    fn write_all(&mut self, bytes: &[u8]) -> (r: Result<(), SinkFull>) {
        let len: usize = self.len();
        if !fits(len, bytes.len(), usize::MAX) {
            return Err(SinkFull);
        }
        self.extend_from_slice(bytes);
        proof {
            assert(self@ =~= old(self)@ + bytes@);
        }
        Ok(())
    }
}

/// A sink of bytes that knows where it is.
///
/// `stream` is everything the underlying sink has accepted; `position`
/// counts the bytes written through this serializer. The last `position`
/// bytes of the stream are the `written` bytes: offsets of an archive are
/// relative to their first byte.
pub trait Serializer {
    type Error;

    spec fn stream(&self) -> Seq<u8>;

    spec fn position(&self) -> nat;

    spec fn room(&self) -> nat;

    /// What the serializer keeps true of itself, beyond counting bytes
    /// that are in its stream. Every successful write keeps it.
    spec fn inv(&self) -> bool;

    /// The current position.
    fn pos(&self) -> (p: usize)
        ensures
            p == self.position(),
    ;

    /// Appends all of `bytes` at the current position, or fails. After a
    /// failure the stream holds its earlier bytes and then some
    /// unspecified part of `bytes`.
    fn write(&mut self, bytes: &[u8]) -> (r: Result<(), Self::Error>)
        requires
            old(self).position() <= old(self).stream().len(),
            old(self).inv(),
        ensures
            final(self).position() <= final(self).stream().len(),
            r is Ok ==> final(self).inv(),
            old(self).stream().is_prefix_of(final(self).stream()),
            r is Ok ==> final(self).stream() == old(self).stream() + bytes@,
            r is Ok ==> final(self).position() == old(self).position() + bytes@.len(),
            r is Ok ==> final(self).room() + bytes@.len() >= old(self).room(),
            r is Err ==> bytes@.len() > old(self).room(),
    ;

    /// Appends `padding` zero bytes.
    fn pad(&mut self, padding: usize) -> (r: Result<(), Self::Error>)
        requires
            old(self).position() <= old(self).stream().len(),
            old(self).inv(),
        ensures
            final(self).position() <= final(self).stream().len(),
            r is Ok ==> final(self).inv(),
            old(self).stream().is_prefix_of(final(self).stream()),
            r is Ok ==> final(self).stream() == old(self).stream() + zeros(padding as nat),
            r is Ok ==> final(self).position() == old(self).position() + padding,
            r is Ok ==> final(self).room() + padding >= old(self).room(),
            r is Err ==> padding > old(self).room(),
    {
        let zero: [u8; 16] = [
            0u8, 0u8, 0u8, 0u8, 0u8, 0u8, 0u8, 0u8, 0u8, 0u8, 0u8, 0u8, 0u8, 0u8, 0u8, 0u8,
        ];
        let mut i: usize = 0;
        proof {
            assert(zero@ =~= zeros(16));
        }
        while i < padding
            invariant
                i <= padding,
                zero@ == zeros(16),
                self.position() <= self.stream().len(),
                self.inv(),
                self.stream() == old(self).stream() + zeros(i as nat),
                self.position() == old(self).position() + i,
                self.room() + i >= old(self).room(),
            decreases padding - i,
        {
            let k: usize = if padding - i < 16 {
                padding - i
            } else {
                16
            };
            let chunk = vstd::slice::slice_subrange(zero.as_slice(), 0, k);
            proof {
                assert(chunk@ =~= zeros(k as nat));
            }
            match self.write(chunk) {
                Ok(()) => {},
                Err(e) => {
                    return Err(e);
                },
            }
            proof {
                let done = old(self).stream() + zeros(i as nat);
                assert(done + zeros(k as nat) =~= old(self).stream() + zeros((i + k) as nat));
            }
            i += k;
        }
        Ok(())
    }

    /// Pads with zero bytes up to the next multiple of `align`, and
    /// returns the position reached.
    fn align(&mut self, align: usize) -> (r: Result<usize, Self::Error>)
        requires
            old(self).position() <= old(self).stream().len(),
            old(self).inv(),
            align >= 1,
        ensures
            final(self).position() <= final(self).stream().len(),
            r is Ok ==> final(self).inv(),
            old(self).stream().is_prefix_of(final(self).stream()),
            r is Ok ==> final(self).stream() == old(self).stream() + zeros(
                padding_for(old(self).position(), align as nat),
            ),
            r is Ok ==> final(self).position() == old(self).position() + padding_for(
                old(self).position(),
                align as nat,
            ),
            r matches Ok(p) ==> p == final(self).position() && p % align == 0,
            r is Ok ==> final(self).room() + padding_for(old(self).position(), align as nat)
                >= old(self).room(),
            r is Err ==> padding_for(old(self).position(), align as nat) > old(self).room(),
    {
        let at: usize = self.pos();
        let padding: usize = (align - at % align) % align;
        proof {
            lemma_padding(at as nat, align as nat);
        }
        match self.pad(padding) {
            Ok(()) => Ok(self.pos()),
            Err(e) => Err(e),
        }
    }
}

/// The position of a serializer counts bytes that are in its stream.
pub open spec fn sink_wf<S: Serializer>(s: S) -> bool {
    s.position() <= s.stream().len()
}

/// The bytes written through a serializer: the last `position` bytes of
/// its stream.
pub open spec fn written<S: Serializer>(s: S) -> Seq<u8> {
    s.stream().subrange(s.stream().len() - s.position(), s.stream().len() as int)
}

/// `n` zero bytes.
pub open spec fn zeros(n: nat) -> Seq<u8> {
    Seq::new(n, |i: int| 0u8)
}

/// The number of bytes from `position` to the next multiple of `align`.
pub open spec fn padding_for(position: nat, align: nat) -> nat {
    let a = align as int;
    ((a - (position as int) % a) % a) as nat
}

/// Padding is less than the alignment and leads to a multiple of it.
pub proof fn lemma_padding(position: nat, align: nat)
    requires
        align >= 1,
    ensures
        padding_for(position, align) < align,
        (position + padding_for(position, align)) % align == 0,
{
    let a = align as int;
    let p = position as int;
    let r = p % a;
    let q = p / a;
    vstd::arithmetic::div_mod::lemma_fundamental_div_mod(p, a);
    assert(p == a * q + r);
    if r == 0 {
        vstd::arithmetic::div_mod::lemma_mod_self_0(a);
        assert((a - r) % a == 0);
    } else {
        vstd::arithmetic::div_mod::lemma_small_mod((a - r) as nat, align);
        assert((a - r) % a == a - r);
        assert(p + (a - r) == (q + 1) * a) by (nonlinear_arith)
            requires
                p == a * q + r,
        ;
        vstd::arithmetic::div_mod::lemma_mod_multiples_basic(q + 1, a);
    }
}

impl Serializer for AlignedSerializer<AlignedVec> {
    type Error = SinkFull;

    open spec fn stream(&self) -> Seq<u8> {
        aligned_serializer_bytes(*self)
    }

    open spec fn position(&self) -> nat {
        aligned_serializer_bytes(*self).len()
    }

    open spec fn room(&self) -> nat {
        (aligned_vec_capacity() - aligned_serializer_bytes(*self).len()) as nat
    }

    open spec fn inv(&self) -> bool {
        true
    }

    fn pos(&self) -> (p: usize) {
        aligned_serializer_pos(self)
    }

    fn write(&mut self, bytes: &[u8]) -> (r: Result<(), SinkFull>) {
        let len: usize = aligned_serializer_pos(self);
        if !fits(len, bytes.len(), (isize::MAX as usize) - 15) {
            return Err(SinkFull);
        }
        aligned_serializer_write(self, bytes);
        Ok(())
    }
}

/// A serializer over any sequential sink: it passes the bytes on and
/// counts them.
#[derive(Debug)]
pub struct BelliniWriteSerializer<W> {
    inner: W,
    pos: usize,
}

impl<W> BelliniWriteSerializer<W> {
    /// The sink that the bytes are passed on to.
    pub closed spec fn writer(&self) -> W {
        self.inner
    }

    /// The number of bytes counted.
    pub closed spec fn count(&self) -> nat {
        self.pos as nat
    }

    /// Creates a new serializer from a writer, at position zero.
    pub fn new(inner: W) -> (r: Self)
        ensures
            r.writer() == inner,
            r.count() == 0,
    {
        BelliniWriteSerializer { inner, pos: 0 }
    }

    /// Returns a mutable reference to the inner writer. Bytes written
    /// through it are not counted.
    pub fn writer_mut(&mut self) -> (r: &mut W)
        ensures
            *r == old(self).writer(),
            final(self).writer() == *final(r),
            final(self).count() == old(self).count(),
    {
        &mut self.inner
    }

    /// Returns the inner writer.
    pub fn into_inner(self) -> (r: W)
        ensures
            r == self.writer(),
    {
        self.inner
    }

    /// Sets the position back to zero; the writer stays as it is.
    pub fn restart(&mut self)
        ensures
            final(self).writer() == old(self).writer(),
            final(self).count() == 0,
    {
        self.pos = 0;
    }
}

impl<W: Writer> Serializer for BelliniWriteSerializer<W> {
    type Error = W::Error;

    open spec fn stream(&self) -> Seq<u8> {
        self.writer().stream()
    }

    open spec fn position(&self) -> nat {
        self.count()
    }

    open spec fn room(&self) -> nat {
        self.writer().room()
    }

    open spec fn inv(&self) -> bool {
        true
    }

    fn pos(&self) -> (p: usize) {
        self.pos
    }

    fn write(&mut self, bytes: &[u8]) -> (r: Result<(), W::Error>) {
        match self.inner.write_all(bytes) {
            Ok(()) => {
                self.pos = self.pos + bytes.len();
                Ok(())
            },
            Err(e) => Err(e),
        }
    }
}


/// Appending to the stream while the position moves along appends to
/// the written bytes.
pub proof fn lemma_written_append<S: Serializer>(before: S, after: S, bytes: Seq<u8>)
    requires
        sink_wf(before),
        after.stream() == before.stream() + bytes,
        after.position() == before.position() + bytes.len(),
    ensures
        sink_wf(after),
        written(after) == written(before) + bytes,
        written(before).is_prefix_of(written(after)),
        written(after).len() == after.position(),
{
    assert(written(after) =~= written(before) + bytes);
    assert(written(after).subrange(0, written(before).len() as int) =~= written(before));
}

} // verus!
