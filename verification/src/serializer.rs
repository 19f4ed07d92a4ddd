//! The composite serializer: a sink, a scratch space and a registry of
//! shared values, and on top of them the archiving of values and
//! documents.
//!
//! A value is archived items first: all that its record refers to is
//! written before the record, so that every reference points back. While
//! the items of a list are written, the positions they end up at wait in
//! the scratch space; then the records of the list follow each other at a
//! multiple of eight.

use crate::document::{
    blobs_view, lemma_view_array_dynamic, lemma_view_object, pairs_view, texts_view, values_view,
    Bytes, Document, DocumentModel, Text, Value, ValueModel,
};
use crate::frame::DecodeError;
use crate::layout::{
    blob_items, body_at, count_of, entry_items, entry_record, is_scalar, lemma_blob_stable,
    lemma_body_stable, lemma_collect_ok, lemma_entry_record, lemma_entry_stable, lemma_prefix_range,
    lemma_ref_read_back, lemma_root_record, lemma_signed_bits, lemma_value_record,
    lemma_value_stable, read_blob, read_blobs, read_bools, read_document, read_entries, read_entry,
    read_i64s, read_text, read_texts, read_u64s, read_value, read_values, ref_bytes, scalar_bits,
    tag_bytes, tag_of, text_at, text_items, u64_at, value_items, value_record, ALIGNMENT,
    TAG_ARRAY_BOOL, TAG_ARRAY_BYTES, TAG_ARRAY_DATE, TAG_ARRAY_DYNAMIC, TAG_ARRAY_F64,
    TAG_ARRAY_I64, TAG_ARRAY_STRING, TAG_ARRAY_U64, TAG_BOOL, TAG_BYTES, TAG_DATE, TAG_F64, TAG_I64,
    TAG_NULL, TAG_OBJECT, TAG_STRING, TAG_U64,
};
use crate::plan::{
    body_plan, body_target, bool_bytes, document_plan, entry_positions, entry_records,
    key_positions, lemma_body_grows, lemma_entry_records_len, lemma_run_refs_len,
    lemma_staged_entries_grow, lemma_staged_runs_grow, lemma_staged_values_grow,
    lemma_value_record_len, lemma_value_records_len, lemma_word_bytes_len, put_bytes, put_padding,
    put_run, put_runs, put_words, run_positions, run_refs, run_target, signed_words, staged_entries,
    staged_runs, staged_values, value_plan, value_positions, value_records, word_bytes, Plan,
};
use crate::scratch::{ScratchError, StackScratch};
use crate::shared::{DuplicateSharedValue, SharedRegistry};
use crate::sink::{
    lemma_padding, lemma_written_append, padding_for, sink_wf, written, zeros, Serializer,
};
use crate::size::{
    blobs_size, body_size, document_need, document_size, entries_need, entries_size,
    lemma_entries_need_step, lemma_sums_monotonic, lemma_values_need_step, max2, scratch_need,
    value_size, values_need, values_size,
};
use vstd::bytes::{lemma_auto_spec_u64_to_from_le_bytes, spec_u64_to_le_bytes, u64_to_le_bytes};
use vstd::prelude::*;
use vstd::utf8::valid_utf8;

verus! {

/// An error from one of the three parts of a serializer.
#[derive(Debug)]
pub enum BelliniSerializerError<const N: usize, S> {
    /// The sink failed.
    SerializerError(S),
    /// The scratch space is used up.
    ScratchSpaceError(ScratchError),
    /// A shared value was registered a second time.
    SharedError(DuplicateSharedValue),
}

/// Which part of a serializer an error comes from.
pub open spec fn part_message<const N: usize, S>(e: BelliniSerializerError<N, S>) -> Seq<char> {
    match e {
        BelliniSerializerError::SerializerError(_) => "serialization error"@,
        BelliniSerializerError::ScratchSpaceError(_) => "scratch space error"@,
        BelliniSerializerError::SharedError(_) => "shared memory error"@,
    }
}

impl<const N: usize, S> BelliniSerializerError<N, S> {
    /// Which part of the serializer the error comes from.
    pub fn message(&self) -> (r: &'static str)
        ensures
            r@ == part_message(*self),
    {
        match self {
            BelliniSerializerError::SerializerError(_) => "serialization error",
            BelliniSerializerError::ScratchSpaceError(_) => "scratch space error",
            BelliniSerializerError::SharedError(_) => "shared memory error",
        }
    }
}

/// A serializer built from composable pieces: a sink that knows where
/// it is, a scratch space of `N` bytes, and a registry of shared values.
#[derive(Debug)]
pub struct BelliniSerializer<const N: usize, S> {
    serializer: S,
    scratch: StackScratch<N>,
    shared: SharedRegistry,
}

impl<const N: usize, S> BelliniSerializer<N, S> {
    /// The sink.
    pub closed spec fn inner(&self) -> S {
        self.serializer
    }

    /// The words that the scratch space holds.
    pub closed spec fn held(&self) -> Seq<u64> {
        self.scratch.held()
    }

    /// The position registered for `key`, if any.
    pub closed spec fn registered(&self, key: Seq<u8>) -> Option<usize> {
        self.shared.lookup(key)
    }

    /// The scratch space and the registry are well-formed.
    pub closed spec fn parts_wf(&self) -> bool {
        self.scratch.wf() && self.shared.wf()
    }

    /// Creates a new composite serializer from a sink, with an empty
    /// scratch space and an empty registry.
    pub fn new(serializer: S) -> (r: Self)
        ensures
            r.inner() == serializer,
            r.held() == Seq::<u64>::empty(),
            r.parts_wf(),
            forall|key: Seq<u8>| r.registered(key) is None,
    {
        BelliniSerializer {
            serializer,
            scratch: StackScratch::new(),
            shared: SharedRegistry::new(),
        }
    }

    /// Returns a mutable reference to the sink.
    pub fn inner_mut(&mut self) -> (r: &mut S)
        ensures
            *r == old(self).inner(),
            final(self).inner() == *final(r),
            final(self).held() == old(self).held(),
            final(self).parts_wf() == old(self).parts_wf(),
            forall|key: Seq<u8>| final(self).registered(key) == old(self).registered(key),
    {
        &mut self.serializer
    }

    /// Returns the sink.
    pub fn into_inner_serializer(self) -> (r: S)
        ensures
            r == self.inner(),
    {
        self.serializer
    }

    /// Gives a composite serializer back its empty scratch space and its
    /// empty registry; the sink stays as it is.
    pub fn clear(&mut self)
        ensures
            final(self).inner() == old(self).inner(),
            final(self).held() == Seq::<u64>::empty(),
            final(self).parts_wf(),
            forall|key: Seq<u8>| final(self).registered(key) is None,
    {
        self.scratch = StackScratch::new();
        self.shared = SharedRegistry::new();
    }
}

impl<const N: usize, S: Default> Default for BelliniSerializer<N, S> {
    /// A composite serializer over the default sink, with an empty
    /// scratch space and an empty registry.
    fn default() -> (r: Self)
        ensures
            r.held() == Seq::<u64>::empty(),
            r.parts_wf(),
            forall|key: Seq<u8>| r.registered(key) is None,
    {
        BelliniSerializer::new(S::default())
    }
}

impl<const N: usize, S: Serializer> BelliniSerializer<N, S> {
    /// Puts a word on the scratch space.
    pub fn push_scratch(&mut self, word: u64) -> (r: Result<
        (),
        BelliniSerializerError<N, S::Error>,
    >)
        requires
            old(self).parts_wf(),
        ensures
            final(self).parts_wf(),
            final(self).inner() == old(self).inner(),
            forall|key: Seq<u8>| final(self).registered(key) == old(self).registered(key),
            match r {
                Ok(()) => final(self).held() == old(self).held().push(word),
                Err(e) => e matches BelliniSerializerError::ScratchSpaceError(
                    ScratchError::OutOfSpace,
                ) && final(self).held() == old(self).held(),
            },
            r is Ok <==> old(self).held().len() < StackScratch::<N>::capacity(),
    {
        match self.scratch.push_scratch(word) {
            Ok(()) => Ok(()),
            Err(e) => Err(BelliniSerializerError::ScratchSpaceError(e)),
        }
    }

    /// Hands back all but the first `len` words of the scratch space.
    pub fn pop_scratch(&mut self, len: usize) -> (r: Result<
        (),
        BelliniSerializerError<N, S::Error>,
    >)
        requires
            old(self).parts_wf(),
        ensures
            final(self).parts_wf(),
            final(self).inner() == old(self).inner(),
            forall|key: Seq<u8>| final(self).registered(key) == old(self).registered(key),
            match r {
                Ok(()) => final(self).held() == old(self).held().take(len as int),
                Err(e) => e matches BelliniSerializerError::ScratchSpaceError(
                    ScratchError::NotPoppedInReverseOrder,
                ) && final(self).held() == old(self).held(),
            },
            r is Ok <==> len <= old(self).held().len(),
    {
        match self.scratch.pop_scratch(len) {
            Ok(()) => Ok(()),
            Err(e) => Err(BelliniSerializerError::ScratchSpaceError(e)),
        }
    }

    /// The position registered for `value`, if any.
    pub fn get_shared_ptr(&self, value: &[u8]) -> (r: Option<usize>)
        requires
            self.parts_wf(),
        ensures
            r == self.registered(value@),
    {
        self.shared.get_shared_ptr(value)
    }

    /// Registers `pos` for `value`. Fails, and changes nothing, when
    /// `value` is registered already: an entry is never overwritten.
    pub fn add_shared_ptr(&mut self, value: &[u8], pos: usize) -> (r: Result<
        (),
        BelliniSerializerError<N, S::Error>,
    >)
        requires
            old(self).parts_wf(),
        ensures
            final(self).parts_wf(),
            final(self).inner() == old(self).inner(),
            final(self).held() == old(self).held(),
            r is Ok <==> old(self).registered(value@) is None,
            r matches Err(e) ==> e is SharedError,
            r is Ok ==> forall|key: Seq<u8>|
                #[trigger] final(self).registered(key) == if key == value@ {
                    Some(pos)
                } else {
                    old(self).registered(key)
                },
            r is Err ==> forall|key: Seq<u8>|
                #[trigger] final(self).registered(key) == old(self).registered(key),
    {
        match self.shared.add_shared_ptr(value, pos) {
            Ok(()) => Ok(()),
            Err(e) => Err(BelliniSerializerError::SharedError(e)),
        }
    }
}

/// The run `key` lies in `frame` at position `p`.
pub open spec fn lies_at(frame: Seq<u8>, key: Seq<u8>, p: int) -> bool {
    0 <= p && p + key.len() <= frame.len() && frame.subrange(p, p + key.len()) == key
}

/// The unsigned integer with the bits of `x`.
pub(crate) fn to_unsigned(x: i64) -> (r: u64)
    ensures
        r == x as u64,
{
    #[verifier::truncate]
    (x as u64)
}

/// The tag of a value's kind.
fn tag_for(value: &Value) -> (r: u8)
    ensures
        r == tag_of(value@),
{
    match value {
        Value::Null => TAG_NULL,
        Value::Bool(_) => TAG_BOOL,
        Value::String(_) => TAG_STRING,
        Value::Bytes(_) => TAG_BYTES,
        Value::U64(_) => TAG_U64,
        Value::I64(_) => TAG_I64,
        Value::F64(_) => TAG_F64,
        Value::Date(_) => TAG_DATE,
        Value::ArrayBool(_) => TAG_ARRAY_BOOL,
        Value::ArrayString(_) => TAG_ARRAY_STRING,
        Value::ArrayBytes(_) => TAG_ARRAY_BYTES,
        Value::ArrayU64(_) => TAG_ARRAY_U64,
        Value::ArrayI64(_) => TAG_ARRAY_I64,
        Value::ArrayF64(_) => TAG_ARRAY_F64,
        Value::ArrayDate(_) => TAG_ARRAY_DATE,
        Value::ArrayDynamic(_) => TAG_ARRAY_DYNAMIC,
        Value::Object(_) => TAG_OBJECT,
    }
}

/// The bits of a scalar, or the number of items that the record of any
/// other value refers to.
fn slot_for(value: &Value) -> (r: (bool, u64, usize))
    ensures
        r.0 == is_scalar(value@),
        r.0 ==> r.1 == scalar_bits(value@),
        !r.0 ==> r.2 == count_of(value@),
{
    match value {
        Value::Null => (true, 0, 0),
        Value::Bool(b) => (
            true,
            if *b {
                1
            } else {
                0
            },
            0,
        ),
        Value::String(t) => (false, 0, t.len()),
        Value::Bytes(b) => (false, 0, b.len()),
        Value::U64(x) => (true, *x, 0),
        Value::I64(x) => (true, to_unsigned(*x), 0),
        Value::F64(x) => (true, *x, 0),
        Value::Date(x) => (true, to_unsigned(*x), 0),
        Value::ArrayBool(items) => (false, 0, items.len()),
        Value::ArrayString(items) => (false, 0, items.len()),
        Value::ArrayBytes(items) => (false, 0, items.len()),
        Value::ArrayU64(items) => (false, 0, items.len()),
        Value::ArrayI64(items) => (false, 0, items.len()),
        Value::ArrayF64(items) => (false, 0, items.len()),
        Value::ArrayDate(items) => (false, 0, items.len()),
        Value::ArrayDynamic(items) => {
            proof {
                lemma_view_array_dynamic(value);
            }
            (false, 0, items.len())
        },
        Value::Object(items) => {
            proof {
                lemma_view_object(value);
            }
            (false, 0, items.len())
        },
    }
}

/// The sixteen bytes of two little-endian words.
fn two_words(first: u64, second: u64) -> (r: Vec<u8>)
    ensures
        r@ == spec_u64_to_le_bytes(first) + spec_u64_to_le_bytes(second),
        r@.len() == 16,
{
    proof {
        lemma_auto_spec_u64_to_from_le_bytes();
    }
    let mut out = u64_to_le_bytes(first);
    let mut tail = u64_to_le_bytes(second);
    out.append(&mut tail);
    out
}

/// The bytes of a reference stored at `at` to `count` items at
/// `target`.
fn reference(at: usize, target: usize, count: usize) -> (r: Vec<u8>)
    requires
        target <= at,
    ensures
        r@ == ref_bytes(at as int, target as int, count as int),
        r@.len() == 16,
{
    two_words((at - target) as u64, count as u64)
}

/// The record at `pos` of `value`, whose items lie at `target`.
fn record_for(value: &Value, pos: usize, target: usize) -> (r: Vec<u8>)
    requires
        pos + 8 <= usize::MAX,
        !is_scalar(value@) ==> target <= pos,
    ensures
        r@ == value_record(value@, pos as int, target as int),
        r@.len() == 24,
{
    let tag: u8 = tag_for(value);
    let slot = slot_for(value);
    let mut out: Vec<u8> = Vec::with_capacity(24);
    out.push(tag);
    out.push(0);
    out.push(0);
    out.push(0);
    out.push(0);
    out.push(0);
    out.push(0);
    out.push(0);
    assert(out@ =~= tag_bytes(tag));
    let mut tail = if slot.0 {
        two_words(slot.1, 0)
    } else {
        reference(pos + 8, target, slot.2)
    };
    out.append(&mut tail);
    out
}


/// A number that is archived as eight little-endian bytes.
pub trait Word {
    /// The eight bytes, as an unsigned number.
    spec fn bits(&self) -> u64;

    fn to_bits(&self) -> (r: u64)
        ensures
            r == self.bits(),
    ;
}

impl Word for u64 {
    open spec fn bits(&self) -> u64 {
        *self
    }

    fn to_bits(&self) -> (r: u64) {
        *self
    }
}

impl Word for i64 {
    open spec fn bits(&self) -> u64 {
        *self as u64
    }

    fn to_bits(&self) -> (r: u64) {
        to_unsigned(*self)
    }
}

/// A value that is archived as a run of bytes: a text or a byte string.
pub trait Run {
    /// The bytes.
    spec fn run(&self) -> Seq<u8>;

    /// Whether runs of this type are texts, and so UTF-8.
    spec fn is_text() -> bool;

    fn as_run(&self) -> (r: &[u8])
        ensures
            r@ == self.run(),
            Self::is_text() ==> valid_utf8(r@),
    ;
}

impl Run for Text {
    open spec fn run(&self) -> Seq<u8> {
        self@
    }

    open spec fn is_text() -> bool {
        true
    }

    fn as_run(&self) -> (r: &[u8]) {
        self.as_bytes()
    }
}

impl Run for Bytes {
    open spec fn run(&self) -> Seq<u8> {
        self@
    }

    open spec fn is_text() -> bool {
        false
    }

    fn as_run(&self) -> (r: &[u8]) {
        self.as_slice()
    }
}

/// The runs of a sequence of texts or byte strings.
pub open spec fn runs_of<T: Run>(items: Seq<T>) -> Seq<Seq<u8>> {
    Seq::new(items.len(), |i: int| items[i].run())
}

/// The numbers of a sequence, as they are archived.
pub open spec fn bits_of<T: Word>(items: Seq<T>) -> Seq<u64> {
    Seq::new(items.len(), |i: int| items[i].bits())
}

/// Positions as natural numbers.
pub open spec fn nats(positions: Seq<usize>) -> Seq<nat> {
    Seq::new(positions.len(), |i: int| positions[i] as nat)
}

impl<const N: usize, S: Serializer> BelliniSerializer<N, S> {
    /// The bytes written so far: the frame that archive offsets are
    /// relative to.
    pub open spec fn frame(&self) -> Seq<u8> {
        written(self.inner())
    }

    /// The number of further bytes that the sink is certain to accept.
    pub open spec fn room(&self) -> nat {
        self.inner().room()
    }

    /// Every registered run of bytes lies in the frame at its registered
    /// position.
    pub open spec fn registry_sound(&self) -> bool {
        forall|key: Seq<u8>|
            (#[trigger] self.registered(key)) is Some ==> lies_at(
                self.frame(),
                key,
                self.registered(key)->Some_0 as int,
            )
    }

    /// The parts are well-formed and fit together.
    pub open spec fn wf(&self) -> bool {
        &&& sink_wf(self.inner())
        &&& self.inner().inv()
        &&& self.parts_wf()
        &&& self.registry_sound()
    }

    /// `self` is `before` after some successful writes of at most `most`
    /// bytes: the earlier frame is kept and extended, the stream has
    /// grown by what the frame has grown by, and the sink has given up no
    /// more room than was written.
    pub open spec fn grown(&self, before: Self, most: nat) -> bool {
        &&& self.wf()
        &&& before.frame().is_prefix_of(self.frame())
        &&& self.frame().len() <= before.frame().len() + most
        &&& self.inner().stream() == before.inner().stream() + self.frame().skip(
            before.frame().len() as int,
        )
        &&& self.room() + (self.frame().len() - before.frame().len()) >= before.room()
    }

    /// `self` is `before` after a successful step of at most `most`
    /// bytes: it has grown, and the scratch space holds what it held.
    pub open spec fn advanced(&self, before: Self, most: nat) -> bool {
        self.grown(before, most) && self.held() == before.held()
    }

    /// The error `e` has its cause in `self`: the scratch space cannot
    /// hold `need` more words, or the sink is not certain to accept the
    /// bytes that lead from the frame to that of `goal`. A registry error
    /// has no cause.
    pub open spec fn failed(&self, e: BelliniSerializerError<N, S::Error>, need: nat, goal: Plan)
        -> bool {
        match e {
            BelliniSerializerError::SerializerError(_) => goal.out.len() > self.frame().len()
                + self.room(),
            BelliniSerializerError::ScratchSpaceError(_) => self.held().len() + need
                > StackScratch::<N>::capacity(),
            BelliniSerializerError::SharedError(_) => false,
        }
    }

    /// `self` is what is left of `before` after a step towards `goal`
    /// failed with `e`: the error has its cause in `before`, and the
    /// stream still begins with the bytes that it held.
    pub open spec fn aborted(
        &self,
        before: Self,
        e: BelliniSerializerError<N, S::Error>,
        need: nat,
        goal: Plan,
    ) -> bool {
        &&& before.failed(e, need, goal)
        &&& before.inner().stream().is_prefix_of(self.inner().stream())
    }

    /// Where each run of bytes that is registered lies.
    pub open spec fn seen(&self) -> Map<Seq<u8>, nat> {
        Map::new(
            |key: Seq<u8>| self.registered(key) is Some,
            |key: Seq<u8>| self.registered(key)->Some_0 as nat,
        )
    }

    /// The state of the serializer as far as it decides what is written
    /// next.
    pub open spec fn plan(&self) -> Plan {
        Plan { out: self.frame(), seen: self.seen() }
    }

    /// Appending bytes while the registry stays as it is appends them to
    /// the plan.
    pub proof fn lemma_plan_put(&self, before: Self, bytes: Seq<u8>)
        requires
            self.frame() == before.frame() + bytes,
            forall|key: Seq<u8>| self.registered(key) == before.registered(key),
        ensures
            self.plan() == put_bytes(before.plan(), bytes),
    {
        assert(self.seen() =~= before.seen());
    }

    /// The plan stays as it is while the frame and the registry do.
    pub proof fn lemma_plan_same(&self, before: Self)
        requires
            self.frame() == before.frame(),
            forall|key: Seq<u8>| self.registered(key) == before.registered(key),
        ensures
            self.plan() == before.plan(),
    {
        assert(self.seen() =~= before.seen());
    }

    /// The scratch space can hold `need` more words.
    pub open spec fn holds(&self, need: nat) -> bool {
        self.held().len() + need <= StackScratch::<N>::capacity()
    }

    /// A well-formed serializer has grown from itself by nothing.
    pub proof fn lemma_grown_none(&self)
        requires
            self.wf(),
        ensures
            self.grown(*self, 0),
    {
        assert(self.frame().skip(self.frame().len() as int) =~= Seq::<u8>::empty());
        assert(self.inner().stream() + Seq::<u8>::empty() =~= self.inner().stream());
    }

    /// Growth adds up.
    pub proof fn lemma_grown_twice(&self, middle: Self, before: Self, first: nat, second: nat)
        requires
            middle.grown(before, first),
            self.grown(middle, second),
        ensures
            self.grown(before, first + second),
    {
        let a = before.frame();
        let b = middle.frame();
        let c = self.frame();
        assert(c.subrange(0, a.len() as int) =~= b.subrange(0, a.len() as int));
        assert(b.skip(a.len() as int) + c.skip(b.len() as int) =~= c.skip(a.len() as int)) by {
            assert(c.subrange(0, b.len() as int) == b);
            assert forall|i: int| 0 <= i < b.len() - a.len() implies b.skip(a.len() as int)[i]
                == c.skip(a.len() as int)[i] by {
                assert(c.subrange(0, b.len() as int)[a.len() + i] == c[a.len() + i]);
            }
        }
        assert(before.inner().stream() + b.skip(a.len() as int) + c.skip(b.len() as int)
            =~= before.inner().stream() + c.skip(a.len() as int));
    }

    /// A failure after some growth is a failure of the whole, and what
    /// the stream held at the start it still holds.
    pub proof fn lemma_aborted_later(
        &self,
        middle: Self,
        before: Self,
        e: BelliniSerializerError<N, S::Error>,
        used: nat,
        need_now: nat,
        goal_now: Plan,
        need: nat,
        goal: Plan,
    )
        requires
            middle.grown(before, used),
            self.aborted(middle, e, need_now, goal_now),
            goal_now.out.len() <= goal.out.len(),
            middle.held().len() + need_now <= before.held().len() + need,
        ensures
            self.aborted(before, e, need, goal),
    {
        let a = before.inner().stream();
        let b = middle.inner().stream();
        let c = self.inner().stream();
        assert(b.subrange(0, a.len() as int) =~= a);
        assert(c.subrange(0, a.len() as int) =~= c.subrange(0, b.len() as int).subrange(
            0,
            a.len() as int,
        ));
    }

    /// A failure on the way to a nearer goal is a failure on the way to
    /// a farther one.
    pub proof fn lemma_aborted_farther(
        &self,
        before: Self,
        e: BelliniSerializerError<N, S::Error>,
        need_now: nat,
        goal_now: Plan,
        need: nat,
        goal: Plan,
    )
        requires
            self.aborted(before, e, need_now, goal_now),
            goal_now.out.len() <= goal.out.len(),
            need_now <= need,
        ensures
            self.aborted(before, e, need, goal),
    {
    }

    /// A registry that was sound stays sound when the frame is extended
    /// and the registry stays as it is.
    pub proof fn lemma_sound_after(&self, before: Self)
        requires
            before.registry_sound(),
            before.frame().is_prefix_of(self.frame()),
            forall|key: Seq<u8>| self.registered(key) == before.registered(key),
        ensures
            self.registry_sound(),
    {
        assert forall|key: Seq<u8>| (#[trigger] self.registered(key)) is Some implies lies_at(
            self.frame(),
            key,
            self.registered(key)->Some_0 as int,
        ) by {
            let p = self.registered(key)->Some_0 as int;
            assert(before.registered(key) is Some);
            lemma_prefix_range(before.frame(), self.frame(), p, p + key.len());
        }
    }

    /// Appends `bytes` to the frame.
    pub fn write(&mut self, bytes: &[u8]) -> (r: Result<(), BelliniSerializerError<N, S::Error>>)
        requires
            old(self).wf(),
        ensures
            match r {
                Ok(()) => {
                    &&& final(self).advanced(*old(self), bytes@.len())
                    &&& final(self).frame() == old(self).frame() + bytes@
                    &&& final(self).plan() == put_bytes(old(self).plan(), bytes@)
                    &&& forall|key: Seq<u8>|
                        final(self).registered(key) == old(self).registered(key)
                },
                Err(e) => final(self).aborted(
                    *old(self),
                    e,
                    0,
                    put_bytes(old(self).plan(), bytes@),
                ),
            },
    {
        let ghost before = self.serializer;
        match self.serializer.write(bytes) {
            Ok(()) => {
                proof {
                    lemma_written_append(before, self.serializer, bytes@);
                    self.lemma_sound_after(*old(self));
                    assert(self.frame().skip(old(self).frame().len() as int) =~= bytes@);
                    self.lemma_plan_put(*old(self), bytes@);
                }
                Ok(())
            },
            Err(e) => Err(BelliniSerializerError::SerializerError(e)),
        }
    }

    /// Appends `padding` zero bytes to the frame.
    pub fn pad(&mut self, padding: usize) -> (r: Result<(), BelliniSerializerError<N, S::Error>>)
        requires
            old(self).wf(),
        ensures
            match r {
                Ok(()) => {
                    &&& final(self).advanced(*old(self), padding as nat)
                    &&& final(self).frame() == old(self).frame() + zeros(padding as nat)
                    &&& final(self).plan() == put_bytes(old(self).plan(), zeros(padding as nat))
                    &&& forall|key: Seq<u8>|
                        final(self).registered(key) == old(self).registered(key)
                },
                Err(e) => final(self).aborted(
                    *old(self),
                    e,
                    0,
                    put_bytes(old(self).plan(), zeros(padding as nat)),
                ),
            },
    {
        let ghost before = self.serializer;
        match self.serializer.pad(padding) {
            Ok(()) => {
                proof {
                    lemma_written_append(before, self.serializer, zeros(padding as nat));
                    self.lemma_sound_after(*old(self));
                    assert(self.frame().skip(old(self).frame().len() as int) =~= zeros(
                        padding as nat,
                    ));
                    self.lemma_plan_put(*old(self), zeros(padding as nat));
                }
                Ok(())
            },
            Err(e) => Err(BelliniSerializerError::SerializerError(e)),
        }
    }

    /// Pads the frame with zero bytes to the next multiple of `align`,
    /// and returns the position reached.
    pub fn align(&mut self, align: usize) -> (r: Result<
        usize,
        BelliniSerializerError<N, S::Error>,
    >)
        requires
            old(self).wf(),
            align >= 1,
        ensures
            match r {
                Ok(p) => {
                    &&& final(self).advanced(*old(self), (align - 1) as nat)
                    &&& final(self).frame() == old(self).frame() + zeros(
                        padding_for(old(self).frame().len(), align as nat),
                    )
                    &&& final(self).plan() == put_bytes(
                        old(self).plan(),
                        zeros(padding_for(old(self).frame().len(), align as nat)),
                    )
                    &&& p == final(self).frame().len()
                    &&& p % align == 0
                    &&& forall|key: Seq<u8>|
                        final(self).registered(key) == old(self).registered(key)
                },
                Err(e) => final(self).aborted(
                    *old(self),
                    e,
                    0,
                    put_bytes(
                        old(self).plan(),
                        zeros(padding_for(old(self).frame().len(), align as nat)),
                    ),
                ),
            },
    {
        let ghost before = self.serializer;
        proof {
            lemma_padding(before.position(), align as nat);
        }
        match self.serializer.align(align) {
            Ok(p) => {
                proof {
                    let padding = zeros(padding_for(before.position(), align as nat));
                    lemma_written_append(before, self.serializer, padding);
                    self.lemma_sound_after(*old(self));
                    assert(self.frame().skip(old(self).frame().len() as int) =~= padding);
                    self.lemma_plan_put(*old(self), padding);
                }
                Ok(p)
            },
            Err(e) => Err(BelliniSerializerError::SerializerError(e)),
        }
    }

    /// The current position: the length of the frame.
    pub fn pos(&self) -> (p: usize)
        requires
            self.wf(),
        ensures
            p == self.frame().len(),
    {
        self.serializer.pos()
    }

    /// Writes a run of bytes, unless the same run was written before,
    /// and returns where it lies. A run that is registered is never
    /// written again: the position of its first occurrence is returned
    /// and the frame stays as it is.
    pub fn serialize_bytes(&mut self, bytes: &[u8]) -> (r: Result<
        usize,
        BelliniSerializerError<N, S::Error>,
    >)
        requires
            old(self).wf(),
        ensures
            match r {
                Ok(p) => {
                    &&& final(self).advanced(*old(self), bytes@.len())
                    &&& lies_at(final(self).frame(), bytes@, p as int)
                    &&& final(self).registered(bytes@) == Some(p)
                    &&& final(self).plan() == put_run(old(self).plan(), bytes@)
                    &&& p == run_target(old(self).plan(), bytes@)
                    &&& old(self).registered(bytes@) is Some ==> {
                        &&& final(self).frame() == old(self).frame()
                        &&& old(self).registered(bytes@) == Some(p)
                    }
                    &&& old(self).registered(bytes@) is None ==> {
                        &&& final(self).frame() == old(self).frame() + bytes@
                        &&& p == old(self).frame().len()
                    }
                },
                Err(e) => final(self).aborted(*old(self), e, 0, put_run(old(self).plan(), bytes@)),
            },
    {
        match self.shared.get_shared_ptr(bytes) {
            Some(p) => {
                proof {
                    self.lemma_grown_none();
                }
                Ok(p)
            },
            None => {
                let p: usize = self.pos();
                match self.write(bytes) {
                    Ok(()) => {},
                    Err(e) => {
                        return Err(e);
                    },
                }
                let ghost middle = *self;
                match self.shared.add_shared_ptr(bytes, p) {
                    Ok(()) => {
                        proof {
                            assert(self.frame().subrange(p as int, p + bytes@.len()) =~= bytes@);
                            assert forall|key: Seq<u8>| (#[trigger] self.registered(key))
                                is Some implies lies_at(
                                self.frame(),
                                key,
                                self.registered(key)->Some_0 as int,
                            ) by {
                                if key != bytes@ {
                                    assert(self.registered(key) == middle.registered(key));
                                }
                            }
                            assert(self.seen() =~= old(self).seen().insert(bytes@, p as nat));
                        }
                        Ok(p)
                    },
                    Err(e) => Err(BelliniSerializerError::SharedError(e)),
                }
            },
        }
    }
}

impl<const N: usize, S: Serializer> BelliniSerializer<N, S> {
    /// Writes the record of `value`, whose items lie at `target`, and
    /// returns the position of the record.
    fn write_record(&mut self, value: &Value, target: usize) -> (r: Result<
        usize,
        BelliniSerializerError<N, S::Error>,
    >)
        requires
            old(self).wf(),
            body_at(old(self).frame(), value@, target as int),
        ensures
            match r {
                Ok(pos) => {
                    &&& final(self).advanced(*old(self), 24)
                    &&& pos == old(self).frame().len()
                    &&& final(self).frame().len() == pos + 24
                    &&& read_value(final(self).frame(), pos as int) == Ok::<
                        ValueModel,
                        DecodeError,
                    >(value@)
                    &&& final(self).plan() == put_bytes(
                        old(self).plan(),
                        value_record(value@, pos as int, target as int),
                    )
                },
                Err(e) => final(self).aborted(
                    *old(self),
                    e,
                    0,
                    put_bytes(
                        old(self).plan(),
                        value_record(value@, old(self).frame().len() as int, target as int),
                    ),
                ),
            },
    {
        let pos: usize = self.pos();
        // A record that would end behind the largest position cannot be
        // written; the sink is still asked, so that it names the error.
        let record = if pos > usize::MAX - 24 {
            let mut blank = two_words(0, 0);
            let mut tail = u64_to_le_bytes(0);
            blank.append(&mut tail);
            blank
        } else {
            record_for(value, pos, target)
        };
        proof {
            lemma_auto_spec_u64_to_from_le_bytes();
            lemma_value_record_len(value@, pos as int, target as int);
        }
        match self.write(record.as_slice()) {
            Ok(()) => {
                // The position, once asked for, is known to fit a `usize`.
                let end: usize = self.pos();
                proof {
                    lemma_value_record(old(self).frame(), value@, target as int);
                }
                Ok(pos)
            },
            Err(e) => Err(e),
        }
    }

    /// Writes a run of booleans, one byte each, and returns where it
    /// lies.
    fn serialize_bools(&mut self, items: &Vec<bool>) -> (r: Result<
        usize,
        BelliniSerializerError<N, S::Error>,
    >)
        requires
            old(self).wf(),
        ensures
            match r {
                Ok(t) => {
                    &&& final(self).advanced(*old(self), items@.len())
                    &&& t + items@.len() <= final(self).frame().len()
                    &&& read_bools(final(self).frame(), t as int, items@.len() as int) == items@
                    &&& final(self).plan() == put_bytes(old(self).plan(), bool_bytes(items@))
                    &&& t == old(self).frame().len()
                },
                Err(e) => final(self).aborted(
                    *old(self),
                    e,
                    0,
                    put_bytes(old(self).plan(), bool_bytes(items@)),
                ),
            },
    {
        let n: usize = items.len();
        let mut bytes: Vec<u8> = Vec::with_capacity(n);
        let mut i: usize = 0;
        while i < n
            invariant
                i <= n,
                n == items@.len(),
                bytes@.len() == i,
                forall|j: int| 0 <= j < i ==> (#[trigger] bytes@[j] != 0) == items@[j],
                forall|j: int| 0 <= j < i ==> #[trigger] bytes@[j] == bool_bytes(items@)[j],
            decreases n - i,
        {
            bytes.push(
                if items[i] {
                    1
                } else {
                    0
                },
            );
            i += 1;
        }
        let t: usize = self.pos();
        proof {
            assert(bytes@ =~= bool_bytes(items@));
        }
        match self.write(bytes.as_slice()) {
            Ok(()) => {
                proof {
                    let got = read_bools(self.frame(), t as int, n as int);
                    assert forall|j: int| 0 <= j < n implies #[trigger] got[j] == items@[j] by {
                        assert(self.frame()[t + j] == bytes@[j]);
                        assert((bytes@[j] != 0) == items@[j]);
                    }
                    assert(got =~= items@);
                }
                Ok(t)
            },
            Err(e) => Err(e),
        }
    }

    /// Writes a run of 64-bit numbers at a multiple of eight, and returns
    /// where it lies.
    fn serialize_words<T: Word>(&mut self, items: &Vec<T>) -> (r: Result<
        usize,
        BelliniSerializerError<N, S::Error>,
    >)
        requires
            old(self).wf(),
        ensures
            match r {
                Ok(t) => {
                    &&& final(self).advanced(*old(self), 7 + 8 * items@.len())
                    &&& t + 8 * items@.len() <= final(self).frame().len()
                    &&& forall|j: int|
                        0 <= j < items@.len() ==> u64_at(final(self).frame(), t + 8 * j)
                            == (#[trigger] items@[j]).bits()
                    &&& final(self).plan() == put_words(old(self).plan(), bits_of(items@))
                    &&& t == put_padding(old(self).plan()).out.len()
                },
                Err(e) => final(self).aborted(
                    *old(self),
                    e,
                    0,
                    put_words(old(self).plan(), bits_of(items@)),
                ),
            },
    {
        let n: usize = items.len();
        let t: usize = match self.align(ALIGNMENT) {
            Ok(t) => t,
            Err(e) => {
                proof {
                    self.lemma_aborted_farther(
                        *old(self),
                        e,
                        0,
                        put_padding(old(self).plan()),
                        0,
                        put_words(old(self).plan(), bits_of(items@)),
                    );
                }
                return Err(e);
            },
        };
        let mut i: usize = 0;
        let ghost words = bits_of(items@);
        proof {
            assert(self.plan() == put_bytes(put_padding(old(self).plan()), word_bytes(words, 0)))
                by {
                assert(self.frame() + Seq::<u8>::empty() =~= self.frame());
            }
        }
        while i < n
            invariant
                i <= n,
                n == items@.len(),
                words == bits_of(items@),
                self.plan() == put_bytes(
                    put_padding(old(self).plan()),
                    word_bytes(words, i as nat),
                ),
                t == put_padding(old(self).plan()).out.len(),
                self.advanced(*old(self), (7 + 8 * i) as nat),
                self.frame().len() == t + 8 * i,
                forall|j: int|
                    0 <= j < i ==> u64_at(self.frame(), t + 8 * j) == (#[trigger] items@[j]).bits(),
            decreases n - i,
        {
            let bytes = u64_to_le_bytes(items[i].to_bits());
            let ghost before = *self;
            match self.write(bytes.as_slice()) {
                Ok(()) => {},
                Err(e) => {
                    proof {
                        lemma_auto_spec_u64_to_from_le_bytes();
                        lemma_word_bytes_len(words, i as nat);
                        lemma_word_bytes_len(words, n as nat);
                        self.lemma_aborted_later(
                            before,
                            *old(self),
                            e,
                            (7 + 8 * i) as nat,
                            0,
                            put_bytes(before.plan(), bytes@),
                            0,
                            put_words(old(self).plan(), words),
                        );
                    }
                    return Err(e);
                },
            }
            proof {
                lemma_auto_spec_u64_to_from_le_bytes();
                self.lemma_grown_twice(before, *old(self), (7 + 8 * i) as nat, 8);
                assert(self.frame().subrange(t + 8 * i, t + 8 * i + 8) =~= bytes@);
                assert forall|j: int| 0 <= j < i implies u64_at(self.frame(), t + 8 * j)
                    == (#[trigger] items@[j]).bits() by {
                    lemma_prefix_range(before.frame(), self.frame(), t + 8 * j, t + 8 * j + 8);
                }
                assert(words[i as int] == items@[i as int].bits());
                assert(put_padding(old(self).plan()).out + word_bytes(words, i as nat) + bytes@
                    =~= put_padding(old(self).plan()).out + word_bytes(words, (i + 1) as nat));
            }
            i += 1;
        }
        Ok(t)
    }

    /// Writes the references to the runs of `items`, whose positions are
    /// the topmost words of the scratch space, one after the other from
    /// `start`, where the frame ends.
    fn write_references<T: Run>(
        &mut self,
        items: &Vec<T>,
        base: usize,
        start: usize,
        Ghost(targets): Ghost<Seq<usize>>,
    ) -> (r: Result<(), BelliniSerializerError<N, S::Error>>)
        requires
            old(self).wf(),
            start == old(self).frame().len(),
            targets.len() == items@.len(),
            old(self).runs_staged(base as nat, runs_of(items@), targets, T::is_text()),
        ensures
            match r {
                Ok(()) => {
                    &&& final(self).advanced(*old(self), 16 * items@.len())
                    &&& final(self).frame().len() == start + 16 * items@.len()
                    &&& read_blobs(final(self).frame(), start as int, items@.len() as int) == Ok::<
                        Seq<Seq<u8>>,
                        DecodeError,
                    >(runs_of(items@))
                    &&& T::is_text() ==> read_texts(
                        final(self).frame(),
                        start as int,
                        items@.len() as int,
                    ) == Ok::<Seq<Seq<u8>>, DecodeError>(runs_of(items@))
                    &&& final(self).plan() == put_bytes(
                        old(self).plan(),
                        run_refs(start as nat, runs_of(items@), nats(targets), items@.len()),
                    )
                },
                Err(e) => final(self).aborted(
                    *old(self),
                    e,
                    0,
                    put_bytes(
                        old(self).plan(),
                        run_refs(start as nat, runs_of(items@), nats(targets), items@.len()),
                    ),
                ),
            },
    {
        let n: usize = items.len();
        proof {
            self.scratch.lemma_within_capacity();
        }
        let ghost runs = runs_of(items@);
        let ghost text = T::is_text();
        let mut i: usize = 0;
        proof {
            self.lemma_grown_none();
            assert(self.frame() + Seq::<u8>::empty() =~= self.frame());
            reveal(BelliniSerializer::runs_staged);
            reveal(refs_written);
        }
        while i < n
            invariant
                i <= n,
                n == items@.len(),
                runs == runs_of(items@),
                text == T::is_text(),
                targets.len() == n,
                base + n <= usize::MAX,
                self.plan() == put_bytes(
                    old(self).plan(),
                    run_refs(start as nat, runs, nats(targets), i as nat),
                ),
                self.advanced(*old(self), (16 * i) as nat),
                self.frame().len() == start + 16 * i,
                self.runs_staged(base as nat, runs, targets, text),
                refs_written(self.frame(), start as int, runs, i as int, text),
            decreases n - i,
        {
            proof {
                self.lemma_runs_staged_at(base as nat, runs, targets, text, i as int);
            }
            let at: usize = self.pos();
            let target: usize = self.held_at(base + i);
            let bytes = items[i].as_run();
            let record = reference(at, target, bytes.len());
            let ghost before = *self;
            match self.write(record.as_slice()) {
                Ok(()) => {},
                Err(e) => {
                    proof {
                        lemma_run_refs_len(start as nat, runs, nats(targets), i as nat);
                        lemma_run_refs_len(start as nat, runs, nats(targets), n as nat);
                        self.lemma_aborted_later(
                            before,
                            *old(self),
                            e,
                            (16 * i) as nat,
                            0,
                            put_bytes(before.plan(), record@),
                            0,
                            put_bytes(
                                old(self).plan(),
                                run_refs(start as nat, runs, nats(targets), n as nat),
                            ),
                        );
                    }
                    return Err(e);
                },
            }
            // The position, once asked for, is known to fit a `usize`.
            let end: usize = self.pos();
            proof {
                self.lemma_grown_twice(before, *old(self), (16 * i) as nat, 16);
                self.lemma_runs_staged_on(before, base as nat, runs, targets, text);
                lemma_ref_written(
                    before.frame(),
                    self.frame(),
                    start as int,
                    runs,
                    i as int,
                    target as int,
                    text,
                );
                lemma_run_refs_step(old(self).plan(), start as nat, runs, nats(targets), i as nat);
            }
            i += 1;
        }
        proof {
            reveal(refs_written);
            let frame = self.frame();
            let blobs = blob_items(frame, start as int, n as int);
            assert forall|j: int| 0 <= j < n implies #[trigger] blobs[j] == Ok::<
                Seq<u8>,
                DecodeError,
            >(runs[j]) by {
                assert(read_blob(frame, start + 16 * j, start + 16 * j) == Ok::<
                    Seq<u8>,
                    DecodeError,
                >(runs[j]));
            }
            lemma_collect_ok(blobs, runs);
            if text {
                let texts = text_items(frame, start as int, n as int);
                assert forall|j: int| 0 <= j < n implies #[trigger] texts[j] == Ok::<
                    Seq<u8>,
                    DecodeError,
                >(runs[j]) by {
                    assert(read_text(frame, start + 16 * j, start + 16 * j) == Ok::<
                        Seq<u8>,
                        DecodeError,
                    >(runs[j]));
                }
                lemma_collect_ok(texts, runs);
            }
        }
        Ok(())
    }

    /// The first runs of `runs` lie in the frame at `targets`, which are
    /// the words of the scratch space from `base` on; texts are UTF-8.
    #[verifier::opaque]
    spec fn runs_staged(&self, base: nat, runs: Seq<Seq<u8>>, targets: Seq<usize>, text: bool)
        -> bool {
        &&& targets.len() <= runs.len()
        &&& self.held().len() == base + targets.len()
        &&& forall|j: int|
            0 <= j < targets.len() ==> self.held()[base + j] == (#[trigger] targets[j]) as u64
        &&& forall|j: int|
            0 <= j < targets.len() ==> lies_at(self.frame(), #[trigger] runs[j], targets[j] as int)
                && (text ==> valid_utf8(runs[j]))
    }

    /// What is staged for the run at `i`.
    proof fn lemma_runs_staged_at(
        &self,
        base: nat,
        runs: Seq<Seq<u8>>,
        targets: Seq<usize>,
        text: bool,
        i: int,
    )
        requires
            self.runs_staged(base, runs, targets, text),
            0 <= i < targets.len(),
        ensures
            self.held().len() == base + targets.len(),
            self.held()[base + i] == targets[i] as u64,
            lies_at(self.frame(), runs[i], targets[i] as int),
            text ==> valid_utf8(runs[i]),
            nats(targets)[i] == targets[i],
    {
        reveal(BelliniSerializer::runs_staged);
    }

    /// What is staged stays staged while the frame is extended.
    proof fn lemma_runs_staged_on(
        &self,
        before: Self,
        base: nat,
        runs: Seq<Seq<u8>>,
        targets: Seq<usize>,
        text: bool,
    )
        requires
            before.runs_staged(base, runs, targets, text),
            before.frame().is_prefix_of(self.frame()),
            self.held() == before.held(),
        ensures
            self.runs_staged(base, runs, targets, text),
    {
        reveal(BelliniSerializer::runs_staged);
        assert forall|j: int| 0 <= j < targets.len() implies lies_at(
            self.frame(),
            #[trigger] runs[j],
            targets[j] as int,
        ) by {
            lemma_prefix_range(
                before.frame(),
                self.frame(),
                targets[j] as int,
                targets[j] + runs[j].len(),
            );
        }
    }

    /// One more run is staged once it lies in the frame and its position
    /// is put on the scratch space.
    proof fn lemma_runs_staged_push(
        &self,
        before: Self,
        base: nat,
        runs: Seq<Seq<u8>>,
        targets: Seq<usize>,
        text: bool,
        target: usize,
    )
        requires
            before.runs_staged(base, runs, targets, text),
            targets.len() < runs.len(),
            self.frame() == before.frame(),
            self.held() == before.held().push(target as u64),
            lies_at(before.frame(), runs[targets.len() as int], target as int),
            text ==> valid_utf8(runs[targets.len() as int]),
        ensures
            self.runs_staged(base, runs, targets.push(target), text),
    {
        reveal(BelliniSerializer::runs_staged);
    }
}

/// The first `i` of `runs` are read through the references that lie one
/// after the other from `start`.
#[verifier::opaque]
spec fn refs_written(frame: Seq<u8>, start: int, runs: Seq<Seq<u8>>, i: int, text: bool) -> bool {
    forall|j: int|
        0 <= j < i ==> read_blob(frame, start + 16 * j, start + 16 * j) == Ok::<
            Seq<u8>,
            DecodeError,
        >(#[trigger] runs[j]) && (text ==> read_text(frame, start + 16 * j, start + 16 * j)
            == Ok::<Seq<u8>, DecodeError>(runs[j]))
}

/// One more run is read once its reference is appended behind the
/// references to the runs before it.
proof fn lemma_ref_written(
    before: Seq<u8>,
    after: Seq<u8>,
    start: int,
    runs: Seq<Seq<u8>>,
    i: int,
    target: int,
    text: bool,
)
    requires
        0 <= start,
        0 <= i < runs.len(),
        before.len() == start + 16 * i,
        before.len() <= u64::MAX - 16,
        refs_written(before, start, runs, i, text),
        lies_at(before, runs[i], target),
        text ==> valid_utf8(runs[i]),
        after == before + ref_bytes(before.len() as int, target, runs[i].len() as int),
    ensures
        refs_written(after, start, runs, i + 1, text),
{
    reveal(refs_written);
    lemma_auto_spec_u64_to_from_le_bytes();
    let at = before.len() as int;
    assert(before.is_prefix_of(after)) by {
        assert(after.subrange(0, before.len() as int) =~= before);
    }
    assert(after.subrange(at, at + 16) =~= ref_bytes(at, target, runs[i].len() as int));
    lemma_ref_read_back(after, at, target, runs[i].len() as int);
    lemma_prefix_range(before, after, target, target + runs[i].len());
    assert forall|j: int| 0 <= j < i + 1 implies read_blob(after, start + 16 * j, start + 16 * j)
        == Ok::<Seq<u8>, DecodeError>(#[trigger] runs[j]) && (text ==> read_text(
        after,
        start + 16 * j,
        start + 16 * j,
    ) == Ok::<Seq<u8>, DecodeError>(runs[j])) by {
        if j < i {
            lemma_blob_stable(before, after, start + 16 * j, start + 16 * j);
        }
    }
}

/// The references to one more run follow those to the runs before it.
proof fn lemma_run_refs_step(plan: Plan, start: nat, runs: Seq<Seq<u8>>, targets: Seq<nat>, i: nat)
    requires
        i < runs.len(),
    ensures
        put_bytes(
            put_bytes(plan, run_refs(start, runs, targets, i)),
            ref_bytes(
                (start + 16 * i) as int,
                targets[i as int] as int,
                runs[i as int].len() as int,
            ),
        ) == put_bytes(plan, run_refs(start, runs, targets, i + 1)),
{
    assert(plan.out + run_refs(start, runs, targets, i) + ref_bytes(
        (start + 16 * i) as int,
        targets[i as int] as int,
        runs[i as int].len() as int,
    ) =~= plan.out + run_refs(start, runs, targets, i + 1));
}

impl<const N: usize, S: Serializer> BelliniSerializer<N, S> {
    /// Puts the position `target` on the scratch space.
    fn hold(&mut self, target: usize) -> (r: Result<(), BelliniSerializerError<N, S::Error>>)
        requires
            old(self).wf(),
        ensures
            match r {
                Ok(()) => {
                    &&& final(self).grown(*old(self), 0)
                    &&& final(self).frame() == old(self).frame()
                    &&& final(self).held() == old(self).held().push(target as u64)
                    &&& final(self).plan() == old(self).plan()
                    &&& old(self).holds(1)
                },
                Err(e) => final(self).aborted(*old(self), e, 1, old(self).plan()),
            },
    {
        match self.scratch.push_scratch(target as u64) {
            Ok(()) => {
                proof {
                    assert(self.frame().subrange(0, self.frame().len() as int) =~= self.frame());
                    self.lemma_sound_after(*old(self));
                    self.lemma_grown_none();
                    self.lemma_plan_same(*old(self));
                }
                Ok(())
            },
            Err(e) => Err(BelliniSerializerError::ScratchSpaceError(e)),
        }
    }

    /// Hands back all but the first `len` words of the scratch space,
    /// which holds at least that many.
    fn release(&mut self, len: usize)
        requires
            old(self).wf(),
            len <= old(self).held().len(),
        ensures
            final(self).grown(*old(self), 0),
            final(self).frame() == old(self).frame(),
            final(self).plan() == old(self).plan(),
            final(self).held() == old(self).held().take(len as int),
    {
        let _ = self.scratch.pop_scratch(len);
        proof {
            assert(self.frame().subrange(0, self.frame().len() as int) =~= self.frame());
            self.lemma_sound_after(*old(self));
            self.lemma_grown_none();
            self.lemma_plan_same(*old(self));
        }
    }

    /// The position held in the scratch space at `index`.
    fn held_at(&self, index: usize) -> (r: usize)
        requires
            self.wf(),
            index < self.held().len(),
            self.held()[index as int] <= usize::MAX,
        ensures
            r == self.held()[index as int],
    {
        match self.scratch.get(index) {
            Some(word) => word as usize,
            None => 0,
        }
    }

    /// Writes each run unless the same run was written before, then the
    /// references to them, one after the other at a multiple of eight.
    /// Returns where the references lie.
    fn serialize_runs<T: Run>(&mut self, items: &Vec<T>) -> (r: Result<
        usize,
        BelliniSerializerError<N, S::Error>,
    >)
        requires
            old(self).wf(),
        ensures
            match r {
                Ok(t) => {
                    &&& final(self).advanced(
                        *old(self),
                        blobs_size(runs_of(items@), items@.len()) + 7 + 16 * items@.len(),
                    )
                    &&& t + 16 * items@.len() <= final(self).frame().len()
                    &&& read_blobs(final(self).frame(), t as int, items@.len() as int) == Ok::<
                        Seq<Seq<u8>>,
                        DecodeError,
                    >(runs_of(items@))
                    &&& T::is_text() ==> read_texts(
                        final(self).frame(),
                        t as int,
                        items@.len() as int,
                    ) == Ok::<Seq<Seq<u8>>, DecodeError>(runs_of(items@))
                    &&& old(self).holds(items@.len())
                    &&& final(self).plan() == put_runs(old(self).plan(), runs_of(items@))
                    &&& t == put_padding(
                        staged_runs(old(self).plan(), runs_of(items@), items@.len()),
                    ).out.len()
                },
                Err(e) => final(self).aborted(
                    *old(self),
                    e,
                    items@.len(),
                    put_runs(old(self).plan(), runs_of(items@)),
                ),
            },
    {
        let n: usize = items.len();
        let ghost runs = runs_of(items@);
        let ghost text = T::is_text();
        let ghost total: nat = (blobs_size(runs, n as nat) + 7 + 16 * n) as nat;
        let base: usize = self.scratch.len();
        let ghost mut targets: Seq<usize> = Seq::empty();
        let mut i: usize = 0;
        proof {
            self.lemma_grown_none();
            assert(self.held().take(base as int) =~= old(self).held());
            assert(nats(targets) =~= run_positions(old(self).plan(), runs, 0));
            reveal(BelliniSerializer::runs_staged);
        }
        while i < n
            invariant
                i <= n,
                n == items@.len(),
                runs == runs_of(items@),
                text == T::is_text(),
                total == blobs_size(runs, n as nat) + 7 + 16 * n,
                base == old(self).held().len(),
                self.grown(*old(self), blobs_size(runs, i as nat)),
                self.plan() == staged_runs(old(self).plan(), runs, i as nat),
                nats(targets) == run_positions(old(self).plan(), runs, i as nat),
                targets.len() == i,
                self.held().len() == base + i,
                self.held().take(base as int) == old(self).held(),
                self.runs_staged(base as nat, runs, targets, text),
            decreases n - i,
        {
            let bytes = items[i].as_run();
            let ghost before = *self;
            proof {
                lemma_sums_monotonic(runs, Seq::empty(), Seq::empty(), (i + 1) as nat, n as nat);
                assert(runs[i as int] == bytes@);
            }
            let target: usize = match self.serialize_bytes(bytes) {
                Ok(t) => t,
                Err(e) => {
                    proof {
                        lemma_staged_runs_grow(old(self).plan(), runs, (i + 1) as nat, n as nat);
                        self.lemma_aborted_later(
                            before,
                            *old(self),
                            e,
                            blobs_size(runs, i as nat),
                            0,
                            put_run(before.plan(), bytes@),
                            n as nat,
                            put_runs(old(self).plan(), runs),
                        );
                    }
                    return Err(e);
                },
            };
            let ghost middle = *self;
            proof {
                middle.lemma_grown_twice(
                    before,
                    *old(self),
                    blobs_size(runs, i as nat),
                    bytes@.len(),
                );
                middle.lemma_runs_staged_on(before, base as nat, runs, targets, text);
            }
            match self.hold(target) {
                Ok(()) => {},
                Err(e) => {
                    proof {
                        lemma_staged_runs_grow(old(self).plan(), runs, (i + 1) as nat, n as nat);
                        self.lemma_aborted_later(
                            middle,
                            *old(self),
                            e,
                            blobs_size(runs, (i + 1) as nat),
                            1,
                            middle.plan(),
                            n as nat,
                            put_runs(old(self).plan(), runs),
                        );
                    }
                    return Err(e);
                },
            }
            proof {
                self.lemma_grown_twice(middle, *old(self), blobs_size(runs, (i + 1) as nat), 0);
                self.lemma_runs_staged_push(middle, base as nat, runs, targets, text, target);
                assert(nats(targets.push(target)) =~= run_positions(
                    old(self).plan(),
                    runs,
                    (i + 1) as nat,
                ));
                targets = targets.push(target);
                assert(self.held().take(base as int) =~= middle.held().take(base as int));
            }
            i += 1;
        }
        let ghost filled = *self;
        let start: usize = match self.align(ALIGNMENT) {
            Ok(t) => t,
            Err(e) => {
                proof {
                    self.lemma_aborted_later(
                        filled,
                        *old(self),
                        e,
                        blobs_size(runs, n as nat),
                        0,
                        put_padding(filled.plan()),
                        n as nat,
                        put_runs(old(self).plan(), runs),
                    );
                }
                return Err(e);
            },
        };
        let ghost aligned = *self;
        proof {
            aligned.lemma_grown_twice(filled, *old(self), blobs_size(runs, n as nat), 7);
            aligned.lemma_runs_staged_on(filled, base as nat, runs, targets, text);
        }
        proof {
            self.scratch.lemma_within_capacity();
        }
        match self.write_references(items, base, start, Ghost(targets)) {
            Ok(()) => {},
            Err(e) => {
                proof {
                    self.lemma_aborted_later(
                        aligned,
                        *old(self),
                        e,
                        blobs_size(runs, n as nat) + 7,
                        0,
                        put_runs(old(self).plan(), runs),
                        n as nat,
                        put_runs(old(self).plan(), runs),
                    );
                }
                return Err(e);
            },
        }
        let ghost done = *self;
        self.release(base);
        proof {
            done.lemma_grown_twice(
                aligned,
                *old(self),
                blobs_size(runs, n as nat) + 7,
                (16 * n) as nat,
            );
            self.lemma_grown_twice(done, *old(self), total, 0);
            assert(self.held() =~= old(self).held());
        }
        Ok(start)
    }
}

/// The forty bytes of an entry record at `at`, or forty zero bytes where
/// such a record would end behind the largest position.
fn entry_for(key: &Text, value: &Value, at: usize, key_target: usize, target: usize) -> (r: Vec<u8>)
    requires
        key_target <= at,
        !is_scalar(value@) ==> target <= at,
    ensures
        r@.len() == 40,
        at + 40 <= usize::MAX ==> r@ == entry_record(
            key@,
            value@,
            at as int,
            key_target as int,
            target as int,
        ),
{
    proof {
        lemma_auto_spec_u64_to_from_le_bytes();
    }
    if at > usize::MAX - 40 {
        let mut blank = two_words(0, 0);
        let mut more = two_words(0, 0);
        let mut tail = u64_to_le_bytes(0);
        blank.append(&mut more);
        blank.append(&mut tail);
        blank
    } else {
        let mut out = reference(at, key_target, key.len());
        let mut record = record_for(value, at + 16, target);
        out.append(&mut record);
        out
    }
}

/// A text that lies in a frame lies in any frame that extends it.
proof fn lemma_text_stable(a: Seq<u8>, b: Seq<u8>, text: Seq<u8>, target: int)
    requires
        a.is_prefix_of(b),
        text_at(a, text, target),
    ensures
        text_at(b, text, target),
{
    lemma_prefix_range(a, b, target, target + text.len());
}

impl<const N: usize, S: Serializer> BelliniSerializer<N, S> {
    /// Writes the records of `values`, whose items lie at the positions
    /// that are the topmost words of the scratch space, one after the
    /// other from `start`, where the frame ends.
    fn write_value_records(
        &mut self,
        values: &Vec<Value>,
        base: usize,
        start: usize,
        Ghost(targets): Ghost<Seq<usize>>,
    ) -> (r: Result<(), BelliniSerializerError<N, S::Error>>)
        requires
            old(self).wf(),
            start == old(self).frame().len(),
            targets.len() == values@.len(),
            old(self).values_staged(base as nat, values@, targets),
        ensures
            match r {
                Ok(()) => {
                    &&& final(self).advanced(*old(self), 24 * values@.len())
                    &&& final(self).frame().len() == start + 24 * values@.len()
                    &&& read_values(final(self).frame(), start as int, values@.len() as int)
                        == Ok::<Seq<ValueModel>, DecodeError>(values_view(values@))
                    &&& final(self).plan() == put_bytes(
                        old(self).plan(),
                        value_records(
                            start as nat,
                            values_view(values@),
                            nats(targets),
                            values@.len(),
                        ),
                    )
                },
                Err(e) => final(self).aborted(
                    *old(self),
                    e,
                    0,
                    put_bytes(
                        old(self).plan(),
                        value_records(
                            start as nat,
                            values_view(values@),
                            nats(targets),
                            values@.len(),
                        ),
                    ),
                ),
            },
    {
        let n: usize = values.len();
        proof {
            self.scratch.lemma_within_capacity();
        }
        let ghost models = values_view(values@);
        let mut i: usize = 0;
        proof {
            self.lemma_grown_none();
            assert(self.frame() + Seq::<u8>::empty() =~= self.frame());
            reveal(BelliniSerializer::values_staged);
            reveal(values_written);
        }
        while i < n
            invariant
                i <= n,
                n == values@.len(),
                models == values_view(values@),
                targets.len() == n,
                base + n <= usize::MAX,
                self.plan() == put_bytes(
                    old(self).plan(),
                    value_records(start as nat, models, nats(targets), i as nat),
                ),
                self.advanced(*old(self), (24 * i) as nat),
                self.frame().len() == start + 24 * i,
                self.values_staged(base as nat, values@, targets),
                values_written(self.frame(), start as int, models, i as int),
            decreases n - i,
        {
            proof {
                self.lemma_values_staged_at(base as nat, values@, targets, i as int);
            }
            let target: usize = self.held_at(base + i);
            let ghost before = *self;
            match self.write_record(&values[i], target) {
                Ok(_) => {},
                Err(e) => {
                    proof {
                        lemma_value_records_len(start as nat, models, nats(targets), i as nat);
                        lemma_value_records_len(start as nat, models, nats(targets), n as nat);
                        lemma_value_record_len(
                            models[i as int],
                            before.frame().len() as int,
                            target as int,
                        );
                        self.lemma_aborted_later(
                            before,
                            *old(self),
                            e,
                            (24 * i) as nat,
                            0,
                            put_bytes(
                                before.plan(),
                                value_record(
                                    models[i as int],
                                    before.frame().len() as int,
                                    target as int,
                                ),
                            ),
                            0,
                            put_bytes(
                                old(self).plan(),
                                value_records(start as nat, models, nats(targets), n as nat),
                            ),
                        );
                    }
                    return Err(e);
                },
            }
            proof {
                self.lemma_grown_twice(before, *old(self), (24 * i) as nat, 24);
                self.lemma_values_staged_on(before, base as nat, values@, targets);
                lemma_value_written(before.frame(), self.frame(), start as int, models, i as int);
                lemma_value_records_step(
                    old(self).plan(),
                    start as nat,
                    models,
                    nats(targets),
                    i as nat,
                );
            }
            i += 1;
        }
        proof {
            reveal(values_written);
            let items = value_items(self.frame(), start as int, n as int);
            assert forall|j: int| 0 <= j < n implies #[trigger] items[j] == Ok::<
                ValueModel,
                DecodeError,
            >(models[j]) by {
                assert(read_value(self.frame(), start + 24 * j) == Ok::<ValueModel, DecodeError>(
                    models[j],
                ));
            }
            lemma_collect_ok(items, models);
        }
        Ok(())
    }

    /// What is staged for the value at `i`.
    proof fn lemma_values_staged_at(
        &self,
        base: nat,
        values: Seq<Value>,
        targets: Seq<usize>,
        i: int,
    )
        requires
            self.values_staged(base, values, targets),
            0 <= i < targets.len(),
        ensures
            self.held().len() == base + targets.len(),
            self.held()[base + i] == targets[i] as u64,
            body_at(self.frame(), values[i]@, targets[i] as int),
            values_view(values)[i] == values[i]@,
            nats(targets)[i] == targets[i],
    {
        reveal(BelliniSerializer::values_staged);
    }

    /// Writes the records of `entries`, whose keys and items lie at the
    /// positions that are the topmost words of the scratch space, one
    /// after the other from `start`, where the frame ends.
    fn write_entry_records(
        &mut self,
        entries: &[(Text, Value)],
        base: usize,
        start: usize,
        Ghost(key_targets): Ghost<Seq<usize>>,
        Ghost(targets): Ghost<Seq<usize>>,
    ) -> (r: Result<(), BelliniSerializerError<N, S::Error>>)
        requires
            old(self).wf(),
            start == old(self).frame().len(),
            targets.len() == entries@.len(),
            old(self).entries_staged(base as nat, entries@, key_targets, targets),
        ensures
            match r {
                Ok(()) => {
                    &&& final(self).advanced(*old(self), 40 * entries@.len())
                    &&& final(self).frame().len() == start + 40 * entries@.len()
                    &&& read_entries(final(self).frame(), start as int, entries@.len() as int)
                        == Ok::<Seq<(Seq<u8>, ValueModel)>, DecodeError>(pairs_view(entries@))
                    &&& final(self).plan() == put_bytes(
                        old(self).plan(),
                        entry_records(
                            start as nat,
                            pairs_view(entries@),
                            nats(key_targets),
                            nats(targets),
                            entries@.len(),
                        ),
                    )
                },
                Err(e) => final(self).aborted(
                    *old(self),
                    e,
                    0,
                    put_bytes(
                        old(self).plan(),
                        entry_records(
                            start as nat,
                            pairs_view(entries@),
                            nats(key_targets),
                            nats(targets),
                            entries@.len(),
                        ),
                    ),
                ),
            },
    {
        let n: usize = entries.len();
        proof {
            self.scratch.lemma_within_capacity();
        }
        let ghost models = pairs_view(entries@);
        let mut i: usize = 0;
        proof {
            self.lemma_grown_none();
            assert(self.frame() + Seq::<u8>::empty() =~= self.frame());
            reveal(BelliniSerializer::entries_staged);
            reveal(entries_written);
        }
        while i < n
            invariant
                i <= n,
                n == entries@.len(),
                models == pairs_view(entries@),
                targets.len() == n,
                key_targets.len() == n,
                base + 2 * n <= usize::MAX,
                self.plan() == put_bytes(
                    old(self).plan(),
                    entry_records(
                        start as nat,
                        models,
                        nats(key_targets),
                        nats(targets),
                        i as nat,
                    ),
                ),
                self.advanced(*old(self), (40 * i) as nat),
                self.frame().len() == start + 40 * i,
                self.entries_staged(base as nat, entries@, key_targets, targets),
                entries_written(self.frame(), start as int, models, i as int),
            decreases n - i,
        {
            proof {
                self.lemma_entries_staged_at(base as nat, entries@, key_targets, targets, i as int);
            }
            let key_target: usize = self.held_at(base + 2 * i);
            let target: usize = self.held_at(base + 2 * i + 1);
            let at: usize = self.pos();
            let ghost before = *self;
            let record = entry_for(&entries[i].0, &entries[i].1, at, key_target, target);
            match self.write(record.as_slice()) {
                Ok(()) => {},
                Err(e) => {
                    proof {
                        lemma_entry_records_len(
                            start as nat,
                            models,
                            nats(key_targets),
                            nats(targets),
                            i as nat,
                        );
                        lemma_entry_records_len(
                            start as nat,
                            models,
                            nats(key_targets),
                            nats(targets),
                            n as nat,
                        );
                        self.lemma_aborted_later(
                            before,
                            *old(self),
                            e,
                            (40 * i) as nat,
                            0,
                            put_bytes(before.plan(), record@),
                            0,
                            put_bytes(
                                old(self).plan(),
                                entry_records(
                                    start as nat,
                                    models,
                                    nats(key_targets),
                                    nats(targets),
                                    n as nat,
                                ),
                            ),
                        );
                    }
                    return Err(e);
                },
            }
            // The position, once asked for, is known to fit a `usize`.
            let end: usize = self.pos();
            proof {
                self.lemma_grown_twice(before, *old(self), (40 * i) as nat, 40);
                self.lemma_entries_staged_on(before, base as nat, entries@, key_targets, targets);
                lemma_entry_written(
                    before.frame(),
                    self.frame(),
                    start as int,
                    models,
                    i as int,
                    key_target as int,
                    target as int,
                );
                lemma_entry_records_step(
                    old(self).plan(),
                    start as nat,
                    models,
                    nats(key_targets),
                    nats(targets),
                    i as nat,
                );
            }
            i += 1;
        }
        proof {
            reveal(entries_written);
            let items = entry_items(self.frame(), start as int, n as int);
            assert forall|j: int| 0 <= j < n implies #[trigger] items[j] == Ok::<
                (Seq<u8>, ValueModel),
                DecodeError,
            >(models[j]) by {
                assert(read_entry(self.frame(), start + 40 * j) == Ok::<
                    (Seq<u8>, ValueModel),
                    DecodeError,
                >(models[j]));
            }
            lemma_collect_ok(items, models);
        }
        Ok(())
    }

    /// What is staged for the entry at `i`.
    proof fn lemma_entries_staged_at(
        &self,
        base: nat,
        entries: Seq<(Text, Value)>,
        key_targets: Seq<usize>,
        targets: Seq<usize>,
        i: int,
    )
        requires
            self.entries_staged(base, entries, key_targets, targets),
            0 <= i < targets.len(),
        ensures
            self.held().len() == base + 2 * targets.len(),
            self.held()[base + 2 * i] == key_targets[i] as u64,
            self.held()[base + 2 * i + 1] == targets[i] as u64,
            text_at(self.frame(), entries[i].0@, key_targets[i] as int),
            body_at(self.frame(), entries[i].1@, targets[i] as int),
            pairs_view(entries)[i] == (entries[i].0@, entries[i].1@),
            nats(targets)[i] == targets[i],
            nats(key_targets)[i] == key_targets[i],
    {
        reveal(BelliniSerializer::entries_staged);
    }
}

/// The first `i` of `models` are read from the records that lie one
/// after the other from `start`.
#[verifier::opaque]
spec fn values_written(frame: Seq<u8>, start: int, models: Seq<ValueModel>, i: int) -> bool {
    forall|j: int|
        0 <= j < i ==> read_value(frame, start + 24 * j) == Ok::<ValueModel, DecodeError>(
            #[trigger] models[j],
        )
}

/// One more value is read once its record is appended behind the
/// records of the values before it.
proof fn lemma_value_written(
    before: Seq<u8>,
    after: Seq<u8>,
    start: int,
    models: Seq<ValueModel>,
    i: int,
)
    requires
        0 <= start,
        0 <= i < models.len(),
        before.len() == start + 24 * i,
        after.len() == before.len() + 24,
        before.is_prefix_of(after),
        values_written(before, start, models, i),
        read_value(after, before.len() as int) == Ok::<ValueModel, DecodeError>(models[i]),
    ensures
        values_written(after, start, models, i + 1),
{
    reveal(values_written);
    assert forall|j: int| 0 <= j < i + 1 implies read_value(after, start + 24 * j) == Ok::<
        ValueModel,
        DecodeError,
    >(#[trigger] models[j]) by {
        if j < i {
            lemma_value_stable(before, after, start + 24 * j);
        }
    }
}

/// The record of one more value follows those of the values before it.
proof fn lemma_value_records_step(
    plan: Plan,
    start: nat,
    models: Seq<ValueModel>,
    targets: Seq<nat>,
    i: nat,
)
    requires
        i < models.len(),
    ensures
        put_bytes(
            put_bytes(plan, value_records(start, models, targets, i)),
            value_record(models[i as int], (start + 24 * i) as int, targets[i as int] as int),
        ) == put_bytes(plan, value_records(start, models, targets, i + 1)),
{
    assert(plan.out + value_records(start, models, targets, i) + value_record(
        models[i as int],
        (start + 24 * i) as int,
        targets[i as int] as int,
    ) =~= plan.out + value_records(start, models, targets, i + 1));
}

/// The record of one more entry follows those of the entries before it.
proof fn lemma_entry_records_step(
    plan: Plan,
    start: nat,
    models: Seq<(Seq<u8>, ValueModel)>,
    keys: Seq<nat>,
    targets: Seq<nat>,
    i: nat,
)
    requires
        i < models.len(),
    ensures
        put_bytes(
            put_bytes(plan, entry_records(start, models, keys, targets, i)),
            entry_record(
                models[i as int].0,
                models[i as int].1,
                (start + 40 * i) as int,
                keys[i as int] as int,
                targets[i as int] as int,
            ),
        ) == put_bytes(plan, entry_records(start, models, keys, targets, i + 1)),
{
    assert(plan.out + entry_records(start, models, keys, targets, i) + entry_record(
        models[i as int].0,
        models[i as int].1,
        (start + 40 * i) as int,
        keys[i as int] as int,
        targets[i as int] as int,
    ) =~= plan.out + entry_records(start, models, keys, targets, i + 1));
}

/// The first `i` entries of `models` are read from the records that lie
/// one after the other from `start`.
#[verifier::opaque]
spec fn entries_written(
    frame: Seq<u8>,
    start: int,
    models: Seq<(Seq<u8>, ValueModel)>,
    i: int,
) -> bool {
    forall|j: int|
        0 <= j < i ==> read_entry(frame, start + 40 * j) == Ok::<
            (Seq<u8>, ValueModel),
            DecodeError,
        >(#[trigger] models[j])
}

/// One more entry is read once its record is appended behind the
/// records of the entries before it.
proof fn lemma_entry_written(
    before: Seq<u8>,
    after: Seq<u8>,
    start: int,
    models: Seq<(Seq<u8>, ValueModel)>,
    i: int,
    key_target: int,
    target: int,
)
    requires
        0 <= start,
        0 <= i < models.len(),
        before.len() == start + 40 * i,
        before.len() <= u64::MAX - 40,
        entries_written(before, start, models, i),
        text_at(before, models[i].0, key_target),
        body_at(before, models[i].1, target),
        after == before + entry_record(
            models[i].0,
            models[i].1,
            before.len() as int,
            key_target,
            target,
        ),
    ensures
        entries_written(after, start, models, i + 1),
{
    reveal(entries_written);
    lemma_entry_record(before, models[i].0, models[i].1, key_target, target);
    assert(before.is_prefix_of(after)) by {
        assert(after.subrange(0, before.len() as int) =~= before);
    }
    assert forall|j: int| 0 <= j < i + 1 implies read_entry(after, start + 40 * j) == Ok::<
        (Seq<u8>, ValueModel),
        DecodeError,
    >(#[trigger] models[j]) by {
        if j < i {
            lemma_entry_stable(before, after, start + 40 * j);
        }
    }
}

impl<const N: usize, S: Serializer> BelliniSerializer<N, S> {
    /// Writes all that the record of `value` will refer to, and returns
    /// where it lies. Nothing is written for a scalar.
    fn serialize_body(&mut self, value: &Value) -> (r: Result<
        usize,
        BelliniSerializerError<N, S::Error>,
    >)
        requires
            old(self).wf(),
        ensures
            match r {
                Ok(t) => {
                    &&& final(self).advanced(*old(self), body_size(value@))
                    &&& body_at(final(self).frame(), value@, t as int)
                    &&& old(self).holds(scratch_need(value@))
                    &&& final(self).plan() == body_plan(old(self).plan(), value@)
                    &&& t == body_target(old(self).plan(), value@)
                },
                Err(e) => final(self).aborted(
                    *old(self),
                    e,
                    scratch_need(value@),
                    body_plan(old(self).plan(), value@),
                ),
            },
        decreases *value, 1int,
    {
        proof {
            self.scratch.lemma_within_capacity();
        }
        match value {
            Value::String(text) => self.serialize_bytes(text.as_bytes()),
            Value::Bytes(bytes) => self.serialize_bytes(bytes.as_slice()),
            Value::ArrayBool(items) => self.serialize_bools(items),
            Value::ArrayString(items) => {
                proof {
                    assert(runs_of(items@) =~= texts_view(items@));
                }
                self.serialize_runs(items)
            },
            Value::ArrayBytes(items) => {
                proof {
                    assert(runs_of(items@) =~= blobs_view(items@));
                }
                self.serialize_runs(items)
            },
            Value::ArrayU64(items) => self.serialize_unsigned(items),
            Value::ArrayI64(items) => self.serialize_signed(items),
            Value::ArrayF64(items) => self.serialize_unsigned(items),
            Value::ArrayDate(items) => self.serialize_signed(items),
            Value::ArrayDynamic(items) => {
                proof {
                    lemma_view_array_dynamic(value);
                }
                self.serialize_values(items)
            },
            Value::Object(items) => {
                proof {
                    lemma_view_object(value);
                }
                self.serialize_entries(items.as_slice())
            },
            _ => {
                proof {
                    self.lemma_grown_none();
                }
                Ok(0)
            },
        }
    }

    /// Writes a run of unsigned numbers at a multiple of eight, and
    /// returns where it lies.
    fn serialize_unsigned(&mut self, items: &Vec<u64>) -> (r: Result<
        usize,
        BelliniSerializerError<N, S::Error>,
    >)
        requires
            old(self).wf(),
        ensures
            match r {
                Ok(t) => {
                    &&& final(self).advanced(*old(self), 7 + 8 * items@.len())
                    &&& t + 8 * items@.len() <= final(self).frame().len()
                    &&& read_u64s(final(self).frame(), t as int, items@.len() as int) == items@
                    &&& final(self).plan() == put_words(old(self).plan(), items@)
                    &&& t == put_padding(old(self).plan()).out.len()
                },
                Err(e) => final(self).aborted(
                    *old(self),
                    e,
                    0,
                    put_words(old(self).plan(), items@),
                ),
            },
    {
        proof {
            assert(bits_of(items@) =~= items@);
        }
        let r = self.serialize_words(items);
        proof {
            if r is Ok {
                let t = r->Ok_0 as int;
                assert(read_u64s(self.frame(), t, items@.len() as int) =~= items@);
            }
        }
        r
    }

    /// Writes a run of signed numbers at a multiple of eight, and
    /// returns where it lies.
    fn serialize_signed(&mut self, items: &Vec<i64>) -> (r: Result<
        usize,
        BelliniSerializerError<N, S::Error>,
    >)
        requires
            old(self).wf(),
        ensures
            match r {
                Ok(t) => {
                    &&& final(self).advanced(*old(self), 7 + 8 * items@.len())
                    &&& t + 8 * items@.len() <= final(self).frame().len()
                    &&& read_i64s(final(self).frame(), t as int, items@.len() as int) == items@
                    &&& final(self).plan() == put_words(old(self).plan(), signed_words(items@))
                    &&& t == put_padding(old(self).plan()).out.len()
                },
                Err(e) => final(self).aborted(
                    *old(self),
                    e,
                    0,
                    put_words(old(self).plan(), signed_words(items@)),
                ),
            },
    {
        proof {
            assert(bits_of(items@) =~= signed_words(items@));
        }
        let r = self.serialize_words(items);
        proof {
            if r is Ok {
                let t = r->Ok_0 as int;
                let got = read_i64s(self.frame(), t, items@.len() as int);
                assert forall|j: int| 0 <= j < items@.len() implies #[trigger] got[j]
                    == items@[j] by {
                    assert(u64_at(self.frame(), t + 8 * j) == items@[j].bits());
                    lemma_signed_bits(items@[j]);
                }
                assert(got =~= items@);
            }
        }
        r
    }

    /// The bodies of the first values of `values` lie in the frame at
    /// `targets`, and `targets` are the words of the scratch space from
    /// `base` on.
    #[verifier::opaque]
    spec fn values_staged(&self, base: nat, values: Seq<Value>, targets: Seq<usize>)
        -> bool {
        &&& targets.len() <= values.len()
        &&& self.held().len() == base + targets.len()
        &&& forall|j: int|
            0 <= j < targets.len() ==> self.held()[base + j] == (#[trigger] targets[j]) as u64
        &&& forall|j: int|
            0 <= j < targets.len() ==> body_at(
                self.frame(),
                (#[trigger] values[j])@,
                targets[j] as int,
            )
    }

    /// What is staged stays staged while the frame is extended.
    proof fn lemma_values_staged_on(
        &self,
        before: Self,
        base: nat,
        values: Seq<Value>,
        targets: Seq<usize>,
    )
        requires
            before.values_staged(base, values, targets),
            before.frame().is_prefix_of(self.frame()),
            self.held() == before.held(),
        ensures
            self.values_staged(base, values, targets),
    {
        reveal(BelliniSerializer::values_staged);
        assert forall|j: int| 0 <= j < targets.len() implies body_at(
            self.frame(),
            (#[trigger] values[j])@,
            targets[j] as int,
        ) by {
            lemma_body_stable(before.frame(), self.frame(), values[j]@, targets[j] as int);
        }
    }

    /// One more value is staged once its body lies in the frame and its
    /// position is put on the scratch space.
    proof fn lemma_values_staged_push(
        &self,
        before: Self,
        base: nat,
        values: Seq<Value>,
        targets: Seq<usize>,
        target: usize,
    )
        requires
            before.values_staged(base, values, targets),
            targets.len() < values.len(),
            self.frame() == before.frame(),
            self.held() == before.held().push(target as u64),
            body_at(before.frame(), values[targets.len() as int]@, target as int),
        ensures
            self.values_staged(base, values, targets.push(target)),
    {
        reveal(BelliniSerializer::values_staged);
    }

    /// Writes all that the records of `values` refer to, then the
    /// records, one after the other at a multiple of eight. Returns where
    /// the records lie.
    fn serialize_values(&mut self, values: &Vec<Value>) -> (r: Result<
        usize,
        BelliniSerializerError<N, S::Error>,
    >)
        requires
            old(self).wf(),
        ensures
            match r {
                Ok(t) => {
                    &&& final(self).advanced(
                        *old(self),
                        values_size(values_view(values@), values@.len()) + 7 + 24 * values@.len(),
                    )
                    &&& t + 24 * values@.len() <= final(self).frame().len()
                    &&& read_values(final(self).frame(), t as int, values@.len() as int) == Ok::<
                        Seq<ValueModel>,
                        DecodeError,
                    >(values_view(values@))
                    &&& old(self).holds(values_need(values_view(values@), values@.len()))
                    &&& final(self).plan() == body_plan(
                        old(self).plan(),
                        ValueModel::ArrayDynamic(values_view(values@)),
                    )
                    &&& t == body_target(
                        old(self).plan(),
                        ValueModel::ArrayDynamic(values_view(values@)),
                    )
                },
                Err(e) => final(self).aborted(
                    *old(self),
                    e,
                    values_need(values_view(values@), values@.len()),
                    body_plan(old(self).plan(), ValueModel::ArrayDynamic(values_view(values@))),
                ),
            },
        decreases values@, 0int,
    {
        let n: usize = values.len();
        let ghost models = values_view(values@);
        let ghost total: nat = (values_size(models, n as nat) + 7 + 24 * n) as nat;
        let ghost need: nat = values_need(models, n as nat);
        let ghost goal = body_plan(old(self).plan(), ValueModel::ArrayDynamic(models));
        let base: usize = self.scratch.len();
        let ghost mut targets: Seq<usize> = Seq::empty();
        let mut i: usize = 0;
        proof {
            self.lemma_grown_none();
            assert(self.held().take(base as int) =~= old(self).held());
            reveal(BelliniSerializer::values_staged);
            assert(nats(targets) =~= value_positions(old(self).plan(), models, 0));
        }
        while i < n
            invariant
                i <= n,
                n == values@.len(),
                models == values_view(values@),
                goal == body_plan(old(self).plan(), ValueModel::ArrayDynamic(models)),
                self.plan() == staged_values(old(self).plan(), models, i as nat),
                nats(targets) == value_positions(old(self).plan(), models, i as nat),
                total == values_size(models, n as nat) + 7 + 24 * n,
                need == values_need(models, n as nat),
                base == old(self).held().len(),
                old(self).holds(values_need(models, i as nat)),
                self.grown(*old(self), values_size(models, i as nat)),
                targets.len() == i,
                self.held().len() == base + i,
                self.held().take(base as int) == old(self).held(),
                self.values_staged(base as nat, values@, targets),
            decreases n - i,
        {
            let ghost before = *self;
            proof {
                lemma_sums_monotonic(Seq::empty(), models, Seq::empty(), (i + 1) as nat, n as nat);
                assert(models[i as int] == values@[i as int]@);
            }
            let target: usize = match self.serialize_body(&values[i]) {
                Ok(t) => t,
                Err(e) => {
                    proof {
                        lemma_staged_values_grow(
                            old(self).plan(),
                            models,
                            (i + 1) as nat,
                            n as nat,
                        );
                        self.lemma_aborted_later(
                            before,
                            *old(self),
                            e,
                            values_size(models, i as nat),
                            scratch_need(models[i as int]),
                            body_plan(before.plan(), models[i as int]),
                            need,
                            goal,
                        );
                    }
                    return Err(e);
                },
            };
            let ghost middle = *self;
            proof {
                middle.lemma_grown_twice(
                    before,
                    *old(self),
                    values_size(models, i as nat),
                    body_size(models[i as int]),
                );
                middle.lemma_values_staged_on(before, base as nat, values@, targets);
            }
            match self.hold(target) {
                Ok(()) => {},
                Err(e) => {
                    proof {
                        lemma_staged_values_grow(
                            old(self).plan(),
                            models,
                            (i + 1) as nat,
                            n as nat,
                        );
                        self.lemma_aborted_later(
                            middle,
                            *old(self),
                            e,
                            values_size(models, (i + 1) as nat),
                            1,
                            middle.plan(),
                            need,
                            goal,
                        );
                    }
                    return Err(e);
                },
            }
            proof {
                self.lemma_grown_twice(middle, *old(self), values_size(models, (i + 1) as nat), 0);
                self.lemma_values_staged_push(middle, base as nat, values@, targets, target);
                lemma_values_need_step(models, i as nat, StackScratch::<N>::capacity() - base);
                assert(nats(targets.push(target)) =~= value_positions(
                    old(self).plan(),
                    models,
                    (i + 1) as nat,
                ));
                targets = targets.push(target);
                assert(self.held().take(base as int) =~= middle.held().take(base as int));
            }
            i += 1;
        }
        let ghost filled = *self;
        let start: usize = match self.align(ALIGNMENT) {
            Ok(t) => t,
            Err(e) => {
                proof {
                    self.lemma_aborted_later(
                        filled,
                        *old(self),
                        e,
                        values_size(models, n as nat),
                        0,
                        put_padding(filled.plan()),
                        need,
                        goal,
                    );
                }
                return Err(e);
            },
        };
        let ghost aligned = *self;
        proof {
            aligned.lemma_grown_twice(filled, *old(self), values_size(models, n as nat), 7);
            aligned.lemma_values_staged_on(filled, base as nat, values@, targets);
            reveal(BelliniSerializer::values_staged);
        }
        match self.write_value_records(values, base, start, Ghost(targets)) {
            Ok(()) => {},
            Err(e) => {
                proof {
                    self.lemma_aborted_later(
                        aligned,
                        *old(self),
                        e,
                        values_size(models, n as nat) + 7,
                        0,
                        goal,
                        need,
                        goal,
                    );
                }
                return Err(e);
            },
        }
        let ghost done = *self;
        self.release(base);
        proof {
            done.lemma_grown_twice(
                aligned,
                *old(self),
                values_size(models, n as nat) + 7,
                (24 * n) as nat,
            );
            self.lemma_grown_twice(done, *old(self), total, 0);
            assert(self.held() =~= old(self).held());
        }
        Ok(start)
    }

    /// The keys and the bodies of the values of the first entries of
    /// `entries` lie in the frame at `key_targets` and `targets`, which
    /// are, in turn, the words of the scratch space from `base` on.
    #[verifier::opaque]
    spec fn entries_staged(
        &self,
        base: nat,
        entries: Seq<(Text, Value)>,
        key_targets: Seq<usize>,
        targets: Seq<usize>,
    ) -> bool {
        &&& targets.len() <= entries.len()
        &&& key_targets.len() == targets.len()
        &&& self.held().len() == base + 2 * targets.len()
        &&& forall|j: int|
            0 <= j < targets.len() ==> self.held()[base + 2 * j] == (
            #[trigger] key_targets[j]) as u64
        &&& forall|j: int|
            0 <= j < targets.len() ==> self.held()[base + 2 * j + 1] == (
            #[trigger] targets[j]) as u64
        &&& forall|j: int|
            0 <= j < targets.len() ==> text_at(
                self.frame(),
                (#[trigger] entries[j]).0@,
                key_targets[j] as int,
            ) && body_at(self.frame(), entries[j].1@, targets[j] as int)
    }

    /// What is staged stays staged while the frame is extended.
    proof fn lemma_entries_staged_on(
        &self,
        before: Self,
        base: nat,
        entries: Seq<(Text, Value)>,
        key_targets: Seq<usize>,
        targets: Seq<usize>,
    )
        requires
            before.entries_staged(base, entries, key_targets, targets),
            before.frame().is_prefix_of(self.frame()),
            self.held() == before.held(),
        ensures
            self.entries_staged(base, entries, key_targets, targets),
    {
        reveal(BelliniSerializer::entries_staged);
        assert forall|j: int| 0 <= j < targets.len() implies text_at(
            self.frame(),
            (#[trigger] entries[j]).0@,
            key_targets[j] as int,
        ) && body_at(self.frame(), entries[j].1@, targets[j] as int) by {
            lemma_text_stable(before.frame(), self.frame(), entries[j].0@, key_targets[j] as int);
            lemma_body_stable(before.frame(), self.frame(), entries[j].1@, targets[j] as int);
        }
    }

    /// One more entry is staged once its key and the body of its value
    /// lie in the frame and their positions are put on the scratch space.
    proof fn lemma_entries_staged_push(
        &self,
        before: Self,
        base: nat,
        entries: Seq<(Text, Value)>,
        key_targets: Seq<usize>,
        targets: Seq<usize>,
        key_target: usize,
        target: usize,
    )
        requires
            before.entries_staged(base, entries, key_targets, targets),
            targets.len() < entries.len(),
            before.frame().is_prefix_of(self.frame()),
            self.held() == before.held().push(key_target as u64).push(target as u64),
            text_at(self.frame(), entries[targets.len() as int].0@, key_target as int),
            body_at(self.frame(), entries[targets.len() as int].1@, target as int),
        ensures
            self.entries_staged(
                base,
                entries,
                key_targets.push(key_target),
                targets.push(target),
            ),
    {
        reveal(BelliniSerializer::entries_staged);
        let keys = key_targets.push(key_target);
        let bodies = targets.push(target);
        assert forall|j: int| 0 <= j < bodies.len() implies text_at(
            self.frame(),
            (#[trigger] entries[j]).0@,
            keys[j] as int,
        ) && body_at(self.frame(), entries[j].1@, bodies[j] as int) by {
            if j < targets.len() {
                lemma_text_stable(
                    before.frame(),
                    self.frame(),
                    entries[j].0@,
                    key_targets[j] as int,
                );
                lemma_body_stable(before.frame(), self.frame(), entries[j].1@, targets[j] as int);
            }
        }
    }

    /// Writes the key of an entry and all that the record of its value
    /// refers to, and puts their positions on the scratch space.
    fn stage_entry(&mut self, key: &Text, value: &Value) -> (r: Result<
        (usize, usize),
        BelliniSerializerError<N, S::Error>,
    >)
        requires
            old(self).wf(),
        ensures
            match r {
                Ok((key_target, target)) => {
                    &&& final(self).grown(*old(self), key@.len() + body_size(value@))
                    &&& final(self).held() == old(self).held().push(key_target as u64).push(
                        target as u64,
                    )
                    &&& text_at(final(self).frame(), key@, key_target as int)
                    &&& body_at(final(self).frame(), value@, target as int)
                    &&& old(self).holds(1 + scratch_need(value@))
                    &&& old(self).holds(2)
                    &&& final(self).plan() == body_plan(put_run(old(self).plan(), key@), value@)
                    &&& key_target == run_target(old(self).plan(), key@)
                    &&& target == body_target(put_run(old(self).plan(), key@), value@)
                },
                Err(e) => final(self).aborted(
                    *old(self),
                    e,
                    max2(1 + scratch_need(value@), 2),
                    body_plan(put_run(old(self).plan(), key@), value@),
                ),
            },
        decreases *value, 2int,
    {
        let key_bytes = key.as_bytes();
        let ghost goal = body_plan(put_run(old(self).plan(), key@), value@);
        proof {
            lemma_body_grows(put_run(old(self).plan(), key@), value@);
        }
        let key_target: usize = match self.serialize_bytes(key_bytes) {
            Ok(t) => t,
            Err(e) => {
                proof {
                    self.lemma_aborted_farther(
                        *old(self),
                        e,
                        0,
                        put_run(old(self).plan(), key@),
                        max2(1 + scratch_need(value@), 2),
                        goal,
                    );
                }
                return Err(e);
            },
        };
        let ghost keyed = *self;
        match self.hold(key_target) {
            Ok(()) => {},
            Err(e) => {
                proof {
                    self.lemma_aborted_later(
                        keyed,
                        *old(self),
                        e,
                        key@.len(),
                        1,
                        keyed.plan(),
                        max2(1 + scratch_need(value@), 2),
                        goal,
                    );
                }
                return Err(e);
            },
        }
        let ghost held_key = *self;
        proof {
            held_key.lemma_grown_twice(keyed, *old(self), key@.len(), 0);
        }
        let target: usize = match self.serialize_body(value) {
            Ok(t) => t,
            Err(e) => {
                proof {
                    self.lemma_aborted_later(
                        held_key,
                        *old(self),
                        e,
                        key@.len(),
                        scratch_need(value@),
                        goal,
                        max2(1 + scratch_need(value@), 2),
                        goal,
                    );
                }
                return Err(e);
            },
        };
        let ghost middle = *self;
        proof {
            middle.lemma_grown_twice(held_key, *old(self), key@.len(), body_size(value@));
            lemma_text_stable(keyed.frame(), middle.frame(), key@, key_target as int);
        }
        match self.hold(target) {
            Ok(()) => {
                proof {
                    self.lemma_grown_twice(
                        middle,
                        *old(self),
                        key@.len() + body_size(value@),
                        0,
                    );
                }
                Ok((key_target, target))
            },
            Err(e) => {
                proof {
                    self.lemma_aborted_later(
                        middle,
                        *old(self),
                        e,
                        key@.len() + body_size(value@),
                        1,
                        middle.plan(),
                        max2(1 + scratch_need(value@), 2),
                        goal,
                    );
                }
                Err(e)
            },
        }
    }

    /// Writes the keys of `entries` and all that the records of their
    /// values refer to, and puts their positions on the scratch space.
    fn stage_entries(&mut self, entries: &[(Text, Value)]) -> (r: Result<
        (Ghost<Seq<usize>>, Ghost<Seq<usize>>),
        BelliniSerializerError<N, S::Error>,
    >)
        requires
            old(self).wf(),
        ensures
            match r {
                Ok((key_targets, targets)) => {
                    let models = pairs_view(entries@);
                    let n = entries@.len();
                    &&& final(self).grown(*old(self), entries_size(models, n))
                    &&& old(self).holds(entries_need(models, n))
                    &&& final(self).plan() == staged_entries(old(self).plan(), models, n)
                    &&& nats(targets@) == entry_positions(old(self).plan(), models, n)
                    &&& nats(key_targets@) == key_positions(old(self).plan(), models, n)
                    &&& targets@.len() == n
                    &&& final(self).held().len() == old(self).held().len() + 2 * n
                    &&& final(self).held().take(old(self).held().len() as int) == old(self).held()
                    &&& final(self).entries_staged(
                        old(self).held().len(),
                        entries@,
                        key_targets@,
                        targets@,
                    )
                },
                Err(e) => final(self).aborted(
                    *old(self),
                    e,
                    entries_need(pairs_view(entries@), entries@.len()),
                    staged_entries(old(self).plan(), pairs_view(entries@), entries@.len()),
                ),
            },
        decreases entries@, 0int,
    {
        let n: usize = entries.len();
        let ghost models = pairs_view(entries@);
        let ghost need: nat = entries_need(models, n as nat);
        let base: usize = self.scratch.len();
        let ghost mut key_targets: Seq<usize> = Seq::empty();
        let ghost mut targets: Seq<usize> = Seq::empty();
        let mut i: usize = 0;
        proof {
            self.lemma_grown_none();
            assert(self.held().take(base as int) =~= old(self).held());
            reveal(BelliniSerializer::entries_staged);
            assert(nats(targets) =~= entry_positions(old(self).plan(), models, 0));
            assert(nats(key_targets) =~= key_positions(old(self).plan(), models, 0));
        }
        while i < n
            invariant
                i <= n,
                n == entries@.len(),
                models == pairs_view(entries@),
                self.plan() == staged_entries(old(self).plan(), models, i as nat),
                nats(targets) == entry_positions(old(self).plan(), models, i as nat),
                nats(key_targets) == key_positions(old(self).plan(), models, i as nat),
                need == entries_need(models, n as nat),
                base == old(self).held().len(),
                old(self).holds(entries_need(models, i as nat)),
                self.grown(*old(self), entries_size(models, i as nat)),
                targets.len() == i,
                key_targets.len() == i,
                self.held().len() == base + 2 * i,
                self.held().take(base as int) == old(self).held(),
                self.entries_staged(base as nat, entries@, key_targets, targets),
            decreases n - i,
        {
            let ghost before = *self;
            proof {
                lemma_sums_monotonic(Seq::empty(), Seq::empty(), models, (i + 1) as nat, n as nat);
                assert(models[i as int] == (entries@[i as int].0@, entries@[i as int].1@));
            }
            let (key_target, target) = match self.stage_entry(&entries[i].0, &entries[i].1) {
                Ok(found) => found,
                Err(e) => {
                    proof {
                        lemma_staged_entries_grow(
                            old(self).plan(),
                            models,
                            (i + 1) as nat,
                            n as nat,
                        );
                        self.lemma_aborted_later(
                            before,
                            *old(self),
                            e,
                            entries_size(models, i as nat),
                            max2(1 + scratch_need(models[i as int].1), 2),
                            body_plan(
                                put_run(before.plan(), models[i as int].0),
                                models[i as int].1,
                            ),
                            need,
                            staged_entries(old(self).plan(), models, n as nat),
                        );
                    }
                    return Err(e);
                },
            };
            proof {
                self.lemma_grown_twice(
                    before,
                    *old(self),
                    entries_size(models, i as nat),
                    models[i as int].0.len() + body_size(models[i as int].1),
                );
                self.lemma_entries_staged_push(
                    before,
                    base as nat,
                    entries@,
                    key_targets,
                    targets,
                    key_target,
                    target,
                );
                lemma_entries_need_step(models, i as nat, StackScratch::<N>::capacity() - base);
                assert(nats(key_targets.push(key_target)) =~= key_positions(
                    old(self).plan(),
                    models,
                    (i + 1) as nat,
                ));
                assert(nats(targets.push(target)) =~= entry_positions(
                    old(self).plan(),
                    models,
                    (i + 1) as nat,
                ));
                key_targets = key_targets.push(key_target);
                targets = targets.push(target);
                assert(self.held().take(base as int) =~= before.held().take(base as int));
            }
            i += 1;
        }
        Ok((Ghost(key_targets), Ghost(targets)))
    }

    /// Writes the keys of `entries` and all that the records of their
    /// values refer to, then the entry records, one after the other at a
    /// multiple of eight. Returns where the records lie.
    fn serialize_entries(&mut self, entries: &[(Text, Value)]) -> (r: Result<
        usize,
        BelliniSerializerError<N, S::Error>,
    >)
        requires
            old(self).wf(),
        ensures
            match r {
                Ok(t) => {
                    &&& final(self).advanced(
                        *old(self),
                        entries_size(pairs_view(entries@), entries@.len()) + 7 + 40
                            * entries@.len(),
                    )
                    &&& t % 8 == 0
                    &&& t + 40 * entries@.len() == final(self).frame().len()
                    &&& read_entries(final(self).frame(), t as int, entries@.len() as int) == Ok::<
                        Seq<(Seq<u8>, ValueModel)>,
                        DecodeError,
                    >(pairs_view(entries@))
                    &&& old(self).holds(entries_need(pairs_view(entries@), entries@.len()))
                    &&& final(self).plan() == body_plan(
                        old(self).plan(),
                        ValueModel::Object(pairs_view(entries@)),
                    )
                    &&& t == body_target(old(self).plan(), ValueModel::Object(pairs_view(entries@)))
                },
                Err(e) => final(self).aborted(
                    *old(self),
                    e,
                    entries_need(pairs_view(entries@), entries@.len()),
                    body_plan(old(self).plan(), ValueModel::Object(pairs_view(entries@))),
                ),
            },
        decreases entries@, 1int,
    {
        let n: usize = entries.len();
        let ghost models = pairs_view(entries@);
        let ghost total: nat = (entries_size(models, n as nat) + 7 + 40 * n) as nat;
        let ghost need: nat = entries_need(models, n as nat);
        let base: usize = self.scratch.len();
        let ghost goal = body_plan(old(self).plan(), ValueModel::Object(models));
        let (Ghost(key_targets), Ghost(targets)) = match self.stage_entries(entries) {
            Ok(found) => found,
            Err(e) => {
                proof {
                    lemma_entry_records_len(
                        put_padding(staged_entries(old(self).plan(), models, n as nat)).out.len(),
                        models,
                        key_positions(old(self).plan(), models, n as nat),
                        entry_positions(old(self).plan(), models, n as nat),
                        n as nat,
                    );
                    self.lemma_aborted_farther(
                        *old(self),
                        e,
                        need,
                        staged_entries(old(self).plan(), models, n as nat),
                        need,
                        goal,
                    );
                }
                return Err(e);
            },
        };
        let ghost filled = *self;
        let start: usize = match self.align(ALIGNMENT) {
            Ok(t) => t,
            Err(e) => {
                proof {
                    self.lemma_aborted_later(
                        filled,
                        *old(self),
                        e,
                        entries_size(models, n as nat),
                        0,
                        put_padding(filled.plan()),
                        need,
                        goal,
                    );
                }
                return Err(e);
            },
        };
        let ghost aligned = *self;
        proof {
            aligned.lemma_grown_twice(filled, *old(self), entries_size(models, n as nat), 7);
            aligned.lemma_entries_staged_on(filled, base as nat, entries@, key_targets, targets);
        }
        match self.write_entry_records(entries, base, start, Ghost(key_targets), Ghost(targets)) {
            Ok(()) => {},
            Err(e) => {
                proof {
                    self.lemma_aborted_later(
                        aligned,
                        *old(self),
                        e,
                        entries_size(models, n as nat) + 7,
                        0,
                        goal,
                        need,
                        goal,
                    );
                }
                return Err(e);
            },
        }
        let ghost done = *self;
        self.release(base);
        proof {
            done.lemma_grown_twice(
                aligned,
                *old(self),
                entries_size(models, n as nat) + 7,
                (40 * n) as nat,
            );
            self.lemma_grown_twice(done, *old(self), total, 0);
            assert(self.held() =~= old(self).held());
            assert(aligned.plan() == put_padding(filled.plan()));
            assert(start == aligned.plan().out.len());
            assert(self.plan() == done.plan());
        }
        Ok(start)
    }

    /// Archives `value` and returns the position of its record, which is
    /// the last thing written.
    ///
    /// It succeeds whenever the scratch space can hold
    /// `scratch_need(value)` more words and the sink is certain to accept
    /// `value_size(value)` more bytes.
    pub fn serialize_value(&mut self, value: &Value) -> (r: Result<
        usize,
        BelliniSerializerError<N, S::Error>,
    >)
        requires
            old(self).wf(),
        ensures
            match r {
                Ok(pos) => {
                    &&& final(self).advanced(*old(self), value_size(value@))
                    &&& pos % 8 == 0
                    &&& pos + 24 == final(self).frame().len()
                    &&& read_value(final(self).frame(), pos as int) == Ok::<
                        ValueModel,
                        DecodeError,
                    >(value@)
                    &&& old(self).holds(scratch_need(value@))
                    &&& final(self).plan() == value_plan(old(self).plan(), value@)
                },
                Err(e) => final(self).aborted(
                    *old(self),
                    e,
                    scratch_need(value@),
                    value_plan(old(self).plan(), value@),
                ),
            },
    {
        let ghost goal = value_plan(old(self).plan(), value@);
        let target: usize = match self.serialize_body(value) {
            Ok(t) => t,
            Err(e) => {
                proof {
                    self.lemma_aborted_farther(
                        *old(self),
                        e,
                        scratch_need(value@),
                        body_plan(old(self).plan(), value@),
                        scratch_need(value@),
                        goal,
                    );
                }
                return Err(e);
            },
        };
        let ghost written_body = *self;
        match self.align(ALIGNMENT) {
            Ok(_) => {},
            Err(e) => {
                proof {
                    self.lemma_aborted_later(
                        written_body,
                        *old(self),
                        e,
                        body_size(value@),
                        0,
                        put_padding(written_body.plan()),
                        scratch_need(value@),
                        goal,
                    );
                }
                return Err(e);
            },
        }
        let ghost aligned = *self;
        proof {
            aligned.lemma_grown_twice(written_body, *old(self), body_size(value@), 7);
            lemma_body_stable(written_body.frame(), aligned.frame(), value@, target as int);
        }
        match self.write_record(value, target) {
            Ok(pos) => {
                proof {
                    self.lemma_grown_twice(aligned, *old(self), body_size(value@) + 7, 24);
                }
                Ok(pos)
            },
            Err(e) => {
                proof {
                    self.lemma_aborted_later(
                        aligned,
                        *old(self),
                        e,
                        body_size(value@) + 7,
                        0,
                        goal,
                        scratch_need(value@),
                        goal,
                    );
                }
                Err(e)
            },
        }
    }

    /// Archives `document` and returns the position of its record, which
    /// is the last thing written: behind it the frame reads as the
    /// document.
    ///
    /// It succeeds whenever the scratch space can hold
    /// `document_need(document)` more words and the sink is certain to
    /// accept `document_size(document)` more bytes.
    pub fn serialize_document(&mut self, document: &Document) -> (r: Result<
        usize,
        BelliniSerializerError<N, S::Error>,
    >)
        requires
            old(self).wf(),
        ensures
            match r {
                Ok(pos) => {
                    &&& final(self).advanced(*old(self), document_size(document@))
                    &&& pos + 24 == final(self).frame().len()
                    &&& read_document(final(self).frame()) == Ok::<DocumentModel, DecodeError>(
                        document@,
                    )
                    &&& old(self).holds(document_need(document@))
                    &&& final(self).plan() == document_plan(old(self).plan(), document@)
                },
                Err(e) => final(self).aborted(
                    *old(self),
                    e,
                    document_need(document@),
                    document_plan(old(self).plan(), document@),
                ),
            },
    {
        let entries = document.fields();
        let n: usize = entries.len();
        proof {
            document.lemma_view();
        }
        let ghost goal = document_plan(old(self).plan(), document@);
        let start: usize = match self.serialize_entries(entries) {
            Ok(t) => t,
            Err(e) => {
                proof {
                    self.lemma_aborted_farther(
                        *old(self),
                        e,
                        document_need(document@),
                        body_plan(old(self).plan(), ValueModel::Object(document@.fields)),
                        document_need(document@),
                        goal,
                    );
                }
                return Err(e);
            },
        };
        let ghost listed = *self;
        let pos: usize = self.pos();
        let mut record = u64_to_le_bytes(document.id());
        let mut tail = if pos > usize::MAX - 24 {
            two_words(0, 0)
        } else {
            reference(pos + 8, start, n)
        };
        record.append(&mut tail);
        proof {
            lemma_auto_spec_u64_to_from_le_bytes();
        }
        match self.write(record.as_slice()) {
            Ok(()) => {
                // The position, once asked for, is known to fit a `usize`.
                let end: usize = self.pos();
                proof {
                    self.lemma_grown_twice(
                        listed,
                        *old(self),
                        (document_size(document@) - 24) as nat,
                        24,
                    );
                    lemma_root_record(
                        listed.frame(),
                        document@.id,
                        document@.fields,
                        start as int,
                    );
                }
                Ok(pos)
            },
            Err(e) => {
                proof {
                    self.lemma_aborted_later(
                        listed,
                        *old(self),
                        e,
                        (document_size(document@) - 24) as nat,
                        0,
                        put_bytes(listed.plan(), record@),
                        document_need(document@),
                        goal,
                    );
                }
                Err(e)
            },
        }
    }
}

} // verus!
