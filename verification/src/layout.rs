//! The layout of an archived document, as a specification.
//!
//! All integers are little-endian. Variable-length data lies before the
//! record that refers to it, and a record reaches it through a reference:
//! sixteen bytes that hold, as two `u64`, the distance back from the
//! reference to the first byte of the data, and the number of items there.
//!
//! * A value record is 24 bytes: the tag in the first byte, seven unused
//!   bytes, then sixteen bytes that hold a reference, or a scalar in
//!   their first half.
//! * An entry of an object, or a field of a document, is 40 bytes: a
//!   reference to the bytes of the key, then the value record.
//! * The document record is the last 24 bytes: the identifier as a `u64`,
//!   then a reference to the fields.
//!
//! The functions here say what a run of bytes means. Reading is total: it
//! gives a value or the one error that the first failing rule names.

use crate::document::{DocumentModel, ValueModel};
use crate::frame::DecodeError;
use vstd::bytes::{
    lemma_auto_spec_u64_to_from_le_bytes, spec_u64_from_le_bytes, spec_u64_to_le_bytes,
};
use vstd::prelude::*;
use vstd::utf8::valid_utf8;

verus! {

/// Records are written at multiples of this.
pub const ALIGNMENT: usize = 8;

/// Size in bytes of a reference.
pub const REF_SIZE: usize = 16;

/// Size in bytes of a value record.
pub const VALUE_SIZE: usize = 24;

/// Size in bytes of an entry: a key reference and a value record.
pub const ENTRY_SIZE: usize = 40;

/// Size in bytes of the document record.
pub const ROOT_SIZE: usize = 24;

pub const TAG_NULL: u8 = 0;

pub const TAG_BOOL: u8 = 1;

pub const TAG_STRING: u8 = 2;

pub const TAG_BYTES: u8 = 3;

pub const TAG_U64: u8 = 4;

pub const TAG_I64: u8 = 5;

pub const TAG_F64: u8 = 6;

pub const TAG_DATE: u8 = 7;

pub const TAG_ARRAY_BOOL: u8 = 8;

pub const TAG_ARRAY_STRING: u8 = 9;

pub const TAG_ARRAY_BYTES: u8 = 10;

pub const TAG_ARRAY_U64: u8 = 11;

pub const TAG_ARRAY_I64: u8 = 12;

pub const TAG_ARRAY_F64: u8 = 13;

pub const TAG_ARRAY_DATE: u8 = 14;

pub const TAG_ARRAY_DYNAMIC: u8 = 15;

pub const TAG_OBJECT: u8 = 16;

/// The `u64` stored at `at`.
pub open spec fn u64_at(data: Seq<u8>, at: int) -> u64 {
    spec_u64_from_le_bytes(data.subrange(at, at + 8))
}

/// The position that the reference at `at` points to.
pub open spec fn ref_target(data: Seq<u8>, at: int) -> int {
    at - u64_at(data, at)
}

/// The number of items that the reference at `at` declares.
pub open spec fn ref_count(data: Seq<u8>, at: int) -> int {
    u64_at(data, at + 8) as int
}

/// The reference at `at` points to `ref_count` items of `size` bytes each
/// that lie inside the data and end at or before `limit`.
pub open spec fn ref_ok(data: Seq<u8>, at: int, size: int, limit: int) -> bool {
    &&& 0 <= ref_target(data, at)
    &&& ref_target(data, at) + ref_count(data, at) * size <= limit
}

/// The values of `items` if all are values, else the first error.
pub open spec fn collect<T>(items: Seq<Result<T, DecodeError>>) -> Result<Seq<T>, DecodeError>
    decreases items.len(),
{
    if items.len() == 0 {
        Ok(Seq::empty())
    } else {
        match collect(items.drop_last()) {
            Err(e) => Err(e),
            Ok(head) => match items.last() {
                Err(e) => Err(e),
                Ok(v) => Ok(head.push(v)),
            },
        }
    }
}

/// The bytes that the reference at `at` points to.
pub open spec fn read_blob(data: Seq<u8>, at: int, limit: int) -> Result<Seq<u8>, DecodeError> {
    if !ref_ok(data, at, 1, limit) {
        Err(DecodeError::OutOfBounds)
    } else {
        Ok(data.subrange(ref_target(data, at), ref_target(data, at) + ref_count(data, at)))
    }
}

/// The text that the reference at `at` points to.
pub open spec fn read_text(data: Seq<u8>, at: int, limit: int) -> Result<Seq<u8>, DecodeError> {
    match read_blob(data, at, limit) {
        Err(e) => Err(e),
        Ok(bytes) => if valid_utf8(bytes) {
            Ok(bytes)
        } else {
            Err(DecodeError::InvalidUtf8)
        },
    }
}

/// What each of the `n` text references from `start` reads as.
pub open spec fn text_items(data: Seq<u8>, start: int, n: int) -> Seq<
    Result<Seq<u8>, DecodeError>,
> {
    Seq::new(n as nat, |i: int| read_text(data, start + 16 * i, start + 16 * i))
}

/// What each of the `n` byte string references from `start` reads as.
pub open spec fn blob_items(data: Seq<u8>, start: int, n: int) -> Seq<
    Result<Seq<u8>, DecodeError>,
> {
    Seq::new(n as nat, |i: int| read_blob(data, start + 16 * i, start + 16 * i))
}

/// The `n` texts whose references lie one after the other from `start`.
pub open spec fn read_texts(data: Seq<u8>, start: int, n: int) -> Result<
    Seq<Seq<u8>>,
    DecodeError,
> {
    collect(text_items(data, start, n))
}

/// The `n` byte strings whose references lie one after the other from
/// `start`.
pub open spec fn read_blobs(data: Seq<u8>, start: int, n: int) -> Result<
    Seq<Seq<u8>>,
    DecodeError,
> {
    collect(blob_items(data, start, n))
}

/// The `n` booleans stored from `start`, one byte each: zero is false,
/// anything else true.
pub open spec fn read_bools(data: Seq<u8>, start: int, n: int) -> Seq<bool> {
    Seq::new(n as nat, |i: int| data[start + i] != 0)
}

/// The `n` unsigned integers stored from `start`.
pub open spec fn read_u64s(data: Seq<u8>, start: int, n: int) -> Seq<u64> {
    Seq::new(n as nat, |i: int| u64_at(data, start + 8 * i))
}

/// The `n` signed integers stored from `start`, in two's complement.
pub open spec fn read_i64s(data: Seq<u8>, start: int, n: int) -> Seq<i64> {
    Seq::new(n as nat, |i: int| u64_at(data, start + 8 * i) as i64)
}

/// The value whose record lies at `pos`.
pub open spec fn read_value(data: Seq<u8>, pos: int) -> Result<ValueModel, DecodeError>
    decreases pos, 2int,
{
    if pos < 0 || pos + 24 > data.len() {
        Err(DecodeError::Truncated)
    } else {
        let tag = data[pos];
        let at = pos + 8;
        let start = ref_target(data, at);
        let n = ref_count(data, at);
        if tag == TAG_NULL {
            Ok(ValueModel::Null)
        } else if tag == TAG_BOOL {
            Ok(ValueModel::Bool(u64_at(data, at) != 0))
        } else if tag == TAG_STRING {
            match read_text(data, at, pos) {
                Ok(t) => Ok(ValueModel::String(t)),
                Err(e) => Err(e),
            }
        } else if tag == TAG_BYTES {
            match read_blob(data, at, pos) {
                Ok(b) => Ok(ValueModel::Bytes(b)),
                Err(e) => Err(e),
            }
        } else if tag == TAG_U64 {
            Ok(ValueModel::U64(u64_at(data, at)))
        } else if tag == TAG_I64 {
            Ok(ValueModel::I64(u64_at(data, at) as i64))
        } else if tag == TAG_F64 {
            Ok(ValueModel::F64(u64_at(data, at)))
        } else if tag == TAG_DATE {
            Ok(ValueModel::Date(u64_at(data, at) as i64))
        } else if tag == TAG_ARRAY_BOOL {
            if !ref_ok(data, at, 1, pos) {
                Err(DecodeError::OutOfBounds)
            } else {
                Ok(ValueModel::ArrayBool(read_bools(data, start, n)))
            }
        } else if tag == TAG_ARRAY_STRING {
            if !ref_ok(data, at, 16, pos) {
                Err(DecodeError::OutOfBounds)
            } else {
                match read_texts(data, start, n) {
                    Ok(items) => Ok(ValueModel::ArrayString(items)),
                    Err(e) => Err(e),
                }
            }
        } else if tag == TAG_ARRAY_BYTES {
            if !ref_ok(data, at, 16, pos) {
                Err(DecodeError::OutOfBounds)
            } else {
                match read_blobs(data, start, n) {
                    Ok(items) => Ok(ValueModel::ArrayBytes(items)),
                    Err(e) => Err(e),
                }
            }
        } else if tag == TAG_ARRAY_U64 {
            if !ref_ok(data, at, 8, pos) {
                Err(DecodeError::OutOfBounds)
            } else {
                Ok(ValueModel::ArrayU64(read_u64s(data, start, n)))
            }
        } else if tag == TAG_ARRAY_I64 {
            if !ref_ok(data, at, 8, pos) {
                Err(DecodeError::OutOfBounds)
            } else {
                Ok(ValueModel::ArrayI64(read_i64s(data, start, n)))
            }
        } else if tag == TAG_ARRAY_F64 {
            if !ref_ok(data, at, 8, pos) {
                Err(DecodeError::OutOfBounds)
            } else {
                Ok(ValueModel::ArrayF64(read_u64s(data, start, n)))
            }
        } else if tag == TAG_ARRAY_DATE {
            if !ref_ok(data, at, 8, pos) {
                Err(DecodeError::OutOfBounds)
            } else {
                Ok(ValueModel::ArrayDate(read_i64s(data, start, n)))
            }
        } else if tag == TAG_ARRAY_DYNAMIC {
            if !ref_ok(data, at, 24, pos) {
                Err(DecodeError::OutOfBounds)
            } else {
                match read_values(data, start, n) {
                    Ok(items) => Ok(ValueModel::ArrayDynamic(items)),
                    Err(e) => Err(e),
                }
            }
        } else if tag == TAG_OBJECT {
            if !ref_ok(data, at, 40, pos) {
                Err(DecodeError::OutOfBounds)
            } else {
                match read_entries(data, start, n) {
                    Ok(items) => Ok(ValueModel::Object(items)),
                    Err(e) => Err(e),
                }
            }
        } else {
            Err(DecodeError::MalformedTag { tag })
        }
    }
}

/// An entry from what its key and its value read as: the key's error
/// comes first.
pub open spec fn entry_of(
    key: Result<Seq<u8>, DecodeError>,
    value: Result<ValueModel, DecodeError>,
) -> Result<(Seq<u8>, ValueModel), DecodeError> {
    match key {
        Err(e) => Err(e),
        Ok(k) => match value {
            Err(e) => Err(e),
            Ok(v) => Ok((k, v)),
        },
    }
}

/// What each of the `n` value records from `start` reads as.
pub open spec fn value_items(data: Seq<u8>, start: int, n: int) -> Seq<
    Result<ValueModel, DecodeError>,
>
    decreases start + 24 * n, 0int,
{
    Seq::new(
        n as nat,
        |i: int|
            if 0 <= start && 0 <= i < n {
                read_value(data, start + 24 * i)
            } else {
                Err(DecodeError::OutOfBounds)
            },
    )
}

/// The `n` values whose records lie one after the other from `start`.
pub open spec fn read_values(data: Seq<u8>, start: int, n: int) -> Result<
    Seq<ValueModel>,
    DecodeError,
>
    decreases start + 24 * n, 1int,
{
    collect(value_items(data, start, n))
}

/// The entry that lies at `pos`: its key, then its value.
pub open spec fn read_entry(data: Seq<u8>, pos: int) -> Result<(Seq<u8>, ValueModel), DecodeError>
    decreases pos + 16, 3int,
{
    if pos < 0 {
        Err(DecodeError::OutOfBounds)
    } else {
        entry_of(read_text(data, pos, pos), read_value(data, pos + 16))
    }
}

/// What each of the `n` entries from `start` reads as.
pub open spec fn entry_items(data: Seq<u8>, start: int, n: int) -> Seq<
    Result<(Seq<u8>, ValueModel), DecodeError>,
>
    decreases start + 40 * n, 0int,
{
    Seq::new(
        n as nat,
        |i: int|
            if 0 <= start && 0 <= i < n {
                read_entry(data, start + 40 * i)
            } else {
                Err(DecodeError::OutOfBounds)
            },
    )
}

/// The `n` entries that lie one after the other from `start`.
pub open spec fn read_entries(data: Seq<u8>, start: int, n: int) -> Result<
    Seq<(Seq<u8>, ValueModel)>,
    DecodeError,
>
    decreases start + 40 * n, 1int,
{
    collect(entry_items(data, start, n))
}

/// The document that `data` archives.
pub open spec fn read_document(data: Seq<u8>) -> Result<DocumentModel, DecodeError> {
    if data.len() < 24 {
        Err(DecodeError::Truncated)
    } else {
        let root = data.len() - 24;
        let at = root + 8;
        if !ref_ok(data, at, 40, root) {
            Err(DecodeError::OutOfBounds)
        } else {
            match read_entries(data, ref_target(data, at), ref_count(data, at)) {
                Ok(fields) => Ok(DocumentModel { id: u64_at(data, root), fields }),
                Err(e) => Err(e),
            }
        }
    }
}

/// When every item is a value, `collect` gives those values.
pub proof fn lemma_collect_ok<T>(items: Seq<Result<T, DecodeError>>, values: Seq<T>)
    requires
        items.len() == values.len(),
        forall|i: int| 0 <= i < items.len() ==> items[i] == Ok::<T, DecodeError>(values[i]),
    ensures
        collect(items) == Ok::<Seq<T>, DecodeError>(values),
    decreases items.len(),
{
    if items.len() > 0 {
        lemma_collect_ok(items.drop_last(), values.drop_last());
        assert(values.drop_last().push(values.last()) =~= values);
    } else {
        assert(values =~= Seq::empty());
    }
}

/// When `collect` gives values, every item is the value at its place.
pub proof fn lemma_collect_items<T>(items: Seq<Result<T, DecodeError>>)
    requires
        collect(items) is Ok,
    ensures
        collect(items)->Ok_0.len() == items.len(),
        forall|i: int|
            0 <= i < items.len() ==> #[trigger] items[i] == Ok::<T, DecodeError>(
                collect(items)->Ok_0[i],
            ),
    decreases items.len(),
{
    if items.len() > 0 {
        let head = items.drop_last();
        lemma_collect_items(head);
        assert forall|i: int| 0 <= i < items.len() implies #[trigger] items[i] == Ok::<
            T,
            DecodeError,
        >(collect(items)->Ok_0[i]) by {
            if i < head.len() {
                assert(head[i] == items[i]);
            }
        }
    }
}

/// The first error among the items is what `collect` gives.
pub proof fn lemma_collect_err<T>(items: Seq<Result<T, DecodeError>>, k: int, e: DecodeError)
    requires
        0 <= k < items.len(),
        items[k] == Err::<T, DecodeError>(e),
        forall|j: int| 0 <= j < k ==> (#[trigger] items[j]) is Ok,
    ensures
        collect(items) == Err::<Seq<T>, DecodeError>(e),
    decreases items.len(),
{
    if k == items.len() - 1 {
        let head = items.drop_last();
        let values = Seq::new(head.len(), |j: int| head[j]->Ok_0);
        assert forall|i: int| 0 <= i < head.len() implies head[i] == Ok::<T, DecodeError>(
            #[trigger] values[i],
        ) by {
            assert(items[i] is Ok);
        }
        lemma_collect_ok(head, values);
    } else {
        lemma_collect_err(items.drop_last(), k, e);
    }
}

/// A range of a buffer is a range of any buffer that extends it.
pub proof fn lemma_prefix_range(a: Seq<u8>, b: Seq<u8>, from: int, to: int)
    requires
        a.is_prefix_of(b),
        0 <= from <= to <= a.len(),
    ensures
        b.subrange(from, to) == a.subrange(from, to),
{
    assert(b.subrange(from, to) =~= b.subrange(0, a.len() as int).subrange(from, to));
}

/// A reference is read the same from any buffer that extends the one it
/// lies in.
pub proof fn lemma_ref_stable(a: Seq<u8>, b: Seq<u8>, at: int)
    requires
        a.is_prefix_of(b),
        0 <= at,
        at + 16 <= a.len(),
    ensures
        u64_at(b, at) == u64_at(a, at),
        u64_at(b, at + 8) == u64_at(a, at + 8),
        ref_target(b, at) == ref_target(a, at),
        ref_count(b, at) == ref_count(a, at),
        forall|size: int, limit: int| ref_ok(b, at, size, limit) == ref_ok(a, at, size, limit),
{
    lemma_prefix_range(a, b, at, at + 8);
    lemma_prefix_range(a, b, at + 8, at + 16);
}

/// A text or byte string is read the same from any buffer that extends
/// the one it lies in.
pub proof fn lemma_blob_stable(a: Seq<u8>, b: Seq<u8>, at: int, limit: int)
    requires
        a.is_prefix_of(b),
        0 <= at,
        at + 16 <= a.len(),
        limit <= a.len(),
    ensures
        read_blob(b, at, limit) == read_blob(a, at, limit),
        read_text(b, at, limit) == read_text(a, at, limit),
{
    lemma_ref_stable(a, b, at);
    if ref_ok(a, at, 1, limit) {
        assert(ref_count(a, at) >= 0);
        lemma_prefix_range(a, b, ref_target(a, at), ref_target(a, at) + ref_count(a, at));
    }
}

/// A value is read the same from any buffer that extends the one it lies
/// in: appending bytes never changes what was archived before.
pub proof fn lemma_value_stable(a: Seq<u8>, b: Seq<u8>, pos: int)
    requires
        a.is_prefix_of(b),
        0 <= pos,
        pos + 24 <= a.len(),
    ensures
        read_value(b, pos) == read_value(a, pos),
    decreases pos, 2int,
{
    let at = pos + 8;
    let tag = a[pos];
    assert(b[pos] == b.subrange(0, a.len() as int)[pos]);
    lemma_ref_stable(a, b, at);
    lemma_blob_stable(a, b, at, pos);
    let start = ref_target(a, at);
    let n = ref_count(a, at);
    if tag == TAG_ARRAY_BOOL && ref_ok(a, at, 1, pos) {
        let xa = read_bools(a, start, n);
        let xb = read_bools(b, start, n);
        assert forall|i: int| 0 <= i < n implies #[trigger] xb[i] == xa[i] by {
            assert(b[start + i] == b.subrange(0, a.len() as int)[start + i]);
        }
        assert(xb =~= xa);
    } else if (tag == TAG_ARRAY_STRING || tag == TAG_ARRAY_BYTES) && ref_ok(a, at, 16, pos) {
        lemma_refs_stable(a, b, start, n);
    } else if (tag == TAG_ARRAY_U64 || tag == TAG_ARRAY_I64 || tag == TAG_ARRAY_F64 || tag
        == TAG_ARRAY_DATE) && ref_ok(a, at, 8, pos) {
        lemma_scalars_stable(a, b, start, n);
    } else if tag == TAG_ARRAY_DYNAMIC && ref_ok(a, at, 24, pos) {
        lemma_values_stable(a, b, start, n);
    } else if tag == TAG_OBJECT && ref_ok(a, at, 40, pos) {
        lemma_entries_stable(a, b, start, n);
    }
}

/// Runs of texts and of byte strings are read the same from any buffer
/// that extends the one they lie in.
pub proof fn lemma_refs_stable(a: Seq<u8>, b: Seq<u8>, start: int, n: int)
    requires
        a.is_prefix_of(b),
        0 <= start,
        0 <= n,
        start + 16 * n <= a.len(),
    ensures
        text_items(b, start, n) == text_items(a, start, n),
        blob_items(b, start, n) == blob_items(a, start, n),
        read_texts(b, start, n) == read_texts(a, start, n),
        read_blobs(b, start, n) == read_blobs(a, start, n),
{
    let ta = text_items(a, start, n);
    let tb = text_items(b, start, n);
    let ba = blob_items(a, start, n);
    let bb = blob_items(b, start, n);
    assert forall|i: int| 0 <= i < n implies #[trigger] tb[i] == ta[i] by {
        lemma_blob_stable(a, b, start + 16 * i, start + 16 * i);
    }
    assert forall|i: int| 0 <= i < n implies #[trigger] bb[i] == ba[i] by {
        lemma_blob_stable(a, b, start + 16 * i, start + 16 * i);
    }
    assert(tb =~= ta);
    assert(bb =~= ba);
}

/// Runs of integers are read the same from any buffer that extends the
/// one they lie in.
pub proof fn lemma_scalars_stable(a: Seq<u8>, b: Seq<u8>, start: int, n: int)
    requires
        a.is_prefix_of(b),
        0 <= start,
        0 <= n,
        start + 8 * n <= a.len(),
    ensures
        read_u64s(b, start, n) == read_u64s(a, start, n),
        read_i64s(b, start, n) == read_i64s(a, start, n),
{
    let ua = read_u64s(a, start, n);
    let ub = read_u64s(b, start, n);
    assert forall|i: int| 0 <= i < n implies #[trigger] ub[i] == ua[i] by {
        lemma_prefix_range(a, b, start + 8 * i, start + 8 * i + 8);
    }
    assert(ub =~= ua);
    let ia = read_i64s(a, start, n);
    let ib = read_i64s(b, start, n);
    assert forall|i: int| 0 <= i < n implies #[trigger] ib[i] == ia[i] by {
        assert(ub[i] == ua[i]);
    }
    assert(ib =~= ia);
}

/// A run of values is read the same from any buffer that extends the one
/// it lies in.
pub proof fn lemma_values_stable(a: Seq<u8>, b: Seq<u8>, start: int, n: int)
    requires
        a.is_prefix_of(b),
        0 <= start,
        0 <= n,
        start + 24 * n <= a.len(),
    ensures
        value_items(b, start, n) == value_items(a, start, n),
        read_values(b, start, n) == read_values(a, start, n),
    decreases start + 24 * n, 0int,
{
    let in_a = value_items(a, start, n);
    let in_b = value_items(b, start, n);
    assert forall|i: int| 0 <= i < n implies #[trigger] in_b[i] == in_a[i] by {
        lemma_value_stable(a, b, start + 24 * i);
    }
    assert(in_b =~= in_a);
}

/// An entry is read the same from any buffer that extends the one it
/// lies in.
pub proof fn lemma_entry_stable(a: Seq<u8>, b: Seq<u8>, pos: int)
    requires
        a.is_prefix_of(b),
        0 <= pos,
        pos + 40 <= a.len(),
    ensures
        read_entry(b, pos) == read_entry(a, pos),
    decreases pos + 16, 3int,
{
    lemma_blob_stable(a, b, pos, pos);
    lemma_value_stable(a, b, pos + 16);
}

/// A run of entries is read the same from any buffer that extends the
/// one it lies in.
pub proof fn lemma_entries_stable(a: Seq<u8>, b: Seq<u8>, start: int, n: int)
    requires
        a.is_prefix_of(b),
        0 <= start,
        0 <= n,
        start + 40 * n <= a.len(),
    ensures
        entry_items(b, start, n) == entry_items(a, start, n),
        read_entries(b, start, n) == read_entries(a, start, n),
    decreases start + 40 * n, 0int,
{
    let in_a = entry_items(a, start, n);
    let in_b = entry_items(b, start, n);
    assert forall|i: int| 0 <= i < n implies #[trigger] in_b[i] == in_a[i] by {
        lemma_entry_stable(a, b, start + 40 * i);
    }
    assert(in_b =~= in_a);
}

/// The tag of a value's kind.
pub open spec fn tag_of(value: ValueModel) -> u8 {
    match value {
        ValueModel::Null => TAG_NULL,
        ValueModel::Bool(_) => TAG_BOOL,
        ValueModel::String(_) => TAG_STRING,
        ValueModel::Bytes(_) => TAG_BYTES,
        ValueModel::U64(_) => TAG_U64,
        ValueModel::I64(_) => TAG_I64,
        ValueModel::F64(_) => TAG_F64,
        ValueModel::Date(_) => TAG_DATE,
        ValueModel::ArrayBool(_) => TAG_ARRAY_BOOL,
        ValueModel::ArrayString(_) => TAG_ARRAY_STRING,
        ValueModel::ArrayBytes(_) => TAG_ARRAY_BYTES,
        ValueModel::ArrayU64(_) => TAG_ARRAY_U64,
        ValueModel::ArrayI64(_) => TAG_ARRAY_I64,
        ValueModel::ArrayF64(_) => TAG_ARRAY_F64,
        ValueModel::ArrayDate(_) => TAG_ARRAY_DATE,
        ValueModel::ArrayDynamic(_) => TAG_ARRAY_DYNAMIC,
        ValueModel::Object(_) => TAG_OBJECT,
    }
}

/// The value lies wholly in its record.
pub open spec fn is_scalar(value: ValueModel) -> bool {
    value is Null || value is Bool || value is U64 || value is I64 || value is F64
        || value is Date
}

/// The eight bytes of a scalar, as a number.
pub open spec fn scalar_bits(value: ValueModel) -> u64 {
    match value {
        ValueModel::Bool(b) => if b {
            1
        } else {
            0
        },
        ValueModel::U64(x) => x,
        ValueModel::I64(x) => x as u64,
        ValueModel::F64(x) => x,
        ValueModel::Date(x) => x as u64,
        _ => 0,
    }
}

/// The number of items that the record of a value refers to.
pub open spec fn count_of(value: ValueModel) -> nat {
    match value {
        ValueModel::String(t) => t.len(),
        ValueModel::Bytes(b) => b.len(),
        ValueModel::ArrayBool(items) => items.len(),
        ValueModel::ArrayString(items) => items.len(),
        ValueModel::ArrayBytes(items) => items.len(),
        ValueModel::ArrayU64(items) => items.len(),
        ValueModel::ArrayI64(items) => items.len(),
        ValueModel::ArrayF64(items) => items.len(),
        ValueModel::ArrayDate(items) => items.len(),
        ValueModel::ArrayDynamic(items) => items.len(),
        ValueModel::Object(items) => items.len(),
        _ => 0,
    }
}

/// The bytes of a reference stored at `at` to `count` items at `target`.
pub open spec fn ref_bytes(at: int, target: int, count: int) -> Seq<u8> {
    spec_u64_to_le_bytes((at - target) as u64) + spec_u64_to_le_bytes(count as u64)
}

/// The first eight bytes of a value record.
pub open spec fn tag_bytes(tag: u8) -> Seq<u8> {
    seq![tag, 0u8, 0u8, 0u8, 0u8, 0u8, 0u8, 0u8]
}

/// The record at `pos` of a value whose items lie at `target`.
pub open spec fn value_record(value: ValueModel, pos: int, target: int) -> Seq<u8> {
    tag_bytes(tag_of(value)) + (if is_scalar(value) {
        spec_u64_to_le_bytes(scalar_bits(value)) + spec_u64_to_le_bytes(0)
    } else {
        ref_bytes(pos + 8, target, count_of(value) as int)
    })
}

/// The record at `pos` of an entry whose key lies at `key_target` and
/// whose value has its items at `target`.
pub open spec fn entry_record(
    key: Seq<u8>,
    value: ValueModel,
    pos: int,
    key_target: int,
    target: int,
) -> Seq<u8> {
    ref_bytes(pos, key_target, key.len() as int) + value_record(value, pos + 16, target)
}

/// The document record at `pos` of a document whose `count` fields lie
/// at `target`.
pub open spec fn root_record(id: u64, pos: int, target: int, count: int) -> Seq<u8> {
    spec_u64_to_le_bytes(id) + ref_bytes(pos + 8, target, count)
}

/// The bytes of a text lie at `target`.
pub open spec fn text_at(data: Seq<u8>, text: Seq<u8>, target: int) -> bool {
    &&& 0 <= target
    &&& target + text.len() <= data.len()
    &&& data.subrange(target, target + text.len()) == text
    &&& valid_utf8(text)
}

/// All that the record of `value` will refer to lies at `target`, and
/// reads as the items of `value`.
pub open spec fn body_at(data: Seq<u8>, value: ValueModel, target: int) -> bool {
    is_scalar(value) || {
        let n = count_of(value) as int;
        &&& 0 <= target
        &&& match value {
            ValueModel::String(t) => target + n <= data.len() && data.subrange(target, target + n)
                == t && valid_utf8(t),
            ValueModel::Bytes(b) => target + n <= data.len() && data.subrange(target, target + n)
                == b,
            ValueModel::ArrayBool(items) => target + n <= data.len() && read_bools(
                data,
                target,
                n,
            ) == items,
            ValueModel::ArrayString(items) => target + 16 * n <= data.len() && read_texts(
                data,
                target,
                n,
            ) == Ok::<Seq<Seq<u8>>, DecodeError>(items),
            ValueModel::ArrayBytes(items) => target + 16 * n <= data.len() && read_blobs(
                data,
                target,
                n,
            ) == Ok::<Seq<Seq<u8>>, DecodeError>(items),
            ValueModel::ArrayU64(items) => target + 8 * n <= data.len() && read_u64s(
                data,
                target,
                n,
            ) == items,
            ValueModel::ArrayI64(items) => target + 8 * n <= data.len() && read_i64s(
                data,
                target,
                n,
            ) == items,
            ValueModel::ArrayF64(items) => target + 8 * n <= data.len() && read_u64s(
                data,
                target,
                n,
            ) == items,
            ValueModel::ArrayDate(items) => target + 8 * n <= data.len() && read_i64s(
                data,
                target,
                n,
            ) == items,
            ValueModel::ArrayDynamic(items) => target + 24 * n <= data.len() && read_values(
                data,
                target,
                n,
            ) == Ok::<Seq<ValueModel>, DecodeError>(items),
            ValueModel::Object(items) => target + 40 * n <= data.len() && read_entries(
                data,
                target,
                n,
            ) == Ok::<Seq<(Seq<u8>, ValueModel)>, DecodeError>(items),
            _ => true,
        }
    }
}

/// What lies at `target` for `value` still lies there in any buffer that
/// extends the one it was written to.
pub proof fn lemma_body_stable(a: Seq<u8>, b: Seq<u8>, value: ValueModel, target: int)
    requires
        a.is_prefix_of(b),
        body_at(a, value, target),
    ensures
        body_at(b, value, target),
{
    if !is_scalar(value) {
        let n = count_of(value) as int;
        match value {
            ValueModel::String(t) => {
                lemma_prefix_range(a, b, target, target + n);
            },
            ValueModel::Bytes(t) => {
                lemma_prefix_range(a, b, target, target + n);
            },
            ValueModel::ArrayBool(items) => {
                let xa = read_bools(a, target, n);
                let xb = read_bools(b, target, n);
                assert forall|i: int| 0 <= i < n implies #[trigger] xb[i] == xa[i] by {
                    assert(b[target + i] == b.subrange(0, a.len() as int)[target + i]);
                }
                assert(xb =~= xa);
            },
            ValueModel::ArrayString(items) => {
                lemma_refs_stable(a, b, target, n);
            },
            ValueModel::ArrayBytes(items) => {
                lemma_refs_stable(a, b, target, n);
            },
            ValueModel::ArrayU64(items) => {
                lemma_scalars_stable(a, b, target, n);
            },
            ValueModel::ArrayI64(items) => {
                lemma_scalars_stable(a, b, target, n);
            },
            ValueModel::ArrayF64(items) => {
                lemma_scalars_stable(a, b, target, n);
            },
            ValueModel::ArrayDate(items) => {
                lemma_scalars_stable(a, b, target, n);
            },
            ValueModel::ArrayDynamic(items) => {
                lemma_values_stable(a, b, target, n);
            },
            ValueModel::Object(items) => {
                lemma_entries_stable(a, b, target, n);
            },
            _ => {},
        }
    }
}

/// A reference is read back as written.
pub proof fn lemma_ref_read_back(data: Seq<u8>, at: int, target: int, count: int)
    requires
        0 <= target <= at,
        at - target <= u64::MAX,
        0 <= count <= u64::MAX,
        0 <= at,
        at + 16 <= data.len(),
        data.subrange(at, at + 16) == ref_bytes(at, target, count),
    ensures
        ref_target(data, at) == target,
        ref_count(data, at) == count,
{
    lemma_auto_spec_u64_to_from_le_bytes();
    let r = ref_bytes(at, target, count);
    assert(data.subrange(at, at + 8) =~= r.subrange(0, 8));
    assert(data.subrange(at + 8, at + 16) =~= r.subrange(8, 16));
    assert(r.subrange(0, 8) =~= spec_u64_to_le_bytes((at - target) as u64));
    assert(r.subrange(8, 16) =~= spec_u64_to_le_bytes(count as u64));
}

/// The bits of a signed integer are read back as that integer.
pub proof fn lemma_signed_bits(x: i64)
    ensures
        (x as u64) as i64 == x,
{
    assert((x as u64) as i64 == x) by (bit_vector);
}

/// A value record is read back as the value it was written for: behind
/// data that holds what the record refers to, the record at the end reads
/// as `value`.
pub proof fn lemma_value_record(data: Seq<u8>, value: ValueModel, target: int)
    requires
        body_at(data, value, target),
        data.len() <= u64::MAX - 24,
    ensures
        read_value(
            data + value_record(value, data.len() as int, target),
            data.len() as int,
        ) == Ok::<ValueModel, DecodeError>(value),
        value_record(value, data.len() as int, target).len() == 24,
{
    lemma_auto_spec_u64_to_from_le_bytes();
    let pos = data.len() as int;
    let at = pos + 8;
    let record = value_record(value, pos, target);
    let all = data + record;
    let n = count_of(value) as int;
    assert(data.is_prefix_of(all)) by {
        assert(all.subrange(0, data.len() as int) =~= data);
    }
    assert(all[pos] == tag_of(value));
    if is_scalar(value) {
        assert(all.subrange(at, at + 8) =~= spec_u64_to_le_bytes(scalar_bits(value)));
        match value {
            ValueModel::I64(x) => {
                lemma_signed_bits(x);
            },
            ValueModel::Date(x) => {
                lemma_signed_bits(x);
            },
            _ => {},
        }
    } else {
        assert(all.subrange(at, at + 16) =~= ref_bytes(at, target, n));
        lemma_ref_read_back(all, at, target, n);
        lemma_body_stable(data, all, value, target);
        match value {
            ValueModel::String(t) => {
                lemma_prefix_range(data, all, target, target + n);
            },
            ValueModel::Bytes(t) => {
                lemma_prefix_range(data, all, target, target + n);
            },
            _ => {},
        }
    }
}

/// An entry record is read back as the key and value it was written
/// for.
pub proof fn lemma_entry_record(
    data: Seq<u8>,
    key: Seq<u8>,
    value: ValueModel,
    key_target: int,
    target: int,
)
    requires
        text_at(data, key, key_target),
        body_at(data, value, target),
        data.len() <= u64::MAX - 40,
    ensures
        read_entry(
            data + entry_record(key, value, data.len() as int, key_target, target),
            data.len() as int,
        ) == Ok::<(Seq<u8>, ValueModel), DecodeError>((key, value)),
        entry_record(key, value, data.len() as int, key_target, target).len() == 40,
{
    lemma_auto_spec_u64_to_from_le_bytes();
    let pos = data.len() as int;
    let key_ref = ref_bytes(pos, key_target, key.len() as int);
    let with_key = data + key_ref;
    let record = value_record(value, pos + 16, target);
    let all = data + entry_record(key, value, pos, key_target, target);
    assert(all =~= with_key + record);
    assert(data.is_prefix_of(with_key)) by {
        assert(with_key.subrange(0, data.len() as int) =~= data);
    }
    assert(with_key.is_prefix_of(all)) by {
        assert(all.subrange(0, with_key.len() as int) =~= with_key);
    }
    assert(data.is_prefix_of(all)) by {
        assert(all.subrange(0, data.len() as int) =~= data);
    }
    lemma_body_stable(data, with_key, value, target);
    lemma_value_record(with_key, value, target);
    assert(all.subrange(pos, pos + 16) =~= key_ref);
    lemma_ref_read_back(all, pos, key_target, key.len() as int);
    lemma_prefix_range(data, all, key_target, key_target + key.len());
}

/// A document record is read back as the document it was written for.
pub proof fn lemma_root_record(
    data: Seq<u8>,
    id: u64,
    fields: Seq<(Seq<u8>, ValueModel)>,
    target: int,
)
    requires
        0 <= target,
        target + fields.len() * 40 <= data.len(),
        read_entries(data, target, fields.len() as int) == Ok::<
            Seq<(Seq<u8>, ValueModel)>,
            DecodeError,
        >(fields),
        data.len() <= u64::MAX - 24,
    ensures
        read_document(
            data + root_record(id, data.len() as int, target, fields.len() as int),
        ) == Ok::<DocumentModel, DecodeError>(DocumentModel { id, fields }),
        root_record(id, data.len() as int, target, fields.len() as int).len() == 24,
{
    lemma_auto_spec_u64_to_from_le_bytes();
    let pos = data.len() as int;
    let n = fields.len() as int;
    let all = data + root_record(id, pos, target, n);
    assert(data.is_prefix_of(all)) by {
        assert(all.subrange(0, data.len() as int) =~= data);
    }
    assert(all.subrange(pos, pos + 8) =~= spec_u64_to_le_bytes(id));
    assert(all.subrange(pos + 8, pos + 24) =~= ref_bytes(pos + 8, target, n));
    lemma_ref_read_back(all, pos + 8, target, n);
    lemma_entries_stable(data, all, target, n);
}

} // verus!
