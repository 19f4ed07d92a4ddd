//! Reading archived bytes: validation and borrowed views.
//!
//! Validation walks a whole archive once and answers as
//! [`read_document`](crate::layout::read_document) does: it accepts
//! exactly the archives that have a meaning and names the first failing
//! rule of any other. The views borrow the archive and decode scalars
//! when asked; no payload byte is copied until an owned value is asked
//! for.

use crate::document::{
    blobs_view, kind_name, lemma_view_array_dynamic, lemma_view_object, pairs_view, str_from_utf8,
    texts_view, values_view, Bytes, Document, DocumentModel, Text, Value, ValueModel,
};
use crate::frame::DecodeError;
use crate::layout::{
    blob_items, entry_items, lemma_collect_err, lemma_collect_items, lemma_collect_ok, read_blob,
    read_blobs, read_bools, read_document, read_entries, read_i64s, read_text, read_texts,
    read_u64s, read_value, read_values, ref_count, ref_ok, ref_target, text_items, u64_at,
    value_items, ENTRY_SIZE, REF_SIZE, ROOT_SIZE, TAG_ARRAY_BOOL, TAG_ARRAY_BYTES, TAG_ARRAY_DATE,
    TAG_ARRAY_DYNAMIC, TAG_ARRAY_F64, TAG_ARRAY_I64, TAG_ARRAY_STRING, TAG_ARRAY_U64, TAG_BOOL,
    TAG_BYTES, TAG_DATE, TAG_F64, TAG_I64, TAG_NULL, TAG_OBJECT, TAG_STRING, TAG_U64, VALUE_SIZE,
};
use vstd::bytes::u64_from_le_bytes;
use vstd::prelude::*;
use vstd::slice::{slice_subrange, slice_to_vec};
use vstd::utf8::valid_utf8;

verus! {

/// The `u64` stored at `at`.
pub(crate) fn get_u64(data: &[u8], at: usize) -> (r: u64)
    requires
        at + 8 <= data.len(),
    ensures
        r == u64_at(data@, at as int),
{
    u64_from_le_bytes(slice_subrange(data, at, at + 8))
}

/// Where the reference at `at` points and how many items it declares,
/// provided they lie inside the data and end at or before `limit`.
fn check_ref(data: &[u8], at: usize, size: usize, limit: usize) -> (r: Option<(usize, usize)>)
    requires
        at + 16 <= data.len(),
        limit <= data.len(),
        1 <= size <= 40,
    ensures
        r is Some <==> ref_ok(data@, at as int, size as int, limit as int),
        r matches Some((start, n)) ==> start == ref_target(data@, at as int) && n == ref_count(
            data@,
            at as int,
        ) && start + n * size <= limit,
{
    let back: u64 = get_u64(data, at);
    let count: u64 = get_u64(data, at + 8);
    if back > at as u64 {
        return None;
    }
    let start: usize = at - back as usize;
    if start > limit {
        assert(count * size >= 0) by (nonlinear_arith)
            requires
                count >= 0,
                size >= 0,
        ;
        return None;
    }
    let room: u128 = (limit - start) as u128;
    assert(count * size <= 0xFFFF_FFFF_FFFF_FFFF * 40) by (nonlinear_arith)
        requires
            0 <= count <= 0xFFFF_FFFF_FFFF_FFFF,
            0 <= size <= 40,
    ;
    let need: u128 = count as u128 * size as u128;
    if need > room {
        None
    } else {
        assert(count <= count * size) by (nonlinear_arith)
            requires
                0 <= count,
                1 <= size,
        ;
        Some((start, count as usize))
    }
}

/// The start and length of the bytes that the reference at `at` points
/// to.
fn check_blob(data: &[u8], at: usize, limit: usize) -> (r: Result<(usize, usize), DecodeError>)
    requires
        at + 16 <= data.len(),
        limit <= data.len(),
    ensures
        match r {
            Ok((start, n)) => start + n <= limit && read_blob(data@, at as int, limit as int)
                == Ok::<Seq<u8>, DecodeError>(data@.subrange(start as int, start + n)),
            Err(e) => read_blob(data@, at as int, limit as int) == Err::<Seq<u8>, DecodeError>(e),
        },
{
    match check_ref(data, at, 1, limit) {
        Some(found) => Ok(found),
        None => Err(DecodeError::OutOfBounds),
    }
}

/// The start and length of the text that the reference at `at` points
/// to.
fn check_text(data: &[u8], at: usize, limit: usize) -> (r: Result<(usize, usize), DecodeError>)
    requires
        at + 16 <= data.len(),
        limit <= data.len(),
    ensures
        match r {
            Ok((start, n)) => start + n <= limit && valid_utf8(
                data@.subrange(start as int, start + n),
            ) && read_text(data@, at as int, limit as int) == Ok::<Seq<u8>, DecodeError>(
                data@.subrange(start as int, start + n),
            ),
            Err(e) => read_text(data@, at as int, limit as int) == Err::<Seq<u8>, DecodeError>(e),
        },
{
    match check_blob(data, at, limit) {
        Err(e) => Err(e),
        Ok((start, n)) => {
            if str_from_utf8(slice_subrange(data, start, start + n)).is_some() {
                Ok((start, n))
            } else {
                Err(DecodeError::InvalidUtf8)
            }
        },
    }
}

/// Checks the `n` references from `start`, as texts or as byte strings.
fn validate_refs(data: &[u8], start: usize, n: usize, text: bool) -> (r: Result<(), DecodeError>)
    requires
        start + 16 * n <= data.len(),
    ensures
        text ==> match r {
            Ok(()) => read_texts(data@, start as int, n as int) is Ok,
            Err(e) => read_texts(data@, start as int, n as int) == Err::<
                Seq<Seq<u8>>,
                DecodeError,
            >(e),
        },
        !text ==> match r {
            Ok(()) => read_blobs(data@, start as int, n as int) is Ok,
            Err(e) => read_blobs(data@, start as int, n as int) == Err::<
                Seq<Seq<u8>>,
                DecodeError,
            >(e),
        },
{
    let ghost texts = text_items(data@, start as int, n as int);
    let ghost blobs = blob_items(data@, start as int, n as int);
    let mut i: usize = 0;
    while i < n
        invariant
            i <= n,
            start + 16 * n <= data.len(),
            texts == text_items(data@, start as int, n as int),
            blobs == blob_items(data@, start as int, n as int),
            text ==> forall|j: int| 0 <= j < i ==> (#[trigger] texts[j]) is Ok,
            !text ==> forall|j: int| 0 <= j < i ==> (#[trigger] blobs[j]) is Ok,
        decreases n - i,
    {
        let at: usize = start + REF_SIZE * i;
        let found = if text {
            check_text(data, at, at)
        } else {
            check_blob(data, at, at)
        };
        match found {
            Ok(_) => {},
            Err(e) => {
                proof {
                    if text {
                        lemma_collect_err(texts, i as int, e);
                    } else {
                        lemma_collect_err(blobs, i as int, e);
                    }
                }
                return Err(e);
            },
        }
        i += 1;
    }
    proof {
        if text {
            let values = Seq::new(n as nat, |j: int| texts[j]->Ok_0);
            assert forall|j: int| 0 <= j < n implies texts[j] == Ok::<Seq<u8>, DecodeError>(
                #[trigger] values[j],
            ) by {
                assert(texts[j] is Ok);
            }
            lemma_collect_ok(texts, values);
        } else {
            let values = Seq::new(n as nat, |j: int| blobs[j]->Ok_0);
            assert forall|j: int| 0 <= j < n implies blobs[j] == Ok::<Seq<u8>, DecodeError>(
                #[trigger] values[j],
            ) by {
                assert(blobs[j] is Ok);
            }
            lemma_collect_ok(blobs, values);
        }
    }
    Ok(())
}

/// Checks the value whose record lies at `pos`, and all that it refers
/// to.
pub(crate) fn validate_value(data: &[u8], pos: usize) -> (r: Result<(), DecodeError>)
    requires
        pos + 24 <= data.len(),
    ensures
        match r {
            Ok(()) => read_value(data@, pos as int) is Ok,
            Err(e) => read_value(data@, pos as int) == Err::<ValueModel, DecodeError>(e),
        },
    decreases pos, 2int,
{
    let tag: u8 = data[pos];
    let at: usize = pos + 8;
    if tag == TAG_NULL || tag == TAG_BOOL || tag == TAG_U64 || tag == TAG_I64 || tag == TAG_F64
        || tag == TAG_DATE {
        Ok(())
    } else if tag == TAG_STRING {
        match check_text(data, at, pos) {
            Ok(_) => Ok(()),
            Err(e) => Err(e),
        }
    } else if tag == TAG_BYTES {
        match check_blob(data, at, pos) {
            Ok(_) => Ok(()),
            Err(e) => Err(e),
        }
    } else if tag == TAG_ARRAY_BOOL {
        match check_ref(data, at, 1, pos) {
            Some(_) => Ok(()),
            None => Err(DecodeError::OutOfBounds),
        }
    } else if tag == TAG_ARRAY_STRING || tag == TAG_ARRAY_BYTES {
        match check_ref(data, at, REF_SIZE, pos) {
            Some((start, n)) => validate_refs(data, start, n, tag == TAG_ARRAY_STRING),
            None => Err(DecodeError::OutOfBounds),
        }
    } else if tag == TAG_ARRAY_U64 || tag == TAG_ARRAY_I64 || tag == TAG_ARRAY_F64 || tag
        == TAG_ARRAY_DATE {
        match check_ref(data, at, 8, pos) {
            Some(_) => Ok(()),
            None => Err(DecodeError::OutOfBounds),
        }
    } else if tag == TAG_ARRAY_DYNAMIC {
        match check_ref(data, at, VALUE_SIZE, pos) {
            Some((start, n)) => validate_values(data, start, n),
            None => Err(DecodeError::OutOfBounds),
        }
    } else if tag == TAG_OBJECT {
        match check_ref(data, at, ENTRY_SIZE, pos) {
            Some((start, n)) => validate_entries(data, start, n),
            None => Err(DecodeError::OutOfBounds),
        }
    } else {
        Err(DecodeError::MalformedTag { tag })
    }
}

/// Checks the `n` values whose records lie from `start`.
fn validate_values(data: &[u8], start: usize, n: usize) -> (r: Result<(), DecodeError>)
    requires
        start + 24 * n <= data.len(),
    ensures
        match r {
            Ok(()) => read_values(data@, start as int, n as int) is Ok,
            Err(e) => read_values(data@, start as int, n as int) == Err::<
                Seq<ValueModel>,
                DecodeError,
            >(e),
        },
    decreases start + 24 * n, 1int,
{
    let ghost items = value_items(data@, start as int, n as int);
    let mut i: usize = 0;
    while i < n
        invariant
            i <= n,
            start + 24 * n <= data.len(),
            items == value_items(data@, start as int, n as int),
            forall|j: int| 0 <= j < i ==> (#[trigger] items[j]) is Ok,
        decreases n - i,
    {
        match validate_value(data, start + VALUE_SIZE * i) {
            Ok(()) => {},
            Err(e) => {
                proof {
                    lemma_collect_err(items, i as int, e);
                }
                return Err(e);
            },
        }
        i += 1;
    }
    proof {
        let values = Seq::new(n as nat, |j: int| items[j]->Ok_0);
        assert forall|j: int| 0 <= j < n implies items[j] == Ok::<ValueModel, DecodeError>(
            #[trigger] values[j],
        ) by {
            assert(items[j] is Ok);
        }
        lemma_collect_ok(items, values);
    }
    Ok(())
}

/// Checks the `n` entries that lie from `start`.
pub(crate) fn validate_entries(data: &[u8], start: usize, n: usize) -> (r: Result<
    (),
    DecodeError,
>)
    requires
        start + 40 * n <= data.len(),
    ensures
        match r {
            Ok(()) => read_entries(data@, start as int, n as int) is Ok,
            Err(e) => read_entries(data@, start as int, n as int) == Err::<
                Seq<(Seq<u8>, ValueModel)>,
                DecodeError,
            >(e),
        },
    decreases start + 40 * n, 1int,
{
    let ghost items = entry_items(data@, start as int, n as int);
    let mut i: usize = 0;
    while i < n
        invariant
            i <= n,
            start + 40 * n <= data.len(),
            items == entry_items(data@, start as int, n as int),
            forall|j: int| 0 <= j < i ==> (#[trigger] items[j]) is Ok,
        decreases n - i,
    {
        let at: usize = start + ENTRY_SIZE * i;
        let checked = match check_text(data, at, at) {
            Ok(_) => validate_value(data, at + REF_SIZE),
            Err(e) => Err(e),
        };
        match checked {
            Ok(()) => {},
            Err(e) => {
                proof {
                    lemma_collect_err(items, i as int, e);
                }
                return Err(e);
            },
        }
        i += 1;
    }
    proof {
        let values = Seq::new(n as nat, |j: int| items[j]->Ok_0);
        assert forall|j: int| 0 <= j < n implies items[j] == Ok::<
            (Seq<u8>, ValueModel),
            DecodeError,
        >(#[trigger] values[j]) by {
            assert(items[j] is Ok);
        }
        lemma_collect_ok(items, values);
    }
    Ok(())
}

/// Checks a whole archive: every offset lies within bounds, every tag
/// names a kind of value, every declared length fits the bytes before its
/// record, and every text is UTF-8.
pub fn validate_document(data: &[u8]) -> (r: Result<(), DecodeError>)
    ensures
        match r {
            Ok(()) => read_document(data@) is Ok,
            Err(e) => read_document(data@) == Err::<DocumentModel, DecodeError>(e),
        },
{
    if data.len() < ROOT_SIZE {
        return Err(DecodeError::Truncated);
    }
    let root: usize = data.len() - ROOT_SIZE;
    match check_ref(data, root + 8, ENTRY_SIZE, root) {
        Some((start, n)) => validate_entries(data, start, n),
        None => Err(DecodeError::OutOfBounds),
    }
}

/// A copy of the `n` bytes from `start`.
fn owned_bytes(data: &[u8], start: usize, n: usize) -> (r: Vec<u8>)
    requires
        start + n <= data.len(),
    ensures
        r@ == data@.subrange(start as int, start + n),
{
    slice_to_vec(slice_subrange(data, start, start + n))
}

/// A copy of the text that the reference at `at` points to.
fn owned_text(data: &[u8], at: usize, limit: usize) -> (r: Text)
    requires
        at + 16 <= data.len(),
        limit <= data.len(),
        read_text(data@, at as int, limit as int) is Ok,
    ensures
        r@ == read_text(data@, at as int, limit as int)->Ok_0,
{
    match check_text(data, at, limit) {
        Ok((start, n)) => match Text::from_utf8(owned_bytes(data, start, n)) {
            Some(t) => t,
            None => vstd::pervasive::unreached(),
        },
        Err(_) => vstd::pervasive::unreached(),
    }
}

/// A copy of the byte string that the reference at `at` points to.
fn owned_blob(data: &[u8], at: usize, limit: usize) -> (r: Bytes)
    requires
        at + 16 <= data.len(),
        limit <= data.len(),
        read_blob(data@, at as int, limit as int) is Ok,
    ensures
        r@ == read_blob(data@, at as int, limit as int)->Ok_0,
{
    match check_blob(data, at, limit) {
        Ok((start, n)) => Bytes::new(owned_bytes(data, start, n)),
        Err(_) => vstd::pervasive::unreached(),
    }
}

/// Copies of the `n` texts whose references lie from `start`.
fn owned_texts(data: &[u8], start: usize, n: usize) -> (r: Vec<Text>)
    requires
        start + 16 * n <= data.len(),
        read_texts(data@, start as int, n as int) is Ok,
    ensures
        texts_view(r@) == read_texts(data@, start as int, n as int)->Ok_0,
{
    let ghost items = text_items(data@, start as int, n as int);
    let ghost values = read_texts(data@, start as int, n as int)->Ok_0;
    proof {
        lemma_collect_items(items);
    }
    let mut out: Vec<Text> = Vec::with_capacity(n);
    let mut i: usize = 0;
    while i < n
        invariant
            i <= n,
            start + 16 * n <= data.len(),
            items == text_items(data@, start as int, n as int),
            values.len() == n,
            forall|j: int|
                0 <= j < n ==> #[trigger] items[j] == Ok::<Seq<u8>, DecodeError>(values[j]),
            out@.len() == i,
            forall|j: int| 0 <= j < i ==> (#[trigger] out@[j])@ == values[j],
        decreases n - i,
    {
        let at: usize = start + REF_SIZE * i;
        assert(items[i as int] is Ok);
        out.push(owned_text(data, at, at));
        i += 1;
    }
    assert(texts_view(out@) =~= values);
    out
}

/// Copies of the `n` byte strings whose references lie from `start`.
fn owned_blobs(data: &[u8], start: usize, n: usize) -> (r: Vec<Bytes>)
    requires
        start + 16 * n <= data.len(),
        read_blobs(data@, start as int, n as int) is Ok,
    ensures
        blobs_view(r@) == read_blobs(data@, start as int, n as int)->Ok_0,
{
    let ghost items = blob_items(data@, start as int, n as int);
    let ghost values = read_blobs(data@, start as int, n as int)->Ok_0;
    proof {
        lemma_collect_items(items);
    }
    let mut out: Vec<Bytes> = Vec::with_capacity(n);
    let mut i: usize = 0;
    while i < n
        invariant
            i <= n,
            start + 16 * n <= data.len(),
            items == blob_items(data@, start as int, n as int),
            values.len() == n,
            forall|j: int|
                0 <= j < n ==> #[trigger] items[j] == Ok::<Seq<u8>, DecodeError>(values[j]),
            out@.len() == i,
            forall|j: int| 0 <= j < i ==> (#[trigger] out@[j])@ == values[j],
        decreases n - i,
    {
        let at: usize = start + REF_SIZE * i;
        assert(items[i as int] is Ok);
        out.push(owned_blob(data, at, at));
        i += 1;
    }
    assert(blobs_view(out@) =~= values);
    out
}

/// The `n` booleans stored from `start`.
fn owned_bools(data: &[u8], start: usize, n: usize) -> (r: Vec<bool>)
    requires
        start + n <= data.len(),
    ensures
        r@ == read_bools(data@, start as int, n as int),
{
    let mut out: Vec<bool> = Vec::with_capacity(n);
    let mut i: usize = 0;
    while i < n
        invariant
            i <= n,
            start + n <= data.len(),
            out@.len() == i,
            forall|j: int| 0 <= j < i ==> #[trigger] out@[j] == (data@[start + j] != 0),
        decreases n - i,
    {
        out.push(data[start + i] != 0);
        i += 1;
    }
    assert(out@ =~= read_bools(data@, start as int, n as int));
    out
}

/// The `n` unsigned integers stored from `start`.
fn owned_u64s(data: &[u8], start: usize, n: usize) -> (r: Vec<u64>)
    requires
        start + 8 * n <= data.len(),
    ensures
        r@ == read_u64s(data@, start as int, n as int),
{
    let mut out: Vec<u64> = Vec::with_capacity(n);
    let mut i: usize = 0;
    while i < n
        invariant
            i <= n,
            start + 8 * n <= data.len(),
            out@.len() == i,
            forall|j: int| 0 <= j < i ==> #[trigger] out@[j] == u64_at(data@, start + 8 * j),
        decreases n - i,
    {
        out.push(get_u64(data, start + 8 * i));
        i += 1;
    }
    assert(out@ =~= read_u64s(data@, start as int, n as int));
    out
}

/// The `n` signed integers stored from `start`.
fn owned_i64s(data: &[u8], start: usize, n: usize) -> (r: Vec<i64>)
    requires
        start + 8 * n <= data.len(),
    ensures
        r@ == read_i64s(data@, start as int, n as int),
{
    let mut out: Vec<i64> = Vec::with_capacity(n);
    let mut i: usize = 0;
    while i < n
        invariant
            i <= n,
            start + 8 * n <= data.len(),
            out@.len() == i,
            forall|j: int| 0 <= j < i ==> #[trigger] out@[j] == u64_at(data@, start + 8 * j) as i64,
        decreases n - i,
    {
        out.push(to_signed(get_u64(data, start + 8 * i)));
        i += 1;
    }
    assert(out@ =~= read_i64s(data@, start as int, n as int));
    out
}

/// The signed integer with the bits of `x`.
pub(crate) fn to_signed(x: u64) -> (r: i64)
    ensures
        r == x as i64,
{
    #[verifier::truncate]
    (x as i64)
}

/// A copy of the value whose record lies at `pos`.
fn owned_value(data: &[u8], pos: usize) -> (r: Value)
    requires
        pos + 24 <= data.len(),
        read_value(data@, pos as int) is Ok,
    ensures
        r@ == read_value(data@, pos as int)->Ok_0,
    decreases pos, 2int,
{
    let tag: u8 = data[pos];
    let at: usize = pos + 8;
    if tag == TAG_NULL {
        Value::Null
    } else if tag == TAG_BOOL {
        Value::Bool(get_u64(data, at) != 0)
    } else if tag == TAG_STRING {
        Value::String(owned_text(data, at, pos))
    } else if tag == TAG_BYTES {
        Value::Bytes(owned_blob(data, at, pos))
    } else if tag == TAG_U64 {
        Value::U64(get_u64(data, at))
    } else if tag == TAG_I64 {
        Value::I64(to_signed(get_u64(data, at)))
    } else if tag == TAG_F64 {
        Value::F64(get_u64(data, at))
    } else if tag == TAG_DATE {
        Value::Date(to_signed(get_u64(data, at)))
    } else if tag == TAG_ARRAY_BOOL {
        match check_ref(data, at, 1, pos) {
            Some((start, n)) => Value::ArrayBool(owned_bools(data, start, n)),
            None => vstd::pervasive::unreached(),
        }
    } else if tag == TAG_ARRAY_STRING {
        match check_ref(data, at, REF_SIZE, pos) {
            Some((start, n)) => Value::ArrayString(owned_texts(data, start, n)),
            None => vstd::pervasive::unreached(),
        }
    } else if tag == TAG_ARRAY_BYTES {
        match check_ref(data, at, REF_SIZE, pos) {
            Some((start, n)) => Value::ArrayBytes(owned_blobs(data, start, n)),
            None => vstd::pervasive::unreached(),
        }
    } else if tag == TAG_ARRAY_U64 {
        match check_ref(data, at, 8, pos) {
            Some((start, n)) => Value::ArrayU64(owned_u64s(data, start, n)),
            None => vstd::pervasive::unreached(),
        }
    } else if tag == TAG_ARRAY_I64 {
        match check_ref(data, at, 8, pos) {
            Some((start, n)) => Value::ArrayI64(owned_i64s(data, start, n)),
            None => vstd::pervasive::unreached(),
        }
    } else if tag == TAG_ARRAY_F64 {
        match check_ref(data, at, 8, pos) {
            Some((start, n)) => Value::ArrayF64(owned_u64s(data, start, n)),
            None => vstd::pervasive::unreached(),
        }
    } else if tag == TAG_ARRAY_DATE {
        match check_ref(data, at, 8, pos) {
            Some((start, n)) => Value::ArrayDate(owned_i64s(data, start, n)),
            None => vstd::pervasive::unreached(),
        }
    } else if tag == TAG_ARRAY_DYNAMIC {
        match check_ref(data, at, VALUE_SIZE, pos) {
            Some((start, n)) => {
                let items = owned_values(data, start, n);
                let r = Value::ArrayDynamic(items);
                proof {
                    lemma_view_array_dynamic(&r);
                }
                r
            },
            None => vstd::pervasive::unreached(),
        }
    } else if tag == TAG_OBJECT {
        match check_ref(data, at, ENTRY_SIZE, pos) {
            Some((start, n)) => {
                let items = owned_entries(data, start, n);
                let r = Value::Object(items);
                proof {
                    lemma_view_object(&r);
                }
                r
            },
            None => vstd::pervasive::unreached(),
        }
    } else {
        vstd::pervasive::unreached()
    }
}

/// Copies of the `n` values whose records lie from `start`.
fn owned_values(data: &[u8], start: usize, n: usize) -> (r: Vec<Value>)
    requires
        start + 24 * n <= data.len(),
        read_values(data@, start as int, n as int) is Ok,
    ensures
        values_view(r@) == read_values(data@, start as int, n as int)->Ok_0,
    decreases start + 24 * n, 1int,
{
    let ghost items = value_items(data@, start as int, n as int);
    let ghost values = read_values(data@, start as int, n as int)->Ok_0;
    proof {
        lemma_collect_items(items);
    }
    let mut out: Vec<Value> = Vec::with_capacity(n);
    let mut i: usize = 0;
    while i < n
        invariant
            i <= n,
            start + 24 * n <= data.len(),
            items == value_items(data@, start as int, n as int),
            values.len() == n,
            forall|j: int|
                0 <= j < n ==> #[trigger] items[j] == Ok::<ValueModel, DecodeError>(values[j]),
            out@.len() == i,
            forall|j: int| 0 <= j < i ==> (#[trigger] out@[j])@ == values[j],
        decreases n - i,
    {
        assert(items[i as int] is Ok);
        out.push(owned_value(data, start + VALUE_SIZE * i));
        i += 1;
    }
    assert(values_view(out@) =~= values);
    out
}

/// Copies of the `n` entries that lie from `start`.
fn owned_entries(data: &[u8], start: usize, n: usize) -> (r: Vec<(Text, Value)>)
    requires
        start + 40 * n <= data.len(),
        read_entries(data@, start as int, n as int) is Ok,
    ensures
        pairs_view(r@) == read_entries(data@, start as int, n as int)->Ok_0,
    decreases start + 40 * n, 1int,
{
    let ghost items = entry_items(data@, start as int, n as int);
    let ghost values = read_entries(data@, start as int, n as int)->Ok_0;
    proof {
        lemma_collect_items(items);
    }
    let mut out: Vec<(Text, Value)> = Vec::with_capacity(n);
    let mut i: usize = 0;
    while i < n
        invariant
            i <= n,
            start + 40 * n <= data.len(),
            items == entry_items(data@, start as int, n as int),
            values.len() == n,
            forall|j: int|
                0 <= j < n ==> #[trigger] items[j] == Ok::<(Seq<u8>, ValueModel), DecodeError>(
                    values[j],
                ),
            out@.len() == i,
            forall|j: int|
                0 <= j < i ==> (#[trigger] out@[j]).0@ == values[j].0 && out@[j].1@ == values[j].1,
        decreases n - i,
    {
        let at: usize = start + ENTRY_SIZE * i;
        assert(items[i as int] is Ok);
        let key = owned_text(data, at, at);
        let value = owned_value(data, at + REF_SIZE);
        out.push((key, value));
        i += 1;
    }
    assert(pairs_view(out@) =~= values);
    out
}

/// An archived text: a borrowed run of UTF-8 bytes inside an archive.
#[derive(Clone, Copy, Debug)]
pub struct ArchivedText<'a> {
    bytes: &'a [u8],
}

impl<'a> View for ArchivedText<'a> {
    type V = Seq<u8>;

    closed spec fn view(&self) -> Seq<u8> {
        self.bytes@
    }
}

impl<'a> ArchivedText<'a> {
    #[verifier::type_invariant]
    spec fn well_formed(&self) -> bool {
        valid_utf8(self.bytes@)
    }

    /// The encoded bytes, borrowed from the archive.
    pub fn as_bytes(&self) -> (r: &'a [u8])
        ensures
            r@ == self@,
            valid_utf8(r@),
    {
        proof {
            use_type_invariant(self);
        }
        self.bytes
    }

    /// The text as a string slice, borrowed from the archive.
    pub fn as_str(&self) -> (r: &'a str)
        ensures
            vstd::utf8::encode_utf8(r@) == self@,
    {
        proof {
            use_type_invariant(self);
        }
        match str_from_utf8(self.bytes) {
            Some(s) => s,
            None => vstd::pervasive::unreached(),
        }
    }

    /// The number of bytes.
    pub fn len(&self) -> (r: usize)
        ensures
            r == self@.len(),
    {
        self.bytes.len()
    }

    /// An owned copy of the text.
    pub fn to_text(&self) -> (r: Text)
        ensures
            r@ == self@,
    {
        proof {
            use_type_invariant(self);
        }
        match Text::from_utf8(slice_to_vec(self.bytes)) {
            Some(t) => t,
            None => vstd::pervasive::unreached(),
        }
    }
}

/// An archived byte string: a borrowed run of bytes inside an archive.
#[derive(Clone, Copy, Debug)]
pub struct ArchivedBytes<'a> {
    bytes: &'a [u8],
}

impl<'a> View for ArchivedBytes<'a> {
    type V = Seq<u8>;

    closed spec fn view(&self) -> Seq<u8> {
        self.bytes@
    }
}

impl<'a> ArchivedBytes<'a> {
    /// The bytes, borrowed from the archive.
    pub fn as_slice(&self) -> (r: &'a [u8])
        ensures
            r@ == self@,
    {
        self.bytes
    }

    /// The number of bytes.
    pub fn len(&self) -> (r: usize)
        ensures
            r == self@.len(),
    {
        self.bytes.len()
    }

    /// An owned copy of the bytes.
    pub fn to_bytes(&self) -> (r: Bytes)
        ensures
            r@ == self@,
    {
        Bytes::new(slice_to_vec(self.bytes))
    }
}

/// An archived value: a value record inside an archive, and through it
/// all that the record refers to.
#[derive(Clone, Copy, Debug)]
pub struct ArchivedValue<'a> {
    data: &'a [u8],
    pos: usize,
}

impl<'a> View for ArchivedValue<'a> {
    type V = ValueModel;

    closed spec fn view(&self) -> ValueModel {
        read_value(self.data@, self.pos as int)->Ok_0
    }
}

impl<'a> ArchivedValue<'a> {
    #[verifier::type_invariant]
    spec fn well_formed(&self) -> bool {
        &&& self.pos + 24 <= self.data.len()
        &&& read_value(self.data@, self.pos as int) is Ok
    }

    /// A view of the value whose record lies at `pos` in `data`, after
    /// the record and all it refers to have been validated.
    pub fn checked(data: &'a [u8], pos: usize) -> (r: Result<ArchivedValue<'a>, DecodeError>)
        ensures
            match r {
                Ok(view) => read_value(data@, pos as int) == Ok::<ValueModel, DecodeError>(view@),
                Err(e) => read_value(data@, pos as int) == Err::<ValueModel, DecodeError>(e),
            },
    {
        if data.len() < VALUE_SIZE || pos > data.len() - VALUE_SIZE {
            return Err(DecodeError::Truncated);
        }
        match validate_value(data, pos) {
            Ok(()) => Ok(ArchivedValue { data, pos }),
            Err(e) => Err(e),
        }
    }

    /// The short name of this value's kind.
    pub fn as_type(&self) -> (r: &'static str)
        ensures
            r@ == kind_name(self@),
    {
        proof {
            use_type_invariant(self);
        }
        let tag: u8 = self.data[self.pos];
        if tag == TAG_NULL {
            "null"
        } else if tag == TAG_BOOL {
            "bool"
        } else if tag == TAG_STRING {
            "string"
        } else if tag == TAG_BYTES {
            "bytes"
        } else if tag == TAG_U64 {
            "u64"
        } else if tag == TAG_I64 {
            "i64"
        } else if tag == TAG_F64 {
            "f64"
        } else if tag == TAG_DATE {
            "datetime"
        } else if tag == TAG_ARRAY_BOOL {
            "array<bool>"
        } else if tag == TAG_ARRAY_STRING {
            "array<string>"
        } else if tag == TAG_ARRAY_BYTES {
            "array<bytes>"
        } else if tag == TAG_ARRAY_U64 {
            "array<u64>"
        } else if tag == TAG_ARRAY_I64 {
            "array<i64>"
        } else if tag == TAG_ARRAY_F64 {
            "array<f64>"
        } else if tag == TAG_ARRAY_DATE {
            "array<datetime>"
        } else if tag == TAG_ARRAY_DYNAMIC {
            "array<any>"
        } else {
            "object"
        }
    }

    /// An owned, deep copy of the value.
    pub fn to_value(&self) -> (r: Value)
        ensures
            r@ == self@,
    {
        proof {
            use_type_invariant(self);
        }
        owned_value(self.data, self.pos)
    }

    /// The boolean, if this is one.
    pub fn as_bool(&self) -> (r: Option<bool>)
        ensures
            r == (match self@ {
                ValueModel::Bool(b) => Some(b),
                _ => None,
            }),
    {
        proof {
            use_type_invariant(self);
        }
        if self.data[self.pos] == TAG_BOOL {
            Some(get_u64(self.data, self.pos + 8) != 0)
        } else {
            None
        }
    }

    /// The unsigned integer, if this is one.
    pub fn as_u64(&self) -> (r: Option<u64>)
        ensures
            r == (match self@ {
                ValueModel::U64(x) => Some(x),
                _ => None,
            }),
    {
        proof {
            use_type_invariant(self);
        }
        if self.data[self.pos] == TAG_U64 {
            Some(get_u64(self.data, self.pos + 8))
        } else {
            None
        }
    }

    /// The signed integer, if this is one.
    pub fn as_i64(&self) -> (r: Option<i64>)
        ensures
            r == (match self@ {
                ValueModel::I64(x) => Some(x),
                _ => None,
            }),
    {
        proof {
            use_type_invariant(self);
        }
        if self.data[self.pos] == TAG_I64 {
            Some(to_signed(get_u64(self.data, self.pos + 8)))
        } else {
            None
        }
    }

    /// The bit pattern of the IEEE 754 number, if this is one.
    pub fn as_f64_bits(&self) -> (r: Option<u64>)
        ensures
            r == (match self@ {
                ValueModel::F64(x) => Some(x),
                _ => None,
            }),
    {
        proof {
            use_type_invariant(self);
        }
        if self.data[self.pos] == TAG_F64 {
            Some(get_u64(self.data, self.pos + 8))
        } else {
            None
        }
    }

    /// The date in microseconds since the Unix epoch, if this is one.
    pub fn as_date(&self) -> (r: Option<i64>)
        ensures
            r == (match self@ {
                ValueModel::Date(x) => Some(x),
                _ => None,
            }),
    {
        proof {
            use_type_invariant(self);
        }
        if self.data[self.pos] == TAG_DATE {
            Some(to_signed(get_u64(self.data, self.pos + 8)))
        } else {
            None
        }
    }

    /// The text, borrowed from the archive, if this is a string.
    pub fn as_text(&self) -> (r: Option<ArchivedText<'a>>)
        ensures
            match self@ {
                ValueModel::String(t) => r is Some && r->Some_0@ == t,
                _ => r is None,
            },
    {
        proof {
            use_type_invariant(self);
        }
        if self.data[self.pos] == TAG_STRING {
            match check_text(self.data, self.pos + 8, self.pos) {
                Ok((start, n)) => Some(
                    ArchivedText { bytes: slice_subrange(self.data, start, start + n) },
                ),
                Err(_) => vstd::pervasive::unreached(),
            }
        } else {
            None
        }
    }

    /// The bytes, borrowed from the archive, if this is a byte string.
    pub fn as_bytes(&self) -> (r: Option<ArchivedBytes<'a>>)
        ensures
            match self@ {
                ValueModel::Bytes(b) => r is Some && r->Some_0@ == b,
                _ => r is None,
            },
    {
        proof {
            use_type_invariant(self);
        }
        if self.data[self.pos] == TAG_BYTES {
            match check_blob(self.data, self.pos + 8, self.pos) {
                Ok((start, n)) => Some(
                    ArchivedBytes { bytes: slice_subrange(self.data, start, start + n) },
                ),
                Err(_) => vstd::pervasive::unreached(),
            }
        } else {
            None
        }
    }

    /// The booleans, if this is an array of booleans.
    pub fn bools(&self) -> (r: Option<Vec<bool>>)
        ensures
            match self@ {
                ValueModel::ArrayBool(items) => r is Some && r->Some_0@ == items,
                _ => r is None,
            },
    {
        proof {
            use_type_invariant(self);
        }
        if self.data[self.pos] == TAG_ARRAY_BOOL {
            match check_ref(self.data, self.pos + 8, 1, self.pos) {
                Some((start, n)) => Some(owned_bools(self.data, start, n)),
                None => vstd::pervasive::unreached(),
            }
        } else {
            None
        }
    }

    /// The unsigned integers, if this is an array of them.
    pub fn u64s(&self) -> (r: Option<Vec<u64>>)
        ensures
            match self@ {
                ValueModel::ArrayU64(items) => r is Some && r->Some_0@ == items,
                _ => r is None,
            },
    {
        proof {
            use_type_invariant(self);
        }
        if self.data[self.pos] == TAG_ARRAY_U64 {
            match check_ref(self.data, self.pos + 8, 8, self.pos) {
                Some((start, n)) => Some(owned_u64s(self.data, start, n)),
                None => vstd::pervasive::unreached(),
            }
        } else {
            None
        }
    }

    /// The signed integers, if this is an array of them.
    pub fn i64s(&self) -> (r: Option<Vec<i64>>)
        ensures
            match self@ {
                ValueModel::ArrayI64(items) => r is Some && r->Some_0@ == items,
                _ => r is None,
            },
    {
        proof {
            use_type_invariant(self);
        }
        if self.data[self.pos] == TAG_ARRAY_I64 {
            match check_ref(self.data, self.pos + 8, 8, self.pos) {
                Some((start, n)) => Some(owned_i64s(self.data, start, n)),
                None => vstd::pervasive::unreached(),
            }
        } else {
            None
        }
    }

    /// The bit patterns of the IEEE 754 numbers, if this is an array of
    /// them.
    pub fn f64s_bits(&self) -> (r: Option<Vec<u64>>)
        ensures
            match self@ {
                ValueModel::ArrayF64(items) => r is Some && r->Some_0@ == items,
                _ => r is None,
            },
    {
        proof {
            use_type_invariant(self);
        }
        if self.data[self.pos] == TAG_ARRAY_F64 {
            match check_ref(self.data, self.pos + 8, 8, self.pos) {
                Some((start, n)) => Some(owned_u64s(self.data, start, n)),
                None => vstd::pervasive::unreached(),
            }
        } else {
            None
        }
    }

    /// The dates, if this is an array of dates.
    pub fn dates(&self) -> (r: Option<Vec<i64>>)
        ensures
            match self@ {
                ValueModel::ArrayDate(items) => r is Some && r->Some_0@ == items,
                _ => r is None,
            },
    {
        proof {
            use_type_invariant(self);
        }
        if self.data[self.pos] == TAG_ARRAY_DATE {
            match check_ref(self.data, self.pos + 8, 8, self.pos) {
                Some((start, n)) => Some(owned_i64s(self.data, start, n)),
                None => vstd::pervasive::unreached(),
            }
        } else {
            None
        }
    }

    /// Views of the texts, in order, if this is an array of strings.
    pub fn texts(&self) -> (r: Option<Vec<ArchivedText<'a>>>)
        ensures
            match self@ {
                ValueModel::ArrayString(items) => r is Some && r->Some_0@.len() == items.len()
                    && forall|i: int|
                    0 <= i < items.len() ==> (#[trigger] r->Some_0@[i])@ == items[i],
                _ => r is None,
            },
    {
        proof {
            use_type_invariant(self);
        }
        if self.data[self.pos] == TAG_ARRAY_STRING {
            match check_ref(self.data, self.pos + 8, REF_SIZE, self.pos) {
                Some((start, n)) => Some(text_views(self.data, start, n)),
                None => vstd::pervasive::unreached(),
            }
        } else {
            None
        }
    }

    /// Views of the byte strings, in order, if this is an array of them.
    pub fn byte_strings(&self) -> (r: Option<Vec<ArchivedBytes<'a>>>)
        ensures
            match self@ {
                ValueModel::ArrayBytes(items) => r is Some && r->Some_0@.len() == items.len()
                    && forall|i: int|
                    0 <= i < items.len() ==> (#[trigger] r->Some_0@[i])@ == items[i],
                _ => r is None,
            },
    {
        proof {
            use_type_invariant(self);
        }
        if self.data[self.pos] == TAG_ARRAY_BYTES {
            match check_ref(self.data, self.pos + 8, REF_SIZE, self.pos) {
                Some((start, n)) => Some(blob_views(self.data, start, n)),
                None => vstd::pervasive::unreached(),
            }
        } else {
            None
        }
    }

    /// Views of the items, in order, if this is a dynamic array.
    pub fn items(&self) -> (r: Option<Vec<ArchivedValue<'a>>>)
        ensures
            match self@ {
                ValueModel::ArrayDynamic(items) => r is Some && r->Some_0@.len() == items.len()
                    && forall|i: int|
                    0 <= i < items.len() ==> (#[trigger] r->Some_0@[i])@ == items[i],
                _ => r is None,
            },
    {
        proof {
            use_type_invariant(self);
        }
        if self.data[self.pos] == TAG_ARRAY_DYNAMIC {
            match check_ref(self.data, self.pos + 8, VALUE_SIZE, self.pos) {
                Some((start, n)) => Some(value_views(self.data, start, n)),
                None => vstd::pervasive::unreached(),
            }
        } else {
            None
        }
    }

    /// Views of the keys and values, in order, if this is an object.
    pub fn entries(&self) -> (r: Option<Vec<(ArchivedText<'a>, ArchivedValue<'a>)>>)
        ensures
            match self@ {
                ValueModel::Object(items) => r is Some && r->Some_0@.len() == items.len()
                    && forall|i: int|
                    0 <= i < items.len() ==> (#[trigger] r->Some_0@[i]).0@ == items[i].0
                        && r->Some_0@[i].1@ == items[i].1,
                _ => r is None,
            },
    {
        proof {
            use_type_invariant(self);
        }
        if self.data[self.pos] == TAG_OBJECT {
            match check_ref(self.data, self.pos + 8, ENTRY_SIZE, self.pos) {
                Some((start, n)) => Some(entry_views(self.data, start, n)),
                None => vstd::pervasive::unreached(),
            }
        } else {
            None
        }
    }
}

/// Views of the `n` texts whose references lie from `start`.
fn text_views<'a>(data: &'a [u8], start: usize, n: usize) -> (r: Vec<ArchivedText<'a>>)
    requires
        start + 16 * n <= data.len(),
        read_texts(data@, start as int, n as int) is Ok,
    ensures
        r@.len() == n,
        read_texts(data@, start as int, n as int)->Ok_0.len() == n,
        forall|i: int|
            0 <= i < n ==> (#[trigger] r@[i])@ == read_texts(
                data@,
                start as int,
                n as int,
            )->Ok_0[i],
{
    let ghost items = text_items(data@, start as int, n as int);
    let ghost values = read_texts(data@, start as int, n as int)->Ok_0;
    proof {
        lemma_collect_items(items);
    }
    let mut out: Vec<ArchivedText<'a>> = Vec::with_capacity(n);
    let mut i: usize = 0;
    while i < n
        invariant
            i <= n,
            start + 16 * n <= data.len(),
            items == text_items(data@, start as int, n as int),
            values.len() == n,
            forall|j: int|
                0 <= j < n ==> #[trigger] items[j] == Ok::<Seq<u8>, DecodeError>(values[j]),
            out@.len() == i,
            forall|j: int| 0 <= j < i ==> (#[trigger] out@[j])@ == values[j],
        decreases n - i,
    {
        let at: usize = start + REF_SIZE * i;
        assert(items[i as int] is Ok);
        let view = match check_text(data, at, at) {
            Ok((from, len)) => ArchivedText { bytes: slice_subrange(data, from, from + len) },
            Err(_) => vstd::pervasive::unreached(),
        };
        out.push(view);
        i += 1;
    }
    out
}

/// Views of the `n` byte strings whose references lie from `start`.
fn blob_views<'a>(data: &'a [u8], start: usize, n: usize) -> (r: Vec<ArchivedBytes<'a>>)
    requires
        start + 16 * n <= data.len(),
        read_blobs(data@, start as int, n as int) is Ok,
    ensures
        r@.len() == n,
        read_blobs(data@, start as int, n as int)->Ok_0.len() == n,
        forall|i: int|
            0 <= i < n ==> (#[trigger] r@[i])@ == read_blobs(
                data@,
                start as int,
                n as int,
            )->Ok_0[i],
{
    let ghost items = blob_items(data@, start as int, n as int);
    let ghost values = read_blobs(data@, start as int, n as int)->Ok_0;
    proof {
        lemma_collect_items(items);
    }
    let mut out: Vec<ArchivedBytes<'a>> = Vec::with_capacity(n);
    let mut i: usize = 0;
    while i < n
        invariant
            i <= n,
            start + 16 * n <= data.len(),
            items == blob_items(data@, start as int, n as int),
            values.len() == n,
            forall|j: int|
                0 <= j < n ==> #[trigger] items[j] == Ok::<Seq<u8>, DecodeError>(values[j]),
            out@.len() == i,
            forall|j: int| 0 <= j < i ==> (#[trigger] out@[j])@ == values[j],
        decreases n - i,
    {
        let at: usize = start + REF_SIZE * i;
        assert(items[i as int] is Ok);
        let view = match check_blob(data, at, at) {
            Ok((from, len)) => ArchivedBytes { bytes: slice_subrange(data, from, from + len) },
            Err(_) => vstd::pervasive::unreached(),
        };
        out.push(view);
        i += 1;
    }
    out
}

/// Views of the `n` values whose records lie from `start`.
fn value_views<'a>(data: &'a [u8], start: usize, n: usize) -> (r: Vec<ArchivedValue<'a>>)
    requires
        start + 24 * n <= data.len(),
        read_values(data@, start as int, n as int) is Ok,
    ensures
        r@.len() == n,
        read_values(data@, start as int, n as int)->Ok_0.len() == n,
        forall|i: int|
            0 <= i < n ==> (#[trigger] r@[i])@ == read_values(
                data@,
                start as int,
                n as int,
            )->Ok_0[i],
{
    let ghost items = value_items(data@, start as int, n as int);
    let ghost values = read_values(data@, start as int, n as int)->Ok_0;
    proof {
        lemma_collect_items(items);
    }
    let mut out: Vec<ArchivedValue<'a>> = Vec::with_capacity(n);
    let mut i: usize = 0;
    while i < n
        invariant
            i <= n,
            start + 24 * n <= data.len(),
            items == value_items(data@, start as int, n as int),
            values.len() == n,
            forall|j: int|
                0 <= j < n ==> #[trigger] items[j] == Ok::<ValueModel, DecodeError>(values[j]),
            out@.len() == i,
            forall|j: int| 0 <= j < i ==> (#[trigger] out@[j])@ == values[j],
        decreases n - i,
    {
        assert(items[i as int] is Ok);
        out.push(ArchivedValue { data, pos: start + VALUE_SIZE * i });
        i += 1;
    }
    out
}

/// Views of the `n` entries that lie from `start`.
fn entry_views<'a>(data: &'a [u8], start: usize, n: usize) -> (r: Vec<
    (ArchivedText<'a>, ArchivedValue<'a>),
>)
    requires
        start + 40 * n <= data.len(),
        read_entries(data@, start as int, n as int) is Ok,
    ensures
        r@.len() == n,
        read_entries(data@, start as int, n as int)->Ok_0.len() == n,
        forall|i: int|
            0 <= i < n ==> {
                let entry = read_entries(data@, start as int, n as int)->Ok_0[i];
                (#[trigger] r@[i]).0@ == entry.0 && r@[i].1@ == entry.1
            },
{
    let ghost items = entry_items(data@, start as int, n as int);
    let ghost values = read_entries(data@, start as int, n as int)->Ok_0;
    proof {
        lemma_collect_items(items);
    }
    let mut out: Vec<(ArchivedText<'a>, ArchivedValue<'a>)> = Vec::with_capacity(n);
    let mut i: usize = 0;
    while i < n
        invariant
            i <= n,
            start + 40 * n <= data.len(),
            items == entry_items(data@, start as int, n as int),
            values.len() == n,
            forall|j: int|
                0 <= j < n ==> #[trigger] items[j] == Ok::<(Seq<u8>, ValueModel), DecodeError>(
                    values[j],
                ),
            out@.len() == i,
            forall|j: int|
                0 <= j < i ==> (#[trigger] out@[j]).0@ == values[j].0 && out@[j].1@ == values[j].1,
        decreases n - i,
    {
        let at: usize = start + ENTRY_SIZE * i;
        assert(items[i as int] is Ok);
        let key = match check_text(data, at, at) {
            Ok((from, len)) => ArchivedText { bytes: slice_subrange(data, from, from + len) },
            Err(_) => vstd::pervasive::unreached(),
        };
        out.push((key, ArchivedValue { data, pos: at + REF_SIZE }));
        i += 1;
    }
    out
}

/// An archived document: a view of the bytes of one archive, read in
/// place.
#[derive(Clone, Copy, Debug)]
pub struct ArchivedDocument<'a> {
    data: &'a [u8],
}

impl<'a> View for ArchivedDocument<'a> {
    type V = DocumentModel;

    closed spec fn view(&self) -> DocumentModel {
        read_document(self.data@)->Ok_0
    }
}

impl<'a> ArchivedDocument<'a> {
    #[verifier::type_invariant]
    spec fn well_formed(&self) -> bool {
        read_document(self.data@) is Ok
    }

    /// The archive that this is a view of.
    pub closed spec fn archive(&self) -> Seq<u8> {
        self.data@
    }

    /// The view is what the archive reads as.
    pub proof fn lemma_view(&self)
        ensures
            read_document(self.archive()) is Ok ==> self@ == read_document(self.archive())->Ok_0,
    {
    }

    /// A view of `data`, which the caller knows to be a sound archive.
    pub(crate) fn trusted(data: &'a [u8]) -> (r: Self)
        requires
            read_document(data@) is Ok,
        ensures
            r.archive() == data@,
            r@ == read_document(data@)->Ok_0,
    {
        ArchivedDocument { data }
    }

    /// The bytes of the archive.
    pub fn as_bytes(&self) -> (r: &'a [u8])
        ensures
            r@ == self.archive(),
            read_document(r@) == Ok::<DocumentModel, DecodeError>(self@),
    {
        proof {
            use_type_invariant(self);
        }
        self.data
    }

    /// The identifier of the document.
    pub fn id(&self) -> (r: u64)
        ensures
            r == self@.id,
    {
        proof {
            use_type_invariant(self);
        }
        get_u64(self.data, self.data.len() - ROOT_SIZE)
    }

    /// The number of fields.
    pub fn len(&self) -> (r: usize)
        ensures
            r == self@.fields.len(),
    {
        proof {
            use_type_invariant(self);
        }
        let root: usize = self.data.len() - ROOT_SIZE;
        match check_ref(self.data, root + 8, ENTRY_SIZE, root) {
            Some((start, n)) => {
                proof {
                    lemma_collect_items(entry_items(self.data@, start as int, n as int));
                }
                n
            },
            None => vstd::pervasive::unreached(),
        }
    }

    /// Views of the fields, in order. No key or value is copied.
    pub fn fields(&self) -> (r: Vec<(ArchivedText<'a>, ArchivedValue<'a>)>)
        ensures
            r@.len() == self@.fields.len(),
            forall|i: int|
                0 <= i < r@.len() ==> (#[trigger] r@[i]).0@ == self@.fields[i].0 && r@[i].1@
                    == self@.fields[i].1,
    {
        proof {
            use_type_invariant(self);
        }
        let root: usize = self.data.len() - ROOT_SIZE;
        match check_ref(self.data, root + 8, ENTRY_SIZE, root) {
            Some((start, n)) => entry_views(self.data, start, n),
            None => vstd::pervasive::unreached(),
        }
    }

    /// An owned, deep copy of the document.
    pub fn to_document(&self) -> (r: Document)
        ensures
            r@ == self@,
    {
        proof {
            use_type_invariant(self);
        }
        let root: usize = self.data.len() - ROOT_SIZE;
        match check_ref(self.data, root + 8, ENTRY_SIZE, root) {
            Some((start, n)) => {
                let mut doc = Document::from_fields(owned_entries(self.data, start, n));
                doc.set_id(get_u64(self.data, root));
                proof {
                    doc.lemma_view();
                }
                doc
            },
            None => vstd::pervasive::unreached(),
        }
    }
}

} // verus!
