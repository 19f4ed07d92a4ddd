//! How much serializing a value takes: bytes of output at most, and
//! words of scratch space at the deepest point.

use crate::document::{DocumentModel, ValueModel};
use vstd::prelude::*;

verus! {

/// The larger of two numbers.
pub open spec fn max2(a: nat, b: nat) -> nat {
    if a >= b {
        a
    } else {
        b
    }
}

/// The most bytes that the items of `value` take when they are written
/// before its record: the payloads, the records of nested values, and up
/// to seven bytes of padding before each run of records. A payload that
/// was written before is not written again, so less may be taken.
pub open spec fn body_size(value: ValueModel) -> nat
    decreases value, 0nat,
{
    match value {
        ValueModel::String(t) => t.len(),
        ValueModel::Bytes(b) => b.len(),
        ValueModel::ArrayBool(items) => items.len(),
        ValueModel::ArrayString(items) => blobs_size(items, items.len()) + 7 + 16 * items.len(),
        ValueModel::ArrayBytes(items) => blobs_size(items, items.len()) + 7 + 16 * items.len(),
        ValueModel::ArrayU64(items) => 7 + 8 * items.len(),
        ValueModel::ArrayI64(items) => 7 + 8 * items.len(),
        ValueModel::ArrayF64(items) => 7 + 8 * items.len(),
        ValueModel::ArrayDate(items) => 7 + 8 * items.len(),
        ValueModel::ArrayDynamic(items) => values_size(items, items.len()) + 7 + 24
            * items.len(),
        ValueModel::Object(items) => entries_size(items, items.len()) + 7 + 40 * items.len(),
        _ => 0,
    }
}

/// The number of bytes in the first `k` of `items`.
pub open spec fn blobs_size(items: Seq<Seq<u8>>, k: nat) -> nat
    decreases k,
{
    if k == 0 || k > items.len() {
        0
    } else {
        blobs_size(items, (k - 1) as nat) + items[k - 1].len()
    }
}

/// The sum of `body_size` over the first `k` of `items`.
pub open spec fn values_size(items: Seq<ValueModel>, k: nat) -> nat
    decreases items, k,
{
    if k == 0 || k > items.len() {
        0
    } else {
        values_size(items, (k - 1) as nat) + body_size(items[k - 1])
    }
}

/// The sum of the key length and `body_size` of the value over the first
/// `k` of `items`.
pub open spec fn entries_size(items: Seq<(Seq<u8>, ValueModel)>, k: nat) -> nat
    decreases items, k,
{
    if k == 0 || k > items.len() {
        0
    } else {
        entries_size(items, (k - 1) as nat) + items[k - 1].0.len() + body_size(items[k - 1].1)
    }
}

/// The most bytes that a value takes: its items, padding, its record.
pub open spec fn value_size(value: ValueModel) -> nat {
    body_size(value) + 7 + 24
}

/// The most bytes that the archive of a document takes.
pub open spec fn document_size(document: DocumentModel) -> nat {
    entries_size(document.fields, document.fields.len()) + 7 + 40 * document.fields.len() + 24
}

/// The number of words of scratch space that serializing `value` needs
/// at its deepest point.
pub open spec fn scratch_need(value: ValueModel) -> nat
    decreases value, 0nat,
{
    match value {
        ValueModel::ArrayString(items) => items.len(),
        ValueModel::ArrayBytes(items) => items.len(),
        ValueModel::ArrayDynamic(items) => values_need(items, items.len()),
        ValueModel::Object(items) => entries_need(items, items.len()),
        _ => 0,
    }
}

/// The words needed for the first `k` of `items`: one word is held for
/// each item that is done while the next is serialized.
pub open spec fn values_need(items: Seq<ValueModel>, k: nat) -> nat
    decreases items, k,
{
    if k == 0 || k > items.len() {
        0
    } else {
        max2(
            max2(values_need(items, (k - 1) as nat), (k - 1) as nat + scratch_need(items[k - 1])),
            k,
        )
    }
}

/// The words needed for the first `k` of `items`: two words are held for
/// each entry that is done, and one for the key of the entry whose value
/// is being serialized.
pub open spec fn entries_need(items: Seq<(Seq<u8>, ValueModel)>, k: nat) -> nat
    decreases items, k,
{
    if k == 0 || k > items.len() {
        0
    } else {
        max2(
            max2(
                entries_need(items, (k - 1) as nat),
                (2 * (k - 1) + 1) as nat + scratch_need(items[k - 1].1),
            ),
            2 * k,
        )
    }
}

/// The words of scratch space that serializing a document needs.
pub open spec fn document_need(document: DocumentModel) -> nat {
    entries_need(document.fields, document.fields.len())
}

/// Sizes and needs grow with the number of items counted.
pub proof fn lemma_sums_monotonic(
    blobs: Seq<Seq<u8>>,
    values: Seq<ValueModel>,
    entries: Seq<(Seq<u8>, ValueModel)>,
    i: nat,
    k: nat,
)
    requires
        i <= k,
    ensures
        k <= blobs.len() ==> blobs_size(blobs, i) <= blobs_size(blobs, k),
        k <= values.len() ==> values_size(values, i) <= values_size(values, k),
        k <= entries.len() ==> entries_size(entries, i) <= entries_size(entries, k),
        k <= values.len() ==> values_need(values, i) <= values_need(values, k),
        k <= entries.len() ==> entries_need(entries, i) <= entries_need(entries, k),
    decreases k,
{
    if i < k {
        lemma_sums_monotonic(blobs, values, entries, i, (k - 1) as nat);
    }
}

/// One more value fits when the values before it fit, it fits above
/// them, and its position fits beside theirs.
pub proof fn lemma_values_need_step(items: Seq<ValueModel>, i: nat, limit: int)
    requires
        i < items.len(),
        values_need(items, i) <= limit,
        i + scratch_need(items[i as int]) <= limit,
        i + 1 <= limit,
    ensures
        values_need(items, i + 1) <= limit,
{
}

/// One more entry fits when the entries before it fit, its value fits
/// above them and its key, and its two positions fit beside theirs.
pub proof fn lemma_entries_need_step(items: Seq<(Seq<u8>, ValueModel)>, i: nat, limit: int)
    requires
        i < items.len(),
        entries_need(items, i) <= limit,
        2 * i + 1 + scratch_need(items[i as int].1) <= limit,
        2 * i + 2 <= limit,
    ensures
        entries_need(items, i + 1) <= limit,
{
}

} // verus!
