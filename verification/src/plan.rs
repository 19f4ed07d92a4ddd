//! What a serializer writes, as a function of what it is given.
//!
//! A [`Plan`] is the state of a serializer as far as it decides what is
//! written next: the frame so far, and where each run of bytes was
//! written. The functions here say, step by step, which plan follows from
//! which; [`archive_of`] is the archive of a document.

use crate::document::{DocumentModel, ValueModel};
use crate::layout::{entry_record, ref_bytes, root_record, value_record};
use crate::sink::{padding_for, zeros};
use vstd::bytes::spec_u64_to_le_bytes;
use vstd::prelude::*;

verus! {

/// The frame so far, and for each run of bytes written so far the
/// position of its first byte.
pub struct Plan {
    pub out: Seq<u8>,
    pub seen: Map<Seq<u8>, nat>,
}

/// The plan of a serializer that has written nothing.
pub open spec fn fresh() -> Plan {
    Plan { out: Seq::empty(), seen: Map::empty() }
}

/// The plan after `bytes` are appended.
pub open spec fn put_bytes(plan: Plan, bytes: Seq<u8>) -> Plan {
    Plan { out: plan.out + bytes, seen: plan.seen }
}

/// The plan after the frame is padded to a multiple of eight.
pub open spec fn put_padding(plan: Plan) -> Plan {
    put_bytes(plan, zeros(padding_for(plan.out.len(), 8)))
}

/// Where `run` lies once it is written: where it was written before, or
/// at the end of the frame.
pub open spec fn run_target(plan: Plan, run: Seq<u8>) -> nat {
    if plan.seen.contains_key(run) {
        plan.seen[run]
    } else {
        plan.out.len()
    }
}

/// The plan after `run` is written: unchanged if it was written before.
pub open spec fn put_run(plan: Plan, run: Seq<u8>) -> Plan {
    if plan.seen.contains_key(run) {
        plan
    } else {
        Plan { out: plan.out + run, seen: plan.seen.insert(run, plan.out.len()) }
    }
}

/// One byte for each boolean: one for true, zero for false.
pub open spec fn bool_bytes(items: Seq<bool>) -> Seq<u8> {
    Seq::new(
        items.len(),
        |i: int|
            if items[i] {
                1u8
            } else {
                0u8
            },
    )
}

/// The first `k` of `words`, eight little-endian bytes each.
pub open spec fn word_bytes(words: Seq<u64>, k: nat) -> Seq<u8>
    decreases k,
{
    if k == 0 || k > words.len() {
        Seq::empty()
    } else {
        word_bytes(words, (k - 1) as nat) + spec_u64_to_le_bytes(words[k - 1])
    }
}

/// The plan after a run of 64-bit numbers is written at a multiple of
/// eight.
pub open spec fn put_words(plan: Plan, words: Seq<u64>) -> Plan {
    put_bytes(put_padding(plan), word_bytes(words, words.len()))
}

/// The plan after the first `k` of `runs` are written.
pub open spec fn staged_runs(plan: Plan, runs: Seq<Seq<u8>>, k: nat) -> Plan
    decreases k,
{
    if k == 0 || k > runs.len() {
        plan
    } else {
        put_run(staged_runs(plan, runs, (k - 1) as nat), runs[k - 1])
    }
}

/// Where the first `k` of `runs` lie once they are written.
pub open spec fn run_positions(plan: Plan, runs: Seq<Seq<u8>>, k: nat) -> Seq<nat>
    decreases k,
{
    if k == 0 || k > runs.len() {
        Seq::empty()
    } else {
        run_positions(plan, runs, (k - 1) as nat).push(
            run_target(staged_runs(plan, runs, (k - 1) as nat), runs[k - 1]),
        )
    }
}

/// The references to the first `k` of `runs`, which lie at `targets`,
/// one after the other from `start`.
pub open spec fn run_refs(start: nat, runs: Seq<Seq<u8>>, targets: Seq<nat>, k: nat) -> Seq<u8>
    decreases k,
{
    if k == 0 || k > runs.len() {
        Seq::empty()
    } else {
        run_refs(start, runs, targets, (k - 1) as nat) + ref_bytes(
            start + 16 * (k - 1),
            targets[k - 1] as int,
            runs[k - 1].len() as int,
        )
    }
}

/// The plan after `runs` and the references to them are written.
pub open spec fn put_runs(plan: Plan, runs: Seq<Seq<u8>>) -> Plan {
    let aligned = put_padding(staged_runs(plan, runs, runs.len()));
    put_bytes(
        aligned,
        run_refs(aligned.out.len(), runs, run_positions(plan, runs, runs.len()), runs.len()),
    )
}

/// The numbers of a run of signed integers, as they are written.
pub open spec fn signed_words(items: Seq<i64>) -> Seq<u64> {
    Seq::new(items.len(), |i: int| items[i] as u64)
}

/// The plan after all that the record of `value` refers to is written.
pub open spec fn body_plan(plan: Plan, value: ValueModel) -> Plan
    decreases value, 0nat,
{
    match value {
        ValueModel::String(t) => put_run(plan, t),
        ValueModel::Bytes(b) => put_run(plan, b),
        ValueModel::ArrayBool(items) => put_bytes(plan, bool_bytes(items)),
        ValueModel::ArrayString(items) => put_runs(plan, items),
        ValueModel::ArrayBytes(items) => put_runs(plan, items),
        ValueModel::ArrayU64(items) => put_words(plan, items),
        ValueModel::ArrayI64(items) => put_words(plan, signed_words(items)),
        ValueModel::ArrayF64(items) => put_words(plan, items),
        ValueModel::ArrayDate(items) => put_words(plan, signed_words(items)),
        ValueModel::ArrayDynamic(items) => {
            let aligned = put_padding(staged_values(plan, items, items.len()));
            put_bytes(
                aligned,
                value_records(
                    aligned.out.len(),
                    items,
                    value_positions(plan, items, items.len()),
                    items.len(),
                ),
            )
        },
        ValueModel::Object(items) => {
            let aligned = put_padding(staged_entries(plan, items, items.len()));
            put_bytes(
                aligned,
                entry_records(
                    aligned.out.len(),
                    items,
                    key_positions(plan, items, items.len()),
                    entry_positions(plan, items, items.len()),
                    items.len(),
                ),
            )
        },
        _ => plan,
    }
}

/// Where all that the record of `value` refers to lies once it is
/// written; zero for a scalar.
pub open spec fn body_target(plan: Plan, value: ValueModel) -> nat
    decreases value, 0nat,
{
    match value {
        ValueModel::String(t) => run_target(plan, t),
        ValueModel::Bytes(b) => run_target(plan, b),
        ValueModel::ArrayBool(items) => plan.out.len(),
        ValueModel::ArrayString(items) => put_padding(
            staged_runs(plan, items, items.len()),
        ).out.len(),
        ValueModel::ArrayBytes(items) => put_padding(
            staged_runs(plan, items, items.len()),
        ).out.len(),
        ValueModel::ArrayU64(items) => put_padding(plan).out.len(),
        ValueModel::ArrayI64(items) => put_padding(plan).out.len(),
        ValueModel::ArrayF64(items) => put_padding(plan).out.len(),
        ValueModel::ArrayDate(items) => put_padding(plan).out.len(),
        ValueModel::ArrayDynamic(items) => put_padding(
            staged_values(plan, items, items.len()),
        ).out.len(),
        ValueModel::Object(items) => put_padding(
            staged_entries(plan, items, items.len()),
        ).out.len(),
        _ => 0,
    }
}

/// The plan after all that the records of the first `k` of `items` refer
/// to is written.
pub open spec fn staged_values(plan: Plan, items: Seq<ValueModel>, k: nat) -> Plan
    decreases items, k,
{
    if k == 0 || k > items.len() {
        plan
    } else {
        body_plan(staged_values(plan, items, (k - 1) as nat), items[k - 1])
    }
}

/// Where what the records of the first `k` of `items` refer to lies.
pub open spec fn value_positions(plan: Plan, items: Seq<ValueModel>, k: nat) -> Seq<nat>
    decreases items, k,
{
    if k == 0 || k > items.len() {
        Seq::empty()
    } else {
        value_positions(plan, items, (k - 1) as nat).push(
            body_target(staged_values(plan, items, (k - 1) as nat), items[k - 1]),
        )
    }
}

/// The records of the first `k` of `items`, one after the other from
/// `start`.
pub open spec fn value_records(start: nat, items: Seq<ValueModel>, targets: Seq<nat>, k: nat)
    -> Seq<u8>
    decreases k,
{
    if k == 0 || k > items.len() {
        Seq::empty()
    } else {
        value_records(start, items, targets, (k - 1) as nat) + value_record(
            items[k - 1],
            start + 24 * (k - 1),
            targets[k - 1] as int,
        )
    }
}

/// The plan after the keys of the first `k` of `items` and all that the
/// records of their values refer to are written.
pub open spec fn staged_entries(plan: Plan, items: Seq<(Seq<u8>, ValueModel)>, k: nat) -> Plan
    decreases items, k,
{
    if k == 0 || k > items.len() {
        plan
    } else {
        body_plan(
            put_run(staged_entries(plan, items, (k - 1) as nat), items[k - 1].0),
            items[k - 1].1,
        )
    }
}

/// Where the keys of the first `k` of `items` lie.
pub open spec fn key_positions(plan: Plan, items: Seq<(Seq<u8>, ValueModel)>, k: nat) -> Seq<nat>
    decreases items, k,
{
    if k == 0 || k > items.len() {
        Seq::empty()
    } else {
        key_positions(plan, items, (k - 1) as nat).push(
            run_target(staged_entries(plan, items, (k - 1) as nat), items[k - 1].0),
        )
    }
}

/// Where what the records of the values of the first `k` of `items`
/// refer to lies.
pub open spec fn entry_positions(plan: Plan, items: Seq<(Seq<u8>, ValueModel)>, k: nat) -> Seq<nat>
    decreases items, k,
{
    if k == 0 || k > items.len() {
        Seq::empty()
    } else {
        entry_positions(plan, items, (k - 1) as nat).push(
            body_target(
                put_run(staged_entries(plan, items, (k - 1) as nat), items[k - 1].0),
                items[k - 1].1,
            ),
        )
    }
}

/// The records of the first `k` of `items`, one after the other from
/// `start`.
pub open spec fn entry_records(
    start: nat,
    items: Seq<(Seq<u8>, ValueModel)>,
    keys: Seq<nat>,
    targets: Seq<nat>,
    k: nat,
) -> Seq<u8>
    decreases k,
{
    if k == 0 || k > items.len() {
        Seq::empty()
    } else {
        entry_records(start, items, keys, targets, (k - 1) as nat) + entry_record(
            items[k - 1].0,
            items[k - 1].1,
            start + 40 * (k - 1),
            keys[k - 1] as int,
            targets[k - 1] as int,
        )
    }
}

/// The plan after `value` is archived: its items, padding, its record.
pub open spec fn value_plan(plan: Plan, value: ValueModel) -> Plan {
    let aligned = put_padding(body_plan(plan, value));
    put_bytes(
        aligned,
        value_record(value, aligned.out.len() as int, body_target(plan, value) as int),
    )
}

/// The plan after `document` is archived: its fields, as the entries of
/// an object are, then its record.
pub open spec fn document_plan(plan: Plan, document: DocumentModel) -> Plan {
    let fields = ValueModel::Object(document.fields);
    let listed = body_plan(plan, fields);
    put_bytes(
        listed,
        root_record(
            document.id,
            listed.out.len() as int,
            body_target(plan, fields) as int,
            document.fields.len() as int,
        ),
    )
}

/// The archive of a document: what a serializer that has written
/// nothing writes for it.
pub open spec fn archive_of(document: DocumentModel) -> Seq<u8> {
    document_plan(fresh(), document).out
}

/// Writing more runs never shortens the frame.
pub proof fn lemma_staged_runs_grow(plan: Plan, runs: Seq<Seq<u8>>, i: nat, k: nat)
    requires
        i <= k <= runs.len(),
    ensures
        plan.out.len() <= staged_runs(plan, runs, i).out.len() <= staged_runs(
            plan,
            runs,
            k,
        ).out.len(),
    decreases k,
{
    if i < k {
        lemma_staged_runs_grow(plan, runs, i, (k - 1) as nat);
    } else if k > 0 {
        lemma_staged_runs_grow(plan, runs, (i - 1) as nat, (k - 1) as nat);
    }
}

/// Writing what a record refers to never shortens the frame.
pub proof fn lemma_body_grows(plan: Plan, value: ValueModel)
    ensures
        plan.out.len() <= body_plan(plan, value).out.len(),
    decreases value, 0nat,
{
    match value {
        ValueModel::ArrayString(items) => {
            lemma_staged_runs_grow(plan, items, 0, items.len());
        },
        ValueModel::ArrayBytes(items) => {
            lemma_staged_runs_grow(plan, items, 0, items.len());
        },
        ValueModel::ArrayDynamic(items) => {
            lemma_staged_values_grow(plan, items, 0, items.len());
        },
        ValueModel::Object(items) => {
            lemma_staged_entries_grow(plan, items, 0, items.len());
        },
        _ => {},
    }
}

/// Writing what more records refer to never shortens the frame.
pub proof fn lemma_staged_values_grow(plan: Plan, items: Seq<ValueModel>, i: nat, k: nat)
    requires
        i <= k <= items.len(),
    ensures
        plan.out.len() <= staged_values(plan, items, i).out.len() <= staged_values(
            plan,
            items,
            k,
        ).out.len(),
    decreases items, k,
{
    if k > 0 {
        if i < k {
            lemma_staged_values_grow(plan, items, i, (k - 1) as nat);
        } else {
            lemma_staged_values_grow(plan, items, (i - 1) as nat, (k - 1) as nat);
        }
        lemma_body_grows(staged_values(plan, items, (k - 1) as nat), items[k - 1]);
    }
}

/// Writing the keys and what the records of more entries refer to never
/// shortens the frame.
pub proof fn lemma_staged_entries_grow(
    plan: Plan,
    items: Seq<(Seq<u8>, ValueModel)>,
    i: nat,
    k: nat,
)
    requires
        i <= k <= items.len(),
    ensures
        plan.out.len() <= staged_entries(plan, items, i).out.len() <= staged_entries(
            plan,
            items,
            k,
        ).out.len(),
    decreases items, k,
{
    if k > 0 {
        if i < k {
            lemma_staged_entries_grow(plan, items, i, (k - 1) as nat);
        } else {
            lemma_staged_entries_grow(plan, items, (i - 1) as nat, (k - 1) as nat);
        }
        let keyed = put_run(staged_entries(plan, items, (k - 1) as nat), items[k - 1].0);
        lemma_body_grows(keyed, items[k - 1].1);
    }
}

/// The first `k` numbers take eight bytes each.
pub proof fn lemma_word_bytes_len(words: Seq<u64>, k: nat)
    requires
        k <= words.len(),
    ensures
        word_bytes(words, k).len() == 8 * k,
    decreases k,
{
    vstd::bytes::lemma_auto_spec_u64_to_from_le_bytes();
    if k > 0 {
        lemma_word_bytes_len(words, (k - 1) as nat);
    }
}

/// The first `k` references take sixteen bytes each.
pub proof fn lemma_run_refs_len(start: nat, runs: Seq<Seq<u8>>, targets: Seq<nat>, k: nat)
    requires
        k <= runs.len(),
    ensures
        run_refs(start, runs, targets, k).len() == 16 * k,
    decreases k,
{
    vstd::bytes::lemma_auto_spec_u64_to_from_le_bytes();
    if k > 0 {
        lemma_run_refs_len(start, runs, targets, (k - 1) as nat);
    }
}

/// A value record takes twenty-four bytes.
pub proof fn lemma_value_record_len(value: ValueModel, pos: int, target: int)
    ensures
        value_record(value, pos, target).len() == 24,
{
    vstd::bytes::lemma_auto_spec_u64_to_from_le_bytes();
}

/// The first `k` value records take twenty-four bytes each.
pub proof fn lemma_value_records_len(
    start: nat,
    items: Seq<ValueModel>,
    targets: Seq<nat>,
    k: nat,
)
    requires
        k <= items.len(),
    ensures
        value_records(start, items, targets, k).len() == 24 * k,
    decreases k,
{
    if k > 0 {
        lemma_value_records_len(start, items, targets, (k - 1) as nat);
        lemma_value_record_len(items[k - 1], start + 24 * (k - 1), targets[k - 1] as int);
    }
}

/// The first `k` entry records take forty bytes each.
pub proof fn lemma_entry_records_len(
    start: nat,
    items: Seq<(Seq<u8>, ValueModel)>,
    keys: Seq<nat>,
    targets: Seq<nat>,
    k: nat,
)
    requires
        k <= items.len(),
    ensures
        entry_records(start, items, keys, targets, k).len() == 40 * k,
    decreases k,
{
    vstd::bytes::lemma_auto_spec_u64_to_from_le_bytes();
    if k > 0 {
        lemma_entry_records_len(start, items, keys, targets, (k - 1) as nat);
        lemma_value_record_len(
            items[k - 1].1,
            start + 40 * (k - 1) + 16,
            targets[k - 1] as int,
        );
    }
}

} // verus!
