//! What holds of encoding and decoding taken together.

use crate::checksum::{crc32, flip_bit, lemma_bit_flip_changes_crc32};
use crate::decoder::{decode_all, frame_result, frame_results};
use crate::document::{DocumentModel, ValueModel};
use crate::frame::{
    concat_frames, frame_ends, frame_of, framed_len, lemma_corruption_detected,
    lemma_frame_read_back, lemma_walk_concat_frames, step_cursor, step_result, truncated_at,
    unframed_len, DecodeError, MAX_FRAME_LEN,
};
use crate::layout::read_document;
use crate::plan::{
    archive_of, entry_positions, entry_records, fresh, key_positions, put_padding, put_run,
    run_target, staged_entries, Plan,
};
use crate::sink::lemma_padding;
use vstd::bytes::lemma_auto_spec_u64_to_from_le_bytes;
use vstd::prelude::*;

verus! {

/// Round trip. A buffer made of the frames of archives, one after the
/// other, decodes to exactly the documents that were archived, in the
/// order in which the frames were appended: the same identifiers, the
/// same fields in the same order, the same keys, kinds and payloads.
///
/// An encoder appends to its writer the frame of an archive that reads
/// as the document it was given, so this is what a decoder finds in what
/// encoders wrote.
pub proof fn lemma_round_trip(archives: Seq<Seq<u8>>, documents: Seq<DocumentModel>)
    requires
        archives.len() == documents.len(),
        forall|i: int|
            0 <= i < archives.len() ==> (#[trigger] archives[i]).len() <= MAX_FRAME_LEN
                && read_document(archives[i]) == Ok::<DocumentModel, DecodeError>(documents[i]),
    ensures
        decode_all(concat_frames(archives)).len() == documents.len(),
        forall|i: int|
            0 <= i < documents.len() ==> #[trigger] decode_all(concat_frames(archives))[i]
                == Ok::<DocumentModel, DecodeError>(documents[i]),
{
    let buffer = concat_frames(archives);
    lemma_walk_concat_frames(archives);
    let ends = frame_ends(buffer, buffer.len() as int);
    let results = frame_results(buffer, ends);
    assert(decode_all(buffer) =~= results);
    assert forall|i: int| 0 <= i < documents.len() implies #[trigger] decode_all(buffer)[i]
        == Ok::<DocumentModel, DecodeError>(documents[i]) by {
        assert(results[i] == frame_result(buffer, ends[i]));
        assert(step_result(buffer, ends[i]) == Some(Ok::<Seq<u8>, DecodeError>(archives[i])));
    }
}

/// Round trip of one document. The frame of an archive, alone in a
/// buffer, decodes in one step, to the document archived.
pub proof fn lemma_round_trip_one(archive: Seq<u8>, document: DocumentModel)
    requires
        archive.len() <= MAX_FRAME_LEN,
        read_document(archive) == Ok::<DocumentModel, DecodeError>(document),
    ensures
        decode_all(frame_of(archive)) == seq![Ok::<DocumentModel, DecodeError>(document)],
        frame_result(frame_of(archive), frame_of(archive).len() as int) == Ok::<
            DocumentModel,
            DecodeError,
        >(document),
{
    let archives = seq![archive];
    assert(concat_frames(archives) =~= frame_of(archive)) by {
        assert(archives.drop_last() =~= Seq::<Seq<u8>>::empty());
        assert(concat_frames(archives.drop_last()) =~= Seq::<u8>::empty());
    }
    lemma_round_trip(archives, seq![document]);
    assert(decode_all(frame_of(archive)) =~= seq![Ok::<DocumentModel, DecodeError>(document)]);
    lemma_frame_read_back(Seq::empty(), archive);
    assert(Seq::<u8>::empty() + frame_of(archive) =~= frame_of(archive));
}

/// Frame boundary integrity. A buffer made of `n` frames decodes in
/// exactly `n` steps, and its length is the sum over the frames of the
/// length of the data and of the footer.
pub proof fn lemma_frame_boundaries(archives: Seq<Seq<u8>>)
    requires
        forall|i: int| 0 <= i < archives.len() ==> (#[trigger] archives[i]).len() <= MAX_FRAME_LEN,
    ensures
        decode_all(concat_frames(archives)).len() == archives.len(),
        concat_frames(archives).len() == framed_len(archives),
        forall|i: int|
            0 <= i < archives.len() ==> #[trigger] decode_all(concat_frames(archives))[i]
                == read_document(archives[i]),
{
    let buffer = concat_frames(archives);
    lemma_walk_concat_frames(archives);
    let ends = frame_ends(buffer, buffer.len() as int);
    let results = frame_results(buffer, ends);
    assert(decode_all(buffer) =~= results);
    assert forall|i: int| 0 <= i < archives.len() implies #[trigger] decode_all(buffer)[i]
        == read_document(archives[i]) by {
        assert(results[i] == frame_result(buffer, ends[i]));
        assert(step_result(buffer, ends[i]) == Some(Ok::<Seq<u8>, DecodeError>(archives[i])));
    }
}

/// Checksum sensitivity. When a single bit of the data of the last frame
/// of a buffer is inverted, the checksum of the data changes, and that
/// frame decodes to a checksum mismatch, whatever the data archived.
pub proof fn lemma_bit_flip_detected(prefix: Seq<u8>, data: Seq<u8>, index: int, bit: u8)
    requires
        data.len() <= MAX_FRAME_LEN,
        0 <= index < data.len(),
        bit < 8,
    ensures
        ({
            let flipped = flip_bit(data[index], bit);
            let buffer = prefix + frame_of(data).update(index, flipped);
            &&& crc32(data.update(index, flipped)) != crc32(data)
            &&& frame_result(buffer, buffer.len() as int) == Err::<DocumentModel, DecodeError>(
                DecodeError::ChecksumMismatch {
                    expected: crc32(data),
                    actual: crc32(data.update(index, flipped)),
                },
            )
            &&& step_cursor(buffer, buffer.len() as int) == prefix.len()
        }),
{
    let flipped = flip_bit(data[index], bit);
    lemma_bit_flip_changes_crc32(data, index, bit);
    assert(flipped != data[index]) by {
        if flipped == data[index] {
            assert(data.update(index, flipped) =~= data);
        }
    }
    lemma_corruption_detected(prefix, data, index, flipped);
}

/// Truncation safety. Where fewer bytes lie before the cursor than the
/// frame that ends there needs, which is the declared length and eight
/// more, the step reports a truncation and nothing else.
pub proof fn lemma_truncation_reported(buffer: Seq<u8>, end: int)
    requires
        0 < end <= buffer.len(),
        truncated_at(buffer, end),
    ensures
        step_result(buffer, end) == Some(Err::<Seq<u8>, DecodeError>(DecodeError::Truncated)),
        frame_result(buffer, end) == Err::<DocumentModel, DecodeError>(DecodeError::Truncated),
        frame_ends(buffer, end).len() == 0,
        unframed_len(buffer, end) == end,
{
}

/// Shared values, one run at a time. Once a run of bytes is written, a
/// second occurrence of the same run writes nothing and lies where the
/// first does.
pub proof fn lemma_run_written_once(plan: Plan, run: Seq<u8>)
    ensures
        put_run(put_run(plan, run), run) == put_run(plan, run),
        run_target(put_run(plan, run), run) == run_target(plan, run),
{
}

/// A document with two fields that hold texts.
pub open spec fn two_texts(
    id: u64,
    first_key: Seq<u8>,
    second_key: Seq<u8>,
    first: Seq<u8>,
    second: Seq<u8>,
) -> DocumentModel {
    DocumentModel {
        id,
        fields: seq![
            (first_key, ValueModel::String(first)),
            (second_key, ValueModel::String(second)),
        ],
    }
}

/// The length of a frame after padding grows with the length before.
proof fn lemma_padded_monotonic(a: Plan, b: Plan)
    requires
        a.out.len() <= b.out.len(),
    ensures
        put_padding(a).out.len() <= put_padding(b).out.len(),
        a.out.len() + 8 <= b.out.len() ==> put_padding(a).out.len() < put_padding(b).out.len(),
{
    lemma_padding(a.out.len(), 8);
    lemma_padding(b.out.len(), 8);
}

/// The records of two entries take eighty bytes.
proof fn lemma_two_entry_records(
    start: nat,
    items: Seq<(Seq<u8>, ValueModel)>,
    keys: Seq<nat>,
    targets: Seq<nat>,
)
    requires
        items.len() == 2,
    ensures
        entry_records(start, items, keys, targets, 2).len() == 80,
{
    lemma_auto_spec_u64_to_from_le_bytes();
    reveal_with_fuel(entry_records, 3);
}

/// The archive of a document with two text fields: the keys and texts
/// that were not written before, padding, two records of forty bytes,
/// and the document record.
proof fn lemma_two_texts_len(
    id: u64,
    first_key: Seq<u8>,
    second_key: Seq<u8>,
    first: Seq<u8>,
    second: Seq<u8>,
)
    ensures
        ({
            let document = two_texts(id, first_key, second_key, first, second);
            let staged = put_run(
                put_run(put_run(put_run(fresh(), first_key), first), second_key),
                second,
            );
            archive_of(document).len() == put_padding(staged).out.len() + 80 + 24
        }),
{
    lemma_auto_spec_u64_to_from_le_bytes();
    let document = two_texts(id, first_key, second_key, first, second);
    let fields = document.fields;
    reveal_with_fuel(staged_entries, 3);
    let staged = staged_entries(fresh(), fields, 2);
    assert(staged == put_run(
        put_run(put_run(put_run(fresh(), first_key), first), second_key),
        second,
    ));
    lemma_two_entry_records(
        put_padding(staged).out.len(),
        fields,
        key_positions(fresh(), fields, 2),
        entry_positions(fresh(), fields, 2),
    );
}

/// Shared values. A document with two fields that hold the identical
/// text is archived in no more bytes than the same document with two
/// different texts of one length, and in fewer bytes when the texts are
/// eight bytes or longer: the text is written once, and the second field
/// refers back to it. Shorter texts may vanish in the padding that
/// follows them.
pub proof fn lemma_identical_text_written_once(
    id: u64,
    first_key: Seq<u8>,
    second_key: Seq<u8>,
    text: Seq<u8>,
    other: Seq<u8>,
)
    requires
        other.len() == text.len(),
        other != text,
        other != first_key,
        other != second_key,
    ensures
        archive_of(two_texts(id, first_key, second_key, text, text)).len() <= archive_of(
            two_texts(id, first_key, second_key, text, other),
        ).len(),
        text.len() >= 8 ==> archive_of(two_texts(id, first_key, second_key, text, text)).len()
            < archive_of(two_texts(id, first_key, second_key, text, other)).len(),
{
    lemma_two_texts_len(id, first_key, second_key, text, text);
    lemma_two_texts_len(id, first_key, second_key, text, other);
    let keyed = put_run(put_run(put_run(fresh(), first_key), text), second_key);
    assert(keyed.seen.contains_key(text));
    assert(!keyed.seen.contains_key(other));
    assert(put_run(keyed, text) == keyed);
    assert(put_run(keyed, other).out.len() == keyed.out.len() + other.len());
    lemma_padded_monotonic(put_run(keyed, text), put_run(keyed, other));
}

} // verus!
