//! The record store: the read-decode-append-encode-write cycle that keeps
//! the whole session log inside one string-keyed storage slot.
//!
//! The storage itself is an external collaborator; these functions take the
//! slot's current value and hand back the text to store, so a thin shell
//! around them only moves strings in and out of the actual store. Absent or
//! undecodable slot values degrade to the empty log: a reader never fails
//! because of bad persisted state.

use vstd::prelude::*;

use crate::codec;
use crate::record::MeditationData;
use crate::record::MeditationDataBuilder;
use crate::record::RecordView;
use crate::text::is_blank;

verus! {

/// The character content of an optional slot value.
pub open spec fn opt_view(stored: Option<&String>) -> Option<Seq<char>> {
    match stored {
        Some(s) => Some(s@),
        None => None,
    }
}

/// What a reader finds in a slot: the decoded log, or the empty log when
/// the slot is absent or its text does not decode.
pub open spec fn stored_records(stored: Option<Seq<char>>) -> Seq<RecordView> {
    match stored {
        Some(s) => codec::decoded_or_empty(s),
        None => Seq::empty(),
    }
}

/// Orchestrates decoding, appending and encoding for the session log.
pub struct DatabaseManager {}

impl DatabaseManager {
    /// Decodes one slot text into records, degrading to the empty log when
    /// the text does not decode.
    pub fn deserialize_and_read(value: &str) -> (r: Vec<MeditationData>)
        ensures
            r.deep_view() == codec::decoded_or_empty(value@),
            codec::all_valid(r.deep_view()),
    {
        match codec::deserialize_records(value) {
            Some(v) => v,
            None => {
                let empty: Vec<MeditationData> = Vec::new();
                assert(empty.deep_view() =~= Seq::<RecordView>::empty());
                empty
            },
        }
    }

    /// Appends a record to a decoded log and encodes the whole result as
    /// the new slot text, which decodes back to the old records, in order,
    /// with the new record last.
    pub fn serialize_and_write(data_vector: Vec<MeditationData>, data: MeditationData) -> (r:
        String)
        requires
            codec::all_valid(data_vector.deep_view()),
            data@.valid(),
        ensures
            r@ == codec::json_of_records(data_vector.deep_view().push(data@)),
            codec::parse_records(r@) == Some(data_vector.deep_view().push(data@)),
    {
        let ghost old_dv = data_vector.deep_view();
        let ghost dv = data@;
        let mut v = data_vector;
        v.push(data);
        proof {
            assert(v.deep_view() =~= old_dv.push(dv));
            assert forall|i: int| 0 <= i < v.deep_view().len() implies (#[trigger] v.deep_view()[i]).valid() by {
                if i < old_dv.len() {
                    assert(v.deep_view()[i] == old_dv[i]);
                }
            }
            codec::lemma_round_trip(v.deep_view());
        }
        codec::serialize_records(&v)
    }

    /// Reads the full log out of a slot value. An absent slot, text that is
    /// not the JSON array encoding, or an array holding an invalid record
    /// all give the empty log; no error reaches the caller.
    pub fn read_data(stored_value: Option<&String>) -> (r: Vec<MeditationData>)
        ensures
            r.deep_view() == stored_records(opt_view(stored_value)),
            codec::all_valid(r.deep_view()),
    {
        match stored_value {
            Some(value) => Self::deserialize_and_read(value.as_str()),
            None => {
                let empty: Vec<MeditationData> = Vec::new();
                assert(empty.deep_view() =~= Seq::<RecordView>::empty());
                empty
            },
        }
    }

    /// One append cycle: reads whatever the slot holds, appends the given
    /// valid record, and returns the new slot text, which decodes to the
    /// old records unchanged and in order with the new record last.
    pub fn write_data(data: MeditationData, stored_value: Option<&String>) -> (r: String)
        requires
            data@.valid(),
        ensures
            codec::parse_records(r@) == Some(
                stored_records(opt_view(stored_value)).push(data@),
            ),
    {
        let current = Self::read_data(stored_value);
        Self::serialize_and_write(current, data)
    }
}

/// Appending to a log of `N` records gives a log of `N + 1` records with
/// the new record last and every prior record unchanged, in order; together
/// with `write_data`'s contract, this is what the slot decodes to after an
/// append.
pub proof fn lemma_append_grows_log(old_records: Seq<RecordView>, new_record: RecordView)
    ensures
        old_records.push(new_record).len() == old_records.len() + 1,
        old_records.push(new_record).last() == new_record,
        forall|i: int|
            0 <= i < old_records.len() ==> old_records.push(new_record)[i] == #[trigger] old_records[i],
{
}

/// The fixed slot key under which the session log is persisted.
pub fn meditation_log_key() -> (r: String)
    ensures
        r@ == "meditationLog"@,
{
    "meditationLog".to_owned()
}

/// Validates raw field values and, when they form a valid record, appends
/// that record to the log held in the slot value, returning the new slot
/// text; returns `None`, with nothing to store, exactly when a field is
/// invalid.
pub fn log_meditation_data(
    datetime: i32,
    duration: i32,
    category: String,
    speaker: String,
    stored_value: Option<&String>,
) -> (r: Option<String>)
    ensures
        r is Some <==> datetime > 0 && duration > 0 && !is_blank(category@) && !is_blank(
            speaker@,
        ),
        r matches Some(new_value) ==> codec::parse_records(new_value@) == Some(
            stored_records(opt_view(stored_value)).push(
                RecordView {
                    datetime: datetime as int,
                    duration: duration as int,
                    category: category@,
                    speaker: speaker@,
                },
            ),
        ),
{
    let builder = MeditationDataBuilder::new().datetime(datetime).duration(duration).category(
        category.as_str(),
    ).speaker(speaker.as_str());
    match builder.build() {
        Ok(data) => {
            assert(data@ =~= (RecordView {
                datetime: datetime as int,
                duration: duration as int,
                category: category@,
                speaker: speaker@,
            }));
            Some(DatabaseManager::write_data(data, stored_value))
        },
        Err(_) => None,
    }
}

/// Reads the full log out of a slot value; see `DatabaseManager::read_data`.
pub fn read_meditation_data(stored_value: Option<&String>) -> (r: Vec<MeditationData>)
    ensures
        r.deep_view() == stored_records(opt_view(stored_value)),
        codec::all_valid(r.deep_view()),
{
    DatabaseManager::read_data(stored_value)
}

} // verus!
