//! Session records and their validated construction.
//!
//! A `MeditationData` value describes one meditation session. A record is
//! valid when its timestamp and duration are positive and its category and
//! speaker are not blank; `MeditationDataBuilder::build` is the validated
//! entry point that either produces such a record or names the first
//! offending field.

use vstd::prelude::*;

use crate::text::is_blank;

verus! {

/// The mathematical content of a session record.
#[verifier::ext_equal]
pub ghost struct RecordView {
    pub datetime: int,
    pub duration: int,
    pub category: Seq<char>,
    pub speaker: Seq<char>,
}

impl RecordView {
    /// The record invariant: positive timestamp and duration (each within
    /// the stored 32-bit range) and non-blank category and speaker.
    pub open spec fn valid(self) -> bool {
        &&& 0 < self.datetime <= i32::MAX
        &&& 0 < self.duration <= i32::MAX
        &&& !is_blank(self.category)
        &&& !is_blank(self.speaker)
    }
}

/// One meditation session: a Unix timestamp in seconds, a duration in
/// seconds, a category, and the speaker who led the session.
#[derive(Debug)]
pub struct MeditationData {
    pub datetime: i32,
    pub duration: i32,
    pub category: String,
    pub speaker: String,
}

impl View for MeditationData {
    type V = RecordView;

    open spec fn view(&self) -> RecordView {
        RecordView {
            datetime: self.datetime as int,
            duration: self.duration as int,
            category: self.category@,
            speaker: self.speaker@,
        }
    }
}

impl DeepView for MeditationData {
    type V = RecordView;

    open spec fn deep_view(&self) -> RecordView {
        self.view()
    }
}

/// The first field, in the fixed order datetime, duration, category,
/// speaker, that is missing or fails its constraint.
#[derive(Clone, Copy, Debug, PartialEq, Eq, Structural)]
pub enum ValidationError {
    /// The timestamp is unset, zero or negative.
    InvalidDatetime,
    /// The duration is unset, zero or negative.
    InvalidDuration,
    /// The category is unset, empty or whitespace-only.
    InvalidCategory,
    /// The speaker is unset, empty or whitespace-only.
    InvalidSpeaker,
}

/// The staged, still unchecked field values of a builder.
#[verifier::ext_equal]
pub ghost struct BuilderView {
    pub datetime: Option<int>,
    pub duration: Option<int>,
    pub category: Option<Seq<char>>,
    pub speaker: Option<Seq<char>>,
}

impl BuilderView {
    pub open spec fn datetime_ok(self) -> bool {
        self.datetime matches Some(v) && v > 0
    }

    pub open spec fn duration_ok(self) -> bool {
        self.duration matches Some(v) && v > 0
    }

    pub open spec fn category_ok(self) -> bool {
        self.category matches Some(s) && !is_blank(s)
    }

    pub open spec fn speaker_ok(self) -> bool {
        self.speaker matches Some(s) && !is_blank(s)
    }

    /// The first failing check in the fixed order, or `None` when every
    /// field is present and valid.
    pub open spec fn first_error(self) -> Option<ValidationError> {
        if !self.datetime_ok() {
            Some(ValidationError::InvalidDatetime)
        } else if !self.duration_ok() {
            Some(ValidationError::InvalidDuration)
        } else if !self.category_ok() {
            Some(ValidationError::InvalidCategory)
        } else if !self.speaker_ok() {
            Some(ValidationError::InvalidSpeaker)
        } else {
            None
        }
    }
}

/// A staging structure for building a `MeditationData`. Every field starts
/// unset; each setter overwrites its field and hands the builder back for
/// chaining; `build` checks the fields in a fixed order.
pub struct MeditationDataBuilder {
    datetime: Option<i32>,
    duration: Option<i32>,
    category: Option<String>,
    speaker: Option<String>,
}

impl View for MeditationDataBuilder {
    type V = BuilderView;

    closed spec fn view(&self) -> BuilderView {
        BuilderView {
            datetime: match self.datetime {
                Some(v) => Some(v as int),
                None => None,
            },
            duration: match self.duration {
                Some(v) => Some(v as int),
                None => None,
            },
            category: match self.category {
                Some(ref s) => Some(s@),
                None => None,
            },
            speaker: match self.speaker {
                Some(ref s) => Some(s@),
                None => None,
            },
        }
    }
}

impl MeditationDataBuilder {
    /// A builder with every field unset.
    pub fn new() -> (r: Self)
        ensures
            r@ == (BuilderView {
                datetime: None,
                duration: None,
                category: None,
                speaker: None,
            }),
    {
        MeditationDataBuilder { datetime: None, duration: None, category: None, speaker: None }
    }

    /// Stages the session timestamp, overwriting any prior value.
    pub fn datetime(self, datetime: i32) -> (r: Self)
        ensures
            r@ == (BuilderView { datetime: Some(datetime as int), ..self@ }),
    {
        MeditationDataBuilder { datetime: Some(datetime), ..self }
    }

    /// Stages the session duration, overwriting any prior value.
    pub fn duration(self, duration: i32) -> (r: Self)
        ensures
            r@ == (BuilderView { duration: Some(duration as int), ..self@ }),
    {
        MeditationDataBuilder { duration: Some(duration), ..self }
    }

    /// Stages the session category, overwriting any prior value.
    pub fn category(self, category: &str) -> (r: Self)
        ensures
            r@ == (BuilderView { category: Some(category@), ..self@ }),
    {
        MeditationDataBuilder { category: Some(category.to_owned()), ..self }
    }

    /// Stages the speaker, overwriting any prior value.
    pub fn speaker(self, speaker: &str) -> (r: Self)
        ensures
            r@ == (BuilderView { speaker: Some(speaker@), ..self@ }),
    {
        MeditationDataBuilder { speaker: Some(speaker.to_owned()), ..self }
    }

    /// Checks the staged fields in the fixed order datetime, duration,
    /// category, speaker. Succeeds exactly when every field is present and
    /// valid, and then returns a record carrying the staged values
    /// unchanged; otherwise reports the first offending field.
    pub fn build(&self) -> (r: Result<MeditationData, ValidationError>)
        ensures
            r is Ok <==> self@.first_error() is None,
            r matches Ok(m) ==> {
                &&& m@.valid()
                &&& self@.datetime == Some(m@.datetime)
                &&& self@.duration == Some(m@.duration)
                &&& self@.category == Some(m@.category)
                &&& self@.speaker == Some(m@.speaker)
            },
            r matches Err(e) ==> Some(e) == self@.first_error(),
    {
        let datetime = match self.datetime {
            Some(dt) if dt > 0 => dt,
            _ => {
                return Err(ValidationError::InvalidDatetime);
            },
        };

        let duration = match self.duration {
            Some(dur) if dur > 0 => dur,
            _ => {
                return Err(ValidationError::InvalidDuration);
            },
        };

        let category = match self.category {
            Some(ref c) => c.clone(),
            None => {
                return Err(ValidationError::InvalidCategory);
            },
        };
        if crate::text::str_is_blank(category.as_str()) {
            return Err(ValidationError::InvalidCategory);
        }

        let speaker = match self.speaker {
            Some(ref s) => s.clone(),
            None => {
                return Err(ValidationError::InvalidSpeaker);
            },
        };
        if crate::text::str_is_blank(speaker.as_str()) {
            return Err(ValidationError::InvalidSpeaker);
        }

        Ok(MeditationData { datetime, duration, category, speaker })
    }
}

} // verus!
