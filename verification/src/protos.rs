//! The messages of the pprof `perftools.profiles` format, as plain values. Fields of
//! the format that are not listed keep the format's defaults.

use vstd::prelude::*;

use crate::text::texts;

verus! {

/// A kind of sample value; both fields are places in the string table.
#[derive(Clone, Copy, Debug, PartialEq, Eq, Structural)]
pub struct ValueType {
    pub ty: i64,
    pub unit: i64,
}

/// A label of a sample; both fields are places in the string table.
#[derive(Clone, Copy, Debug, PartialEq, Eq, Structural)]
pub struct Label {
    pub key: i64,
    pub str: i64,
}

/// A source line of a function.
#[derive(Clone, Copy, Debug, PartialEq, Eq, Structural)]
pub struct Line {
    pub function_id: u64,
    pub line: i64,
}

/// A function; its names are places in the string table.
#[derive(Clone, Copy, Debug, PartialEq, Eq, Structural)]
pub struct Function {
    pub id: u64,
    pub name: i64,
    pub system_name: i64,
    pub filename: i64,
}

/// A location in the code.
#[derive(Debug, PartialEq, Eq)]
pub struct Location {
    pub id: u64,
    pub line: Vec<Line>,
}

/// One stack with its values.
#[derive(Debug, PartialEq, Eq)]
pub struct Sample {
    pub location_id: Vec<u64>,
    pub value: Vec<i64>,
    pub label: Vec<Label>,
}

/// A whole profile.
#[derive(Debug, PartialEq, Eq)]
pub struct Profile {
    pub sample_type: Vec<ValueType>,
    pub sample: Vec<Sample>,
    pub location: Vec<Location>,
    pub function: Vec<Function>,
    pub string_table: Vec<String>,
    pub time_nanos: i64,
    pub duration_nanos: i64,
    pub period_type: Option<ValueType>,
    pub period: i64,
    pub comment: Vec<i64>,
}

/// The contents of a `Location`.
#[verifier::ext_equal]
pub struct LocationView {
    pub id: u64,
    pub line: Seq<Line>,
}

/// The contents of a `Sample`.
#[verifier::ext_equal]
pub struct SampleView {
    pub location_id: Seq<u64>,
    pub value: Seq<i64>,
    pub label: Seq<Label>,
}

/// The contents of a `Profile`.
#[verifier::ext_equal]
pub struct ProfileView {
    pub sample_type: Seq<ValueType>,
    pub sample: Seq<SampleView>,
    pub location: Seq<LocationView>,
    pub function: Seq<Function>,
    pub string_table: Seq<Seq<char>>,
    pub time_nanos: i64,
    pub duration_nanos: i64,
    pub period_type: Option<ValueType>,
    pub period: i64,
    pub comment: Seq<i64>,
}

impl View for Location {
    type V = LocationView;

    open spec fn view(&self) -> LocationView {
        LocationView { id: self.id, line: self.line@ }
    }
}

impl View for Sample {
    type V = SampleView;

    open spec fn view(&self) -> SampleView {
        SampleView {
            location_id: self.location_id@,
            value: self.value@,
            label: self.label@,
        }
    }
}

/// The contents of a list of locations.
pub open spec fn locations_view(list: Seq<Location>) -> Seq<LocationView> {
    Seq::new(list.len(), |i: int| list[i]@)
}

/// The contents of a list of samples.
pub open spec fn samples_view(list: Seq<Sample>) -> Seq<SampleView> {
    Seq::new(list.len(), |i: int| list[i]@)
}

impl View for Profile {
    type V = ProfileView;

    open spec fn view(&self) -> ProfileView {
        ProfileView {
            sample_type: self.sample_type@,
            sample: samples_view(self.sample@),
            location: locations_view(self.location@),
            function: self.function@,
            string_table: texts(self.string_table@),
            time_nanos: self.time_nanos,
            duration_nanos: self.duration_nanos,
            period_type: self.period_type,
            period: self.period,
            comment: self.comment@,
        }
    }
}

} // verus!
