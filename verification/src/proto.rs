//! The messages of a pprof profile, as the format defines them.

use vstd::prelude::*;

verus! {

/// Describes the semantics and measurement units of a value.
#[derive(Debug, Clone, Copy, PartialEq, Eq, Structural)]
pub struct ValueType {
    /// Index into the string table.
    pub type_: i64,
    /// Index into the string table.
    pub unit: i64,
}

/// Additional context for a sample.
#[derive(Debug, Clone, Copy, PartialEq, Eq, Structural)]
pub struct Label {
    pub key: i64,
    pub str: i64,
    pub num: i64,
    pub num_unit: i64,
}

/// The mapping of a binary into the address space.
#[derive(Debug, Clone, Copy, PartialEq, Eq, Structural)]
pub struct Mapping {
    pub id: u64,
    pub memory_start: u64,
    pub memory_limit: u64,
    pub file_offset: u64,
    pub filename: i64,
    pub build_id: i64,
    pub has_functions: bool,
    pub has_filenames: bool,
    pub has_line_numbers: bool,
    pub has_inline_frames: bool,
}

/// A source line of a location.
#[derive(Debug, Clone, Copy, PartialEq, Eq, Structural)]
pub struct Line {
    /// The id of the corresponding function.
    pub function_id: u64,
    /// Line number in source code.
    pub line: i64,
}

/// A function; its strings are indices into the string table.
#[derive(Debug, Clone, Copy, PartialEq, Eq, Structural)]
pub struct Function {
    pub id: u64,
    pub name: i64,
    pub system_name: i64,
    pub filename: i64,
    pub start_line: i64,
}

/// Values recorded for one call stack; the leaf is at `location_id[0]`.
#[derive(Debug, Clone, PartialEq)]
pub struct Sample {
    pub location_id: Vec<u64>,
    pub value: Vec<i64>,
    pub label: Vec<Label>,
}

/// A place in the program. More than one line means inlined calls; the last is
/// the caller into which the preceding ones were inlined.
#[derive(Debug, Clone, PartialEq)]
pub struct Location {
    pub id: u64,
    pub mapping_id: u64,
    pub address: u64,
    pub line: Vec<Line>,
    pub is_folded: bool,
}

/// A whole profile.
#[derive(Debug, Clone, PartialEq)]
pub struct Profile {
    pub sample_type: Vec<ValueType>,
    pub sample: Vec<Sample>,
    pub mapping: Vec<Mapping>,
    pub location: Vec<Location>,
    pub function: Vec<Function>,
    pub string_table: Vec<String>,
    pub drop_frames: i64,
    pub keep_frames: i64,
    pub time_nanos: i64,
    pub duration_nanos: i64,
    pub period_type: Option<ValueType>,
    pub period: i64,
    pub comment: Vec<i64>,
    pub default_sample_type: i64,
}

/// What a `Sample` holds.
#[verifier::ext_equal]
pub struct SampleModel {
    pub location_id: Seq<u64>,
    pub value: Seq<i64>,
    pub label: Seq<Label>,
}

/// What a `Location` holds.
#[verifier::ext_equal]
pub struct LocationModel {
    pub id: u64,
    pub mapping_id: u64,
    pub address: u64,
    pub line: Seq<Line>,
    pub is_folded: bool,
}

/// What a `Profile` holds.
#[verifier::ext_equal]
pub struct ProfileModel {
    pub sample_type: Seq<ValueType>,
    pub sample: Seq<SampleModel>,
    pub mapping: Seq<Mapping>,
    pub location: Seq<LocationModel>,
    pub function: Seq<Function>,
    pub string_table: Seq<Seq<char>>,
    pub drop_frames: i64,
    pub keep_frames: i64,
    pub time_nanos: i64,
    pub duration_nanos: i64,
    pub period_type: Option<ValueType>,
    pub period: i64,
    pub comment: Seq<i64>,
    pub default_sample_type: i64,
}

impl DeepView for Sample {
    type V = SampleModel;

    open spec fn deep_view(&self) -> SampleModel {
        SampleModel {
            location_id: self.location_id@,
            value: self.value@,
            label: self.label@,
        }
    }
}

impl DeepView for Location {
    type V = LocationModel;

    open spec fn deep_view(&self) -> LocationModel {
        LocationModel {
            id: self.id,
            mapping_id: self.mapping_id,
            address: self.address,
            line: self.line@,
            is_folded: self.is_folded,
        }
    }
}

impl View for Profile {
    type V = ProfileModel;

    open spec fn view(&self) -> ProfileModel {
        ProfileModel {
            sample_type: self.sample_type@,
            sample: self.sample.deep_view(),
            mapping: self.mapping@,
            location: self.location.deep_view(),
            function: self.function@,
            string_table: self.string_table.deep_view(),
            drop_frames: self.drop_frames,
            keep_frames: self.keep_frames,
            time_nanos: self.time_nanos,
            duration_nanos: self.duration_nanos,
            period_type: self.period_type,
            period: self.period,
            comment: self.comment@,
            default_sample_type: self.default_sample_type,
        }
    }
}

/// A sample without any field set.
pub open spec fn empty_sample() -> SampleModel {
    SampleModel { location_id: seq![], value: seq![], label: seq![] }
}

/// A location without any field set.
pub open spec fn empty_location() -> LocationModel {
    LocationModel { id: 0, mapping_id: 0, address: 0, line: seq![], is_folded: false }
}

/// A profile without any field set.
pub open spec fn empty_profile() -> ProfileModel {
    ProfileModel {
        sample_type: seq![],
        sample: seq![],
        mapping: seq![],
        location: seq![],
        function: seq![],
        string_table: seq![],
        drop_frames: 0,
        keep_frames: 0,
        time_nanos: 0,
        duration_nanos: 0,
        period_type: None,
        period: 0,
        comment: seq![],
        default_sample_type: 0,
    }
}

impl Default for Sample {
    fn default() -> (r: Sample)
        ensures
            r.deep_view() == empty_sample(),
    {
        let r = Sample { location_id: Vec::new(), value: Vec::new(), label: Vec::new() };
        assert(r.deep_view() =~= empty_sample());
        r
    }
}

impl Default for Location {
    fn default() -> (r: Location)
        ensures
            r.deep_view() == empty_location(),
    {
        let r = Location {
            id: 0,
            mapping_id: 0,
            address: 0,
            line: Vec::new(),
            is_folded: false,
        };
        assert(r.deep_view() =~= empty_location());
        r
    }
}

impl Default for Profile {
    fn default() -> (r: Profile)
        ensures
            r@ == empty_profile(),
    {
        let r = Profile {
            sample_type: Vec::new(),
            sample: Vec::new(),
            mapping: Vec::new(),
            location: Vec::new(),
            function: Vec::new(),
            string_table: Vec::new(),
            drop_frames: 0,
            keep_frames: 0,
            time_nanos: 0,
            duration_nanos: 0,
            period_type: None,
            period: 0,
            comment: Vec::new(),
            default_sample_type: 0,
        };
        assert(r@ =~= empty_profile());
        r
    }
}

} // verus!
