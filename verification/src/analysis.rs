//! Aggregation of a profile's samples into costs by line and by function.

use crate::costs::cost_at;
use crate::costs::increased;
use crate::costs::FileCosts;
use crate::decode::to_unsigned;
use crate::decode::unsigned;
use crate::format::ValueUnit;
use crate::profile::resolve_string;
use crate::profile::string_at;
use crate::proto::Function;
use crate::proto::Line;
use crate::proto::Location;
use crate::proto::LocationModel;
use crate::proto::Profile;
use crate::proto::ProfileModel;
use crate::proto::Sample;
use crate::proto::SampleModel;
use crate::proto::ValueType;
use crate::text::same_text;
use std::collections::HashMap;
use vstd::hash_map::StringHashMap;
use vstd::prelude::*;

pub use crate::costs::LineCost;

verus! {

/// The type of profile (detected from sample_type labels).
#[derive(Debug, Clone, Copy, PartialEq, Eq, Structural)]
pub enum ProfileType {
    Cpu,
    Heap,
    Allocs,
    Block,
    Mutex,
    Goroutine,
    Unknown,
}

/// Aggregated profiling data ready for LSP consumption.
#[derive(Debug, Clone)]
pub struct ProfileData {
    /// Per-file, per-line costs.
    pub line_costs: FileCosts,
    /// Top functions ranked by cumulative cost.
    pub hotspots: Vec<HotspotFunction>,
    /// What kind of profile.
    pub profile_type: ProfileType,
    /// Human-readable description of the value (e.g., "cpu").
    pub sample_type_label: String,
    /// Unit for formatting.
    pub value_unit: ValueUnit,
    /// Total value across all samples (for percentage calculation).
    pub total_value: i64,
    /// Profile collection duration in nanoseconds, if available.
    pub duration: Option<u64>,
}

/// A function ranked as a hotspot.
#[derive(Debug, Clone)]
pub struct HotspotFunction {
    pub rank: usize,
    pub name: String,
    pub filename: String,
    pub start_line: u64,
    pub flat: i64,
    pub cumulative: i64,
}

/// Which column of the samples' values is used, and what it means.
pub struct Selection {
    pub index: nat,
    pub profile_type: ProfileType,
    pub label: Seq<char>,
    pub unit: ValueUnit,
}

/// A column counts contentions, so that the profile is one of blocking.
pub open spec fn has_contentions(p: ProfileModel) -> bool {
    exists|i: int|
        0 <= i < p.sample_type.len() && string_at(p, (#[trigger] p.sample_type[i]).type_)
            == "contentions"@
}

/// How many rules there are.
pub const RULE_COUNT: u8 = 6;

/// The labels of the column that a rule looks for, and the kind of profile that it is
/// then: processor time, memory in use, memory allocated, blocking, contention of
/// mutexes, goroutines.
pub open spec fn rule_labels(rule: nat) -> (ProfileType, Seq<char>, Seq<char>) {
    if rule == 0 {
        (ProfileType::Cpu, "cpu"@, "nanoseconds"@)
    } else if rule == 1 {
        (ProfileType::Heap, "inuse_space"@, "bytes"@)
    } else if rule == 2 {
        (ProfileType::Allocs, "alloc_space"@, "bytes"@)
    } else if rule == 3 {
        (ProfileType::Block, "delay"@, "nanoseconds"@)
    } else if rule == 4 {
        (ProfileType::Mutex, "delay"@, "nanoseconds"@)
    } else {
        (ProfileType::Goroutine, "goroutine"@, "count"@)
    }
}

/// A column has the labels that a rule looks for. A delay counts only where there are
/// contentions too.
pub open spec fn matches_rule(p: ProfileModel, rule: nat, column: ValueType) -> bool {
    &&& string_at(p, column.type_) == rule_labels(rule).1
    &&& string_at(p, column.unit) == rule_labels(rule).2
    &&& rule == 3 || rule == 4 ==> has_contentions(p)
}

/// The first column from `i` on that the rule matches.
pub open spec fn first_of(p: ProfileModel, rule: nat, i: nat) -> Option<nat>
    decreases p.sample_type.len() - i,
{
    if i >= p.sample_type.len() {
        None
    } else if matches_rule(p, rule, p.sample_type[i as int]) {
        Some(i)
    } else {
        first_of(p, rule, i + 1)
    }
}

/// The first rule from `rule` on that matches a column.
pub open spec fn first_rule(p: ProfileModel, rule: nat) -> Option<nat>
    decreases RULE_COUNT - rule,
{
    if rule >= RULE_COUNT {
        None
    } else if first_of(p, rule, 0) is Some {
        Some(rule)
    } else {
        first_rule(p, rule + 1)
    }
}

pub open spec fn unit_named(name: Seq<char>) -> ValueUnit {
    if name == "nanoseconds"@ {
        ValueUnit::Nanoseconds
    } else if name == "bytes"@ {
        ValueUnit::Bytes
    } else {
        ValueUnit::Count
    }
}

/// The column that the first matching rule matches first, or else the last column.
pub open spec fn selection(p: ProfileModel) -> Selection {
    if p.sample_type.len() == 0 {
        Selection {
            index: 0,
            profile_type: ProfileType::Unknown,
            label: "unknown"@,
            unit: ValueUnit::Count,
        }
    } else {
        match first_rule(p, 0) {
            Some(rule) => Selection {
                index: first_of(p, rule, 0).unwrap(),
                profile_type: rule_labels(rule).0,
                label: rule_labels(rule).1,
                unit: unit_named(rule_labels(rule).2),
            },
            None => {
                let last = p.sample_type.last();
                Selection {
                    index: (p.sample_type.len() - 1) as nat,
                    profile_type: ProfileType::Unknown,
                    label: string_at(p, last.type_),
                    unit: unit_named(string_at(p, last.unit)),
                }
            },
        }
    }
}

fn find_contentions(profile: &Profile) -> (r: bool)
    ensures
        r == has_contentions(profile@),
{
    let mut i: usize = 0;
    while i < profile.sample_type.len()
        invariant
            i <= profile.sample_type.len(),
            forall|j: int|
                0 <= j < i ==> string_at(profile@, (#[trigger] profile@.sample_type[j]).type_)
                    != "contentions"@,
        decreases profile.sample_type.len() - i,
    {
        if same_text(resolve_string(profile, profile.sample_type[i].type_), "contentions") {
            assert(string_at(profile@, profile@.sample_type[i as int].type_) == "contentions"@);
            return true;
        }
        i = i + 1;
    }
    false
}

fn labels_of(rule: u8) -> (r: (ProfileType, &'static str, &'static str))
    ensures
        r.0 == rule_labels(rule as nat).0,
        r.1@ == rule_labels(rule as nat).1,
        r.2@ == rule_labels(rule as nat).2,
{
    if rule == 0 {
        (ProfileType::Cpu, "cpu", "nanoseconds")
    } else if rule == 1 {
        (ProfileType::Heap, "inuse_space", "bytes")
    } else if rule == 2 {
        (ProfileType::Allocs, "alloc_space", "bytes")
    } else if rule == 3 {
        (ProfileType::Block, "delay", "nanoseconds")
    } else if rule == 4 {
        (ProfileType::Mutex, "delay", "nanoseconds")
    } else {
        (ProfileType::Goroutine, "goroutine", "count")
    }
}

fn find_unit(name: &str) -> (r: ValueUnit)
    ensures
        r == unit_named(name@),
{
    if same_text(name, "nanoseconds") {
        ValueUnit::Nanoseconds
    } else if same_text(name, "bytes") {
        ValueUnit::Bytes
    } else {
        ValueUnit::Count
    }
}

/// The first column that a rule matches.
fn find_column(profile: &Profile, rule: u8, contentions: bool) -> (r: Option<usize>)
    requires
        contentions == has_contentions(profile@),
    ensures
        match r {
            Some(i) => first_of(profile@, rule as nat, 0) == Some(i as nat),
            None => first_of(profile@, rule as nat, 0) is None,
        },
{
    let (_, name, unit) = labels_of(rule);
    let applies: bool = rule != 3 && rule != 4 || contentions;
    let mut i: usize = 0;
    while i < profile.sample_type.len()
        invariant
            i <= profile.sample_type@.len(),
            name@ == rule_labels(rule as nat).1,
            unit@ == rule_labels(rule as nat).2,
            applies == (rule == 3 || rule == 4 ==> has_contentions(profile@)),
            first_of(profile@, rule as nat, 0) == first_of(profile@, rule as nat, i as nat),
        decreases profile.sample_type.len() - i,
    {
        let column: ValueType = profile.sample_type[i];
        if applies && same_text(resolve_string(profile, column.type_), name) && same_text(
            resolve_string(profile, column.unit),
            unit,
        ) {
            return Some(i);
        }
        i += 1;
    }
    None
}

/// Select which value column to use based on sample_type labels.
/// Returns (index, profile_type, label, unit).
pub fn select_sample_type(profile: &Profile) -> (r: (usize, ProfileType, String, ValueUnit))
    ensures
        r.0 == selection(profile@).index,
        r.1 == selection(profile@).profile_type,
        r.2@ == selection(profile@).label,
        r.3 == selection(profile@).unit,
{
    let n: usize = profile.sample_type.len();
    if n == 0 {
        return (0, ProfileType::Unknown, "unknown".to_string(), ValueUnit::Count);
    }
    let contentions: bool = find_contentions(profile);
    let mut rule: u8 = 0;
    while rule < RULE_COUNT
        invariant
            rule <= RULE_COUNT,
            n == profile.sample_type.len(),
            n > 0,
            contentions == has_contentions(profile@),
            first_rule(profile@, 0) == first_rule(profile@, rule as nat),
        decreases RULE_COUNT - rule,
    {
        match find_column(profile, rule, contentions) {
            Some(i) => {
                let (kind, label, unit) = labels_of(rule);
                return (i, kind, label.to_string(), find_unit(unit));
            },
            None => {},
        }
        rule += 1;
    }
    let last: ValueType = profile.sample_type[n - 1];
    (
        n - 1,
        ProfileType::Unknown,
        resolve_string(profile, last.type_).to_string(),
        find_unit(resolve_string(profile, last.unit)),
    )
}

proof fn lemma_first_of(p: ProfileModel, rule: nat, i: nat)
    ensures
        match first_of(p, rule, i) {
            Some(at) => i <= at < p.sample_type.len() && matches_rule(
                p,
                rule,
                p.sample_type[at as int],
            ) && forall|k: int|
                i <= k < at ==> !matches_rule(p, rule, #[trigger] p.sample_type[k]),
            None => forall|k: int|
                i <= k < p.sample_type.len() ==> !matches_rule(p, rule, #[trigger] p.sample_type[k]),
        },
    decreases p.sample_type.len() - i,
{
    if i < p.sample_type.len() && !matches_rule(p, rule, p.sample_type[i as int]) {
        lemma_first_of(p, rule, i + 1);
    }
}

proof fn lemma_first_rule(p: ProfileModel, from: nat, rule: nat)
    requires
        from <= rule < RULE_COUNT,
        first_of(p, rule, 0) is Some,
        forall|r: nat| from <= r < rule ==> first_of(p, r, 0) is None,
    ensures
        first_rule(p, from) == Some(rule),
    decreases rule - from,
{
    if from < rule {
        lemma_first_rule(p, from + 1, rule);
    }
}

/// The rules are tried in order, each on all columns: what the profile is taken for does
/// not hang on the order of its columns.
pub proof fn lemma_rules_in_order(p: ProfileModel, rule: nat, column: int)
    requires
        rule < RULE_COUNT,
        0 <= column < p.sample_type.len(),
        matches_rule(p, rule, p.sample_type[column]),
        forall|r: nat, k: int|
            r < rule && 0 <= k < p.sample_type.len() ==> !#[trigger] matches_rule(
                p,
                r,
                p.sample_type[k],
            ),
    ensures
        selection(p).profile_type == rule_labels(rule).0,
        selection(p).label == rule_labels(rule).1,
        selection(p).unit == unit_named(rule_labels(rule).2),
        selection(p).index <= column,
        matches_rule(p, rule, p.sample_type[selection(p).index as int]),
{
    lemma_first_of(p, rule, 0);
    assert forall|r: nat| 0 <= r < rule implies first_of(p, r, 0) is None by {
        lemma_first_of(p, r, 0);
        if first_of(p, r, 0) is Some {
            let at = first_of(p, r, 0).unwrap() as int;
            assert(!matches_rule(p, r, p.sample_type[at]));
        }
    }
    lemma_first_rule(p, 0, rule);
}

/// One line of one location of one sample's stack.
pub struct Hit {
    pub file: Seq<char>,
    pub line: u64,
    pub function: u64,
    pub value: i64,
    /// The line is the innermost one of the leaf location.
    pub leaf: bool,
}

/// The location with the given id; the last one where several have it.
pub open spec fn location_with(locations: Seq<LocationModel>, id: u64) -> Option<LocationModel>
    decreases locations.len(),
{
    if locations.len() == 0 {
        None
    } else if locations.last().id == id {
        Some(locations.last())
    } else {
        location_with(locations.drop_last(), id)
    }
}

/// The function with the given id; the last one where several have it.
pub open spec fn function_with(functions: Seq<Function>, id: u64) -> Option<Function>
    decreases functions.len(),
{
    if functions.len() == 0 {
        None
    } else if functions.last().id == id {
        Some(functions.last())
    } else {
        function_with(functions.drop_last(), id)
    }
}

/// What a line contributes: nothing where its function is unknown or has no file
/// name, or where it has no line number.
pub open spec fn line_hits(p: ProfileModel, line: Line, value: i64, leaf: bool) -> Seq<Hit> {
    match function_with(p.function, line.function_id) {
        Some(f) => if string_at(p, f.filename).len() > 0 && line.line > 0 {
            seq![
                Hit {
                    file: string_at(p, f.filename),
                    line: line.line as u64,
                    function: f.id,
                    value,
                    leaf,
                },
            ]
        } else {
            seq![]
        },
        None => seq![],
    }
}

/// What the lines of a location contribute.
pub open spec fn location_hits(p: ProfileModel, lines: Seq<Line>, value: i64, leaf: bool) -> Seq<
    Hit,
>
    decreases lines.len(),
{
    if lines.len() == 0 {
        seq![]
    } else {
        location_hits(p, lines.drop_last(), value, leaf) + line_hits(
            p,
            lines.last(),
            value,
            leaf && lines.len() == 1,
        )
    }
}

/// What a stack of locations contributes; the leaf comes first.
pub open spec fn stack_hits(p: ProfileModel, ids: Seq<u64>, value: i64) -> Seq<Hit>
    decreases ids.len(),
{
    if ids.len() == 0 {
        seq![]
    } else {
        stack_hits(p, ids.drop_last(), value) + match location_with(p.location, ids.last()) {
            Some(location) => location_hits(p, location.line, value, ids.len() == 1),
            None => seq![],
        }
    }
}

/// The value of a sample in a column, zero where it has none.
pub open spec fn column_value(sample: SampleModel, column: nat) -> i64 {
    if column < sample.value.len() {
        sample.value[column as int]
    } else {
        0
    }
}

/// What the samples contribute.
pub open spec fn sample_hits(p: ProfileModel, samples: Seq<SampleModel>, column: nat) -> Seq<Hit>
    decreases samples.len(),
{
    if samples.len() == 0 {
        seq![]
    } else {
        sample_hits(p, samples.drop_last(), column) + stack_hits(
            p,
            samples.last().location_id,
            column_value(samples.last(), column),
        )
    }
}

/// All that the profile contributes in the column that is used.
pub open spec fn hits(p: ProfileModel) -> Seq<Hit> {
    sample_hits(p, p.sample, selection(p).index)
}

/// The sum of the samples' values in a column.
pub open spec fn total_of(samples: Seq<SampleModel>, column: nat) -> int
    decreases samples.len(),
{
    if samples.len() == 0 {
        0
    } else {
        total_of(samples.drop_last(), column) + column_value(samples.last(), column)
    }
}

/// The sum of the values at a line; with `flat`, of the leaves alone.
pub open spec fn line_total(hs: Seq<Hit>, file: Seq<char>, line: u64, flat: bool) -> int
    decreases hs.len(),
{
    if hs.len() == 0 {
        0
    } else {
        let h = hs.last();
        line_total(hs.drop_last(), file, line, flat) + if h.file == file && h.line == line && (
        h.leaf || !flat) {
            h.value as int
        } else {
            0
        }
    }
}

/// The sum of the values in a function; with `flat`, of the leaves alone.
pub open spec fn function_total(hs: Seq<Hit>, id: u64, flat: bool) -> int
    decreases hs.len(),
{
    if hs.len() == 0 {
        0
    } else {
        let h = hs.last();
        function_total(hs.drop_last(), id, flat) + if h.function == id && (h.leaf || !flat) {
            h.value as int
        } else {
            0
        }
    }
}

pub open spec fn touches_file(hs: Seq<Hit>, file: Seq<char>) -> bool {
    exists|i: int| 0 <= i < hs.len() && (#[trigger] hs[i]).file == file
}

pub open spec fn touches_line(hs: Seq<Hit>, file: Seq<char>, line: u64) -> bool {
    exists|i: int| 0 <= i < hs.len() && (#[trigger] hs[i]).file == file && hs[i].line == line
}

pub open spec fn touches_function(hs: Seq<Hit>, id: u64) -> bool {
    exists|i: int| 0 <= i < hs.len() && (#[trigger] hs[i]).function == id
}

pub open spec fn line_cost(hs: Seq<Hit>, file: Seq<char>, line: u64) -> LineCost {
    LineCost {
        flat: line_total(hs, file, line, true) as i64,
        cumulative: line_total(hs, file, line, false) as i64,
    }
}

pub open spec fn function_cost(hs: Seq<Hit>, id: u64) -> LineCost {
    LineCost {
        flat: function_total(hs, id, true) as i64,
        cumulative: function_total(hs, id, false) as i64,
    }
}

/// The costs of the lines of a file.
pub open spec fn file_costs(hs: Seq<Hit>, file: Seq<char>) -> Map<u64, LineCost> {
    Map::new(|line: u64| touches_line(hs, file, line), |line: u64| line_cost(hs, file, line))
}

/// The costs of all lines of all files.
pub open spec fn all_costs(hs: Seq<Hit>) -> Map<Seq<char>, Map<u64, LineCost>> {
    Map::new(|file: Seq<char>| touches_file(hs, file), |file: Seq<char>| file_costs(hs, file))
}

pub open spec fn fits(x: int) -> bool {
    i64::MIN <= x <= i64::MAX
}

/// All sums over the hits fit their type.
pub open spec fn in_range(hs: Seq<Hit>) -> bool {
    &&& forall|file: Seq<char>, line: u64, flat: bool| fits(#[trigger] line_total(hs, file, line, flat))
    &&& forall|id: u64, flat: bool| fits(#[trigger] function_total(hs, id, flat))
}

/// All sums fit their type at every step.
pub open spec fn always_in_range(hs: Seq<Hit>) -> bool {
    forall|k: int| 0 <= k <= hs.len() ==> in_range(#[trigger] hs.take(k))
}

/// No sum that the analysis forms leaves its type at any step.
pub open spec fn sums_fit(p: ProfileModel) -> bool {
    &&& forall|k: int|
        0 <= k <= p.sample.len() ==> fits(total_of(#[trigger] p.sample.take(k), selection(p).index))
    &&& always_in_range(hits(p))
}

proof fn lemma_line_untouched(hs: Seq<Hit>, file: Seq<char>, line: u64, flat: bool)
    ensures
        !touches_line(hs, file, line) ==> line_total(hs, file, line, flat) == 0,
    decreases hs.len(),
{
    if hs.len() > 0 && !touches_line(hs, file, line) {
        let rest = hs.drop_last();
        assert forall|i: int| 0 <= i < rest.len() implies !((#[trigger] rest[i]).file == file
            && rest[i].line == line) by {
            assert(rest[i] == hs[i]);
        }
        lemma_line_untouched(rest, file, line, flat);
        assert(hs.last() == hs[hs.len() - 1]);
    }
}

proof fn lemma_function_untouched(hs: Seq<Hit>, id: u64, flat: bool)
    ensures
        !touches_function(hs, id) ==> function_total(hs, id, flat) == 0,
    decreases hs.len(),
{
    if hs.len() > 0 && !touches_function(hs, id) {
        let rest = hs.drop_last();
        assert forall|i: int| 0 <= i < rest.len() implies (#[trigger] rest[i]).function != id by {
            assert(rest[i] == hs[i]);
        }
        lemma_function_untouched(rest, id, flat);
        assert(hs.last() == hs[hs.len() - 1]);
    }
}

/// What one more hit touches.
proof fn lemma_touch_push(hs: Seq<Hit>, h: Hit)
    ensures
        forall|file: Seq<char>| #[trigger]
            touches_file(hs.push(h), file) <==> touches_file(hs, file) || h.file == file,
        forall|file: Seq<char>, line: u64| #[trigger]
            touches_line(hs.push(h), file, line) <==> touches_line(hs, file, line) || (h.file
                == file && h.line == line),
        forall|id: u64| #[trigger]
            touches_function(hs.push(h), id) <==> touches_function(hs, id) || h.function == id,
{
    let t = hs.push(h);
    assert(t[hs.len() as int] == h);
    assert forall|file: Seq<char>|
        touches_file(t, file) <==> touches_file(hs, file) || h.file == file by {
        if touches_file(hs, file) {
            let i = choose|i: int| 0 <= i < hs.len() && (#[trigger] hs[i]).file == file;
            assert(t[i].file == file);
        }
        if touches_file(t, file) {
            let i = choose|i: int| 0 <= i < t.len() && (#[trigger] t[i]).file == file;
            if i < hs.len() {
                assert(hs[i].file == file);
            }
        }
    }
    assert forall|file: Seq<char>, line: u64|
        touches_line(t, file, line) <==> touches_line(hs, file, line) || (h.file == file && h.line
            == line) by {
        if touches_line(hs, file, line) {
            let i = choose|i: int|
                0 <= i < hs.len() && (#[trigger] hs[i]).file == file && hs[i].line == line;
            assert(t[i].file == file);
        }
        if touches_line(t, file, line) {
            let i = choose|i: int|
                0 <= i < t.len() && (#[trigger] t[i]).file == file && t[i].line == line;
            if i < hs.len() {
                assert(hs[i].file == file);
            }
        }
    }
    assert forall|id: u64|
        touches_function(t, id) <==> touches_function(hs, id) || h.function == id by {
        if touches_function(hs, id) {
            let i = choose|i: int| 0 <= i < hs.len() && (#[trigger] hs[i]).function == id;
            assert(t[i].function == id);
        }
        if touches_function(t, id) {
            let i = choose|i: int| 0 <= i < t.len() && (#[trigger] t[i]).function == id;
            if i < hs.len() {
                assert(hs[i].function == id);
            }
        }
    }
}

/// The sums after one more hit.
proof fn lemma_totals_push(hs: Seq<Hit>, h: Hit)
    ensures
        forall|file: Seq<char>, line: u64, flat: bool| #[trigger]
            line_total(hs.push(h), file, line, flat) == line_total(hs, file, line, flat) + if h.file
                == file && h.line == line && (h.leaf || !flat) {
                h.value as int
            } else {
                0
            },
        forall|id: u64, flat: bool| #[trigger]
            function_total(hs.push(h), id, flat) == function_total(hs, id, flat) + if h.function
                == id && (h.leaf || !flat) {
                h.value as int
            } else {
                0
            },
{
    assert(hs.push(h).drop_last() =~= hs);
    assert(hs.push(h).last() == h);
}

/// The costs after one more hit.
proof fn lemma_costs_push(hs: Seq<Hit>, h: Hit)
    requires
        in_range(hs),
    ensures
        ({
            let old_lines = if touches_file(hs, h.file) {
                file_costs(hs, h.file)
            } else {
                Map::empty()
            };
            let next = increased(cost_at(old_lines, h.line), h.value, h.leaf);
            &&& next is None ==> !in_range(hs.push(h))
            &&& next is Some ==> forall|flat: bool|
                fits(#[trigger] line_total(hs.push(h), h.file, h.line, flat))
            &&& next matches Some(cost) ==> all_costs(hs.push(h)) == all_costs(hs).insert(
                h.file,
                old_lines.insert(h.line, cost),
            )
        }),
{
    let t = hs.push(h);
    let old_lines = if touches_file(hs, h.file) {
        file_costs(hs, h.file)
    } else {
        Map::empty()
    };
    lemma_touch_push(hs, h);
    lemma_totals_push(hs, h);
    lemma_line_untouched(hs, h.file, h.line, true);
    lemma_line_untouched(hs, h.file, h.line, false);
    let before = cost_at(old_lines, h.line);
    assert(fits(line_total(hs, h.file, h.line, true)));
    assert(fits(line_total(hs, h.file, h.line, false)));
    if touches_line(hs, h.file, h.line) {
        let i = choose|i: int|
            0 <= i < hs.len() && (#[trigger] hs[i]).file == h.file && hs[i].line == h.line;
        assert(hs[i].file == h.file);
    }
    assert(before == line_cost(hs, h.file, h.line));
    match increased(before, h.value, h.leaf) {
        None => {
            if in_range(t) {
                assert(fits(line_total(t, h.file, h.line, true)));
                assert(fits(line_total(t, h.file, h.line, false)));
            }
        },
        Some(cost) => {
            assert(line_cost(t, h.file, h.line) == cost);
            let lines = old_lines.insert(h.line, cost);
            assert forall|line: u64| !touches_file(hs, h.file) implies !touches_line(
                hs,
                h.file,
                line,
            ) by {
                if touches_line(hs, h.file, line) {
                    let i = choose|i: int|
                        0 <= i < hs.len() && (#[trigger] hs[i]).file == h.file && hs[i].line
                            == line;
                    assert(hs[i].file == h.file);
                }
            }
            assert(file_costs(t, h.file) =~= lines);
            assert forall|file: Seq<char>| file != h.file implies file_costs(t, file)
                == file_costs(hs, file) by {
                assert(file_costs(t, file) =~= file_costs(hs, file));
            }
            assert(all_costs(t) =~= all_costs(hs).insert(h.file, lines));
        },
    }
}

/// The costs of the functions seen so far.
struct FunctionCosts {
    ids: Vec<u64>,
    costs: Vec<LineCost>,
    slots: HashMap<u64, usize>,
}

impl FunctionCosts {
    /// The costs are those of the functions that the hits touch.
    spec fn holds(self, hs: Seq<Hit>) -> bool {
        &&& self.ids@.len() == self.costs@.len()
        &&& forall|id: u64|
            self.slots@.contains_key(id) <==> #[trigger] touches_function(hs, id)
        &&& forall|id: u64| #[trigger]
            self.slots@.contains_key(id) ==> self.slots@[id] < self.ids@.len()
                && self.ids@[self.slots@[id] as int] == id
        &&& forall|i: int|
            0 <= i < self.ids@.len() ==> self.slots@.contains_key(#[trigger] self.ids@[i])
                && self.slots@[self.ids@[i]] == i
        &&& forall|i: int|
            0 <= i < self.ids@.len() ==> (#[trigger] self.costs@[i]) == function_cost(
                hs,
                self.ids@[i],
            )
    }

    fn new() -> (r: FunctionCosts)
        ensures
            r.holds(seq![]),
    {
        FunctionCosts { ids: Vec::new(), costs: Vec::new(), slots: HashMap::new() }
    }

    /// Counts the value of one more hit.
    fn increase(&mut self, id: u64, value: i64, leaf: bool, Ghost(hs): Ghost<Seq<Hit>>, Ghost(
        h,
    ): Ghost<Hit>) -> (r: bool)
        requires
            old(self).holds(hs),
            in_range(hs),
            h.function == id,
            h.value == value,
            h.leaf == leaf,
        ensures
            r ==> final(self).holds(hs.push(h)),
            !r ==> !in_range(hs.push(h)),
            r ==> forall|flat: bool| fits(#[trigger] function_total(hs.push(h), id, flat)),
    {
        proof {
            lemma_touch_push(hs, h);
            lemma_totals_push(hs, h);
            lemma_function_untouched(hs, id, true);
            lemma_function_untouched(hs, id, false);
            assert(fits(function_total(hs, id, true)));
            assert(fits(function_total(hs, id, false)));
            if in_range(hs.push(h)) {
                assert(fits(function_total(hs.push(h), id, true)));
                assert(fits(function_total(hs.push(h), id, false)));
            }
        }
        let ghost before = *self;
        let slot: Option<usize> = match self.slots.get(&id) {
            Some(slot) => Some(*slot),
            None => None,
        };
        match slot {
            Some(slot) => {
                let cost: LineCost = self.costs[slot];
                assert(cost == function_cost(hs, id));
                match cost.increase(value, leaf) {
                    Some(next) => {
                        self.costs.set(slot, next);
                        assert(touches_function(hs, id));
                        assert forall|i: int| 0 <= i < self.ids@.len() implies (
                        #[trigger] self.costs@[i]) == function_cost(hs.push(h), self.ids@[i]) by {
                            assert(before.costs@[i] == function_cost(hs, before.ids@[i]));
                            assert(before.slots@.contains_key(before.ids@[i]));
                        }
                        true
                    },
                    None => false,
                }
            },
            None => {
                let cost: LineCost = LineCost { flat: 0, cumulative: 0 };
                match cost.increase(value, leaf) {
                    Some(next) => {
                        let n: usize = self.ids.len();
                        self.ids.push(id);
                        self.costs.push(next);
                        self.slots.insert(id, n);
                        assert forall|i: int| 0 <= i < self.ids@.len() implies (
                        #[trigger] self.costs@[i]) == function_cost(hs.push(h), self.ids@[i]) by {
                            if i < n {
                                assert(before.costs@[i] == function_cost(hs, before.ids@[i]));
                                assert(before.slots@.contains_key(before.ids@[i]));
                            }
                        }
                        assert forall|i: int| 0 <= i < self.ids@.len() implies self.slots@.contains_key(
                            #[trigger] self.ids@[i],
                        ) && self.slots@[self.ids@[i]] == i by {
                            if i < n {
                                assert(before.slots@.contains_key(before.ids@[i]));
                            }
                        }
                        true
                    },
                    None => false,
                }
            },
        }
    }
}

/// All costs seen so far.
struct Tally {
    files: FileCosts,
    slots: StringHashMap<usize>,
    functions: FunctionCosts,
}

impl Tally {
    /// The costs are those of the hits.
    spec fn holds(self, hs: Seq<Hit>) -> bool {
        &&& in_range(hs)
        &&& always_in_range(hs)
        &&& self.files@ == all_costs(hs)
        &&& self.functions.holds(hs)
        &&& forall|name: Seq<char>|
            self.slots@.contains_key(name) <==> #[trigger] touches_file(hs, name)
        &&& forall|name: Seq<char>| #[trigger]
            self.slots@.contains_key(name) ==> self.slots@[name] < self.files.names().len()
                && self.files.names()[self.slots@[name] as int] == name
    }

    fn new() -> (r: Tally)
        ensures
            r.holds(seq![]),
    {
        let r = Tally {
            files: FileCosts::new(),
            slots: StringHashMap::new(),
            functions: FunctionCosts::new(),
        };
        proof {
            let none: Seq<Hit> = seq![];
            assert(r.files@ =~= all_costs(none));
            assert(none.take(0) =~= none);
        }
        r
    }

    /// Counts one more hit.
    fn count(
        &mut self,
        file: &str,
        line: u64,
        function: u64,
        value: i64,
        leaf: bool,
        Ghost(hs): Ghost<Seq<Hit>>,
    ) -> (r: bool)
        requires
            old(self).holds(hs),
        ensures
            r ==> final(self).holds(hs.push(Hit { file: file@, line, function, value, leaf })),
            !r ==> !in_range(hs.push(Hit { file: file@, line, function, value, leaf })),
    {
        let ghost h = Hit { file: file@, line, function, value, leaf };
        let ghost t = hs.push(h);
        let ghost before = *self;
        proof {
            lemma_costs_push(hs, h);
            lemma_touch_push(hs, h);
            lemma_totals_push(hs, h);
        }
        let known: Option<usize> = match self.slots.get(file) {
            Some(slot) => Some(*slot),
            None => None,
        };
        let slot: usize = match known {
            Some(slot) => slot,
            None => {
                let n: usize = self.files.len();
                self.files.open(file.to_string());
                self.slots.insert(file.to_string(), n);
                n
            },
        };
        assert(self.files.names()[slot as int] == file@);
        if !self.files.increase(slot, line, value, leaf) {
            return false;
        }
        assert(self.files@ =~= all_costs(t));
        if !self.functions.increase(function, value, leaf, Ghost(hs), Ghost(h)) {
            return false;
        }
        proof {
            assert forall|f: Seq<char>, l: u64, flat: bool| fits(
                #[trigger] line_total(t, f, l, flat),
            ) by {
                assert(fits(line_total(hs, f, l, flat)));
            }
            assert forall|id: u64, flat: bool| fits(#[trigger] function_total(t, id, flat)) by {
                assert(fits(function_total(hs, id, flat)));
            }
            assert forall|name: Seq<char>|
                self.slots@.contains_key(name) <==> #[trigger] touches_file(t, name) by {
                assert(before.slots@.contains_key(name) <==> touches_file(hs, name));
            }
            assert forall|k: int| 0 <= k <= t.len() implies in_range(#[trigger] t.take(k)) by {
                if k < t.len() {
                    assert(t.take(k) =~= hs.take(k));
                } else {
                    assert(t.take(k) =~= t);
                }
            }
        }
        true
    }
}

/// The index of the location with each id.
spec fn indexes_locations(index: Map<u64, usize>, locations: Seq<LocationModel>) -> bool {
    forall|id: u64|
        match #[trigger] location_with(locations, id) {
            Some(location) => index.contains_key(id) && index[id] < locations.len()
                && locations[index[id] as int] == location,
            None => !index.contains_key(id),
        }
}

/// The index of the function with each id.
spec fn indexes_functions(index: Map<u64, usize>, functions: Seq<Function>) -> bool {
    forall|id: u64|
        match #[trigger] function_with(functions, id) {
            Some(function) => index.contains_key(id) && index[id] < functions.len()
                && functions[index[id] as int] == function,
            None => !index.contains_key(id),
        }
}

fn index_locations(locations: &Vec<Location>) -> (r: HashMap<u64, usize>)
    ensures
        indexes_locations(r@, locations.deep_view()),
{
    let mut r: HashMap<u64, usize> = HashMap::new();
    let mut i: usize = 0;
    let ghost all = locations.deep_view();
    assert(all.take(0) =~= seq![]);
    while i < locations.len()
        invariant
            all == locations.deep_view(),
            i <= locations.len(),
            indexes_locations(r@, all.take(i as int)),
        decreases locations.len() - i,
    {
        r.insert(locations[i].id, i);
        proof {
            let t = all.take(i + 1);
            assert(t.drop_last() =~= all.take(i as int));
            assert(t.last() == locations@[i as int].deep_view());
            assert forall|id: u64|
                match #[trigger] location_with(t, id) {
                    Some(location) => r@.contains_key(id) && r@[id] < t.len() && t[r@[id] as int]
                        == location,
                    None => !r@.contains_key(id),
                } by {
                let earlier = location_with(all.take(i as int), id);
            }
        }
        i += 1;
    }
    assert(all.take(i as int) =~= all);
    r
}

fn index_functions(functions: &Vec<Function>) -> (r: HashMap<u64, usize>)
    ensures
        indexes_functions(r@, functions@),
{
    let mut r: HashMap<u64, usize> = HashMap::new();
    let mut i: usize = 0;
    assert(functions@.take(0) =~= seq![]);
    while i < functions.len()
        invariant
            i <= functions.len(),
            indexes_functions(r@, functions@.take(i as int)),
        decreases functions.len() - i,
    {
        r.insert(functions[i].id, i);
        proof {
            let t = functions@.take(i + 1);
            assert(t.drop_last() =~= functions@.take(i as int));
            assert forall|id: u64|
                match #[trigger] function_with(t, id) {
                    Some(function) => r@.contains_key(id) && r@[id] < t.len() && t[r@[id] as int]
                        == function,
                    None => !r@.contains_key(id),
                } by {
                let earlier = function_with(functions@.take(i as int), id);
            }
        }
        i += 1;
    }
    assert(functions@.take(i as int) =~= functions@);
    r
}

/// The hits `a` come first among the hits `b`.
spec fn starts(a: Seq<Hit>, b: Seq<Hit>) -> bool {
    a.len() <= b.len() && b.take(a.len() as int) == a
}

proof fn lemma_starts_range(a: Seq<Hit>, b: Seq<Hit>)
    requires
        starts(a, b),
        always_in_range(b),
    ensures
        always_in_range(a),
        in_range(a),
{
    assert forall|k: int| 0 <= k <= a.len() implies in_range(#[trigger] a.take(k)) by {
        assert(a.take(k) =~= b.take(k));
    }
    assert(a.take(a.len() as int) =~= a);
}

/// The lines before the `n`th contribute the first hits of a location.
proof fn lemma_location_starts(
    hs: Seq<Hit>,
    p: ProfileModel,
    lines: Seq<Line>,
    n: int,
    value: i64,
    leaf: bool,
)
    requires
        0 <= n <= lines.len(),
    ensures
        starts(
            hs + location_hits(p, lines.take(n), value, leaf),
            hs + location_hits(p, lines, value, leaf),
        ),
    decreases lines.len(),
{
    let a = hs + location_hits(p, lines.take(n), value, leaf);
    let b = hs + location_hits(p, lines, value, leaf);
    if n == lines.len() {
        assert(lines.take(n) =~= lines);
    } else {
        lemma_location_starts(hs, p, lines.drop_last(), n, value, leaf);
        assert(lines.drop_last().take(n) =~= lines.take(n));
        let m = hs + location_hits(p, lines.drop_last(), value, leaf);
        assert(b.take(m.len() as int) =~= m);
        assert(m.take(a.len() as int) =~= b.take(a.len() as int));
    }
    assert(b.take(a.len() as int) =~= a);
}

/// The locations before the `n`th contribute the first hits of a stack.
proof fn lemma_stack_starts(hs: Seq<Hit>, p: ProfileModel, ids: Seq<u64>, n: int, value: i64)
    requires
        0 <= n <= ids.len(),
    ensures
        starts(hs + stack_hits(p, ids.take(n), value), hs + stack_hits(p, ids, value)),
    decreases ids.len(),
{
    let a = hs + stack_hits(p, ids.take(n), value);
    let b = hs + stack_hits(p, ids, value);
    if n == ids.len() {
        assert(ids.take(n) =~= ids);
    } else {
        lemma_stack_starts(hs, p, ids.drop_last(), n, value);
        assert(ids.drop_last().take(n) =~= ids.take(n));
        let m = hs + stack_hits(p, ids.drop_last(), value);
        assert(b.take(m.len() as int) =~= m);
        assert(m.take(a.len() as int) =~= b.take(a.len() as int));
    }
    assert(b.take(a.len() as int) =~= a);
}

/// The samples before the `n`th contribute the first hits.
proof fn lemma_sample_starts(p: ProfileModel, samples: Seq<SampleModel>, n: int, column: nat)
    requires
        0 <= n <= samples.len(),
    ensures
        starts(sample_hits(p, samples.take(n), column), sample_hits(p, samples, column)),
    decreases samples.len(),
{
    let a = sample_hits(p, samples.take(n), column);
    let b = sample_hits(p, samples, column);
    if n == samples.len() {
        assert(samples.take(n) =~= samples);
    } else {
        lemma_sample_starts(p, samples.drop_last(), n, column);
        assert(samples.drop_last().take(n) =~= samples.take(n));
        let m = sample_hits(p, samples.drop_last(), column);
        assert(b.take(m.len() as int) =~= m);
        assert(m.take(a.len() as int) =~= b.take(a.len() as int));
    }
    assert(b.take(a.len() as int) =~= a);
}

impl Tally {
    /// Counts one line of a location.
    fn count_line(
        &mut self,
        profile: &Profile,
        functions: &HashMap<u64, usize>,
        line: Line,
        value: i64,
        leaf: bool,
        Ghost(hs): Ghost<Seq<Hit>>,
    ) -> (r: bool)
        requires
            old(self).holds(hs),
            indexes_functions(functions@, profile@.function),
        ensures
            r ==> final(self).holds(hs + line_hits(profile@, line, value, leaf)),
            !r ==> !in_range(hs + line_hits(profile@, line, value, leaf)),
    {
        let ghost none: Seq<Hit> = seq![];
        assert(hs + none =~= hs);
        let ghost found = function_with(profile@.function, line.function_id);
        match functions.get(&line.function_id) {
            Some(slot) => {
                let function: Function = profile.function[*slot];
                let file: &str = resolve_string(profile, function.filename);
                if file.is_empty() || line.line <= 0 {
                    return true;
                }
                let ghost h = Hit {
                    file: file@,
                    line: line.line as u64,
                    function: function.id,
                    value,
                    leaf,
                };
                assert(hs + line_hits(profile@, line, value, leaf) =~= hs.push(h));
                self.count(file, line.line as u64, function.id, value, leaf, Ghost(hs))
            },
            None => true,
        }
    }

    /// Counts the lines of a location.
    fn count_location(
        &mut self,
        profile: &Profile,
        functions: &HashMap<u64, usize>,
        location: &Location,
        value: i64,
        leaf: bool,
        Ghost(hs): Ghost<Seq<Hit>>,
    ) -> (r: bool)
        requires
            old(self).holds(hs),
            indexes_functions(functions@, profile@.function),
        ensures
            r ==> final(self).holds(hs + location_hits(profile@, location.line@, value, leaf)),
            !r ==> !always_in_range(hs + location_hits(profile@, location.line@, value, leaf)),
    {
        let ghost p = profile@;
        let ghost lines = location.line@;
        let mut i: usize = 0;
        proof {
            assert(lines.take(0) =~= seq![]);
            assert(hs + location_hits(p, lines.take(0), value, leaf) =~= hs);
        }
        while i < location.line.len()
            invariant
                i <= location.line.len(),
                p == profile@,
                lines == location.line@,
                indexes_functions(functions@, profile@.function),
                self.holds(hs + location_hits(p, lines.take(i as int), value, leaf)),
            decreases location.line.len() - i,
        {
            let ghost sofar = hs + location_hits(p, lines.take(i as int), value, leaf);
            let line: Line = location.line[i];
            let inner: bool = leaf && i == 0;
            proof {
                let t = lines.take(i + 1);
                assert(t.drop_last() =~= lines.take(i as int));
                assert(t.last() == line);
                assert(sofar + line_hits(p, line, value, inner) =~= hs + location_hits(
                    p,
                    t,
                    value,
                    leaf,
                ));
                lemma_location_starts(hs, p, lines, i + 1, value, leaf);
                let all = hs + location_hits(p, lines, value, leaf);
                if always_in_range(all) {
                    lemma_starts_range(hs + location_hits(p, t, value, leaf), all);
                }
            }
            if !self.count_line(profile, functions, line, value, inner, Ghost(sofar)) {
                return false;
            }
            i += 1;
        }
        assert(lines.take(i as int) =~= lines);
        true
    }

    /// Counts the locations of a stack.
    fn count_stack(
        &mut self,
        profile: &Profile,
        locations: &HashMap<u64, usize>,
        functions: &HashMap<u64, usize>,
        ids: &Vec<u64>,
        value: i64,
        Ghost(hs): Ghost<Seq<Hit>>,
    ) -> (r: bool)
        requires
            old(self).holds(hs),
            indexes_locations(locations@, profile@.location),
            indexes_functions(functions@, profile@.function),
        ensures
            r ==> final(self).holds(hs + stack_hits(profile@, ids@, value)),
            !r ==> !always_in_range(hs + stack_hits(profile@, ids@, value)),
    {
        let ghost p = profile@;
        let mut i: usize = 0;
        proof {
            assert(ids@.take(0) =~= seq![]);
            assert(hs + stack_hits(p, ids@.take(0), value) =~= hs);
        }
        while i < ids.len()
            invariant
                i <= ids.len(),
                p == profile@,
                indexes_locations(locations@, profile@.location),
                indexes_functions(functions@, profile@.function),
                self.holds(hs + stack_hits(p, ids@.take(i as int), value)),
            decreases ids.len() - i,
        {
            let ghost sofar = hs + stack_hits(p, ids@.take(i as int), value);
            let ghost t = ids@.take(i + 1);
            let ghost found = location_with(p.location, ids@[i as int]);
            proof {
                assert(t.drop_last() =~= ids@.take(i as int));
                assert(t.last() == ids@[i as int]);
            }
            match locations.get(&ids[i]) {
                Some(slot) => {
                    let location: &Location = &profile.location[*slot];
                    proof {
                        let more = location_hits(p, location.line@, value, i == 0);
                        assert(found == Some(location.deep_view()));
                        assert(sofar + more =~= hs + stack_hits(p, t, value));
                        lemma_stack_starts(hs, p, ids@, i + 1, value);
                        let all = hs + stack_hits(p, ids@, value);
                        if always_in_range(all) {
                            lemma_starts_range(hs + stack_hits(p, t, value), all);
                        }
                    }
                    if !self.count_location(
                        profile,
                        functions,
                        location,
                        value,
                        i == 0,
                        Ghost(sofar),
                    ) {
                        return false;
                    }
                },
                None => {
                    assert(hs + stack_hits(p, t, value) =~= sofar);
                },
            }
            i += 1;
        }
        assert(ids@.take(i as int) =~= ids@);
        true
    }
}

/// What is known of every hit: the function is known and names the file, and the
/// line is numbered.
pub open spec fn genuine(p: ProfileModel, h: Hit) -> bool {
    &&& h.file.len() > 0
    &&& 0 < h.line <= i64::MAX
    &&& function_with(p.function, h.function) matches Some(f) && h.file == string_at(p, f.filename)
        && f.id == h.function
}

proof fn lemma_function_id(functions: Seq<Function>, id: u64)
    ensures
        function_with(functions, id) matches Some(f) ==> f.id == id,
    decreases functions.len(),
{
    if functions.len() > 0 && functions.last().id != id {
        lemma_function_id(functions.drop_last(), id);
    }
}

/// Every hit is genuine.
pub open spec fn all_genuine(p: ProfileModel, hs: Seq<Hit>) -> bool {
    forall|i: int| 0 <= i < hs.len() ==> genuine(p, #[trigger] hs[i])
}

proof fn lemma_genuine_add(p: ProfileModel, a: Seq<Hit>, b: Seq<Hit>)
    requires
        all_genuine(p, a),
        all_genuine(p, b),
    ensures
        all_genuine(p, a + b),
{
    let c = a + b;
    assert forall|i: int| 0 <= i < c.len() implies genuine(p, #[trigger] c[i]) by {
        if i < a.len() {
            assert(c[i] == a[i]);
        } else {
            assert(c[i] == b[i - a.len()]);
        }
    }
}

proof fn lemma_location_genuine(p: ProfileModel, lines: Seq<Line>, value: i64, leaf: bool)
    ensures
        all_genuine(p, location_hits(p, lines, value, leaf)),
    decreases lines.len(),
{
    if lines.len() > 0 {
        lemma_location_genuine(p, lines.drop_last(), value, leaf);
        lemma_function_id(p.function, lines.last().function_id);
        lemma_genuine_add(
            p,
            location_hits(p, lines.drop_last(), value, leaf),
            line_hits(p, lines.last(), value, leaf && lines.len() == 1),
        );
    }
}

proof fn lemma_stack_genuine(p: ProfileModel, ids: Seq<u64>, value: i64)
    ensures
        all_genuine(p, stack_hits(p, ids, value)),
    decreases ids.len(),
{
    if ids.len() > 0 {
        lemma_stack_genuine(p, ids.drop_last(), value);
        let more = match location_with(p.location, ids.last()) {
            Some(location) => location_hits(p, location.line, value, ids.len() == 1),
            None => seq![],
        };
        match location_with(p.location, ids.last()) {
            Some(location) => lemma_location_genuine(p, location.line, value, ids.len() == 1),
            None => {},
        }
        lemma_genuine_add(p, stack_hits(p, ids.drop_last(), value), more);
    }
}

proof fn lemma_sample_genuine(p: ProfileModel, samples: Seq<SampleModel>, column: nat)
    ensures
        all_genuine(p, sample_hits(p, samples, column)),
    decreases samples.len(),
{
    if samples.len() > 0 {
        let value = column_value(samples.last(), column);
        lemma_sample_genuine(p, samples.drop_last(), column);
        lemma_stack_genuine(p, samples.last().location_id, value);
        lemma_genuine_add(
            p,
            sample_hits(p, samples.drop_last(), column),
            stack_hits(p, samples.last().location_id, value),
        );
    }
}

/// The ids are those of the touched functions with the greatest cumulative cost, in
/// falling order of it; at most `limit` of them. Which of two equal ones comes first,
/// or stays, is left open.
pub open spec fn ranking(hs: Seq<Hit>, ids: Seq<u64>, limit: nat) -> bool {
    &&& ids.no_duplicates()
    &&& ids.len() <= limit
    &&& forall|i: int| 0 <= i < ids.len() ==> touches_function(hs, #[trigger] ids[i])
    &&& forall|i: int, j: int|
        0 <= i <= j < ids.len() ==> function_total(hs, #[trigger] ids[i], false) >= function_total(
            hs,
            #[trigger] ids[j],
            false,
        )
    &&& forall|id: u64| #[trigger]
        touches_function(hs, id) && !ids.contains(id) ==> ids.len() == limit && forall|i: int|
            0 <= i < ids.len() ==> function_total(hs, #[trigger] ids[i], false) >= function_total(
                hs,
                id,
                false,
            )
}

/// The hotspot is the function with this id.
pub open spec fn is_hotspot(
    hotspot: HotspotFunction,
    p: ProfileModel,
    hs: Seq<Hit>,
    id: u64,
    rank: int,
) -> bool {
    &&& hotspot.rank == rank
    &&& function_with(p.function, id) matches Some(f) && hotspot.name@ == string_at(p, f.name)
        && hotspot.filename@ == string_at(p, f.filename) && hotspot.start_line == unsigned(
        f.start_line,
    )
    &&& hotspot.flat == function_total(hs, id, true)
    &&& hotspot.cumulative == function_total(hs, id, false)
}

/// The hotspots are the functions that rank first.
pub open spec fn ranked(
    hotspots: Seq<HotspotFunction>,
    p: ProfileModel,
    hs: Seq<Hit>,
    limit: nat,
) -> bool {
    exists|ids: Seq<u64>| #[trigger]
        ranking(hs, ids, limit) && ids.len() == hotspots.len() && forall|i: int|
            0 <= i < ids.len() ==> is_hotspot(#[trigger] hotspots[i], p, hs, ids[i], i + 1)
}

/// What the analysis of a profile gives.
pub open spec fn analyzed(data: ProfileData, p: ProfileModel, limit: nat) -> bool {
    &&& data.line_costs@ == all_costs(hits(p))
    &&& ranked(data.hotspots@, p, hits(p), limit)
    &&& data.profile_type == selection(p).profile_type
    &&& data.sample_type_label@ == selection(p).label
    &&& data.value_unit == selection(p).unit
    &&& data.total_value == total_of(p.sample, selection(p).index)
    &&& data.duration == if p.duration_nanos > 0 {
        Some(p.duration_nanos as u64)
    } else {
        None
    }
}

impl Tally {
    /// Counts all samples, and gives the sum of their values.
    fn count_samples(
        &mut self,
        profile: &Profile,
        column: usize,
    ) -> (r: Option<i64>)
        requires
            old(self).holds(seq![]),
        ensures
            ({
                let p = profile@;
                let fit = always_in_range(sample_hits(p, p.sample, column as nat)) && forall|k: int|
                    0 <= k <= p.sample.len() ==> fits(
                        total_of(#[trigger] p.sample.take(k), column as nat),
                    );
                match r {
                    Some(total) => {
                        &&& fit
                        &&& total == total_of(p.sample, column as nat)
                        &&& final(self).holds(sample_hits(p, p.sample, column as nat))
                    },
                    None => !fit,
                }
            }),
    {
        let ghost p = profile@;
        let ghost samples = p.sample;
        let locations: HashMap<u64, usize> = index_locations(&profile.location);
        let functions: HashMap<u64, usize> = index_functions(&profile.function);
        let mut total: i64 = 0;
        let mut i: usize = 0;
        proof {
            assert(samples.take(0) =~= seq![]);
            assert(sample_hits(p, samples.take(0), column as nat) =~= seq![]);
        }
        while i < profile.sample.len()
            invariant
                i <= profile.sample.len(),
                p == profile@,
                samples == p.sample,
                indexes_locations(locations@, profile@.location),
                indexes_functions(functions@, profile@.function),
                self.holds(sample_hits(p, samples.take(i as int), column as nat)),
                total == total_of(samples.take(i as int), column as nat),
                forall|k: int|
                    0 <= k <= i ==> fits(total_of(#[trigger] samples.take(k), column as nat)),
            decreases profile.sample.len() - i,
        {
            let ghost sofar = sample_hits(p, samples.take(i as int), column as nat);
            let sample: &Sample = &profile.sample[i];
            let value: i64 = if column < sample.value.len() {
                sample.value[column]
            } else {
                0
            };
            let ghost t = samples.take(i + 1);
            proof {
                assert(t.drop_last() =~= samples.take(i as int));
                assert(t.last() == sample.deep_view());
                assert(value == column_value(t.last(), column as nat));
                lemma_sample_starts(p, samples, i + 1, column as nat);
                if always_in_range(sample_hits(p, samples, column as nat)) {
                    lemma_starts_range(
                        sample_hits(p, t, column as nat),
                        sample_hits(p, samples, column as nat),
                    );
                }
            }
            match total.checked_add(value) {
                Some(sum) => {
                    total = sum;
                },
                None => {
                    assert(!fits(total_of(t, column as nat)));
                    return None;
                },
            }
            if !self.count_stack(
                profile,
                &locations,
                &functions,
                &sample.location_id,
                value,
                Ghost(sofar),
            ) {
                return None;
            }
            i += 1;
        }
        assert(samples.take(i as int) =~= samples);
        Some(total)
    }
}

/// The first `n` slots are ranked by their cumulative cost, as far as there is room.
spec fn placed(costs: Seq<LineCost>, n: int, top: Seq<usize>, limit: nat) -> bool {
    &&& top.no_duplicates()
    &&& top.len() <= limit
    &&& forall|i: int| 0 <= i < top.len() ==> (#[trigger] top[i]) < n
    &&& forall|i: int, j: int|
        0 <= i <= j < top.len() ==> costs[#[trigger] top[i] as int].cumulative
            >= costs[#[trigger] top[j] as int].cumulative
    &&& forall|s: usize|
        s < n && !(#[trigger] top.contains(s)) ==> top.len() == limit && forall|i: int|
            0 <= i < top.len() ==> costs[#[trigger] top[i] as int].cumulative
                >= costs[s as int].cumulative
}

/// A slot takes its place, and the last one leaves where there is no room for it.
proof fn lemma_place(
    costs: Seq<LineCost>,
    n: usize,
    top: Seq<usize>,
    limit: nat,
    pos: int,
    next: Seq<usize>,
)
    requires
        n < costs.len(),
        placed(costs, n as int, top, limit),
        0 <= pos <= top.len(),
        pos < limit,
        forall|i: int|
            0 <= i < pos ==> costs[#[trigger] top[i] as int].cumulative
                >= costs[n as int].cumulative,
        pos < top.len() ==> costs[top[pos] as int].cumulative < costs[n as int].cumulative,
        next == if top.len() < limit {
            top.insert(pos, n)
        } else {
            top.insert(pos, n).drop_last()
        },
    ensures
        placed(costs, n + 1, next, limit),
{
    assert forall|i: int| 0 <= i < next.len() implies (#[trigger] next[i]) == if i < pos {
        top[i]
    } else if i == pos {
        n
    } else {
        top[i - 1]
    } by {}
    assert(next[pos] == n);
    assert forall|i: int, j: int|
        0 <= i < next.len() && 0 <= j < next.len() && i != j implies next[i] != next[j] by {
        let a = if i < pos {
            i
        } else {
            i - 1
        };
        let b = if j < pos {
            j
        } else {
            j - 1
        };
        if i != pos {
            assert(next[i] == top[a]);
        }
        if j != pos {
            assert(next[j] == top[b]);
        }
    }
    assert forall|i: int, j: int| 0 <= i <= j < next.len() implies costs[#[trigger] next[i] as int]
        .cumulative >= costs[#[trigger] next[j] as int].cumulative by {
        let a = if i < pos {
            i
        } else {
            i - 1
        };
        let b = if j < pos {
            j
        } else {
            j - 1
        };
        if i != pos {
            assert(next[i] == top[a]);
        }
        if j != pos {
            assert(next[j] == top[b]);
        }
        if i == pos && j > pos {
            assert(costs[top[pos] as int].cumulative >= costs[top[b] as int].cumulative);
        }
    }
    assert forall|s: usize| s < n + 1 && !(#[trigger] next.contains(s)) implies next.len() == limit
        && forall|i: int|
        0 <= i < next.len() ==> costs[#[trigger] next[i] as int].cumulative
            >= costs[s as int].cumulative by {
        assert(s != n);
        if top.contains(s) {
            let k = choose|k: int| 0 <= k < top.len() && top[k] == s;
            if k < pos {
                assert(next[k] == s);
            } else if k + 1 < next.len() {
                assert(next[k + 1] == s);
            }
            assert(k == top.len() - 1 && top.len() == limit);
            assert(pos < top.len());
        }
        assert forall|i: int| 0 <= i < next.len() implies costs[#[trigger] next[i] as int].cumulative
            >= costs[s as int].cumulative by {
            if top.contains(s) {
                let k = top.len() - 1;
                if i == pos {
                    assert(costs[top[pos] as int].cumulative >= costs[top[k] as int].cumulative);
                } else if i < pos {
                    assert(costs[top[i] as int].cumulative >= costs[top[k] as int].cumulative);
                } else {
                    assert(costs[top[i - 1] as int].cumulative >= costs[top[k] as int].cumulative);
                }
            } else {
                assert(top.len() == limit);
                if i == pos {
                    assert(costs[top[pos] as int].cumulative >= costs[s as int].cumulative);
                } else if i < pos {
                    assert(next[i] == top[i]);
                } else {
                    assert(next[i] == top[i - 1]);
                }
            }
        }
    }
}

impl FunctionCosts {
    /// The slots of the functions with the greatest cumulative cost.
    fn rank(&self, limit: usize, Ghost(hs): Ghost<Seq<Hit>>) -> (r: Vec<usize>)
        requires
            self.holds(hs),
            in_range(hs),
        ensures
            forall|i: int| 0 <= i < r@.len() ==> (#[trigger] r@[i]) < self.ids@.len(),
            ranking(hs, r@.map_values(|slot: usize| self.ids@[slot as int]), limit as nat),
    {
        let mut top: Vec<usize> = Vec::new();
        let mut n: usize = 0;
        while n < self.costs.len()
            invariant
                n <= self.costs@.len(),
                placed(self.costs@, n as int, top@, limit as nat),
            decreases self.costs.len() - n,
        {
            let cumulative: i64 = self.costs[n].cumulative;
            let mut pos: usize = 0;
            while pos < top.len() && self.costs[top[pos]].cumulative >= cumulative
                invariant
                    n < self.costs@.len(),
                    cumulative == self.costs@[n as int].cumulative,
                    placed(self.costs@, n as int, top@, limit as nat),
                    pos <= top@.len(),
                    forall|i: int|
                        0 <= i < pos ==> self.costs@[#[trigger] top@[i] as int].cumulative
                            >= cumulative,
                decreases top.len() - pos,
            {
                pos += 1;
            }
            let ghost before = top@;
            if pos < limit {
                top.insert(pos, n);
                if top.len() > limit {
                    top.pop();
                }
                proof {
                    lemma_place(
                        self.costs@,
                        n,
                        before,
                        limit as nat,
                        pos as int,
                        top@,
                    );
                }
            }
            n += 1;
        }
        proof {
            let ids = top@.map_values(|slot: usize| self.ids@[slot as int]);
            assert forall|i: int| 0 <= i < ids.len() implies function_total(hs, #[trigger] ids[i], false)
                == self.costs@[top@[i] as int].cumulative by {
                assert(self.costs@[top@[i] as int] == function_cost(hs, self.ids@[top@[i] as int]));
                assert(fits(function_total(hs, ids[i], false)));
            }
            assert forall|i: int, j: int|
                0 <= i < ids.len() && 0 <= j < ids.len() && i != j implies ids[i] != ids[j] by {
                assert(self.slots@[self.ids@[top@[i] as int]] == top@[i]);
                assert(self.slots@[self.ids@[top@[j] as int]] == top@[j]);
            }
            assert forall|i: int| 0 <= i < ids.len() implies touches_function(
                hs,
                #[trigger] ids[i],
            ) by {
                assert(self.slots@.contains_key(self.ids@[top@[i] as int]));
            }
            assert forall|id: u64| #[trigger] touches_function(hs, id) && !ids.contains(id) implies
                ids.len() == limit && forall|i: int|
                0 <= i < ids.len() ==> function_total(hs, #[trigger] ids[i], false)
                    >= function_total(hs, id, false) by {
                assert(self.slots@.contains_key(id));
                let s = self.slots@[id];
                if top@.contains(s) {
                    let k = choose|k: int| 0 <= k < top@.len() && top@[k] == s;
                    assert(ids[k] == id);
                }
                assert(self.costs@[s as int] == function_cost(hs, self.ids@[s as int]));
                assert(fits(function_total(hs, id, false)));
            }
        }
        top
    }
}

/// The functions with the greatest cumulative cost.
fn make_hotspots(
    profile: &Profile,
    costs: &FunctionCosts,
    limit: usize,
    Ghost(hs): Ghost<Seq<Hit>>,
) -> (r: Vec<HotspotFunction>)
    requires
        costs.holds(hs),
        in_range(hs),
        all_genuine(profile@, hs),
    ensures
        ranked(r@, profile@, hs, limit as nat),
{
    let functions: HashMap<u64, usize> = index_functions(&profile.function);
    let top: Vec<usize> = costs.rank(limit, Ghost(hs));
    let ghost ids = top@.map_values(|slot: usize| costs.ids@[slot as int]);
    let mut r: Vec<HotspotFunction> = Vec::new();
    let mut i: usize = 0;
    while i < top.len()
        invariant
            i <= top@.len(),
            r@.len() == i,
            costs.holds(hs),
            in_range(hs),
            all_genuine(profile@, hs),
            indexes_functions(functions@, profile@.function),
            ids == top@.map_values(|slot: usize| costs.ids@[slot as int]),
            forall|k: int| 0 <= k < top@.len() ==> (#[trigger] top@[k]) < costs.ids@.len(),
            forall|k: int|
                0 <= k < i ==> is_hotspot(#[trigger] r@[k], profile@, hs, ids[k], k + 1),
        decreases top.len() - i,
    {
        let slot: usize = top[i];
        let id: u64 = costs.ids[slot];
        proof {
            assert(costs.slots@.contains_key(costs.ids@[slot as int]));
            assert(touches_function(hs, id));
            let k = choose|k: int| 0 <= k < hs.len() && (#[trigger] hs[k]).function == id;
            assert(genuine(profile@, hs[k]));
            assert(function_with(profile@.function, id) is Some);
            assert(costs.costs@[slot as int] == function_cost(hs, id));
            assert(fits(function_total(hs, id, true)));
            assert(fits(function_total(hs, id, false)));
        }
        match functions.get(&id) {
            Some(at) => {
                let function: Function = profile.function[*at];
                r.push(
                    HotspotFunction {
                        rank: i + 1,
                        name: resolve_string(profile, function.name).to_string(),
                        filename: resolve_string(profile, function.filename).to_string(),
                        start_line: to_unsigned(function.start_line),
                        flat: costs.costs[slot].flat,
                        cumulative: costs.costs[slot].cumulative,
                    },
                );
            },
            None => {},
        }
        i += 1;
    }
    assert(ranking(hs, ids, limit as nat));
    r
}

/// Analyzes a profile, unless a sum leaves the range of its type.
pub fn checked_analyze_profile(profile: &Profile, max_hotspots: usize) -> (r: Option<ProfileData>)
    ensures
        match r {
            Some(data) => sums_fit(profile@) && analyzed(data, profile@, max_hotspots as nat),
            None => !sums_fit(profile@),
        },
{
    let (column, profile_type, sample_type_label, value_unit) = select_sample_type(profile);
    let mut tally = Tally::new();
    let total_value: i64 = match tally.count_samples(profile, column) {
        Some(total) => total,
        None => {
            return None;
        },
    };
    let ghost hs = hits(profile@);
    proof {
        lemma_sample_genuine(profile@, profile@.sample, column as nat);
    }
    let hotspots: Vec<HotspotFunction> = make_hotspots(
        profile,
        &tally.functions,
        max_hotspots,
        Ghost(hs),
    );
    let duration: Option<u64> = if profile.duration_nanos > 0 {
        Some(profile.duration_nanos as u64)
    } else {
        None
    };
    Some(
        ProfileData {
            line_costs: tally.files,
            hotspots,
            profile_type,
            sample_type_label,
            value_unit,
            total_value,
            duration,
        },
    )
}

/// Analyzes a profile: sums the cost of each line and of each function, and ranks the
/// functions.
///
/// `max_hotspots` controls how many top functions are in the hotspot list.
pub fn analyze_profile(profile: &Profile, max_hotspots: usize) -> (r: ProfileData)
    requires
        sums_fit(profile@),
    ensures
        analyzed(r, profile@, max_hotspots as nat),
{
    checked_analyze_profile(profile, max_hotspots).unwrap()
}

/// The sum of the values of the leaves.
pub open spec fn leaf_total(hs: Seq<Hit>) -> int
    decreases hs.len(),
{
    if hs.len() == 0 {
        0
    } else {
        leaf_total(hs.drop_last()) + if hs.last().leaf {
            hs.last().value as int
        } else {
            0
        }
    }
}

/// No sample has a negative value in the column that is used.
pub open spec fn nonnegative(p: ProfileModel) -> bool {
    forall|i: int|
        0 <= i < p.sample.len() ==> column_value(#[trigger] p.sample[i], selection(p).index) >= 0
}

spec fn hits_nonnegative(hs: Seq<Hit>) -> bool {
    forall|i: int| 0 <= i < hs.len() ==> (#[trigger] hs[i]).value >= 0
}

proof fn lemma_leaf_add(a: Seq<Hit>, b: Seq<Hit>)
    ensures
        leaf_total(a + b) == leaf_total(a) + leaf_total(b),
        hits_nonnegative(a) && hits_nonnegative(b) ==> hits_nonnegative(a + b),
    decreases b.len(),
{
    let c = a + b;
    if b.len() == 0 {
        assert(c =~= a);
    } else {
        lemma_leaf_add(a, b.drop_last());
        assert(c.drop_last() =~= a + b.drop_last());
        assert(c.last() == b.last());
    }
    if hits_nonnegative(a) && hits_nonnegative(b) {
        assert forall|i: int| 0 <= i < c.len() implies (#[trigger] c[i]).value >= 0 by {
            if i < a.len() {
                assert(c[i] == a[i]);
            } else {
                assert(c[i] == b[i - a.len()]);
            }
        }
    }
}

proof fn lemma_location_leaf(p: ProfileModel, lines: Seq<Line>, value: i64, leaf: bool)
    ensures
        ({
            let hs = location_hits(p, lines, value, leaf);
            &&& leaf_total(hs) == 0 || (leaf && leaf_total(hs) == value)
            &&& value >= 0 ==> hits_nonnegative(hs)
        }),
    decreases lines.len(),
{
    reveal_with_fuel(leaf_total, 2);
    if lines.len() > 0 {
        let first = location_hits(p, lines.drop_last(), value, leaf);
        let last = line_hits(p, lines.last(), value, leaf && lines.len() == 1);
        lemma_location_leaf(p, lines.drop_last(), value, leaf);
        lemma_leaf_add(first, last);
        if last.len() > 0 {
            assert(last.drop_last() =~= seq![]);
        }
    }
}

proof fn lemma_stack_leaf(p: ProfileModel, ids: Seq<u64>, value: i64)
    ensures
        ({
            let hs = stack_hits(p, ids, value);
            &&& leaf_total(hs) == 0 || leaf_total(hs) == value
            &&& value >= 0 ==> hits_nonnegative(hs)
        }),
    decreases ids.len(),
{
    if ids.len() > 0 {
        lemma_stack_leaf(p, ids.drop_last(), value);
        let first = stack_hits(p, ids.drop_last(), value);
        let more = match location_with(p.location, ids.last()) {
            Some(location) => location_hits(p, location.line, value, ids.len() == 1),
            None => seq![],
        };
        match location_with(p.location, ids.last()) {
            Some(location) => lemma_location_leaf(p, location.line, value, ids.len() == 1),
            None => {},
        }
        lemma_leaf_add(first, more);
    }
}

proof fn lemma_sample_leaf(p: ProfileModel, samples: Seq<SampleModel>, column: nat)
    requires
        forall|i: int| 0 <= i < samples.len() ==> column_value(#[trigger] samples[i], column) >= 0,
    ensures
        0 <= leaf_total(sample_hits(p, samples, column)) <= total_of(samples, column),
        hits_nonnegative(sample_hits(p, samples, column)),
    decreases samples.len(),
{
    if samples.len() > 0 {
        let rest = samples.drop_last();
        let value = column_value(samples.last(), column);
        assert forall|i: int| 0 <= i < rest.len() implies column_value(#[trigger] rest[i], column)
            >= 0 by {
            assert(rest[i] == samples[i]);
        }
        assert(samples.last() == samples[samples.len() - 1]);
        lemma_sample_leaf(p, rest, column);
        lemma_stack_leaf(p, samples.last().location_id, value);
        lemma_leaf_add(
            sample_hits(p, rest, column),
            stack_hits(p, samples.last().location_id, value),
        );
    }
}

proof fn lemma_totals_order(hs: Seq<Hit>, file: Seq<char>, line: u64, id: u64)
    requires
        hits_nonnegative(hs),
    ensures
        0 <= line_total(hs, file, line, true) <= line_total(hs, file, line, false),
        0 <= function_total(hs, id, true) <= function_total(hs, id, false),
        line_total(hs, file, line, true) <= leaf_total(hs),
        function_total(hs, id, true) <= leaf_total(hs),
    decreases hs.len(),
{
    if hs.len() > 0 {
        let rest = hs.drop_last();
        assert forall|i: int| 0 <= i < rest.len() implies (#[trigger] rest[i]).value >= 0 by {
            assert(rest[i] == hs[i]);
        }
        lemma_totals_order(rest, file, line, id);
        assert(hs.last() == hs[hs.len() - 1]);
    }
}

/// Where no sample is negative, the flat cost of a line or of a function is at most
/// its cumulative cost, and at most the sum of all samples.
pub proof fn lemma_flat_bounded(p: ProfileModel, file: Seq<char>, line: u64, id: u64)
    requires
        nonnegative(p),
    ensures
        0 <= line_total(hits(p), file, line, true) <= line_total(hits(p), file, line, false),
        line_total(hits(p), file, line, true) <= total_of(p.sample, selection(p).index),
        0 <= function_total(hits(p), id, true) <= function_total(hits(p), id, false),
        function_total(hits(p), id, true) <= total_of(p.sample, selection(p).index),
{
    lemma_sample_leaf(p, p.sample, selection(p).index);
    lemma_totals_order(hits(p), file, line, id);
}

/// A sample has at most one leaf: the values of all leaves together are at most the
/// sum of all samples, where no sample is negative.
pub proof fn lemma_leaves_bounded(p: ProfileModel)
    requires
        nonnegative(p),
    ensures
        0 <= leaf_total(hits(p)) <= total_of(p.sample, selection(p).index),
{
    lemma_sample_leaf(p, p.sample, selection(p).index);
}

/// Only named files and numbered lines have costs, and no file is without lines.
pub proof fn lemma_costs_genuine(p: ProfileModel, file: Seq<char>)
    requires
        all_costs(hits(p)).contains_key(file),
    ensures
        file.len() > 0,
        exists|line: u64| #[trigger] all_costs(hits(p))[file].contains_key(line),
        forall|line: u64| #[trigger]
            all_costs(hits(p))[file].contains_key(line) ==> 0 < line <= i64::MAX,
{
    let hs = hits(p);
    lemma_sample_genuine(p, p.sample, selection(p).index);
    let i = choose|i: int| 0 <= i < hs.len() && (#[trigger] hs[i]).file == file;
    assert(genuine(p, hs[i]));
    assert(touches_line(hs, file, hs[i].line));
    assert(all_costs(hs)[file].contains_key(hs[i].line));
    assert forall|line: u64| #[trigger] all_costs(hs)[file].contains_key(line) implies 0 < line
        <= i64::MAX by {
        let k = choose|k: int|
            0 <= k < hs.len() && (#[trigger] hs[k]).file == file && hs[k].line == line;
        assert(genuine(p, hs[k]));
    }
}

proof fn lemma_totals_add(a: Seq<Hit>, b: Seq<Hit>, file: Seq<char>, line: u64, id: u64, flat: bool)
    ensures
        line_total(a + b, file, line, flat) == line_total(a, file, line, flat) + line_total(
            b,
            file,
            line,
            flat,
        ),
        function_total(a + b, id, flat) == function_total(a, id, flat) + function_total(
            b,
            id,
            flat,
        ),
    decreases b.len(),
{
    let c = a + b;
    if b.len() == 0 {
        assert(c =~= a);
    } else {
        lemma_totals_add(a, b.drop_last(), file, line, id, flat);
        assert(c.drop_last() =~= a + b.drop_last());
        assert(c.last() == b.last());
    }
}

/// The costs of two lists of samples are the sums of the costs of each: every sample
/// counts for itself, wherever it stands.
pub proof fn lemma_samples_add(
    p: ProfileModel,
    a: Seq<SampleModel>,
    b: Seq<SampleModel>,
    column: nat,
    file: Seq<char>,
    line: u64,
    id: u64,
    flat: bool,
)
    ensures
        total_of(a + b, column) == total_of(a, column) + total_of(b, column),
        line_total(sample_hits(p, a + b, column), file, line, flat) == line_total(
            sample_hits(p, a, column),
            file,
            line,
            flat,
        ) + line_total(sample_hits(p, b, column), file, line, flat),
        function_total(sample_hits(p, a + b, column), id, flat) == function_total(
            sample_hits(p, a, column),
            id,
            flat,
        ) + function_total(sample_hits(p, b, column), id, flat),
    decreases b.len(),
{
    let c = a + b;
    if b.len() == 0 {
        assert(c =~= a);
    } else {
        let rest = b.drop_last();
        let last = stack_hits(p, b.last().location_id, column_value(b.last(), column));
        lemma_samples_add(p, a, rest, column, file, line, id, flat);
        assert(c.drop_last() =~= a + rest);
        assert(c.last() == b.last());
        lemma_totals_add(sample_hits(p, a + rest, column), last, file, line, id, flat);
        lemma_totals_add(sample_hits(p, rest, column), last, file, line, id, flat);
    }
}

/// One line of one location of one sample's stack, by indices: the sample, the place in
/// its stack, the line of the location there; and the location and the function meant.
pub struct Visit {
    pub sample: int,
    pub place: int,
    pub row: int,
    pub location: int,
    pub function: int,
}

/// No later location has the id.
pub open spec fn is_last_location(p: ProfileModel, id: u64, at: int) -> bool {
    &&& 0 <= at < p.location.len()
    &&& p.location[at].id == id
    &&& forall|k: int| at < k < p.location.len() ==> (#[trigger] p.location[k]).id != id
}

/// No later function has the id.
pub open spec fn is_last_function(p: ProfileModel, id: u64, at: int) -> bool {
    &&& 0 <= at < p.function.len()
    &&& p.function[at].id == id
    &&& forall|k: int| at < k < p.function.len() ==> (#[trigger] p.function[k]).id != id
}

/// The line counts: its location and its function are known, the function has the name of
/// a file, and the line a number.
pub open spec fn is_visited(p: ProfileModel, v: Visit) -> bool {
    &&& 0 <= v.sample < p.sample.len()
    &&& 0 <= v.place < p.sample[v.sample].location_id.len()
    &&& is_last_location(p, p.sample[v.sample].location_id[v.place], v.location)
    &&& 0 <= v.row < p.location[v.location].line.len()
    &&& is_last_function(p, p.location[v.location].line[v.row].function_id, v.function)
    &&& p.location[v.location].line[v.row].line > 0
    &&& 0 <= p.function[v.function].filename < p.string_table.len()
    &&& p.string_table[p.function[v.function].filename as int].len() > 0
}

/// The file, the line, the function and the value of a line that counts; it is a leaf
/// where it is the first of its location and that the first of its stack.
pub open spec fn is_hit_of(h: Hit, p: ProfileModel, v: Visit, column: nat) -> bool {
    &&& h.file == p.string_table[p.function[v.function].filename as int]
    &&& h.line == p.location[v.location].line[v.row].line
    &&& h.function == p.location[v.location].line[v.row].function_id
    &&& h.value == if column < p.sample[v.sample].value.len() {
        p.sample[v.sample].value[column as int]
    } else {
        0
    }
    &&& h.leaf <==> v.place == 0 && v.row == 0
}

/// The samples in their order, in each the stack from the leaf on, in each location the
/// lines from the innermost on.
pub open spec fn comes_before(a: Visit, b: Visit) -> bool {
    a.sample < b.sample || (a.sample == b.sample && (a.place < b.place || (a.place == b.place
        && a.row < b.row)))
}

spec fn shows_visits(hs: Seq<Hit>, visits: Seq<Visit>, p: ProfileModel, column: nat) -> bool {
    &&& hs.len() == visits.len()
    &&& forall|a: int, b: int|
        0 <= a < b < visits.len() ==> comes_before(#[trigger] visits[a], #[trigger] visits[b])
    &&& forall|a: int|
        0 <= a < visits.len() ==> is_visited(p, #[trigger] visits[a]) && is_hit_of(
            hs[a],
            p,
            visits[a],
            column,
        )
}

proof fn lemma_location_at(p: ProfileModel, n: int, id: u64)
    requires
        0 <= n <= p.location.len(),
        forall|k: int| n <= k < p.location.len() ==> (#[trigger] p.location[k]).id != id,
    ensures
        match location_with(p.location.take(n), id) {
            Some(location) => exists|at: int| #[trigger]
                is_last_location(p, id, at) && p.location[at] == location,
            None => forall|at: int| !#[trigger] is_last_location(p, id, at),
        },
    decreases n,
{
    let t = p.location.take(n);
    if n > 0 {
        assert(t.last() == p.location[n - 1]);
        assert(t.drop_last() =~= p.location.take(n - 1));
        if t.last().id == id {
            assert(is_last_location(p, id, n - 1));
        } else {
            lemma_location_at(p, n - 1, id);
        }
    } else {
        assert forall|at: int| !#[trigger] is_last_location(p, id, at) by {
            if is_last_location(p, id, at) {
                assert(p.location[at].id != id);
            }
        }
    }
}

proof fn lemma_function_at(p: ProfileModel, n: int, id: u64)
    requires
        0 <= n <= p.function.len(),
        forall|k: int| n <= k < p.function.len() ==> (#[trigger] p.function[k]).id != id,
    ensures
        match function_with(p.function.take(n), id) {
            Some(function) => exists|at: int| #[trigger]
                is_last_function(p, id, at) && p.function[at] == function,
            None => forall|at: int| !#[trigger] is_last_function(p, id, at),
        },
    decreases n,
{
    let t = p.function.take(n);
    if n > 0 {
        assert(t.last() == p.function[n - 1]);
        assert(t.drop_last() =~= p.function.take(n - 1));
        if t.last().id == id {
            assert(is_last_function(p, id, n - 1));
        } else {
            lemma_function_at(p, n - 1, id);
        }
    } else {
        assert forall|at: int| !#[trigger] is_last_function(p, id, at) by {
            if is_last_function(p, id, at) {
                assert(p.function[at].id != id);
            }
        }
    }
}

/// There is one last location, and one last function, with an id.
proof fn lemma_last_unique(p: ProfileModel, id: u64)
    ensures
        forall|a: int, b: int| #[trigger]
            is_last_location(p, id, a) && #[trigger] is_last_location(p, id, b) ==> a == b,
        forall|a: int, b: int| #[trigger]
            is_last_function(p, id, a) && #[trigger] is_last_function(p, id, b) ==> a == b,
{
    assert forall|a: int, b: int| #[trigger]
        is_last_location(p, id, a) && #[trigger] is_last_location(p, id, b) implies a == b by {
        if a < b {
            assert(p.location[b].id != id);
        } else if b < a {
            assert(p.location[a].id != id);
        }
    }
    assert forall|a: int, b: int| #[trigger]
        is_last_function(p, id, a) && #[trigger] is_last_function(p, id, b) implies a == b by {
        if a < b {
            assert(p.function[b].id != id);
        } else if b < a {
            assert(p.function[a].id != id);
        }
    }
}

/// The lines of a location that count, of the first `n`.
proof fn lemma_location_visits(
    p: ProfileModel,
    sample: int,
    place: int,
    location: int,
    n: int,
    column: nat,
) -> (visits: Seq<Visit>)
    requires
        0 <= sample < p.sample.len(),
        0 <= place < p.sample[sample].location_id.len(),
        is_last_location(p, p.sample[sample].location_id[place], location),
        0 <= n <= p.location[location].line.len(),
    ensures
        shows_visits(
            location_hits(
                p,
                p.location[location].line.take(n),
                column_value(p.sample[sample], column),
                place == 0,
            ),
            visits,
            p,
            column,
        ),
        forall|a: int|
            0 <= a < visits.len() ==> (#[trigger] visits[a]).sample == sample && visits[a].place
                == place && visits[a].row < n,
        forall|v: Visit| #[trigger]
            is_visited(p, v) && v.sample == sample && v.place == place && v.row < n
                ==> visits.contains(v),
    decreases n,
{
    let value = column_value(p.sample[sample], column);
    let lines = p.location[location].line;
    let id = p.sample[sample].location_id[place];
    lemma_last_unique(p, id);
    if n == 0 {
        let none: Seq<Visit> = seq![];
        assert(lines.take(0) =~= seq![]);
        assert forall|v: Visit| #[trigger]
            is_visited(p, v) && v.sample == sample && v.place == place && v.row
                < n implies none.contains(v) by {}
        none
    } else {
        let before = lemma_location_visits(p, sample, place, location, n - 1, column);
        let t = lines.take(n);
        let line = lines[n - 1];
        assert(t.drop_last() =~= lines.take(n - 1));
        assert(t.last() == line);
        assert(p.function.take(p.function.len() as int) =~= p.function);
        lemma_function_at(p, p.function.len() as int, line.function_id);
        lemma_last_unique(p, line.function_id);
        let first = location_hits(p, lines.take(n - 1), value, place == 0);
        let more = line_hits(p, line, value, place == 0 && n == 1);
        assert(location_hits(p, t, value, place == 0) == first + more);
        let all = if more.len() > 0 {
            let at = choose|at: int| #[trigger]
                is_last_function(p, line.function_id, at) && p.function[at] == function_with(
                    p.function,
                    line.function_id,
                ).unwrap();
            let v = Visit { sample, place, row: n - 1, location, function: at };
            assert(is_visited(p, v));
            assert(is_hit_of(more[0], p, v, column));
            before.push(v)
        } else {
            before
        };
        let hs = first + more;
        assert(hs.len() == all.len());
        assert forall|a: int| 0 <= a < all.len() implies is_visited(p, #[trigger] all[a])
            && is_hit_of(hs[a], p, all[a], column) by {
            if a < before.len() {
                assert(all[a] == before[a]);
                assert(hs[a] == first[a]);
            } else {
                assert(hs[a] == more[0]);
            }
        }
        assert forall|a: int, b: int| 0 <= a < b < all.len() implies comes_before(
            #[trigger] all[a],
            #[trigger] all[b],
        ) by {
            assert(all[a] == before[a]);
            if b < before.len() {
                assert(all[b] == before[b]);
            }
        }
        assert forall|v: Visit| #[trigger]
            is_visited(p, v) && v.sample == sample && v.place == place && v.row
                < n implies all.contains(v) by {
            if v.row < n - 1 {
                assert(before.contains(v));
                let k = choose|k: int| 0 <= k < before.len() && before[k] == v;
                assert(all[k] == v);
            } else {
                assert(v.location == location);
                assert(is_last_function(p, line.function_id, v.function));
                assert(more.len() > 0);
                assert(all[before.len() as int] == v);
            }
        }
        all
    }
}

/// The lines that count of the first `n` places of a sample's stack.
proof fn lemma_stack_visits(p: ProfileModel, sample: int, n: int, column: nat) -> (visits: Seq<
    Visit,
>)
    requires
        0 <= sample < p.sample.len(),
        0 <= n <= p.sample[sample].location_id.len(),
    ensures
        shows_visits(
            stack_hits(
                p,
                p.sample[sample].location_id.take(n),
                column_value(p.sample[sample], column),
            ),
            visits,
            p,
            column,
        ),
        forall|a: int|
            0 <= a < visits.len() ==> (#[trigger] visits[a]).sample == sample && visits[a].place < n,
        forall|v: Visit| #[trigger]
            is_visited(p, v) && v.sample == sample && v.place < n ==> visits.contains(v),
    decreases n,
{
    let value = column_value(p.sample[sample], column);
    let ids = p.sample[sample].location_id;
    if n == 0 {
        let none: Seq<Visit> = seq![];
        assert(ids.take(0) =~= seq![]);
        none
    } else {
        let before = lemma_stack_visits(p, sample, n - 1, column);
        let t = ids.take(n);
        let id = ids[n - 1];
        assert(t.drop_last() =~= ids.take(n - 1));
        assert(t.last() == id);
        assert(p.location.take(p.location.len() as int) =~= p.location);
        lemma_location_at(p, p.location.len() as int, id);
        lemma_last_unique(p, id);
        let first = stack_hits(p, ids.take(n - 1), value);
        match location_with(p.location, id) {
            Some(location) => {
                let at = choose|at: int| #[trigger]
                    is_last_location(p, id, at) && p.location[at] == location;
                let lines = location.line;
                let own = lemma_location_visits(p, sample, n - 1, at, lines.len() as int, column);
                assert(lines.take(lines.len() as int) =~= lines);
                let more = location_hits(p, lines, value, n == 1);
                let all = before + own;
                let hs = first + more;
                assert(stack_hits(p, t, value) == hs);
                lemma_visits_join(first, before, more, own, p, column);
                assert forall|v: Visit| #[trigger]
                    is_visited(p, v) && v.sample == sample && v.place < n implies all.contains(
                    v,
                ) by {
                    if v.place < n - 1 {
                        assert(before.contains(v));
                        let k = choose|k: int| 0 <= k < before.len() && before[k] == v;
                        assert(all[k] == v);
                    } else {
                        assert(v.location == at);
                        assert(own.contains(v));
                        let k = choose|k: int| 0 <= k < own.len() && own[k] == v;
                        assert(all[before.len() + k] == v);
                    }
                }
                assert forall|a: int| 0 <= a < all.len() implies (#[trigger] all[a]).sample
                    == sample && all[a].place < n by {
                    if a < before.len() {
                        assert(all[a] == before[a]);
                    } else {
                        assert(all[a] == own[a - before.len()]);
                    }
                }
                all
            },
            None => {
                assert(stack_hits(p, t, value) =~= first);
                assert forall|v: Visit| #[trigger]
                    is_visited(p, v) && v.sample == sample && v.place < n implies before.contains(
                    v,
                ) by {
                    if v.place == n - 1 {
                        assert(is_last_location(p, id, v.location));
                    }
                }
                before
            },
        }
    }
}

proof fn lemma_visits_join(
    hs: Seq<Hit>,
    visits: Seq<Visit>,
    more: Seq<Hit>,
    own: Seq<Visit>,
    p: ProfileModel,
    column: nat,
)
    requires
        shows_visits(hs, visits, p, column),
        shows_visits(more, own, p, column),
        forall|a: int, b: int|
            0 <= a < visits.len() && 0 <= b < own.len() ==> comes_before(
                #[trigger] visits[a],
                #[trigger] own[b],
            ),
    ensures
        shows_visits(hs + more, visits + own, p, column),
{
    let all = visits + own;
    let joined = hs + more;
    assert forall|a: int| 0 <= a < all.len() implies is_visited(p, #[trigger] all[a]) && is_hit_of(
        joined[a],
        p,
        all[a],
        column,
    ) by {
        if a < visits.len() {
            assert(all[a] == visits[a]);
            assert(joined[a] == hs[a]);
        } else {
            assert(all[a] == own[a - visits.len()]);
            assert(joined[a] == more[a - visits.len()]);
        }
    }
    assert forall|a: int, b: int| 0 <= a < b < all.len() implies comes_before(
        #[trigger] all[a],
        #[trigger] all[b],
    ) by {
        if b < visits.len() {
            assert(all[a] == visits[a] && all[b] == visits[b]);
        } else if a >= visits.len() {
            assert(all[a] == own[a - visits.len()] && all[b] == own[b - visits.len()]);
        } else {
            assert(all[a] == visits[a] && all[b] == own[b - visits.len()]);
        }
    }
}

/// The lines that count of the first `n` samples.
proof fn lemma_sample_visits(p: ProfileModel, n: int, column: nat) -> (visits: Seq<Visit>)
    requires
        0 <= n <= p.sample.len(),
    ensures
        shows_visits(sample_hits(p, p.sample.take(n), column), visits, p, column),
        forall|a: int| 0 <= a < visits.len() ==> (#[trigger] visits[a]).sample < n,
        forall|v: Visit| #[trigger] is_visited(p, v) && v.sample < n ==> visits.contains(v),
    decreases n,
{
    if n == 0 {
        let none: Seq<Visit> = seq![];
        assert(p.sample.take(0) =~= seq![]);
        none
    } else {
        let before = lemma_sample_visits(p, n - 1, column);
        let t = p.sample.take(n);
        let ids = p.sample[n - 1].location_id;
        assert(t.drop_last() =~= p.sample.take(n - 1));
        assert(t.last() == p.sample[n - 1]);
        let own = lemma_stack_visits(p, n - 1, ids.len() as int, column);
        assert(ids.take(ids.len() as int) =~= ids);
        let first = sample_hits(p, p.sample.take(n - 1), column);
        let more = stack_hits(p, ids, column_value(p.sample[n - 1], column));
        lemma_visits_join(first, before, more, own, p, column);
        let all = before + own;
        assert forall|v: Visit| #[trigger] is_visited(p, v) && v.sample < n implies all.contains(
            v,
        ) by {
            if v.sample < n - 1 {
                assert(before.contains(v));
                let k = choose|k: int| 0 <= k < before.len() && before[k] == v;
                assert(all[k] == v);
            } else {
                assert(own.contains(v));
                let k = choose|k: int| 0 <= k < own.len() && own[k] == v;
                assert(all[before.len() + k] == v);
            }
        }
        assert forall|a: int| 0 <= a < all.len() implies (#[trigger] all[a]).sample < n by {
            if a < before.len() {
                assert(all[a] == before[a]);
            } else {
                assert(all[a] == own[a - before.len()]);
            }
        }
        all
    }
}

/// Every line of every location of every sample's stack contributes once, with the value
/// of its sample: what a profile contributes is, one by one and in their order, what
/// these lines do, and nothing else.
pub proof fn lemma_every_line_counts(p: ProfileModel)
    ensures
        exists|visits: Seq<Visit>|
            #![trigger visits.len()]
            {
                &&& visits.len() == hits(p).len()
                &&& forall|a: int, b: int|
                    0 <= a < b < visits.len() ==> comes_before(
                        #[trigger] visits[a],
                        #[trigger] visits[b],
                    )
                &&& forall|a: int|
                    0 <= a < visits.len() ==> is_visited(p, #[trigger] visits[a]) && is_hit_of(
                        hits(p)[a],
                        p,
                        visits[a],
                        selection(p).index,
                    )
                &&& forall|v: Visit| #[trigger] is_visited(p, v) ==> visits.contains(v)
            },
{
    let visits = lemma_sample_visits(p, p.sample.len() as int, selection(p).index);
    assert(p.sample.take(p.sample.len() as int) =~= p.sample);
    assert(visits.len() == hits(p).len());
}

/// A line that counts has costs, and its function is a hotspot, unless the list is full of
/// functions that cost as much.
pub proof fn lemma_visited_has_costs(data: ProfileData, p: ProfileModel, limit: nat, v: Visit)
    requires
        analyzed(data, p, limit),
        sums_fit(p),
        is_visited(p, v),
    ensures
        ({
            let file = p.string_table[p.function[v.function].filename as int];
            let line = p.location[v.location].line[v.row].line as u64;
            &&& data.line_costs@.contains_key(file)
            &&& data.line_costs@[file].contains_key(line)
        }),
        data.hotspots@.len() < limit ==> exists|k: int|
            0 <= k < data.hotspots@.len() && (#[trigger] data.hotspots@[k]).filename@
                == p.string_table[p.function[v.function].filename as int]
                && data.hotspots@[k].start_line == unsigned(p.function[v.function].start_line)
                && data.hotspots@[k].name@ == string_at(p, p.function[v.function].name),
{
    let hs = hits(p);
    lemma_every_line_counts(p);
    let visits = choose|visits: Seq<Visit>|
        #![trigger visits.len()]
        {
            &&& visits.len() == hits(p).len()
            &&& forall|a: int, b: int|
                0 <= a < b < visits.len() ==> comes_before(
                    #[trigger] visits[a],
                    #[trigger] visits[b],
                )
            &&& forall|a: int|
                0 <= a < visits.len() ==> is_visited(p, #[trigger] visits[a]) && is_hit_of(
                    hits(p)[a],
                    p,
                    visits[a],
                    selection(p).index,
                )
            &&& forall|v: Visit| #[trigger] is_visited(p, v) ==> visits.contains(v)
        };
    assert(visits.contains(v));
    let k = choose|k: int| 0 <= k < visits.len() && visits[k] == v;
    assert(is_hit_of(hs[k], p, visits[k], selection(p).index));
    assert(touches_file(hs, hs[k].file));
    assert(touches_line(hs, hs[k].file, hs[k].line));
    assert(touches_function(hs, hs[k].function));
    let id = hs[k].function;
    let ids = choose|ids: Seq<u64>| #[trigger]
        ranking(hs, ids, limit) && ids.len() == data.hotspots@.len() && forall|i: int|
            0 <= i < ids.len() ==> is_hotspot(#[trigger] data.hotspots@[i], p, hs, ids[i], i + 1);
    if data.hotspots@.len() < limit {
        assert(ids.contains(id));
        let i = choose|i: int| 0 <= i < ids.len() && ids[i] == id;
        assert(is_hotspot(data.hotspots@[i], p, hs, ids[i], i + 1));
        assert(p.function.take(p.function.len() as int) =~= p.function);
        lemma_function_at(p, p.function.len() as int, id);
        lemma_last_unique(p, id);
        assert(is_last_function(p, id, v.function));
    }
}

/// Only lines that count have costs, and only their functions are hotspots.
pub proof fn lemma_costs_visited(
    data: ProfileData,
    p: ProfileModel,
    limit: nat,
    file: Seq<char>,
    line: u64,
)
    requires
        analyzed(data, p, limit),
        data.line_costs@.contains_key(file),
        data.line_costs@[file].contains_key(line),
    ensures
        exists|v: Visit| #[trigger]
            is_visited(p, v) && p.string_table[p.function[v.function].filename as int] == file
                && p.location[v.location].line[v.row].line == line,
{
    let hs = hits(p);
    let visits = lemma_sample_visits(p, p.sample.len() as int, selection(p).index);
    assert(p.sample.take(p.sample.len() as int) =~= p.sample);
    assert(touches_line(hs, file, line));
    let k = choose|k: int|
        0 <= k < hs.len() && (#[trigger] hs[k]).file == file && hs[k].line == line;
    assert(is_visited(p, visits[k]) && is_hit_of(hs[k], p, visits[k], selection(p).index));
}

/// One more contribution adds its value to the costs of its line and of its function, to
/// the flat ones where it is a leaf, and to no other; without any there are none.
pub proof fn lemma_one_more_hit(
    hs: Seq<Hit>,
    h: Hit,
    file: Seq<char>,
    line: u64,
    id: u64,
)
    ensures
        line_total(seq![], file, line, false) == 0,
        line_total(seq![], file, line, true) == 0,
        function_total(seq![], id, false) == 0,
        function_total(seq![], id, true) == 0,
        line_total(hs.push(h), h.file, h.line, false) == line_total(hs, h.file, h.line, false)
            + h.value,
        line_total(hs.push(h), h.file, h.line, true) == line_total(hs, h.file, h.line, true) + if h.leaf {
            h.value as int
        } else {
            0
        },
        file != h.file || line != h.line ==> line_total(hs.push(h), file, line, false)
            == line_total(hs, file, line, false) && line_total(hs.push(h), file, line, true)
            == line_total(hs, file, line, true),
        function_total(hs.push(h), h.function, false) == function_total(hs, h.function, false)
            + h.value,
        function_total(hs.push(h), h.function, true) == function_total(hs, h.function, true)
            + if h.leaf {
            h.value as int
        } else {
            0
        },
        id != h.function ==> function_total(hs.push(h), id, false) == function_total(hs, id, false)
            && function_total(hs.push(h), id, true) == function_total(hs, id, true),
{
    lemma_totals_push(hs, h);
}

/// The analysis gives the sums: of each line that was hit its costs, and of the samples
/// the total.
pub proof fn lemma_costs_are_sums(
    data: ProfileData,
    p: ProfileModel,
    limit: nat,
    file: Seq<char>,
    line: u64,
)
    requires
        analyzed(data, p, limit),
        sums_fit(p),
    ensures
        data.line_costs@.contains_key(file) && data.line_costs@[file].contains_key(line)
            <==> exists|k: int|
            0 <= k < hits(p).len() && (#[trigger] hits(p)[k]).file == file && hits(p)[k].line
                == line,
        data.line_costs@.contains_key(file) && data.line_costs@[file].contains_key(line) ==> {
            &&& data.line_costs@[file][line].flat == line_total(hits(p), file, line, true)
            &&& data.line_costs@[file][line].cumulative == line_total(hits(p), file, line, false)
        },
        p.sample.len() == 0 ==> data.total_value == 0,
        p.sample.len() > 0 ==> data.total_value == total_of(
            p.sample.drop_last(),
            selection(p).index,
        ) + if selection(p).index < p.sample.last().value.len() {
            p.sample.last().value[selection(p).index as int] as int
        } else {
            0
        },
        p.duration_nanos > 0 <==> data.duration is Some,
        data.duration matches Some(duration) ==> duration == p.duration_nanos,
{
    let hs = hits(p);
    assert(hs.take(hs.len() as int) =~= hs);
    assert(in_range(hs.take(hs.len() as int)));
    assert(fits(line_total(hs, file, line, true)) && fits(line_total(hs, file, line, false)));
    if exists|k: int| 0 <= k < hs.len() && (#[trigger] hs[k]).file == file && hs[k].line == line {
        let k = choose|k: int|
            0 <= k < hs.len() && (#[trigger] hs[k]).file == file && hs[k].line == line;
        assert(touches_file(hs, file));
        assert(touches_line(hs, file, line));
    }
}

/// The hotspots are numbered from one on, in falling order of their cumulative costs, and
/// are at most as many as the limit; each has the costs of a function of the profile, no
/// two of the same, and one that is left out costs no more than those of a full list.
pub proof fn lemma_hotspots_ranked(data: ProfileData, p: ProfileModel, limit: nat)
    requires
        analyzed(data, p, limit),
    ensures
        data.hotspots@.len() <= limit,
        forall|i: int|
            0 <= i < data.hotspots@.len() ==> (#[trigger] data.hotspots@[i]).rank == i + 1,
        forall|i: int, j: int|
            0 <= i <= j < data.hotspots@.len() ==> (#[trigger] data.hotspots@[i]).cumulative >= (
            #[trigger] data.hotspots@[j]).cumulative,
        exists|functions: Seq<int>|
            #![trigger functions.len()]
            {
                &&& functions.len() == data.hotspots@.len()
                &&& functions.no_duplicates()
                &&& forall|i: int|
                    0 <= i < functions.len() ==> {
                        let at = #[trigger] functions[i];
                        &&& 0 <= at < p.function.len()
                        &&& is_last_function(p, p.function[at].id, at)
                        &&& data.hotspots@[i].name@ == string_at(p, p.function[at].name)
                        &&& data.hotspots@[i].filename@ == string_at(p, p.function[at].filename)
                        &&& data.hotspots@[i].start_line == unsigned(p.function[at].start_line)
                        &&& data.hotspots@[i].flat == function_total(
                            hits(p),
                            p.function[at].id,
                            true,
                        )
                        &&& data.hotspots@[i].cumulative == function_total(
                            hits(p),
                            p.function[at].id,
                            false,
                        )
                    }
                &&& forall|v: Visit| #[trigger]
                    is_visited(p, v) && !functions.contains(v.function) ==> data.hotspots@.len()
                        == limit && forall|i: int|
                        0 <= i < data.hotspots@.len() ==> (#[trigger] data.hotspots@[i]).cumulative
                            >= function_total(hits(p), p.function[v.function].id, false)
            },
{
    let hs = hits(p);
    let n = p.function.len() as int;
    assert(p.function.take(n) =~= p.function);
    let ids = choose|ids: Seq<u64>| #[trigger]
        ranking(hs, ids, limit) && ids.len() == data.hotspots@.len() && forall|i: int|
            0 <= i < ids.len() ==> is_hotspot(#[trigger] data.hotspots@[i], p, hs, ids[i], i + 1);
    let functions = Seq::new(
        ids.len(),
        |i: int| choose|at: int| #[trigger] is_last_function(p, ids[i], at),
    );
    assert forall|i: int| 0 <= i < ids.len() implies is_last_function(
        p,
        ids[i],
        #[trigger] functions[i],
    ) && function_with(p.function, ids[i]) == Some(p.function[functions[i]]) && is_hotspot(
        data.hotspots@[i],
        p,
        hs,
        ids[i],
        i + 1,
    ) by {
        assert(is_hotspot(data.hotspots@[i], p, hs, ids[i], i + 1));
        lemma_function_at(p, n, ids[i]);
        lemma_last_unique(p, ids[i]);
    }
    assert forall|i: int| 0 <= i < data.hotspots@.len() implies (#[trigger] data.hotspots@[i]).rank
        == i + 1 && data.hotspots@[i].cumulative == function_total(hs, ids[i], false) by {
        assert(is_last_function(p, ids[i], functions[i]));
    }
    assert(functions.no_duplicates()) by {
        assert forall|i: int, j: int|
            0 <= i < functions.len() && 0 <= j < functions.len() && i != j implies functions[i]
            != functions[j] by {
            assert(ids[i] != ids[j]);
        }
    }
    let visits = lemma_sample_visits(p, p.sample.len() as int, selection(p).index);
    assert(p.sample.take(p.sample.len() as int) =~= p.sample);
    assert forall|v: Visit| #[trigger]
        is_visited(p, v) && !functions.contains(v.function) implies data.hotspots@.len() == limit
        && forall|i: int|
        0 <= i < data.hotspots@.len() ==> (#[trigger] data.hotspots@[i]).cumulative
            >= function_total(hs, p.function[v.function].id, false) by {
        assert(visits.contains(v));
        let k = choose|k: int| 0 <= k < visits.len() && visits[k] == v;
        let id = p.function[v.function].id;
        assert(is_hit_of(hs[k], p, visits[k], selection(p).index));
        assert(hs[k].function == id);
        assert(touches_function(hs, id));
        assert(!ids.contains(id)) by {
            if ids.contains(id) {
                let i = choose|i: int| 0 <= i < ids.len() && ids[i] == id;
                assert(is_last_function(p, ids[i], functions[i]));
                lemma_last_unique(p, id);
                assert(functions[i] == v.function);
            }
        }
        assert forall|i: int| 0 <= i < data.hotspots@.len() implies (
        #[trigger] data.hotspots@[i]).cumulative >= function_total(hs, id, false) by {
            assert(function_total(hs, ids[i], false) >= function_total(hs, id, false));
        }
    }
    assert(functions.len() == data.hotspots@.len());
}

/// A column has these labels.
pub open spec fn is_labelled(p: ProfileModel, i: int, kind: Seq<char>, unit: Seq<char>) -> bool {
    &&& 0 <= i < p.sample_type.len()
    &&& 0 <= p.sample_type[i].type_ < p.string_table.len()
    &&& p.string_table[p.sample_type[i].type_ as int] == kind
    &&& 0 <= p.sample_type[i].unit < p.string_table.len()
    &&& p.string_table[p.sample_type[i].unit as int] == unit
}

/// Some column has these labels.
pub open spec fn has_column(p: ProfileModel, kind: Seq<char>, unit: Seq<char>) -> bool {
    exists|i: int| #[trigger] is_labelled(p, i, kind, unit)
}

/// The selection is the first column with these labels.
pub open spec fn selects(
    p: ProfileModel,
    profile_type: ProfileType,
    kind: Seq<char>,
    unit: Seq<char>,
    value_unit: ValueUnit,
) -> bool {
    &&& selection(p).profile_type == profile_type
    &&& selection(p).label == kind
    &&& selection(p).unit == value_unit
    &&& is_labelled(p, selection(p).index as int, kind, unit)
    &&& forall|k: int| #[trigger] is_labelled(p, k, kind, unit) ==> selection(p).index <= k
}

/// Some column counts contentions.
pub open spec fn counts_contentions(p: ProfileModel) -> bool {
    exists|i: int|
        0 <= i < p.sample_type.len() && 0 <= (#[trigger] p.sample_type[i]).type_
            < p.string_table.len() && p.string_table[p.sample_type[i].type_ as int]
            == "contentions"@
}

proof fn lemma_matches_labelled(p: ProfileModel, rule: nat, i: int)
    requires
        0 <= i < p.sample_type.len(),
        rule < RULE_COUNT,
    ensures
        rule != 3 && rule != 4 ==> (matches_rule(p, rule, p.sample_type[i]) <==> is_labelled(
            p,
            i,
            rule_labels(rule).1,
            rule_labels(rule).2,
        )),
        rule == 3 || rule == 4 ==> (matches_rule(p, rule, p.sample_type[i]) <==> is_labelled(
            p,
            i,
            rule_labels(rule).1,
            rule_labels(rule).2,
        ) && counts_contentions(p)),
{
    reveal_strlit("cpu");
    reveal_strlit("nanoseconds");
    reveal_strlit("inuse_space");
    reveal_strlit("bytes");
    reveal_strlit("alloc_space");
    reveal_strlit("delay");
    reveal_strlit("goroutine");
    reveal_strlit("count");
    reveal_strlit("contentions");
    assert(rule_labels(rule).1.len() > 0 && rule_labels(rule).2.len() > 0);
    let column = p.sample_type[i];
    assert(string_at(p, column.type_).len() > 0 ==> 0 <= column.type_ < p.string_table.len());
    assert(string_at(p, column.unit).len() > 0 ==> 0 <= column.unit < p.string_table.len());
    if has_contentions(p) {
        let k = choose|k: int|
            0 <= k < p.sample_type.len() && string_at(p, (#[trigger] p.sample_type[k]).type_)
                == "contentions"@;
        assert(string_at(p, p.sample_type[k].type_).len() > 0);
        assert(counts_contentions(p));
    }
    if counts_contentions(p) {
        let k = choose|k: int|
            0 <= k < p.sample_type.len() && 0 <= (#[trigger] p.sample_type[k]).type_
                < p.string_table.len() && p.string_table[p.sample_type[k].type_ as int]
                == "contentions"@;
        assert(string_at(p, p.sample_type[k].type_) == "contentions"@);
    }
}

proof fn lemma_rule_selects(p: ProfileModel, rule: nat)
    requires
        rule < RULE_COUNT,
        first_of(p, rule, 0) is Some,
        forall|r: nat| r < rule ==> first_of(p, r, 0) is None,
    ensures
        selects(
            p,
            rule_labels(rule).0,
            rule_labels(rule).1,
            rule_labels(rule).2,
            unit_named(rule_labels(rule).2),
        ),
{
    lemma_first_rule(p, 0, rule);
    lemma_first_of(p, rule, 0);
    let at = first_of(p, rule, 0).unwrap() as int;
    lemma_matches_labelled(p, rule, at);
    assert forall|k: int| #[trigger]
        is_labelled(p, k, rule_labels(rule).1, rule_labels(rule).2) implies at <= k by {
        lemma_matches_labelled(p, rule, k);
        lemma_matches_labelled(p, rule, at);
    }
}

proof fn lemma_rule_found(p: ProfileModel, rule: nat)
    requires
        rule < RULE_COUNT,
    ensures
        first_of(p, rule, 0) is Some <==> has_column(p, rule_labels(rule).1, rule_labels(rule).2)
            && (rule == 3 || rule == 4 ==> counts_contentions(p)),
{
    lemma_first_of(p, rule, 0);
    if first_of(p, rule, 0) is Some {
        let at = first_of(p, rule, 0).unwrap() as int;
        lemma_matches_labelled(p, rule, at);
    }
    if has_column(p, rule_labels(rule).1, rule_labels(rule).2) && (rule == 3 || rule == 4
        ==> counts_contentions(p)) {
        let k = choose|k: int| #[trigger]
            is_labelled(p, k, rule_labels(rule).1, rule_labels(rule).2);
        lemma_matches_labelled(p, rule, k);
    }
}

/// What a profile is taken for: processor time before memory in use, that before allocated
/// memory, that before a delay (where contentions are counted too), and that before
/// goroutines; the first column with the labels is used. Where there is none of them, the
/// last column is used under its own labels.
pub proof fn lemma_selection(p: ProfileModel)
    ensures
        if has_column(p, "cpu"@, "nanoseconds"@) {
            selects(p, ProfileType::Cpu, "cpu"@, "nanoseconds"@, ValueUnit::Nanoseconds)
        } else if has_column(p, "inuse_space"@, "bytes"@) {
            selects(p, ProfileType::Heap, "inuse_space"@, "bytes"@, ValueUnit::Bytes)
        } else if has_column(p, "alloc_space"@, "bytes"@) {
            selects(p, ProfileType::Allocs, "alloc_space"@, "bytes"@, ValueUnit::Bytes)
        } else if has_column(p, "delay"@, "nanoseconds"@) && counts_contentions(p) {
            selects(p, ProfileType::Block, "delay"@, "nanoseconds"@, ValueUnit::Nanoseconds)
        } else if has_column(p, "goroutine"@, "count"@) {
            selects(p, ProfileType::Goroutine, "goroutine"@, "count"@, ValueUnit::Count)
        } else {
            &&& selection(p).profile_type == ProfileType::Unknown
            &&& p.sample_type.len() == 0 ==> selection(p).index == 0 && selection(p).label
                == "unknown"@ && selection(p).unit == ValueUnit::Count
            &&& p.sample_type.len() > 0 ==> {
                let last = p.sample_type.last();
                &&& selection(p).index == p.sample_type.len() - 1
                &&& 0 <= last.type_ < p.string_table.len() ==> selection(p).label
                    == p.string_table[last.type_ as int]
                &&& !(0 <= last.type_ < p.string_table.len()) ==> selection(p).label.len() == 0
                &&& selection(p).unit == ValueUnit::Nanoseconds <==> 0 <= last.unit
                    < p.string_table.len() && p.string_table[last.unit as int] == "nanoseconds"@
                &&& selection(p).unit == ValueUnit::Bytes <==> 0 <= last.unit < p.string_table.len()
                    && p.string_table[last.unit as int] == "bytes"@
            }
        },
{
    reveal_strlit("nanoseconds");
    reveal_strlit("bytes");
    reveal_strlit("count");
    lemma_rule_found(p, 0);
    lemma_rule_found(p, 1);
    lemma_rule_found(p, 2);
    lemma_rule_found(p, 3);
    lemma_rule_found(p, 4);
    lemma_rule_found(p, 5);
    assert("count"@ != "bytes"@ && "count"@ != "nanoseconds"@ && "bytes"@ != "nanoseconds"@) by {
        assert("count"@[0] == 'c' && "bytes"@[0] == 'b' && "nanoseconds"@[0] == 'n');
    }
    if has_column(p, "cpu"@, "nanoseconds"@) {
        lemma_rule_selects(p, 0);
    } else if has_column(p, "inuse_space"@, "bytes"@) {
        lemma_rule_selects(p, 1);
    } else if has_column(p, "alloc_space"@, "bytes"@) {
        lemma_rule_selects(p, 2);
    } else if has_column(p, "delay"@, "nanoseconds"@) && counts_contentions(p) {
        lemma_rule_selects(p, 3);
    } else if has_column(p, "goroutine"@, "count"@) {
        assert(first_of(p, 3, 0) is None && first_of(p, 4, 0) is None);
        lemma_rule_selects(p, 5);
    } else {
        reveal_with_fuel(first_rule, 7);
        if p.sample_type.len() > 0 {
            let last = p.sample_type.last();
            assert(string_at(p, last.unit).len() == 0 || string_at(p, last.unit)
                == p.string_table[last.unit as int]);
        }
    }
}

/// The total of the samples is the sum of their values in the column, where they have one.
pub proof fn lemma_total_of(samples: Seq<SampleModel>, sample: SampleModel, column: nat)
    ensures
        total_of(seq![], column) == 0,
        column < sample.value.len() ==> total_of(samples.push(sample), column) == total_of(
            samples,
            column,
        ) + sample.value[column as int],
        column >= sample.value.len() ==> total_of(samples.push(sample), column) == total_of(
            samples,
            column,
        ),
{
    assert(samples.push(sample).drop_last() =~= samples);
}

/// A profile is refused only where a running sum leaves the range of 64 bits: that of the
/// samples' values, that of a line or that of a function.
pub proof fn lemma_sums_fit(p: ProfileModel)
    ensures
        sums_fit(p) <==> {
            &&& forall|k: int|
                0 <= k <= p.sample.len() ==> -0x8000_0000_0000_0000 <= total_of(
                    #[trigger] p.sample.take(k),
                    selection(p).index,
                ) <= 0x7fff_ffff_ffff_ffff
            &&& forall|k: int, file: Seq<char>, line: u64, flat: bool|
                0 <= k <= hits(p).len() ==> -0x8000_0000_0000_0000 <= #[trigger] line_total(
                    hits(p).take(k),
                    file,
                    line,
                    flat,
                ) <= 0x7fff_ffff_ffff_ffff
            &&& forall|k: int, id: u64, flat: bool|
                0 <= k <= hits(p).len() ==> -0x8000_0000_0000_0000 <= #[trigger] function_total(
                    hits(p).take(k),
                    id,
                    flat,
                ) <= 0x7fff_ffff_ffff_ffff
        },
{
    let hs = hits(p);
    if sums_fit(p) {
        assert forall|k: int, file: Seq<char>, line: u64, flat: bool|
            0 <= k <= hs.len() implies -0x8000_0000_0000_0000 <= #[trigger] line_total(
            hs.take(k),
            file,
            line,
            flat,
        ) <= 0x7fff_ffff_ffff_ffff by {
            assert(in_range(hs.take(k)));
            assert(fits(line_total(hs.take(k), file, line, flat)));
        }
        assert forall|k: int, id: u64, flat: bool|
            0 <= k <= hs.len() implies -0x8000_0000_0000_0000 <= #[trigger] function_total(
            hs.take(k),
            id,
            flat,
        ) <= 0x7fff_ffff_ffff_ffff by {
            assert(in_range(hs.take(k)));
            assert(fits(function_total(hs.take(k), id, flat)));
        }
    }
}

} // verus!
