//! Profiles from their bytes: the schema of the pprof messages on top of the
//! wire format.

use crate::proto::empty_location;
use crate::proto::empty_profile;
use crate::proto::empty_sample;
use crate::proto::Function;
use crate::proto::Label;
use crate::proto::Line;
use crate::proto::Location;
use crate::proto::LocationModel;
use crate::proto::Mapping;
use crate::proto::Profile;
use crate::proto::ProfileModel;
use crate::proto::Sample;
use crate::proto::SampleModel;
use crate::proto::ValueType;
use crate::text::read_text;
use crate::wire::field;
use crate::wire::lemma_field_bounds;
use crate::wire::lemma_field_more;
use crate::wire::lemma_varint_bounds;
use crate::wire::read_field;
use crate::wire::read_varint;
use crate::wire::varint;
use crate::wire::Malformed;
use crate::wire::Payload;
use crate::wire::Value;
use vstd::prelude::*;
use vstd::utf8::decode_utf8;
use vstd::utf8::valid_utf8;

verus! {

/// Levels that may still be entered inside a profile.
pub const PROFILE_DEPTH: u32 = 100;

/// Levels that may still be entered inside a message of a profile.
pub const INNER_DEPTH: u32 = 99;

/// Levels that may still be entered inside a label or a line.
pub const INNERMOST_DEPTH: u32 = 98;

/// A varint read as a signed number: two's complement.
pub open spec fn signed(v: u64) -> i64 {
    if v < 0x8000_0000_0000_0000 {
        v as i64
    } else {
        (v - 0x1_0000_0000_0000_0000) as i64
    }
}

pub open spec fn all_signed(vs: Seq<u64>) -> Seq<i64> {
    vs.map_values(|v: u64| signed(v))
}

pub open spec fn zeros(n: nat) -> Seq<u64> {
    Seq::new(n, |i: int| 0u64)
}

/// One field of a message whose fields are all numbers, tagged from 1 on: the
/// number is stored; a field of another kind under such a tag is an error; any
/// other tag is passed over.
pub open spec fn set_scalar(acc: Seq<u64>, tag: nat, p: Payload) -> Result<Seq<u64>, Malformed> {
    if 1 <= tag <= acc.len() {
        match p {
            Payload::Varint(v) => Ok(acc.update(tag - 1, v)),
            _ => Err(Malformed::WireType),
        }
    } else {
        Ok(acc)
    }
}

/// The numbers of such a message, field by field from `acc` on.
pub open spec fn scalars(b: Seq<u8>, depth: nat, acc: Seq<u64>) -> Result<Seq<u64>, Malformed>
    decreases b.len(),
{
    proof {
        lemma_field_bounds(b, depth);
    }
    if b.len() == 0 {
        Ok(acc)
    } else {
        match field(b, depth) {
            Ok((tag, p, end)) => match set_scalar(acc, tag, p) {
                Ok(next) => scalars(b.skip(end as int), depth, next),
                Err(e) => Err(e),
            },
            Err(e) => Err(e),
        }
    }
}

/// Varints one after the other, behind those of `acc`.
pub open spec fn varints(b: Seq<u8>, acc: Seq<u64>) -> Result<Seq<u64>, Malformed>
    decreases b.len(),
{
    proof {
        lemma_varint_bounds(b, 0);
    }
    if b.len() == 0 {
        Ok(acc)
    } else {
        match varint(b) {
            Some((v, end)) => varints(b.skip(end as int), acc.push(v as u64)),
            None => Err(Malformed::Varint),
        }
    }
}

/// Numbers added by one field of a repeated number: one, or several packed.
pub open spec fn repeated(p: Payload, acc: Seq<u64>) -> Result<Seq<u64>, Malformed> {
    match p {
        Payload::Varint(v) => Ok(acc.push(v)),
        Payload::Bytes(b) => varints(b, acc),
        Payload::Skipped => Err(Malformed::WireType),
    }
}

pub open spec fn to_value_type(s: Seq<u64>) -> ValueType {
    ValueType { type_: signed(s[0]), unit: signed(s[1]) }
}

pub open spec fn to_label(s: Seq<u64>) -> Label {
    Label { key: signed(s[0]), str: signed(s[1]), num: signed(s[2]), num_unit: signed(s[3]) }
}

pub open spec fn to_mapping(s: Seq<u64>) -> Mapping {
    Mapping {
        id: s[0],
        memory_start: s[1],
        memory_limit: s[2],
        file_offset: s[3],
        filename: signed(s[4]),
        build_id: signed(s[5]),
        has_functions: s[6] != 0,
        has_filenames: s[7] != 0,
        has_line_numbers: s[8] != 0,
        has_inline_frames: s[9] != 0,
    }
}

pub open spec fn to_line(s: Seq<u64>) -> Line {
    Line { function_id: s[0], line: signed(s[1]) }
}

pub open spec fn to_function(s: Seq<u64>) -> Function {
    Function {
        id: s[0],
        name: signed(s[1]),
        system_name: signed(s[2]),
        filename: signed(s[3]),
        start_line: signed(s[4]),
    }
}

/// One field of a sample.
pub open spec fn set_sample(acc: SampleModel, tag: nat, p: Payload) -> Result<SampleModel, Malformed> {
    if tag == 1 {
        match repeated(p, seq![]) {
            Ok(vs) => Ok(SampleModel { location_id: acc.location_id + vs, ..acc }),
            Err(e) => Err(e),
        }
    } else if tag == 2 {
        match repeated(p, seq![]) {
            Ok(vs) => Ok(SampleModel { value: acc.value + all_signed(vs), ..acc }),
            Err(e) => Err(e),
        }
    } else if tag == 3 {
        match p {
            Payload::Bytes(b) => match scalars(b, INNERMOST_DEPTH as nat, zeros(4)) {
                Ok(s) => Ok(SampleModel { label: acc.label.push(to_label(s)), ..acc }),
                Err(e) => Err(e),
            },
            _ => Err(Malformed::WireType),
        }
    } else {
        Ok(acc)
    }
}

/// A sample, field by field from `acc` on.
pub open spec fn sample_of(b: Seq<u8>, acc: SampleModel) -> Result<SampleModel, Malformed>
    decreases b.len(),
{
    proof {
        lemma_field_bounds(b, INNER_DEPTH as nat);
    }
    if b.len() == 0 {
        Ok(acc)
    } else {
        match field(b, INNER_DEPTH as nat) {
            Ok((tag, p, end)) => match set_sample(acc, tag, p) {
                Ok(next) => sample_of(b.skip(end as int), next),
                Err(e) => Err(e),
            },
            Err(e) => Err(e),
        }
    }
}

/// One field of a location.
pub open spec fn set_location(acc: LocationModel, tag: nat, p: Payload) -> Result<LocationModel, Malformed> {
    if tag == 1 {
        match p {
            Payload::Varint(v) => Ok(LocationModel { id: v, ..acc }),
            _ => Err(Malformed::WireType),
        }
    } else if tag == 2 {
        match p {
            Payload::Varint(v) => Ok(LocationModel { mapping_id: v, ..acc }),
            _ => Err(Malformed::WireType),
        }
    } else if tag == 3 {
        match p {
            Payload::Varint(v) => Ok(LocationModel { address: v, ..acc }),
            _ => Err(Malformed::WireType),
        }
    } else if tag == 4 {
        match p {
            Payload::Bytes(b) => match scalars(b, INNERMOST_DEPTH as nat, zeros(2)) {
                Ok(s) => Ok(LocationModel { line: acc.line.push(to_line(s)), ..acc }),
                Err(e) => Err(e),
            },
            _ => Err(Malformed::WireType),
        }
    } else if tag == 5 {
        match p {
            Payload::Varint(v) => Ok(LocationModel { is_folded: v != 0, ..acc }),
            _ => Err(Malformed::WireType),
        }
    } else {
        Ok(acc)
    }
}

/// A location, field by field from `acc` on.
pub open spec fn location_of(b: Seq<u8>, acc: LocationModel) -> Result<LocationModel, Malformed>
    decreases b.len(),
{
    proof {
        lemma_field_bounds(b, INNER_DEPTH as nat);
    }
    if b.len() == 0 {
        Ok(acc)
    } else {
        match field(b, INNER_DEPTH as nat) {
            Ok((tag, p, end)) => match set_location(acc, tag, p) {
                Ok(next) => location_of(b.skip(end as int), next),
                Err(e) => Err(e),
            },
            Err(e) => Err(e),
        }
    }
}

/// The numbers from which a value type that may be set already is merged.
pub open spec fn value_type_scalars(v: Option<ValueType>) -> Seq<u64> {
    match v {
        Some(v) => seq![unsigned(v.type_), unsigned(v.unit)],
        None => zeros(2),
    }
}

/// The varint that reads as `v`.
pub open spec fn unsigned(v: i64) -> u64 {
    if v >= 0 {
        v as u64
    } else {
        (v + 0x1_0000_0000_0000_0000) as u64
    }
}

/// One field of a profile that holds a message or a string.
pub open spec fn set_profile_bytes(acc: ProfileModel, tag: nat, b: Seq<u8>) -> Result<ProfileModel, Malformed> {
    if tag == 1 {
        match scalars(b, INNER_DEPTH as nat, zeros(2)) {
            Ok(s) => Ok(
                ProfileModel { sample_type: acc.sample_type.push(to_value_type(s)), ..acc },
            ),
            Err(e) => Err(e),
        }
    } else if tag == 2 {
        match sample_of(b, empty_sample()) {
            Ok(s) => Ok(ProfileModel { sample: acc.sample.push(s), ..acc }),
            Err(e) => Err(e),
        }
    } else if tag == 3 {
        match scalars(b, INNER_DEPTH as nat, zeros(10)) {
            Ok(s) => Ok(ProfileModel { mapping: acc.mapping.push(to_mapping(s)), ..acc }),
            Err(e) => Err(e),
        }
    } else if tag == 4 {
        match location_of(b, empty_location()) {
            Ok(l) => Ok(ProfileModel { location: acc.location.push(l), ..acc }),
            Err(e) => Err(e),
        }
    } else if tag == 5 {
        match scalars(b, INNER_DEPTH as nat, zeros(5)) {
            Ok(s) => Ok(ProfileModel { function: acc.function.push(to_function(s)), ..acc }),
            Err(e) => Err(e),
        }
    } else if tag == 6 {
        if valid_utf8(b) {
            Ok(ProfileModel { string_table: acc.string_table.push(decode_utf8(b)), ..acc })
        } else {
            Err(Malformed::Unicode)
        }
    } else if tag == 11 {
        match scalars(b, INNER_DEPTH as nat, value_type_scalars(acc.period_type)) {
            Ok(s) => Ok(ProfileModel { period_type: Some(to_value_type(s)), ..acc }),
            Err(e) => Err(e),
        }
    } else {
        Err(Malformed::WireType)
    }
}

/// One field of a profile that holds a number.
pub open spec fn set_profile_number(acc: ProfileModel, tag: nat, v: u64) -> Result<ProfileModel, Malformed> {
    if tag == 7 {
        Ok(ProfileModel { drop_frames: signed(v), ..acc })
    } else if tag == 8 {
        Ok(ProfileModel { keep_frames: signed(v), ..acc })
    } else if tag == 9 {
        Ok(ProfileModel { time_nanos: signed(v), ..acc })
    } else if tag == 10 {
        Ok(ProfileModel { duration_nanos: signed(v), ..acc })
    } else if tag == 12 {
        Ok(ProfileModel { period: signed(v), ..acc })
    } else if tag == 14 {
        Ok(ProfileModel { default_sample_type: signed(v), ..acc })
    } else {
        Err(Malformed::WireType)
    }
}

/// One field of a profile.
pub open spec fn set_profile(acc: ProfileModel, tag: nat, p: Payload) -> Result<ProfileModel, Malformed> {
    if tag > 14 {
        Ok(acc)
    } else if tag == 13 {
        match repeated(p, seq![]) {
            Ok(vs) => Ok(ProfileModel { comment: acc.comment + all_signed(vs), ..acc }),
            Err(e) => Err(e),
        }
    } else {
        match p {
            Payload::Varint(v) => set_profile_number(acc, tag, v),
            Payload::Bytes(b) => set_profile_bytes(acc, tag, b),
            Payload::Skipped => Err(Malformed::WireType),
        }
    }
}

/// A profile, field by field from `acc` on.
pub open spec fn profile_of(b: Seq<u8>, acc: ProfileModel) -> Result<ProfileModel, Malformed>
    decreases b.len(),
{
    proof {
        lemma_field_bounds(b, PROFILE_DEPTH as nat);
    }
    if b.len() == 0 {
        Ok(acc)
    } else {
        match field(b, PROFILE_DEPTH as nat) {
            Ok((tag, p, end)) => match set_profile(acc, tag, p) {
                Ok(next) => profile_of(b.skip(end as int), next),
                Err(e) => Err(e),
            },
            Err(e) => Err(e),
        }
    }
}

/// The profile that `b` encodes, if it encodes one.
pub open spec fn decoded(b: Seq<u8>) -> Result<ProfileModel, Malformed> {
    profile_of(b, empty_profile())
}

fn to_signed(v: u64) -> (r: i64)
    ensures
        r == signed(v),
{
    if v < 0x8000_0000_0000_0000 {
        v as i64
    } else {
        -1 - ((u64::MAX - v) as i64)
    }
}

pub(crate) fn to_unsigned(v: i64) -> (r: u64)
    ensures
        r == unsigned(v),
{
    if v >= 0 {
        v as u64
    } else {
        u64::MAX - ((-1 - v) as u64)
    }
}

fn make_zeros(n: usize) -> (r: Vec<u64>)
    ensures
        r@ == zeros(n as nat),
{
    let mut r: Vec<u64> = Vec::new();
    let mut i: usize = 0;
    while i < n
        invariant
            i <= n,
            r@ == zeros(i as nat),
        decreases n - i,
    {
        r.push(0);
        i = i + 1;
        assert(r@ =~= zeros(i as nat));
    }
    r
}

/// Reads a message whose fields are all numbers.
fn read_scalars(buf: &[u8], depth: u32, start: Vec<u64>) -> (r: Result<Vec<u64>, Malformed>)
    requires
        depth > 0,
    ensures
        match r {
            Ok(s) => scalars(buf@, depth as nat, start@) == Ok::<_, Malformed>(s@) && s@.len() == start@.len(),
            Err(e) => scalars(buf@, depth as nat, start@) matches Err(fault) && fault == e,
        },
{
    let mut acc: Vec<u64> = start;
    let mut cur: &[u8] = buf;
    while cur.len() > 0
        invariant
            depth > 0,
            acc@.len() == start@.len(),
            scalars(buf@, depth as nat, start@) == scalars(cur@, depth as nat, acc@),
        decreases cur@.len(),
    {
        match read_field(cur, depth) {
            Ok((tag, value, rest)) => {
                if 1 <= tag && (tag as u64) <= acc.len() as u64 {
                    match value {
                        Value::Varint(v) => {
                            acc.set(tag as usize - 1, v);
                        },
                        _ => {
                            return Err(Malformed::WireType);
                        },
                    }
                }
                cur = rest;
            },
            Err(e) => {
                return Err(e);
            },
        }
    }
    Ok(acc)
}

/// Reads varints one after the other.
fn read_varints(buf: &[u8]) -> (r: Result<Vec<u64>, Malformed>)
    ensures
        match r {
            Ok(vs) => varints(buf@, seq![]) == Ok::<_, Malformed>(vs@),
            Err(e) => varints(buf@, seq![]) matches Err(fault) && fault == e,
        },
{
    let mut acc: Vec<u64> = Vec::new();
    let mut cur: &[u8] = buf;
    assert(acc@ =~= seq![]);
    while cur.len() > 0
        invariant
            varints(buf@, seq![]) == varints(cur@, acc@),
        decreases cur@.len(),
    {
        proof {
            lemma_varint_bounds(cur@, 0);
        }
        match read_varint(cur) {
            Ok((v, rest)) => {
                acc.push(v);
                cur = rest;
            },
            Err(_) => {
                return Err(Malformed::Varint);
            },
        }
    }
    Ok(acc)
}

/// Reads one field of a repeated number.
fn read_repeated(value: Value) -> (r: Result<Vec<u64>, Malformed>)
    ensures
        match r {
            Ok(vs) => repeated(value.payload(), seq![]) == Ok::<_, Malformed>(vs@),
            Err(e) => repeated(value.payload(), seq![]) matches Err(fault) && fault == e,
        },
{
    match value {
        Value::Varint(v) => {
            let mut one: Vec<u64> = Vec::new();
            one.push(v);
            assert(one@ =~= Seq::<u64>::empty().push(v));
            Ok(one)
        },
        Value::Bytes(b) => read_varints(b),
        Value::Skipped => Err(Malformed::WireType),
    }
}

fn append_unsigned(out: &mut Vec<u64>, vs: &Vec<u64>)
    ensures
        final(out)@ == old(out)@ + vs@,
{
    let mut i: usize = 0;
    while i < vs.len()
        invariant
            i <= vs.len(),
            out@ == old(out)@ + vs@.take(i as int),
        decreases vs.len() - i,
    {
        out.push(vs[i]);
        i = i + 1;
        assert(out@ =~= old(out)@ + vs@.take(i as int));
    }
    assert(vs@.take(vs.len() as int) =~= vs@);
}

fn append_signed(out: &mut Vec<i64>, vs: &Vec<u64>)
    ensures
        final(out)@ == old(out)@ + all_signed(vs@),
{
    let mut i: usize = 0;
    while i < vs.len()
        invariant
            i <= vs.len(),
            out@ == old(out)@ + all_signed(vs@.take(i as int)),
        decreases vs.len() - i,
    {
        out.push(to_signed(vs[i]));
        i = i + 1;
        assert(out@ =~= old(out)@ + all_signed(vs@.take(i as int)));
    }
    assert(vs@.take(vs.len() as int) =~= vs@);
}

/// Reads one field of a sample.
fn read_sample_field(acc: &mut Sample, tag: u32, value: Value) -> (r: Result<(), Malformed>)
    ensures
        match r {
            Ok(_) => set_sample(old(acc).deep_view(), tag as nat, value.payload()) == Ok::<
                _,
                Malformed,
            >(final(acc).deep_view()),
            Err(e) => set_sample(old(acc).deep_view(), tag as nat, value.payload()) matches Err(
                fault,
            ) && fault == e,
        },
{
    if tag == 1 {
        match read_repeated(value) {
            Ok(vs) => append_unsigned(&mut acc.location_id, &vs),
            Err(e) => {
                return Err(e);
            },
        }
    } else if tag == 2 {
        match read_repeated(value) {
            Ok(vs) => append_signed(&mut acc.value, &vs),
            Err(e) => {
                return Err(e);
            },
        }
    } else if tag == 3 {
        match value {
            Value::Bytes(b) => match read_scalars(b, INNERMOST_DEPTH, make_zeros(4)) {
                Ok(s) => acc.label.push(
                    Label {
                        key: to_signed(s[0]),
                        str: to_signed(s[1]),
                        num: to_signed(s[2]),
                        num_unit: to_signed(s[3]),
                    },
                ),
                Err(e) => {
                    return Err(e);
                },
            },
            _ => {
                return Err(Malformed::WireType);
            },
        }
    }
    Ok(())
}

/// Reads a sample.
fn read_sample(buf: &[u8]) -> (r: Result<Sample, Malformed>)
    ensures
        match r {
            Ok(s) => sample_of(buf@, empty_sample()) == Ok::<_, Malformed>(s.deep_view()),
            Err(e) => sample_of(buf@, empty_sample()) matches Err(fault) && fault == e,
        },
{
    let mut acc: Sample = Sample::default();
    let mut cur: &[u8] = buf;
    while cur.len() > 0
        invariant
            sample_of(buf@, empty_sample()) == sample_of(cur@, acc.deep_view()),
        decreases cur@.len(),
    {
        match read_field(cur, INNER_DEPTH) {
            Ok((tag, value, rest)) => {
                match read_sample_field(&mut acc, tag, value) {
                    Ok(_) => {},
                    Err(e) => {
                        return Err(e);
                    },
                }
                cur = rest;
            },
            Err(e) => {
                return Err(e);
            },
        }
    }
    Ok(acc)
}

/// Reads one field of a location.
fn read_location_field(acc: &mut Location, tag: u32, value: Value) -> (r: Result<(), Malformed>)
    ensures
        match r {
            Ok(_) => set_location(old(acc).deep_view(), tag as nat, value.payload()) == Ok::<
                _,
                Malformed,
            >(final(acc).deep_view()),
            Err(e) => set_location(old(acc).deep_view(), tag as nat, value.payload()) matches Err(
                fault,
            ) && fault == e,
        },
{
    if tag == 4 {
        match value {
            Value::Bytes(b) => match read_scalars(b, INNERMOST_DEPTH, make_zeros(2)) {
                Ok(s) => {
                    acc.line.push(Line { function_id: s[0], line: to_signed(s[1]) });
                    Ok(())
                },
                Err(e) => Err(e),
            },
            _ => Err(Malformed::WireType),
        }
    } else if tag == 1 || tag == 2 || tag == 3 || tag == 5 {
        match value {
            Value::Varint(v) => {
                if tag == 1 {
                    acc.id = v;
                } else if tag == 2 {
                    acc.mapping_id = v;
                } else if tag == 3 {
                    acc.address = v;
                } else {
                    acc.is_folded = v != 0;
                }
                Ok(())
            },
            _ => Err(Malformed::WireType),
        }
    } else {
        Ok(())
    }
}

/// Reads a location.
fn read_location(buf: &[u8]) -> (r: Result<Location, Malformed>)
    ensures
        match r {
            Ok(l) => location_of(buf@, empty_location()) == Ok::<_, Malformed>(l.deep_view()),
            Err(e) => location_of(buf@, empty_location()) matches Err(fault) && fault == e,
        },
{
    let mut acc: Location = Location::default();
    let mut cur: &[u8] = buf;
    while cur.len() > 0
        invariant
            location_of(buf@, empty_location()) == location_of(cur@, acc.deep_view()),
        decreases cur@.len(),
    {
        match read_field(cur, INNER_DEPTH) {
            Ok((tag, value, rest)) => {
                match read_location_field(&mut acc, tag, value) {
                    Ok(_) => {},
                    Err(e) => {
                        return Err(e);
                    },
                }
                cur = rest;
            },
            Err(e) => {
                return Err(e);
            },
        }
    }
    Ok(acc)
}

/// Reads one field of a profile that holds a message or a string.
fn read_profile_bytes(acc: &mut Profile, tag: u32, b: &[u8]) -> (r: Result<(), Malformed>)
    ensures
        match r {
            Ok(_) => set_profile_bytes(old(acc)@, tag as nat, b@) == Ok::<_, Malformed>(final(acc)@),
            Err(e) => set_profile_bytes(old(acc)@, tag as nat, b@) matches Err(fault)
                && fault == e,
        },
{
    if tag == 1 {
        match read_scalars(b, INNER_DEPTH, make_zeros(2)) {
            Ok(s) => {
                acc.sample_type.push(ValueType { type_: to_signed(s[0]), unit: to_signed(s[1]) });
                Ok(())
            },
            Err(e) => Err(e),
        }
    } else if tag == 2 {
        match read_sample(b) {
            Ok(s) => {
                acc.sample.push(s);
                assert(acc.sample.deep_view() =~= old(acc).sample.deep_view().push(s.deep_view()));
                Ok(())
            },
            Err(e) => Err(e),
        }
    } else if tag == 3 {
        match read_scalars(b, INNER_DEPTH, make_zeros(10)) {
            Ok(s) => {
                acc.mapping.push(
                    Mapping {
                        id: s[0],
                        memory_start: s[1],
                        memory_limit: s[2],
                        file_offset: s[3],
                        filename: to_signed(s[4]),
                        build_id: to_signed(s[5]),
                        has_functions: s[6] != 0,
                        has_filenames: s[7] != 0,
                        has_line_numbers: s[8] != 0,
                        has_inline_frames: s[9] != 0,
                    },
                );
                Ok(())
            },
            Err(e) => Err(e),
        }
    } else if tag == 4 {
        match read_location(b) {
            Ok(l) => {
                acc.location.push(l);
                assert(acc.location.deep_view() =~= old(acc).location.deep_view().push(
                    l.deep_view(),
                ));
                Ok(())
            },
            Err(e) => Err(e),
        }
    } else if tag == 5 {
        match read_scalars(b, INNER_DEPTH, make_zeros(5)) {
            Ok(s) => {
                acc.function.push(
                    Function {
                        id: s[0],
                        name: to_signed(s[1]),
                        system_name: to_signed(s[2]),
                        filename: to_signed(s[3]),
                        start_line: to_signed(s[4]),
                    },
                );
                Ok(())
            },
            Err(e) => Err(e),
        }
    } else if tag == 6 {
        match read_text(b) {
            Some(s) => {
                acc.string_table.push(s);
                assert(acc.string_table.deep_view() =~= old(acc).string_table.deep_view().push(
                    s.deep_view(),
                ));
                Ok(())
            },
            None => Err(Malformed::Unicode),
        }
    } else if tag == 11 {
        let mut start: Vec<u64> = make_zeros(2);
        match acc.period_type {
            Some(v) => {
                start.set(0, to_unsigned(v.type_));
                start.set(1, to_unsigned(v.unit));
            },
            None => {},
        }
        assert(start@ =~= value_type_scalars(old(acc)@.period_type));
        match read_scalars(b, INNER_DEPTH, start) {
            Ok(s) => {
                acc.period_type = Some(
                    ValueType { type_: to_signed(s[0]), unit: to_signed(s[1]) },
                );
                Ok(())
            },
            Err(e) => Err(e),
        }
    } else {
        Err(Malformed::WireType)
    }
}

/// Reads one field of a profile that holds a number.
fn read_profile_number(acc: &mut Profile, tag: u32, v: u64) -> (r: Result<(), Malformed>)
    ensures
        match r {
            Ok(_) => set_profile_number(old(acc)@, tag as nat, v) == Ok::<_, Malformed>(final(acc)@),
            Err(e) => set_profile_number(old(acc)@, tag as nat, v) matches Err(fault)
                && fault == e,
        },
{
    if tag == 7 {
        acc.drop_frames = to_signed(v);
    } else if tag == 8 {
        acc.keep_frames = to_signed(v);
    } else if tag == 9 {
        acc.time_nanos = to_signed(v);
    } else if tag == 10 {
        acc.duration_nanos = to_signed(v);
    } else if tag == 12 {
        acc.period = to_signed(v);
    } else if tag == 14 {
        acc.default_sample_type = to_signed(v);
    } else {
        return Err(Malformed::WireType);
    }
    Ok(())
}

/// Reads one field of a profile.
fn read_profile_field(acc: &mut Profile, tag: u32, value: Value) -> (r: Result<(), Malformed>)
    ensures
        match r {
            Ok(_) => set_profile(old(acc)@, tag as nat, value.payload()) == Ok::<_, Malformed>(final(acc)@),
            Err(e) => set_profile(old(acc)@, tag as nat, value.payload()) matches Err(fault)
                && fault == e,
        },
{
    if tag > 14 {
        Ok(())
    } else if tag == 13 {
        match read_repeated(value) {
            Ok(vs) => {
                append_signed(&mut acc.comment, &vs);
                Ok(())
            },
            Err(e) => Err(e),
        }
    } else {
        match value {
            Value::Varint(v) => read_profile_number(acc, tag, v),
            Value::Bytes(b) => read_profile_bytes(acc, tag, b),
            Value::Skipped => Err(Malformed::WireType),
        }
    }
}

/// Decodes a profile from its protobuf encoding.
pub fn decode_profile(bytes: &[u8]) -> (r: Result<Profile, Malformed>)
    ensures
        match r {
            Ok(p) => decoded(bytes@) == Ok::<_, Malformed>(p@),
            Err(e) => decoded(bytes@) matches Err(fault) && fault == e,
        },
{
    let mut acc: Profile = Profile::default();
    let mut cur: &[u8] = bytes;
    while cur.len() > 0
        invariant
            decoded(bytes@) == profile_of(cur@, acc@),
        decreases cur@.len(),
    {
        match read_field(cur, PROFILE_DEPTH) {
            Ok((tag, value, rest)) => {
                match read_profile_field(&mut acc, tag, value) {
                    Ok(_) => {},
                    Err(e) => {
                        return Err(e);
                    },
                }
                cur = rest;
            },
            Err(e) => {
                return Err(e);
            },
        }
    }
    Ok(acc)
}

/// A number below `2^63` reads as it is, any other as what it lacks to `2^64`; every signed
/// number has one that reads as it.
pub proof fn lemma_two_complement(v: u64, n: i64)
    ensures
        v <= 0x7fff_ffff_ffff_ffff ==> signed(v) == v,
        v > 0x7fff_ffff_ffff_ffff ==> signed(v) == v - 0x1_0000_0000_0000_0000,
        signed(unsigned(n)) == n,
        unsigned(signed(v)) == v,
        n >= 0 ==> unsigned(n) == n,
{
}

/// What one field does to a profile: numbers are replaced, strings and comments are added,
/// and all else stays; a field of the wrong kind is refused, and a tag that the format
/// does not define is passed over.
pub proof fn lemma_profile_fields(acc: ProfileModel, v: u64, b: Seq<u8>, tag: nat)
    ensures
        set_profile(acc, 7, Payload::Varint(v)) == Ok::<_, Malformed>(
            ProfileModel { drop_frames: signed(v), ..acc },
        ),
        set_profile(acc, 8, Payload::Varint(v)) == Ok::<_, Malformed>(
            ProfileModel { keep_frames: signed(v), ..acc },
        ),
        set_profile(acc, 9, Payload::Varint(v)) == Ok::<_, Malformed>(
            ProfileModel { time_nanos: signed(v), ..acc },
        ),
        set_profile(acc, 10, Payload::Varint(v)) == Ok::<_, Malformed>(
            ProfileModel { duration_nanos: signed(v), ..acc },
        ),
        set_profile(acc, 12, Payload::Varint(v)) == Ok::<_, Malformed>(
            ProfileModel { period: signed(v), ..acc },
        ),
        set_profile(acc, 13, Payload::Varint(v)) == Ok::<_, Malformed>(
            ProfileModel { comment: acc.comment.push(signed(v)), ..acc },
        ),
        set_profile(acc, 14, Payload::Varint(v)) == Ok::<_, Malformed>(
            ProfileModel { default_sample_type: signed(v), ..acc },
        ),
        valid_utf8(b) ==> set_profile(acc, 6, Payload::Bytes(b)) == Ok::<_, Malformed>(
            ProfileModel { string_table: acc.string_table.push(decode_utf8(b)), ..acc },
        ),
        !valid_utf8(b) ==> set_profile(acc, 6, Payload::Bytes(b)) == Err::<ProfileModel, _>(
            Malformed::Unicode,
        ),
        1 <= tag <= 6 || tag == 11 ==> set_profile(acc, tag, Payload::Varint(v)) == Err::<
            ProfileModel,
            _,
        >(Malformed::WireType),
        7 <= tag <= 10 || tag == 12 || tag == 14 ==> set_profile(acc, tag, Payload::Bytes(b))
            == Err::<ProfileModel, _>(Malformed::WireType),
        1 <= tag <= 14 ==> set_profile(acc, tag, Payload::Skipped) == Err::<ProfileModel, _>(
            Malformed::WireType,
        ),
        tag > 14 ==> set_profile(acc, tag, Payload::Varint(v)) == Ok::<_, Malformed>(acc)
            && set_profile(acc, tag, Payload::Bytes(b)) == Ok::<_, Malformed>(acc) && set_profile(
            acc,
            tag,
            Payload::Skipped,
        ) == Ok::<_, Malformed>(acc),
{
    let one = Seq::<u64>::empty().push(v);
    assert(all_signed(one) =~= seq![signed(v)]);
    assert(acc.comment + all_signed(one) =~= acc.comment.push(signed(v)));
}

/// A message inside a profile is added behind those of its kind; the others stay.
pub proof fn lemma_profile_messages(acc: ProfileModel, b: Seq<u8>)
    ensures
        set_profile(acc, 1, Payload::Bytes(b)) matches Ok(next) ==> next.sample_type.len()
            == acc.sample_type.len() + 1 && next == (ProfileModel {
            sample_type: acc.sample_type.push(next.sample_type.last()),
            ..acc
        }),
        set_profile(acc, 2, Payload::Bytes(b)) matches Ok(next) ==> sample_of(b, empty_sample())
            == Ok::<_, Malformed>(next.sample.last()) && next == (ProfileModel {
            sample: acc.sample.push(next.sample.last()),
            ..acc
        }),
        set_profile(acc, 3, Payload::Bytes(b)) matches Ok(next) ==> next == (ProfileModel {
            mapping: acc.mapping.push(next.mapping.last()),
            ..acc
        }),
        set_profile(acc, 4, Payload::Bytes(b)) matches Ok(next) ==> location_of(
            b,
            empty_location(),
        ) == Ok::<_, Malformed>(next.location.last()) && next == (ProfileModel {
            location: acc.location.push(next.location.last()),
            ..acc
        }),
        set_profile(acc, 5, Payload::Bytes(b)) matches Ok(next) ==> next == (ProfileModel {
            function: acc.function.push(next.function.last()),
            ..acc
        }),
        set_profile(acc, 11, Payload::Bytes(b)) matches Ok(next) ==> next.period_type is Some
            && next == (ProfileModel { period_type: next.period_type, ..acc }),
        set_profile(acc, 2, Payload::Bytes(b)) is Ok <==> sample_of(b, empty_sample()) is Ok,
        set_profile(acc, 4, Payload::Bytes(b)) is Ok <==> location_of(b, empty_location()) is Ok,
{
}

/// What one field does to a sample: locations and values are added one by one, or several
/// at once; what the format does not define is passed over.
pub proof fn lemma_sample_fields(acc: SampleModel, v: u64, tag: nat, p: Payload)
    ensures
        set_sample(acc, 1, Payload::Varint(v)) == Ok::<_, Malformed>(
            SampleModel { location_id: acc.location_id.push(v), ..acc },
        ),
        set_sample(acc, 2, Payload::Varint(v)) == Ok::<_, Malformed>(
            SampleModel { value: acc.value.push(signed(v)), ..acc },
        ),
        tag == 0 || tag > 3 ==> set_sample(acc, tag, p) == Ok::<_, Malformed>(acc),
        set_sample(acc, 3, p) matches Ok(next) ==> next == (SampleModel {
            label: acc.label.push(next.label.last()),
            ..acc
        }),
{
    let one = Seq::<u64>::empty().push(v);
    assert(acc.location_id + one =~= acc.location_id.push(v));
    assert(all_signed(one) =~= seq![signed(v)]);
    assert(acc.value + all_signed(one) =~= acc.value.push(signed(v)));
}

/// What one field does to a location.
pub proof fn lemma_location_fields(acc: LocationModel, v: u64, tag: nat, p: Payload)
    ensures
        set_location(acc, 1, Payload::Varint(v)) == Ok::<_, Malformed>(
            LocationModel { id: v, ..acc },
        ),
        set_location(acc, 2, Payload::Varint(v)) == Ok::<_, Malformed>(
            LocationModel { mapping_id: v, ..acc },
        ),
        set_location(acc, 3, Payload::Varint(v)) == Ok::<_, Malformed>(
            LocationModel { address: v, ..acc },
        ),
        set_location(acc, 5, Payload::Varint(v)) == Ok::<_, Malformed>(
            LocationModel { is_folded: v != 0, ..acc },
        ),
        set_location(acc, 4, p) matches Ok(next) ==> next == (LocationModel {
            line: acc.line.push(next.line.last()),
            ..acc
        }),
        tag == 0 || tag > 5 ==> set_location(acc, tag, p) == Ok::<_, Malformed>(acc),
{
}

/// A message is read field by field: behind a field stands the rest, and without bytes
/// there is nothing more.
pub proof fn lemma_field_by_field(b: Seq<u8>, acc: ProfileModel)
    requires
        b.len() > 0,
    ensures
        profile_of(seq![], acc) == Ok::<_, Malformed>(acc),
        field(b, 100) is Err ==> profile_of(b, acc) is Err,
        field(b, 100) matches Ok((tag, p, end)) ==> match set_profile(acc, tag, p) {
            Ok(next) => profile_of(b, acc) == profile_of(b.skip(end as int), next),
            Err(e) => profile_of(b, acc) == Err::<ProfileModel, Malformed>(e),
        },
{
    lemma_field_bounds(b, PROFILE_DEPTH as nat);
}

/// Two messages behind each other are read as one: the second goes on where the first one
/// ends, so that numbers of the second count and lists are joined.
pub proof fn lemma_messages_merge(a: Seq<u8>, b: Seq<u8>, acc: ProfileModel)
    ensures
        profile_of(a, acc) matches Ok(next) ==> profile_of(a + b, acc) == profile_of(b, next),
    decreases a.len(),
{
    if a.len() == 0 {
        assert(a + b =~= b);
    } else if profile_of(a, acc) is Ok {
        lemma_field_bounds(a, PROFILE_DEPTH as nat);
        lemma_field_more(a, b, PROFILE_DEPTH as nat);
        let (tag, p, end) = field(a, PROFILE_DEPTH as nat).unwrap();
        let next = set_profile(acc, tag, p).unwrap();
        let rest = a.skip(end as int);
        lemma_messages_merge(rest, b, next);
        assert((a + b).skip(end as int) =~= rest + b);
    }
}

/// In a message of numbers a field replaces the number of its tag and no other, the later
/// of two counts, a tag beyond the last one is passed over, and anything but a number under
/// a known tag is refused.
pub proof fn lemma_scalar_fields(acc: Seq<u64>, tag: nat, v: u64, w: u64, b: Seq<u8>, i: int)
    ensures
        1 <= tag <= acc.len() ==> {
            &&& set_scalar(acc, tag, Payload::Varint(v)) is Ok
            &&& set_scalar(acc, tag, Payload::Varint(v)).unwrap().len() == acc.len()
            &&& set_scalar(acc, tag, Payload::Varint(v)).unwrap()[tag - 1] == v
            &&& 0 <= i < acc.len() && i != tag - 1 ==> set_scalar(
                acc,
                tag,
                Payload::Varint(v),
            ).unwrap()[i] == acc[i]
            &&& set_scalar(
                set_scalar(acc, tag, Payload::Varint(v)).unwrap(),
                tag,
                Payload::Varint(w),
            ) == set_scalar(acc, tag, Payload::Varint(w))
            &&& set_scalar(acc, tag, Payload::Bytes(b)) == Err::<Seq<u64>, _>(Malformed::WireType)
            &&& set_scalar(acc, tag, Payload::Skipped) == Err::<Seq<u64>, _>(Malformed::WireType)
        },
        tag == 0 || tag > acc.len() ==> set_scalar(acc, tag, Payload::Varint(v)) == Ok::<
            _,
            Malformed,
        >(acc) && set_scalar(acc, tag, Payload::Bytes(b)) == Ok::<_, Malformed>(acc)
            && set_scalar(acc, tag, Payload::Skipped) == Ok::<_, Malformed>(acc),
{
    if 1 <= tag <= acc.len() {
        assert(acc.update(tag - 1, v).update(tag - 1, w) =~= acc.update(tag - 1, w));
    }
}

/// Which number of a message is which of its parts: those of the functions, of the lines,
/// of the labels, of the mappings and of the value types.
pub proof fn lemma_parts_by_tag(s: Seq<u64>)
    ensures
        to_function(s).id == s[0],
        to_function(s).name == signed(s[1]),
        to_function(s).system_name == signed(s[2]),
        to_function(s).filename == signed(s[3]),
        to_function(s).start_line == signed(s[4]),
        to_line(s).function_id == s[0],
        to_line(s).line == signed(s[1]),
        to_label(s).key == signed(s[0]),
        to_label(s).str == signed(s[1]),
        to_label(s).num == signed(s[2]),
        to_label(s).num_unit == signed(s[3]),
        to_value_type(s).type_ == signed(s[0]),
        to_value_type(s).unit == signed(s[1]),
        to_mapping(s).id == s[0],
        to_mapping(s).memory_start == s[1],
        to_mapping(s).memory_limit == s[2],
        to_mapping(s).file_offset == s[3],
        to_mapping(s).filename == signed(s[4]),
        to_mapping(s).build_id == signed(s[5]),
        to_mapping(s).has_functions <==> s[6] != 0,
        to_mapping(s).has_filenames <==> s[7] != 0,
        to_mapping(s).has_line_numbers <==> s[8] != 0,
        to_mapping(s).has_inline_frames <==> s[9] != 0,
{
}

} // verus!
