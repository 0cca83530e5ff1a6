//! The encoding of profiles as messages, and its inverse.
//!
//! Nothing here is executed: the functions say which bytes encode a profile, and the
//! lemmas that decoding those bytes gives the profile back.

use crate::decode::all_signed;
use crate::decode::decoded;
use crate::decode::location_of;
use crate::decode::profile_of;
use crate::decode::repeated;
use crate::decode::sample_of;
use crate::decode::scalars;
use crate::decode::set_location;
use crate::decode::set_profile;
use crate::decode::set_sample;
use crate::decode::set_scalar;
use crate::decode::signed;
use crate::decode::unsigned;
use crate::decode::varints;
use crate::decode::zeros;
use crate::decode::INNERMOST_DEPTH;
use crate::decode::INNER_DEPTH;
use crate::decode::PROFILE_DEPTH;
use crate::proto::empty_location;
use crate::proto::empty_profile;
use crate::proto::empty_sample;
use crate::proto::Function;
use crate::proto::Label;
use crate::proto::Line;
use crate::proto::LocationModel;
use crate::proto::Mapping;
use crate::proto::ProfileModel;
use crate::proto::SampleModel;
use crate::proto::ValueType;
use crate::wire::field;
use crate::wire::key;
use crate::wire::lemma_field_bounds;
use crate::wire::varint;
use crate::wire::varint_from;
use crate::wire::Malformed;
use crate::wire::Payload;
use vstd::arithmetic::power2::lemma2_to64;
use vstd::arithmetic::power2::lemma2_to64_rest;
use vstd::arithmetic::power2::lemma_pow2_adds;
use vstd::arithmetic::power2::lemma_pow2_pos;
use vstd::arithmetic::power2::pow2;
use vstd::prelude::*;
use vstd::utf8::encode_utf8;
use vstd::utf8::encode_utf8_decode_utf8;
use vstd::utf8::encode_utf8_valid_utf8;

verus! {

/// A number in groups of seven bits, the least significant first.
pub open spec fn varint_bytes(n: nat) -> Seq<u8>
    decreases n,
{
    if n < 0x80 {
        seq![n as u8]
    } else {
        seq![(0x80 + n % 0x80) as u8] + varint_bytes(n / 0x80)
    }
}

/// The key of a field that holds a number.
pub open spec fn number_key(tag: nat) -> Seq<u8> {
    varint_bytes(tag * 8)
}

/// The key of a field that holds bytes.
pub open spec fn bytes_key(tag: nat) -> Seq<u8> {
    varint_bytes(tag * 8 + 2)
}

/// A field that holds a number; zero is left out.
pub open spec fn number_field(tag: nat, v: u64) -> Seq<u8> {
    if v == 0 {
        seq![]
    } else {
        number_key(tag) + varint_bytes(v as nat)
    }
}

/// A field that holds bytes.
pub open spec fn bytes_field(tag: nat, b: Seq<u8>) -> Seq<u8> {
    bytes_key(tag) + varint_bytes(b.len()) + b
}

/// A message of numbers, tagged from 1 on, from the one at index `k` on.
pub open spec fn scalar_bytes(s: Seq<u64>, k: nat) -> Seq<u8>
    decreases s.len() - k,
{
    if k >= s.len() {
        seq![]
    } else {
        number_field(k + 1, s[k as int]) + scalar_bytes(s, k + 1)
    }
}

/// Numbers one after the other.
pub open spec fn packed_bytes(vs: Seq<u64>) -> Seq<u8>
    decreases vs.len(),
{
    if vs.len() == 0 {
        seq![]
    } else {
        varint_bytes(vs[0] as nat) + packed_bytes(vs.skip(1))
    }
}

/// A field of several numbers; left out where there are none.
pub open spec fn packed_field(tag: nat, vs: Seq<u64>) -> Seq<u8> {
    if vs.len() == 0 {
        seq![]
    } else {
        bytes_field(tag, packed_bytes(vs))
    }
}

/// A field for each of several messages.
pub open spec fn repeated_field(tag: nat, bodies: Seq<Seq<u8>>) -> Seq<u8>
    decreases bodies.len(),
{
    if bodies.len() == 0 {
        seq![]
    } else {
        bytes_field(tag, bodies[0]) + repeated_field(tag, bodies.skip(1))
    }
}

pub open spec fn all_unsigned(vs: Seq<i64>) -> Seq<u64> {
    vs.map_values(|v: i64| unsigned(v))
}

pub open spec fn bit(b: bool) -> u64 {
    if b {
        1
    } else {
        0
    }
}

pub open spec fn of_value_type(v: ValueType) -> Seq<u64> {
    seq![unsigned(v.type_), unsigned(v.unit)]
}

pub open spec fn of_label(l: Label) -> Seq<u64> {
    seq![unsigned(l.key), unsigned(l.str), unsigned(l.num), unsigned(l.num_unit)]
}

pub open spec fn of_mapping(m: Mapping) -> Seq<u64> {
    seq![
        m.id,
        m.memory_start,
        m.memory_limit,
        m.file_offset,
        unsigned(m.filename),
        unsigned(m.build_id),
        bit(m.has_functions),
        bit(m.has_filenames),
        bit(m.has_line_numbers),
        bit(m.has_inline_frames),
    ]
}

pub open spec fn of_line(l: Line) -> Seq<u64> {
    seq![l.function_id, unsigned(l.line)]
}

pub open spec fn of_function(f: Function) -> Seq<u64> {
    seq![
        f.id,
        unsigned(f.name),
        unsigned(f.system_name),
        unsigned(f.filename),
        unsigned(f.start_line),
    ]
}

/// The bytes of a sample.
pub open spec fn sample_bytes(s: SampleModel) -> Seq<u8> {
    packed_field(1, s.location_id) + (packed_field(2, all_unsigned(s.value)) + repeated_field(
        3,
        s.label.map_values(|l: Label| scalar_bytes(of_label(l), 0)),
    ))
}

/// The bytes of a location.
pub open spec fn location_bytes(l: LocationModel) -> Seq<u8> {
    number_field(1, l.id) + (number_field(2, l.mapping_id) + (number_field(3, l.address) + (
    repeated_field(4, l.line.map_values(|n: Line| scalar_bytes(of_line(n), 0))) + number_field(
        5,
        bit(l.is_folded),
    ))))
}

/// The first fields of a profile: its lists of messages and strings.
pub open spec fn list_bytes(p: ProfileModel, rest: Seq<u8>) -> Seq<u8> {
    repeated_field(1, p.sample_type.map_values(|v: ValueType| scalar_bytes(of_value_type(v), 0)))
        + (repeated_field(2, p.sample.map_values(|s: SampleModel| sample_bytes(s))) + (
    repeated_field(3, p.mapping.map_values(|m: Mapping| scalar_bytes(of_mapping(m), 0))) + (
    repeated_field(4, p.location.map_values(|l: LocationModel| location_bytes(l))) + (
    repeated_field(5, p.function.map_values(|f: Function| scalar_bytes(of_function(f), 0))) + (
    repeated_field(6, p.string_table.map_values(|s: Seq<char>| encode_utf8(s))) + rest)))))
}

/// The field of the period's type, where there is one.
pub open spec fn period_type_bytes(p: ProfileModel) -> Seq<u8> {
    match p.period_type {
        Some(v) => bytes_field(11, scalar_bytes(of_value_type(v), 0)),
        None => seq![],
    }
}

/// The remaining fields of a profile.
pub open spec fn number_bytes(p: ProfileModel) -> Seq<u8> {
    number_field(7, unsigned(p.drop_frames)) + (number_field(8, unsigned(p.keep_frames)) + (
    number_field(9, unsigned(p.time_nanos)) + (number_field(10, unsigned(p.duration_nanos)) + (
    period_type_bytes(p) + (number_field(12, unsigned(p.period)) + (packed_field(
        13,
        all_unsigned(p.comment),
    ) + number_field(14, unsigned(p.default_sample_type))))))))
}

/// The bytes that encode a profile.
pub open spec fn profile_bytes(p: ProfileModel) -> Seq<u8> {
    list_bytes(p, number_bytes(p))
}

/// A varint behind `i` bytes of it is read back.
proof fn lemma_varint_at(b: Seq<u8>, i: nat, n: nat, rest: Seq<u8>)
    requires
        i <= 9,
        n * pow2(7 * i) < 0x1_0000_0000_0000_0000,
        b.len() >= i,
        b.skip(i as int) == varint_bytes(n) + rest,
    ensures
        varint_from(b, i) == Some((n, i + varint_bytes(n).len())),
    decreases n,
{
    lemma2_to64();
    lemma2_to64_rest();
    lemma_pow2_pos(7 * i);
    let p = pow2(7 * i);
    let tail = b.skip(i as int);
    assert(tail[0] == varint_bytes(n)[0]);
    assert(b[i as int] == tail[0]);
    assert(tail.len() > 0);
    if n < 0x80 {
        if i == 9 {
            assert(n < 2) by (nonlinear_arith)
                requires
                    n * p < 0x1_0000_0000_0000_0000,
                    p == 0x8000_0000_0000_0000,
            ;
        }
    } else {
        let high = n / 0x80;
        lemma_pow2_adds(7 * i, 7);
        assert(7 * (i + 1) == 7 * i + 7);
        assert(high * (p * 0x80) <= n * p) by (nonlinear_arith)
            requires
                high == n / 0x80,
                p > 0,
        ;
        if i >= 9 {
            assert(n * p >= 0x80 * p) by (nonlinear_arith)
                requires
                    n >= 0x80,
                    p > 0,
            ;
        }
        assert(b.skip((i + 1) as int) =~= varint_bytes(high) + rest) by {
            assert(tail =~= seq![tail[0]] + (varint_bytes(high) + rest));
            assert(b.skip((i + 1) as int) =~= tail.skip(1));
        }
        lemma_varint_at(b, i + 1, high, rest);
    }
}

/// A varint is read back.
pub proof fn lemma_varint(n: nat, rest: Seq<u8>)
    requires
        n <= u64::MAX,
    ensures
        varint(varint_bytes(n) + rest) == Some((n, varint_bytes(n).len())),
        (varint_bytes(n) + rest).skip(varint_bytes(n).len() as int) == rest,
{
    let b = varint_bytes(n) + rest;
    lemma2_to64();
    assert(b.skip(0) =~= b);
    assert(n * pow2(7 * 0) == n) by (nonlinear_arith)
        requires
            pow2(7 * 0) == 1,
    ;
    lemma_varint_at(b, 0, n, rest);
    assert(b.skip(varint_bytes(n).len() as int) =~= rest);
}

/// A field that holds a number is read back.
pub proof fn lemma_number_field(tag: nat, v: u64, rest: Seq<u8>, depth: nat)
    requires
        1 <= tag <= 15,
        v != 0,
        depth > 0,
    ensures
        ({
            let b = number_field(tag, v) + rest;
            &&& field(b, depth) == Ok::<_, Malformed>((tag, Payload::Varint(v), number_field(tag, v).len()))
            &&& b.skip(number_field(tag, v).len() as int) == rest
            &&& b.len() > 0
        }),
{
    let b = number_field(tag, v) + rest;
    let body = varint_bytes(v as nat) + rest;
    assert(b =~= number_key(tag) + body);
    lemma_varint(tag * 8, body);
    lemma_varint(v as nat, rest);
    assert(b.skip(number_key(tag).len() as int) == body);
    assert(b.skip(number_field(tag, v).len() as int) =~= rest);
}

/// A field that holds bytes is read back.
pub proof fn lemma_bytes_field(tag: nat, body: Seq<u8>, rest: Seq<u8>, depth: nat)
    requires
        1 <= tag <= 15,
        body.len() <= u64::MAX,
        depth > 0,
    ensures
        ({
            let b = bytes_field(tag, body) + rest;
            &&& field(b, depth) == Ok::<_, Malformed>((tag, Payload::Bytes(body), bytes_field(tag, body).len()))
            &&& b.skip(bytes_field(tag, body).len() as int) == rest
            &&& b.len() > 0
        }),
{
    let b = bytes_field(tag, body) + rest;
    let inner = varint_bytes(body.len()) + (body + rest);
    assert(b =~= bytes_key(tag) + inner);
    lemma_varint(tag * 8 + 2, inner);
    lemma_varint(body.len(), body + rest);
    let after = b.skip(bytes_key(tag).len() as int);
    assert(after == inner);
    let start = varint_bytes(body.len()).len() as int;
    assert(inner.subrange(start, start + body.len()) =~= body);
    assert(b.skip(bytes_field(tag, body).len() as int) =~= rest);
}

proof fn lemma_signed(v: i64)
    ensures
        signed(unsigned(v)) == v,
        unsigned(v) == 0 <==> v == 0,
{
}

proof fn lemma_all_signed(vs: Seq<i64>)
    ensures
        all_signed(all_unsigned(vs)) == vs,
{
    assert forall|i: int| 0 <= i < vs.len() implies all_signed(all_unsigned(vs))[i] == vs[i] by {
        lemma_signed(vs[i]);
    }
    assert(all_signed(all_unsigned(vs)) =~= vs);
}

/// A message of numbers is read back, from any point on.
proof fn lemma_scalars_from(s: Seq<u64>, k: nat, acc: Seq<u64>, depth: nat)
    requires
        s.len() <= 15,
        k <= s.len(),
        depth > 0,
        acc.len() == s.len(),
        forall|i: int| 0 <= i < k ==> acc[i] == s[i],
        forall|i: int| k <= i < s.len() ==> acc[i] == 0,
    ensures
        scalars(scalar_bytes(s, k), depth, acc) == Ok::<_, Malformed>(s),
    decreases s.len() - k,
{
    if k >= s.len() {
        assert(acc =~= s);
    } else {
        let v = s[k as int];
        let rest = scalar_bytes(s, k + 1);
        if v == 0 {
            assert(number_field(k + 1, v) + rest =~= rest);
            lemma_scalars_from(s, k + 1, acc, depth);
        } else {
            let next = acc.update(k as int, v);
            lemma_number_field(k + 1, v, rest, depth);
            assert(set_scalar(acc, k + 1, Payload::Varint(v)) == Ok::<_, Malformed>(next));
            lemma_scalars_from(s, k + 1, next, depth);
        }
    }
}

/// A message of numbers is read back.
proof fn lemma_scalars(s: Seq<u64>, depth: nat)
    requires
        s.len() <= 15,
        depth > 0,
    ensures
        scalars(scalar_bytes(s, 0), depth, zeros(s.len())) == Ok::<_, Malformed>(s),
{
    lemma_scalars_from(s, 0, zeros(s.len()), depth);
}

/// Numbers one after the other are read back.
proof fn lemma_packed(vs: Seq<u64>, acc: Seq<u64>)
    ensures
        varints(packed_bytes(vs), acc) == Ok::<_, Malformed>(acc + vs),
    decreases vs.len(),
{
    if vs.len() == 0 {
        assert(acc + vs =~= acc);
    } else {
        let v = vs[0];
        let tail = vs.skip(1);
        lemma_varint(v as nat, packed_bytes(tail));
        lemma_packed(tail, acc.push(v));
        assert(acc.push(v) + tail =~= acc + vs);
        assert(packed_bytes(vs).len() > 0);
    }
}

proof fn lemma_packed_field(vs: Seq<u64>)
    ensures
        repeated(Payload::Bytes(packed_bytes(vs)), seq![]) == Ok::<_, Malformed>(vs),
{
    lemma_packed(vs, seq![]);
    assert(seq![] + vs =~= vs);
}

/// The labels of a sample are read back.
proof fn lemma_labels(labels: Seq<Label>, acc: SampleModel)
    requires
        repeated_field(3, labels.map_values(|l: Label| scalar_bytes(of_label(l), 0))).len()
            <= u64::MAX,
    ensures
        sample_of(
            repeated_field(3, labels.map_values(|l: Label| scalar_bytes(of_label(l), 0))),
            acc,
        ) == Ok::<_, Malformed>(SampleModel { label: acc.label + labels, ..acc }),
    decreases labels.len(),
{
    let encode = |l: Label| scalar_bytes(of_label(l), 0);
    let bodies = labels.map_values(encode);
    if labels.len() == 0 {
        assert(acc.label + labels =~= acc.label);
    } else {
        let l = labels[0];
        let tail = labels.skip(1);
        let rest = repeated_field(3, tail.map_values(encode));
        assert(bodies.skip(1) =~= tail.map_values(encode));
        lemma_bytes_field(3, bodies[0], rest, INNER_DEPTH as nat);
        lemma_scalars(of_label(l), INNERMOST_DEPTH as nat);
        lemma_signed(l.key);
        lemma_signed(l.str);
        lemma_signed(l.num);
        lemma_signed(l.num_unit);
        let next = SampleModel { label: acc.label.push(l), ..acc };
        assert(set_sample(acc, 3, Payload::Bytes(bodies[0])) == Ok::<_, Malformed>(next));
        lemma_labels(tail, next);
        assert(acc.label.push(l) + tail =~= acc.label + labels);
    }
}

/// A sample is read back.
pub proof fn lemma_sample(s: SampleModel)
    requires
        sample_bytes(s).len() <= u64::MAX,
    ensures
        sample_of(sample_bytes(s), empty_sample()) == Ok::<_, Malformed>(s),
{
    let labels = repeated_field(3, s.label.map_values(|l: Label| scalar_bytes(of_label(l), 0)));
    let ids = s.location_id;
    let values = all_unsigned(s.value);
    let first = SampleModel { location_id: ids, ..empty_sample() };
    let second = SampleModel { value: s.value, ..first };
    let after = packed_field(2, values) + labels;
    assert(sample_of(sample_bytes(s), empty_sample()) == sample_of(after, first)) by {
        if ids.len() > 0 {
            lemma_bytes_field(1, packed_bytes(ids), after, INNER_DEPTH as nat);
            lemma_packed_field(ids);
            assert(seq![] + ids =~= ids);
        } else {
            assert(sample_bytes(s) =~= after);
            assert(ids =~= seq![]);
        }
    }
    assert(sample_of(after, first) == sample_of(labels, second)) by {
        lemma_all_signed(s.value);
        if values.len() > 0 {
            lemma_bytes_field(2, packed_bytes(values), labels, INNER_DEPTH as nat);
            lemma_packed_field(values);
            assert(seq![] + s.value =~= s.value);
        } else {
            assert(after =~= labels);
            assert(s.value =~= seq![]);
        }
    }
    lemma_labels(s.label, second);
    assert(seq![] + s.label =~= s.label);
}

/// The lines of a location are read back.
proof fn lemma_lines(lines: Seq<Line>, acc: LocationModel, rest: Seq<u8>)
    requires
        repeated_field(4, lines.map_values(|n: Line| scalar_bytes(of_line(n), 0))).len()
            <= u64::MAX,
    ensures
        location_of(
            repeated_field(4, lines.map_values(|n: Line| scalar_bytes(of_line(n), 0))) + rest,
            acc,
        ) == location_of(rest, LocationModel { line: acc.line + lines, ..acc }),
    decreases lines.len(),
{
    let encode = |n: Line| scalar_bytes(of_line(n), 0);
    let bodies = lines.map_values(encode);
    let whole = repeated_field(4, bodies) + rest;
    if lines.len() == 0 {
        assert(acc.line + lines =~= acc.line);
        assert(whole =~= rest);
    } else {
        let n = lines[0];
        let tail = lines.skip(1);
        let after = repeated_field(4, tail.map_values(encode)) + rest;
        assert(bodies.skip(1) =~= tail.map_values(encode));
        assert(whole =~= bytes_field(4, bodies[0]) + after);
        lemma_bytes_field(4, bodies[0], after, INNER_DEPTH as nat);
        lemma_scalars(of_line(n), INNERMOST_DEPTH as nat);
        lemma_signed(n.line);
        let next = LocationModel { line: acc.line.push(n), ..acc };
        assert(set_location(acc, 4, Payload::Bytes(bodies[0])) == Ok::<_, Malformed>(next));
        lemma_lines(tail, next, rest);
        assert(acc.line.push(n) + tail =~= acc.line + lines);
    }
}

/// A number of a location is read back; one that is left out is zero.
proof fn lemma_location_number(tag: nat, v: u64, rest: Seq<u8>, acc: LocationModel)
    requires
        tag == 1 || tag == 2 || tag == 3 || tag == 5,
        v == 0 ==> set_location(acc, tag, Payload::Varint(v)) == Ok::<_, Malformed>(acc),
    ensures
        location_of(number_field(tag, v) + rest, acc) == location_of(
            rest,
            set_location(acc, tag, Payload::Varint(v)).unwrap(),
        ),
{
    if v == 0 {
        assert(number_field(tag, v) + rest =~= rest);
    } else {
        lemma_number_field(tag, v, rest, INNER_DEPTH as nat);
    }
}

/// A location is read back.
pub proof fn lemma_location(l: LocationModel)
    requires
        location_bytes(l).len() <= u64::MAX,
    ensures
        location_of(location_bytes(l), empty_location()) == Ok::<_, Malformed>(l),
{
    let e = empty_location();
    let folded = number_field(5, bit(l.is_folded));
    let lines = repeated_field(4, l.line.map_values(|n: Line| scalar_bytes(of_line(n), 0)));
    let one = LocationModel { id: l.id, ..e };
    let two = LocationModel { mapping_id: l.mapping_id, ..one };
    let three = LocationModel { address: l.address, ..two };
    let four = LocationModel { line: l.line, ..three };
    lemma_location_number(
        1,
        l.id,
        number_field(2, l.mapping_id) + (number_field(3, l.address) + (lines + folded)),
        e,
    );
    lemma_location_number(2, l.mapping_id, number_field(3, l.address) + (lines + folded), one);
    lemma_location_number(3, l.address, lines + folded, two);
    lemma_lines(l.line, three, folded);
    assert(seq![] + l.line =~= l.line);
    let none: Seq<u8> = seq![];
    assert(folded + none =~= folded);
    lemma_location_number(5, bit(l.is_folded), none, four);
}

/// A message is within the field that holds it.
proof fn lemma_body_within(tag: nat, bodies: Seq<Seq<u8>>, k: int)
    requires
        0 <= k < bodies.len(),
    ensures
        bodies[k].len() <= repeated_field(tag, bodies).len(),
    decreases bodies.len(),
{
    if k > 0 {
        lemma_body_within(tag, bodies.skip(1), k - 1);
        assert(bodies.skip(1)[k - 1] == bodies[k]);
    }
}

/// The fields of a list are read one after the other: `steps` is what is read before
/// each of them, and at the end.
proof fn lemma_list(
    tag: nat,
    bodies: Seq<Seq<u8>>,
    rest: Seq<u8>,
    steps: Seq<ProfileModel>,
)
    requires
        1 <= tag <= 15,
        repeated_field(tag, bodies).len() <= u64::MAX,
        steps.len() == bodies.len() + 1,
        forall|k: int|
            0 <= k < bodies.len() ==> set_profile(
                steps[k],
                tag,
                Payload::Bytes(#[trigger] bodies[k]),
            ) == Ok::<_, Malformed>(steps[k + 1]),
    ensures
        profile_of(repeated_field(tag, bodies) + rest, steps[0]) == profile_of(rest, steps.last()),
    decreases bodies.len(),
{
    let whole = repeated_field(tag, bodies) + rest;
    if bodies.len() == 0 {
        assert(whole =~= rest);
    } else {
        let tail = bodies.skip(1);
        let after = repeated_field(tag, tail) + rest;
        let later = steps.skip(1);
        assert(whole =~= bytes_field(tag, bodies[0]) + after);
        lemma_bytes_field(tag, bodies[0], after, PROFILE_DEPTH as nat);
        assert(set_profile(steps[0], tag, Payload::Bytes(bodies[0])) == Ok::<_, Malformed>(steps[1]));
        assert forall|k: int| 0 <= k < tail.len() implies set_profile(
            later[k],
            tag,
            Payload::Bytes(#[trigger] tail[k]),
        ) == Ok::<_, Malformed>(later[k + 1]) by {
            assert(tail[k] == bodies[k + 1]);
        }
        lemma_list(tag, tail, rest, later);
        assert(later[0] == steps[1]);
        assert(later.last() == steps.last());
    }
}

/// A number of a profile is read back; one that is left out is zero.
proof fn lemma_profile_number(tag: nat, v: i64, rest: Seq<u8>, acc: ProfileModel)
    requires
        7 <= tag <= 10 || tag == 12 || tag == 14,
        set_profile(acc, tag, Payload::Varint(0)) == Ok::<_, Malformed>(acc),
    ensures
        profile_of(number_field(tag, unsigned(v)) + rest, acc) == profile_of(
            rest,
            set_profile(acc, tag, Payload::Varint(unsigned(v))).unwrap(),
        ),
{
    lemma_signed(v);
    if v == 0 {
        assert(number_field(tag, unsigned(v)) + rest =~= rest);
    } else {
        lemma_number_field(tag, unsigned(v), rest, PROFILE_DEPTH as nat);
    }
}

proof fn lemma_sample_types(p: ProfileModel, acc: ProfileModel, rest: Seq<u8>)
    requires
        acc.sample_type.len() == 0,
        repeated_field(
            1,
            p.sample_type.map_values(|v: ValueType| scalar_bytes(of_value_type(v), 0)),
        ).len() <= u64::MAX,
    ensures
        profile_of(
            repeated_field(
                1,
                p.sample_type.map_values(|v: ValueType| scalar_bytes(of_value_type(v), 0)),
            ) + rest,
            acc,
        ) == profile_of(rest, ProfileModel { sample_type: p.sample_type, ..acc }),
{
    let list = p.sample_type;
    let bodies = list.map_values(|v: ValueType| scalar_bytes(of_value_type(v), 0));
    let steps = Seq::new(
        (list.len() + 1) as nat,
        |k: int| ProfileModel { sample_type: list.take(k), ..acc },
    );
    assert forall|k: int| 0 <= k < bodies.len() implies set_profile(
        steps[k],
        1,
        Payload::Bytes(#[trigger] bodies[k]),
    ) == Ok::<_, Malformed>(steps[k + 1]) by {
        lemma_scalars(of_value_type(list[k]), INNER_DEPTH as nat);
        lemma_signed(list[k].type_);
        lemma_signed(list[k].unit);
        assert(list.take(k).push(list[k]) =~= list.take(k + 1));
    }
    lemma_list(1, bodies, rest, steps);
    assert(list.take(0) =~= acc.sample_type);
    assert(list.take(list.len() as int) =~= list);
}

proof fn lemma_samples(p: ProfileModel, acc: ProfileModel, rest: Seq<u8>)
    requires
        acc.sample.len() == 0,
        repeated_field(2, p.sample.map_values(|s: SampleModel| sample_bytes(s))).len() <= u64::MAX,
    ensures
        profile_of(
            repeated_field(2, p.sample.map_values(|s: SampleModel| sample_bytes(s))) + rest,
            acc,
        ) == profile_of(rest, ProfileModel { sample: p.sample, ..acc }),
{
    let list = p.sample;
    let bodies = list.map_values(|s: SampleModel| sample_bytes(s));
    let steps = Seq::new(
        (list.len() + 1) as nat,
        |k: int| ProfileModel { sample: list.take(k), ..acc },
    );
    assert forall|k: int| 0 <= k < bodies.len() implies set_profile(
        steps[k],
        2,
        Payload::Bytes(#[trigger] bodies[k]),
    ) == Ok::<_, Malformed>(steps[k + 1]) by {
        lemma_body_within(2, bodies, k);
        lemma_sample(list[k]);
        assert(list.take(k).push(list[k]) =~= list.take(k + 1));
    }
    lemma_list(2, bodies, rest, steps);
    assert(list.take(0) =~= acc.sample);
    assert(list.take(list.len() as int) =~= list);
}

proof fn lemma_mappings(p: ProfileModel, acc: ProfileModel, rest: Seq<u8>)
    requires
        acc.mapping.len() == 0,
        repeated_field(
            3,
            p.mapping.map_values(|m: Mapping| scalar_bytes(of_mapping(m), 0)),
        ).len() <= u64::MAX,
    ensures
        profile_of(
            repeated_field(3, p.mapping.map_values(|m: Mapping| scalar_bytes(of_mapping(m), 0)))
                + rest,
            acc,
        ) == profile_of(rest, ProfileModel { mapping: p.mapping, ..acc }),
{
    let list = p.mapping;
    let bodies = list.map_values(|m: Mapping| scalar_bytes(of_mapping(m), 0));
    let steps = Seq::new(
        (list.len() + 1) as nat,
        |k: int| ProfileModel { mapping: list.take(k), ..acc },
    );
    assert forall|k: int| 0 <= k < bodies.len() implies set_profile(
        steps[k],
        3,
        Payload::Bytes(#[trigger] bodies[k]),
    ) == Ok::<_, Malformed>(steps[k + 1]) by {
        lemma_scalars(of_mapping(list[k]), INNER_DEPTH as nat);
        lemma_signed(list[k].filename);
        lemma_signed(list[k].build_id);
        assert(list.take(k).push(list[k]) =~= list.take(k + 1));
    }
    lemma_list(3, bodies, rest, steps);
    assert(list.take(0) =~= acc.mapping);
    assert(list.take(list.len() as int) =~= list);
}

proof fn lemma_locations(p: ProfileModel, acc: ProfileModel, rest: Seq<u8>)
    requires
        acc.location.len() == 0,
        repeated_field(4, p.location.map_values(|l: LocationModel| location_bytes(l))).len()
            <= u64::MAX,
    ensures
        profile_of(
            repeated_field(4, p.location.map_values(|l: LocationModel| location_bytes(l))) + rest,
            acc,
        ) == profile_of(rest, ProfileModel { location: p.location, ..acc }),
{
    let list = p.location;
    let bodies = list.map_values(|l: LocationModel| location_bytes(l));
    let steps = Seq::new(
        (list.len() + 1) as nat,
        |k: int| ProfileModel { location: list.take(k), ..acc },
    );
    assert forall|k: int| 0 <= k < bodies.len() implies set_profile(
        steps[k],
        4,
        Payload::Bytes(#[trigger] bodies[k]),
    ) == Ok::<_, Malformed>(steps[k + 1]) by {
        lemma_body_within(4, bodies, k);
        lemma_location(list[k]);
        assert(list.take(k).push(list[k]) =~= list.take(k + 1));
    }
    lemma_list(4, bodies, rest, steps);
    assert(list.take(0) =~= acc.location);
    assert(list.take(list.len() as int) =~= list);
}

proof fn lemma_functions(p: ProfileModel, acc: ProfileModel, rest: Seq<u8>)
    requires
        acc.function.len() == 0,
        repeated_field(
            5,
            p.function.map_values(|f: Function| scalar_bytes(of_function(f), 0)),
        ).len() <= u64::MAX,
    ensures
        profile_of(
            repeated_field(5, p.function.map_values(|f: Function| scalar_bytes(of_function(f), 0)))
                + rest,
            acc,
        ) == profile_of(rest, ProfileModel { function: p.function, ..acc }),
{
    let list = p.function;
    let bodies = list.map_values(|f: Function| scalar_bytes(of_function(f), 0));
    let steps = Seq::new(
        (list.len() + 1) as nat,
        |k: int| ProfileModel { function: list.take(k), ..acc },
    );
    assert forall|k: int| 0 <= k < bodies.len() implies set_profile(
        steps[k],
        5,
        Payload::Bytes(#[trigger] bodies[k]),
    ) == Ok::<_, Malformed>(steps[k + 1]) by {
        lemma_scalars(of_function(list[k]), INNER_DEPTH as nat);
        lemma_signed(list[k].name);
        lemma_signed(list[k].system_name);
        lemma_signed(list[k].filename);
        lemma_signed(list[k].start_line);
        assert(list.take(k).push(list[k]) =~= list.take(k + 1));
    }
    lemma_list(5, bodies, rest, steps);
    assert(list.take(0) =~= acc.function);
    assert(list.take(list.len() as int) =~= list);
}

proof fn lemma_strings(p: ProfileModel, acc: ProfileModel, rest: Seq<u8>)
    requires
        acc.string_table.len() == 0,
        repeated_field(6, p.string_table.map_values(|s: Seq<char>| encode_utf8(s))).len()
            <= u64::MAX,
    ensures
        profile_of(
            repeated_field(6, p.string_table.map_values(|s: Seq<char>| encode_utf8(s))) + rest,
            acc,
        ) == profile_of(rest, ProfileModel { string_table: p.string_table, ..acc }),
{
    let list = p.string_table;
    let bodies = list.map_values(|s: Seq<char>| encode_utf8(s));
    let steps = Seq::new(
        (list.len() + 1) as nat,
        |k: int| ProfileModel { string_table: list.take(k), ..acc },
    );
    assert forall|k: int| 0 <= k < bodies.len() implies set_profile(
        steps[k],
        6,
        Payload::Bytes(#[trigger] bodies[k]),
    ) == Ok::<_, Malformed>(steps[k + 1]) by {
        encode_utf8_valid_utf8(list[k]);
        encode_utf8_decode_utf8(list[k]);
        assert(list.take(k).push(list[k]) =~= list.take(k + 1));
    }
    lemma_list(6, bodies, rest, steps);
    assert(list.take(0) =~= acc.string_table);
    assert(list.take(list.len() as int) =~= list);
}

/// The lists of a profile are read back.
proof fn lemma_lists(p: ProfileModel, rest: Seq<u8>)
    requires
        list_bytes(p, rest).len() <= u64::MAX,
    ensures
        profile_of(list_bytes(p, rest), empty_profile()) == profile_of(
            rest,
            ProfileModel {
                sample_type: p.sample_type,
                sample: p.sample,
                mapping: p.mapping,
                location: p.location,
                function: p.function,
                string_table: p.string_table,
                ..empty_profile()
            },
        ),
{
    let sample_types = repeated_field(
        1,
        p.sample_type.map_values(|v: ValueType| scalar_bytes(of_value_type(v), 0)),
    );
    let samples = repeated_field(2, p.sample.map_values(|s: SampleModel| sample_bytes(s)));
    let mappings = repeated_field(
        3,
        p.mapping.map_values(|m: Mapping| scalar_bytes(of_mapping(m), 0)),
    );
    let locations = repeated_field(
        4,
        p.location.map_values(|l: LocationModel| location_bytes(l)),
    );
    let functions = repeated_field(
        5,
        p.function.map_values(|f: Function| scalar_bytes(of_function(f), 0)),
    );
    let strings = repeated_field(6, p.string_table.map_values(|s: Seq<char>| encode_utf8(s)));
    let after_5 = strings + rest;
    let after_4 = functions + after_5;
    let after_3 = locations + after_4;
    let after_2 = mappings + after_3;
    let after_1 = samples + after_2;
    let e = empty_profile();
    let one = ProfileModel { sample_type: p.sample_type, ..e };
    let two = ProfileModel { sample: p.sample, ..one };
    let three = ProfileModel { mapping: p.mapping, ..two };
    let four = ProfileModel { location: p.location, ..three };
    let five = ProfileModel { function: p.function, ..four };
    assert(list_bytes(p, rest) == sample_types + after_1);
    lemma_sample_types(p, e, after_1);
    lemma_samples(p, one, after_2);
    lemma_mappings(p, two, after_3);
    lemma_locations(p, three, after_4);
    lemma_functions(p, four, after_5);
    lemma_strings(p, five, rest);
}

/// The fields of a profile from the one with tag 11 on.
spec fn late_bytes(p: ProfileModel) -> Seq<u8> {
    period_type_bytes(p) + (number_field(12, unsigned(p.period)) + (packed_field(13, all_unsigned(p.comment))
        + number_field(14, unsigned(p.default_sample_type))))
}

/// The frames and times of a profile are read back.
proof fn lemma_frames(p: ProfileModel, acc: ProfileModel, rest: Seq<u8>)
    requires
        acc.drop_frames == 0,
        acc.keep_frames == 0,
        acc.time_nanos == 0,
        acc.duration_nanos == 0,
    ensures
        profile_of(
            number_field(7, unsigned(p.drop_frames)) + (number_field(8, unsigned(p.keep_frames)) + (
            number_field(9, unsigned(p.time_nanos)) + (number_field(10, unsigned(p.duration_nanos))
                + rest))),
            acc,
        ) == profile_of(
            rest,
            ProfileModel {
                drop_frames: p.drop_frames,
                keep_frames: p.keep_frames,
                time_nanos: p.time_nanos,
                duration_nanos: p.duration_nanos,
                ..acc
            },
        ),
{
    let duration = number_field(10, unsigned(p.duration_nanos)) + rest;
    let time = number_field(9, unsigned(p.time_nanos)) + duration;
    let keep = number_field(8, unsigned(p.keep_frames)) + time;
    let a7 = ProfileModel { drop_frames: p.drop_frames, ..acc };
    let a8 = ProfileModel { keep_frames: p.keep_frames, ..a7 };
    let a9 = ProfileModel { time_nanos: p.time_nanos, ..a8 };
    lemma_signed(p.drop_frames);
    lemma_signed(p.keep_frames);
    lemma_signed(p.time_nanos);
    lemma_signed(p.duration_nanos);
    lemma_profile_number(7, p.drop_frames, keep, acc);
    lemma_profile_number(8, p.keep_frames, time, a7);
    lemma_profile_number(9, p.time_nanos, duration, a8);
    lemma_profile_number(10, p.duration_nanos, rest, a9);
}

/// The type of the period is read back.
proof fn lemma_period_type(p: ProfileModel, acc: ProfileModel, rest: Seq<u8>)
    requires
        acc.period_type is None,
        late_bytes(p).len() <= u64::MAX,
    ensures
        profile_of(period_type_bytes(p) + rest, acc) == profile_of(
            rest,
            ProfileModel { period_type: p.period_type, ..acc },
        ),
{
    match p.period_type {
        Some(v) => {
            let body = scalar_bytes(of_value_type(v), 0);
            lemma_bytes_field(11, body, rest, PROFILE_DEPTH as nat);
            lemma_scalars(of_value_type(v), INNER_DEPTH as nat);
            lemma_signed(v.type_);
            lemma_signed(v.unit);
            let next = ProfileModel { period_type: p.period_type, ..acc };
            assert(set_profile(acc, 11, Payload::Bytes(body)) == Ok::<_, Malformed>(next));
        },
        None => {
            let none: Seq<u8> = seq![];
            assert(none + rest =~= rest);
        },
    }
}

/// The comments are read back.
proof fn lemma_comments(p: ProfileModel, acc: ProfileModel, rest: Seq<u8>)
    requires
        acc.comment.len() == 0,
        packed_field(13, all_unsigned(p.comment)).len() <= u64::MAX,
    ensures
        profile_of(packed_field(13, all_unsigned(p.comment)) + rest, acc) == profile_of(
            rest,
            ProfileModel { comment: p.comment, ..acc },
        ),
{
    let vs = all_unsigned(p.comment);
    lemma_all_signed(p.comment);
    if vs.len() > 0 {
        lemma_bytes_field(13, packed_bytes(vs), rest, PROFILE_DEPTH as nat);
        lemma_packed_field(vs);
        assert(acc.comment + p.comment =~= p.comment);
    } else {
        assert(packed_field(13, vs) + rest =~= rest);
        assert(p.comment =~= acc.comment);
    }
}

/// The last fields of a profile are read back.
proof fn lemma_late(p: ProfileModel, acc: ProfileModel)
    requires
        late_bytes(p).len() <= u64::MAX,
        acc.period_type is None,
        acc.period == 0,
        acc.comment.len() == 0,
        acc.default_sample_type == 0,
    ensures
        profile_of(late_bytes(p), acc) == Ok::<_, Malformed>(
            ProfileModel {
                period_type: p.period_type,
                period: p.period,
                comment: p.comment,
                default_sample_type: p.default_sample_type,
                ..acc
            },
        ),
{
    let last = number_field(14, unsigned(p.default_sample_type));
    let comments = packed_field(13, all_unsigned(p.comment)) + last;
    let period = number_field(12, unsigned(p.period)) + comments;
    let a11 = ProfileModel { period_type: p.period_type, ..acc };
    let a12 = ProfileModel { period: p.period, ..a11 };
    let a13 = ProfileModel { comment: p.comment, ..a12 };
    let none: Seq<u8> = seq![];
    lemma_signed(p.period);
    lemma_signed(p.default_sample_type);
    lemma_period_type(p, acc, period);
    lemma_profile_number(12, p.period, comments, a11);
    lemma_comments(p, a12, last);
    assert(last + none =~= last);
    lemma_profile_number(14, p.default_sample_type, none, a13);
}

/// Decoding the bytes that encode a profile gives the profile back.
pub proof fn lemma_decoded_encoded(p: ProfileModel)
    requires
        profile_bytes(p).len() <= u64::MAX,
    ensures
        decoded(profile_bytes(p)) == Ok::<_, Malformed>(p),
{
    let numbers = number_bytes(p);
    let acc = ProfileModel {
        sample_type: p.sample_type,
        sample: p.sample,
        mapping: p.mapping,
        location: p.location,
        function: p.function,
        string_table: p.string_table,
        ..empty_profile()
    };
    let frames = ProfileModel {
        drop_frames: p.drop_frames,
        keep_frames: p.keep_frames,
        time_nanos: p.time_nanos,
        duration_nanos: p.duration_nanos,
        ..acc
    };
    lemma_lists(p, numbers);
    lemma_frames(p, acc, late_bytes(p));
    lemma_late(p, frames);
}

/// No two profiles have the same encoding.
pub proof fn lemma_encoding_distinct(p: ProfileModel, q: ProfileModel)
    requires
        profile_bytes(p).len() <= u64::MAX,
        profile_bytes(p) == profile_bytes(q),
    ensures
        p == q,
{
    lemma_decoded_encoded(p);
    lemma_decoded_encoded(q);
}

/// Fields that the format does not define are passed over.
pub proof fn lemma_unknown_skipped(b: Seq<u8>, acc: ProfileModel)
    requires
        field(b, PROFILE_DEPTH as nat) matches Ok((tag, payload, end)) && tag > 14,
    ensures
        profile_of(b, acc) == profile_of(
            b.skip(field(b, PROFILE_DEPTH as nat).unwrap().2 as int),
            acc,
        ),
{
    lemma_field_bounds(b, PROFILE_DEPTH as nat);
}

/// A second type of the period is merged into the first: what it leaves out stays.
pub proof fn lemma_period_types_merge(acc: ProfileModel, known: ValueType, v: u64)
    requires
        acc.period_type == Some(known),
        v != 0,
    ensures
        set_profile(acc, 11, Payload::Bytes(number_field(2, v))) == Ok::<_, Malformed>(
            ProfileModel {
                period_type: Some(ValueType { type_: known.type_, unit: signed(v) }),
                ..acc
            },
        ),
        set_profile(acc, 11, Payload::Bytes(number_field(1, v))) == Ok::<_, Malformed>(
            ProfileModel {
                period_type: Some(ValueType { type_: signed(v), unit: known.unit }),
                ..acc
            },
        ),
        set_profile(acc, 11, Payload::Bytes(seq![])) == Ok::<_, Malformed>(acc),
{
    let none: Seq<u8> = seq![];
    let start = of_value_type(known);
    lemma_signed(known.type_);
    lemma_signed(known.unit);
    lemma_number_field(2, v, none, INNER_DEPTH as nat);
    lemma_number_field(1, v, none, INNER_DEPTH as nat);
    assert(number_field(2, v) + none =~= number_field(2, v));
    assert(number_field(1, v) + none =~= number_field(1, v));
    assert(set_scalar(start, 2, Payload::Varint(v)) == Ok::<_, Malformed>(start.update(1, v)));
    assert(set_scalar(start, 1, Payload::Varint(v)) == Ok::<_, Malformed>(start.update(0, v)));
    reveal_with_fuel(scalars, 2);
}

} // verus!
