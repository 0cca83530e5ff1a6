//! The decoder against that of the `prost` crate, on the messages of the format.

use go_profile_lsp::profile::parse_message;
use go_profile_lsp::proto;
use prost::bytes::Buf;
use prost::bytes::BufMut;
use prost::encoding::bool as boolean;
use prost::encoding::encode_key;
use prost::encoding::encode_varint;
use prost::encoding::int64;
use prost::encoding::message;
use prost::encoding::skip_field;
use prost::encoding::string;
use prost::encoding::uint64;
use prost::encoding::DecodeContext;
use prost::encoding::WireType;
use prost::DecodeError;
use prost::Message;

#[derive(Debug, Default)]
struct ValueType {
    kind: i64,
    unit: i64,
}

impl Message for ValueType {
    fn encode_raw(&self, _buf: &mut impl BufMut) {}

    fn merge_field(
        &mut self,
        tag: u32,
        wire_type: WireType,
        buf: &mut impl Buf,
        ctx: DecodeContext,
    ) -> Result<(), DecodeError> {
        match tag {
            1 => int64::merge(wire_type, &mut self.kind, buf, ctx),
            2 => int64::merge(wire_type, &mut self.unit, buf, ctx),
            _ => skip_field(wire_type, tag, buf, ctx),
        }
    }

    fn encoded_len(&self) -> usize {
        0
    }

    fn clear(&mut self) {}
}

#[derive(Debug, Default)]
struct Label {
    key: i64,
    text: i64,
    num: i64,
    num_unit: i64,
}

impl Message for Label {
    fn encode_raw(&self, _buf: &mut impl BufMut) {}

    fn merge_field(
        &mut self,
        tag: u32,
        wire_type: WireType,
        buf: &mut impl Buf,
        ctx: DecodeContext,
    ) -> Result<(), DecodeError> {
        match tag {
            1 => int64::merge(wire_type, &mut self.key, buf, ctx),
            2 => int64::merge(wire_type, &mut self.text, buf, ctx),
            3 => int64::merge(wire_type, &mut self.num, buf, ctx),
            4 => int64::merge(wire_type, &mut self.num_unit, buf, ctx),
            _ => skip_field(wire_type, tag, buf, ctx),
        }
    }

    fn encoded_len(&self) -> usize {
        0
    }

    fn clear(&mut self) {}
}

#[derive(Debug, Default)]
struct Sample {
    location_id: Vec<u64>,
    value: Vec<i64>,
    label: Vec<Label>,
}

impl Message for Sample {
    fn encode_raw(&self, _buf: &mut impl BufMut) {}

    fn merge_field(
        &mut self,
        tag: u32,
        wire_type: WireType,
        buf: &mut impl Buf,
        ctx: DecodeContext,
    ) -> Result<(), DecodeError> {
        match tag {
            1 => uint64::merge_repeated(wire_type, &mut self.location_id, buf, ctx),
            2 => int64::merge_repeated(wire_type, &mut self.value, buf, ctx),
            3 => message::merge_repeated(wire_type, &mut self.label, buf, ctx),
            _ => skip_field(wire_type, tag, buf, ctx),
        }
    }

    fn encoded_len(&self) -> usize {
        0
    }

    fn clear(&mut self) {}
}

#[derive(Debug, Default)]
struct Mapping {
    numbers: [u64; 4],
    names: [i64; 2],
    flags: [bool; 4],
}

impl Message for Mapping {
    fn encode_raw(&self, _buf: &mut impl BufMut) {}

    fn merge_field(
        &mut self,
        tag: u32,
        wire_type: WireType,
        buf: &mut impl Buf,
        ctx: DecodeContext,
    ) -> Result<(), DecodeError> {
        match tag {
            1..=4 => uint64::merge(wire_type, &mut self.numbers[tag as usize - 1], buf, ctx),
            5..=6 => int64::merge(wire_type, &mut self.names[tag as usize - 5], buf, ctx),
            7..=10 => boolean::merge(wire_type, &mut self.flags[tag as usize - 7], buf, ctx),
            _ => skip_field(wire_type, tag, buf, ctx),
        }
    }

    fn encoded_len(&self) -> usize {
        0
    }

    fn clear(&mut self) {}
}

#[derive(Debug, Default)]
struct Line {
    function_id: u64,
    line: i64,
}

impl Message for Line {
    fn encode_raw(&self, _buf: &mut impl BufMut) {}

    fn merge_field(
        &mut self,
        tag: u32,
        wire_type: WireType,
        buf: &mut impl Buf,
        ctx: DecodeContext,
    ) -> Result<(), DecodeError> {
        match tag {
            1 => uint64::merge(wire_type, &mut self.function_id, buf, ctx),
            2 => int64::merge(wire_type, &mut self.line, buf, ctx),
            _ => skip_field(wire_type, tag, buf, ctx),
        }
    }

    fn encoded_len(&self) -> usize {
        0
    }

    fn clear(&mut self) {}
}

#[derive(Debug, Default)]
struct Location {
    numbers: [u64; 3],
    line: Vec<Line>,
    is_folded: bool,
}

impl Message for Location {
    fn encode_raw(&self, _buf: &mut impl BufMut) {}

    fn merge_field(
        &mut self,
        tag: u32,
        wire_type: WireType,
        buf: &mut impl Buf,
        ctx: DecodeContext,
    ) -> Result<(), DecodeError> {
        match tag {
            1..=3 => uint64::merge(wire_type, &mut self.numbers[tag as usize - 1], buf, ctx),
            4 => message::merge_repeated(wire_type, &mut self.line, buf, ctx),
            5 => boolean::merge(wire_type, &mut self.is_folded, buf, ctx),
            _ => skip_field(wire_type, tag, buf, ctx),
        }
    }

    fn encoded_len(&self) -> usize {
        0
    }

    fn clear(&mut self) {}
}

#[derive(Debug, Default)]
struct Function {
    id: u64,
    rest: [i64; 4],
}

impl Message for Function {
    fn encode_raw(&self, _buf: &mut impl BufMut) {}

    fn merge_field(
        &mut self,
        tag: u32,
        wire_type: WireType,
        buf: &mut impl Buf,
        ctx: DecodeContext,
    ) -> Result<(), DecodeError> {
        match tag {
            1 => uint64::merge(wire_type, &mut self.id, buf, ctx),
            2..=5 => int64::merge(wire_type, &mut self.rest[tag as usize - 2], buf, ctx),
            _ => skip_field(wire_type, tag, buf, ctx),
        }
    }

    fn encoded_len(&self) -> usize {
        0
    }

    fn clear(&mut self) {}
}

#[derive(Debug, Default)]
struct Profile {
    sample_type: Vec<ValueType>,
    sample: Vec<Sample>,
    mapping: Vec<Mapping>,
    location: Vec<Location>,
    function: Vec<Function>,
    string_table: Vec<String>,
    frames: [i64; 4],
    period_type: Option<ValueType>,
    period: i64,
    comment: Vec<i64>,
    default_sample_type: i64,
}

impl Message for Profile {
    fn encode_raw(&self, _buf: &mut impl BufMut) {}

    fn merge_field(
        &mut self,
        tag: u32,
        wire_type: WireType,
        buf: &mut impl Buf,
        ctx: DecodeContext,
    ) -> Result<(), DecodeError> {
        match tag {
            1 => message::merge_repeated(wire_type, &mut self.sample_type, buf, ctx),
            2 => message::merge_repeated(wire_type, &mut self.sample, buf, ctx),
            3 => message::merge_repeated(wire_type, &mut self.mapping, buf, ctx),
            4 => message::merge_repeated(wire_type, &mut self.location, buf, ctx),
            5 => message::merge_repeated(wire_type, &mut self.function, buf, ctx),
            6 => string::merge_repeated(wire_type, &mut self.string_table, buf, ctx),
            7..=10 => int64::merge(wire_type, &mut self.frames[tag as usize - 7], buf, ctx),
            11 => message::merge(
                wire_type,
                self.period_type.get_or_insert_with(ValueType::default),
                buf,
                ctx,
            ),
            12 => int64::merge(wire_type, &mut self.period, buf, ctx),
            13 => int64::merge_repeated(wire_type, &mut self.comment, buf, ctx),
            14 => int64::merge(wire_type, &mut self.default_sample_type, buf, ctx),
            _ => skip_field(wire_type, tag, buf, ctx),
        }
    }

    fn encoded_len(&self) -> usize {
        0
    }

    fn clear(&mut self) {}
}

fn value_type(v: &ValueType) -> proto::ValueType {
    proto::ValueType {
        type_: v.kind,
        unit: v.unit,
    }
}

fn converted(p: &Profile) -> proto::Profile {
    proto::Profile {
        sample_type: p.sample_type.iter().map(value_type).collect(),
        sample: p
            .sample
            .iter()
            .map(|s| proto::Sample {
                location_id: s.location_id.clone(),
                value: s.value.clone(),
                label: s
                    .label
                    .iter()
                    .map(|l| proto::Label {
                        key: l.key,
                        str: l.text,
                        num: l.num,
                        num_unit: l.num_unit,
                    })
                    .collect(),
            })
            .collect(),
        mapping: p
            .mapping
            .iter()
            .map(|m| proto::Mapping {
                id: m.numbers[0],
                memory_start: m.numbers[1],
                memory_limit: m.numbers[2],
                file_offset: m.numbers[3],
                filename: m.names[0],
                build_id: m.names[1],
                has_functions: m.flags[0],
                has_filenames: m.flags[1],
                has_line_numbers: m.flags[2],
                has_inline_frames: m.flags[3],
            })
            .collect(),
        location: p
            .location
            .iter()
            .map(|l| proto::Location {
                id: l.numbers[0],
                mapping_id: l.numbers[1],
                address: l.numbers[2],
                line: l
                    .line
                    .iter()
                    .map(|n| proto::Line {
                        function_id: n.function_id,
                        line: n.line,
                    })
                    .collect(),
                is_folded: l.is_folded,
            })
            .collect(),
        function: p
            .function
            .iter()
            .map(|f| proto::Function {
                id: f.id,
                name: f.rest[0],
                system_name: f.rest[1],
                filename: f.rest[2],
                start_line: f.rest[3],
            })
            .collect(),
        string_table: p.string_table.clone(),
        drop_frames: p.frames[0],
        keep_frames: p.frames[1],
        time_nanos: p.frames[2],
        duration_nanos: p.frames[3],
        period_type: p.period_type.as_ref().map(value_type),
        period: p.period,
        comment: p.comment.clone(),
        default_sample_type: p.default_sample_type,
    }
}

/// Both decoders accept the same bytes, and read the same from them.
fn agree(bytes: &[u8]) -> bool {
    match (parse_message(bytes), Profile::decode(bytes)) {
        (Ok(ours), Ok(theirs)) => {
            assert_eq!(format!("{ours:?}"), format!("{:?}", converted(&theirs)), "bytes {bytes:?}");
            true
        }
        (Err(_), Err(_)) => false,
        (ours, theirs) => panic!("ours {ours:?}, theirs {theirs:?}, bytes {bytes:?}"),
    }
}

struct Chance(u64);

impl Chance {
    fn next(&mut self) -> u64 {
        self.0 ^= self.0 << 13;
        self.0 ^= self.0 >> 7;
        self.0 ^= self.0 << 17;
        self.0
    }

    fn below(&mut self, n: u64) -> u64 {
        (self.next() >> 11) % n
    }

    fn number(&mut self) -> u64 {
        let shift = self.below(64);
        self.next() >> shift
    }
}

fn some_fields(chance: &mut Chance, depth: u32, out: &mut Vec<u8>) {
    for _ in 0..chance.below(5) {
        let most = if chance.below(9) == 0 { 600 } else { 15 };
        let tag = chance.below(most) as u32 + 1;
        match chance.below(8) {
            0..=2 => {
                encode_key(tag, WireType::Varint, out);
                encode_varint(chance.number(), out);
            }
            3..=5 => {
                let mut body: Vec<u8> = Vec::new();
                if depth < 4 && chance.below(4) > 0 {
                    some_fields(chance, depth + 1, &mut body);
                } else {
                    for _ in 0..chance.below(4) {
                        encode_varint(chance.number(), &mut body);
                    }
                }
                encode_key(tag, WireType::LengthDelimited, out);
                encode_varint(body.len() as u64, out);
                out.extend_from_slice(&body);
            }
            6 => {
                encode_key(tag, WireType::StartGroup, out);
                if depth < 4 {
                    some_fields(chance, depth + 1, out);
                }
                encode_key(tag, WireType::EndGroup, out);
            }
            _ => {
                let wide = chance.below(2) == 0;
                encode_key(
                    tag,
                    if wide {
                        WireType::SixtyFourBit
                    } else {
                        WireType::ThirtyTwoBit
                    },
                    out,
                );
                out.extend_from_slice(&[7; 8][..if wide { 8 } else { 4 }]);
            }
        }
    }
}

#[test]
fn well_formed_fields_are_read_alike() {
    let mut chance = Chance(0x1234_5678_9abc_def1);
    let mut accepted = 0;
    for _ in 0..20_000 {
        let mut bytes: Vec<u8> = Vec::new();
        some_fields(&mut chance, 0, &mut bytes);
        if agree(&bytes) {
            accepted += 1;
        }
    }
    assert!(accepted > 2_000);
}

#[test]
fn damaged_fields_are_read_alike() {
    let mut chance = Chance(0xfeed_5678_9abc_def1);
    let mut accepted = 0;
    for _ in 0..20_000 {
        let mut bytes: Vec<u8> = Vec::new();
        some_fields(&mut chance, 0, &mut bytes);
        if !bytes.is_empty() {
            let at = chance.below(bytes.len() as u64) as usize;
            match chance.below(3) {
                0 => bytes.truncate(at),
                1 => bytes[at] ^= 1 << chance.below(8),
                _ => bytes.insert(at, chance.next() as u8),
            }
        }
        if agree(&bytes) {
            accepted += 1;
        }
    }
    assert!(accepted > 1_000);
}

#[test]
fn packed_and_plain_numbers_are_read_alike() {
    let mut chance = Chance(0xabcd_5678_9abc_def1);
    for _ in 0..5_000 {
        let mut sample: Vec<u8> = Vec::new();
        for _ in 0..chance.below(4) {
            let tag = chance.below(2) as u32 + 1;
            if chance.below(2) == 0 {
                uint64::encode(tag, &chance.number(), &mut sample);
            } else {
                let list: Vec<u64> = (0..chance.below(4)).map(|_| chance.number()).collect();
                uint64::encode_packed(tag, &list, &mut sample);
            }
        }
        let mut bytes: Vec<u8> = Vec::new();
        encode_key(2, WireType::LengthDelimited, &mut bytes);
        encode_varint(sample.len() as u64, &mut bytes);
        bytes.extend_from_slice(&sample);
        assert!(agree(&bytes));
    }
}

#[test]
fn nesting_is_limited_alike() {
    for wrappers in [0usize, 1, 2] {
        for depth in 95..104usize {
            let mut bytes: Vec<u8> = Vec::new();
            for _ in 0..depth {
                encode_key(77, WireType::StartGroup, &mut bytes);
            }
            for _ in 0..depth {
                encode_key(77, WireType::EndGroup, &mut bytes);
            }
            for tag in [4u32, 2].iter().take(wrappers).rev() {
                let mut outer: Vec<u8> = Vec::new();
                let tag = if wrappers == 2 && *tag == 2 { 4 } else { *tag };
                encode_key(tag, WireType::LengthDelimited, &mut outer);
                encode_varint(bytes.len() as u64, &mut outer);
                outer.extend_from_slice(&bytes);
                bytes = outer;
            }
            agree(&bytes);
        }
    }
}

#[test]
fn long_varints_are_read_alike() {
    for last in [0u8, 1, 2, 0x7f, 0x80] {
        for count in 7..11usize {
            let mut bytes: Vec<u8> = vec![0x60];
            bytes.extend(std::iter::repeat(0xff).take(count));
            bytes.push(last);
            agree(&bytes);
            let mut key: Vec<u8> = vec![0xe0];
            key.extend(std::iter::repeat(0x80).take(count - 5));
            key.push(last);
            key.push(1);
            agree(&key);
        }
    }
}
