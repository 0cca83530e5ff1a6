//! The Protocol Buffers wire format: keys, values and the fields of a message.

use vstd::prelude::*;
use vstd::slice::slice_subrange;

verus! {

/// The error that the `prost` crate reports for malformed bytes.
#[verifier::external_type_specification]
#[verifier::external_body]
pub struct ExDecodeError(prost::DecodeError);

/// Why some bytes are not a message. Each field is read whole before its value is looked
/// at: where there is more than one reason, the first that is met this way counts.
#[derive(Debug, Clone, Copy, PartialEq, Eq, Structural)]
pub enum Malformed {
    /// A varint does not end, or needs more than 64 bits.
    Varint,
    /// A key needs more than 32 bits.
    Key(u64),
    /// No way to write a value has this code.
    WireTypeCode(u8),
    /// A key has the tag zero.
    Tag,
    /// A value needs more bytes than there are.
    Underflow,
    /// A group ends that is not open.
    EndGroup,
    /// Too many levels are entered.
    Depth,
    /// A field's value is written otherwise than its type demands.
    WireType,
    /// A string is not well-formed.
    Unicode,
}

/// How a field's value is written.
#[derive(Debug, Clone, Copy, PartialEq, Eq, Structural)]
pub enum WireType {
    Varint,
    SixtyFourBit,
    LengthDelimited,
    StartGroup,
    EndGroup,
    ThirtyTwoBit,
}

/// The integer written from byte `i` of a varint on, and where the varint ends:
/// seven bits in each byte, the least significant first, the top bit set in all
/// bytes but the last. There are at most ten bytes and 64 bits.
pub open spec fn varint_from(b: Seq<u8>, i: nat) -> Option<(nat, nat)>
    decreases 10 - i,
{
    if i >= 10 || i >= b.len() {
        None
    } else if b[i as int] < 0x80 {
        if i == 9 && b[i as int] >= 2 {
            None
        } else {
            Some((b[i as int] as nat, i + 1))
        }
    } else {
        match varint_from(b, i + 1) {
            Some((high, end)) => Some(((b[i as int] - 0x80 + 0x80 * high) as nat, end)),
            None => None,
        }
    }
}

/// The varint at the start of `b`, and its length.
pub open spec fn varint(b: Seq<u8>) -> Option<(nat, nat)> {
    varint_from(b, 0)
}

pub open spec fn wire_type(code: nat) -> Option<WireType> {
    if code == 0 {
        Some(WireType::Varint)
    } else if code == 1 {
        Some(WireType::SixtyFourBit)
    } else if code == 2 {
        Some(WireType::LengthDelimited)
    } else if code == 3 {
        Some(WireType::StartGroup)
    } else if code == 4 {
        Some(WireType::EndGroup)
    } else if code == 5 {
        Some(WireType::ThirtyTwoBit)
    } else {
        None
    }
}

/// The key at the start of `b`: the field's tag, how its value is written, and
/// the length of the key.
pub open spec fn key(b: Seq<u8>) -> Option<(nat, WireType, nat)> {
    match varint(b) {
        Some((k, end)) => if k <= u32::MAX && k / 8 >= 1 {
            match wire_type(k % 8) {
                Some(w) => Some((k / 8, w, end)),
                None => None,
            }
        } else {
            None
        },
        None => None,
    }
}

/// Why there is no key at the start of `b`.
pub open spec fn key_fault(b: Seq<u8>) -> Malformed {
    match varint(b) {
        Some((k, end)) => if k > u32::MAX {
            Malformed::Key(k as u64)
        } else if wire_type(k % 8) is None {
            Malformed::WireTypeCode((k % 8) as u8)
        } else {
            Malformed::Tag
        },
        None => Malformed::Varint,
    }
}

/// `prost::encoding::decode_varint` reads one varint from the front of a buffer
/// and moves the buffer past it; it fails where there is none, or where the
/// varint needs more than 64 bits.
#[verifier::external_body]
pub(crate) fn read_varint<'a>(buf: &'a [u8]) -> (r: Result<(u64, &'a [u8]), prost::DecodeError>)
    ensures
        match r {
            Ok((value, rest)) => varint(buf@) matches Some((v, end)) && value == v && rest@
                == buf@.skip(end as int),
            Err(_) => varint(buf@) is None,
        },
{
    let mut rest: &'a [u8] = buf;
    let value = prost::encoding::decode_varint(&mut rest)?;
    Ok((value, rest))
}

/// `prost::encoding::decode_key` reads a varint and takes it apart: the low three
/// bits are the wire type, the rest is the tag. It fails where there is no
/// varint, where it exceeds 32 bits, for an unknown wire type and for tag zero.
#[verifier::external_body]
fn read_key<'a>(buf: &'a [u8]) -> (r: Result<(u32, WireType, &'a [u8]), prost::DecodeError>)
    ensures
        match r {
            Ok((tag, wire, rest)) => key(buf@) matches Some((t, w, end)) && tag == t && wire == w
                && rest@ == buf@.skip(end as int),
            Err(_) => key(buf@) is None,
        },
{
    let mut rest: &'a [u8] = buf;
    let (tag, wire) = prost::encoding::decode_key(&mut rest)?;
    let wire = match wire {
        prost::encoding::WireType::Varint => WireType::Varint,
        prost::encoding::WireType::SixtyFourBit => WireType::SixtyFourBit,
        prost::encoding::WireType::LengthDelimited => WireType::LengthDelimited,
        prost::encoding::WireType::StartGroup => WireType::StartGroup,
        prost::encoding::WireType::EndGroup => WireType::EndGroup,
        prost::encoding::WireType::ThirtyTwoBit => WireType::ThirtyTwoBit,
    };
    Ok((tag, wire, rest))
}

pub proof fn lemma_varint_bounds(b: Seq<u8>, i: nat)
    ensures
        varint_from(b, i) matches Some((v, end)) ==> i < end <= b.len(),
    decreases 10 - i,
{
    if i < 10 && i < b.len() && b[i as int] >= 0x80 {
        lemma_varint_bounds(b, i + 1);
    }
}

/// The length of a value at the start of `b`, after a key with the given tag.
/// A group runs to the end of its closing key; `depth` is how many levels may
/// still be entered.
pub open spec fn value_len(b: Seq<u8>, w: WireType, tag: nat, depth: nat) -> Result<nat, Malformed>
    decreases b.len(), 1nat,
{
    if depth == 0 {
        Err(Malformed::Depth)
    } else {
        match w {
            WireType::Varint => match varint(b) {
                Some((v, end)) => Ok(end),
                None => Err(Malformed::Varint),
            },
            WireType::SixtyFourBit => if b.len() >= 8 {
                Ok(8)
            } else {
                Err(Malformed::Underflow)
            },
            WireType::ThirtyTwoBit => if b.len() >= 4 {
                Ok(4)
            } else {
                Err(Malformed::Underflow)
            },
            WireType::LengthDelimited => match varint(b) {
                Some((len, end)) => if end + len <= b.len() {
                    Ok(end + len)
                } else {
                    Err(Malformed::Underflow)
                },
                None => Err(Malformed::Varint),
            },
            WireType::StartGroup => group_len(b, tag, depth),
            WireType::EndGroup => Err(Malformed::EndGroup),
        }
    }
}

/// The length of the inside of a group with the given tag and its closing key.
pub open spec fn group_len(b: Seq<u8>, tag: nat, depth: nat) -> Result<nat, Malformed>
    decreases b.len(), 0nat,
{
    proof {
        lemma_varint_bounds(b, 0);
    }
    match key(b) {
        Some((t, w, end)) => if w == WireType::EndGroup {
            if t == tag {
                Ok(end)
            } else {
                Err(Malformed::EndGroup)
            }
        } else {
            match value_len(b.skip(end as int), w, t, (depth - 1) as nat) {
                Ok(n) => if end + n <= b.len() {
                    match group_len(b.skip((end + n) as int), tag, depth) {
                        Ok(m) => Ok(end + n + m),
                        Err(e) => Err(e),
                    }
                } else {
                    Err(Malformed::Underflow)
                },
                Err(e) => Err(e),
            }
        },
        None => Err(key_fault(b)),
    }
}

/// What a field holds. The inside of fixed-size values and groups is left out:
/// no message here has any.
pub enum Payload {
    Varint(u64),
    Bytes(Seq<u8>),
    Skipped,
}

/// The field at the start of `b`: its tag, what it holds, and its length.
pub open spec fn field(b: Seq<u8>, depth: nat) -> Result<(nat, Payload, nat), Malformed> {
    match key(b) {
        Some((tag, w, end)) => {
            let rest = b.skip(end as int);
            match value_len(rest, w, tag, depth) {
                Ok(n) => Ok(
                    (
                        tag,
                        match w {
                            WireType::Varint => Payload::Varint(varint(rest).unwrap().0 as u64),
                            WireType::LengthDelimited => Payload::Bytes(
                                rest.subrange(varint(rest).unwrap().1 as int, n as int),
                            ),
                            _ => Payload::Skipped,
                        },
                        end + n,
                    ),
                ),
                Err(e) => Err(e),
            }
        },
        None => Err(key_fault(b)),
    }
}

/// A value is within its bytes.
pub proof fn lemma_value_bounds(b: Seq<u8>, w: WireType, tag: nat, depth: nat)
    ensures
        value_len(b, w, tag, depth) matches Ok(n) ==> n <= b.len(),
    decreases b.len(), 1nat,
{
    lemma_varint_bounds(b, 0);
    if depth > 0 && w == WireType::StartGroup {
        lemma_group_bounds(b, tag, depth);
    }
}

proof fn lemma_group_bounds(b: Seq<u8>, tag: nat, depth: nat)
    ensures
        group_len(b, tag, depth) matches Ok(n) ==> n <= b.len(),
    decreases b.len(), 0nat,
{
    lemma_varint_bounds(b, 0);
    match key(b) {
        Some((t, w, end)) => {
            if w != WireType::EndGroup {
                match value_len(b.skip(end as int), w, t, (depth - 1) as nat) {
                    Ok(n) => {
                        if end + n <= b.len() {
                            lemma_group_bounds(b.skip((end + n) as int), tag, depth);
                        }
                    },
                    Err(_) => {},
                }
            }
        },
        None => {},
    }
}

/// A field has at least its key, and is within its bytes.
pub proof fn lemma_field_bounds(b: Seq<u8>, depth: nat)
    ensures
        field(b, depth) matches Ok((tag, p, end)) ==> 0 < end <= b.len(),
{
    lemma_varint_bounds(b, 0);
    match key(b) {
        Some((tag, w, end)) => {
            lemma_value_bounds(b.skip(end as int), w, tag, depth);
        },
        None => {},
    }
}

/// Why there is no key.
fn find_key_fault(buf: &[u8]) -> (r: Malformed)
    requires
        key(buf@) is None,
    ensures
        r == key_fault(buf@),
{
    match read_varint(buf) {
        Ok((k, _)) => {
            let code: u64 = k % 8;
            if k > u32::MAX as u64 {
                Malformed::Key(k)
            } else if code > 5 {
                Malformed::WireTypeCode(code as u8)
            } else {
                Malformed::Tag
            }
        },
        Err(_) => Malformed::Varint,
    }
}

/// The bytes behind a value.
fn skip_value<'a>(buf: &'a [u8], w: WireType, tag: u32, depth: u32) -> (r: Result<
    &'a [u8],
    Malformed,
>)
    ensures
        match r {
            Ok(rest) => value_len(buf@, w, tag as nat, depth as nat) matches Ok(n) && n
                <= buf@.len() && rest@ == buf@.skip(n as int),
            Err(e) => value_len(buf@, w, tag as nat, depth as nat) matches Err(fault)
                && fault == e,
        },
    decreases buf@.len(), 1nat,
{
    proof {
        lemma_varint_bounds(buf@, 0);
    }
    if depth == 0 {
        return Err(Malformed::Depth);
    }
    match w {
        WireType::Varint => match read_varint(buf) {
            Ok((_, rest)) => Ok(rest),
            Err(_) => Err(Malformed::Varint),
        },
        WireType::SixtyFourBit => if buf.len() >= 8 {
            Ok(slice_subrange(buf, 8, buf.len()))
        } else {
            Err(Malformed::Underflow)
        },
        WireType::ThirtyTwoBit => if buf.len() >= 4 {
            Ok(slice_subrange(buf, 4, buf.len()))
        } else {
            Err(Malformed::Underflow)
        },
        WireType::LengthDelimited => match read_delimited(buf) {
            Ok((_, rest)) => Ok(rest),
            Err(e) => Err(e),
        },
        WireType::StartGroup => skip_group(buf, tag, depth),
        WireType::EndGroup => Err(Malformed::EndGroup),
    }
}

/// The bytes behind a group.
fn skip_group<'a>(buf: &'a [u8], tag: u32, depth: u32) -> (r: Result<&'a [u8], Malformed>)
    requires
        depth > 0,
    ensures
        match r {
            Ok(rest) => group_len(buf@, tag as nat, depth as nat) matches Ok(n) && n
                <= buf@.len() && rest@ == buf@.skip(n as int),
            Err(e) => group_len(buf@, tag as nat, depth as nat) matches Err(fault) && fault == e,
        },
    decreases buf@.len(), 0nat,
{
    let mut cur: &'a [u8] = buf;
    loop
        invariant
            depth > 0,
            cur@.len() <= buf@.len(),
            cur@ == buf@.skip(buf@.len() - cur@.len()),
            group_len(buf@, tag as nat, depth as nat) == match group_len(
                cur@,
                tag as nat,
                depth as nat,
            ) {
                Ok(m) => Ok::<nat, Malformed>((buf@.len() - cur@.len() + m) as nat),
                Err(e) => Err(e),
            },
        decreases cur@.len(),
    {
        proof {
            lemma_varint_bounds(cur@, 0);
        }
        match read_key(cur) {
            Ok((t, w, rest)) => {
                match w {
                    WireType::EndGroup => {
                        if t == tag {
                            proof {
                                lemma_group_bounds(buf@, tag as nat, depth as nat);
                                let n = group_len(buf@, tag as nat, depth as nat).unwrap();
                                assert(rest@ =~= buf@.skip(n as int));
                            }
                            return Ok(rest);
                        }
                        return Err(Malformed::EndGroup);
                    },
                    _ => {
                        match skip_value(rest, w, t, depth - 1) {
                            Ok(next) => {
                                let ghost end = key(cur@).unwrap().2;
                                let ghost n = value_len(rest@, w, t as nat, (depth - 1) as nat).unwrap();
                                assert(next@ =~= cur@.skip((end + n) as int));
                                assert(next@ =~= buf@.skip(buf@.len() - next@.len()));
                                cur = next;
                            },
                            Err(e) => {
                                return Err(e);
                            },
                        }
                    },
                }
            },
            Err(_) => {
                return Err(find_key_fault(cur));
            },
        }
    }
}

/// A length and as many bytes, and what is behind them.
fn read_delimited<'a>(buf: &'a [u8]) -> (r: Result<(&'a [u8], &'a [u8]), Malformed>)
    ensures
        match r {
            Ok((inside, rest)) => varint(buf@) matches Some((len, end)) && end + len <= buf@.len()
                && inside@ == buf@.subrange(end as int, (end + len) as int) && rest@ == buf@.skip(
                (end + len) as int,
            ),
            Err(e) => match varint(buf@) {
                Some((len, end)) => end + len > buf@.len() && e == Malformed::Underflow,
                None => e == Malformed::Varint,
            },
        },
{
    proof {
        lemma_varint_bounds(buf@, 0);
    }
    match read_varint(buf) {
        Ok((len, rest)) => {
            if len <= rest.len() as u64 {
                let len: usize = len as usize;
                let inside: &'a [u8] = slice_subrange(rest, 0, len);
                let behind: &'a [u8] = slice_subrange(rest, len, rest.len());
                let ghost end = varint(buf@).unwrap().1;
                assert(inside@ =~= buf@.subrange(end as int, (end + len) as int));
                assert(behind@ =~= buf@.skip((end + len) as int));
                Ok((inside, behind))
            } else {
                Err(Malformed::Underflow)
            }
        },
        Err(_) => Err(Malformed::Varint),
    }
}

/// What a field holds.
pub enum Value<'a> {
    Varint(u64),
    Bytes(&'a [u8]),
    Skipped,
}

impl<'a> Value<'a> {
    pub open spec fn payload(self) -> Payload {
        match self {
            Value::Varint(v) => Payload::Varint(v),
            Value::Bytes(b) => Payload::Bytes(b@),
            Value::Skipped => Payload::Skipped,
        }
    }
}

/// The first field of `buf`, and what is behind it.
pub fn read_field<'a>(buf: &'a [u8], depth: u32) -> (r: Result<
    (u32, Value<'a>, &'a [u8]),
    Malformed,
>)
    requires
        depth > 0,
    ensures
        match r {
            Ok((tag, value, rest)) => field(buf@, depth as nat) matches Ok((t, p, end)) && tag
                == t && value.payload() == p && rest@ == buf@.skip(end as int) && rest@.len()
                < buf@.len(),
            Err(e) => field(buf@, depth as nat) matches Err(fault) && fault == e,
        },
{
    proof {
        lemma_varint_bounds(buf@, 0);
        lemma_field_bounds(buf@, depth as nat);
    }
    match read_key(buf) {
        Ok((tag, w, rest)) => {
            proof {
                lemma_varint_bounds(rest@, 0);
            }
            match w {
                WireType::Varint => match read_varint(rest) {
                    Ok((v, behind)) => {
                        let ghost end = field(buf@, depth as nat).unwrap().2;
                        assert(behind@ =~= buf@.skip(end as int));
                        Ok((tag, Value::Varint(v), behind))
                    },
                    Err(_) => Err(Malformed::Varint),
                },
                WireType::LengthDelimited => match read_delimited(rest) {
                    Ok((inside, behind)) => {
                        let ghost end = field(buf@, depth as nat).unwrap().2;
                        assert(behind@ =~= buf@.skip(end as int));
                        Ok((tag, Value::Bytes(inside), behind))
                    },
                    Err(e) => Err(e),
                },
                _ => match skip_value(rest, w, tag, depth) {
                    Ok(behind) => {
                        let ghost end = field(buf@, depth as nat).unwrap().2;
                        assert(behind@ =~= buf@.skip(end as int));
                        Ok((tag, Value::Skipped, behind))
                    },
                    Err(e) => Err(e),
                },
            }
        },
        Err(_) => Err(find_key_fault(buf)),
    }
}

/// A varint is ten bytes at most, and 64 bits: bytes that all go on, or a tenth byte of
/// more than one bit, are none. Otherwise it ends with the first byte below `0x80`.
pub proof fn lemma_varint_ends(b: Seq<u8>, n: int)
    ensures
        0 <= n < 10 && n < b.len() && b[n] < 0x80 && (forall|i: int|
            0 <= i < n ==> #[trigger] b[i] >= 0x80) && (n < 9 || b[9] < 2) ==> varint(b) is Some
            && varint(b).unwrap().1 == n + 1,
        n == 9 && b.len() >= 10 && b[9] >= 2 && (forall|i: int|
            0 <= i < 9 ==> #[trigger] b[i] >= 0x80) ==> varint(b) is None,
        (forall|i: int| 0 <= i < b.len() && i < 10 ==> #[trigger] b[i] >= 0x80) ==> varint(
            b,
        ) is None,
{
    if 0 <= n < 10 && n < b.len() && b[n] < 0x80 && (forall|i: int|
        0 <= i < n ==> #[trigger] b[i] >= 0x80) && (n < 9 || b[9] < 2) {
        lemma_varint_end_from(b, 0, n);
    }
    if n == 9 && b.len() >= 10 && b[9] >= 2 && (forall|i: int|
        0 <= i < 9 ==> #[trigger] b[i] >= 0x80) {
        lemma_varint_too_long(b, 0);
    }
    if forall|i: int| 0 <= i < b.len() && i < 10 ==> #[trigger] b[i] >= 0x80 {
        lemma_varint_endless(b, 0);
    }
}

proof fn lemma_varint_end_from(b: Seq<u8>, i: nat, n: int)
    requires
        i <= n < 10,
        n < b.len(),
        b[n] < 0x80,
        forall|k: int| i <= k < n ==> #[trigger] b[k] >= 0x80,
        n < 9 || b[9] < 2,
    ensures
        varint_from(b, i) is Some,
        varint_from(b, i).unwrap().1 == n + 1,
    decreases n - i,
{
    if i < n {
        lemma_varint_end_from(b, i + 1, n);
    }
}

proof fn lemma_varint_too_long(b: Seq<u8>, i: nat)
    requires
        i <= 9,
        b.len() >= 10,
        b[9] >= 2,
        forall|k: int| i <= k < 9 ==> #[trigger] b[k] >= 0x80,
    ensures
        varint_from(b, i) is None,
    decreases 10 - i,
{
    reveal_with_fuel(varint_from, 2);
    if i < 9 {
        lemma_varint_too_long(b, i + 1);
    }
}

proof fn lemma_varint_endless(b: Seq<u8>, i: nat)
    requires
        forall|k: int| i <= k < b.len() && k < 10 ==> #[trigger] b[k] >= 0x80,
    ensures
        varint_from(b, i) is None,
    decreases 10 - i,
{
    if i < 10 && i < b.len() {
        lemma_varint_endless(b, i + 1);
    }
}

/// A varint counts its bytes in sevens of bits, the first for the least.
pub proof fn lemma_varint_value(b: Seq<u8>)
    requires
        b.len() > 0,
    ensures
        b[0] < 0x80 ==> varint(b) == Some((b[0] as nat, 1nat)),
        b[0] >= 0x80 && b.len() > 1 && b[1] < 0x80 ==> varint(b) == Some(
            ((b[0] - 0x80 + 0x80 * b[1]) as nat, 2nat),
        ),
        b[0] >= 0x80 && b.len() > 2 && b[1] >= 0x80 && b[2] < 0x80 ==> varint(b) == Some(
            ((b[0] - 0x80 + 0x80 * (b[1] - 0x80) + 0x4000 * b[2]) as nat, 3nat),
        ),
{
    reveal_with_fuel(varint_from, 4);
}

/// How a value is skipped: eight bytes or four for those of fixed size, a varint to its
/// end, and a length with as many bytes; what is not there is missing.
pub proof fn lemma_value_sizes(b: Seq<u8>, tag: nat, depth: nat)
    requires
        depth > 0,
    ensures
        b.len() >= 8 ==> value_len(b, WireType::SixtyFourBit, tag, depth) == Ok::<nat, Malformed>(
            8,
        ),
        b.len() < 8 ==> value_len(b, WireType::SixtyFourBit, tag, depth) == Err::<nat, _>(
            Malformed::Underflow,
        ),
        b.len() >= 4 ==> value_len(b, WireType::ThirtyTwoBit, tag, depth) == Ok::<nat, Malformed>(
            4,
        ),
        b.len() < 4 ==> value_len(b, WireType::ThirtyTwoBit, tag, depth) == Err::<nat, _>(
            Malformed::Underflow,
        ),
        varint(b) is None ==> value_len(b, WireType::Varint, tag, depth) == Err::<nat, _>(
            Malformed::Varint,
        ) && value_len(b, WireType::LengthDelimited, tag, depth) == Err::<nat, _>(
            Malformed::Varint,
        ),
        varint(b) matches Some((v, end)) ==> value_len(b, WireType::Varint, tag, depth) == Ok::<
            _,
            Malformed,
        >(end) && (end + v <= b.len() ==> value_len(b, WireType::LengthDelimited, tag, depth)
            == Ok::<_, Malformed>(end + v)) && (end + v > b.len() ==> value_len(
            b,
            WireType::LengthDelimited,
            tag,
            depth,
        ) == Err::<nat, _>(Malformed::Underflow)),
        value_len(b, WireType::EndGroup, tag, depth) == Err::<nat, _>(Malformed::EndGroup),
{
}

/// A key is a varint of 32 bits: its low three bits tell how the value is written, the
/// others are the tag, which is not zero.
pub proof fn lemma_key_parts(b: Seq<u8>)
    ensures
        key(b) matches Some((tag, w, end)) ==> varint(b) is Some && varint(b).unwrap().1 == end
            && tag >= 1 && 8 * tag <= varint(b).unwrap().0 <= 8 * tag + 5 && varint(b).unwrap().0
            <= u32::MAX && (w == WireType::Varint <==> varint(b).unwrap().0 == 8 * tag) && (w
            == WireType::SixtyFourBit <==> varint(b).unwrap().0 == 8 * tag + 1) && (w
            == WireType::LengthDelimited <==> varint(b).unwrap().0 == 8 * tag + 2) && (w
            == WireType::StartGroup <==> varint(b).unwrap().0 == 8 * tag + 3) && (w
            == WireType::EndGroup <==> varint(b).unwrap().0 == 8 * tag + 4) && (w
            == WireType::ThirtyTwoBit <==> varint(b).unwrap().0 == 8 * tag + 5),
        varint(b) matches Some((k, end)) ==> (8 <= k <= u32::MAX && k % 8 <= 5 ==> key(b) is Some),
        varint(b) matches Some((k, end)) ==> (k > u32::MAX ==> key(b) is None && key_fault(b)
            == Malformed::Key(k as u64)),
        varint(b) matches Some((k, end)) ==> (k <= u32::MAX && k % 8 > 5 ==> key(b) is None
            && key_fault(b) == Malformed::WireTypeCode((k % 8) as u8)),
        varint(b) matches Some((k, end)) ==> (k <= 5 ==> key(b) is None && key_fault(b)
            == Malformed::Tag),
        varint(b) is None ==> key(b) is None && key_fault(b) == Malformed::Varint,
{
}

proof fn lemma_varint_more(b: Seq<u8>, rest: Seq<u8>, i: nat)
    ensures
        varint_from(b, i) is Some ==> varint_from(b + rest, i) == varint_from(b, i),
    decreases 10 - i,
{
    if i < 10 && i < b.len() {
        assert((b + rest)[i as int] == b[i as int]);
        if b[i as int] >= 0x80 {
            lemma_varint_more(b, rest, i + 1);
        }
    }
}

proof fn lemma_value_more(b: Seq<u8>, rest: Seq<u8>, w: WireType, tag: nat, depth: nat)
    ensures
        value_len(b, w, tag, depth) is Ok ==> value_len(b + rest, w, tag, depth) == value_len(
            b,
            w,
            tag,
            depth,
        ),
    decreases b.len(), 1nat,
{
    lemma_varint_more(b, rest, 0);
    if depth > 0 && w == WireType::StartGroup {
        lemma_group_more(b, rest, tag, depth);
    }
}

proof fn lemma_group_more(b: Seq<u8>, rest: Seq<u8>, tag: nat, depth: nat)
    ensures
        group_len(b, tag, depth) is Ok ==> group_len(b + rest, tag, depth) == group_len(
            b,
            tag,
            depth,
        ),
    decreases b.len(), 0nat,
{
    lemma_varint_bounds(b, 0);
    lemma_varint_more(b, rest, 0);
    match key(b) {
        Some((t, w, end)) => {
            if w != WireType::EndGroup {
                let inner = b.skip(end as int);
                lemma_value_more(inner, rest, w, t, (depth - 1) as nat);
                assert((b + rest).skip(end as int) =~= inner + rest);
                match value_len(inner, w, t, (depth - 1) as nat) {
                    Ok(n) => {
                        if end + n <= b.len() {
                            let next = b.skip((end + n) as int);
                            lemma_group_more(next, rest, tag, depth);
                            assert((b + rest).skip((end + n) as int) =~= next + rest);
                        }
                    },
                    Err(_) => {},
                }
            }
        },
        None => {},
    }
}

/// A field that is whole is read alike whatever follows it.
pub proof fn lemma_field_more(b: Seq<u8>, rest: Seq<u8>, depth: nat)
    requires
        field(b, depth) is Ok,
    ensures
        field(b + rest, depth) == field(b, depth),
{
    lemma_varint_bounds(b, 0);
    lemma_varint_more(b, rest, 0);
    match key(b) {
        Some((tag, w, end)) => {
            let inner = b.skip(end as int);
            assert((b + rest).skip(end as int) =~= inner + rest);
            lemma_varint_bounds(inner, 0);
            lemma_varint_more(inner, rest, 0);
            lemma_value_more(inner, rest, w, tag, depth);
            lemma_value_bounds(inner, w, tag, depth);
            match value_len(inner, w, tag, depth) {
                Ok(n) => {
                    if w == WireType::LengthDelimited {
                        let start = varint(inner).unwrap().1 as int;
                        assert((inner + rest).subrange(start, n as int) =~= inner.subrange(
                            start,
                            n as int,
                        ));
                    }
                },
                Err(_) => {},
            }
        },
        None => {},
    }
}

/// A group ends with the closing key of its own tag, and another closing key is an error.
/// Before it stand fields, each of which takes one level; without levels left nothing is
/// entered.
pub proof fn lemma_groups(b: Seq<u8>, w: WireType, tag: nat, depth: nat)
    ensures
        value_len(b, w, tag, 0) == Err::<nat, _>(Malformed::Depth),
        depth > 0 ==> value_len(b, WireType::StartGroup, tag, depth) == group_len(b, tag, depth),
        key(b) is None ==> group_len(b, tag, depth) == Err::<nat, _>(key_fault(b)),
        key(b) matches Some((t, WireType::EndGroup, end)) ==> (t == tag ==> group_len(b, tag, depth)
            == Ok::<_, Malformed>(end)) && (t != tag ==> group_len(b, tag, depth) == Err::<nat, _>(
            Malformed::EndGroup,
        )),
        depth > 0 ==> (key(b) matches Some((t, inner, end)) ==> (inner != WireType::EndGroup
            ==> match value_len(b.skip(end as int), inner, t, (depth - 1) as nat) {
            Ok(n) => match group_len(b.skip((end + n) as int), tag, depth) {
                Ok(m) => group_len(b, tag, depth) == Ok::<_, Malformed>(end + n + m),
                Err(e) => group_len(b, tag, depth) == Err::<nat, _>(e),
            },
            Err(e) => group_len(b, tag, depth) == Err::<nat, _>(e),
        })),
{
    lemma_varint_bounds(b, 0);
    match key(b) {
        Some((t, inner, end)) => {
            lemma_value_bounds(b.skip(end as int), inner, t, (depth - 1) as nat);
        },
        None => {},
    }
}

} // verus!
