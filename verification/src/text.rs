//! Text as sequences of characters: decimal numerals, splitting, joining.

use vstd::prelude::*;
use vstd::string::StringSliceAdditionalSpecFns;
use vstd::utf8::decode_utf8;
use vstd::utf8::encode_utf8_decode_utf8;
use vstd::utf8::valid_utf8;

verus! {

/// `String::push` appends one character to the end of the string.
pub assume_specification[ String::push ](s: &mut String, c: char)
    ensures
        final(s)@ == old(s)@.push(c),
;

/// `String::push_str` appends a string slice to the end of the string.
pub assume_specification[ String::push_str ](s: &mut String, t: &str)
    ensures
        final(s)@ == old(s)@ + t@,
;

/// The character that writes the digit `d`.
pub open spec fn digit(d: nat) -> char {
    (48 + d) as char
}

/// The decimal numeral of `n`, without leading zeros.
pub open spec fn decimal(n: nat) -> Seq<char>
    decreases n,
{
    if n < 10 {
        seq![digit(n)]
    } else {
        decimal(n / 10).push(digit(n % 10))
    }
}

/// Appends the decimal numeral of `n` to `out`.
pub fn push_decimal(out: &mut String, n: u128)
    ensures
        final(out)@ == old(out)@ + decimal(n as nat),
    decreases n,
{
    if n >= 10 {
        push_decimal(out, n / 10);
    }
    let d: u8 = (n % 10) as u8;
    let c: char = (48u8 + d) as char;
    out.push(c);
    assert(out@ =~= old(out)@ + decimal(n as nat));
}

/// The characters of `s`, in order.
pub fn to_chars(s: &str) -> (chars: Vec<char>)
    ensures
        chars@ == s@,
{
    let mut chars: Vec<char> = Vec::new();
    for c in it: s.chars()
        invariant
            chars@ == it.seq().take(it.index() as int),
            it.seq() == s@,
    {
        chars.push(c);
    }
    chars
}

/// `core::str::from_utf8` accepts well-formed UTF-8 and nothing else, and gives
/// the characters that it encodes.
#[verifier::external_body]
pub(crate) fn read_text(bytes: &[u8]) -> (r: Option<String>)
    ensures
        match r {
            Some(s) => valid_utf8(bytes@) && s@ == decode_utf8(bytes@),
            None => !valid_utf8(bytes@),
        },
{
    match core::str::from_utf8(bytes) {
        Ok(s) => Some(s.to_string()),
        Err(_) => None,
    }
}

/// Whether two strings have the same characters.
pub fn same_text(a: &str, b: &str) -> (r: bool)
    ensures
        r == (a@ == b@),
{
    let x: &[u8] = a.as_bytes();
    let y: &[u8] = b.as_bytes();
    if x.len() != y.len() {
        return false;
    }
    let mut i: usize = 0;
    while i < x.len()
        invariant
            i <= x.len() == y.len(),
            x@ == a.spec_bytes(),
            y@ == b.spec_bytes(),
            x@.take(i as int) == y@.take(i as int),
        decreases x.len() - i,
    {
        if x[i] != y[i] {
            return false;
        }
        i = i + 1;
        assert(x@.take(i as int) =~= y@.take(i as int));
    }
    proof {
        assert(x@ =~= y@) by {
            assert(x@.take(x.len() as int) =~= x@);
            assert(y@.take(x.len() as int) =~= y@);
        }
        encode_utf8_decode_utf8(a@);
        encode_utf8_decode_utf8(b@);
    }
    true
}

/// The first place of `c` from `from` on.
pub open spec fn first_at(s: Seq<char>, c: char, from: int) -> Option<int>
    decreases s.len() - from,
{
    if from < 0 || from >= s.len() {
        None
    } else if s[from] == c {
        Some(from)
    } else {
        first_at(s, c, from + 1)
    }
}

/// The pieces of `s` between the occurrences of `c`.
pub open spec fn pieces(s: Seq<char>, c: char) -> Seq<Seq<char>>
    decreases s.len(),
{
    if s.len() == 0 {
        seq![seq![]]
    } else if s.last() == c {
        pieces(s.drop_last(), c).push(seq![])
    } else {
        let before = pieces(s.drop_last(), c);
        before.drop_last().push(before.last().push(s.last()))
    }
}

/// The parts with `c` between them.
pub open spec fn joined(parts: Seq<Seq<char>>, c: char) -> Seq<char>
    decreases parts.len(),
{
    if parts.len() == 0 {
        seq![]
    } else if parts.len() == 1 {
        parts[0]
    } else {
        joined(parts.drop_last(), c).push(c) + parts.last()
    }
}

/// A text has at least one piece.
pub proof fn lemma_pieces_some(s: Seq<char>, c: char)
    ensures
        pieces(s, c).len() > 0,
    decreases s.len(),
{
    if s.len() > 0 {
        lemma_pieces_some(s.drop_last(), c);
    }
}

/// Joining the pieces of a text gives the text.
pub proof fn lemma_joined_pieces(s: Seq<char>, c: char)
    ensures
        joined(pieces(s, c), c) == s,
    decreases s.len(),
{
    reveal_with_fuel(joined, 2);
    lemma_pieces_some(s, c);
    if s.len() > 0 {
        let t = s.drop_last();
        lemma_pieces_some(t, c);
        lemma_joined_pieces(t, c);
        let before = pieces(t, c);
        let after = pieces(s, c);
        if s.last() == c {
            assert(after.drop_last() =~= before);
            assert(joined(after, c) =~= t.push(c));
        } else {
            assert(after.drop_last() =~= before.drop_last());
            assert(joined(after, c) =~= t.push(s.last()));
        }
        assert(t.push(s.last()) =~= s);
    } else {
        assert(joined(pieces(s, c), c) =~= s);
    }
}

/// No piece holds the character that parts them.
pub proof fn lemma_pieces_free(s: Seq<char>, c: char, i: int)
    requires
        0 <= i < pieces(s, c).len(),
    ensures
        !pieces(s, c)[i].contains(c),
    decreases s.len(),
{
    if s.len() > 0 {
        let before = pieces(s.drop_last(), c);
        lemma_pieces_some(s.drop_last(), c);
        if i < before.len() {
            lemma_pieces_free(s.drop_last(), c, i);
        }
        if s.last() != c && i == before.len() - 1 {
            let piece = before.last().push(s.last());
            assert(pieces(s, c)[i] == piece);
            if piece.contains(c) {
                let k = choose|k: int| 0 <= k < piece.len() && piece[k] == c;
                assert(before.last()[k] == c);
            }
        }
    }
}

/// The place of `c` in `s` from `from` on.
pub fn find_from(s: &Vec<char>, c: char, from: usize) -> (r: Option<usize>)
    ensures
        match r {
            Some(i) => first_at(s@, c, from as int) == Some(i as int) && from <= i < s@.len()
                && s@[i as int] == c,
            None => first_at(s@, c, from as int) is None,
        },
{
    let mut i: usize = from;
    while i < s.len()
        invariant
            from <= i,
            first_at(s@, c, from as int) == first_at(s@, c, i as int),
        decreases s.len() - i,
    {
        if s[i] == c {
            return Some(i);
        }
        i += 1;
    }
    None
}

/// The characters from `start` up to `end`.
pub fn text_between(s: &Vec<char>, start: usize, end: usize) -> (r: String)
    requires
        start <= end <= s@.len(),
    ensures
        r@ == s@.subrange(start as int, end as int),
{
    let mut r: String = String::new();
    let mut i: usize = start;
    while i < end
        invariant
            start <= i <= end <= s@.len(),
            r@ == s@.subrange(start as int, i as int),
        decreases end - i,
    {
        r.push(s[i]);
        i += 1;
        assert(r@ =~= s@.subrange(start as int, i as int));
    }
    r
}

/// The pieces of `s` between the occurrences of `c`.
pub fn split_text(s: &str, c: char) -> (r: Vec<String>)
    ensures
        r.deep_view() == pieces(s@, c),
{
    let chars: Vec<char> = to_chars(s);
    let mut r: Vec<String> = Vec::new();
    let mut last: String = String::new();
    let mut i: usize = 0;
    proof {
        assert(chars@.take(0) =~= seq![]);
        assert(r.deep_view().push(last@) =~= pieces(chars@.take(0), c));
    }
    while i < chars.len()
        invariant
            i <= chars@.len(),
            r.deep_view().push(last@) == pieces(chars@.take(i as int), c),
        decreases chars.len() - i,
    {
        let ghost before = r.deep_view();
        let ghost t = chars@.take(i + 1);
        assert(t.drop_last() =~= chars@.take(i as int));
        assert(t.last() == chars@[i as int]);
        if chars[i] == c {
            let mut done: String = String::new();
            std::mem::swap(&mut done, &mut last);
            r.push(done);
            assert(r.deep_view() =~= before.push(done@));
            assert(last@ =~= seq![]);
        } else {
            last.push(chars[i]);
            assert(before.push(last@) =~= pieces(t, c));
        }
        i += 1;
    }
    let ghost before = r.deep_view();
    r.push(last);
    assert(r.deep_view() =~= before.push(last@));
    assert(chars@.take(i as int) =~= s@);
    r
}

/// The parts from `start` up to `end`, with `c` between them.
pub fn join_text(parts: &Vec<String>, start: usize, end: usize, c: char) -> (r: String)
    requires
        start <= end <= parts@.len(),
    ensures
        r@ == joined(parts.deep_view().subrange(start as int, end as int), c),
{
    let mut r: String = String::new();
    let mut i: usize = start;
    proof {
        assert(parts.deep_view().subrange(start as int, start as int) =~= seq![]);
        assert(r@ =~= seq![]);
    }
    while i < end
        invariant
            start <= i <= end <= parts@.len(),
            r@ == joined(parts.deep_view().subrange(start as int, i as int), c),
        decreases end - i,
    {
        let ghost t = parts.deep_view().subrange(start as int, i + 1);
        assert(t.drop_last() =~= parts.deep_view().subrange(start as int, i as int));
        assert(t.last() == parts@[i as int]@);
        if i > start {
            r.push(c);
        }
        r.push_str(parts[i].as_str());
        assert(r@ =~= joined(t, c));
        i += 1;
    }
    r
}

/// Whether `s` begins with `prefix`.
pub fn begins_with(s: &Vec<char>, prefix: &Vec<char>) -> (r: bool)
    ensures
        r == prefix@.is_prefix_of(s@),
{
    if prefix.len() > s.len() {
        return false;
    }
    let mut i: usize = 0;
    while i < prefix.len()
        invariant
            i <= prefix@.len() <= s@.len(),
            forall|k: int| 0 <= k < i ==> prefix@[k] == s@[k],
        decreases prefix.len() - i,
    {
        if prefix[i] != s[i] {
            assert(prefix@[i as int] != s@.subrange(0, prefix@.len() as int)[i as int]);
            return false;
        }
        i += 1;
    }
    assert(prefix@ =~= s@.subrange(0, prefix@.len() as int));
    true
}

/// The pieces of two texts with the parting character between them.
pub proof fn lemma_pieces_concat(a: Seq<char>, b: Seq<char>, c: char)
    ensures
        pieces(a.push(c) + b, c) == pieces(a, c) + pieces(b, c),
    decreases b.len(),
{
    let whole = a.push(c) + b;
    lemma_pieces_some(a, c);
    if b.len() == 0 {
        assert(whole =~= a.push(c));
        assert(whole.drop_last() =~= a);
        assert(pieces(whole, c) =~= pieces(a, c) + pieces(b, c));
    } else {
        let rest = b.drop_last();
        lemma_pieces_concat(a, rest, c);
        lemma_pieces_some(rest, c);
        assert(whole.drop_last() =~= a.push(c) + rest);
        assert(whole.last() == b.last());
        assert(pieces(whole, c) =~= pieces(a, c) + pieces(b, c));
    }
}

/// A text without the parting character is one piece.
pub proof fn lemma_pieces_whole(s: Seq<char>, c: char)
    requires
        !s.contains(c),
    ensures
        pieces(s, c) == seq![s],
    decreases s.len(),
{
    if s.len() > 0 {
        let rest = s.drop_last();
        assert(!rest.contains(c)) by {
            if rest.contains(c) {
                let k = choose|k: int| 0 <= k < rest.len() && rest[k] == c;
                assert(s[k] == c);
            }
        }
        lemma_pieces_whole(rest, c);
        assert(s[s.len() - 1] != c) by {
            assert(s.contains(s[s.len() - 1]));
        }
        assert(rest.push(s.last()) =~= s);
        assert(pieces(s, c) =~= seq![s]);
    } else {
        assert(s =~= seq![]);
        assert(pieces(s, c) =~= seq![s]);
    }
}

/// The pieces of joined parts are the parts.
pub proof fn lemma_pieces_joined(parts: Seq<Seq<char>>, c: char)
    requires
        parts.len() > 0,
        forall|i: int| 0 <= i < parts.len() ==> !(#[trigger] parts[i]).contains(c),
    ensures
        pieces(joined(parts, c), c) == parts,
    decreases parts.len(),
{
    lemma_pieces_whole(parts.last(), c);
    if parts.len() == 1 {
        assert(parts =~= seq![parts[0]]);
    } else {
        let rest = parts.drop_last();
        assert forall|i: int| 0 <= i < rest.len() implies !(#[trigger] rest[i]).contains(c) by {
            assert(rest[i] == parts[i]);
        }
        lemma_pieces_joined(rest, c);
        lemma_pieces_concat(joined(rest, c), parts.last(), c);
        assert(rest + seq![parts.last()] =~= parts);
    }
}

/// The number that a numeral writes.
pub open spec fn numeral_value(s: Seq<char>) -> nat
    decreases s.len(),
{
    if s.len() == 0 {
        0
    } else {
        (10 * numeral_value(s.drop_last()) + (s.last() as int - 48)) as nat
    }
}

/// A numeral writes its number, in digits, without a leading zero.
pub proof fn lemma_decimal(n: nat)
    ensures
        numeral_value(decimal(n)) == n,
        decimal(n).len() > 0,
        n > 0 ==> decimal(n)[0] != '0',
        forall|i: int| 0 <= i < decimal(n).len() ==> '0' <= #[trigger] decimal(n)[i] <= '9',
    decreases n,
{
    reveal_with_fuel(numeral_value, 2);
    if n < 10 {
        assert(decimal(n).drop_last() =~= seq![]);
    } else {
        lemma_decimal(n / 10);
        assert(decimal(n).drop_last() =~= decimal(n / 10));
        assert(decimal(n)[0] == decimal(n / 10)[0]);
        assert forall|i: int| 0 <= i < decimal(n).len() implies '0' <= #[trigger] decimal(n)[i]
            <= '9' by {
            if i < decimal(n / 10).len() {
                assert(decimal(n)[i] == decimal(n / 10)[i]);
            }
        }
    }
}

/// The place that is found is the first one; none is found only where there is none.
pub proof fn lemma_first_place(s: Seq<char>, c: char, from: int)
    requires
        0 <= from,
    ensures
        match first_at(s, c, from) {
            Some(at) => from <= at < s.len() && s[at] == c && forall|k: int|
                from <= k < at ==> #[trigger] s[k] != c,
            None => forall|k: int| from <= k < s.len() ==> #[trigger] s[k] != c,
        },
    decreases s.len() - from,
{
    if from < s.len() && s[from] != c {
        lemma_first_place(s, c, from + 1);
    }
}

} // verus!
