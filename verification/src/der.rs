//! The tag-length-value framing of the stored records.
//!
//! A framed object is one tag byte, a length field and as many value bytes as
//! the length field says. A length under 128 is written as one byte. Any other
//! length is written as a byte `0x80 + n` followed by the `n` big-endian digits
//! of the length, of which the first is not zero. A reader accepts no other
//! form, and at most eight digits.

use vstd::prelude::*;

verus! {

/// The tag of a byte string.
pub const TAG_OCTET_STRING: u8 = 0x04;

/// The tag of a sequence of framed objects.
pub const TAG_SEQUENCE: u8 = 0x30;

/// The largest number of digits that a length field may have.
pub const LENGTH_DIGITS_MAX: usize = 8;

/// A framed object as read from the front of some bytes.
pub struct Tlv {
    /// The tag byte.
    pub tag: u8,
    /// The value bytes.
    pub value: Seq<u8>,
    /// The number of bytes that tag, length field and value take together.
    pub size: nat,
}

/// Where a framed object lies in the bytes it was read from.
#[derive(Debug, Clone, Copy, PartialEq, Eq, Structural)]
pub struct Element {
    /// The tag byte.
    pub tag: u8,
    /// The index of the first value byte.
    pub start: usize,
    /// The index behind the last value byte, which is where the next object begins.
    pub end: usize,
}

impl Element {
    /// The framed object that `self` points out in `bytes`, when it was read at index `pos`.
    pub open spec fn tlv_in(self, bytes: Seq<u8>, pos: int) -> Tlv {
        Tlv {
            tag: self.tag,
            value: bytes.subrange(self.start as int, self.end as int),
            size: (self.end - pos) as nat,
        }
    }
}

/// 256 to the power of `count`.
pub open spec fn radix(count: nat) -> nat
    decreases count,
{
    if count == 0 {
        1
    } else {
        256 * radix((count - 1) as nat)
    }
}

/// The number that the big-endian digits stand for.
pub open spec fn be_value(digits: Seq<u8>) -> nat
    decreases digits.len(),
{
    if digits.len() == 0 {
        0
    } else {
        be_value(digits.drop_last()) * 256 + digits.last() as nat
    }
}

/// The big-endian digits of `n` without leading zeros; none for zero.
pub open spec fn be_digits(n: nat) -> Seq<u8>
    decreases n,
{
    if n == 0 {
        Seq::empty()
    } else {
        be_digits(n / 256).push((n % 256) as u8)
    }
}

/// The length field that announces `len` value bytes.
pub open spec fn length_field(len: nat) -> Seq<u8> {
    if len < 128 {
        seq![len as u8]
    } else {
        seq![(0x80 + be_digits(len).len()) as u8] + be_digits(len)
    }
}

/// The framed object with the given tag and value.
pub open spec fn encode_tlv_spec(tag: u8, value: Seq<u8>) -> Seq<u8> {
    seq![tag] + length_field(value.len()) + value
}

/// Reads a length field from the front of `s`: the length it announces and the
/// number of bytes it takes, or `None` where `s` does not begin with a length
/// field in the one accepted form.
pub open spec fn parse_length(s: Seq<u8>) -> Option<(nat, nat)> {
    if s.len() == 0 {
        None
    } else if s[0] < 0x80 {
        Some((s[0] as nat, 1nat))
    } else {
        let count = s[0] - 0x80;
        if count == 0 || count > LENGTH_DIGITS_MAX || s.len() < 1 + count {
            None
        } else {
            let digits = s.subrange(1, 1 + count);
            if digits[0] == 0 || be_value(digits) < 128 {
                None
            } else {
                Some((be_value(digits), (1 + count) as nat))
            }
        }
    }
}

/// Reads one framed object from the front of `s`, or `None` where `s` does not
/// begin with one or ends before its value does. Bytes behind the object do not matter.
pub open spec fn parse_tlv(s: Seq<u8>) -> Option<Tlv> {
    if s.len() == 0 {
        None
    } else {
        match parse_length(s.skip(1)) {
            None => None,
            Some((len, used)) => if 1 + used + len <= s.len() {
                Some(
                    Tlv {
                        tag: s[0],
                        value: s.subrange(1 + used as int, 1 + used + len as int),
                        size: 1 + used + len,
                    },
                )
            } else {
                None
            },
        }
    }
}

/// `done` followed by what `rest` holds, where it holds anything.
pub open spec fn join(done: Seq<Tlv>, rest: Option<Seq<Tlv>>) -> Option<Seq<Tlv>> {
    match rest {
        None => None,
        Some(more) => Some(done + more),
    }
}

/// Reads the framed objects that fill `content` from its first byte to its last,
/// or `None` where they do not fill it exactly.
pub open spec fn parse_elements(content: Seq<u8>) -> Option<Seq<Tlv>>
    decreases content.len(),
{
    if content.len() == 0 {
        Some(Seq::empty())
    } else {
        match parse_tlv(content) {
            None => None,
            Some(first) => if 0 < first.size <= content.len() {
                join(seq![first], parse_elements(content.skip(first.size as int)))
            } else {
                None
            },
        }
    }
}

/// Reads a sequence and the framed objects in it, or `None` where `record` does
/// not begin with a sequence that framed objects fill exactly.
pub open spec fn parse_sequence(record: Seq<u8>) -> Option<Seq<Tlv>> {
    match parse_tlv(record) {
        None => None,
        Some(outer) => if outer.tag == TAG_SEQUENCE {
            parse_elements(outer.value)
        } else {
            None
        },
    }
}

/// The number of bytes that the framed objects take together.
pub open spec fn total_size(elements: Seq<Tlv>) -> nat
    decreases elements.len(),
{
    if elements.len() == 0 {
        0
    } else {
        total_size(elements.drop_last()) + elements.last().size
    }
}

/// The first powers of 256.
pub proof fn lemma_radix_values()
    ensures
        radix(0) == 1,
        radix(1) == 0x100,
        radix(2) == 0x1_0000,
        radix(3) == 0x100_0000,
        radix(4) == 0x1_0000_0000,
        radix(5) == 0x100_0000_0000,
        radix(6) == 0x1_0000_0000_0000,
        radix(7) == 0x100_0000_0000_0000,
        radix(8) == 0x1_0000_0000_0000_0000,
{
    reveal_with_fuel(radix, 10);
}

/// A larger exponent gives no smaller power.
pub proof fn lemma_radix_monotonic(low: nat, high: nat)
    requires
        low <= high,
    ensures
        radix(low) <= radix(high),
        radix(low) >= 1,
    decreases high,
{
    if low < high {
        lemma_radix_monotonic(low, (high - 1) as nat);
    } else if low > 0 {
        lemma_radix_monotonic((low - 1) as nat, (high - 1) as nat);
    }
}

/// Digits stand for a number below 256 to the power of their count.
pub proof fn lemma_be_value_bound(digits: Seq<u8>)
    ensures
        be_value(digits) < radix(digits.len()),
    decreases digits.len(),
{
    if digits.len() > 0 {
        lemma_be_value_bound(digits.drop_last());
    }
}

/// One more digit at the end multiplies by 256 and adds the digit.
pub proof fn lemma_be_value_push(digits: Seq<u8>, digit: u8)
    ensures
        be_value(digits.push(digit)) == be_value(digits) * 256 + digit as nat,
{
    assert(digits.push(digit).drop_last() =~= digits);
}

/// The digits of a number stand for that number, and begin with a digit that is not zero.
pub proof fn lemma_be_digits_value(n: nat)
    ensures
        be_value(be_digits(n)) == n,
        n > 0 ==> be_digits(n).len() > 0 && be_digits(n)[0] != 0,
        n == 0 ==> be_digits(n).len() == 0,
    decreases n,
{
    if n > 0 {
        lemma_be_digits_value(n / 256);
        lemma_be_value_push(be_digits(n / 256), (n % 256) as u8);
    }
}

/// A number below 256 to the power of `count` has at most `count` digits.
pub proof fn lemma_be_digits_len(n: nat, count: nat)
    requires
        n < radix(count),
    ensures
        be_digits(n).len() <= count,
    decreases n,
{
    if n > 0 {
        lemma_be_digits_len(n / 256, (count - 1) as nat);
    }
}

/// A length of at least 128 that fits in eight digits has from one to eight of them.
pub proof fn lemma_length_digits(len: nat)
    requires
        128 <= len <= u64::MAX,
    ensures
        1 <= be_digits(len).len() <= LENGTH_DIGITS_MAX,
        be_digits(len)[0] != 0,
        be_value(be_digits(len)) == len,
{
    lemma_radix_values();
    lemma_be_digits_len(len, 8);
    lemma_be_digits_value(len);
}

/// The length field of a length that fits in eight digits takes from one to nine bytes.
pub proof fn lemma_length_field_len(len: nat)
    requires
        len <= u64::MAX,
    ensures
        1 <= length_field(len).len() <= 1 + LENGTH_DIGITS_MAX,
{
    if len >= 128 {
        lemma_length_digits(len);
    }
}

/// A length field is read back as the length it was written for, whatever follows it.
pub proof fn lemma_parse_length_field(len: nat, rest: Seq<u8>)
    requires
        len <= u64::MAX,
    ensures
        parse_length(length_field(len) + rest) == Some((len, length_field(len).len())),
{
    let s = length_field(len) + rest;
    if len >= 128 {
        lemma_length_digits(len);
        let count = be_digits(len).len();
        assert(s[0] == (0x80 + count) as u8);
        assert(s.subrange(1, 1 + count as int) =~= be_digits(len));
    } else {
        assert(s[0] == len as u8);
    }
}

/// A length field that was cut short, or is followed by nothing, is not read as
/// a length that bytes behind it could still fill.
pub proof fn lemma_parse_length_prefix(len: nat, n: nat)
    requires
        len <= u64::MAX,
        n <= length_field(len).len(),
    ensures
        n < length_field(len).len() ==> parse_length(length_field(len).take(n as int)) is None,
        n == length_field(len).len() ==> parse_length(length_field(len).take(n as int)) == Some(
            (len, n),
        ),
{
    let field = length_field(len);
    let cut = field.take(n as int);
    if n == field.len() {
        assert(cut =~= field + Seq::<u8>::empty());
        lemma_parse_length_field(len, Seq::empty());
    } else if n > 0 {
        lemma_length_digits(len);
        assert(cut[0] == field[0]);
    }
}

/// A framed object is read back with its tag and value, whatever follows it.
pub proof fn lemma_parse_encoded(tag: u8, value: Seq<u8>, rest: Seq<u8>)
    requires
        value.len() <= u64::MAX,
    ensures
        parse_tlv(encode_tlv_spec(tag, value) + rest) == Some(
            Tlv { tag, value, size: encode_tlv_spec(tag, value).len() },
        ),
        encode_tlv_spec(tag, value).len() == 1 + length_field(value.len()).len() + value.len(),
{
    let field = length_field(value.len());
    let s = encode_tlv_spec(tag, value) + rest;
    lemma_parse_length_field(value.len(), value + rest);
    assert(s.skip(1) =~= field + (value + rest));
    assert(s.subrange(1 + field.len() as int, 1 + field.len() + value.len() as int) =~= value);
}

/// A framed object that was cut short is not read as a framed object.
pub proof fn lemma_parse_truncated(tag: u8, value: Seq<u8>, n: nat)
    requires
        value.len() <= u64::MAX,
        n < encode_tlv_spec(tag, value).len(),
    ensures
        parse_tlv(encode_tlv_spec(tag, value).take(n as int)) is None,
{
    let field = length_field(value.len());
    let whole = encode_tlv_spec(tag, value);
    let cut = whole.take(n as int);
    lemma_length_field_len(value.len());
    if n > 0 {
        if n - 1 < field.len() {
            assert(cut.skip(1) =~= field.take(n - 1));
            lemma_parse_length_prefix(value.len(), (n - 1) as nat);
        } else {
            let kept = value.take(n - 1 - field.len());
            assert(cut.skip(1) =~= field + kept);
            lemma_parse_length_field(value.len(), kept);
        }
    }
}

/// What is read as a framed object takes its value's length and at least two bytes more,
/// and no more bytes than there are.
pub proof fn lemma_parse_tlv_size(s: Seq<u8>)
    requires
        parse_tlv(s) is Some,
    ensures
        2 + parse_tlv(s).unwrap().value.len() <= parse_tlv(s).unwrap().size <= s.len(),
        parse_tlv(s).unwrap().size <= 10 + parse_tlv(s).unwrap().value.len(),
{
}

/// Framed objects read one behind the other: the first, then those that fill the rest.
pub proof fn lemma_parse_elements_first(content: Seq<u8>)
    requires
        content.len() > 0,
        parse_tlv(content) is Some,
    ensures
        parse_elements(content) == join(
            seq![parse_tlv(content).unwrap()],
            parse_elements(content.skip(parse_tlv(content).unwrap().size as int)),
        ),
{
    lemma_parse_tlv_size(content);
}

/// The framed objects that fill some bytes take as many bytes together as there are.
pub proof fn lemma_parse_elements_size(content: Seq<u8>)
    requires
        parse_elements(content) is Some,
    ensures
        total_size(parse_elements(content).unwrap()) == content.len(),
    decreases content.len(),
{
    if content.len() > 0 {
        let first = parse_tlv(content).unwrap();
        let rest = content.skip(first.size as int);
        lemma_parse_elements_size(rest);
        lemma_total_size_prepend(first, parse_elements(rest).unwrap());
    }
}

/// One more framed object in front adds its size.
pub proof fn lemma_total_size_prepend(first: Tlv, rest: Seq<Tlv>)
    ensures
        total_size(seq![first] + rest) == first.size + total_size(rest),
    decreases rest.len(),
{
    let all = seq![first] + rest;
    assert(all.len() == 1 + rest.len());
    if rest.len() == 0 {
        assert(all.drop_last() =~= Seq::<Tlv>::empty());
        assert(all.last() == first);
        assert(total_size(Seq::<Tlv>::empty()) == 0);
        assert(rest =~= Seq::<Tlv>::empty());
    } else {
        assert(all.drop_last() =~= seq![first] + rest.drop_last());
        assert(all.last() == rest.last());
        lemma_total_size_prepend(first, rest.drop_last());
    }
}

/// Appends `bytes` to `out`.
pub fn append(out: &mut Vec<u8>, bytes: &[u8])
    ensures
        final(out)@ == old(out)@ + bytes@,
{
    let ghost before = out@;
    let mut i: usize = 0;
    while i < bytes.len()
        invariant
            i <= bytes@.len(),
            out@ == before + bytes@.take(i as int),
        decreases bytes@.len() - i,
    {
        out.push(bytes[i]);
        i = i + 1;
        assert(out@ =~= before + bytes@.take(i as int));
    }
    assert(bytes@.take(i as int) =~= bytes@);
}

/// Writes the length field that announces `len` value bytes.
pub fn encode_length(len: usize) -> (field: Vec<u8>)
    ensures
        field@ == length_field(len as nat),
{
    let mut field: Vec<u8> = Vec::new();
    if len < 128 {
        field.push(len as u8);
        assert(field@ =~= length_field(len as nat));
        return field;
    }
    proof {
        lemma_length_digits(len as nat);
    }
    let mut digits: Vec<u8> = Vec::new();
    let mut rest: usize = len;
    while rest > 0
        invariant
            be_digits(len as nat) == be_digits(rest as nat) + digits@,
        decreases rest,
    {
        let digit: u8 = (rest % 256) as u8;
        let ghost before = digits@;
        digits.insert(0, digit);
        assert(be_digits(rest as nat) + before =~= be_digits((rest / 256) as nat) + digits@);
        rest = rest / 256;
    }
    assert(digits@ =~= be_digits(len as nat));
    let count: usize = digits.len();
    field.push(0x80u8 + count as u8);
    append(&mut field, digits.as_slice());
    assert(field@ =~= length_field(len as nat));
    field
}

/// Frames `value` under `tag`.
pub fn encode_tlv(tag: u8, value: &[u8]) -> (framed: Vec<u8>)
    ensures
        framed@ == encode_tlv_spec(tag, value@),
{
    let mut framed: Vec<u8> = Vec::new();
    framed.push(tag);
    let field = encode_length(value.len());
    append(&mut framed, field.as_slice());
    append(&mut framed, value);
    assert(framed@ =~= encode_tlv_spec(tag, value@));
    framed
}

/// Reads the length field at index `pos`: the length and the index behind the field.
/// `None` also where the length is too large for any slice to hold that many bytes.
fn read_length(bytes: &[u8], pos: usize) -> (found: Option<(usize, usize)>)
    requires
        pos <= bytes@.len(),
    ensures
        match found {
            Some((len, next)) => pos < next <= bytes@.len() && parse_length(
                bytes@.skip(pos as int),
            ) == Some((len as nat, (next - pos) as nat)),
            None => match parse_length(bytes@.skip(pos as int)) {
                Some((len, used)) => len > usize::MAX,
                None => true,
            },
        },
{
    let ghost s = bytes@.skip(pos as int);
    if pos >= bytes.len() {
        return None;
    }
    let first: u8 = bytes[pos];
    assert(s[0] == first);
    if first < 0x80 {
        return Some((first as usize, pos + 1));
    }
    let count: usize = (first - 0x80) as usize;
    if count == 0 || count > LENGTH_DIGITS_MAX || bytes.len() - pos - 1 < count {
        return None;
    }
    let ghost digits = s.subrange(1, 1 + count);
    let mut value: u64 = 0;
    let mut i: usize = 0;
    while i < count
        invariant
            i <= count <= LENGTH_DIGITS_MAX,
            pos + 1 + count <= bytes@.len() <= usize::MAX,
            digits == bytes@.skip(pos as int).subrange(1, 1 + count),
            value == be_value(digits.take(i as int)),
        decreases count - i,
    {
        let digit: u8 = bytes[pos + 1 + i];
        proof {
            let done = digits.take(i as int);
            lemma_be_value_bound(done);
            lemma_radix_monotonic(i as nat, 7);
            lemma_radix_values();
            assert(digits.take(i + 1) =~= done.push(digit));
            lemma_be_value_push(done, digit);
        }
        value = value * 256 + digit as u64;
        i = i + 1;
    }
    assert(digits.take(count as int) =~= digits);
    if bytes[pos + 1] == 0 || value < 128 || value > usize::MAX as u64 {
        return None;
    }
    Some((value as usize, pos + 1 + count))
}

/// Reads the framed object that begins at index `pos`, where there is one.
pub fn read_tlv(bytes: &[u8], pos: usize) -> (found: Option<Element>)
    requires
        pos <= bytes@.len(),
    ensures
        match found {
            Some(element) => pos < element.start <= element.end <= bytes@.len() && parse_tlv(
                bytes@.skip(pos as int),
            ) == Some(element.tlv_in(bytes@, pos as int)),
            None => parse_tlv(bytes@.skip(pos as int)) is None,
        },
{
    let ghost s = bytes@.skip(pos as int);
    if pos >= bytes.len() {
        return None;
    }
    let tag: u8 = bytes[pos];
    assert(s.skip(1) =~= bytes@.skip(pos + 1));
    match read_length(bytes, pos + 1) {
        None => None,
        Some((len, start)) => {
            if len > bytes.len() - start {
                return None;
            }
            let element = Element { tag, start, end: start + len };
            assert(s.subrange(start - pos, start - pos + len) =~= bytes@.subrange(
                start as int,
                start + len,
            ));
            Some(element)
        },
    }
}

/// Reads the framed objects that fill `content`, where they fill it exactly.
pub fn read_elements(content: &[u8]) -> (found: Option<Vec<Element>>)
    ensures
        match found {
            Some(elements) => parse_elements(content@) is Some && elements@.len()
                == parse_elements(content@).unwrap().len() && forall|i: int|
                #![trigger elements@[i]]
                0 <= i < elements@.len() ==> {
                    &&& elements@[i].start <= elements@[i].end
                    &&& elements@[i].end <= content@.len()
                    &&& elements@[i].tag == parse_elements(content@).unwrap()[i].tag
                    &&& content@.subrange(elements@[i].start as int, elements@[i].end as int)
                        == parse_elements(content@).unwrap()[i].value
                },
            None => parse_elements(content@) is None,
        },
{
    let mut elements: Vec<Element> = Vec::new();
    let ghost mut done: Seq<Tlv> = Seq::empty();
    let mut pos: usize = 0;
    assert(content@.skip(0) =~= content@);
    assert(join(done, parse_elements(content@)) =~= parse_elements(content@)) by {
        if parse_elements(content@) is Some {
            assert(done + parse_elements(content@).unwrap() =~= parse_elements(content@).unwrap());
        }
    }
    while pos < content.len()
        invariant
            pos <= content@.len(),
            parse_elements(content@) == join(done, parse_elements(content@.skip(pos as int))),
            elements@.len() == done.len(),
            forall|i: int|
                #![trigger elements@[i]]
                0 <= i < elements@.len() ==> {
                    &&& elements@[i].start <= elements@[i].end
                    &&& elements@[i].end <= content@.len()
                    &&& elements@[i].tag == done[i].tag
                    &&& content@.subrange(elements@[i].start as int, elements@[i].end as int)
                        == done[i].value
                },
        decreases content@.len() - pos,
    {
        let ghost here = content@.skip(pos as int);
        match read_tlv(content, pos) {
            None => {
                return None;
            },
            Some(element) => {
                let ghost first = element.tlv_in(content@, pos as int);
                let ghost before = done;
                let ghost found_before = elements@;
                proof {
                    lemma_parse_elements_first(here);
                    assert(here.skip(first.size as int) =~= content@.skip(element.end as int));
                    let after = parse_elements(content@.skip(element.end as int));
                    if after is Some {
                        assert(done + (seq![first] + after.unwrap()) =~= done.push(first)
                            + after.unwrap());
                    }
                    done = done.push(first);
                }
                elements.push(element);
                pos = element.end;
                assert forall|i: int| #![trigger elements@[i]] 0 <= i < elements@.len() implies {
                    &&& elements@[i].start <= elements@[i].end
                    &&& elements@[i].end <= content@.len()
                    &&& elements@[i].tag == done[i].tag
                    &&& content@.subrange(elements@[i].start as int, elements@[i].end as int)
                        == done[i].value
                } by {
                    if i < before.len() {
                        assert(done[i] == before[i]);
                        assert(elements@[i] == found_before[i]);
                    }
                }
            },
        }
    }
    assert(content@.skip(pos as int) =~= Seq::<u8>::empty());
    assert(done + Seq::<Tlv>::empty() =~= done);
    Some(elements)
}

} // verus!
