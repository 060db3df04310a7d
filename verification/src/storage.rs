//! The keys under which a replica stores the entries of the logs.
//!
//! An entry of subject `key` with sequence number `seq` is stored under the
//! escaped key, a separator and the sequence number in twenty decimal
//! digits. The escaping keeps the separator out of the first part, and the
//! fixed width makes the order of the storage keys of one subject the order
//! of their sequence numbers. So a scan by `prefix_str(key)` finds the
//! entries of that subject and no others, oldest first, and an end bound at
//! the storage key of `seq` cuts it off before that number.

use crate::types::{Key, SequenceNumber};
use vstd::prelude::*;

verus! {

/// Stands between the escaped key and the sequence number.
pub const SEPARATOR: char = '/';

/// Introduces an escape in an escaped key.
pub const ESCAPE: char = '%';

/// The number of digits of the sequence number in a storage key.
pub const SEQ_WIDTH: usize = 20;

/// How one character of a key is written in a storage key.
pub open spec fn escape_of(c: char) -> Seq<char> {
    if c == SEPARATOR {
        seq!['%', '2', 'F']
    } else if c == ESCAPE {
        seq!['%', '2', '5']
    } else {
        seq![c]
    }
}

/// A key as it is written in a storage key: character by character.
pub open spec fn escaped(key: Seq<char>) -> Seq<char>
    decreases key.len(),
{
    if key.len() == 0 {
        Seq::empty()
    } else {
        escape_of(key[0]) + escaped(key.skip(1))
    }
}

/// The character of one decimal digit.
pub open spec fn digit_char(d: int) -> char {
    (48 + d) as u8 as char
}

/// Whether `c` is a decimal digit.
pub open spec fn is_digit(c: char) -> bool {
    '0' <= c <= '9'
}

/// The value of a decimal digit.
pub open spec fn digit_value(c: char) -> int {
    c as int - 48
}

/// The last `width` decimal digits of `n`, with leading zeros.
pub open spec fn digits(n: nat, width: nat) -> Seq<char>
    decreases width,
{
    if width == 0 {
        Seq::empty()
    } else {
        digits(n / 10, (width - 1) as nat).push(digit_char((n % 10) as int))
    }
}

/// The storage key of the entry of subject `key` with sequence number `seq`.
pub open spec fn storage_key(key: Seq<char>, seq: u64) -> Seq<char> {
    escaped(key) + seq![SEPARATOR] + digits(seq as nat, SEQ_WIDTH as nat)
}

/// What the storage keys of the entries of subject `key` begin with.
pub open spec fn storage_prefix(key: Seq<char>) -> Seq<char> {
    escaped(key) + seq![SEPARATOR]
}

/// The key of which `text` is the escaped form, if it is one. The separator
/// and an escape that is not one of the two written by `escape_of` are in no
/// escaped key.
pub open spec fn unescaped(text: Seq<char>) -> Option<Seq<char>>
    decreases text.len(),
{
    if text.len() == 0 {
        Some(Seq::empty())
    } else if text[0] == ESCAPE {
        if text.len() >= 3 && text[1] == '2' && (text[2] == '5' || text[2] == 'F') {
            prepended(
                seq![if text[2] == '5' {
                    ESCAPE
                } else {
                    SEPARATOR
                }],
                unescaped(text.skip(3)),
            )
        } else {
            None
        }
    } else if text[0] == SEPARATOR {
        None
    } else {
        prepended(seq![text[0]], unescaped(text.skip(1)))
    }
}

/// `rest` with `front` before it, where there is a `rest`.
pub open spec fn prepended(front: Seq<char>, rest: Option<Seq<char>>) -> Option<Seq<char>> {
    match rest {
        Some(rest) => Some(front + rest),
        None => None,
    }
}

/// Whether every character of `text` is a decimal digit.
pub open spec fn all_digits(text: Seq<char>) -> bool {
    forall|i: int| 0 <= i < text.len() ==> is_digit(#[trigger] text[i])
}

/// The number that the decimal digits `text` write.
pub open spec fn number(text: Seq<char>) -> nat
    decreases text.len(),
{
    if text.len() == 0 {
        0
    } else {
        (number(text.drop_last()) * 10 + digit_value(text.last())) as nat
    }
}

/// Why a text is no storage key.
#[derive(Debug, Clone, Copy, PartialEq, Eq, Structural)]
pub enum KeyError {
    /// The text does not end in a separator and twenty more characters.
    MissingSequence,
    /// The last twenty characters are not all digits, or the number that
    /// they write is no sequence number.
    InvalidSequence,
    /// What stands before the separator is not an escaped key.
    InvalidEscape,
}

/// The subject and sequence number of which `text` is the storage key, or
/// why it is none.
pub open spec fn parse_key(text: Seq<char>) -> Result<(Seq<char>, u64), KeyError> {
    let split = text.len() - SEQ_WIDTH - 1;
    if text.len() < SEQ_WIDTH + 1 || text[split] != SEPARATOR {
        Err(KeyError::MissingSequence)
    } else if !all_digits(text.skip(split + 1)) || number(text.skip(split + 1)) > u64::MAX {
        Err(KeyError::InvalidSequence)
    } else {
        match unescaped(text.take(split)) {
            Some(key) => Ok((key, number(text.skip(split + 1)) as u64)),
            None => Err(KeyError::InvalidEscape),
        }
    }
}

/// `String::push`: appends one character to the string.
#[verifier::external_body]
fn push_char(s: &mut String, c: char)
    ensures
        final(s)@ == old(s)@.push(c),
{
    s.push(c)
}

/// The characters of `s`.
pub(crate) fn chars_of(s: &str) -> (chars: Vec<char>)
    ensures
        chars@ == s@,
{
    let mut chars: Vec<char> = Vec::new();
    for c in it: s.chars()
        invariant
            it.seq() == s@,
            chars@ == s@.take(it.index() as int),
    {
        assert(s@.take(it.index() + 1) =~= s@.take(it.index() as int).push(c));
        chars.push(c);
    }
    assert(s@.take(s@.len() as int) =~= s@);
    chars
}

/// The string with the characters of `chars`.
pub(crate) fn string_of(chars: &Vec<char>) -> (s: String)
    ensures
        s@ == chars@,
{
    let mut s = String::new();
    let mut i: usize = 0;
    while i < chars.len()
        invariant
            i <= chars.len(),
            s@ == chars@.take(i as int),
        decreases chars.len() - i,
    {
        push_char(&mut s, chars[i]);
        assert(chars@.take(i + 1) =~= chars@.take(i as int).push(chars@[i as int]));
        i += 1;
    }
    assert(chars@.take(chars.len() as int) =~= chars@);
    s
}

/// Appends the escaped form of `key` to `out`.
fn push_escaped(out: &mut Vec<char>, key: &Vec<char>)
    ensures
        final(out)@ == old(out)@ + escaped(key@),
{
    let ghost start = out@;
    let mut i: usize = 0;
    assert(key@.skip(0) =~= key@);
    assert(start + Seq::<char>::empty() =~= start);
    while i < key.len()
        invariant
            i <= key.len(),
            out@ + escaped(key@.skip(i as int)) == start + escaped(key@),
        decreases key.len() - i,
    {
        let c = key[i];
        let ghost rest = key@.skip(i as int);
        proof {
            assert(rest[0] == c);
            assert(rest.skip(1) =~= key@.skip(i + 1));
            assert(escaped(rest) == escape_of(c) + escaped(key@.skip(i + 1)));
        }
        let ghost before = out@;
        if c == SEPARATOR {
            out.push('%');
            out.push('2');
            out.push('F');
        } else if c == ESCAPE {
            out.push('%');
            out.push('2');
            out.push('5');
        } else {
            out.push(c);
        }
        proof {
            assert(out@ =~= before + escape_of(c));
            assert(out@ + escaped(key@.skip(i + 1)) =~= before + escaped(rest));
        }
        i += 1;
    }
    assert(out@ + Seq::<char>::empty() =~= out@);
}

/// Appends `n` in twenty decimal digits to `out`.
fn push_digits(out: &mut Vec<char>, n: u64)
    ensures
        final(out)@ == old(out)@ + digits(n as nat, SEQ_WIDTH as nat),
{
    let mut tail: Vec<char> = Vec::new();
    let mut m: u64 = n;
    let mut j: usize = 0;
    assert(digits(n as nat, SEQ_WIDTH as nat) + tail@ =~= digits(n as nat, SEQ_WIDTH as nat));
    while j < SEQ_WIDTH
        invariant
            j <= SEQ_WIDTH,
            tail@.len() == j,
            digits(m as nat, (SEQ_WIDTH - j) as nat) + tail@ == digits(n as nat, SEQ_WIDTH as nat),
        decreases SEQ_WIDTH - j,
    {
        let d: u8 = (m % 10) as u8;
        let c: char = (48 + d) as char;
        proof {
            assert(c == digit_char((m % 10) as int));
            let ghost head = digits((m / 10) as nat, (SEQ_WIDTH - j - 1) as nat);
            assert(digits(m as nat, (SEQ_WIDTH - j) as nat) == head.push(c));
            assert(head.push(c) + tail@ =~= head + (seq![c] + tail@));
            assert(tail@.insert(0, c) =~= seq![c] + tail@);
        }
        tail.insert(0, c);
        m = m / 10;
        j += 1;
    }
    assert(digits(m as nat, 0) + tail@ =~= tail@);
    let ghost start = out@;
    let mut i: usize = 0;
    while i < tail.len()
        invariant
            i <= tail.len(),
            out@ == start + tail@.take(i as int),
        decreases tail.len() - i,
    {
        out.push(tail[i]);
        assert(tail@.take(i + 1) =~= tail@.take(i as int).push(tail@[i as int]));
        i += 1;
    }
    assert(tail@.take(tail.len() as int) =~= tail@);
}

/// A number written in digits is at least the number that any of its
/// beginnings writes.
proof fn lemma_number_grows(text: Seq<char>, k: int)
    requires
        all_digits(text),
        0 <= k <= text.len(),
    ensures
        number(text.take(k)) <= number(text),
    decreases text.len() - k,
{
    if k == text.len() {
        assert(text.take(k) =~= text);
    } else {
        lemma_number_grows(text, k + 1);
        assert(text.take(k + 1).drop_last() =~= text.take(k));
        assert(is_digit(text[k]));
    }
}

/// The number that `text` writes, where it is all digits and writes a
/// sequence number.
fn read_number(text: &Vec<char>, from: usize) -> (n: Option<u64>)
    requires
        from <= text.len(),
    ensures
        n is Some <==> all_digits(text@.skip(from as int)) && number(text@.skip(from as int))
            <= u64::MAX,
        n matches Some(n) ==> n == number(text@.skip(from as int)),
{
    let ghost part = text@.skip(from as int);
    let mut n: u64 = 0;
    let mut i: usize = from;
    assert(part.take(0) =~= Seq::<char>::empty());
    while i < text.len()
        invariant
            from <= i <= text.len(),
            part == text@.skip(from as int),
            all_digits(part.take(i - from)),
            n == number(part.take(i - from)),
        decreases text.len() - i,
    {
        let c = text[i];
        let ghost k = i - from;
        proof {
            assert(part[k] == c);
            assert(part.take(k + 1).drop_last() =~= part.take(k));
            assert(part.take(k + 1).last() == c);
        }
        if !('0' <= c && c <= '9') {
            assert(!all_digits(part));
            return None;
        }
        let v: u64 = (c as u8 - 48) as u64;
        assert(v == digit_value(c));
        if n > 1844674407370955161 || (n == 1844674407370955161 && v > 5) {
            proof {
                if all_digits(part) {
                    lemma_number_grows(part, k + 1);
                }
            }
            return None;
        }
        n = n * 10 + v;
        proof {
            assert forall|j: int| 0 <= j < part.take(k + 1).len() implies is_digit(
                #[trigger] part.take(k + 1)[j],
            ) by {
                if j < k {
                    assert(part.take(k)[j] == part.take(k + 1)[j]);
                }
            }
        }
        i += 1;
    }
    assert(part.take(i - from) =~= part);
    Some(n)
}

/// The key of which `text` up to `end` is the escaped form, if it is one.
fn read_escaped(text: &Vec<char>, end: usize) -> (key: Option<Vec<char>>)
    requires
        end <= text.len(),
    ensures
        key is Some <==> unescaped(text@.take(end as int)) is Some,
        key matches Some(key) ==> unescaped(text@.take(end as int)) == Some(key@),
{
    let ghost part = text@.take(end as int);
    let mut key: Vec<char> = Vec::new();
    let mut i: usize = 0;
    proof {
        assert(part.skip(0) =~= part);
        lemma_prepended_nothing(unescaped(part));
    }
    while i < end
        invariant
            i <= end <= text.len(),
            part == text@.take(end as int),
            unescaped(part) == prepended(key@, unescaped(part.skip(i as int))),
        decreases end - i,
    {
        let c = text[i];
        let ghost rest = part.skip(i as int);
        assert(rest[0] == c);
        if c == ESCAPE {
            if end - i < 3 {
                return None;
            }
            assert(rest[1] == text@[i + 1] && rest[2] == text@[i + 2]);
            if text[i + 1] != '2' {
                return None;
            }
            let plain = if text[i + 2] == '5' {
                ESCAPE
            } else if text[i + 2] == 'F' {
                SEPARATOR
            } else {
                return None;
            };
            proof {
                assert(rest.skip(3) =~= part.skip(i + 3));
                lemma_prepended_twice(key@, seq![plain], unescaped(part.skip(i + 3)));
                assert(key@.push(plain) =~= key@ + seq![plain]);
            }
            key.push(plain);
            i += 3;
        } else if c == SEPARATOR {
            return None;
        } else {
            proof {
                assert(rest.skip(1) =~= part.skip(i + 1));
                lemma_prepended_twice(key@, seq![c], unescaped(part.skip(i + 1)));
                assert(key@.push(c) =~= key@ + seq![c]);
            }
            key.push(c);
            i += 1;
        }
    }
    proof {
        assert(part.skip(i as int).len() == 0);
        assert(key@ + Seq::<char>::empty() =~= key@);
    }
    Some(key)
}

proof fn lemma_prepended_nothing(rest: Option<Seq<char>>)
    ensures
        prepended(Seq::empty(), rest) == rest,
{
    if rest is Some {
        assert(Seq::<char>::empty() + rest->0 =~= rest->0);
    }
}

proof fn lemma_prepended_twice(front: Seq<char>, middle: Seq<char>, rest: Option<Seq<char>>)
    ensures
        prepended(front, prepended(middle, rest)) == prepended(front + middle, rest),
{
    if rest is Some {
        assert(front + (middle + rest->0) =~= (front + middle) + rest->0);
    }
}

/// A subject and a sequence number: what a storage key stands for.
#[derive(Debug, PartialEq, Eq)]
pub struct KeyAndSeq {
    pub key: Key,
    pub seq: SequenceNumber,
}

impl KeyAndSeq {
    pub fn new(key: Key, seq: SequenceNumber) -> (res: KeyAndSeq)
        ensures
            res.key == key,
            res.seq == seq,
    {
        KeyAndSeq { key, seq }
    }

    /// The subject and sequence number of which `s` is the storage key, or
    /// why it is none.
    pub fn from_str(s: &str) -> (res: Result<KeyAndSeq, KeyError>)
        ensures
            match res {
                Ok(parsed) => parse_key(s@) == Ok::<_, KeyError>((parsed.key@, parsed.seq.0)),
                Err(e) => parse_key(s@) == Err::<(Seq<char>, u64), _>(e),
            },
    {
        let text = chars_of(s);
        if text.len() < SEQ_WIDTH + 1 {
            return Err(KeyError::MissingSequence);
        }
        let split = text.len() - SEQ_WIDTH - 1;
        if text[split] != SEPARATOR {
            return Err(KeyError::MissingSequence);
        }
        let seq = match read_number(&text, split + 1) {
            Some(seq) => seq,
            None => {
                return Err(KeyError::InvalidSequence);
            },
        };
        match read_escaped(&text, split) {
            Some(key) => Ok(
                KeyAndSeq { key: Key::from_string(string_of(&key)), seq: SequenceNumber(seq) },
            ),
            None => Err(KeyError::InvalidEscape),
        }
    }

    /// What the storage keys of the entries of `key` begin with.
    pub fn prefix_str(key: &Key) -> (prefix: String)
        ensures
            prefix@ == storage_prefix(key@),
    {
        let chars = chars_of(key.as_str());
        let mut out: Vec<char> = Vec::new();
        push_escaped(&mut out, &chars);
        out.push(SEPARATOR);
        assert(out@ =~= storage_prefix(key@));
        string_of(&out)
    }

    /// The storage key of this subject and sequence number.
    pub fn to_string(&self) -> (text: String)
        ensures
            text@ == storage_key(self.key@, self.seq.0),
    {
        let chars = chars_of(self.key.as_str());
        let mut out: Vec<char> = Vec::new();
        push_escaped(&mut out, &chars);
        out.push(SEPARATOR);
        push_digits(&mut out, self.seq.0);
        assert(out@ =~= storage_key(self.key@, self.seq.0));
        string_of(&out)
    }
}

/// No escaped key holds the separator.
pub proof fn lemma_escaped_has_no_separator(key: Seq<char>, i: int)
    requires
        0 <= i < escaped(key).len(),
    ensures
        escaped(key)[i] != SEPARATOR,
    decreases key.len(),
{
    if key.len() > 0 {
        let first = escape_of(key[0]);
        if i >= first.len() {
            lemma_escaped_has_no_separator(key.skip(1), i - first.len());
        }
    }
}

/// Unescaping the escaped form of a key gives the key back.
pub proof fn lemma_unescaped_escaped(key: Seq<char>)
    ensures
        unescaped(escaped(key)) == Some(key),
    decreases key.len(),
{
    if key.len() > 0 {
        let text = escaped(key);
        let first = escape_of(key[0]);
        let rest = escaped(key.skip(1));
        lemma_unescaped_escaped(key.skip(1));
        assert(text.skip(first.len() as int) =~= rest);
        assert(text[0] == first[0]);
        if first.len() == 3 {
            assert(text[1] == first[1] && text[2] == first[2]);
        }
        assert(seq![key[0]] + key.skip(1) =~= key);
    }
}

/// A text that unescapes to a key is the escaped form of that key.
pub proof fn lemma_escaped_unescaped(text: Seq<char>, key: Seq<char>)
    requires
        unescaped(text) == Some(key),
    ensures
        escaped(key) == text,
    decreases text.len(),
{
    if text.len() > 0 {
        let width: int = if text[0] == ESCAPE {
            3
        } else {
            1
        };
        let rest = unescaped(text.skip(width))->0;
        lemma_escaped_unescaped(text.skip(width), rest);
        assert(key.skip(1) =~= rest);
        assert(escape_of(key[0]) + text.skip(width) =~= text);
    } else {
        assert(key =~= Seq::<char>::empty());
    }
}

/// Whether `n` can be written in `width` digits.
pub open spec fn fits(n: nat, width: nat) -> bool
    decreases width,
{
    if width == 0 {
        n == 0
    } else {
        fits(n / 10, (width - 1) as nat)
    }
}

/// The digits of a number are digits, as many as were asked for, and write
/// the number if it can be written in so many.
pub proof fn lemma_number_of_digits(n: nat, width: nat)
    ensures
        digits(n, width).len() == width,
        all_digits(digits(n, width)),
        fits(n, width) ==> number(digits(n, width)) == n,
    decreases width,
{
    if width > 0 {
        let front = digits(n / 10, (width - 1) as nat);
        lemma_number_of_digits(n / 10, (width - 1) as nat);
        let text = digits(n, width);
        assert(text.drop_last() =~= front);
        assert forall|i: int| 0 <= i < text.len() implies is_digit(#[trigger] text[i]) by {
            if i < front.len() {
                assert(text[i] == front[i]);
            }
        }
    }
}

/// Digits are the digits of the number that they write, which can be written
/// in as many.
pub proof fn lemma_digits_of_number(text: Seq<char>)
    requires
        all_digits(text),
    ensures
        digits(number(text), text.len()) == text,
        fits(number(text), text.len()),
    decreases text.len(),
{
    if text.len() > 0 {
        let front = text.drop_last();
        assert(all_digits(front)) by {
            assert forall|i: int| 0 <= i < front.len() implies is_digit(#[trigger] front[i]) by {
                assert(front[i] == text[i]);
            }
        }
        lemma_digits_of_number(front);
        assert(is_digit(text.last()));
        let n = number(text);
        assert(n / 10 == number(front));
        assert(digit_char((n % 10) as int) == text.last());
        assert(digits(n, text.len()) =~= text);
    }
}

/// Every sequence number can be written in twenty digits.
pub proof fn lemma_sequence_number_fits(seq: u64)
    ensures
        fits(seq as nat, SEQ_WIDTH as nat),
{
    reveal_with_fuel(fits, 21);
}

/// Reading a storage key gives back the subject and the sequence number
/// that it was made of.
pub proof fn lemma_parse_storage_key(key: Seq<char>, seq: u64)
    ensures
        parse_key(storage_key(key, seq)) == Ok::<_, KeyError>((key, seq)),
{
    let text = storage_key(key, seq);
    let split = text.len() - SEQ_WIDTH - 1;
    lemma_sequence_number_fits(seq);
    lemma_number_of_digits(seq as nat, SEQ_WIDTH as nat);
    lemma_unescaped_escaped(key);
    assert(split == escaped(key).len());
    assert(text.skip(split + 1) =~= digits(seq as nat, SEQ_WIDTH as nat));
    assert(text.take(split) =~= escaped(key));
    assert(text[split] == SEPARATOR);
}

/// A text that reads as a storage key is the storage key of what was read:
/// no two texts stand for the same subject and number.
pub proof fn lemma_storage_key_of_parsed(text: Seq<char>, key: Seq<char>, seq: u64)
    requires
        parse_key(text) == Ok::<_, KeyError>((key, seq)),
    ensures
        storage_key(key, seq) == text,
{
    let split = text.len() - SEQ_WIDTH - 1;
    lemma_escaped_unescaped(text.take(split), key);
    lemma_digits_of_number(text.skip(split + 1));
    assert(text.take(split) + seq![SEPARATOR] + text.skip(split + 1) =~= text);
}

/// Whether `a` comes before `b` in the order of a dictionary: at the first
/// place where they differ `a` has the lesser character, or `a` ends there.
/// Characters are ordered by their code points, as the bytes of their UTF-8
/// form are.
pub open spec fn comes_before(a: Seq<char>, b: Seq<char>) -> bool {
    exists|i: int|
        0 <= i <= a.len() && i <= b.len() && #[trigger] a.take(i) == b.take(i) && (if i == a.len() {
            i < b.len()
        } else {
            i < b.len() && a[i] < b[i]
        })
}

/// Of two numbers that can be written in `width` digits, the lesser is the
/// one whose digits come first.
proof fn lemma_digits_order(m: nat, n: nat, width: nat)
    requires
        fits(m, width),
        fits(n, width),
        m < n,
    ensures
        exists|i: int|
            0 <= i < width && #[trigger] digits(m, width).take(i) == digits(n, width).take(i)
                && digits(m, width)[i] < digits(n, width)[i],
    decreases width,
{
    lemma_number_of_digits(m, width);
    lemma_number_of_digits(n, width);
    let a = digits(m, width);
    let b = digits(n, width);
    if width > 0 {
        let front_a = digits(m / 10, (width - 1) as nat);
        let front_b = digits(n / 10, (width - 1) as nat);
        lemma_number_of_digits(m / 10, (width - 1) as nat);
        lemma_number_of_digits(n / 10, (width - 1) as nat);
        if m / 10 < n / 10 {
            lemma_digits_order(m / 10, n / 10, (width - 1) as nat);
            let i = choose|i: int|
                0 <= i < width - 1 && #[trigger] front_a.take(i) == front_b.take(i) && front_a[i]
                    < front_b[i];
            assert(a.take(i) =~= front_a.take(i));
            assert(b.take(i) =~= front_b.take(i));
            assert(a[i] == front_a[i] && b[i] == front_b[i]);
        } else {
            let i = width - 1;
            assert(a.take(i) =~= front_a);
            assert(b.take(i) =~= front_b);
            assert(a[i] == digit_char((m % 10) as int));
            assert(b[i] == digit_char((n % 10) as int));
        }
    }
}

/// The storage keys of one subject are ordered as their sequence numbers
/// are: a scan of them comes oldest first, and an end bound at the storage
/// key of a number cuts it off before that number.
pub proof fn lemma_order_follows_sequence(key: Seq<char>, earlier: u64, later: u64)
    ensures
        comes_before(storage_key(key, earlier), storage_key(key, later)) <==> earlier < later,
{
    let a = storage_key(key, earlier);
    let b = storage_key(key, later);
    let front = storage_prefix(key);
    let width = SEQ_WIDTH as nat;
    lemma_sequence_number_fits(earlier);
    lemma_sequence_number_fits(later);
    lemma_number_of_digits(earlier as nat, width);
    lemma_number_of_digits(later as nat, width);
    if earlier < later {
        lemma_digits_order(earlier as nat, later as nat, width);
        let da = digits(earlier as nat, width);
        let db = digits(later as nat, width);
        let i = choose|i: int|
            0 <= i < width && #[trigger] da.take(i) == db.take(i) && da[i] < db[i];
        let at = front.len() + i;
        assert(a.take(at) =~= front + da.take(i));
        assert(b.take(at) =~= front + db.take(i));
        assert(a[at] == da[i] && b[at] == db[i]);
    }
    if comes_before(a, b) {
        let i = choose|i: int|
            0 <= i <= a.len() && i <= b.len() && #[trigger] a.take(i) == b.take(i) && (if i
                == a.len() {
                i < b.len()
            } else {
                i < b.len() && a[i] < b[i]
            });
        assert(a.len() == b.len());
        assert(a[i] < b[i]);
        if later < earlier {
            lemma_digits_order(later as nat, earlier as nat, width);
            let da = digits(earlier as nat, width);
            let db = digits(later as nat, width);
            let j = choose|j: int|
                0 <= j < width && #[trigger] db.take(j) == da.take(j) && db[j] < da[j];
            let at = front.len() + j;
            assert(a[at] == da[j] && b[at] == db[j]);
            assert(b.take(at) =~= front + db.take(j));
            assert(a.take(at) =~= front + da.take(j));
            if at < i {
                assert(a.take(i)[at] == b.take(i)[at]);
            } else if i < at {
                assert(a.take(at)[i] == b.take(at)[i]);
            }
        }
    }
}

/// A storage key begins with the prefix of a subject exactly if it is a
/// storage key of that subject: a scan by prefix finds the entries of one
/// subject and no others.
pub proof fn lemma_prefix_selects_subject(key: Seq<char>, other: Seq<char>, seq: u64)
    ensures
        storage_prefix(key).is_prefix_of(storage_key(other, seq)) <==> key == other,
{
    let prefix = storage_prefix(key);
    let text = storage_key(other, seq);
    let mine = escaped(key);
    let theirs = escaped(other);
    if key == other {
        assert(text.subrange(0, prefix.len() as int) =~= prefix);
    }
    if prefix.is_prefix_of(text) {
        assert(forall|i: int| 0 <= i < prefix.len() ==> prefix[i] == text[i]);
        assert(prefix[mine.len() as int] == SEPARATOR);
        assert(text[theirs.len() as int] == SEPARATOR);
        if mine.len() < theirs.len() {
            assert(text[mine.len() as int] == theirs[mine.len() as int]);
            lemma_escaped_has_no_separator(other, mine.len() as int);
        } else if theirs.len() < mine.len() {
            assert(prefix[theirs.len() as int] == mine[theirs.len() as int]);
            lemma_escaped_has_no_separator(key, theirs.len() as int);
        }
        assert(mine =~= theirs) by {
            assert forall|i: int| 0 <= i < mine.len() implies mine[i] == theirs[i] by {
                assert(prefix[i] == mine[i]);
                assert(text[i] == theirs[i]);
            }
        }
        lemma_unescaped_escaped(key);
        lemma_unescaped_escaped(other);
    }
}

} // verus!
