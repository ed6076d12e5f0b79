//! Text as a sequence of characters: the fields between separators, and
//! decimal numbers.

use vstd::prelude::*;

verus! {

/// The fields of `s` between occurrences of `sep`, in order. A text without
/// `sep` is one field, and an empty text is one empty field.
pub open spec fn fields(s: Seq<char>, sep: char) -> Seq<Seq<char>>
    decreases s.len(),
{
    if s.len() == 0 {
        seq![Seq::<char>::empty()]
    } else {
        let before = fields(s.drop_last(), sep);
        if s.last() == sep {
            before.push(Seq::<char>::empty())
        } else {
            before.drop_last().push(before.last().push(s.last()))
        }
    }
}

/// The fields joined again, with `sep` between neighbours.
pub open spec fn joined(parts: Seq<Seq<char>>, sep: char) -> Seq<char>
    decreases parts.len(),
{
    if parts.len() == 0 {
        Seq::<char>::empty()
    } else if parts.len() == 1 {
        parts[0]
    } else {
        joined(parts.drop_last(), sep).push(sep) + parts.last()
    }
}

/// The view of a text that may be absent.
pub open spec fn text_view(text: Option<String>) -> Option<Seq<char>> {
    match text {
        Some(t) => Some(t@),
        None => None,
    }
}

/// The view of a text slice that may be absent.
pub open spec fn slice_view(text: Option<&str>) -> Option<Seq<char>> {
    match text {
        Some(t) => Some(t@),
        None => None,
    }
}

/// The views of a list of texts.
pub open spec fn text_views(texts: Seq<String>) -> Seq<Seq<char>> {
    texts.map_values(|t: String| t@)
}

/// `c` is one of the ten ASCII digits.
pub open spec fn is_digit(c: char) -> bool {
    '0' <= c <= '9'
}

/// Every character of `s` is an ASCII digit.
pub open spec fn all_digits(s: Seq<char>) -> bool {
    forall|i: int| 0 <= i < s.len() ==> is_digit(#[trigger] s[i])
}

/// The number that a digit stands for.
pub open spec fn digit_value(c: char) -> nat {
    (c as nat - '0' as nat) as nat
}

/// The number that a text of digits writes in base ten; 0 for the empty text.
pub open spec fn decimal(s: Seq<char>) -> nat
    decreases s.len(),
{
    if s.len() == 0 {
        0
    } else {
        decimal(s.drop_last()) * 10 + digit_value(s.last())
    }
}

/// What `s` reads as an unsigned decimal number of at most `limit`: one or
/// more digits and nothing else.
pub open spec fn number_of(s: Seq<char>, limit: nat) -> Option<nat> {
    if s.len() > 0 && all_digits(s) && decimal(s) <= limit {
        Some(decimal(s))
    } else {
        None
    }
}

/// `s` without a leading `+`, if it has one.
pub open spec fn without_plus(s: Seq<char>) -> Seq<char> {
    if s.len() > 0 && s[0] == '+' {
        s.skip(1)
    } else {
        s
    }
}

/// What `s` reads as a 32-bit signed decimal number: an optional sign, then
/// one or more digits, the value within the range of `i32`.
pub open spec fn signed_of(s: Seq<char>) -> Option<i32> {
    if s.len() > 0 && s[0] == '-' {
        match number_of(s.skip(1), 0x8000_0000) {
            Some(n) => Some((-(n as int)) as i32),
            None => None,
        }
    } else {
        match number_of(without_plus(s), 0x7FFF_FFFF) {
            Some(n) => Some(n as i32),
            None => None,
        }
    }
}

/// A text of digits is worth at least as much as any text it starts with.
pub proof fn lemma_decimal_grows(s: Seq<char>, n: int)
    requires
        0 <= n <= s.len(),
    ensures
        decimal(s.take(n)) <= decimal(s),
    decreases s.len(),
{
    if n == s.len() {
        assert(s.take(n) =~= s);
    } else {
        assert(s.drop_last().take(n) =~= s.take(n));
        lemma_decimal_grows(s.drop_last(), n);
    }
}

/// The number of times that `sep` occurs in `s`.
pub open spec fn occurrences(s: Seq<char>, sep: char) -> nat {
    s.filter(|c: char| c == sep).len()
}

/// Splitting leaves one field more than there are separators, none of which
/// holds the separator, and joining the fields gives the text back.
pub proof fn lemma_fields_rejoin(s: Seq<char>, sep: char)
    ensures
        fields(s, sep).len() == occurrences(s, sep) + 1,
        forall|i: int, j: int|
            0 <= i < fields(s, sep).len() && 0 <= j < fields(s, sep)[i].len()
                ==> #[trigger] fields(s, sep)[i][j] != sep,
        joined(fields(s, sep), sep) == s,
    decreases s.len(),
{
    reveal(Seq::filter);
    if s.len() == 0 {
        assert(joined(fields(s, sep), sep) =~= s);
    } else {
        let before = fields(s.drop_last(), sep);
        lemma_fields_rejoin(s.drop_last(), sep);
        let now = fields(s, sep);
        if s.last() == sep {
            assert(now.drop_last() =~= before);
            assert(joined(now, sep) =~= s);
        } else {
            let grown = before.last().push(s.last());
            assert(now.last() == grown);
            if before.len() == 1 {
                assert(joined(before, sep) == before[0]);
                assert(grown =~= s);
                assert(joined(now, sep) == now[0]);
            } else {
                assert(now.drop_last() =~= before.drop_last());
                let head = joined(before.drop_last(), sep).push(sep);
                assert(s.drop_last() == head + before.last());
                assert(joined(now, sep) == head + grown);
                assert((head + before.last()).push(s.last()) =~= head + grown);
                assert(s =~= s.drop_last().push(s.last()));
            }
        }
    }
}

/// The characters of `text`, in order.
pub fn chars_of(text: &str) -> (chars: Vec<char>)
    ensures
        chars@ == text@,
{
    let mut chars: Vec<char> = Vec::new();
    for c in it: text.chars()
        invariant
            chars@ == it.seq().take(it.index()),
            it.seq() == text@,
    {
        chars.push(c);
    }
    chars
}

/// Whether two texts hold the same characters.
pub fn same_text(a: &str, b: &str) -> (same: bool)
    ensures
        same == (a@ == b@),
{
    let x = chars_of(a);
    let y = chars_of(b);
    if x.len() != y.len() {
        return false;
    }
    let mut i: usize = 0;
    while i < x.len()
        invariant
            i <= x.len(),
            x.len() == y.len(),
            x@ == a@,
            y@ == b@,
            forall|k: int| 0 <= k < i ==> x@[k] == y@[k],
        decreases x.len() - i,
    {
        if x[i] != y[i] {
            return false;
        }
        i += 1;
    }
    assert(a@ =~= b@);
    true
}

/// Splits `chars` at every occurrence of `sep`.
pub fn split_fields(chars: &Vec<char>, sep: char) -> (parts: Vec<Vec<char>>)
    ensures
        parts@.len() == fields(chars@, sep).len(),
        forall|i: int| 0 <= i < parts@.len() ==> (#[trigger] parts@[i])@ == fields(chars@, sep)[i],
{
    let mut done: Vec<Vec<char>> = Vec::new();
    let mut current: Vec<char> = Vec::new();
    let mut n: usize = 0;
    while n < chars.len()
        invariant
            n <= chars.len(),
            done@.len() + 1 == fields(chars@.take(n as int), sep).len(),
            forall|i: int|
                0 <= i < done@.len() ==> (#[trigger] done@[i])@ == fields(
                    chars@.take(n as int),
                    sep,
                )[i],
            current@ == fields(chars@.take(n as int), sep).last(),
        decreases chars.len() - n,
    {
        let c = chars[n];
        proof {
            assert(chars@.take(n + 1).drop_last() =~= chars@.take(n as int));
            assert(chars@.take(n + 1).last() == c);
        }
        if c == sep {
            done.push(current);
            current = Vec::new();
        } else {
            current.push(c);
        }
        n += 1;
    }
    proof {
        assert(chars@.take(n as int) =~= chars@);
    }
    done.push(current);
    done
}

/// Reads `chars` from position `start` on as an unsigned decimal number of
/// at most `limit`.
pub fn parse_number(chars: &Vec<char>, start: usize, limit: u32) -> (number: Option<u32>)
    requires
        start <= chars.len(),
    ensures
        match number {
            Some(n) => number_of(chars@.skip(start as int), limit as nat) == Some(n as nat),
            None => number_of(chars@.skip(start as int), limit as nat) is None,
        },
{
    let ghost digits = chars@.skip(start as int);
    if start == chars.len() {
        return None;
    }
    let mut value: u64 = 0;
    let mut i: usize = start;
    while i < chars.len()
        invariant
            start <= i <= chars.len(),
            digits == chars@.skip(start as int),
            all_digits(digits.take(i - start)),
            value == decimal(digits.take(i - start)),
            value <= limit,
        decreases chars.len() - i,
    {
        let c = chars[i];
        let ghost read = digits.take(i - start + 1);
        proof {
            assert(read.drop_last() =~= digits.take(i - start));
            assert(read.last() == c);
        }
        if c < '0' || c > '9' {
            assert(!is_digit(digits[i - start]));
            return None;
        }
        let d: u64 = (c as u32 - '0' as u32) as u64;
        let next: u64 = value * 10 + d;
        if next > limit as u64 {
            proof {
                if all_digits(digits) {
                    lemma_decimal_grows(digits, i - start + 1);
                }
            }
            return None;
        }
        value = next;
        i += 1;
    }
    proof {
        assert(digits.take(i - start) =~= digits);
    }
    Some(value as u32)
}

/// Reads `text` as a 32-bit signed decimal number.
pub fn parse_signed(text: &str) -> (number: Option<i32>)
    ensures
        number == signed_of(text@),
{
    let chars = chars_of(text);
    if chars.len() > 0 && chars[0] == '-' {
        match parse_number(&chars, 1, 0x8000_0000) {
            Some(n) => {
                let m: i64 = -(n as i64);
                Some(m as i32)
            },
            None => None,
        }
    } else {
        let start: usize = if chars.len() > 0 && chars[0] == '+' {
            1
        } else {
            0
        };
        assert(chars@.skip(start as int) =~= without_plus(chars@));
        match parse_number(&chars, start, 0x7FFF_FFFF) {
            Some(n) => Some(n as i32),
            None => None,
        }
    }
}

} // verus!
