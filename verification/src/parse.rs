//! Decimal numbers and comma-separated lists of them, read from the bytes of a
//! line of text.

use vstd::prelude::*;

verus! {

/// The byte is an ASCII digit.
pub open spec fn is_digit(b: u8) -> bool {
    48 <= b <= 57
}

/// Every byte is an ASCII digit.
pub open spec fn all_digits(s: Seq<u8>) -> bool {
    forall|i: int| 0 <= i < s.len() ==> is_digit(#[trigger] s[i])
}

/// The number that the digits write in base ten.
pub open spec fn digits_value(s: Seq<u8>) -> nat
    decreases s.len(),
{
    if s.len() == 0 {
        0
    } else {
        digits_value(s.drop_last()) * 10 + (s.last() - 48) as nat
    }
}

/// The number that the text writes: digits, at least one, after at most one sign.
/// A minus sign is read only where `signed` allows it.
pub open spec fn decimal_value(s: Seq<u8>, signed: bool) -> Option<int> {
    let negative = signed && s.len() > 0 && s[0] == 45;
    let digits = if s.len() > 0 && (s[0] == 43 || negative) {
        s.drop_first()
    } else {
        s
    };
    if digits.len() > 0 && all_digits(digits) {
        if negative {
            Some(-(digits_value(digits) as int))
        } else {
            Some(digits_value(digits) as int)
        }
    } else {
        None
    }
}

/// The unsigned number that the bytes between `from` and `to` write, where they
/// write one that fits.
pub open spec fn unsigned_field(s: Seq<u8>, from: int, to: int) -> Option<usize> {
    match decimal_value(s.subrange(from, to), false) {
        Some(v) => if v <= usize::MAX {
            Some(v as usize)
        } else {
            None
        },
        None => None,
    }
}

/// The signed number that the bytes between `from` and `to` write, where they
/// write one that fits.
pub open spec fn signed_field(s: Seq<u8>, from: int, to: int) -> Option<i64> {
    match decimal_value(s.subrange(from, to), true) {
        Some(v) => if i64::MIN <= v <= i64::MAX {
            Some(v as i64)
        } else {
            None
        },
        None => None,
    }
}

/// The byte is a bracket: a square one where `square` says so, else a round or
/// a curly one.
pub open spec fn is_bracket(b: u8, square: bool) -> bool {
    if square {
        b == 91 || b == 93
    } else {
        b == 40 || b == 41 || b == 123 || b == 125
    }
}

/// The first index at or after `i` that holds no bracket.
pub open spec fn skip_front(s: Seq<u8>, i: int, square: bool) -> int
    decreases s.len() - i,
{
    if 0 <= i < s.len() && is_bracket(s[i], square) {
        skip_front(s, i + 1, square)
    } else {
        i
    }
}

/// The end of the text between `lo` and `e` once the brackets at its end are cut.
pub open spec fn skip_back(s: Seq<u8>, lo: int, e: int, square: bool) -> int
    decreases e,
{
    if 0 <= lo < e <= s.len() && is_bracket(s[e - 1], square) {
        skip_back(s, lo, e - 1, square)
    } else {
        e
    }
}

/// The numbers of the comma-separated list between `from` and `to`; nothing
/// where one of its fields is no number.
pub open spec fn numbers_between(s: Seq<u8>, from: int, to: int) -> Option<Seq<usize>>
    decreases to - from,
{
    let comma = first_comma(s, from);
    if from < 0 || comma < from {
        None
    } else if comma >= to {
        match unsigned_field(s, from, to) {
            Some(v) => Some(seq![v]),
            None => None,
        }
    } else {
        match (unsigned_field(s, from, comma), numbers_between(s, comma + 1, to)) {
            (Some(v), Some(rest)) => Some(seq![v] + rest),
            _ => None,
        }
    }
}

/// The numbers of a comma-separated list with brackets around it.
pub open spec fn numbers_of(s: Seq<u8>) -> Option<Seq<usize>> {
    let from = skip_front(s, 0, false);
    let to = skip_back(s, from, s.len() as int, false);
    numbers_between(s, from, to)
}

/// The byte is ASCII white space.
pub open spec fn is_space(b: u8) -> bool {
    b == 32 || (9 <= b && b <= 13)
}

/// The first index at or after `i` that holds no white space.
pub open spec fn skip_spaces(s: Seq<u8>, i: int) -> int
    decreases s.len() - i,
{
    if 0 <= i < s.len() && is_space(s[i]) {
        skip_spaces(s, i + 1)
    } else {
        i
    }
}

/// The first index at or after `i` that holds white space; the length where
/// there is none.
pub open spec fn word_end(s: Seq<u8>, i: int) -> int
    decreases s.len() - i,
{
    if 0 <= i < s.len() && !is_space(s[i]) {
        word_end(s, i + 1)
    } else {
        i
    }
}

/// The lists of numbers that the words at or after `from` write, one list for
/// each word; nothing where a word is no list of numbers.
pub open spec fn lists_from(s: Seq<u8>, from: int) -> Option<Seq<Seq<usize>>>
    decreases s.len() - from,
{
    let start = skip_spaces(s, from);
    let end = word_end(s, start);
    if from < 0 || start < from || start >= s.len() || end <= start || end > s.len() {
        Some(Seq::empty())
    } else {
        match (numbers_of(s.subrange(start, end)), lists_from(s, end)) {
            (Some(v), Some(rest)) => Some(seq![v] + rest),
            _ => None,
        }
    }
}

/// The lights that a row of `.` and `#` writes, the first byte as bit 0: a light
/// is on where its byte is `#`. Lights after the 32nd are left out.
pub open spec fn lights_value(s: Seq<u8>) -> u32
    decreases s.len(),
{
    if s.len() == 0 {
        0
    } else if s[0] == 35 {
        (lights_value(s.drop_first()) << 1u32) | 1u32
    } else {
        lights_value(s.drop_first()) << 1u32
    }
}

/// The lights that a row of `.` and `#` with square brackets around it writes.
pub open spec fn lights_of(s: Seq<u8>) -> u32 {
    let from = skip_front(s, 0, true);
    let to = skip_back(s, from, s.len() as int, true);
    lights_value(s.subrange(from, to))
}

/// The index of the first comma at or after `from`; the length where there is none.
pub open spec fn first_comma(s: Seq<u8>, from: int) -> int
    decreases s.len() - from,
{
    if from < 0 || from >= s.len() {
        s.len() as int
    } else if s[from] == 44 {
        from
    } else {
        first_comma(s, from + 1)
    }
}

/// The digits of a prefix write no larger number than those of the whole.
proof fn lemma_prefix_value(s: Seq<u8>, k: int)
    requires
        0 <= k <= s.len(),
        all_digits(s),
    ensures
        digits_value(s.subrange(0, k)) <= digits_value(s),
    decreases s.len() - k,
{
    if k < s.len() {
        let longer = s.subrange(0, k + 1);
        assert(longer.drop_last() =~= s.subrange(0, k));
        assert(is_digit(s[k]));
        lemma_prefix_value(s, k + 1);
    } else {
        assert(s.subrange(0, k) =~= s);
    }
}

/// Reads the digits between `from` and `to`; nothing where a byte is no digit
/// or the number does not fit.
pub fn parse_digits(bytes: &[u8], from: usize, to: usize) -> (r: Option<u64>)
    requires
        from <= to <= bytes@.len(),
    ensures
        match r {
            Some(v) => all_digits(bytes@.subrange(from as int, to as int)) && v == digits_value(
                bytes@.subrange(from as int, to as int),
            ),
            None => !all_digits(bytes@.subrange(from as int, to as int)) || digits_value(
                bytes@.subrange(from as int, to as int),
            ) > u64::MAX,
        },
{
    let ghost text = bytes@.subrange(from as int, to as int);
    let mut value: u64 = 0;
    let mut i: usize = from;
    while i < to
        invariant
            from <= i <= to <= bytes@.len(),
            text == bytes@.subrange(from as int, to as int),
            all_digits(text.subrange(0, i - from)),
            value == digits_value(text.subrange(0, i - from)),
        decreases to - i,
    {
        let b: u8 = bytes[i];
        let ghost seen = text.subrange(0, i - from);
        let ghost next = text.subrange(0, i - from + 1);
        proof {
            assert(next.drop_last() =~= seen);
            assert(next.last() == b);
        }
        if b < 48 || b > 57 {
            assert(!is_digit(text[i - from]));
            return None;
        }
        let d: u64 = (b - 48) as u64;
        let shifted = value.checked_mul(10);
        let grown = match shifted {
            Some(v) => v.checked_add(d),
            None => None,
        };
        match grown {
            Some(v) => {
                value = v;
            },
            None => {
                proof {
                    assert(digits_value(next) > u64::MAX);
                    if all_digits(text) {
                        lemma_prefix_value(text, i - from + 1);
                    }
                }
                return None;
            },
        }
        proof {
            assert forall|m: int| 0 <= m < next.len() implies is_digit(#[trigger] next[m]) by {
                if m < seen.len() {
                    assert(next[m] == seen[m]);
                }
            }
        }
        i += 1;
    }
    proof {
        assert(text.subrange(0, i - from) =~= text);
    }
    Some(value)
}

/// Reads an unsigned decimal number; nothing where the text is none or the
/// number does not fit.
pub fn parse_unsigned(bytes: &[u8], from: usize, to: usize) -> (r: Option<usize>)
    requires
        from <= to <= bytes@.len(),
    ensures
        r == unsigned_field(bytes@, from as int, to as int),
{
    let ghost text = bytes@.subrange(from as int, to as int);
    let start: usize = if from < to && bytes[from] == 43 {
        from + 1
    } else {
        from
    };
    proof {
        if start > from {
            assert(text[0] == 43);
            assert(text.drop_first() =~= bytes@.subrange(start as int, to as int));
        } else if from < to {
            assert(text[0] == bytes@[from as int]);
        }
    }
    if start == to {
        return None;
    }
    match parse_digits(bytes, start, to) {
        None => None,
        Some(v) => {
            if v > usize::MAX as u64 {
                None
            } else {
                Some(v as usize)
            }
        },
    }
}

/// Reads a signed decimal number; nothing where the text is none or the number
/// does not fit.
pub fn parse_signed(bytes: &[u8], from: usize, to: usize) -> (r: Option<i64>)
    requires
        from <= to <= bytes@.len(),
    ensures
        r == signed_field(bytes@, from as int, to as int),
{
    let ghost text = bytes@.subrange(from as int, to as int);
    let negative: bool = from < to && bytes[from] == 45;
    let start: usize = if from < to && (bytes[from] == 43 || bytes[from] == 45) {
        from + 1
    } else {
        from
    };
    proof {
        if start > from {
            assert(text[0] == bytes@[from as int]);
            assert(text.drop_first() =~= bytes@.subrange(start as int, to as int));
        } else if from < to {
            assert(text[0] == bytes@[from as int]);
        }
    }
    if start == to {
        return None;
    }
    match parse_digits(bytes, start, to) {
        None => None,
        Some(v) => {
            if negative {
                if v > 0x8000_0000_0000_0000 {
                    None
                } else if v == 0x8000_0000_0000_0000 {
                    Some(i64::MIN)
                } else {
                    Some(-(v as i64))
                }
            } else if v > 0x7fff_ffff_ffff_ffff {
                None
            } else {
                Some(v as i64)
            }
        },
    }
}

/// The index of the first comma at or after `from`; the length where there is none.
pub fn find_comma(bytes: &[u8], from: usize) -> (at: usize)
    ensures
        at == first_comma(bytes@, from as int),
        from <= bytes@.len() ==> from <= at <= bytes@.len(),
        at < bytes@.len() ==> bytes@[at as int] == 44,
{
    let mut i: usize = from;
    while i < bytes.len()
        invariant
            from <= i,
            first_comma(bytes@, from as int) == first_comma(bytes@, i as int),
        decreases bytes@.len() - i,
    {
        if bytes[i] == 44 {
            return i;
        }
        i += 1;
    }
    bytes.len()
}

/// Reads the comma-separated numbers between `from` and `to` and appends them
/// to `out`; says whether every field was a number.
pub fn collect_numbers(bytes: &[u8], from: usize, to: usize, out: &mut Vec<usize>) -> (ok: bool)
    requires
        from <= to <= bytes@.len(),
    ensures
        match numbers_between(bytes@, from as int, to as int) {
            Some(found) => ok && final(out)@ == old(out)@ + found,
            None => !ok,
        },
    decreases to - from,
{
    let comma: usize = find_comma(bytes, from);
    if comma >= to {
        match parse_unsigned(bytes, from, to) {
            Some(v) => {
                out.push(v);
                proof {
                    assert(out@ =~= old(out)@ + seq![v]);
                }
                true
            },
            None => false,
        }
    } else {
        match parse_unsigned(bytes, from, comma) {
            Some(v) => {
                out.push(v);
                let ghost mid = out@;
                let ok = collect_numbers(bytes, comma + 1, to, out);
                proof {
                    if ok {
                        let rest = numbers_between(bytes@, comma + 1, to as int).unwrap();
                        assert(out@ == mid + rest);
                        assert(mid + rest =~= old(out)@ + (seq![v] + rest));
                    }
                }
                ok
            },
            None => false,
        }
    }
}

/// Reads a comma-separated list of numbers with round or curly brackets around it.
pub fn parse_list(bytes: &[u8]) -> (r: Option<Vec<usize>>)
    ensures
        match numbers_of(bytes@) {
            Some(found) => r matches Some(v) && v@ == found,
            None => r is None,
        },
{
    let (from, to) = trim_brackets(bytes, false);
    let mut out: Vec<usize> = Vec::new();
    if collect_numbers(bytes, from, to, &mut out) {
        Some(out)
    } else {
        None
    }
}

/// The first index at or after `from` that holds no white space.
pub fn skip_space_bytes(bytes: &[u8], from: usize) -> (at: usize)
    requires
        from <= bytes@.len(),
    ensures
        at == skip_spaces(bytes@, from as int),
        from <= at <= bytes@.len(),
        at < bytes@.len() ==> !is_space(bytes@[at as int]),
{
    let mut i: usize = from;
    while i < bytes.len() && (bytes[i] == 32 || (9 <= bytes[i] && bytes[i] <= 13))
        invariant
            from <= i <= bytes@.len(),
            skip_spaces(bytes@, from as int) == skip_spaces(bytes@, i as int),
        decreases bytes@.len() - i,
    {
        i += 1;
    }
    i
}

/// The first index at or after `from` that holds white space; the length where
/// there is none.
pub fn word_end_bytes(bytes: &[u8], from: usize) -> (at: usize)
    requires
        from <= bytes@.len(),
    ensures
        at == word_end(bytes@, from as int),
        from <= at <= bytes@.len(),
        from < bytes@.len() && !is_space(bytes@[from as int]) ==> from < at,
{
    let mut i: usize = from;
    while i < bytes.len() && !(bytes[i] == 32 || (9 <= bytes[i] && bytes[i] <= 13))
        invariant
            from <= i <= bytes@.len(),
            word_end(bytes@, from as int) == word_end(bytes@, i as int),
            from < bytes@.len() && !is_space(bytes@[from as int]) && i == from ==> i < bytes@.len(),
        decreases bytes@.len() - i,
    {
        i += 1;
    }
    i
}

/// The lists as sequences.
pub open spec fn views(lists: Seq<Vec<usize>>) -> Seq<Seq<usize>> {
    Seq::new(lists.len(), |i: int| lists[i]@)
}

/// Reads the words at or after `from`, each a list of numbers, and appends the
/// lists to `out`; says whether every word was such a list.
pub fn collect_lists(bytes: &[u8], from: usize, out: &mut Vec<Vec<usize>>) -> (ok: bool)
    requires
        from <= bytes@.len(),
    ensures
        match lists_from(bytes@, from as int) {
            Some(found) => ok && views(final(out)@) == views(old(out)@) + found,
            None => !ok,
        },
    decreases bytes@.len() - from,
{
    let start: usize = skip_space_bytes(bytes, from);
    if start >= bytes.len() {
        proof {
            assert(views(out@) =~= views(old(out)@) + Seq::<Seq<usize>>::empty());
        }
        return true;
    }
    proof {
        assert(!is_space(bytes@[start as int]));
    }
    let end: usize = word_end_bytes(bytes, start);
    match parse_list(vstd::slice::slice_subrange(bytes, start, end)) {
        None => false,
        Some(list) => {
            let ghost v = list@;
            out.push(list);
            let ghost mid = views(out@);
            proof {
                assert(mid =~= views(old(out)@).push(v));
            }
            let ok = collect_lists(bytes, end, out);
            proof {
                if ok {
                    let rest = lists_from(bytes@, end as int).unwrap();
                    assert(views(out@) == mid + rest);
                    assert(mid + rest =~= views(old(out)@) + (seq![v] + rest));
                }
            }
            ok
        },
    }
}

/// Whether the byte is a bracket of the kind asked for.
pub fn is_bracket_byte(b: u8, square: bool) -> (r: bool)
    ensures
        r == is_bracket(b, square),
{
    if square {
        b == 91 || b == 93
    } else {
        b == 40 || b == 41 || b == 123 || b == 125
    }
}

/// Where the text starts and ends once the brackets at both ends are cut.
pub fn trim_brackets(bytes: &[u8], square: bool) -> (r: (usize, usize))
    ensures
        r.0 == skip_front(bytes@, 0, square),
        r.1 == skip_back(bytes@, r.0 as int, bytes@.len() as int, square),
        r.0 <= r.1 <= bytes@.len(),
{
    let mut from: usize = 0;
    while from < bytes.len() && is_bracket_byte(bytes[from], square)
        invariant
            from <= bytes@.len(),
            skip_front(bytes@, 0, square) == skip_front(bytes@, from as int, square),
        decreases bytes@.len() - from,
    {
        from += 1;
    }
    let mut to: usize = bytes.len();
    while to > from && is_bracket_byte(bytes[to - 1], square)
        invariant
            from <= to <= bytes@.len(),
            skip_back(bytes@, from as int, bytes@.len() as int, square) == skip_back(
                bytes@,
                from as int,
                to as int,
                square,
            ),
        decreases to,
    {
        to -= 1;
    }
    (from, to)
}

/// Reads a row of lights with square brackets around it.
pub fn parse_row(bytes: &[u8]) -> (lights: u32)
    ensures
        lights == lights_of(bytes@),
{
    let (from, to) = trim_brackets(bytes, true);
    let ghost row = bytes@.subrange(from as int, to as int);
    let mut lights: u32 = 0;
    let mut i: usize = to;
    proof {
        assert(row.subrange(row.len() as int, row.len() as int) =~= Seq::<u8>::empty());
    }
    while i > from
        invariant
            from <= i <= to <= bytes@.len(),
            row == bytes@.subrange(from as int, to as int),
            lights == lights_value(row.subrange(i - from, row.len() as int)),
        decreases i,
    {
        i -= 1;
        proof {
            let tail = row.subrange(i - from, row.len() as int);
            assert(tail.drop_first() =~= row.subrange(i - from + 1, row.len() as int));
            assert(tail[0] == bytes@[i as int]);
        }
        if bytes[i] == 35 {
            lights = (lights << 1u32) | 1u32;
        } else {
            lights = lights << 1u32;
        }
    }
    proof {
        assert(row.subrange(0, row.len() as int) =~= row);
    }
    lights
}

} // verus!
