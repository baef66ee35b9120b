//! The text of an instance file, taken apart: lines, the words of a line,
//! and the numbers that words write.
use vstd::prelude::*;

verus! {

/// A line ends at this byte.
pub const NEWLINE: u8 = 10;

/// Space, tab, line feed, vertical tab, form feed and carriage return keep
/// words apart.
pub open spec fn is_space(b: u8) -> bool {
    b == 32 || 9 <= b <= 13
}

/// `b` is one of the digits `0` to `9`.
pub open spec fn is_digit(b: u8) -> bool {
    48 <= b <= 57
}

/// Every byte of `s` is a digit.
pub open spec fn all_digits(s: Seq<u8>) -> bool {
    forall|i: int| 0 <= i < s.len() ==> is_digit(#[trigger] s[i])
}

/// The number that the digits `s` write in base ten; zero for no digits.
pub open spec fn digits_value(s: Seq<u8>) -> nat
    decreases s.len(),
{
    if s.len() == 0 {
        0
    } else {
        digits_value(s.drop_last()) * 10 + (s.last() - 48) as nat
    }
}

/// `word` without the plus sign that it may start with.
pub open spec fn unsigned_part(word: Seq<u8>) -> Seq<u8> {
    if word.len() > 0 && word[0] == 43 {
        word.skip(1)
    } else {
        word
    }
}

/// The whole number that `word` writes: digits, at least one, with or
/// without a plus sign in front. `None` for any other word, and for a number
/// above `limit`.
pub open spec fn whole_number(word: Seq<u8>, limit: nat) -> Option<nat> {
    let digits = unsigned_part(word);
    if digits.len() > 0 && all_digits(digits) && digits_value(digits) <= limit {
        Some(digits_value(digits))
    } else {
        None
    }
}

/// Where the first point of `s` stands; the length of `s` where it has none.
pub open spec fn first_point(s: Seq<u8>) -> int
    decreases s.len(),
{
    if s.len() == 0 || s[0] == 46 {
        0
    } else {
        1 + first_point(s.skip(1))
    }
}

/// The hundredths that the digits `s` behind a point write, rounded to the
/// nearest: the first two digits count, and the third rounds up from 5 on.
pub open spec fn cents(s: Seq<u8>) -> nat {
    let tenths = if s.len() > 0 {
        (s[0] - 48) as nat
    } else {
        0
    };
    let hundredths = if s.len() > 1 {
        (s[1] - 48) as nat
    } else {
        0
    };
    let up = if s.len() > 2 && s[2] >= 53 {
        1nat
    } else {
        0nat
    };
    tenths * 10 + hundredths + up
}

/// The decimal number that `word` writes, in hundredths: digits, with or
/// without a point among them and a plus sign in front; at least one digit.
/// `None` for any other word, and for a number of more than `limit`
/// hundredths.
pub open spec fn decimal_hundredths(word: Seq<u8>, limit: nat) -> Option<nat> {
    let body = unsigned_part(word);
    let point = first_point(body);
    let whole = body.take(point);
    let part = if point < body.len() {
        body.skip(point + 1)
    } else {
        Seq::empty()
    };
    let value = digits_value(whole) * 100 + cents(part);
    if whole.len() + part.len() > 0 && all_digits(whole) && all_digits(part) && value <= limit {
        Some(value)
    } else {
        None
    }
}

/// The words found in a text so far and the word that is being read.
pub open spec fn word_scan(line: Seq<u8>) -> (Seq<Seq<u8>>, Seq<u8>)
    decreases line.len(),
{
    if line.len() == 0 {
        (Seq::empty(), Seq::empty())
    } else {
        let (done, word) = word_scan(line.drop_last());
        if !is_space(line.last()) {
            (done, word.push(line.last()))
        } else if word.len() > 0 {
            (done.push(word), Seq::empty())
        } else {
            (done, word)
        }
    }
}

/// The words of `line`: its longest stretches without a space, front to
/// back.
pub open spec fn words(line: Seq<u8>) -> Seq<Seq<u8>> {
    let (done, word) = word_scan(line);
    if word.len() > 0 {
        done.push(word)
    } else {
        done
    }
}

/// The lines found in a text so far and the line that is being read.
pub open spec fn line_scan(text: Seq<u8>) -> (Seq<Seq<u8>>, Seq<u8>)
    decreases text.len(),
{
    if text.len() == 0 {
        (Seq::empty(), Seq::empty())
    } else {
        let (done, line) = line_scan(text.drop_last());
        if text.last() == NEWLINE {
            (done.push(line), Seq::empty())
        } else {
            (done, line.push(text.last()))
        }
    }
}

/// The lines of `text`: what stands between its line feeds, front to back.
/// What follows the last line feed is a line only where it is not empty.
pub open spec fn lines(text: Seq<u8>) -> Seq<Seq<u8>> {
    let (done, line) = line_scan(text);
    if line.len() > 0 {
        done.push(line)
    } else {
        done
    }
}

/// What the vectors of `rows` hold.
pub open spec fn contents(rows: Seq<Vec<u8>>) -> Seq<Seq<u8>> {
    Seq::new(rows.len(), |i: int| rows[i]@)
}

/// More digits never write a smaller number.
proof fn lemma_digits_grow(s: Seq<u8>, k: int)
    requires
        all_digits(s),
        0 <= k <= s.len(),
    ensures
        digits_value(s.take(k)) <= digits_value(s),
    decreases s.len() - k,
{
    if k < s.len() {
        lemma_digits_grow(s, k + 1);
        assert(s.take(k + 1).drop_last() =~= s.take(k));
    } else {
        assert(s.take(k) =~= s);
    }
}

/// The first point stands where a point stands and none stands before.
proof fn lemma_first_point(s: Seq<u8>, k: int)
    requires
        0 <= k <= s.len(),
        forall|j: int| 0 <= j < k ==> s[j] != 46,
        k < s.len() ==> s[k] == 46,
    ensures
        first_point(s) == k,
    decreases k,
{
    if k > 0 {
        let rest = s.skip(1);
        assert forall|j: int| 0 <= j < k - 1 implies rest[j] != 46 by {
            assert(rest[j] == s[j + 1]);
        }
        lemma_first_point(rest, k - 1);
    }
}

/// Reads the digits of `word` from position `from` up to position `to`.
/// Gives the number that they write, or `None` where one of the bytes is no
/// digit or the number is above `limit`.
fn read_digits(word: &Vec<u8>, from: usize, to: usize, limit: u64) -> (value: Option<u64>)
    requires
        from <= to <= word@.len(),
    ensures
        value == if all_digits(word@.subrange(from as int, to as int)) && digits_value(
            word@.subrange(from as int, to as int),
        ) <= limit {
            Some(digits_value(word@.subrange(from as int, to as int)) as u64)
        } else {
            None
        },
{
    let ghost digits = word@.subrange(from as int, to as int);
    let mut total: u64 = 0;
    let mut k: usize = from;
    while k < to
        invariant
            from <= k <= to <= word@.len(),
            digits == word@.subrange(from as int, to as int),
            all_digits(digits.take(k - from)),
            total == digits_value(digits.take(k - from)),
            total <= limit,
        decreases to - k,
    {
        let b: u8 = word[k];
        assert(digits[k - from] == b);
        if b < 48 || b > 57 {
            return None;
        }
        let next: u128 = total as u128 * 10 + (b - 48) as u128;
        proof {
            assert(digits.take(k - from + 1).drop_last() =~= digits.take(k - from));
            assert forall|i: int| 0 <= i < k - from + 1 implies is_digit(
                #[trigger] digits.take(k - from + 1)[i],
            ) by {
                if i < k - from {
                    assert(digits.take(k - from)[i] == digits[i]);
                }
            }
            assert(next == digits_value(digits.take(k - from + 1)));
        }
        if next > limit as u128 {
            proof {
                if all_digits(digits) {
                    lemma_digits_grow(digits, k - from + 1);
                }
            }
            return None;
        }
        total = next as u64;
        k += 1;
    }
    assert(digits.take(k - from) =~= digits);
    Some(total)
}

/// Reads `word` as a whole number of at most `limit`.
pub fn read_whole_number(word: &Vec<u8>, limit: u64) -> (value: Option<u64>)
    ensures
        match value {
            Some(v) => whole_number(word@, limit as nat) == Some(v as nat),
            None => whole_number(word@, limit as nat).is_none(),
        },
{
    let from: usize = if word.len() > 0 && word[0] == 43 {
        1
    } else {
        0
    };
    if from == word.len() {
        return None;
    }
    assert(unsigned_part(word@) =~= word@.subrange(from as int, word@.len() as int));
    read_digits(word, from, word.len(), limit)
}

/// Finds the first point of `word` at or behind position `from`.
fn find_point(word: &Vec<u8>, from: usize) -> (point: usize)
    requires
        from <= word@.len(),
    ensures
        from <= point <= word@.len(),
        point - from == first_point(word@.subrange(from as int, word@.len() as int)),
{
    let ghost body = word@.subrange(from as int, word@.len() as int);
    let mut point: usize = from;
    while point < word.len() && word[point] != 46
        invariant
            from <= point <= word@.len(),
            body == word@.subrange(from as int, word@.len() as int),
            forall|j: int| 0 <= j < point - from ==> body[j] != 46,
        decreases word.len() - point,
    {
        point += 1;
    }
    proof {
        lemma_first_point(body, point - from);
    }
    point
}

/// Reads the digits of `word` from position `from` on as the part of a
/// decimal number behind its point.
fn read_cents(word: &Vec<u8>, from: usize) -> (value: Option<u64>)
    requires
        from <= word@.len(),
    ensures
        value == if all_digits(word@.subrange(from as int, word@.len() as int)) {
            Some(cents(word@.subrange(from as int, word@.len() as int)) as u64)
        } else {
            None
        },
        value matches Some(v) ==> v <= 100,
{
    let ghost part = word@.subrange(from as int, word@.len() as int);
    let mut k: usize = from;
    while k < word.len()
        invariant
            from <= k <= word@.len(),
            part == word@.subrange(from as int, word@.len() as int),
            forall|j: int| 0 <= j < k - from ==> is_digit(#[trigger] part[j]),
        decreases word.len() - k,
    {
        let b: u8 = word[k];
        assert(part[k - from] == b);
        if b < 48 || b > 57 {
            assert(!is_digit(part[k - from]));
            return None;
        }
        k += 1;
    }
    assert(all_digits(part));
    let left: usize = word.len() - from;
    proof {
        if part.len() > 0 {
            assert(part[0] == word@[from as int] && is_digit(part[0]));
        }
        if part.len() > 1 {
            assert(part[1] == word@[from + 1] && is_digit(part[1]));
        }
        if part.len() > 2 {
            assert(part[2] == word@[from + 2]);
        }
    }
    let tenths: u64 = if left > 0 {
        (word[from] - 48) as u64
    } else {
        0
    };
    let hundredths: u64 = if left > 1 {
        (word[from + 1] - 48) as u64
    } else {
        0
    };
    let up: u64 = if left > 2 && word[from + 2] >= 53 {
        1
    } else {
        0
    };
    Some(tenths * 10 + hundredths + up)
}

/// Reads `word` as a decimal number of at most `limit` hundredths, in
/// hundredths.
pub fn read_decimal(word: &Vec<u8>, limit: u32) -> (value: Option<u32>)
    ensures
        match value {
            Some(v) => decimal_hundredths(word@, limit as nat) == Some(v as nat),
            None => decimal_hundredths(word@, limit as nat).is_none(),
        },
{
    let from: usize = if word.len() > 0 && word[0] == 43 {
        1
    } else {
        0
    };
    let ghost body = unsigned_part(word@);
    assert(body =~= word@.subrange(from as int, word@.len() as int));
    let point: usize = find_point(word, from);
    let behind: usize = if point < word.len() {
        point + 1
    } else {
        point
    };
    let ghost whole = body.take(point - from);
    let ghost part = if point - from < body.len() {
        body.skip(point - from + 1)
    } else {
        Seq::empty()
    };
    assert(whole =~= word@.subrange(from as int, point as int));
    assert(part =~= word@.subrange(behind as int, word@.len() as int));
    if point - from + (word.len() - behind) == 0 {
        return None;
    }
    let units: Option<u64> = read_digits(word, from, point, limit as u64);
    let rest: Option<u64> = read_cents(word, behind);
    match (units, rest) {
        (Some(units), Some(rest)) => {
            let value: u64 = units * 100 + rest;
            if value > limit as u64 {
                None
            } else {
                Some(value as u32)
            }
        },
        _ => None,
    }
}

/// Takes `line` apart into its words.
pub fn split_words(line: &Vec<u8>) -> (found: Vec<Vec<u8>>)
    ensures
        contents(found@) == words(line@),
{
    let mut found: Vec<Vec<u8>> = Vec::new();
    let mut word: Vec<u8> = Vec::new();
    let mut k: usize = 0;
    while k < line.len()
        invariant
            k <= line@.len(),
            (contents(found@), word@) == word_scan(line@.take(k as int)),
        decreases line.len() - k,
    {
        let b: u8 = line[k];
        proof {
            assert(line@.take(k + 1).drop_last() =~= line@.take(k as int));
        }
        if !(b == 32 || (9 <= b && b <= 13)) {
            word.push(b);
        } else if word.len() > 0 {
            let ghost before = contents(found@);
            let ghost read = word@;
            found.push(word);
            word = Vec::new();
            assert(contents(found@) =~= before.push(read));
        }
        k += 1;
    }
    assert(line@.take(k as int) =~= line@);
    if word.len() > 0 {
        let ghost before = contents(found@);
        let ghost read = word@;
        found.push(word);
        assert(contents(found@) =~= before.push(read));
    }
    found
}

/// Takes `text` apart into its lines.
pub fn split_lines(text: &[u8]) -> (found: Vec<Vec<u8>>)
    ensures
        contents(found@) == lines(text@),
{
    let mut found: Vec<Vec<u8>> = Vec::new();
    let mut line: Vec<u8> = Vec::new();
    let mut k: usize = 0;
    while k < text.len()
        invariant
            k <= text@.len(),
            (contents(found@), line@) == line_scan(text@.take(k as int)),
        decreases text.len() - k,
    {
        let b: u8 = text[k];
        proof {
            assert(text@.take(k + 1).drop_last() =~= text@.take(k as int));
        }
        if b == NEWLINE {
            let ghost before = contents(found@);
            let ghost read = line@;
            found.push(line);
            line = Vec::new();
            assert(contents(found@) =~= before.push(read));
        } else {
            line.push(b);
        }
        k += 1;
    }
    assert(text@.take(k as int) =~= text@);
    if line.len() > 0 {
        let ghost before = contents(found@);
        let ghost read = line@;
        found.push(line);
        assert(contents(found@) =~= before.push(read));
    }
    found
}

} // verus!
