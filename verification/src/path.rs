//! The canonical path of a tile, `z/x/y.pbf`, and how a path is read back.

use vstd::prelude::*;
use vstd::string::{StrSliceExecFns, StringExecFns};
use crate::text::{decimal_text, digit_char, push_decimal};
use crate::TileCoord;

verus! {

/// The path of the tile `(z, x, y)`.
pub open spec fn path_text(z: u8, x: u32, y: u32) -> Seq<char> {
    decimal_text(z as nat) + seq!['/'] + decimal_text(x as nat) + seq!['/'] + decimal_text(
        y as nat,
    ) + seq!['.', 'p', 'b', 'f']
}

/// Writes the path of a tile.
pub fn tile_path(z: u8, x: u32, y: u32) -> (path: String)
    ensures
        path@ == path_text(z, x, y),
{
    proof {
        reveal_strlit("/");
        reveal_strlit(".pbf");
    }
    let mut path = String::new();
    push_decimal(&mut path, z as u64);
    path.append("/");
    push_decimal(&mut path, x as u64);
    path.append("/");
    push_decimal(&mut path, y as u64);
    path.append(".pbf");
    assert("/"@ =~= seq!['/']);
    assert(".pbf"@ =~= seq!['.', 'p', 'b', 'f']);
    assert(path@ =~= path_text(z, x, y));
    path
}

/// Whether `c` is a decimal digit.
pub open spec fn is_digit(c: char) -> bool {
    '0' <= c && c <= '9'
}

/// Whether `s` consists of decimal digits.
pub open spec fn all_digits(s: Seq<char>) -> bool {
    forall|i: int| 0 <= i < s.len() ==> is_digit(#[trigger] s[i])
}

/// The number that the digits of `s` write, the first digit weighing most.
pub open spec fn digits_value(s: Seq<char>) -> int
    decreases s.len(),
{
    if s.len() == 0 {
        0
    } else {
        10 * digits_value(s.drop_last()) + (s.last() as int - '0' as int)
    }
}

/// The number that `s` stands for: an optional `+`, then one digit or more,
/// writing a value of at most `max`. Any other text stands for zero.
pub open spec fn parse_unsigned(s: Seq<char>, max: int) -> int {
    if s.len() > 0 && s[0] == '+' {
        number_or_zero(s.skip(1), max)
    } else {
        number_or_zero(s, max)
    }
}

/// The value of `body` if it is a digit string that writes at most `max`,
/// else zero.
pub open spec fn number_or_zero(body: Seq<char>, max: int) -> int {
    if body.len() > 0 && all_digits(body) && digits_value(body) <= max {
        digits_value(body)
    } else {
        0
    }
}

/// The first place at or behind `from` where `s` holds `c`; the length of
/// `s` if there is none.
pub open spec fn find_char(s: Seq<char>, c: char, from: int) -> int
    decreases s.len() - from,
{
    if from >= s.len() {
        s.len() as int
    } else if from >= 0 && s[from] == c {
        from
    } else {
        find_char(s, c, from + 1)
    }
}

/// Whether `s` ends in `.pbf`.
pub open spec fn ends_with_pbf(s: Seq<char>) -> bool {
    s.len() >= 4 && s[s.len() - 4] == '.' && s[s.len() - 3] == 'p' && s[s.len() - 2] == 'b' && s[s.len()
        - 1] == 'f'
}

/// `s` without every `.pbf` at its end.
pub open spec fn trim_pbf(s: Seq<char>) -> Seq<char>
    decreases s.len(),
{
    if ends_with_pbf(s) {
        trim_pbf(s.take(s.len() - 4))
    } else {
        s
    }
}

/// The tile that a path names. A path of three parts between slashes gives
/// the numbers of its parts, the last part read without the `.pbf` at its
/// end and a part that is no number read as zero; any other text gives the
/// tile `(0, 0, 0)`.
pub open spec fn parse_path(s: Seq<char>) -> (int, int, int) {
    let i = find_char(s, '/', 0);
    let j = find_char(s, '/', i + 1);
    let k = find_char(s, '/', j + 1);
    if i < s.len() && j < s.len() && k >= s.len() {
        (
            parse_unsigned(s.subrange(0, i), u8::MAX as int),
            parse_unsigned(s.subrange(i + 1, j), u32::MAX as int),
            parse_unsigned(trim_pbf(s.subrange(j + 1, s.len() as int)), u32::MAX as int),
        )
    } else {
        (0, 0, 0)
    }
}

/// Finds the first `c` at or behind `from`.
fn find_from(s: &str, len: usize, c: char, from: usize) -> (r: usize)
    requires
        len == s@.len(),
    ensures
        r == find_char(s@, c, from as int),
        from <= len ==> from <= r <= len,
        r < len ==> s@[r as int] == c,
{
    if from >= len {
        return len;
    }
    let mut i: usize = from;
    while i < len
        invariant
            from <= i <= len == s@.len(),
            find_char(s@, c, i as int) == find_char(s@, c, from as int),
        decreases len - i,
    {
        if s.get_char(i) == c {
            return i;
        }
        i += 1;
    }
    len
}

/// Reads the number that the part `from..to` of `s` stands for.
fn parse_range(s: &str, from: usize, to: usize, max: u32) -> (v: u32)
    requires
        from <= to <= s@.len(),
    ensures
        v == parse_unsigned(s@.subrange(from as int, to as int), max as int),
{
    let ghost part = s@.subrange(from as int, to as int);
    let mut start: usize = from;
    if from < to && s.get_char(from) == '+' {
        start = from + 1;
    }
    let ghost body = s@.subrange(start as int, to as int);
    proof {
        if start == from {
            assert(part.len() > 0 ==> part[0] == s@[from as int]);
            assert(body =~= part);
        } else {
            assert(part[0] == '+');
            assert(body =~= part.skip(1));
        }
        assert(parse_unsigned(part, max as int) == number_or_zero(body, max as int));
    }
    let ghost want = number_or_zero(body, max as int);
    if start >= to {
        return 0;
    }
    let mut value: u64 = 0;
    let mut i: usize = start;
    assert(body.take(0) =~= Seq::<char>::empty());
    while i < to
        invariant
            start <= i <= to <= s@.len(),
            body == s@.subrange(start as int, to as int),
            want == number_or_zero(body, max as int),
            want == parse_unsigned(s@.subrange(from as int, to as int), max as int),
            all_digits(body.take(i - start)),
            value == digits_value(body.take(i - start)),
            value <= max,
        decreases to - i,
    {
        let c = s.get_char(i);
        let ghost seen = body.take(i - start);
        let ghost next = body.take(i - start + 1);
        proof {
            assert(body[i - start] == c);
            assert(next.drop_last() =~= seen);
            assert(next.last() == c);
        }
        if !(c >= '0' && c <= '9') {
            proof {
                assert(!is_digit(body[i - start]));
            }
            return 0;
        }
        value = value * 10 + (c as u64 - '0' as u64);
        if value > max as u64 {
            proof {
                if all_digits(body) {
                    lemma_digits_value_grows(body, i - start + 1);
                }
            }
            return 0;
        }
        proof {
            assert forall|t: int| 0 <= t < next.len() implies is_digit(#[trigger] next[t]) by {
                if t < seen.len() {
                    assert(next[t] == seen[t]);
                }
            }
        }
        i += 1;
    }
    assert(body.take(i - start) =~= body);
    value as u32
}

/// The value of a digit string is at least the value of each of its
/// beginnings.
proof fn lemma_digits_value_grows(s: Seq<char>, n: int)
    requires
        0 <= n <= s.len(),
        all_digits(s),
    ensures
        digits_value(s.take(n)) <= digits_value(s),
        0 <= digits_value(s.take(n)),
    decreases s.len() - n,
{
    lemma_digits_value_positive(s.take(n));
    if n == s.len() {
        assert(s.take(n) =~= s);
    } else {
        lemma_digits_value_grows(s, n + 1);
        assert(s.take(n + 1).drop_last() =~= s.take(n));
        assert(is_digit(s[n]));
    }
}

/// The value of a digit string is not negative.
proof fn lemma_digits_value_positive(s: Seq<char>)
    requires
        all_digits(s),
    ensures
        0 <= digits_value(s),
    decreases s.len(),
{
    if s.len() > 0 {
        assert(is_digit(s[s.len() - 1]));
        lemma_digits_value_positive(s.drop_last());
    }
}

/// Reads a tile back from a path.
pub fn parse_tile_path(path: &str) -> (c: TileCoord)
    ensures
        (c.z as int, c.x as int, c.y as int) == parse_path(path@),
{
    let len = path.unicode_len();
    let i = find_from(path, len, '/', 0);
    if i >= len {
        return TileCoord { z: 0, x: 0, y: 0 };
    }
    let j = find_from(path, len, '/', i + 1);
    if j >= len {
        return TileCoord { z: 0, x: 0, y: 0 };
    }
    let k = find_from(path, len, '/', j + 1);
    if k < len {
        return TileCoord { z: 0, x: 0, y: 0 };
    }
    let z = parse_range(path, 0, i, 255);
    let x = parse_range(path, i + 1, j, u32::MAX);
    let ghost tail = path@.subrange(j + 1, len as int);
    let mut end: usize = len;
    while end - (j + 1) >= 4 && path.get_char(end - 4) == '.' && path.get_char(end - 3) == 'p'
        && path.get_char(end - 2) == 'b' && path.get_char(end - 1) == 'f'
        invariant
            j + 1 <= end <= len == path@.len(),
            tail == path@.subrange(j + 1, len as int),
            trim_pbf(path@.subrange(j + 1, end as int)) == trim_pbf(tail),
        decreases end,
    {
        proof {
            let now = path@.subrange(j + 1, end as int);
            assert(ends_with_pbf(now));
            assert(now.take(now.len() - 4) =~= path@.subrange(j + 1, end - 4));
        }
        end = end - 4;
    }
    proof {
        let now = path@.subrange(j + 1, end as int);
        assert(!ends_with_pbf(now));
    }
    let y = parse_range(path, j + 1, end, u32::MAX);
    TileCoord { z: z as u8, x, y }
}

/// Decimal text consists of digits, one at least, and writes its number.
pub proof fn lemma_decimal_text(n: nat)
    ensures
        decimal_text(n).len() >= 1,
        all_digits(decimal_text(n)),
        digits_value(decimal_text(n)) == n,
    decreases n,
{
    if n < 10 {
        assert(decimal_text(n).drop_last() =~= Seq::<char>::empty());
        assert(digits_value(decimal_text(n).drop_last()) == 0);
    } else {
        lemma_decimal_text(n / 10);
        let t = decimal_text(n);
        assert(t.drop_last() =~= decimal_text(n / 10));
        assert forall|i: int| 0 <= i < t.len() implies is_digit(#[trigger] t[i]) by {
            if i < t.len() - 1 {
                assert(t[i] == decimal_text(n / 10)[i]);
            }
        }
    }
}

/// In a text without `c` between `from` and `to`, the search from `from`
/// goes on at `to`.
proof fn lemma_find_char_skips(s: Seq<char>, c: char, from: int, to: int)
    requires
        0 <= from <= to <= s.len(),
        forall|i: int| from <= i < to ==> s[i] != c,
    ensures
        find_char(s, c, from) == find_char(s, c, to),
    decreases to - from,
{
    if from < to {
        lemma_find_char_skips(s, c, from + 1, to);
    }
}

/// The path of a tile reads back as that tile.
pub proof fn lemma_path_round_trip(z: u8, x: u32, y: u32)
    ensures
        parse_path(path_text(z, x, y)) == (z as int, x as int, y as int),
{
    let dz = decimal_text(z as nat);
    let dx = decimal_text(x as nat);
    let dy = decimal_text(y as nat);
    let s = path_text(z, x, y);
    lemma_decimal_text(z as nat);
    lemma_decimal_text(x as nat);
    lemma_decimal_text(y as nat);
    let i = dz.len() as int;
    let j = i + 1 + dx.len();
    let n = s.len() as int;
    assert(n == j + 1 + dy.len() + 4);
    assert forall|t: int| 0 <= t < i implies s[t] != '/' by {
        assert(s[t] == dz[t]);
        assert(is_digit(dz[t]));
    }
    assert forall|t: int| i + 1 <= t < j implies s[t] != '/' by {
        assert(s[t] == dx[t - i - 1]);
        assert(is_digit(dx[t - i - 1]));
    }
    assert forall|t: int| j + 1 <= t < n implies s[t] != '/' by {
        if t < j + 1 + dy.len() {
            assert(s[t] == dy[t - j - 1]);
            assert(is_digit(dy[t - j - 1]));
        }
    }
    assert(s[i] == '/');
    assert(s[j] == '/');
    lemma_find_char_skips(s, '/', 0, i);
    lemma_find_char_skips(s, '/', i + 1, j);
    lemma_find_char_skips(s, '/', j + 1, n);
    assert(find_char(s, '/', 0) == i);
    assert(find_char(s, '/', i + 1) == j);
    assert(find_char(s, '/', j + 1) == n);
    assert(s.subrange(0, i) =~= dz);
    assert(s.subrange(i + 1, j) =~= dx);
    let tail = s.subrange(j + 1, n);
    assert(ends_with_pbf(tail));
    assert(tail.take(tail.len() - 4) =~= dy);
    assert(is_digit(dy[dy.len() - 1]));
    assert(!ends_with_pbf(dy));
    assert(trim_pbf(dy) == dy);
    assert(trim_pbf(tail) == trim_pbf(tail.take(tail.len() - 4)));
    assert(is_digit(dz[0]));
    assert(is_digit(dx[0]));
    assert(is_digit(dy[0]));
}

} // verus!
