//! Comparison of version texts.

use vstd::prelude::*;

verus! {

/// Whether a character is a decimal digit.
pub open spec fn is_digit(c: char) -> bool {
    '0' <= c <= '9'
}

/// The number that decimal digits stand for.
pub open spec fn digits_value(s: Seq<char>) -> nat
    decreases s.len(),
{
    if s.len() == 0 {
        0
    } else {
        digits_value(s.drop_last()) * 10 + (s.last() as u32 - '0' as u32) as nat
    }
}

/// The part of a number text after an optional plus sign.
pub open spec fn unsigned_part(s: Seq<char>) -> Seq<char> {
    if s.len() > 0 && s[0] == '+' {
        s.skip(1)
    } else {
        s
    }
}

/// The 64-bit number that a text stands for, if it is one.
pub open spec fn number(s: Seq<char>) -> Option<u64> {
    let d = unsigned_part(s);
    if d.len() > 0 && (forall|i: int| 0 <= i < d.len() ==> is_digit(#[trigger] d[i])) && digits_value(
        d,
    ) <= u64::MAX {
        Some(digits_value(d) as u64)
    } else {
        None
    }
}

/// The numbers among the dot-separated parts of `s`, where `part` was read since the
/// last dot.
pub open spec fn numbers_from(part: Seq<char>, s: Seq<char>) -> Seq<u64>
    decreases s.len(),
{
    if s.len() == 0 {
        numbers_of(part)
    } else if s[0] == '.' {
        numbers_of(part) + numbers_from(Seq::empty(), s.skip(1))
    } else {
        numbers_from(part.push(s[0]), s.skip(1))
    }
}

/// The number of a part, if it is one.
pub open spec fn numbers_of(part: Seq<char>) -> Seq<u64> {
    match number(part) {
        Some(n) => seq![n],
        None => Seq::empty(),
    }
}

/// The numbers among the dot-separated parts of a version text.
pub open spec fn version_numbers(s: Seq<char>) -> Seq<u64> {
    numbers_from(Seq::empty(), s)
}

/// The number at a place of a version, 0 where there is none.
pub open spec fn place(s: Seq<u64>, i: int) -> u64 {
    if i < s.len() {
        s[i]
    } else {
        0
    }
}

/// Whether version `a` comes before version `b`: the first three numbers decide, the
/// first of them first.
pub open spec fn comes_before(a: Seq<u64>, b: Seq<u64>) -> bool {
    if place(a, 0) != place(b, 0) {
        place(a, 0) < place(b, 0)
    } else if place(a, 1) != place(b, 1) {
        place(a, 1) < place(b, 1)
    } else {
        place(a, 2) < place(b, 2)
    }
}

proof fn lemma_value_grows(s: Seq<char>, n: int)
    requires
        0 <= n <= s.len(),
        forall|i: int| 0 <= i < s.len() ==> is_digit(#[trigger] s[i]),
    ensures
        digits_value(s.take(n)) <= digits_value(s),
    decreases s.len() - n,
{
    if n < s.len() {
        lemma_value_grows(s, n + 1);
        assert(s.take(n + 1).drop_last() =~= s.take(n));
        assert(is_digit(s[n]));
    } else {
        assert(s.take(n) =~= s);
    }
}

/// The number that characters `from..to` of a text stand for, if they are one.
fn parse_number(s: &str, from: usize, to: usize) -> (r: Option<u64>)
    requires
        from <= to <= s@.len(),
    ensures
        r == number(s@.subrange(from as int, to as int)),
{
    let ghost part = s@.subrange(from as int, to as int);
    let start: usize = if from < to && s.get_char(from) == '+' {
        from + 1
    } else {
        from
    };
    let ghost d = unsigned_part(part);
    assert(d =~= s@.subrange(start as int, to as int));
    if start == to {
        return None;
    }
    let mut value: u64 = 0;
    let mut i: usize = start;
    assert(d.take(0) =~= Seq::empty());
    while i < to
        invariant
            start <= i <= to <= s@.len(),
            start < to,
            part == s@.subrange(from as int, to as int),
            d == unsigned_part(part),
            d == s@.subrange(start as int, to as int),
            forall|j: int| 0 <= j < i - start ==> is_digit(#[trigger] d[j]),
            value == digits_value(d.take(i - start)),
        decreases to - i,
    {
        let c: char = s.get_char(i);
        assert(c == d[i - start]);
        if !('0' <= c && c <= '9') {
            assert(!is_digit(d[i - start]));
            return None;
        }
        let digit: u64 = c as u64 - '0' as u64;
        assert(d.take(i - start + 1).drop_last() =~= d.take(i - start));
        let wide: u128 = value as u128 * 10 + digit as u128;
        assert(wide == digits_value(d.take(i - start + 1)));
        if wide > u64::MAX as u128 {
            proof {
                if forall|j: int| 0 <= j < d.len() ==> is_digit(#[trigger] d[j]) {
                    lemma_value_grows(d, i - start + 1);
                }
            }
            return None;
        }
        value = wide as u64;
        i += 1;
    }
    assert(d.take(i - start) =~= d);
    Some(value)
}

/// The numbers among the dot-separated parts of a version text.
fn parse_version(s: &str) -> (r: Vec<u64>)
    ensures
        r@ == version_numbers(s@),
{
    let len: usize = s.unicode_len();
    let mut out: Vec<u64> = Vec::new();
    let mut start: usize = 0;
    let mut i: usize = 0;
    let ghost goal = version_numbers(s@);
    proof {
        assert(s@.subrange(0, 0) =~= Seq::empty());
        assert(s@.skip(0) =~= s@);
        assert(out@ + numbers_from(s@.subrange(0, 0), s@.skip(0)) =~= goal);
    }
    while i < len
        invariant
            len == s@.len(),
            start <= i <= len,
            goal == version_numbers(s@),
            out@ + numbers_from(
                s@.subrange(start as int, i as int),
                s@.skip(i as int),
            ) == goal,
        decreases len - i,
    {
        let c: char = s.get_char(i);
        let ghost part = s@.subrange(start as int, i as int);
        let ghost rest = s@.skip(i as int);
        assert(rest[0] == c);
        assert(rest.skip(1) =~= s@.skip(i + 1));
        if c == '.' {
            let ghost before = out@;
            if let Some(n) = parse_number(s, start, i) {
                out.push(n);
            }
            assert(out@ =~= before + numbers_of(part));
            start = i + 1;
            proof {
                assert(s@.subrange(start as int, i + 1) =~= Seq::empty());
                let tail = numbers_from(Seq::empty(), rest.skip(1));
                assert(before + (numbers_of(part) + tail) =~= out@ + tail);
            }
        } else {
            assert(part.push(c) =~= s@.subrange(start as int, i + 1));
        }
        i += 1;
    }
    let ghost before = out@;
    let ghost part = s@.subrange(start as int, i as int);
    if let Some(n) = parse_number(s, start, i) {
        out.push(n);
    }
    assert(out@ =~= before + numbers_of(part));
    assert(s@.skip(i as int).len() == 0);
    out
}

fn number_at(numbers: &Vec<u64>, i: usize) -> (r: u64)
    ensures
        r == place(numbers@, i as int),
{
    if i < numbers.len() {
        numbers[i]
    } else {
        0
    }
}

/// Whether version text `a` is older than `b`. Parts that are not numbers are
/// skipped, and missing numbers count as 0.
pub fn semver_less_than(a: &str, b: &str) -> (r: bool)
    ensures
        r == comes_before(version_numbers(a@), version_numbers(b@)),
{
    let x = parse_version(a);
    let y = parse_version(b);
    if number_at(&x, 0) != number_at(&y, 0) {
        number_at(&x, 0) < number_at(&y, 0)
    } else if number_at(&x, 1) != number_at(&y, 1) {
        number_at(&x, 1) < number_at(&y, 1)
    } else {
        number_at(&x, 2) < number_at(&y, 2)
    }
}

/// No version is older than itself, and of two versions at most one is older.
pub proof fn law_version_order_is_strict(a: Seq<u64>, b: Seq<u64>)
    ensures
        !comes_before(a, a),
        !(comes_before(a, b) && comes_before(b, a)),
{
}

/// A version older than an older one is older.
pub proof fn law_version_order_is_transitive(a: Seq<u64>, b: Seq<u64>, c: Seq<u64>)
    requires
        comes_before(a, b),
        comes_before(b, c),
    ensures
        comes_before(a, c),
{
}

} // verus!
