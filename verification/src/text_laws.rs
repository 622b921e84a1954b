//! Laws of numbers and versions as text.

use vstd::prelude::*;

verus! {

/// The number that decimal digits say, the most significant first.
pub open spec fn number_said(s: Seq<char>) -> nat
    decreases s.len(),
{
    if s.len() == 0 {
        0
    } else {
        (10 * number_said(s.drop_last()) + (s.last() as u32 - '0' as u32)) as nat
    }
}

/// A number is rendered in decimal digits that say the number, without leading zeros.
pub proof fn law_decimal_says_the_number(n: nat)
    ensures
        ({
            let s = crate::text::decimal(n);
            &&& s.len() > 0
            &&& forall|i: int| 0 <= i < s.len() ==> '0' <= (#[trigger] s[i]) <= '9'
            &&& number_said(s) == n
            &&& n > 0 ==> s[0] != '0'
        }),
    decreases n,
{
    let s = crate::text::decimal(n);
    if n < 10 {
        assert(s.drop_last() =~= Seq::empty());
        assert(number_said(s.drop_last()) == 0);
    } else {
        law_decimal_says_the_number(n / 10);
        let front = crate::text::decimal(n / 10);
        assert(s.drop_last() =~= front);
        assert forall|i: int| 0 <= i < s.len() implies '0' <= (#[trigger] s[i]) <= '9' by {
            if i < front.len() {
                assert(s[i] == front[i]);
            }
        }
        assert(s[0] == front[0]);
    }
}

/// A negative number is rendered as its magnitude behind a minus sign, any other as it is.
pub proof fn law_signed_decimal_has_a_sign(n: int)
    ensures
        ({
            let s = crate::text::signed_decimal(n);
            &&& n < 0 ==> s[0] == '-' && number_said(s.skip(1)) == -n
            &&& n >= 0 ==> number_said(s) == n && s[0] != '-'
        }),
{
    reveal_strlit("-");
    if n < 0 {
        law_decimal_says_the_number((-n) as nat);
        assert(crate::text::signed_decimal(n).skip(1) =~= crate::text::decimal((-n) as nat));
    } else {
        law_decimal_says_the_number(n as nat);
        assert('0' <= crate::text::decimal(n as nat)[0]);
    }
}

/// A prefix is the beginning of a text, as long as asked for, or all of it.
pub proof fn law_prefix_is_the_beginning(s: Seq<char>, n: nat)
    ensures
        ({
            let p = crate::text::prefix(s, n);
            &&& p.len() == if s.len() < n {
                s.len()
            } else {
                n
            }
            &&& forall|i: int| 0 <= i < p.len() ==> #[trigger] p[i] == s[i]
        }),
{
}

proof fn lemma_same_number(s: Seq<char>)
    requires
        forall|i: int| 0 <= i < s.len() ==> '0' <= (#[trigger] s[i]) <= '9',
    ensures
        crate::version::digits_value(s) == number_said(s),
    decreases s.len(),
{
    if s.len() > 0 {
        let front = s.drop_last();
        assert forall|i: int| 0 <= i < front.len() implies '0' <= (#[trigger] front[i]) <= '9' by {
            assert(front[i] == s[i]);
        }
        lemma_same_number(front);
        assert('0' <= s[s.len() - 1]);
    }
}

/// Characters before the next dot belong to the part that is being read.
proof fn lemma_part_is_read(part: Seq<char>, ds: Seq<char>, rest: Seq<char>)
    requires
        forall|i: int| 0 <= i < ds.len() ==> (#[trigger] ds[i]) != '.',
    ensures
        crate::version::numbers_from(part, ds + rest) == crate::version::numbers_from(
            part + ds,
            rest,
        ),
    decreases ds.len(),
{
    if ds.len() == 0 {
        assert(ds + rest =~= rest);
        assert(part + ds =~= part);
    } else {
        let all = ds + rest;
        assert(all[0] == ds[0]);
        assert(all.skip(1) =~= ds.skip(1) + rest);
        assert forall|i: int| 0 <= i < ds.skip(1).len() implies (#[trigger] ds.skip(1)[i])
            != '.' by {
            assert(ds.skip(1)[i] == ds[i + 1]);
        }
        lemma_part_is_read(part.push(ds[0]), ds.skip(1), rest);
        assert(part.push(ds[0]) + ds.skip(1) =~= part + ds);
    }
}

proof fn lemma_number_is_read(x: u64)
    ensures
        crate::version::number(crate::text::decimal(x as nat)) == Some(x),
{
    let s = crate::text::decimal(x as nat);
    law_decimal_says_the_number(x as nat);
    assert('0' <= s[0] <= '9');
    lemma_same_number(s);
}

/// A version text of three numbers is read as those numbers.
proof fn lemma_version_is_read(x: u64, y: u64, z: u64)
    ensures
        crate::version::version_numbers(version_text(x, y, z)) == seq![x, y, z],
{
    reveal_strlit(".");
    let a = crate::text::decimal(x as nat);
    let b = crate::text::decimal(y as nat);
    let c = crate::text::decimal(z as nat);
    law_decimal_says_the_number(x as nat);
    law_decimal_says_the_number(y as nat);
    law_decimal_says_the_number(z as nat);
    lemma_number_is_read(x);
    lemma_number_is_read(y);
    lemma_number_is_read(z);
    let none = Seq::<char>::empty();
    let t = version_text(x, y, z);
    let r2 = "."@ + c;
    let r1 = "."@ + (b + r2);
    assert(t =~= a + r1);
    lemma_part_is_read(none, a, r1);
    assert(none + a =~= a);
    assert(r1.skip(1) =~= b + r2);
    lemma_part_is_read(none, b, r2);
    assert(none + b =~= b);
    assert(r2.skip(1) =~= c + none);
    lemma_part_is_read(none, c, none);
    assert(none + c =~= c);
    assert(crate::version::version_numbers(t) =~= seq![x, y, z]);
}

/// The text of a version of three numbers.
pub open spec fn version_text(x: u64, y: u64, z: u64) -> Seq<char> {
    crate::text::decimal(x as nat) + "."@ + crate::text::decimal(y as nat) + "."@
        + crate::text::decimal(z as nat)
}

/// Versions of three numbers are compared by their numbers, not as text: the first counts
/// most, then the second, then the third.
pub proof fn law_versions_compare_by_number(x: u64, y: u64, z: u64, u: u64, v: u64, w: u64)
    ensures
        crate::version::comes_before(
            crate::version::version_numbers(version_text(x, y, z)),
            crate::version::version_numbers(version_text(u, v, w)),
        ) == (x < u || (x == u && (y < v || (y == v && z < w)))),
{
    lemma_version_is_read(x, y, z);
    lemma_version_is_read(u, v, w);
}

/// Numbers that a version lacks count as zero, and numbers after the third do not count.
pub proof fn law_missing_version_numbers_are_zero(a: Seq<u64>, b: Seq<u64>)
    requires
        a.len() <= 3,
    ensures
        crate::version::comes_before(a.push(0), b) == crate::version::comes_before(a, b) || a.len()
            == 3,
        a.len() == 3 ==> forall|x: u64|
            crate::version::comes_before(#[trigger] a.push(x), b) == crate::version::comes_before(
                a,
                b,
            ),
        a.len() == 3 ==> forall|x: u64|
            crate::version::comes_before(b, #[trigger] a.push(x)) == crate::version::comes_before(
                b,
                a,
            ),
        a.len() < 3 ==> crate::version::comes_before(b, a.push(0)) == crate::version::comes_before(
            b,
            a,
        ),
{
}

/// A number of a version may have a plus sign; with a minus sign it is no number, and what
/// is no number does not count.
pub proof fn law_version_number_may_have_a_plus(x: u64)
    ensures
        crate::version::number(seq!['+'] + crate::text::decimal(x as nat)) == Some(x),
        crate::version::number(seq!['-'] + crate::text::decimal(x as nat)) is None,
        crate::version::number(seq!['+']) is None,
        crate::version::number(Seq::empty()) is None,
        crate::version::version_numbers(seq!['-'] + crate::text::decimal(x as nat)).len() == 0,
{
    let s = crate::text::decimal(x as nat);
    law_decimal_says_the_number(x as nat);
    lemma_number_is_read(x);
    assert((seq!['+'] + s).skip(1) =~= s);
    assert(s[0] != '+');
    let m = seq!['-'] + s;
    assert(m[0] == '-');
    assert(!crate::version::is_digit(m[0]));
    assert forall|i: int| 0 <= i < m.len() implies (#[trigger] m[i]) != '.' by {
        if i > 0 {
            assert(m[i] == s[i - 1]);
        }
    }
    let none = Seq::<char>::empty();
    assert(m + none =~= m);
    assert(none + m =~= m);
    lemma_part_is_read(none, m, none);
    assert(seq!['+'].skip(1) =~= none);
}

} // verus!
