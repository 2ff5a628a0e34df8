//! Numbers as text, and the order of texts.

use vstd::prelude::*;
use crate::text::{decimal, digit, parts_at, text_before, texts};

verus! {

/// The number that a row of digits stands for.
pub open spec fn read_number(digits: Seq<char>) -> int
    decreases digits.len(),
{
    if digits.len() == 0 {
        0
    } else {
        10 * read_number(digits.drop_last()) + (digits.last() as int - '0' as int)
    }
}

/// A number that has been written reads back as itself. It is written in digits,
/// without needless zeros in front.
pub proof fn written_numbers_read_back(n: nat)
    ensures
        read_number(decimal(n)) == n,
        decimal(n).len() >= 1,
        forall|i: int| 0 <= i < decimal(n).len() ==> '0' <= #[trigger] decimal(n)[i] <= '9',
        decimal(n).len() > 1 ==> decimal(n)[0] != '0',
    decreases n,
{
    reveal_with_fuel(read_number, 2);
    let d = decimal(n);
    if n >= 10 {
        let before = decimal(n / 10);
        written_numbers_read_back(n / 10);
        assert(d.drop_last() =~= before);
        assert(d[0] == before[0]);
        assert(before[0] != '0') by {
            if before.len() == 1 {
                assert(before.drop_last() =~= Seq::empty());
                assert(read_number(before) == before[0] as int - '0' as int);
            }
        }
    } else {
        assert(d.drop_last() =~= Seq::empty());
        assert(d.last() == digit(n));
    }
}

/// Numbers that are written alike are the same.
pub proof fn different_numbers_are_written_differently(m: nat, n: nat)
    requires
        decimal(m) == decimal(n),
    ensures
        m == n,
{
    written_numbers_read_back(m);
    written_numbers_read_back(n);
}

/// Of two texts the one comes first that has the smaller character where they
/// first differ, or that ends there.
pub proof fn texts_are_ordered_by_their_first_difference(
    s: Seq<char>,
    c: char,
    t: Seq<char>,
    d: char,
    u: Seq<char>,
)
    requires
        c < d,
    ensures
        text_before(s + seq![c] + t, s + seq![d] + u),
        !text_before(s + seq![d] + u, s + seq![c] + t),
        text_before(s, s + seq![c] + t),
        !text_before(s + seq![c] + t, s),
        !text_before(s, s),
{
    let a = s + seq![c] + t;
    let b = s + seq![d] + u;
    let n = s.len() as int;
    assert(parts_at(a, b, n));
    assert(parts_at(s, a, n));
    assert forall|q: int| !parts_at(b, a, q) by {
        if parts_at(b, a, q) {
            if q < n {
                assert(a[q] == b[q]);
            } else {
                assert(a[n] == c && b[n] == d);
            }
        }
    }
    assert forall|q: int| !parts_at(a, s, q) by {
        if parts_at(a, s, q) {
            assert(a[q] == s[q]);
        }
    }
    assert forall|q: int| !parts_at(s, s, q) by {
    }
}

/// The characters of strings come string by string.
pub proof fn strings_give_their_characters(v: Seq<String>, i: int)
    requires
        0 <= i < v.len(),
    ensures
        texts(v).len() == v.len(),
        texts(v)[i] == v[i]@,
{
}

} // verus!
