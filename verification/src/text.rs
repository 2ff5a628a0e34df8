//! Text as sequences of characters: order, prefixes and decimal numbers.

use vstd::prelude::*;
use vstd::string::{StrSliceExecFns, StringExecFns};

verus! {

/// `a` comes before `b`, character by character; a proper prefix comes first.
pub open spec fn text_before(a: Seq<char>, b: Seq<char>) -> bool {
    exists|q: int| parts_at(a, b, q)
}

/// `a` and `b` agree before `q`, and there `a` ends or has the smaller character.
pub open spec fn parts_at(a: Seq<char>, b: Seq<char>, q: int) -> bool {
    &&& 0 <= q <= a.len()
    &&& q < b.len()
    &&& forall|x: int| 0 <= x < q ==> a[x] == b[x]
    &&& q < a.len() ==> a[q] < b[q]
}

pub proof fn lemma_text_before_asymmetric(a: Seq<char>, b: Seq<char>)
    requires
        text_before(a, b),
    ensures
        !text_before(b, a),
        a != b,
{
    let q = choose|q: int| parts_at(a, b, q);
    assert forall|r: int| !parts_at(b, a, r) by {
        if parts_at(b, a, r) {
            if r < q {
                assert(a[r] == b[r]);
            } else if q < r {
                assert(b[q] == a[q]);
            }
        }
    }
}

pub proof fn lemma_text_before_transitive(a: Seq<char>, b: Seq<char>, c: Seq<char>)
    requires
        text_before(a, b),
        text_before(b, c),
    ensures
        text_before(a, c),
{
    let q = choose|q: int| parts_at(a, b, q);
    let r = choose|r: int| parts_at(b, c, r);
    let t = if q < r {
        q
    } else {
        r
    };
    assert(parts_at(a, c, t));
}

/// The digits of `n` in base ten, without leading zeros.
pub open spec fn decimal(n: nat) -> Seq<char>
    decreases n,
{
    if n < 10 {
        seq![digit(n)]
    } else {
        decimal(n / 10).push(digit(n % 10))
    }
}

/// The character of a digit.
pub open spec fn digit(d: nat) -> char {
    ('0' as nat + d) as char
}

/// The characters of each string.
pub open spec fn texts(v: Seq<String>) -> Seq<Seq<char>> {
    v.map_values(|s: String| s@)
}

/// The characters of a string slice.
pub fn chars_of(text: &str) -> (r: Vec<char>)
    ensures
        r@ == text@,
{
    let mut r: Vec<char> = Vec::new();
    for c in it: text.chars()
        invariant
            r@ == it.seq().take(it.index()),
            it.seq() == text@,
    {
        r.push(c);
    }
    r
}

pub proof fn lemma_text_before_total(a: Seq<char>, b: Seq<char>, m: int)
    requires
        !text_before(a, b),
        !text_before(b, a),
        0 <= m <= a.len(),
        m <= b.len(),
    ensures
        a.take(m) == b.take(m),
        a.len() <= m || b.len() <= m ==> a == b,
    decreases m,
{
    if m > 0 {
        lemma_text_before_total(a, b, m - 1);
        assert forall|x: int| 0 <= x < m - 1 implies a[x] == b[x] by {
            assert(a.take(m - 1)[x] == b.take(m - 1)[x]);
        }
        if a[m - 1] < b[m - 1] {
            assert(parts_at(a, b, m - 1));
        } else if b[m - 1] < a[m - 1] {
            assert(parts_at(b, a, m - 1));
        }
    }
    assert(a.take(m) =~= b.take(m));
    if a.len() <= m || b.len() <= m {
        assert forall|x: int| 0 <= x < m implies a[x] == b[x] by {
            assert(a.take(m)[x] == b.take(m)[x]);
        }
        if a.len() < b.len() {
            assert(parts_at(a, b, m));
        } else if b.len() < a.len() {
            assert(parts_at(b, a, m));
        }
        assert(a =~= b);
    }
}

/// Whether `a` comes before `b`.
pub fn comes_before(a: &str, b: &str) -> (r: bool)
    ensures
        r == text_before(a@, b@),
{
    let x: Vec<char> = chars_of(a);
    let y: Vec<char> = chars_of(b);
    let mut i: usize = 0;
    while i < x.len() && i < y.len() && x[i] == y[i]
        invariant
            i <= x@.len(),
            i <= y@.len(),
            x@ == a@,
            y@ == b@,
            forall|j: int| 0 <= j < i ==> x@[j] == y@[j],
        decreases x@.len() - i,
    {
        i = i + 1;
    }
    if i >= y.len() {
        assert forall|q: int| !parts_at(a@, b@, q) by {
            if parts_at(a@, b@, q) {
                assert(x@[q] == y@[q]);
            }
        }
        false
    } else if i >= x.len() {
        assert(parts_at(a@, b@, i as int));
        true
    } else if x[i] < y[i] {
        assert(parts_at(a@, b@, i as int));
        true
    } else {
        assert(parts_at(b@, a@, i as int));
        proof {
            lemma_text_before_asymmetric(b@, a@);
        }
        false
    }
}

/// Whether `text` starts with `prefix`.
pub fn starts_with(text: &str, prefix: &str) -> (r: bool)
    ensures
        r == prefix@.is_prefix_of(text@),
{
    let x: Vec<char> = chars_of(text);
    let y: Vec<char> = chars_of(prefix);
    if y.len() > x.len() {
        return false;
    }
    let mut i: usize = 0;
    while i < y.len()
        invariant
            i <= y@.len() <= x@.len(),
            x@ == text@,
            y@ == prefix@,
            forall|j: int| 0 <= j < i ==> x@[j] == y@[j],
        decreases y@.len() - i,
    {
        if x[i] != y[i] {
            assert(text@.subrange(0, prefix@.len() as int)[i as int] != prefix@[i as int]);
            return false;
        }
        i = i + 1;
    }
    true
}

/// What follows `prefix` in `text`, if `text` starts with it.
pub fn strip_prefix(text: &str, prefix: &str) -> (r: Option<String>)
    ensures
        r is Some <==> prefix@.is_prefix_of(text@),
        r is Some ==> r->0@ == text@.skip(prefix@.len() as int),
{
    if starts_with(text, prefix) {
        let from: usize = prefix.unicode_len();
        let to: usize = text.unicode_len();
        let rest: &str = text.substring_char(from, to);
        assert(rest@ =~= text@.skip(prefix@.len() as int));
        Some(rest.to_owned())
    } else {
        None
    }
}

/// The text of a digit.
fn digit_text(d: u64) -> (r: &'static str)
    requires
        d < 10,
    ensures
        r@ == seq![digit(d as nat)],
{
    let r: &'static str = match d {
        0u64 => {
            proof {
                reveal_strlit("0");
            }
            "0"
        },
        1u64 => {
            proof {
                reveal_strlit("1");
            }
            "1"
        },
        2u64 => {
            proof {
                reveal_strlit("2");
            }
            "2"
        },
        3u64 => {
            proof {
                reveal_strlit("3");
            }
            "3"
        },
        4u64 => {
            proof {
                reveal_strlit("4");
            }
            "4"
        },
        5u64 => {
            proof {
                reveal_strlit("5");
            }
            "5"
        },
        6u64 => {
            proof {
                reveal_strlit("6");
            }
            "6"
        },
        7u64 => {
            proof {
                reveal_strlit("7");
            }
            "7"
        },
        8u64 => {
            proof {
                reveal_strlit("8");
            }
            "8"
        },
        _ => {
            proof {
                reveal_strlit("9");
            }
            "9"
        },
    };
    assert(r@ =~= seq![digit(d as nat)]);
    r
}

/// Appends the decimal digits of `n`.
pub fn push_decimal(out: &mut String, n: u64)
    ensures
        final(out)@ == old(out)@ + decimal(n as nat),
    decreases n,
{
    if n >= 10 {
        push_decimal(out, n / 10);
    }
    out.append(digit_text(n % 10));
    assert(out@ =~= old(out)@ + decimal(n as nat));
}

} // verus!
