//! Chords cut out of a de Bruijn sequence.

use compact_str::CompactString;
use vstd::prelude::*;
use crate::chords::cycle::{is_de_bruijn, lemma_blocks_form_de_bruijn};
use crate::chords::necklaces::{all_blocks, blocks, joined, later_blocks, next_repeated};
use crate::compact::{collected, letters};
use crate::text::chars_of;

verus! {

/// The letters of `a` after its first one, as numbers, up to `t`.
spec fn prefix(a: Seq<u8>, t: int) -> Seq<int> {
    Seq::new((t - 1) as nat, |x: int| a[x + 1] as int)
}

/// Bytes as numbers.
spec fn numbers(s: Seq<u8>) -> Seq<int> {
    s.map_values(|b: u8| b as int)
}

proof fn lemma_joined_sum(a: Seq<(Seq<int>, int)>, b: Seq<(Seq<int>, int)>)
    ensures
        joined(a + b) == joined(a) + joined(b),
    decreases b.len(),
{
    if b.len() == 0 {
        assert(a + b =~= a);
        assert(joined(a) + joined(b) =~= joined(a));
    } else {
        assert((a + b).drop_last() =~= a + b.drop_last());
        assert((a + b).last() == b.last());
        lemma_joined_sum(a, b.drop_last());
        assert(joined(a + b) =~= joined(a) + joined(b));
    }
}

/// Appends to `seq` the blocks below the prefix in `a[1..t]`, whose shortest
/// repeated block has `p` letters.
fn db(seq: &mut Vec<u8>, a: &mut Vec<u8>, k: usize, n: usize, t: usize, p: usize)
    requires
        1 <= t <= n + 1,
        1 <= p <= n,
        p < t || (p == 1 && t == 1),
        n < old(a)@.len() <= usize::MAX,
        old(a)@[0] == 0,
    ensures
        final(a)@.len() == old(a)@.len(),
        final(a)@.take(t as int) == old(a)@.take(t as int),
        numbers(final(seq)@) == numbers(old(seq)@) + joined(
            blocks(k as int, n as nat, prefix(old(a)@, t as int), p as int),
        ),
    decreases n + 1 - t,
{
    let ghost w = prefix(a@, t as int);
    let ghost seq0 = seq@;
    let ghost a0 = a@;
    let ghost bs = blocks(k as int, n as nat, w, p as int);
    if t > n {
        if n % p == 0 {
            let mut x: usize = 1;
            while x <= p
                invariant
                    1 <= x <= p + 1,
                    p <= n,
                    n < a@.len() <= usize::MAX,
                    a@ == a0,
                    numbers(seq@) == numbers(seq0) + prefix(a0, x as int),
                decreases p + 1 - x,
            {
                let ghost before = seq@;
                let c: u8 = a[x];
                seq.push(c);
                assert(numbers(seq@) =~= numbers(before).push(c as int));
                assert(prefix(a0, x + 1) =~= prefix(a0, x as int).push(c as int));
                x = x + 1;
                assert(numbers(seq@) =~= numbers(seq0) + prefix(a0, x as int));
            }
            proof {
                reveal_with_fuel(joined, 2);
                assert(bs.drop_last() =~= Seq::empty());
                assert(joined(bs) =~= w.take(p as int));
                assert(prefix(a0, p + 1) =~= w.take(p as int));
            }
        } else {
            assert(numbers(seq@) =~= numbers(seq0) + joined(bs));
        }
    } else {
        let b: u8 = a[t - p];
        assert(b as int == next_repeated(w, p as int));
        a.set(t, b);
        assert(prefix(a@, t + 1) =~= w.push(b as int));
        let ghost first = blocks(k as int, n as nat, w.push(b as int), p as int);
        let ghost rest = later_blocks(k as int, n as nat, w, b as int + 1);
        proof {
            lemma_joined_sum(first, rest);
        }
        db(seq, a, k, n, t + 1, p);
        assert(a@.take(t + 1).take(t as int) =~= a@.take(t as int));
        assert(a0.update(t as int, b).take(t + 1).take(t as int) =~= a0.take(t as int));
        let mut j: usize = b as usize + 1;
        assert(numbers(seq@) + joined(rest) =~= numbers(seq0) + joined(bs));
        while j < k
            invariant
                1 <= t <= n,
                n < a@.len() <= usize::MAX,
                a@.len() == a0.len(),
                a0[0] == 0,
                a@.take(t as int) == a0.take(t as int),
                w == prefix(a0, t as int),
                numbers(seq@) + joined(later_blocks(k as int, n as nat, w, j as int)) == numbers(
                    seq0,
                ) + joined(bs),
            decreases k - j,
        {
            let c: u8 = #[verifier::truncate] (j as u8);
            assert(c == j % 256) by (bit_vector)
                requires
                    c == j as u8,
            ;
            let ghost a1 = a@;
            let ghost seq1 = seq@;
            a.set(t, c);
            assert forall|x: int| 0 <= x < t implies a@[x] == a0[x] by {
                assert(a1.take(t as int)[x] == a0.take(t as int)[x]);
            }
            assert(a@.take(t as int) =~= a0.take(t as int));
            assert(prefix(a@, t + 1) =~= w.push(c as int));
            let ghost here = blocks(k as int, n as nat, w.push(c as int), t as int);
            let ghost later = later_blocks(k as int, n as nat, w, j + 1);
            proof {
                lemma_joined_sum(here, later);
            }
            let ghost a2 = a@;
            db(seq, a, k, n, t + 1, t);
            assert(a@.take(t + 1).take(t as int) =~= a@.take(t as int));
            assert(a2.take(t + 1).take(t as int) =~= a2.take(t as int));
            assert(numbers(seq@) + joined(later) =~= numbers(seq1) + joined(here + later));
            j = j + 1;
        }
        assert(joined(later_blocks(k as int, n as nat, w, j as int)) =~= Seq::empty());
        assert(numbers(seq@) =~= numbers(seq0) + joined(bs));
    }
}

/// `s` without the characters that repeat the one before them.
pub open spec fn without_repeats(s: Seq<char>) -> Seq<char>
    decreases s.len(),
{
    if s.len() < 2 {
        s
    } else if s[s.len() - 2] == s.last() {
        without_repeats(s.drop_last())
    } else {
        without_repeats(s.drop_last()).push(s.last())
    }
}

/// The numbers in `s`, each as the letter that it stands for.
pub open spec fn spelled(alphabet: Seq<char>, s: Seq<int>) -> Seq<char> {
    Seq::new(s.len(), |i: int| alphabet[s[i]])
}

/// The sequence of letter numbers for chords of `n` out of `k` letters.
pub open spec fn cycle_numbers(k: int, n: nat) -> Seq<int> {
    joined(all_blocks(k, n))
}

/// The `length` letters that start at `i`, in `s` read backwards, twice over;
/// fewer where it ends.
pub open spec fn chord(s: Seq<char>, length: nat, i: nat) -> Seq<char> {
    let twice = s.reverse() + s.reverse();
    let from = if i <= twice.len() {
        i as int
    } else {
        twice.len() as int
    };
    let to = if from + length <= twice.len() {
        from + length
    } else {
        twice.len() as int
    };
    twice.subrange(from, to)
}

/// The letters given hold fewer than two keys.
#[derive(Debug, Clone, Copy, PartialEq, Eq, Structural)]
pub struct TooFewKeys;

impl TooFewKeys {
    /// What the user is told.
    pub fn message(&self) -> (r: &'static str)
        ensures
            r@ == "at least two keys are required for keychords"@,
    {
        "at least two keys are required for keychords"
    }
}

/// A source of chords over an alphabet of at least two letters.
pub struct DeBruijner {
    alphabet: Vec<char>,
}

impl View for DeBruijner {
    type V = Seq<char>;

    closed spec fn view(&self) -> Seq<char> {
        self.alphabet@
    }
}

impl Default for DeBruijner {
    fn default() -> (r: Self)
        ensures
            r@ == seq!['a', 's', 'd', 'f'],
    {
        let alphabet: Vec<char> = vec!['a', 's', 'd', 'f'];
        assert(alphabet@ =~= seq!['a', 's', 'd', 'f']);
        DeBruijner { alphabet }
    }
}

impl DeBruijner {
    #[verifier::type_invariant]
    spec fn has_two_letters(self) -> bool {
        self.alphabet@.len() > 1
    }

    /// The letters in their order, each run of one letter taken once.
    pub fn new(letters: String) -> (r: Result<Self, TooFewKeys>)
        ensures
            r is Ok <==> without_repeats(letters@).len() > 1,
            r is Ok ==> r->Ok_0@ == without_repeats(letters@),
    {
        let chars: Vec<char> = chars_of(letters.as_str());
        let mut alphabet: Vec<char> = Vec::new();
        let mut i: usize = 0;
        while i < chars.len()
            invariant
                i <= chars@.len(),
                chars@ == letters@,
                alphabet@ == without_repeats(chars@.take(i as int)),
                i > 0 ==> alphabet@.len() > 0 && alphabet@.last() == chars@[i - 1],
                i == 0 ==> alphabet@.len() == 0,
            decreases chars@.len() - i,
        {
            let ghost next = chars@.take(i + 1);
            assert(next.drop_last() =~= chars@.take(i as int));
            let c: char = chars[i];
            if alphabet.len() == 0 {
                assert(next =~= seq![c]);
                alphabet.push(c);
                assert(alphabet@ =~= seq![c]);
            } else if alphabet[alphabet.len() - 1] != c {
                alphabet.push(c);
            }
            i = i + 1;
        }
        assert(chars@.take(i as int) =~= chars@);
        if alphabet.len() > 1 {
            Ok(DeBruijner { alphabet })
        } else {
            Err(TooFewKeys)
        }
    }

    /// A cycle of letters that holds each word of `n` letters exactly once, for
    /// alphabets of up to 256 letters.
    pub fn debruijn(&self, n: usize) -> (r: Vec<char>)
        requires
            n >= 1,
            self@.len() * n <= usize::MAX,
        ensures
            r@ == spelled(self@, cycle_numbers(self@.len() as int, n as nat)),
            self@.len() <= 256 ==> is_de_bruijn(
                cycle_numbers(self@.len() as int, n as nat),
                self@.len() as int,
                n as nat,
            ),
    {
        proof {
            use_type_invariant(self);
        }
        let k: usize = self.alphabet.len();
        assert(n < k * n) by (nonlinear_arith)
            requires
                k > 1,
                n >= 1,
        ;
        let mut a: Vec<u8> = vec![0u8; k * n];
        let mut seq: Vec<u8> = Vec::new();
        assert(prefix(a@, 1) =~= Seq::empty());
        db(&mut seq, &mut a, k, n, 1, 1);
        let ghost cycle = cycle_numbers(k as int, n as nat);
        assert(numbers(seq@) =~= cycle);
        proof {
            if k <= 256 {
                lemma_blocks_form_de_bruijn(k as int, n as nat);
            }
        }
        let mut r: Vec<char> = Vec::new();
        let mut i: usize = 0;
        while i < seq.len()
            invariant
                i <= seq@.len(),
                numbers(seq@) == cycle,
                k == self.alphabet@.len(),
                k <= 256 ==> is_de_bruijn(cycle, k as int, n as nat),
                r@ == spelled(self@, cycle.take(i as int)),
            decreases seq@.len() - i,
        {
            let x: u8 = seq[i];
            assert(numbers(seq@)[i as int] == x as int);
            assert(x < k) by {
                if k <= 256 {
                    assert(0 <= cycle[i as int] < k);
                }
            }
            r.push(self.alphabet[x as usize]);
            i = i + 1;
            assert(r@ =~= spelled(self@, cycle.take(i as int)));
        }
        assert(cycle.take(i as int) =~= cycle);
        r
    }

    /// `n` chords, cut out of the cycle for words of `length` letters.
    pub fn generate_n(&self, n: usize, length: usize) -> (r: Vec<CompactString>)
        requires
            n > 0 ==> length >= 1 && self@.len() * length <= usize::MAX,
        ensures
            r@.len() == n,
            forall|i: int|
                0 <= i < n ==> letters(#[trigger] r@[i]) == chord(
                    spelled(self@, cycle_numbers(self@.len() as int, length as nat)),
                    length as nat,
                    i as nat,
                ),
    {
        let mut r: Vec<CompactString> = Vec::new();
        if n == 0 {
            return r;
        }
        let s: Vec<char> = self.debruijn(length);
        let mut i: usize = 0;
        while i < n
            invariant
                i <= n,
                r@.len() == i,
                forall|j: int|
                    0 <= j < i ==> letters(#[trigger] r@[j]) == chord(
                        s@,
                        length as nat,
                        j as nat,
                    ),
            decreases n - i,
        {
            r.push(cut(&s, length, i));
            i = i + 1;
        }
        r
    }
}

/// One chord of `s`.
fn cut(s: &Vec<char>, length: usize, i: usize) -> (r: CompactString)
    ensures
        letters(r) == chord(s@, length as nat, i as nat),
{
    let m: u128 = s.len() as u128;
    let mut taken: Vec<char> = Vec::new();
    let mut y: u128 = i as u128;
    let ghost twice = s@.reverse() + s@.reverse();
    while taken.len() < length && y < 2 * m
        invariant
            m == s@.len(),
            m <= usize::MAX,
            i <= usize::MAX,
            length <= usize::MAX,
            taken@.len() <= length,
            y == i + taken@.len(),
            twice == s@.reverse() + s@.reverse(),
            y <= twice.len() ==> taken@ == twice.subrange(i as int, y as int),
            y > twice.len() ==> taken@.len() == 0,
        decreases length - taken@.len(),
    {
        let at: u128 = if y < m {
            m - 1 - y
        } else {
            2 * m - 1 - y
        };
        taken.push(s[at as usize]);
        y = y + 1;
        assert(taken@ =~= twice.subrange(i as int, y as int));
    }
    assert(taken@ =~= chord(s@, length as nat, i as nat));
    collected(&taken)
}

} // verus!
