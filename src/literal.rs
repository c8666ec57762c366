use vstd::prelude::*;

verus! {

pub open spec fn is_digit(c: char) -> bool {
    '0' <= c && c <= '9'
}

pub open spec fn is_sign(c: char) -> bool {
    c == '+' || c == '-'
}

pub open spec fn all_digits(s: Seq<char>) -> bool {
    forall|i: int| 0 <= i < s.len() ==> is_digit(#[trigger] s[i])
}

/// `s` spells the lower-case word `w`, letters in either case.
pub open spec fn spells(s: Seq<char>, w: Seq<char>) -> bool {
    &&& s.len() == w.len()
    &&& forall|i: int|
        0 <= i < s.len() ==> #[trigger] s[i] == w[i] || s[i] as u32 + 32 == w[i] as u32
}

pub open spec fn is_special(s: Seq<char>) -> bool {
    spells(s, seq!['i', 'n', 'f']) || spells(s, seq!['i', 'n', 'f', 'i', 'n', 'i', 't', 'y'])
        || spells(s, seq!['n', 'a', 'n'])
}

/// Digits with at most one decimal point, and at least one digit.
pub open spec fn is_mantissa(m: Seq<char>) -> bool {
    (m.len() > 0 && all_digits(m)) || (m.len() > 1 && exists|p: int|
        0 <= p < m.len() && m[p] == '.' && all_digits(m.take(p)) && all_digits(m.skip(p + 1)))
}

/// `e` or `E`, an optional sign, then at least one digit.
pub open spec fn is_exponent(x: Seq<char>) -> bool {
    &&& x.len() > 1
    &&& x[0] == 'e' || x[0] == 'E'
    &&& if is_sign(x[1]) {
        x.len() > 2 && all_digits(x.skip(2))
    } else {
        all_digits(x.skip(1))
    }
}

pub open spec fn is_number(s: Seq<char>) -> bool {
    is_mantissa(s) || exists|k: int|
        0 <= k < s.len() && is_mantissa(s.take(k)) && is_exponent(s.skip(k))
}

/// The text of a floating-point literal: an optional sign, then `inf`,
/// `infinity` or `nan` in any case, or decimal digits with an optional point
/// and an optional exponent.
pub open spec fn is_float_literal(s: Seq<char>) -> bool {
    is_special(s) || is_number(s) || (s.len() > 0 && is_sign(s[0]) && (is_special(s.skip(1))
        || is_number(s.skip(1))))
}

proof fn lemma_mantissa_chars(m: Seq<char>)
    requires
        is_mantissa(m),
    ensures
        forall|i: int| 0 <= i < m.len() ==> is_digit(#[trigger] m[i]) || m[i] == '.',
{
    if !(m.len() > 0 && all_digits(m)) {
        let p = choose|p: int|
            0 <= p < m.len() && m[p] == '.' && all_digits(m.take(p)) && all_digits(
                m.skip(p + 1),
            );
        assert forall|i: int| 0 <= i < m.len() implies is_digit(#[trigger] m[i]) || m[i]
            == '.' by {
            if i < p {
                assert(m.take(p)[i] == m[i]);
            } else if i > p {
                assert(m.skip(p + 1)[i - p - 1] == m[i]);
            }
        }
    }
}

fn digits_in(s: &str, a: usize, b: usize) -> (r: bool)
    requires
        a <= b <= s@.len(),
    ensures
        r == all_digits(s@.subrange(a as int, b as int)),
{
    let mut j: usize = a;
    while j < b
        invariant
            a <= j <= b <= s@.len(),
            forall|k: int| a <= k < j ==> is_digit(#[trigger] s@[k]),
        decreases b - j,
    {
        let c = s.get_char(j);
        if !('0' <= c && c <= '9') {
            assert(s@.subrange(a as int, b as int)[j - a] == c);
            return false;
        }
        j = j + 1;
    }
    assert forall|i: int| 0 <= i < b - a implies is_digit(
        #[trigger] s@.subrange(a as int, b as int)[i],
    ) by {
        assert(s@.subrange(a as int, b as int)[i] == s@[a + i]);
    }
    true
}

/// The first position in `a..b` that holds `x` or `y`, or `b`.
fn find_either(s: &str, a: usize, b: usize, x: char, y: char) -> (k: usize)
    requires
        a <= b <= s@.len(),
    ensures
        a <= k <= b,
        forall|j: int| a <= j < k ==> #[trigger] s@[j] != x && s@[j] != y,
        k < b ==> s@[k as int] == x || s@[k as int] == y,
{
    let mut j: usize = a;
    while j < b
        invariant
            a <= j <= b <= s@.len(),
            forall|i: int| a <= i < j ==> #[trigger] s@[i] != x && s@[i] != y,
        decreases b - j,
    {
        let c = s.get_char(j);
        if c == x || c == y {
            return j;
        }
        j = j + 1;
    }
    b
}


fn mantissa_in(s: &str, a: usize, b: usize) -> (r: bool)
    requires
        a <= b <= s@.len(),
    ensures
        r == is_mantissa(s@.subrange(a as int, b as int)),
{
    let ghost m = s@.subrange(a as int, b as int);
    let p = find_either(s, a, b, '.', '.');
    if p == b {
        let r = b > a && digits_in(s, a, b);
        proof {
            if r != is_mantissa(m) {
                let ghost q = choose|q: int|
                    0 <= q < m.len() && m[q] == '.' && all_digits(m.take(q)) && all_digits(
                        m.skip(q + 1),
                    );
                assert(m[q] == s@[a + q]);
            }
        }
        r
    } else {
        let ghost d = (p - a) as int;
        assert(m[d] == '.');
        assert(!is_digit(m[d]));
        assert(m.take(d) =~= s@.subrange(a as int, p as int));
        assert(m.skip(d + 1) =~= s@.subrange(p + 1, b as int));
        let r = b - a > 1 && digits_in(s, a, p) && digits_in(s, p + 1, b);
        proof {
            if is_mantissa(m) && !r {
                let ghost q = choose|q: int|
                    0 <= q < m.len() && m[q] == '.' && all_digits(m.take(q)) && all_digits(
                        m.skip(q + 1),
                    );
                if q < d {
                    assert(m[q] == s@[a + q]);
                } else if q > d {
                    assert(m.take(q)[d] == m[d]);
                }
            }
        }
        r
    }
}

/// Requires the first character to be the exponent's letter.
fn exponent_in(s: &str, a: usize, b: usize) -> (r: bool)
    requires
        a < b <= s@.len(),
        s@[a as int] == 'e' || s@[a as int] == 'E',
    ensures
        r == is_exponent(s@.subrange(a as int, b as int)),
{
    let ghost x = s@.subrange(a as int, b as int);
    if b - a < 2 {
        return false;
    }
    let c = s.get_char(a + 1);
    assert(x[1] == c);
    if c == '+' || c == '-' {
        assert(x.skip(2) =~= s@.subrange(a + 2, b as int));
        b - a > 2 && digits_in(s, a + 2, b)
    } else {
        assert(x.skip(1) =~= s@.subrange(a + 1, b as int));
        digits_in(s, a + 1, b)
    }
}

fn number_in(s: &str, a: usize, b: usize) -> (r: bool)
    requires
        a <= b <= s@.len(),
    ensures
        r == is_number(s@.subrange(a as int, b as int)),
{
    let ghost m = s@.subrange(a as int, b as int);
    let k = find_either(s, a, b, 'e', 'E');
    if k == b {
        let r = mantissa_in(s, a, b);
        proof {
            if !r && is_number(m) {
                let ghost q = choose|q: int|
                    0 <= q < m.len() && is_mantissa(m.take(q)) && is_exponent(m.skip(q));
                assert(m.skip(q)[0] == s@[a + q]);
            }
        }
        r
    } else {
        let ghost d = (k - a) as int;
        assert(m[d] == s@[k as int]);
        proof {
            if is_mantissa(m) {
                lemma_mantissa_chars(m);
            }
        }
        assert(!is_mantissa(m));
        assert(m.take(d) =~= s@.subrange(a as int, k as int));
        assert(m.skip(d) =~= s@.subrange(k as int, b as int));
        let r = mantissa_in(s, a, k) && exponent_in(s, k, b);
        proof {
            if !r && is_number(m) {
                let ghost q = choose|q: int|
                    0 <= q < m.len() && is_mantissa(m.take(q)) && is_exponent(m.skip(q));
                assert(m.skip(q)[0] == m[q]);
                if q < d {
                    assert(m[q] == s@[a + q]);
                } else if q > d {
                    lemma_mantissa_chars(m.take(q));
                    assert(m.take(q)[d] == m[d]);
                }
            }
        }
        r
    }
}

/// Whether `s[a..b]` spells the lower-case word `w`, letters in either case.
fn spells_in(s: &str, a: usize, b: usize, w: &str) -> (r: bool)
    requires
        a <= b <= s@.len(),
    ensures
        r == spells(s@.subrange(a as int, b as int), w@),
{
    let n = w.unicode_len();
    if b - a != n {
        return false;
    }
    let ghost x = s@.subrange(a as int, b as int);
    let mut i: usize = 0;
    while i < n
        invariant
            n == w@.len() == b - a,
            a <= b <= s@.len(),
            x == s@.subrange(a as int, b as int),
            i <= n,
            forall|j: int| 0 <= j < i ==> #[trigger] x[j] == w@[j] || x[j] as u32 + 32 == w@[j] as u32,
        decreases n - i,
    {
        let c = s.get_char(a + i);
        let d = w.get_char(i);
        assert(x[i as int] == c);
        if !(c == d || (c as u32) as u64 + 32 == (d as u32) as u64) {
            return false;
        }
        i = i + 1;
    }
    true
}

fn special_in(s: &str, a: usize, b: usize) -> (r: bool)
    requires
        a <= b <= s@.len(),
    ensures
        r == is_special(s@.subrange(a as int, b as int)),
{
    proof {
        reveal_strlit("inf");
        reveal_strlit("infinity");
        reveal_strlit("nan");
        assert("inf"@ =~= seq!['i', 'n', 'f']);
        assert("infinity"@ =~= seq!['i', 'n', 'f', 'i', 'n', 'i', 't', 'y']);
        assert("nan"@ =~= seq!['n', 'a', 'n']);
    }
    spells_in(s, a, b, "inf") || spells_in(s, a, b, "infinity") || spells_in(s, a, b, "nan")
}

proof fn lemma_unsigned_start(s: Seq<char>)
    requires
        is_special(s) || is_number(s),
    ensures
        s.len() > 0 && !is_sign(s[0]),
{
    if is_mantissa(s) {
        lemma_mantissa_chars(s);
    } else if is_number(s) {
        let q = choose|q: int| 0 <= q < s.len() && is_mantissa(s.take(q)) && is_exponent(s.skip(q));
        lemma_mantissa_chars(s.take(q));
        if q == 0 {
            assert(s.skip(q)[0] == s[0]);
        } else {
            assert(s.take(q)[0] == s[0]);
        }
    } else {
        assert(s[0] == 'i' || s[0] == 'n' || s[0] as u32 + 32 == 'i' as u32 || s[0] as u32 + 32
            == 'n' as u32);
    }
}

/// Whether `s` is the text of a floating-point literal.
pub fn is_float_text(s: &str) -> (r: bool)
    ensures
        r == is_float_literal(s@),
{
    let n = s.unicode_len();
    assert(s@.subrange(0, n as int) =~= s@);
    let unsigned = special_in(s, 0, n) || number_in(s, 0, n);
    if n > 0 {
        let c = s.get_char(0);
        if c == '+' || c == '-' {
            proof {
                if is_special(s@) || is_number(s@) {
                    lemma_unsigned_start(s@);
                }
            }
            assert(s@.subrange(1, n as int) =~= s@.skip(1));
            return special_in(s, 1, n) || number_in(s, 1, n);
        }
    }
    unsigned
}

} // verus!
