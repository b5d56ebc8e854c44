//! Fixed-point decimal arithmetic.
//!
//! Every monetary quantity in the library (price, quantity, cash, commission)
//! is a `Dec`: an `i128` count of billionths, so nine fractional decimal
//! digits are carried exactly. Multiplication and division truncate toward
//! zero; the spec functions below pin that rounding exactly.

use vstd::prelude::*;
use vstd::arithmetic::mul::lemma_mul_inequality;
use vstd::string::StringSliceAdditionalSpecFns;

verus! {

/// Number of raw units in 1.0: nine fractional decimal digits.
pub const DEC_SCALE: i128 = 1_000_000_000;

/// A fixed-point decimal; the value represented is `units / 1_000_000_000`.
#[derive(Clone, Copy, Debug, PartialEq, Eq, Structural)]
pub struct Dec {
    pub units: i128,
}

impl View for Dec {
    type V = int;

    open spec fn view(&self) -> int {
        self.units as int
    }
}

/// Magnitude of an integer.
pub open spec fn abs_i(a: int) -> int {
    if a >= 0 {
        a
    } else {
        -a
    }
}

/// Division truncating toward zero, as machine division does.
/// (`/` on `int` is Euclidean division, which differs on negative operands.)
pub open spec fn div_t(a: int, b: int) -> int {
    let q = abs_i(a) / abs_i(b);
    if (a >= 0) == (b >= 0) {
        q
    } else {
        -q
    }
}

/// Value of the product of two decimals, truncated to the fixed scale.
pub open spec fn dec_mul_val(a: int, b: int) -> int {
    div_t(a * b, DEC_SCALE as int)
}

/// Value of the quotient of two decimals, truncated to the fixed scale.
pub open spec fn dec_div_val(a: int, b: int) -> int {
    div_t(a * (DEC_SCALE as int), b)
}

impl Dec {
    /// The decimal 0.
    pub fn zero() -> (r: Dec)
        ensures
            r@ == 0,
    {
        Dec { units: 0 }
    }

    /// The decimal 1.
    pub fn one() -> (r: Dec)
        ensures
            r@ == DEC_SCALE as int,
    {
        Dec { units: DEC_SCALE }
    }

    /// The decimal with the given whole value.
    pub fn from_int(i: i64) -> (r: Dec)
        ensures
            r@ == i * (DEC_SCALE as int),
    {
        (Dec { units: (i as i128) * DEC_SCALE })
    }

    /// Exact sum.
    pub fn add(self, o: Dec) -> (r: Dec)
        requires
            i128::MIN < self@ + o@ <= i128::MAX,
        ensures
            r@ == self@ + o@,
    {
        (Dec { units: self.units + o.units })
    }

    /// Exact difference.
    pub fn sub(self, o: Dec) -> (r: Dec)
        requires
            i128::MIN < self@ - o@ <= i128::MAX,
        ensures
            r@ == self@ - o@,
    {
        (Dec { units: self.units - o.units })
    }

    /// Product, truncated toward zero at the ninth fractional digit.
    pub fn mul(self, o: Dec) -> (r: Dec)
        requires
            -i128::MAX <= self@ * o@ <= i128::MAX,
        ensures
            r@ == dec_mul_val(self@, o@),
    {
        let p: i128 = self.units * o.units;
        if p >= 0 {
            (Dec { units: p / DEC_SCALE })
        } else {
            (Dec { units: -((-p) / DEC_SCALE) })
        }
    }

    /// Quotient, truncated toward zero at the ninth fractional digit.
    pub fn div(self, o: Dec) -> (r: Dec)
        requires
            o@ != 0,
            o@ > i128::MIN,
            -i128::MAX <= self@ * (DEC_SCALE as int) <= i128::MAX,
        ensures
            r@ == dec_div_val(self@, o@),
    {
        let p: i128 = self.units * DEC_SCALE;
        let an: i128 = if p >= 0 {
            p
        } else {
            -p
        };
        let bn: i128 = if o.units >= 0 {
            o.units
        } else {
            -o.units
        };
        let q: i128 = an / bn;
        if (p >= 0) == (o.units >= 0) {
            (Dec { units: q })
        } else {
            (Dec { units: -q })
        }
    }

    /// True iff this decimal is strictly positive.
    pub fn is_positive(self) -> (r: bool)
        ensures
            r == (self@ > 0),
    {
        self.units > 0
    }
}

// ---------------------------------------------------------------------------
// Parsing a decimal literal such as "50000.00" or "-0.001".
// ---------------------------------------------------------------------------

/// ASCII digit.
pub open spec fn is_digit(b: u8) -> bool {
    48 <= b <= 57
}

/// All bytes of the sequence are ASCII digits.
pub open spec fn all_digits(s: Seq<u8>) -> bool {
    forall|i: int| 0 <= i < s.len() ==> is_digit(#[trigger] s[i])
}

/// Value of a sequence of ASCII digits read in base ten.
pub open spec fn digits_val(s: Seq<u8>) -> int
    decreases s.len(),
{
    if s.len() == 0 {
        0
    } else {
        10 * digits_val(s.drop_last()) + (s.last() - 48)
    }
}

/// Ten to the given power.
pub open spec fn pow10(n: int) -> int
    decreases n,
{
    if n <= 0 {
        1
    } else {
        10 * pow10(n - 1)
    }
}

/// Index of the first `.` in the sequence, or its length when there is none.
pub open spec fn dot_index(s: Seq<u8>) -> int
    decreases s.len(),
{
    if s.len() == 0 {
        0
    } else if s[0] == 46 {
        0
    } else {
        1 + dot_index(s.skip(1))
    }
}

/// Raw-unit value denoted by an unsigned decimal literal, when well formed:
/// one to 29 integer digits, then optionally a dot and one to nine
/// fractional digits.
pub open spec fn dec_str_val_unsigned(s: Seq<u8>) -> Option<int> {
    let d = dot_index(s);
    if d == s.len() {
        if 1 <= s.len() <= 29 && all_digits(s) {
            Some(digits_val(s) * (DEC_SCALE as int))
        } else {
            None
        }
    } else {
        let ip = s.take(d);
        let fp = s.skip(d + 1);
        if 1 <= ip.len() <= 29 && 1 <= fp.len() <= 9 && all_digits(ip) && all_digits(fp) {
            Some(digits_val(ip) * (DEC_SCALE as int) + digits_val(fp) * pow10(9 - fp.len()))
        } else {
            None
        }
    }
}

/// Raw-unit value denoted by a decimal literal with an optional leading minus.
pub open spec fn dec_str_val(s: Seq<u8>) -> Option<int> {
    if s.len() > 0 && s[0] == 45 {
        match dec_str_val_unsigned(s.skip(1)) {
            Some(v) => Some(-v),
            None => None,
        }
    } else {
        dec_str_val_unsigned(s)
    }
}

proof fn lemma_pow10_literals()
    ensures
        pow10(9) == DEC_SCALE as int,
        pow10(29) == 100000000000000000000000000000int,
        pow10(38) == 100000000000000000000000000000000000000int,
        pow10(38) < i128::MAX,
{
    reveal_with_fuel(pow10, 40);
}

proof fn lemma_digits_val_bound(s: Seq<u8>)
    requires
        all_digits(s),
    ensures
        0 <= digits_val(s) < pow10(s.len() as int),
    decreases s.len(),
{
    if s.len() == 0 {
    } else {
        assert(forall|i: int|
            0 <= i < s.len() - 1 ==> is_digit(#[trigger] s.drop_last()[i]) == is_digit(s[i]));
        lemma_digits_val_bound(s.drop_last());
        assert(is_digit(s.last()));
    }
}

proof fn lemma_pow10_positive(a: int)
    ensures
        pow10(a) >= 1,
    decreases (if a >= 0 {
        a
    } else {
        0
    }),
{
    if a > 0 {
        lemma_pow10_positive(a - 1);
    }
}

proof fn lemma_pow10_monotone(a: int, b: int)
    requires
        a <= b,
    ensures
        1 <= pow10(a) <= pow10(b),
    decreases (if b - a >= 0 {
        b - a
    } else {
        0
    }),
{
    if a < b {
        lemma_pow10_monotone(a, b - 1);
        lemma_pow10_positive(b - 1);
    } else {
        lemma_pow10_positive(a);
    }
}

/// Appending one more digit multiplies the prefix value by ten.
proof fn lemma_digits_val_push(s: Seq<u8>, i: int)
    requires
        0 <= i < s.len(),
    ensures
        digits_val(s.take(i + 1)) == 10 * digits_val(s.take(i)) + (s[i] - 48),
{
    assert(s.take(i + 1).drop_last() =~= s.take(i));
    assert(s.take(i + 1).last() == s[i]);
}

/// The first dot is at `j` when `s[j]` is a dot and no earlier byte is one.
proof fn lemma_dot_index_at(s: Seq<u8>, j: int)
    requires
        0 <= j < s.len(),
        s[j] == 46,
        forall|k: int| 0 <= k < j ==> s[k] != 46,
    ensures
        dot_index(s) == j,
    decreases j,
{
    if j == 0 {
    } else {
        assert(s[0] != 46);
        assert(s.skip(1)[j - 1] == s[j]);
        assert(forall|k: int| 0 <= k < j - 1 ==> #[trigger] s.skip(1)[k] == s[k + 1]);
        lemma_dot_index_at(s.skip(1), j - 1);
    }
}

/// There is no dot when no byte is one.
proof fn lemma_dot_index_none(s: Seq<u8>)
    requires
        forall|k: int| 0 <= k < s.len() ==> s[k] != 46,
    ensures
        dot_index(s) == s.len(),
    decreases s.len(),
{
    if s.len() == 0 {
    } else {
        assert(forall|k: int| 0 <= k < s.len() - 1 ==> #[trigger] s.skip(1)[k] == s[k + 1]);
        lemma_dot_index_none(s.skip(1));
    }
}

/// Reads the decimal digits `bs[from..to]` in base ten.
fn read_digits(bs: &[u8], from: usize, to: usize) -> (r: Option<i128>)
    requires
        from <= to <= bs@.len(),
        to - from <= 29,
    ensures
        (match r {
            Some(v) => all_digits(bs@.subrange(from as int, to as int)) && v == digits_val(
                bs@.subrange(from as int, to as int),
            ) && 0 <= v < pow10(to - from),
            None => !all_digits(bs@.subrange(from as int, to as int)),
        }),
{
    let ghost whole = bs@.subrange(from as int, to as int);
    let mut acc: i128 = 0;
    let mut i: usize = from;
    proof {
        assert(whole.take(0) =~= Seq::<u8>::empty());
        lemma_pow10_literals();
        lemma_pow10_monotone(29, 38);
    }
    while i < to
        invariant
            from <= i <= to <= bs@.len(),
            to - from <= 29,
            whole == bs@.subrange(from as int, to as int),
            all_digits(whole.take(i - from)),
            acc == digits_val(whole.take(i - from)),
            0 <= acc < pow10(i - from),
            pow10(29) < i128::MAX,
        decreases to - i,
    {
        let b = bs[i];
        proof {
            assert(whole[i - from] == bs@[i as int]);
        }
        if b < 48 || b > 57 {
            proof {
                assert(!is_digit(whole[i - from]));
            }
            return None;
        }
        proof {
            lemma_pow10_monotone(i - from, 28);
            assert(pow10(29) == 10 * pow10(28));
            lemma_digits_val_push(whole, i - from);
        }
        acc = acc * 10 + ((b - 48) as i128);
        i = i + 1;
    }
    proof {
        assert(whole.take(to - from) =~= whole);
    }
    Some(acc)
}

/// Parses an unsigned whole number of one to nine digits.
pub fn parse_small_uint(s: &str) -> (r: Option<u64>)
    ensures
        (match r {
            Some(v) => 1 <= s.spec_bytes().len() <= 9 && all_digits(s.spec_bytes()) && v
                == digits_val(s.spec_bytes()),
            None => !(1 <= s.spec_bytes().len() <= 9 && all_digits(s.spec_bytes())),
        }),
{
    let bs = s.as_bytes();
    let n = bs.len();
    if n < 1 || n > 9 {
        return None;
    }
    match read_digits(bs, 0, n) {
        Some(v) => {
            proof {
                assert(bs@.subrange(0, n as int) =~= s.spec_bytes());
                lemma_pow10_literals();
                lemma_pow10_monotone(n as int, 9);
            }
            Some(v as u64)
        },
        None => {
            proof {
                assert(bs@.subrange(0, n as int) =~= s.spec_bytes());
            }
            None
        },
    }
}

/// Parses a decimal literal: an optional minus sign, one to 29 integer
/// digits, then optionally a dot and one to nine fractional digits.
/// Returns `None` on any other shape.
pub fn dec_from_str(s: &str) -> (r: Option<Dec>)
    ensures
        (match r {
            Some(d) => dec_str_val(s.spec_bytes()) == Some(d@),
            None => dec_str_val(s.spec_bytes()) is None,
        }),
{
    let bs = s.as_bytes();
    let n = bs.len();
    let neg = n > 0 && bs[0] == 45;
    let start: usize = if neg {
        1
    } else {
        0
    };
    let ghost body = bs@.subrange(start as int, n as int);
    proof {
        if neg {
            assert(body =~= s.spec_bytes().skip(1));
        } else {
            assert(body =~= s.spec_bytes());
        }
    }
    // Find the first dot at or after `start`.
    let mut dot: usize = n;
    let mut j: usize = start;
    while j < n && dot == n
        invariant
            start <= j <= n,
            dot <= n,
            n == bs@.len(),
            dot == n ==> forall|k: int| start <= k < j ==> bs@[k] != 46,
            dot < n ==> j == dot && bs@[dot as int] == 46 && (forall|k: int|
                start <= k < dot ==> bs@[k] != 46),
        decreases n - j + (if dot == n {
            1int
        } else {
            0int
        }),
    {
        if bs[j] == 46 {
            dot = j;
        } else {
            j = j + 1;
        }
    }
    proof {
        assert(forall|k: int| 0 <= k < body.len() ==> body[k] == bs@[k + start]);
        if dot < n {
            lemma_dot_index_at(body, dot - start);
        } else {
            assert(j == n);
            assert forall|k: int| 0 <= k < body.len() implies body[k] != 46 by {
                assert(bs@[k + start] != 46);
            }
            lemma_dot_index_none(body);
        }
        assert(dot_index(body) == dot - start);
    }
    let int_to = dot;
    if int_to <= start || int_to - start > 29 {
        return None;
    }
    let ghost ip_seq = bs@.subrange(start as int, int_to as int);
    proof {
        assert(ip_seq =~= body.take(dot - start));
        if dot == n {
            assert(ip_seq =~= body);
        }
    }
    let ip = match read_digits(bs, start, int_to) {
        Some(v) => v,
        None => {
            return None;
        },
    };
    proof {
        lemma_pow10_literals();
        lemma_pow10_monotone(int_to - start, 29);
        assert(ip < pow10(29));
        lemma_mul_inequality(ip as int, pow10(29) - 1, DEC_SCALE as int);
        assert((pow10(29) - 1) * (DEC_SCALE as int) < i128::MAX - DEC_SCALE);
        assert(ip >= 0);
        lemma_mul_inequality(0, ip as int, DEC_SCALE as int);
    }
    let mut units: i128 = ip * DEC_SCALE;
    if dot < n {
        let f_from = dot + 1;
        if n - f_from < 1 || n - f_from > 9 {
            return None;
        }
        let f_len = n - f_from;
        let ghost fp_seq = bs@.subrange(f_from as int, n as int);
        proof {
            assert(fp_seq =~= body.skip(dot - start + 1));
        }
        let fp = match read_digits(bs, f_from, n) {
            Some(v) => v,
            None => {
                return None;
            },
        };
        let mut mult: i128 = 1;
        let mut e: usize = 0;
        while e < 9 - f_len
            invariant
                f_len <= 9,
                e <= 9 - f_len,
                mult == pow10(e as int),
            decreases 9 - f_len - e,
        {
            proof {
                lemma_pow10_literals();
                lemma_pow10_monotone(e as int, 8);
                assert(pow10(9) == 10 * pow10(8));
                lemma_pow10_positive(e as int);
            }
            mult = mult * 10;
            e = e + 1;
        }
        proof {
            assert(mult == pow10(9 - (f_len as int)));
            lemma_pow10_positive(9 - (f_len as int));
            assert(fp < pow10(f_len as int));
            lemma_mul_inequality(fp as int, pow10(f_len as int) - 1, pow10(9 - (f_len as int)));
            lemma_pow10_adds(f_len as int, 9 - (f_len as int));
            vstd::arithmetic::mul::lemma_mul_is_distributive_sub_other_way(
                pow10(9 - (f_len as int)),
                pow10(f_len as int),
                1,
            );
            lemma_pow10_literals();
            lemma_mul_inequality(0, fp as int, pow10(9 - (f_len as int)));
        }
        units = units + fp * mult;
    }
    if neg {
        proof {
            assert(s.spec_bytes()[0] == 45);
        }
        Some(Dec { units: -units })
    } else {
        Some(Dec { units })
    }
}

proof fn lemma_pow10_adds(a: int, b: int)
    requires
        a >= 0,
        b >= 0,
    ensures
        pow10(a + b) == pow10(a) * pow10(b),
    decreases a,
{
    if a == 0 {
    } else {
        lemma_pow10_adds(a - 1, b);
        vstd::arithmetic::mul::lemma_mul_is_associative(10, pow10(a - 1), pow10(b));
    }
}

} // verus!
