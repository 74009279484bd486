use vstd::prelude::*;
use vstd::string::{StringExecFns, StringSliceAdditionalSpecFns};

verus! {

/// Amounts are fixed-point numbers: a stored value of `1000` stands for one unit (one gram,
/// one milligram, one kilocalorie, ... depending on the nutrient).
pub const SCALE: u64 = 1000;

/// One cell of a food record.
#[derive(Debug, PartialEq)]
pub enum FoodData {
    /// A measured amount, in thousandths of the nutrient's unit.
    Number(u64),
    /// An estimated amount (written in parentheses in the composition tables), in thousandths.
    Estimated(u64),
    /// A field that holds text, such as a name or a remark.
    Text(String),
    /// No data recorded.
    Absent,
}

/// `v * num / den` rounded down, held at `u64::MAX` when it does not fit.
pub open spec fn scaled(v: u64, num: u64, den: u64) -> u64
    recommends
        den > 0,
{
    let x = (v as int) * (num as int) / (den as int);
    if x > u64::MAX {
        u64::MAX
    } else {
        x as u64
    }
}

/// `a + b`, held at `u64::MAX` when it does not fit.
pub open spec fn sum_amount(a: u64, b: u64) -> u64 {
    if a as int + b as int > u64::MAX {
        u64::MAX
    } else {
        (a + b) as u64
    }
}

impl FoodData {
    /// The amount that the cell holds, if it is numeric.
    pub open spec fn number(&self) -> Option<u64> {
        match self {
            FoodData::Number(v) => Some(*v),
            FoodData::Estimated(v) => Some(*v),
            _ => None,
        }
    }

    /// The cell scaled by `num / den`: numeric payloads are multiplied, the rest is kept.
    pub open spec fn rated(&self, num: u64, den: u64) -> FoodData {
        match self {
            FoodData::Number(v) => FoodData::Number(scaled(*v, num, den)),
            FoodData::Estimated(v) => FoodData::Estimated(scaled(*v, num, den)),
            _ => *self,
        }
    }

    /// The sum of two cells: two measured amounts give a measured amount, an estimate on either
    /// side gives an estimate, and text or missing data on either side gives no data.
    pub open spec fn added(&self, other: &FoodData) -> FoodData {
        match (self, other) {
            (FoodData::Number(a), FoodData::Number(b)) => FoodData::Number(sum_amount(*a, *b)),
            (FoodData::Number(a), FoodData::Estimated(b)) => FoodData::Estimated(sum_amount(*a, *b)),
            (FoodData::Estimated(a), FoodData::Number(b)) => FoodData::Estimated(sum_amount(*a, *b)),
            (FoodData::Estimated(a), FoodData::Estimated(b)) => FoodData::Estimated(sum_amount(*a, *b)),
            _ => FoodData::Absent,
        }
    }

    pub fn copy(&self) -> (r: FoodData)
        ensures
            r == *self,
    {
        match self {
            FoodData::Number(v) => FoodData::Number(*v),
            FoodData::Estimated(v) => FoodData::Estimated(*v),
            FoodData::Text(s) => FoodData::Text(s.clone()),
            FoodData::Absent => FoodData::Absent,
        }
    }

    pub fn get_number(&self) -> (r: Option<u64>)
        ensures
            r == self.number(),
    {
        match self {
            FoodData::Number(v) => Some(*v),
            FoodData::Estimated(v) => Some(*v),
            _ => None,
        }
    }

    /// Scales a numeric payload by the factor `num / den`; text and missing data are kept.
    pub fn rate(&self, num: u64, den: u64) -> (r: FoodData)
        requires
            den > 0,
        ensures
            r == self.rated(num, den),
    {
        match self {
            FoodData::Number(v) => FoodData::Number(scale_amount(*v, num, den)),
            FoodData::Estimated(v) => FoodData::Estimated(scale_amount(*v, num, den)),
            _ => self.copy(),
        }
    }

    pub fn add(&self, other: &FoodData) -> (r: FoodData)
        ensures
            r == self.added(other),
    {
        match (self, other) {
            (FoodData::Number(a), FoodData::Number(b)) => FoodData::Number(a.saturating_add(*b)),
            (FoodData::Number(a), FoodData::Estimated(b)) => FoodData::Estimated(a.saturating_add(*b)),
            (FoodData::Estimated(a), FoodData::Number(b)) => FoodData::Estimated(a.saturating_add(*b)),
            (FoodData::Estimated(a), FoodData::Estimated(b)) => FoodData::Estimated(a.saturating_add(*b)),
            _ => FoodData::Absent,
        }
    }
}

fn scale_amount(v: u64, num: u64, den: u64) -> (r: u64)
    requires
        den > 0,
    ensures
        r == scaled(v, num, den),
{
    proof {
        assert((v as int) * (num as int) <= (u64::MAX as int) * (u64::MAX as int)) by (nonlinear_arith)
            requires
                v <= u64::MAX,
                num <= u64::MAX,
        ;
    }
    let x: u128 = (v as u128) * (num as u128) / (den as u128);
    if x > u64::MAX as u128 {
        u64::MAX
    } else {
        x as u64
    }
}

/// The character of the decimal digit `d`.
pub open spec fn digit_char(d: int) -> char {
    (d + 48) as char
}

/// The decimal digits of `n`, without leading zeros.
pub open spec fn decimal(n: nat) -> Seq<char>
    decreases n,
{
    if n < 10 {
        seq![digit_char(n as int)]
    } else {
        decimal(n / 10).push(digit_char((n % 10) as int))
    }
}

/// A count of hundredths written as a decimal, without trailing zeros after the point.
pub open spec fn hundredths_text(h: nat) -> Seq<char> {
    let whole = h / 100;
    let frac = h % 100;
    if frac == 0 {
        decimal(whole)
    } else if frac % 10 == 0 {
        decimal(whole) + seq!['.', digit_char((frac / 10) as int)]
    } else {
        decimal(whole) + seq!['.', digit_char((frac / 10) as int), digit_char((frac % 10) as int)]
    }
}

/// A fixed-point amount written with at most two decimal places, rounded half up.
pub open spec fn two_places(v: u64) -> Seq<char> {
    hundredths_text((v as nat + 5) / 10)
}

impl FoodData {
    /// How the cell is written in a table.
    pub open spec fn display(&self) -> Seq<char> {
        match self {
            FoodData::Number(v) => two_places(*v),
            FoodData::Estimated(v) => seq!['('] + two_places(*v) + seq![')'],
            FoodData::Text(s) => s@,
            FoodData::Absent => seq!['-'],
        }
    }

    pub fn to_string(&self) -> (r: String)
        ensures
            r@ == self.display(),
    {
        match self {
            FoodData::Number(v) => {
                let mut s = String::new();
                push_two_places(&mut s, *v);
                s
            },
            FoodData::Estimated(v) => {
                let mut s = String::new();
                proof {
                    reveal_strlit("(");
                    reveal_strlit(")");
                }
                s.append("(");
                push_two_places(&mut s, *v);
                s.append(")");
                s
            },
            FoodData::Text(t) => t.clone(),
            FoodData::Absent => {
                proof {
                    reveal_strlit("-");
                }
                String::from_str("-")
            },
        }
    }
}

fn digit_text(d: u64) -> (r: &'static str)
    requires
        d < 10,
    ensures
        r@ == seq![digit_char(d as int)],
{
    match d {
        0 => {
            proof {
                reveal_strlit("0");
            }
            "0"
        },
        1 => {
            proof {
                reveal_strlit("1");
            }
            "1"
        },
        2 => {
            proof {
                reveal_strlit("2");
            }
            "2"
        },
        3 => {
            proof {
                reveal_strlit("3");
            }
            "3"
        },
        4 => {
            proof {
                reveal_strlit("4");
            }
            "4"
        },
        5 => {
            proof {
                reveal_strlit("5");
            }
            "5"
        },
        6 => {
            proof {
                reveal_strlit("6");
            }
            "6"
        },
        7 => {
            proof {
                reveal_strlit("7");
            }
            "7"
        },
        8 => {
            proof {
                reveal_strlit("8");
            }
            "8"
        },
        _ => {
            proof {
                reveal_strlit("9");
            }
            "9"
        },
    }
}

pub fn push_decimal(s: &mut String, n: u64)
    ensures
        final(s)@ == old(s)@ + decimal(n as nat),
    decreases n,
{
    if n >= 10 {
        push_decimal(s, n / 10);
    }
    s.append(digit_text(n % 10));
    assert(final(s)@ =~= old(s)@ + decimal(n as nat)) by {
        if n >= 10 {
            assert(decimal(n as nat) == decimal((n / 10) as nat).push(digit_char((n % 10) as int)));
        }
    }
}

pub fn push_hundredths(s: &mut String, h: u64)
    ensures
        final(s)@ == old(s)@ + hundredths_text(h as nat),
{
    let whole = h / 100;
    let frac = h % 100;
    push_decimal(s, whole);
    if frac != 0 {
        proof {
            reveal_strlit(".");
        }
        s.append(".");
        s.append(digit_text(frac / 10));
        if frac % 10 != 0 {
            s.append(digit_text(frac % 10));
        }
    }
    assert(final(s)@ =~= old(s)@ + hundredths_text(h as nat));
}

fn push_two_places(s: &mut String, v: u64)
    ensures
        final(s)@ == old(s)@ + two_places(v),
{
    let h: u64 = v / 10 + if v % 10 >= 5 { 1 } else { 0 };
    assert(h as nat == (v as nat + 5) / 10);
    push_hundredths(s, h);
}

/// The ASCII code of `.`.
pub const POINT: u8 = 46;

/// The ASCII code of `(`.
pub const OPEN: u8 = 40;

/// The ASCII code of `)`.
pub const CLOSE: u8 = 41;

/// The largest whole part, in units, that an amount can hold.
pub const WHOLE_LIMIT: u64 = 18446744073709551;

pub open spec fn is_digit(c: u8) -> bool {
    48 <= c <= 57
}

/// The value of the decimal digits `b`, most significant first.
pub open spec fn digits_value(b: Seq<u8>) -> int
    decreases b.len(),
{
    if b.len() == 0 {
        0
    } else {
        digits_value(b.drop_last()) * 10 + (b.last() - 48)
    }
}

/// The first position at or after `i` that does not hold a digit, or the length.
pub open spec fn digits_end(b: Seq<u8>, i: int) -> int
    decreases b.len() - i,
{
    if i < 0 || i >= b.len() {
        b.len() as int
    } else if !is_digit(b[i]) {
        i
    } else {
        digits_end(b, i + 1)
    }
}

/// The first three digits of a fraction, as thousandths; digits after them are dropped.
pub open spec fn thousandths(f: Seq<u8>) -> int {
    if f.len() == 0 {
        0
    } else if f.len() == 1 {
        (f[0] - 48) * 100
    } else if f.len() == 2 {
        (f[0] - 48) * 100 + (f[1] - 48) * 10
    } else {
        (f[0] - 48) * 100 + (f[1] - 48) * 10 + (f[2] - 48)
    }
}

/// The amount, in thousandths, that the text `b` writes: one or more digits, optionally
/// followed by a point and more digits. `None` for any other text, or one too large.
pub open spec fn amount_of(b: Seq<u8>) -> Option<u64> {
    let p = digits_end(b, 0);
    let whole = digits_value(b.subrange(0, p));
    if p == 0 {
        None
    } else if p < b.len() && b[p] != POINT {
        None
    } else if p < b.len() && digits_end(b, p + 1) != b.len() {
        None
    } else {
        let f = if p < b.len() { b.subrange(p + 1, b.len() as int) } else { Seq::empty() };
        let v = whole * 1000 + thousandths(f);
        if v > u64::MAX {
            None
        } else {
            Some(v as u64)
        }
    }
}

/// The number of `(` at the start of `b`, from position `i` on.
pub open spec fn opening_end(b: Seq<u8>, i: int) -> int
    decreases b.len() - i,
{
    if i < 0 || i >= b.len() || b[i] != OPEN {
        i
    } else {
        opening_end(b, i + 1)
    }
}

/// The position after the last byte of `b[..j]` that is not `)`, looking no further left
/// than `lo`.
pub open spec fn closing_start(b: Seq<u8>, lo: int, j: int) -> int
    decreases j - lo,
{
    if j <= lo || b[j - 1] != CLOSE {
        j
    } else {
        closing_start(b, lo, j - 1)
    }
}

/// `b` with every `(` at its start and every `)` at its end taken off.
pub open spec fn unwrapped(b: Seq<u8>) -> Seq<u8> {
    let lo = opening_end(b, 0);
    b.subrange(lo, closing_start(b, lo, b.len() as int))
}

proof fn lemma_digits_end(b: Seq<u8>, i: int)
    requires
        0 <= i <= b.len(),
    ensures
        i <= digits_end(b, i) <= b.len(),
        forall|q: int| i <= q < digits_end(b, i) ==> is_digit(#[trigger] b[q]),
        digits_end(b, i) < b.len() ==> !is_digit(b[digits_end(b, i)]),
    decreases b.len() - i,
{
    if i < b.len() && is_digit(b[i]) {
        lemma_digits_end(b, i + 1);
    }
}

fn amount_in(b: &[u8], lo: usize, hi: usize) -> (r: Option<u64>)
    requires
        lo <= hi <= b@.len(),
    ensures
        r == amount_of(b@.subrange(lo as int, hi as int)),
{
    let ghost s = b@.subrange(lo as int, hi as int);
    let mut i: usize = lo;
    let mut whole: u64 = 0;
    while i < hi && b[i] >= 48 && b[i] <= 57
        invariant
            lo <= i <= hi <= b@.len(),
            s == b@.subrange(lo as int, hi as int),
            digits_end(s, 0) == digits_end(s, i - lo),
            forall|q: int| 0 <= q < i - lo ==> is_digit(#[trigger] s[q]),
            digits_value(s.subrange(0, i - lo)) >= 0,
            whole as int == if digits_value(s.subrange(0, i - lo)) > WHOLE_LIMIT {
                WHOLE_LIMIT + 1
            } else {
                digits_value(s.subrange(0, i - lo))
            },
        decreases hi - i,
    {
        let d = (b[i] - 48) as u64;
        assert(s.subrange(0, i - lo + 1).drop_last() =~= s.subrange(0, i - lo));
        assert(s[i - lo] == b[i as int]);
        if whole <= WHOLE_LIMIT {
            whole = whole * 10 + d;
            if whole > WHOLE_LIMIT {
                whole = WHOLE_LIMIT + 1;
            }
        }
        i = i + 1;
    }
    proof {
        lemma_digits_end(s, (i - lo) as int);
        if i < hi {
            assert(s[i - lo] == b[i as int]);
        }
    }
    let p = i;
    if p == lo {
        return None;
    }
    let mut frac: u64 = 0;
    if p < hi {
        assert(s[p - lo] == b[p as int]);
        if b[p] != POINT {
            return None;
        }
        let mut j: usize = p + 1;
        while j < hi && b[j] >= 48 && b[j] <= 57
            invariant
                lo < p < hi,
                p + 1 <= j <= hi <= b@.len(),
                s == b@.subrange(lo as int, hi as int),
                digits_end(s, p + 1 - lo) == digits_end(s, j - lo),
            decreases hi - j,
        {
            assert(s[j - lo] == b[j as int]);
            j = j + 1;
        }
        if j < hi {
            assert(s[j - lo] == b[j as int]);
            return None;
        }
        let ghost f = s.subrange(p + 1 - lo, s.len() as int);
        proof {
            lemma_digits_end(s, p + 1 - lo);
        }
        let flen = hi - (p + 1);
        if flen >= 1 {
            assert(f[0] == b[p + 1]);
            frac = (b[p + 1] - 48) as u64 * 100;
        }
        if flen >= 2 {
            assert(f[1] == b[p + 2]);
            frac = frac + (b[p + 2] - 48) as u64 * 10;
        }
        if flen >= 3 {
            assert(f[2] == b[p + 3]);
            frac = frac + (b[p + 3] - 48) as u64;
        }
        assert(frac == thousandths(f));
    } else {
        assert(thousandths(Seq::<u8>::empty()) == 0);
    }
    if whole > WHOLE_LIMIT {
        return None;
    }
    let v: u128 = whole as u128 * 1000 + frac as u128;
    if v > u64::MAX as u128 {
        return None;
    }
    Some(v as u64)
}

impl FoodData {
    /// The cell that a field of the composition tables writes as `data`: an amount, an
    /// amount in parentheses (an estimate), or else text.
    pub fn from_str(data: &str) -> (r: FoodData)
        ensures
            match amount_of(data.spec_bytes()) {
                Some(v) => r == FoodData::Number(v),
                None => match amount_of(unwrapped(data.spec_bytes())) {
                    Some(v) => r == FoodData::Estimated(v),
                    None => r matches FoodData::Text(t) && t@ == data@,
                },
            },
    {
        let b = data.as_bytes();
        let n = b.len();
        assert(b@.subrange(0, n as int) =~= b@);
        if let Some(v) = amount_in(b, 0, n) {
            return FoodData::Number(v);
        }
        let mut lo: usize = 0;
        while lo < n && b[lo] == OPEN
            invariant
                lo <= n == b@.len(),
                opening_end(b@, 0) == opening_end(b@, lo as int),
            decreases n - lo,
        {
            lo = lo + 1;
        }
        let mut hi: usize = n;
        while hi > lo && b[hi - 1] == CLOSE
            invariant
                lo <= hi <= n == b@.len(),
                opening_end(b@, 0) == lo,
                closing_start(b@, lo as int, n as int) == closing_start(b@, lo as int, hi as int),
            decreases hi,
        {
            hi = hi - 1;
        }
        assert(unwrapped(b@) == b@.subrange(lo as int, hi as int));
        match amount_in(b, lo, hi) {
            Some(v) => FoodData::Estimated(v),
            None => FoodData::Text(String::from_str(data)),
        }
    }
}

} // verus!
