use vstd::prelude::*;

use crate::food::{field_index, index_of, FIELD_COUNT};
use crate::food_data::{decimal, hundredths_text, push_decimal, push_hundredths};
use vstd::string::StringExecFns;

verus! {

/// The number of nutrients that a meal is scored on.
pub const TRACKED_COUNT: usize = 33;

/// One hundred percent, in thousandths of a percent.
pub const FULL: i128 = 100000;

/// The field of a food record that holds the `t`-th scored nutrient.
pub open spec fn tracked_field(t: int) -> int {
    if t == 0 {
        6
    } else if t == 1 {
        9
    } else if t == 2 {
        11
    } else if t == 3 {
        13
    } else if t == 4 {
        15
    } else if t == 5 {
        17
    } else if t == 6 {
        21
    } else if t == 7 {
        41
    } else if t == 8 {
        42
    } else if t == 9 {
        43
    } else if t == 10 {
        47
    } else if t == 11 {
        48
    } else if t == 12 {
        49
    } else if t == 13 {
        50
    } else if t == 14 {
        51
    } else if t == 15 {
        52
    } else if t == 16 {
        53
    } else if t == 17 {
        54
    } else if t == 18 {
        55
    } else if t == 19 {
        56
    } else if t == 20 {
        23
    } else if t == 21 {
        24
    } else if t == 22 {
        25
    } else if t == 23 {
        26
    } else if t == 24 {
        27
    } else if t == 25 {
        28
    } else if t == 26 {
        29
    } else if t == 27 {
        30
    } else if t == 28 {
        31
    } else if t == 29 {
        32
    } else if t == 30 {
        33
    } else if t == 31 {
        34
    } else if t == 32 {
        35
    } else {
        -1
    }
}

/// The position among the scored nutrients of the field `f`, searching from `t` on.
pub open spec fn tracked_position_from(f: int, t: int) -> Option<int>
    decreases TRACKED_COUNT - t,
{
    if t < 0 || t >= TRACKED_COUNT {
        None
    } else if tracked_field(t) == f {
        Some(t)
    } else {
        tracked_position_from(f, t + 1)
    }
}

pub fn tracked_field_at(t: usize) -> (r: usize)
    requires
        t < TRACKED_COUNT,
    ensures
        r as int == tracked_field(t as int),
        r < FIELD_COUNT,
{
    match t {
        0 => 6,
        1 => 9,
        2 => 11,
        3 => 13,
        4 => 15,
        5 => 17,
        6 => 21,
        7 => 41,
        8 => 42,
        9 => 43,
        10 => 47,
        11 => 48,
        12 => 49,
        13 => 50,
        14 => 51,
        15 => 52,
        16 => 53,
        17 => 54,
        18 => 55,
        19 => 56,
        20 => 23,
        21 => 24,
        22 => 25,
        23 => 26,
        24 => 27,
        25 => 28,
        26 => 29,
        27 => 30,
        28 => 31,
        29 => 32,
        30 => 33,
        31 => 34,
        _ => 35,
    }
}

/// `value` as a share of `target`, in thousandths of a percent, rounded down.
pub open spec fn percent_of(value: int, target: int) -> int {
    value * (FULL as int) / target
}

/// `value` as a share of `target`, in thousandths of a percent, rounded up; used past a
/// ceiling, so that any excess shows in the share.
pub open spec fn percent_up(value: int, target: int) -> int {
    (value * (FULL as int) + target - 1) / target
}

/// How a reference amount is written: above thirty units it is rounded to a whole number,
/// otherwise it is cut to two decimal places.
pub open spec fn reference_text(v: u64) -> Seq<char> {
    if v > 30000 {
        decimal(((v as nat) + 500) / 1000)
    } else {
        hundredths_text((v / 10) as nat)
    }
}

fn push_reference(s: &mut String, v: u64)
    ensures
        final(s)@ == old(s)@ + reference_text(v),
{
    if v > 30000 {
        let units: u64 = v / 1000 + if v % 1000 >= 500 { 1 } else { 0 };
        assert(units as nat == ((v as nat) + 500) / 1000);
        push_decimal(s, units);
    } else {
        push_hundredths(s, v / 10);
    }
}

/// A reference intake, in thousandths of the nutrient's unit.
#[derive(Clone, Copy, Debug, PartialEq, Eq, Structural)]
pub enum KijunValue {
    /// The ideal amount.
    Recommended(u64),
    /// An approximate ideal amount.
    Adequate(u64),
    /// Amounts at or below this are fully satisfactory.
    UpperBound(u64),
    /// Amounts at or above this are fully satisfactory.
    LowerBound(u64),
    /// Amounts within `[min, max]` are fully satisfactory.
    Range(u64, u64),
}

fn percent_exec(value: u64, target: u64) -> (r: i128)
    requires
        target > 0,
    ensures
        r == percent_of(value as int, target as int),
        0 <= r <= (u64::MAX as int) * (FULL as int),
{
    proof {
        assert((value as int) * (FULL as int) <= (u64::MAX as int) * (FULL as int)) by (nonlinear_arith)
            requires
                value <= u64::MAX,
        ;
        assert((value as int) * (FULL as int) / (target as int) <= (value as int) * (FULL as int)) by (nonlinear_arith)
            requires
                target >= 1,
                value >= 0,
        ;
    }
    let x: u128 = (value as u128) * (FULL as u128) / (target as u128);
    x as i128
}

fn percent_up_exec(value: u64, target: u64) -> (r: i128)
    requires
        target > 0,
        value > target,
    ensures
        r == percent_up(value as int, target as int),
        FULL < r <= (u64::MAX as int) * (FULL as int),
{
    proof {
        let v = value as int;
        let t = target as int;
        let f = FULL as int;
        assert(v * f <= (u64::MAX as int) * f) by (nonlinear_arith)
            requires
                v <= u64::MAX,
                f > 0,
        ;
        assert((v * f + t - 1) / t <= v * f) by (nonlinear_arith)
            requires
                t >= 1,
                v >= t,
                f >= 1,
        ;
        assert((v * f + t - 1) / t > f) by (nonlinear_arith)
            requires
                t >= 1,
                v >= t + 1,
                f >= 1,
        ;
    }
    let x: u128 = ((value as u128) * (FULL as u128) + (target as u128) - 1) / (target as u128);
    x as i128
}

impl KijunValue {
    /// Every bound that the value holds is positive.
    pub open spec fn valid(&self) -> bool {
        match self {
            KijunValue::Recommended(t) => *t > 0,
            KijunValue::Adequate(t) => *t > 0,
            KijunValue::UpperBound(t) => *t > 0,
            KijunValue::LowerBound(t) => *t > 0,
            KijunValue::Range(min, max) => *min > 0 && *max > 0,
        }
    }

    /// How far `value` goes towards the reference, in thousandths of a percent: rounded down,
    /// except past a ceiling (an upper bound, or the top of a range), where it is rounded up.
    pub open spec fn percentage(&self, value: int) -> int {
        match self {
            KijunValue::Recommended(t) => percent_of(value, *t as int),
            KijunValue::Adequate(t) => percent_of(value, *t as int),
            KijunValue::UpperBound(t) => if value <= *t {
                FULL as int
            } else {
                percent_up(value, *t as int)
            },
            KijunValue::LowerBound(t) => if value >= *t {
                FULL as int
            } else {
                percent_of(value, *t as int)
            },
            KijunValue::Range(min, max) => if value < *min {
                percent_of(value, *min as int)
            } else if value > *max {
                percent_up(value, *max as int)
            } else {
                FULL as int
            },
        }
    }

    /// How the reference is written: its kind as a sign (`=` recommended, `?` adequate,
    /// `-` upper bound, `+` lower bound) before the amount, or a range as `min ~ max`.
    pub open spec fn display(&self) -> Seq<char> {
        match self {
            KijunValue::Recommended(t) => seq!['=', ' '] + reference_text(*t),
            KijunValue::Adequate(t) => seq!['?', ' '] + reference_text(*t),
            KijunValue::UpperBound(t) => seq!['-', ' '] + reference_text(*t),
            KijunValue::LowerBound(t) => seq!['+', ' '] + reference_text(*t),
            KijunValue::Range(min, max) => reference_text(*min) + seq![' ', '~', ' '] + reference_text(*max),
        }
    }

    pub fn to_string(&self) -> (r: String)
        ensures
            r@ == self.display(),
    {
        let mut s = String::new();
        proof {
            reveal_strlit("= ");
            reveal_strlit("? ");
            reveal_strlit("- ");
            reveal_strlit("+ ");
            reveal_strlit(" ~ ");
        }
        match self {
            KijunValue::Recommended(t) => {
                s.append("= ");
                push_reference(&mut s, *t);
            },
            KijunValue::Adequate(t) => {
                s.append("? ");
                push_reference(&mut s, *t);
            },
            KijunValue::UpperBound(t) => {
                s.append("- ");
                push_reference(&mut s, *t);
            },
            KijunValue::LowerBound(t) => {
                s.append("+ ");
                push_reference(&mut s, *t);
            },
            KijunValue::Range(min, max) => {
                push_reference(&mut s, *min);
                s.append(" ~ ");
                push_reference(&mut s, *max);
            },
        }
        assert(s@ =~= self.display());
        s
    }

    /// Whether every bound times `days` still fits in a `u64`.
    pub open spec fn fits_days(&self, days: u64) -> bool {
        match self {
            KijunValue::Recommended(t) => *t as int * days <= u64::MAX,
            KijunValue::Adequate(t) => *t as int * days <= u64::MAX,
            KijunValue::UpperBound(t) => *t as int * days <= u64::MAX,
            KijunValue::LowerBound(t) => *t as int * days <= u64::MAX,
            KijunValue::Range(min, max) => *min as int * days <= u64::MAX && *max as int * days <= u64::MAX,
        }
    }

    /// The reference for `days` days.
    pub open spec fn times(&self, days: u64) -> KijunValue {
        match self {
            KijunValue::Recommended(t) => KijunValue::Recommended((*t * days) as u64),
            KijunValue::Adequate(t) => KijunValue::Adequate((*t * days) as u64),
            KijunValue::UpperBound(t) => KijunValue::UpperBound((*t * days) as u64),
            KijunValue::LowerBound(t) => KijunValue::LowerBound((*t * days) as u64),
            KijunValue::Range(min, max) => KijunValue::Range((*min * days) as u64, (*max * days) as u64),
        }
    }

    /// `value` fully meets the reference: at least the target of a recommendation, an adequate
    /// amount or a lower bound, at most an upper bound, within a range.
    pub open spec fn satisfied(&self, value: int) -> bool {
        match self {
            KijunValue::Recommended(t) => value >= *t,
            KijunValue::Adequate(t) => value >= *t,
            KijunValue::UpperBound(t) => value <= *t,
            KijunValue::LowerBound(t) => value >= *t,
            KijunValue::Range(min, max) => *min <= value <= *max,
        }
    }

    /// `value` goes past a ceiling: above an upper bound, or above the top of a range.
    pub open spec fn exceeds(&self, value: int) -> bool {
        match self {
            KijunValue::UpperBound(t) => value > *t,
            KijunValue::Range(min, max) => value >= *min && value > *max,
            _ => false,
        }
    }

    /// Whether going past the reference is penalised.
    pub open spec fn is_ceiling(&self) -> bool {
        match self {
            KijunValue::UpperBound(_) => true,
            KijunValue::Range(_, _) => true,
            _ => false,
        }
    }

    /// The share that counts towards a meal's score: past one hundred percent, a ceiling
    /// counts the excess against the meal, and any other kind counts one hundred percent.
    pub open spec fn adjusted(&self, value: int) -> int {
        let p = self.percentage(value);
        if p > FULL {
            if self.is_ceiling() {
                FULL - p
            } else {
                FULL as int
            }
        } else {
            p
        }
    }

    pub fn get_percentage(&self, value: u64) -> (r: i128)
        requires
            self.valid(),
        ensures
            r == self.percentage(value as int),
            0 <= r <= (u64::MAX as int) * (FULL as int),
    {
        match self {
            KijunValue::Recommended(t) => percent_exec(value, *t),
            KijunValue::Adequate(t) => percent_exec(value, *t),
            KijunValue::UpperBound(t) => if value <= *t {
                FULL
            } else {
                percent_up_exec(value, *t)
            },
            KijunValue::LowerBound(t) => if value >= *t {
                FULL
            } else {
                percent_exec(value, *t)
            },
            KijunValue::Range(min, max) => if value < *min {
                percent_exec(value, *min)
            } else if value > *max {
                percent_up_exec(value, *max)
            } else {
                FULL
            },
        }
    }

    /// Turns a daily reference into one for `days` days.
    pub fn change_days(&mut self, days: u64)
        requires
            old(self).fits_days(days),
        ensures
            *final(self) == old(self).times(days),
    {
        *self = match *self {
            KijunValue::Recommended(t) => KijunValue::Recommended(t * days),
            KijunValue::Adequate(t) => KijunValue::Adequate(t * days),
            KijunValue::UpperBound(t) => KijunValue::UpperBound(t * days),
            KijunValue::LowerBound(t) => KijunValue::LowerBound(t * days),
            KijunValue::Range(min, max) => KijunValue::Range(min * days, max * days),
        };
    }
}

/// The scored position of a nutrient known under a name of its own: vitamin A (the retinol
/// activity equivalent), vitamin E (alpha-tocopherol) and dietary fibre (its total).
pub open spec fn alias_position(key: Seq<char>) -> Option<int> {
    if key == "ビタミンA"@ {
        Some(7)
    } else if key == "ビタミンE"@ {
        Some(9)
    } else if key == "食物繊維"@ {
        Some(6)
    } else {
        None
    }
}

fn alias_position_of(key: &str) -> (r: Option<usize>)
    ensures
        r matches Some(t) ==> alias_position(key@) == Some(t as int) && t < TRACKED_COUNT,
        r is None ==> alias_position(key@) is None,
{
    let k = key.to_owned();
    if k == "ビタミンA".to_owned() {
        Some(7)
    } else if k == "ビタミンE".to_owned() {
        Some(9)
    } else if k == "食物繊維".to_owned() {
        Some(6)
    } else {
        None
    }
}

/// Physical activity level.
#[derive(Clone, Copy, Debug, PartialEq, Eq, Structural)]
pub enum PAL {
    Low,
    Moderate,
    High,
}

#[derive(Clone, Copy, Debug, PartialEq, Eq, Structural)]
pub enum Gender {
    Female,
    Male,
}

/// The reference intakes of one person over a number of days, one per scored nutrient
/// (`None` where no reference is defined for that person).
pub struct Kijun {
    pub age: u64,
    pub gender: Gender,
    pub pal: PAL,
    pub days: u64,
    data_list: Vec<Option<KijunValue>>,
}

impl View for Kijun {
    type V = Seq<Option<KijunValue>>;

    closed spec fn view(&self) -> Seq<Option<KijunValue>> {
        self.data_list@
    }
}

impl Kijun {
    pub open spec fn wf(&self) -> bool {
        &&& self@.len() == TRACKED_COUNT
        &&& forall|t: int| 0 <= t < TRACKED_COUNT ==> (#[trigger] self@[t] matches Some(k) ==> k.valid())
    }

    /// The references of a person for `days` days, from their daily references `per_day`
    /// (one per scored nutrient, in the order of `tracked_field`).
    pub fn new(age: u64, gender: Gender, pal: PAL, days: u64, per_day: Vec<Option<KijunValue>>) -> (r: Kijun)
        requires
            per_day@.len() == TRACKED_COUNT,
            days >= 1,
            forall|t: int|
                0 <= t < TRACKED_COUNT ==> (#[trigger] per_day@[t] matches Some(k) ==> k.valid() && k.fits_days(days)),
        ensures
            r.wf(),
            forall|t: int|
                0 <= t < TRACKED_COUNT ==> #[trigger] r@[t] == match per_day@[t] {
                    Some(k) => Some(k.times(days)),
                    None => None,
                },
    {
        let mut data_list: Vec<Option<KijunValue>> = Vec::with_capacity(TRACKED_COUNT);
        let mut t: usize = 0;
        while t < TRACKED_COUNT
            invariant
                t <= TRACKED_COUNT,
                per_day@.len() == TRACKED_COUNT,
                days >= 1,
                forall|q: int|
                    0 <= q < TRACKED_COUNT ==> (#[trigger] per_day@[q] matches Some(k) ==> k.valid() && k.fits_days(days)),
                data_list@.len() == t,
                forall|q: int|
                    0 <= q < t ==> #[trigger] data_list@[q] == match per_day@[q] {
                        Some(k) => Some(k.times(days)),
                        None => None,
                    },
                forall|q: int| 0 <= q < t ==> (#[trigger] data_list@[q] matches Some(k) ==> k.valid()),
            decreases TRACKED_COUNT - t,
        {
            match per_day[t] {
                Some(k) => {
                    let mut k2 = k;
                    k2.change_days(days);
                    proof {
                        lemma_times_valid(k, days);
                    }
                    data_list.push(Some(k2));
                },
                None => data_list.push(None),
            }
            t = t + 1;
        }
        Kijun { age, gender, pal, days, data_list }
    }

    /// The reference for the nutrient that `key` names, if it is scored and has one.
    pub open spec fn reference_for(&self, key: Seq<char>) -> Option<KijunValue> {
        match alias_position(key) {
            Some(t) => self@[t],
            None => match index_of(key) {
                Some(f) => match tracked_position_from(f, 0) {
                    Some(t) => self@[t],
                    None => None,
                },
                None => None,
            },
        }
    }

    /// The references for the nutrients that `keys` name, in the order of `keys`.
    pub fn get_list(&self, keys: &[&str]) -> (r: Vec<Option<KijunValue>>)
        requires
            self.wf(),
        ensures
            r@.len() == keys@.len(),
            forall|j: int| 0 <= j < keys@.len() ==> #[trigger] r@[j] == self.reference_for(keys@[j]@),
    {
        let mut list: Vec<Option<KijunValue>> = Vec::with_capacity(keys.len());
        let mut j: usize = 0;
        while j < keys.len()
            invariant
                self.wf(),
                j <= keys@.len(),
                list@.len() == j,
                forall|q: int| 0 <= q < j ==> #[trigger] list@[q] == self.reference_for(keys@[q]@),
            decreases keys@.len() - j,
        {
            list.push(self.get(keys[j]));
            j = j + 1;
        }
        list
    }

    /// The reference for the `t`-th scored nutrient.
    pub fn get_at(&self, t: usize) -> (r: Option<KijunValue>)
        requires
            self.wf(),
            t < TRACKED_COUNT,
        ensures
            r == self@[t as int],
    {
        self.data_list[t]
    }

    /// The reference for the nutrient that `key` names; `None` for a name that is not scored.
    pub fn get(&self, key: &str) -> (r: Option<KijunValue>)
        requires
            self.wf(),
        ensures
            r == self.reference_for(key@),
    {
        if let Some(t) = alias_position_of(key) {
            return self.data_list[t];
        }
        let f = match field_index(key) {
            Some(f) => f,
            None => return None,
        };
        let mut t: usize = 0;
        while t < TRACKED_COUNT
            invariant
                self.wf(),
                t <= TRACKED_COUNT,
                alias_position(key@) is None,
                index_of(key@) == Some(f as int),
                tracked_position_from(f as int, 0) == tracked_position_from(f as int, t as int),
            decreases TRACKED_COUNT - t,
        {
            if tracked_field_at(t) == f {
                return self.data_list[t];
            }
            t = t + 1;
        }
        None
    }
}

proof fn lemma_share_below(v: int, t: int)
    requires
        0 <= v < t,
    ensures
        0 <= percent_of(v, t) < FULL,
{
    let f = FULL as int;
    assert(v * f < t * f) by (nonlinear_arith)
        requires
            v < t,
            f > 0,
    ;
    assert(v * f / t < f) by (nonlinear_arith)
        requires
            v * f < t * f,
            t > 0,
    ;
    assert(v * f / t >= 0) by (nonlinear_arith)
        requires
            v >= 0,
            t > 0,
            f > 0,
    ;
}

proof fn lemma_share_reached(v: int, t: int)
    requires
        0 < t <= v,
    ensures
        percent_of(v, t) >= FULL,
{
    let f = FULL as int;
    assert(v * f >= t * f) by (nonlinear_arith)
        requires
            v >= t,
            f > 0,
    ;
    assert(v * f / t >= f) by (nonlinear_arith)
        requires
            v * f >= t * f,
            t > 0,
    ;
}

proof fn lemma_share_past(v: int, t: int)
    requires
        0 < t < v,
    ensures
        percent_up(v, t) > FULL,
{
    let f = FULL as int;
    assert((v * f + t - 1) / t > f) by (nonlinear_arith)
        requires
            t >= 1,
            v >= t + 1,
            f >= 1,
    ;
}

/// The adjusted share of a valid reference is at most one hundred percent, exactly one
/// hundred percent when the amount fully meets the reference, and below zero when it goes
/// past a ceiling.
pub proof fn lemma_adjusted_cases(k: KijunValue, v: int)
    requires
        k.valid(),
        v >= 0,
    ensures
        k.adjusted(v) <= FULL,
        k.adjusted(v) == FULL <==> k.satisfied(v),
        k.exceeds(v) ==> k.adjusted(v) < 0,
{
    match k {
        KijunValue::Recommended(t) | KijunValue::Adequate(t) | KijunValue::LowerBound(t) => {
            if v < t {
                lemma_share_below(v, t as int);
            } else {
                lemma_share_reached(v, t as int);
            }
        },
        KijunValue::UpperBound(t) => {
            if v > t {
                lemma_share_past(v, t as int);
            }
        },
        KijunValue::Range(min, max) => {
            if v < min {
                lemma_share_below(v, min as int);
            } else if v > max {
                lemma_share_past(v, max as int);
            }
        },
    }
}

proof fn lemma_times_valid(k: KijunValue, days: u64)
    requires
        k.valid(),
        k.fits_days(days),
        days >= 1,
    ensures
        k.times(days).valid(),
{
    match k {
        KijunValue::Range(min, max) => {
            assert(min as int * days >= min) by (nonlinear_arith)
                requires
                    days >= 1,
                    min > 0,
            ;
            assert(max as int * days >= max) by (nonlinear_arith)
                requires
                    days >= 1,
                    max > 0,
            ;
        },
        KijunValue::Recommended(t) | KijunValue::Adequate(t) | KijunValue::UpperBound(t) | KijunValue::LowerBound(t) => {
            assert(t as int * days >= t) by (nonlinear_arith)
                requires
                    days >= 1,
                    t > 0,
            ;
        },
    }
}

} // verus!
