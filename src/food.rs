use vstd::prelude::*;

use crate::food_data::{scaled, FoodData};
use vstd::arithmetic::div_mod::{lemma_div_multiples_vanish, lemma_fundamental_div_mod, lemma_mod_pos_bound};

verus! {

/// The number of fields of a food record.
pub const FIELD_COUNT: usize = 69;

/// The field that holds the weight of the portion, in thousandths of a gram.
pub const WEIGHT: usize = 4;

/// The field that holds the food's name.
pub const NAME: usize = 3;

/// The field that holds the food's number in the composition tables.
pub const NUMBER: usize = 1;

/// The field that holds the energy in kilocalories.
pub const ENERGY: usize = 6;

/// The last numeric field of a record: every field from the weight up to it scales with the
/// weight of the portion.
pub const LAST_SCALED: usize = 67;

/// The field that holds the remark.
pub const REMARK: usize = 68;

/// The name of field `i`, in the vocabulary of the food composition tables.
pub open spec fn field_name(i: int) -> Seq<char> {
    if i == 0 {
        "食品群"@
    } else if i == 1 {
        "食品番号"@
    } else if i == 2 {
        "索引番号"@
    } else if i == 3 {
        "食品名"@
    } else if i == 4 {
        "重量"@
    } else if i == 5 {
        "廃棄率"@
    } else if i == 6 {
        "エネルギー（kcal）"@
    } else if i == 7 {
        "エネルギー（kJ)"@
    } else if i == 8 {
        "水分"@
    } else if i == 9 {
        "たんぱく質"@
    } else if i == 10 {
        "アミノ酸組成によるたんぱく質"@
    } else if i == 11 {
        "脂質"@
    } else if i == 12 {
        "トリアシルグリセロール当量"@
    } else if i == 13 {
        "飽和脂肪酸"@
    } else if i == 14 {
        "一価不飽和脂肪酸"@
    } else if i == 15 {
        "多価不飽和脂肪酸"@
    } else if i == 16 {
        "コレステロール"@
    } else if i == 17 {
        "炭水化物"@
    } else if i == 18 {
        "利用可能炭水化物（単糖当量）"@
    } else if i == 19 {
        "水溶性食物繊維"@
    } else if i == 20 {
        "不溶性食物繊維"@
    } else if i == 21 {
        "食物繊維総量"@
    } else if i == 22 {
        "灰分"@
    } else if i == 23 {
        "ナトリウム"@
    } else if i == 24 {
        "カリウム"@
    } else if i == 25 {
        "カルシウム"@
    } else if i == 26 {
        "マグネシウム"@
    } else if i == 27 {
        "リン"@
    } else if i == 28 {
        "鉄"@
    } else if i == 29 {
        "亜鉛"@
    } else if i == 30 {
        "銅"@
    } else if i == 31 {
        "マンガン"@
    } else if i == 32 {
        "ヨウ素"@
    } else if i == 33 {
        "セレン"@
    } else if i == 34 {
        "クロム"@
    } else if i == 35 {
        "モリブデン"@
    } else if i == 36 {
        "レチノール"@
    } else if i == 37 {
        "α-カロテン"@
    } else if i == 38 {
        "β-カロテン"@
    } else if i == 39 {
        "β-クリプトキサンチン"@
    } else if i == 40 {
        "β-カロテン当量"@
    } else if i == 41 {
        "レチノール活性当量"@
    } else if i == 42 {
        "ビタミンD"@
    } else if i == 43 {
        "α-トコフェロール"@
    } else if i == 44 {
        "β-トコフェロール"@
    } else if i == 45 {
        "γ-トコフェロール"@
    } else if i == 46 {
        "δ-トコフェロール"@
    } else if i == 47 {
        "ビタミンK"@
    } else if i == 48 {
        "ビタミンB1"@
    } else if i == 49 {
        "ビタミンB2"@
    } else if i == 50 {
        "ナイアシン"@
    } else if i == 51 {
        "ビタミンB6"@
    } else if i == 52 {
        "ビタミンB12"@
    } else if i == 53 {
        "葉酸"@
    } else if i == 54 {
        "パントテン酸"@
    } else if i == 55 {
        "ビオチン"@
    } else if i == 56 {
        "ビタミンC"@
    } else if i == 57 {
        "食塩相当量"@
    } else if i == 58 {
        "アルコール"@
    } else if i == 59 {
        "硝酸イオン"@
    } else if i == 60 {
        "テオブロミン"@
    } else if i == 61 {
        "カフェイン"@
    } else if i == 62 {
        "タンニン"@
    } else if i == 63 {
        "ポリフェノール"@
    } else if i == 64 {
        "酢酸"@
    } else if i == 65 {
        "調理油"@
    } else if i == 66 {
        "有機酸"@
    } else if i == 67 {
        "重量変化率"@
    } else if i == 68 {
        "備考"@
    } else {
        Seq::empty()
    }
}

/// The other name under which the energy in kilocalories is known.
pub open spec fn energy_alias() -> Seq<char> {
    "エネルギー"@
}

/// The first field at or after `i` whose name is `name`.
pub open spec fn index_from(name: Seq<char>, i: int) -> Option<int>
    decreases FIELD_COUNT - i,
{
    if i < 0 || i >= FIELD_COUNT {
        None
    } else if field_name(i) == name {
        Some(i)
    } else {
        index_from(name, i + 1)
    }
}

/// The field that a name designates, if any.
pub open spec fn index_of(name: Seq<char>) -> Option<int> {
    if name == energy_alias() {
        Some(ENERGY as int)
    } else {
        index_from(name, 0)
    }
}

/// Fields that identify a food (group, number, index, name) or annotate it (remark).
pub open spec fn is_identity_field(i: int) -> bool {
    i < WEIGHT || i == REMARK
}

/// Fields whose amount is proportional to the weight of the portion.
pub open spec fn is_scaled_field(i: int) -> bool {
    WEIGHT <= i <= LAST_SCALED
}

pub fn field_name_at(i: usize) -> (r: &'static str)
    requires
        i < FIELD_COUNT,
    ensures
        r@ == field_name(i as int),
{
    match i {
        0 => "食品群",
        1 => "食品番号",
        2 => "索引番号",
        3 => "食品名",
        4 => "重量",
        5 => "廃棄率",
        6 => "エネルギー（kcal）",
        7 => "エネルギー（kJ)",
        8 => "水分",
        9 => "たんぱく質",
        10 => "アミノ酸組成によるたんぱく質",
        11 => "脂質",
        12 => "トリアシルグリセロール当量",
        13 => "飽和脂肪酸",
        14 => "一価不飽和脂肪酸",
        15 => "多価不飽和脂肪酸",
        16 => "コレステロール",
        17 => "炭水化物",
        18 => "利用可能炭水化物（単糖当量）",
        19 => "水溶性食物繊維",
        20 => "不溶性食物繊維",
        21 => "食物繊維総量",
        22 => "灰分",
        23 => "ナトリウム",
        24 => "カリウム",
        25 => "カルシウム",
        26 => "マグネシウム",
        27 => "リン",
        28 => "鉄",
        29 => "亜鉛",
        30 => "銅",
        31 => "マンガン",
        32 => "ヨウ素",
        33 => "セレン",
        34 => "クロム",
        35 => "モリブデン",
        36 => "レチノール",
        37 => "α-カロテン",
        38 => "β-カロテン",
        39 => "β-クリプトキサンチン",
        40 => "β-カロテン当量",
        41 => "レチノール活性当量",
        42 => "ビタミンD",
        43 => "α-トコフェロール",
        44 => "β-トコフェロール",
        45 => "γ-トコフェロール",
        46 => "δ-トコフェロール",
        47 => "ビタミンK",
        48 => "ビタミンB1",
        49 => "ビタミンB2",
        50 => "ナイアシン",
        51 => "ビタミンB6",
        52 => "ビタミンB12",
        53 => "葉酸",
        54 => "パントテン酸",
        55 => "ビオチン",
        56 => "ビタミンC",
        57 => "食塩相当量",
        58 => "アルコール",
        59 => "硝酸イオン",
        60 => "テオブロミン",
        61 => "カフェイン",
        62 => "タンニン",
        63 => "ポリフェノール",
        64 => "酢酸",
        65 => "調理油",
        66 => "有機酸",
        67 => "重量変化率",
        _ => "備考",
    }
}

fn same_text(a: &str, b: &str) -> (r: bool)
    ensures
        r == (a@ == b@),
{
    a.to_owned() == b.to_owned()
}

/// Finds the field that `name` designates.
pub fn field_index(name: &str) -> (r: Option<usize>)
    ensures
        r matches Some(i) ==> index_of(name@) == Some(i as int) && i < FIELD_COUNT,
        r is None ==> index_of(name@) is None,
{
    if same_text(name, "エネルギー") {
        return Some(ENERGY);
    }
    let mut i: usize = 0;
    while i < FIELD_COUNT
        invariant
            i <= FIELD_COUNT,
            index_of(name@) == index_from(name@, i as int),
        decreases FIELD_COUNT - i,
    {
        if same_text(name, field_name_at(i)) {
            return Some(i);
        }
        i = i + 1;
    }
    None
}

/// The record of one food: one cell per field, in the order of `field_name`.
pub struct Food {
    data_list: Vec<FoodData>,
}

/// The cells of a food with its identifying fields emptied.
pub open spec fn stripped(cells: Seq<FoodData>) -> Seq<FoodData> {
    Seq::new(cells.len(), |i: int| if is_identity_field(i) { FoodData::Absent } else { cells[i] })
}

/// The cells of a food scaled from the base weight `base` to the weight `weight`.
pub open spec fn rescaled(cells: Seq<FoodData>, weight: u64, base: u64) -> Seq<FoodData> {
    Seq::new(
        cells.len(),
        |i: int|
            if is_scaled_field(i) {
                cells[i].rated(weight, base)
            } else {
                cells[i]
            },
    )
}

/// The cells of the sum of two foods: every amount added, the identifying fields emptied.
pub open spec fn summed(a: Seq<FoodData>, b: Seq<FoodData>) -> Seq<FoodData> {
    Seq::new(
        a.len(),
        |i: int|
            if is_identity_field(i) {
                FoodData::Absent
            } else {
                a[i].added(&b[i])
            },
    )
}

impl View for Food {
    type V = Seq<FoodData>;

    closed spec fn view(&self) -> Seq<FoodData> {
        self.data_list@
    }
}

impl Food {
    pub open spec fn wf(&self) -> bool {
        self@.len() == FIELD_COUNT
    }

    /// A record with no data in any field.
    pub fn new() -> (r: Food)
        ensures
            r.wf(),
            forall|i: int| 0 <= i < FIELD_COUNT ==> r@[i] == FoodData::Absent,
    {
        let mut data_list: Vec<FoodData> = Vec::with_capacity(FIELD_COUNT);
        let mut i: usize = 0;
        while i < FIELD_COUNT
            invariant
                i <= FIELD_COUNT,
                data_list@.len() == i,
                forall|j: int| 0 <= j < i ==> data_list@[j] == FoodData::Absent,
            decreases FIELD_COUNT - i,
        {
            data_list.push(FoodData::Absent);
            i = i + 1;
        }
        Food { data_list }
    }

    pub fn copy(&self) -> (r: Food)
        ensures
            r@ == self@,
    {
        let mut data_list: Vec<FoodData> = Vec::with_capacity(self.data_list.len());
        let mut i: usize = 0;
        while i < self.data_list.len()
            invariant
                i <= self@.len(),
                data_list@ == self@.subrange(0, i as int),
            decreases self@.len() - i,
        {
            data_list.push(self.data_list[i].copy());
            i = i + 1;
            assert(data_list@ =~= self@.subrange(0, i as int));
        }
        assert(data_list@ =~= self@);
        Food { data_list }
    }

    /// The cell of field `i`.
    pub fn cell(&self, i: usize) -> (r: &FoodData)
        requires
            self.wf(),
            i < FIELD_COUNT,
        ensures
            *r == self@[i as int],
    {
        &self.data_list[i]
    }

    /// The same food with its identifying fields emptied.
    pub fn without_identity(&self) -> (r: Food)
        requires
            self.wf(),
        ensures
            r.wf(),
            r@ == stripped(self@),
    {
        let mut data_list: Vec<FoodData> = Vec::with_capacity(FIELD_COUNT);
        let mut i: usize = 0;
        while i < FIELD_COUNT
            invariant
                self.wf(),
                i <= FIELD_COUNT,
                data_list@ == stripped(self@).subrange(0, i as int),
            decreases FIELD_COUNT - i,
        {
            if i < WEIGHT || i == REMARK {
                data_list.push(FoodData::Absent);
            } else {
                data_list.push(self.data_list[i].copy());
            }
            i = i + 1;
            assert(data_list@ =~= stripped(self@).subrange(0, i as int));
        }
        assert(data_list@ =~= stripped(self@));
        Food { data_list }
    }

    /// The cell of the field that `name` designates.
    pub fn get(&self, name: &str) -> (r: Option<&FoodData>)
        requires
            self.wf(),
        ensures
            match index_of(name@) {
                Some(i) => r == Some(&self@[i]),
                None => r is None,
            },
    {
        match field_index(name) {
            Some(i) => Some(&self.data_list[i]),
            None => None,
        }
    }

    /// The cells of the fields that `keys` designate, in the order of `keys`.
    pub fn get_list(&self, keys: &[&str]) -> (r: Vec<Option<&FoodData>>)
        requires
            self.wf(),
        ensures
            r@.len() == keys@.len(),
            forall|j: int|
                0 <= j < keys@.len() ==> #[trigger] r@[j] == match index_of(keys@[j]@) {
                    Some(i) => Some(&self@[i]),
                    None => None,
                },
    {
        let mut list: Vec<Option<&FoodData>> = Vec::with_capacity(keys.len());
        let mut j: usize = 0;
        while j < keys.len()
            invariant
                self.wf(),
                j <= keys@.len(),
                list@.len() == j,
                forall|q: int|
                    0 <= q < j ==> #[trigger] list@[q] == match index_of(keys@[q]@) {
                        Some(i) => Some(&self@[i]),
                        None => None,
                    },
            decreases keys@.len() - j,
        {
            list.push(self.get(keys[j]));
            j = j + 1;
        }
        list
    }

    /// Stores `value` in the field that `name` designates; an unknown name changes nothing.
    pub fn set(&mut self, name: &str, value: FoodData)
        requires
            old(self).wf(),
        ensures
            final(self).wf(),
            final(self)@ == match index_of(name@) {
                Some(i) => old(self)@.update(i, value),
                None => old(self)@,
            },
    {
        if let Some(i) = field_index(name) {
            self.data_list.set(i, value);
        }
    }

    /// The same food in a portion of `weight` thousandths of a gram: every amount that
    /// follows the weight is multiplied by `weight / base`, where `base` is the recorded
    /// weight. `None` when the recorded weight is not a number or is zero.
    pub fn change_weight(&self, weight: u64) -> (r: Option<Food>)
        requires
            self.wf(),
        ensures
            match self@[WEIGHT as int].number() {
                Some(base) if base > 0 => r matches Some(f) && f@ == rescaled(self@, weight, base),
                _ => r is None,
            },
    {
        let base = match self.data_list[WEIGHT].get_number() {
            Some(base) => base,
            None => return None,
        };
        if base == 0 {
            return None;
        }
        let mut data_list: Vec<FoodData> = Vec::with_capacity(FIELD_COUNT);
        let mut i: usize = 0;
        while i < FIELD_COUNT
            invariant
                self.wf(),
                base > 0,
                self@[WEIGHT as int].number() == Some(base),
                i <= FIELD_COUNT,
                data_list@ == rescaled(self@, weight, base).subrange(0, i as int),
            decreases FIELD_COUNT - i,
        {
            if WEIGHT <= i && i <= LAST_SCALED {
                data_list.push(self.data_list[i].rate(weight, base));
            } else {
                data_list.push(self.data_list[i].copy());
            }
            i = i + 1;
            assert(data_list@ =~= rescaled(self@, weight, base).subrange(0, i as int));
        }
        assert(data_list@ =~= rescaled(self@, weight, base));
        Some(Food { data_list })
    }

    /// The field-by-field sum of two foods; the identifying fields of the sum hold no data.
    pub fn add(&self, food: &Food) -> (r: Food)
        requires
            self.wf(),
            food.wf(),
        ensures
            r.wf(),
            r@ == summed(self@, food@),
    {
        let mut data_list: Vec<FoodData> = Vec::with_capacity(FIELD_COUNT);
        let mut i: usize = 0;
        while i < FIELD_COUNT
            invariant
                self.wf(),
                food.wf(),
                i <= FIELD_COUNT,
                data_list@ == summed(self@, food@).subrange(0, i as int),
            decreases FIELD_COUNT - i,
        {
            if i < WEIGHT || i == REMARK {
                data_list.push(FoodData::Absent);
            } else {
                data_list.push(self.data_list[i].add(&food.data_list[i]));
            }
            i = i + 1;
            assert(data_list@ =~= summed(self@, food@).subrange(0, i as int));
        }
        assert(data_list@ =~= summed(self@, food@));
        Food { data_list }
    }
}

/// `a` and `b` are the same cell, or amounts of the same kind where `a` falls short of `b`
/// by at most `tol`.
pub open spec fn within(a: FoodData, b: FoodData, tol: int) -> bool {
    match (a, b) {
        (FoodData::Number(x), FoodData::Number(y)) => x <= y <= x + tol,
        (FoodData::Estimated(x), FoodData::Estimated(y)) => x <= y <= x + tol,
        _ => a == b,
    }
}

proof fn lemma_div_facts(x: int, d: int)
    requires
        x >= 0,
        d > 0,
    ensures
        d * (x / d) <= x < d * (x / d) + d,
        x / d >= 0,
{
    lemma_fundamental_div_mod(x, d);
    lemma_mod_pos_bound(x, d);
    assert(x / d >= 0) by (nonlinear_arith)
        requires
            x >= 0,
            d > 0,
            d * (x / d) <= x < d * (x / d) + d,
    ;
}

proof fn lemma_rescale_twice_amount(v: int, b: int, w1: int, w2: int)
    requires
        v >= 0,
        b > 0,
        w1 > 0,
        w2 >= 0,
    ensures
        (v * w1 / b) * w2 / w1 <= v * w2 / b,
        v * w2 / b <= (v * w1 / b) * w2 / w1 + w2 / w1 + 1,
        (v * w2 / b - (v * w1 / b) * w2 / w1) * (v * w1 / b) <= v * w2 / b + v * w1 / b,
{
    let v1 = v * w1 / b;
    assert(v * w1 >= 0 && v * w2 >= 0) by (nonlinear_arith)
        requires
            v >= 0,
            w1 > 0,
            w2 >= 0,
    ;
    lemma_div_facts(v * w1, b);
    assert(v1 * w2 >= 0) by (nonlinear_arith)
        requires
            v1 >= 0,
            w2 >= 0,
    ;
    let v2 = v1 * w2 / w1;
    let d = v * w2 / b;
    lemma_div_facts(v1 * w2, w1);
    lemma_div_facts(v * w2, b);
    lemma_div_facts(w2, w1);
    let t = w2 / w1;
    // v2 <= d
    assert(v2 * b * w1 <= v * w2 * w1) by (nonlinear_arith)
        requires
            w1 * v2 <= v1 * w2,
            b * v1 <= v * w1,
            b > 0,
            w2 >= 0,
    ;
    assert(v2 * b <= v * w2) by (nonlinear_arith)
        requires
            v2 * b * w1 <= v * w2 * w1,
            w1 > 0,
    ;
    assert(v2 <= d) by (nonlinear_arith)
        requires
            v2 * b <= v * w2,
            v * w2 < b * d + b,
            b > 0,
    ;
    // d <= v2 + t + 1
    assert(d * b * w1 <= (v1 + 1) * b * w2) by (nonlinear_arith)
        requires
            b * d <= v * w2,
            v * w1 < b * v1 + b,
            w1 > 0,
            w2 >= 0,
            b > 0,
    ;
    assert(d * w1 <= (v1 + 1) * w2) by (nonlinear_arith)
        requires
            d * b * w1 <= (v1 + 1) * b * w2,
            b > 0,
    ;
    assert((d - v2 - 1) * w1 < w2) by (nonlinear_arith)
        requires
            d * w1 <= (v1 + 1) * w2,
            v1 * w2 < w1 * v2 + w1,
    ;
    assert(d - v2 - 1 < t + 1) by (nonlinear_arith)
        requires
            (d - v2 - 1) * w1 < w2,
            w2 < w1 * t + w1,
            w1 > 0,
    ;
    // (d - v2) * v1 <= d + v1
    assert(v1 * w2 * b <= v * w2 * w1) by (nonlinear_arith)
        requires
            b * v1 <= v * w1,
            w2 >= 0,
    ;
    assert(v1 * w2 < (d + 1) * w1) by (nonlinear_arith)
        requires
            v1 * w2 * b <= v * w2 * w1,
            v * w2 < b * d + b,
            w1 > 0,
            b > 0,
    ;
    assert((d - v2) * w1 < w2 + w1) by (nonlinear_arith)
        requires
            (d - v2 - 1) * w1 < w2,
    ;
    assert((d - v2) * v1 * w1 <= (w2 + w1) * v1) by (nonlinear_arith)
        requires
            (d - v2) * w1 < w2 + w1,
            v1 >= 0,
    ;
    assert((d - v2) * v1 < d + 1 + v1) by (nonlinear_arith)
        requires
            (d - v2) * v1 * w1 <= (w2 + w1) * v1,
            v1 * w2 < (d + 1) * w1,
            w1 > 0,
    ;
}

proof fn lemma_scaled_exact(b: u64, w: u64)
    requires
        b > 0,
    ensures
        scaled(b, w, b) == w,
{
    lemma_div_multiples_vanish(w as int, b as int);
    assert((b as int) * (w as int) == (w as int) * (b as int)) by (nonlinear_arith);
}

/// Scaling a food to the weight `w1` and the result to the weight `w2` matches scaling it to
/// `w2` at once, up to rounding: the weight becomes exactly `w2`, text and missing data are
/// kept, and each amount falls short of the directly scaled one by at most `w2 / w1 + 1`
/// thousandths; relative to the direct amount `y`, the shortfall is at most `1/m + 1/y`, where
/// `m` is the amount after the first step. Amounts that would not fit in a `u64` are left out.
pub proof fn lemma_change_weight_twice(cells: Seq<FoodData>, b: u64, w1: u64, w2: u64)
    requires
        cells.len() == FIELD_COUNT,
        cells[WEIGHT as int].number() == Some(b),
        b > 0,
        w1 > 0,
        forall|i: int|
            0 <= i < FIELD_COUNT && is_scaled_field(i) && (#[trigger] cells[i].number()) is Some ==> {
                let v = cells[i].number().unwrap() as int;
                &&& v * (w1 as int) / (b as int) <= u64::MAX
                &&& v * (w2 as int) / (b as int) <= u64::MAX
            },
    ensures
        rescaled(cells, w1, b)[WEIGHT as int].number() == Some(w1),
        rescaled(rescaled(cells, w1, b), w2, w1)[WEIGHT as int] == rescaled(cells, w2, b)[WEIGHT as int],
        rescaled(rescaled(cells, w1, b), w2, w1)[WEIGHT as int].number() == Some(w2),
        forall|i: int|
            0 <= i < FIELD_COUNT ==> within(
                #[trigger] rescaled(rescaled(cells, w1, b), w2, w1)[i],
                rescaled(cells, w2, b)[i],
                w2 / w1 + 1,
            ),
        forall|i: int|
            0 <= i < FIELD_COUNT && is_scaled_field(i) && (#[trigger] cells[i].number()) is Some ==> {
                let m = rescaled(cells, w1, b)[i].number().unwrap() as int;
                let x = rescaled(rescaled(cells, w1, b), w2, w1)[i].number().unwrap() as int;
                let y = rescaled(cells, w2, b)[i].number().unwrap() as int;
                (y - x) * m <= y + m
            },
{
    let once = rescaled(cells, w1, b);
    let twice = rescaled(once, w2, w1);
    let direct = rescaled(cells, w2, b);
    lemma_scaled_exact(b, w1);
    lemma_scaled_exact(b, w2);
    lemma_scaled_exact(w1, w2);
    assert forall|i: int|
        0 <= i < FIELD_COUNT && is_scaled_field(i) && (#[trigger] cells[i].number()) is Some implies {
            let m = once[i].number().unwrap() as int;
            let x = twice[i].number().unwrap() as int;
            let y = direct[i].number().unwrap() as int;
            (y - x) * m <= y + m
        } by {
        let v = cells[i].number().unwrap();
        lemma_rescale_twice_amount(v as int, b as int, w1 as int, w2 as int);
        lemma_div_facts(v as int * w1 as int, b as int);
        lemma_div_facts(v as int * w2 as int, b as int);
    }
    assert forall|i: int| 0 <= i < FIELD_COUNT implies within(#[trigger] twice[i], direct[i], w2 / w1 + 1) by {
        if is_scaled_field(i) {
            if let Some(v) = cells[i].number() {
                assert(cells[i].number() is Some);
                lemma_rescale_twice_amount(v as int, b as int, w1 as int, w2 as int);
                lemma_div_facts(v as int * w1 as int, b as int);
                lemma_div_facts(v as int * w2 as int, b as int);
            }
        }
    }
}

} // verus!
