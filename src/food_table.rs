use vstd::prelude::*;

use crate::food::{field_index, index_of, rescaled, stripped, summed, Food, FIELD_COUNT, NAME, NUMBER, WEIGHT};
use vstd::string::StringSliceAdditionalSpecFns;
use vstd::utf8::encode_utf8;
use crate::food_data::FoodData;
use crate::kijun::{lemma_adjusted_cases, tracked_field, tracked_field_at, Kijun, KijunValue, FULL, TRACKED_COUNT};

verus! {

/// The record of no food: no data in any field.
pub open spec fn empty_cells() -> Seq<FoodData> {
    Seq::new(FIELD_COUNT as nat, |i: int| FoodData::Absent)
}

/// The field-by-field sum of a list of foods. The sum of one food is that food without its
/// identifying fields; the sum of none holds no data.
pub open spec fn sum_of(foods: Seq<Seq<FoodData>>) -> Seq<FoodData>
    decreases foods.len(),
{
    if foods.len() == 0 {
        empty_cells()
    } else if foods.len() == 1 {
        stripped(foods[0])
    } else {
        summed(sum_of(foods.drop_last()), foods.last())
    }
}

/// The sum of the adjusted shares of the first `t` scored nutrients; `None` as soon as one of
/// them has no reference or no numeric amount.
pub open spec fn total_upto(targets: Seq<Option<KijunValue>>, cells: Seq<FoodData>, t: int) -> Option<int>
    decreases t,
{
    if t <= 0 {
        Some(0)
    } else {
        match total_upto(targets, cells, t - 1) {
            None => None,
            Some(s) => match (targets[t - 1], cells[tracked_field(t - 1)].number()) {
                (Some(k), Some(v)) => Some(s + k.adjusted(v as int)),
                _ => None,
            },
        }
    }
}

/// `total / count`, rounded toward zero.
pub open spec fn mean_toward_zero(total: int, count: int) -> int {
    if total >= 0 {
        total / count
    } else {
        -((-total) / count)
    }
}

/// The score of the amounts `cells` against the references `targets`: the mean of the
/// adjusted shares of all scored nutrients, in thousandths of a percent.
pub open spec fn score(targets: Seq<Option<KijunValue>>, cells: Seq<FoodData>) -> Option<int> {
    match total_upto(targets, cells, TRACKED_COUNT as int) {
        Some(s) => Some(mean_toward_zero(s, TRACKED_COUNT as int)),
        None => None,
    }
}

/// The largest share, in thousandths of a percent, that an amount can reach.
pub open spec fn max_share() -> int {
    (u64::MAX as int) * (FULL as int)
}

proof fn lemma_none_persists(targets: Seq<Option<KijunValue>>, cells: Seq<FoodData>, t: int, u: int)
    requires
        t <= u,
        total_upto(targets, cells, t) is None,
    ensures
        total_upto(targets, cells, u) is None,
    decreases u - t,
{
    if t < u {
        lemma_none_persists(targets, cells, t, u - 1);
    }
}

/// A single scored nutrient without a reference leaves the whole meal without a score.
pub proof fn lemma_missing_target_scores_none(targets: Seq<Option<KijunValue>>, cells: Seq<FoodData>, t: int)
    requires
        0 <= t < TRACKED_COUNT,
        targets[t] is None,
    ensures
        score(targets, cells) is None,
{
    assert(total_upto(targets, cells, t + 1) is None);
    lemma_none_persists(targets, cells, t + 1, TRACKED_COUNT as int);
}

/// A single scored nutrient without a numeric amount leaves the whole meal without a score.
pub proof fn lemma_missing_amount_scores_none(targets: Seq<Option<KijunValue>>, cells: Seq<FoodData>, t: int)
    requires
        0 <= t < TRACKED_COUNT,
        cells[tracked_field(t)].number() is None,
    ensures
        score(targets, cells) is None,
{
    assert(total_upto(targets, cells, t + 1) is None);
    lemma_none_persists(targets, cells, t + 1, TRACKED_COUNT as int);
}

/// Every reference that `targets` holds is valid.
pub open spec fn targets_valid(targets: Seq<Option<KijunValue>>) -> bool {
    forall|t: int| 0 <= t < TRACKED_COUNT ==> (#[trigger] targets[t] matches Some(k) ==> k.valid())
}

/// The `t`-th scored nutrient has a reference and an amount, and the amount fully meets it.
pub open spec fn nutrient_satisfied(targets: Seq<Option<KijunValue>>, cells: Seq<FoodData>, t: int) -> bool {
    targets[t] matches Some(k) && (cells[tracked_field(t)].number() matches Some(v) && k.satisfied(v as int))
}

/// The `t`-th scored nutrient has a reference and an amount, and the amount goes past its
/// ceiling.
pub open spec fn nutrient_exceeds(targets: Seq<Option<KijunValue>>, cells: Seq<FoodData>, t: int) -> bool {
    targets[t] matches Some(k) && (cells[tracked_field(t)].number() matches Some(v) && k.exceeds(v as int))
}

proof fn lemma_total_shape(targets: Seq<Option<KijunValue>>, cells: Seq<FoodData>, u: int)
    requires
        0 <= u <= TRACKED_COUNT,
        targets_valid(targets),
    ensures
        total_upto(targets, cells, u) matches Some(s) ==> {
            &&& s <= u * FULL
            &&& (s == u * FULL <==> forall|q: int| 0 <= q < u ==> #[trigger] nutrient_satisfied(targets, cells, q))
            &&& forall|q: int| 0 <= q < u && #[trigger] nutrient_exceeds(targets, cells, q) ==> s < u * FULL - FULL
        },
    decreases u,
{
    if u > 0 {
        lemma_total_shape(targets, cells, u - 1);
        if let Some(s) = total_upto(targets, cells, u) {
            let sp = total_upto(targets, cells, u - 1).unwrap();
            let k = targets[u - 1].unwrap();
            let v = cells[tracked_field(u - 1)].number().unwrap();
            assert(targets[u - 1] matches Some(k) ==> k.valid());
            lemma_adjusted_cases(k, v as int);
            assert(s == sp + k.adjusted(v as int));
            if s == u * FULL {
                assert(sp == (u - 1) * FULL);
                assert forall|q: int| 0 <= q < u implies #[trigger] nutrient_satisfied(targets, cells, q) by {
                    if q == u - 1 {
                        assert(k.adjusted(v as int) == FULL);
                    }
                }
            }
            if forall|q: int| 0 <= q < u ==> #[trigger] nutrient_satisfied(targets, cells, q) {
                assert(nutrient_satisfied(targets, cells, u - 1));
                assert forall|q: int| 0 <= q < u - 1 implies #[trigger] nutrient_satisfied(targets, cells, q) by {
                    assert(nutrient_satisfied(targets, cells, q));
                }
            }
        }
    }
}

/// A meal that goes past the ceiling of any scored nutrient (an upper bound, or the top of a
/// range) by any amount scores below `32/33` of one hundred percent, whatever the others.
pub proof fn lemma_excess_over_ceiling_lowers_score(targets: Seq<Option<KijunValue>>, cells: Seq<FoodData>, t: int)
    requires
        targets_valid(targets),
        0 <= t < TRACKED_COUNT,
        nutrient_exceeds(targets, cells, t),
    ensures
        score(targets, cells) matches Some(s) ==> s * TRACKED_COUNT < (TRACKED_COUNT - 1) * FULL,
{
    lemma_total_shape(targets, cells, TRACKED_COUNT as int);
    if let Some(total) = total_upto(targets, cells, TRACKED_COUNT as int) {
        assert(total < 32 * FULL);
        let s = mean_toward_zero(total, 33);
        if total >= 0 {
            assert((total / 33) * 33 <= total) by (nonlinear_arith)
                requires
                    total >= 0,
            ;
        } else {
            assert(-((-total) / 33) <= 0) by (nonlinear_arith)
                requires
                    total < 0,
            ;
        }
    }
}

/// A meal scores exactly one hundred percent when, and only when, every scored nutrient
/// fully meets its reference.
pub proof fn lemma_full_score_iff_satisfied(targets: Seq<Option<KijunValue>>, cells: Seq<FoodData>)
    requires
        targets_valid(targets),
    ensures
        score(targets, cells) matches Some(s) ==> (s == FULL <==> forall|t: int|
            0 <= t < TRACKED_COUNT ==> #[trigger] nutrient_satisfied(targets, cells, t)),
{
    lemma_total_shape(targets, cells, TRACKED_COUNT as int);
    if let Some(total) = total_upto(targets, cells, TRACKED_COUNT as int) {
        if total < 33 * FULL {
            if total >= 0 {
                assert(total / 33 < FULL) by (nonlinear_arith)
                    requires
                        0 <= total < 33 * FULL,
                ;
            } else {
                assert(-((-total) / 33) <= 0) by (nonlinear_arith)
                    requires
                        total < 0,
                ;
            }
        }
    }
}

fn adjusted_share(k: KijunValue, value: u64) -> (r: i128)
    requires
        k.valid(),
    ensures
        r == k.adjusted(value as int),
        -max_share() <= r <= max_share(),
{
    let p = k.get_percentage(value);
    if p > FULL {
        match k {
            KijunValue::UpperBound(_) | KijunValue::Range(_, _) => FULL - p,
            _ => FULL,
        }
    } else {
        p
    }
}

/// The first position at or after `i` of the key `key`.
pub open spec fn key_position_from(keys: Seq<Seq<char>>, key: Seq<char>, i: int) -> Option<int>
    decreases keys.len() - i,
{
    if i < 0 || i >= keys.len() {
        None
    } else if keys[i] == key {
        Some(i)
    } else {
        key_position_from(keys, key, i + 1)
    }
}

/// The foods found under the keys `names`, in the order of `names`; keys that are not
/// found are skipped.
pub open spec fn found(keys: Seq<Seq<char>>, foods: Seq<Seq<FoodData>>, names: Seq<Seq<char>>) -> Seq<Seq<FoodData>>
    decreases names.len(),
{
    if names.len() == 0 {
        Seq::empty()
    } else {
        let rest = found(keys, foods, names.drop_last());
        match key_position_from(keys, names.last(), 0) {
            Some(i) => rest.push(foods[i]),
            None => rest,
        }
    }
}

/// `needle` occurs in `hay` at position `i`.
pub open spec fn occurs_at(hay: Seq<u8>, needle: Seq<u8>, i: int) -> bool {
    0 <= i && i + needle.len() <= hay.len() && hay.subrange(i, i + needle.len()) == needle
}

/// `needle` occurs somewhere in `hay`.
pub open spec fn occurs(hay: Seq<u8>, needle: Seq<u8>) -> bool {
    exists|i: int| occurs_at(hay, needle, i)
}

/// The name of the food `cells`, as written in a table, contains `text`.
pub open spec fn name_has(cells: Seq<FoodData>, text: Seq<char>) -> bool {
    occurs(encode_utf8(cells[NAME as int].display()), encode_utf8(text))
}

/// The name of the food `cells` contains one of `texts`.
pub open spec fn name_has_any(cells: Seq<FoodData>, texts: Seq<Seq<char>>) -> bool {
    exists|j: int| 0 <= j < texts.len() && name_has(cells, #[trigger] texts[j])
}

/// The name of the food `cells` contains every one of `texts`.
pub open spec fn name_has_all(cells: Seq<FoodData>, texts: Seq<Seq<char>>) -> bool {
    forall|j: int| 0 <= j < texts.len() ==> name_has(cells, #[trigger] texts[j])
}

/// The name of the food `cells` contains every one of `texts` (when `every`) or one of them.
pub open spec fn name_accepted(cells: Seq<FoodData>, texts: Seq<Seq<char>>, every: bool) -> bool {
    if every {
        name_has_all(cells, texts)
    } else {
        name_has_any(cells, texts)
    }
}

/// The foods of `foods` whose name `name_accepted` accepts, in order.
pub open spec fn matching_foods(foods: Seq<Seq<FoodData>>, texts: Seq<Seq<char>>, every: bool) -> Seq<Seq<FoodData>>
    decreases foods.len(),
{
    if foods.len() == 0 {
        Seq::empty()
    } else {
        let rest = matching_foods(foods.drop_last(), texts, every);
        if name_accepted(foods.last(), texts, every) {
            rest.push(foods.last())
        } else {
            rest
        }
    }
}

fn find_bytes(hay: &[u8], needle: &[u8]) -> (r: bool)
    ensures
        r == occurs(hay@, needle@),
{
    if needle.len() == 0 {
        assert(hay@.subrange(0, 0) =~= needle@);
        assert(occurs_at(hay@, needle@, 0));
        return true;
    }
    if needle.len() > hay.len() {
        return false;
    }
    let hay_len = hay.len();
    let last = hay_len - needle.len();
    let mut i: usize = 0;
    while i <= last
        invariant
            needle@.len() > 0,
            hay_len == hay@.len(),
            last == hay@.len() - needle@.len(),
            i <= last + 1,
            forall|j: int| 0 <= j < i ==> !occurs_at(hay@, needle@, j),
        decreases last + 1 - i,
    {
        let mut q: usize = 0;
        let mut same = true;
        while same && q < needle.len()
            invariant
                i <= last,
                hay_len == hay@.len(),
                last == hay@.len() - needle@.len(),
                q <= needle@.len(),
                forall|t: int| 0 <= t < q ==> hay@[i + t] == needle@[t],
                !same ==> q < needle@.len() && hay@[i + q] != needle@[q as int],
            decreases needle@.len() - q, if same { 1int } else { 0int },
        {
            if hay[i + q] == needle[q] {
                q = q + 1;
            } else {
                same = false;
            }
        }
        if q == needle.len() {
            assert(hay@.subrange(i as int, i + needle@.len()) =~= needle@);
            assert(occurs_at(hay@, needle@, i as int));
            return true;
        }
        assert(hay@.subrange(i as int, i + needle@.len())[q as int] != needle@[q as int]);
        i = i + 1;
    }
    assert forall|j: int| !occurs_at(hay@, needle@, j) by {
        if j > last {
            assert(j + needle@.len() > hay@.len());
        }
    }
    false
}

fn name_contains(food: &Food, text: &str) -> (r: bool)
    requires
        food.wf(),
    ensures
        r == name_has(food@, text@),
{
    let name = food.cell(NAME).to_string();
    find_bytes(name.as_str().as_bytes(), text.as_bytes())
}

/// The amount by which foods are sorted on the field that `name` designates: its number,
/// or zero where it has none.
pub open spec fn sort_key(cells: Seq<FoodData>, name: Seq<char>) -> int {
    match index_of(name) {
        Some(i) => match cells[i].number() {
            Some(v) => v as int,
            None => 0,
        },
        None => 0,
    }
}

/// Keys that are in order: ascending, or descending when `descending`.
pub open spec fn in_order(a: int, b: int, descending: bool) -> bool {
    if descending {
        a >= b
    } else {
        a <= b
    }
}

/// The key and the cells of an entry.
pub open spec fn entry_view(e: (String, Food)) -> (Seq<char>, Seq<FoodData>) {
    (e.0@, e.1@)
}

/// `after` holds the entries of `before` at the distinct positions `origin`, and entries
/// with equal keys keep the order they had in `before`.
pub open spec fn stable_reorder(
    after: Seq<(Seq<char>, Seq<FoodData>)>,
    before: Seq<(Seq<char>, Seq<FoodData>)>,
    origin: Seq<int>,
    name: Seq<char>,
) -> bool {
    &&& origin.len() == after.len()
    &&& forall|j: int| 0 <= j < after.len() ==> 0 <= #[trigger] origin[j] < before.len() && after[j] == before[origin[j]]
    &&& forall|a: int, b: int| 0 <= a < b < after.len() ==> #[trigger] origin[a] != #[trigger] origin[b]
    &&& forall|a: int, b: int|
        0 <= a < b < after.len() && sort_key(after[a].1, name) == sort_key(after[b].1, name) ==> #[trigger] origin[a]
            < #[trigger] origin[b]
}

fn ordered(a: u64, b: u64, descending: bool) -> (r: bool)
    ensures
        r == in_order(a as int, b as int, descending),
{
    if descending {
        a >= b
    } else {
        a <= b
    }
}

/// A list of foods, each under the key of its food number.
pub struct FoodTable {
    food_list: Vec<(String, Food)>,
}

impl FoodTable {
    /// The keys and the cells of the foods, in order.
    pub closed spec fn entries(&self) -> Seq<(Seq<char>, Seq<FoodData>)> {
        self.food_list@.map_values(|e: (String, Food)| entry_view(e))
    }

    /// The keys of the foods, in order.
    pub closed spec fn keys(&self) -> Seq<Seq<char>> {
        self.food_list@.map_values(|e: (String, Food)| e.0@)
    }

    /// The cells of the foods, in order.
    pub closed spec fn foods(&self) -> Seq<Seq<FoodData>> {
        self.food_list@.map_values(|e: (String, Food)| e.1@)
    }

    pub closed spec fn wf(&self) -> bool {
        forall|i: int| 0 <= i < self.food_list@.len() ==> (#[trigger] self.food_list@[i]).1.wf()
    }

    pub fn new() -> (r: FoodTable)
        ensures
            r.wf(),
            r.foods() == Seq::<Seq<FoodData>>::empty(),
            r.keys() == Seq::<Seq<char>>::empty(),
    {
        let r = FoodTable { food_list: Vec::new() };
        assert(r.foods() =~= Seq::<Seq<FoodData>>::empty());
        assert(r.keys() =~= Seq::<Seq<char>>::empty());
        r
    }

    pub fn len(&self) -> (r: usize)
        ensures
            r == self.foods().len(),
    {
        self.food_list.len()
    }

    /// The `i`-th food.
    pub fn food_at(&self, i: usize) -> (r: &Food)
        requires
            self.wf(),
            i < self.foods().len(),
        ensures
            r.wf(),
            r@ == self.foods()[i as int],
    {
        &self.food_list[i].1
    }

    /// Appends a food under the text of its food number.
    pub fn add(&mut self, food: Food)
        requires
            old(self).wf(),
            food.wf(),
        ensures
            final(self).wf(),
            final(self).foods() == old(self).foods().push(food@),
            final(self).keys() == old(self).keys().push(food@[NUMBER as int].display()),
    {
        let key = food.cell(NUMBER).to_string();
        self.food_list.push((key, food));
        assert(self.foods() =~= old(self).foods().push(food@));
        assert(self.keys() =~= old(self).keys().push(food@[NUMBER as int].display()));
    }

    /// The first food under the key `key`.
    pub fn get(&self, key: &str) -> (r: Option<&Food>)
        requires
            self.wf(),
        ensures
            match key_position_from(self.keys(), key@, 0) {
                Some(i) => r matches Some(f) && f@ == self.foods()[i] && f.wf(),
                None => r is None,
            },
    {
        let mut i: usize = 0;
        while i < self.food_list.len()
            invariant
                self.wf(),
                i <= self.food_list@.len(),
                key_position_from(self.keys(), key@, 0) == key_position_from(self.keys(), key@, i as int),
            decreases self.food_list@.len() - i,
        {
            if self.food_list[i].0.as_str().to_owned() == key.to_owned() {
                return Some(&self.food_list[i].1);
            }
            i = i + 1;
        }
        None
    }

    /// The foods under the keys `keys`, in the order of `keys`; keys that are not found are
    /// skipped.
    pub fn get_list(&self, keys: &[&str]) -> (r: FoodTable)
        requires
            self.wf(),
        ensures
            r.wf(),
            r.foods() == found(self.keys(), self.foods(), keys@.map_values(|k: &str| k@)),
    {
        let mut r = FoodTable::new();
        let mut j: usize = 0;
        while j < keys.len()
            invariant
                self.wf(),
                r.wf(),
                j <= keys@.len(),
                r.foods() == found(self.keys(), self.foods(), keys@.subrange(0, j as int).map_values(|k: &str| k@)),
            decreases keys@.len() - j,
        {
            let ghost names = keys@.subrange(0, j as int + 1).map_values(|k: &str| k@);
            assert(names.drop_last() =~= keys@.subrange(0, j as int).map_values(|k: &str| k@));
            if let Some(f) = self.get(keys[j]) {
                r.add(f.copy());
            }
            j = j + 1;
        }
        assert(keys@.subrange(0, j as int) =~= keys@);
        r
    }

    fn keep_matching(&self, texts: &[&str], every: bool) -> (r: FoodTable)
        requires
            self.wf(),
        ensures
            r.wf(),
            r.foods() == matching_foods(self.foods(), texts@.map_values(|t: &str| t@), every),
    {
        let ghost ts = texts@.map_values(|t: &str| t@);
        let mut r = FoodTable::new();
        let mut i: usize = 0;
        while i < self.food_list.len()
            invariant
                self.wf(),
                r.wf(),
                i <= self.foods().len(),
                ts == texts@.map_values(|t: &str| t@),
                r.foods() == matching_foods(self.foods().subrange(0, i as int), ts, every),
            decreases self.foods().len() - i,
        {
            let food = self.food_at(i);
            let mut hit = every;
            let mut j: usize = 0;
            while j < texts.len()
                invariant
                    food.wf(),
                    j <= texts@.len(),
                    ts == texts@.map_values(|t: &str| t@),
                    every ==> (hit == forall|q: int| 0 <= q < j ==> name_has(food@, #[trigger] ts[q])),
                    !every ==> (hit == exists|q: int| 0 <= q < j && name_has(food@, #[trigger] ts[q])),
                decreases texts@.len() - j,
            {
                let found = name_contains(food, texts[j]);
                assert(ts[j as int] == texts@[j as int]@);
                if every {
                    hit = hit && found;
                } else {
                    hit = hit || found;
                }
                j = j + 1;
            }
            assert(hit == name_accepted(food@, ts, every));
            assert(self.foods().subrange(0, i + 1).drop_last() =~= self.foods().subrange(0, i as int));
            if hit {
                r.add(food.copy());
            }
            i = i + 1;
        }
        assert(self.foods().subrange(0, i as int) =~= self.foods());
        r
    }

    /// The foods whose name contains `text`, in order.
    pub fn search(&self, text: &str) -> (r: FoodTable)
        requires
            self.wf(),
        ensures
            r.wf(),
            r.foods() == matching_foods(self.foods(), seq![text@], false),
    {
        let texts = [text];
        assert(texts@.map_values(|t: &str| t@) =~= seq![text@]);
        self.keep_matching(&texts, false)
    }

    /// The foods whose name contains one of `text_list`, in order.
    pub fn search_or(&self, text_list: &[&str]) -> (r: FoodTable)
        requires
            self.wf(),
        ensures
            r.wf(),
            r.foods() == matching_foods(self.foods(), text_list@.map_values(|t: &str| t@), false),
    {
        self.keep_matching(text_list, false)
    }

    /// The foods whose name contains every one of `text_list`, in order.
    pub fn search_and(&self, text_list: &[&str]) -> (r: FoodTable)
        requires
            self.wf(),
        ensures
            r.wf(),
            r.foods() == matching_foods(self.foods(), text_list@.map_values(|t: &str| t@), true),
    {
        self.keep_matching(text_list, true)
    }

    fn sort_by_field(&mut self, name: &str, descending: bool)
        requires
            old(self).wf(),
        ensures
            final(self).wf(),
            final(self).entries().to_multiset() == old(self).entries().to_multiset(),
            final(self).entries().len() == old(self).entries().len(),
            exists|origin: Seq<int>| stable_reorder(final(self).entries(), old(self).entries(), origin, name@),
            forall|a: int, b: int|
                0 <= a < b < final(self).entries().len() ==> in_order(
                    sort_key(#[trigger] final(self).entries()[a].1, name@),
                    sort_key(#[trigger] final(self).entries()[b].1, name@),
                    descending,
                ),
    {
        broadcast use vstd::seq_lib::group_to_multiset_ensures;

        let fi = field_index(name);
        let n = self.food_list.len();
        let mut sorted: Vec<(String, Food)> = Vec::new();
        let mut keys: Vec<u64> = Vec::new();
        let ghost mut origin: Seq<int> = Seq::empty();
        let mut i: usize = 0;
        while i < n
            invariant
                self.wf(),
                n == self.food_list@.len(),
                i <= n,
                fi matches Some(f) ==> index_of(name@) == Some(f as int) && f < FIELD_COUNT,
                fi is None ==> index_of(name@) is None,
                keys@.len() == sorted@.len(),
                sorted@.len() == i,
                forall|j: int| 0 <= j < sorted@.len() ==> (#[trigger] sorted@[j]).1.wf(),
                stable_reorder(
                    sorted@.map_values(|e: (String, Food)| entry_view(e)),
                    self.food_list@.map_values(|e: (String, Food)| entry_view(e)),
                    origin,
                    name@,
                ),
                forall|j: int| 0 <= j < origin.len() ==> #[trigger] origin[j] < i,
                forall|j: int| 0 <= j < sorted@.len() ==> keys@[j] as int == sort_key(#[trigger] sorted@[j].1@, name@),
                forall|a: int, b: int|
                    0 <= a < b < keys@.len() ==> in_order(#[trigger] keys@[a] as int, #[trigger] keys@[b] as int, descending),
                sorted@.map_values(|e: (String, Food)| entry_view(e)).to_multiset() == self.food_list@.subrange(0, i as int).map_values(|e: (String, Food)| entry_view(e)).to_multiset(),
            decreases n - i,
        {
            let food = self.food_list[i].1.copy();
            let key = self.food_list[i].0.clone();
            let k: u64 = match fi {
                Some(f) => match food.cell(f).get_number() {
                    Some(v) => v,
                    None => 0,
                },
                None => 0,
            };
            let mut pos: usize = 0;
            while pos < keys.len() && ordered(keys[pos], k, descending)
                invariant
                    pos <= keys@.len(),
                    forall|j: int| 0 <= j < pos ==> in_order(#[trigger] keys@[j] as int, k as int, descending),
                decreases keys@.len() - pos,
            {
                pos = pos + 1;
            }
            let ghost before = sorted@;
            let entry = (key, food);
            let ghost ve = entry_view(entry);
            let ghost kb = keys@;
            assert(ve == entry_view(self.food_list@[i as int]));
            assert(pos < kb.len() ==> !in_order(kb[pos as int] as int, k as int, descending));
            let ghost ob = origin;
            sorted.insert(pos, entry);
            keys.insert(pos, k);
            assert(keys@ == kb.insert(pos as int, k));
            proof {
                origin = ob.insert(pos as int, i as int);
                let all = self.food_list@.map_values(|e: (String, Food)| entry_view(e));
                let sv = sorted@.map_values(|e: (String, Food)| entry_view(e));
                let bv = before.map_values(|e: (String, Food)| entry_view(e));
                assert forall|j: int| 0 <= j < sv.len() implies 0 <= #[trigger] origin[j] < all.len() && sv[j] == all[origin[j]] by {
                    if j < pos {
                        assert(sorted@[j] == before[j]);
                    } else if j > pos {
                        assert(sorted@[j] == before[j - 1]);
                    }
                }
                assert forall|a: int, b: int| 0 <= a < b < sv.len() && sort_key(sv[a].1, name@) == sort_key(sv[b].1, name@) implies #[trigger] origin[a]
                    < #[trigger] origin[b] by {
                    assert(keys@[a] as int == sort_key(sorted@[a].1@, name@));
                    assert(keys@[b] as int == sort_key(sorted@[b].1@, name@));
                    if a < pos && b == pos {
                    } else if a == pos && b > pos {
                        assert(keys@[b] == kb[b - 1]);
                        if b - 1 > pos {
                            assert(in_order(kb[pos as int] as int, kb[b - 1] as int, descending));
                        }
                    } else if a < pos && b > pos {
                        assert(sv[a] == bv[a] && sv[b] == bv[b - 1]);
                    } else if a > pos {
                        assert(sv[a] == bv[a - 1] && sv[b] == bv[b - 1]);
                    } else {
                        assert(sv[a] == bv[a] && sv[b] == bv[b]);
                    }
                }
            }
            proof {
                assert(sorted@.map_values(|e: (String, Food)| entry_view(e)) =~= before.map_values(|e: (String, Food)| entry_view(e)).insert(pos as int, ve));
                vstd::seq_lib::to_multiset_insert(before.map_values(|e: (String, Food)| entry_view(e)), pos as int, ve);
                assert(self.food_list@.subrange(0, i + 1).map_values(|e: (String, Food)| entry_view(e)) =~= self.food_list@.subrange(0, i as int).map_values(
                    |e: (String, Food)| entry_view(e),
                ).push(ve));
                vstd::seq_lib::to_multiset_build(
                    self.food_list@.subrange(0, i as int).map_values(|e: (String, Food)| entry_view(e)),
                    ve,
                );
                assert forall|a: int, b: int| 0 <= a < b < keys@.len() implies in_order(
                    #[trigger] keys@[a] as int,
                    #[trigger] keys@[b] as int,
                    descending,
                ) by {
                    if a < pos && b == pos {
                        assert(keys@[a] == kb[a]);
                    } else if a == pos && b > pos {
                        assert(keys@[b] == kb[b - 1]);
                        if b - 1 > pos {
                            assert(in_order(kb[pos as int] as int, kb[b - 1] as int, descending));
                        }
                    } else if a < pos && b > pos {
                        assert(keys@[a] == kb[a] && keys@[b] == kb[b - 1]);
                    } else if a > pos {
                        assert(keys@[a] == kb[a - 1] && keys@[b] == kb[b - 1]);
                    } else {
                        assert(keys@[a] == kb[a] && keys@[b] == kb[b]);
                    }
                }
                assert forall|j: int| 0 <= j < sorted@.len() implies keys@[j] as int == sort_key(#[trigger] sorted@[j].1@, name@) by {
                    if j > pos {
                        assert(sorted@[j] == before[j - 1]);
                    }
                }
            }
            i = i + 1;
        }
        assert(self.food_list@.subrange(0, n as int) =~= self.food_list@);
        self.food_list = sorted;
        assert(self.entries() =~= self.food_list@.map_values(|e: (String, Food)| entry_view(e)));
        assert(old(self).entries() =~= old(self).food_list@.map_values(|e: (String, Food)| entry_view(e)));
        assert(stable_reorder(self.entries(), old(self).entries(), origin, name@));
        assert forall|a: int, b: int| 0 <= a < b < self.entries().len() implies in_order(
            sort_key(#[trigger] self.entries()[a].1, name@),
            sort_key(#[trigger] self.entries()[b].1, name@),
            descending,
        ) by {
            assert(keys@[a] as int == sort_key(self.food_list@[a].1@, name@));
            assert(keys@[b] as int == sort_key(self.food_list@[b].1@, name@));
        }
    }

    /// Reorders the foods by the amount of the field `name`, smallest first; foods with equal
    /// amounts keep their order, and a food without a number there counts as zero.
    pub fn sort_ascending_order(&mut self, name: &str)
        requires
            old(self).wf(),
        ensures
            final(self).wf(),
            final(self).entries().to_multiset() == old(self).entries().to_multiset(),
            final(self).entries().len() == old(self).entries().len(),
            exists|origin: Seq<int>| stable_reorder(final(self).entries(), old(self).entries(), origin, name@),
            forall|a: int, b: int|
                0 <= a < b < final(self).entries().len() ==> sort_key(#[trigger] final(self).entries()[a].1, name@)
                    <= sort_key(#[trigger] final(self).entries()[b].1, name@),
    {
        self.sort_by_field(name, false);
    }

    /// Reorders the foods by the amount of the field `name`, largest first; foods with equal
    /// amounts keep their order, and a food without a number there counts as zero.
    pub fn sort_descending_order(&mut self, name: &str)
        requires
            old(self).wf(),
        ensures
            final(self).wf(),
            final(self).entries().to_multiset() == old(self).entries().to_multiset(),
            final(self).entries().len() == old(self).entries().len(),
            exists|origin: Seq<int>| stable_reorder(final(self).entries(), old(self).entries(), origin, name@),
            forall|a: int, b: int|
                0 <= a < b < final(self).entries().len() ==> sort_key(#[trigger] final(self).entries()[a].1, name@)
                    >= sort_key(#[trigger] final(self).entries()[b].1, name@),
    {
        self.sort_by_field(name, true);
    }

    /// The foods at the positions `indices`, in that order.
    pub fn subset(&self, indices: &[usize]) -> (r: FoodTable)
        requires
            self.wf(),
            forall|j: int| 0 <= j < indices@.len() ==> #[trigger] indices@[j] < self.foods().len(),
        ensures
            r.wf(),
            r.foods() == indices@.map_values(|i: usize| self.foods()[i as int]),
    {
        let mut r = FoodTable::new();
        let mut j: usize = 0;
        while j < indices.len()
            invariant
                self.wf(),
                r.wf(),
                j <= indices@.len(),
                forall|q: int| 0 <= q < indices@.len() ==> #[trigger] indices@[q] < self.foods().len(),
                r.foods() == indices@.subrange(0, j as int).map_values(|i: usize| self.foods()[i as int]),
            decreases indices@.len() - j,
        {
            let f = self.food_at(indices[j]).copy();
            r.add(f);
            j = j + 1;
            assert(r.foods() =~= indices@.subrange(0, j as int).map_values(|i: usize| self.foods()[i as int]));
        }
        assert(indices@.subrange(0, j as int) =~= indices@);
        r
    }

    /// The field-by-field sum of all the foods.
    pub fn get_sum(&self) -> (r: Food)
        requires
            self.wf(),
        ensures
            r.wf(),
            r@ == sum_of(self.foods()),
    {
        let n = self.food_list.len();
        if n == 0 {
            let r = Food::new();
            assert(r@ =~= empty_cells());
            return r;
        }
        let mut sum = self.food_list[0].1.without_identity();
        assert(self.foods().subrange(0, 1).len() == 1);
        let mut i: usize = 1;
        while i < n
            invariant
                self.wf(),
                n == self.foods().len(),
                1 <= i <= n,
                sum.wf(),
                sum@ == sum_of(self.foods().subrange(0, i as int)),
            decreases n - i,
        {
            sum = sum.add(&self.food_list[i].1);
            assert(self.foods().subrange(0, i + 1).drop_last() =~= self.foods().subrange(0, i as int));
            i = i + 1;
        }
        assert(self.foods().subrange(0, n as int) =~= self.foods());
        sum
    }

    /// Puts every food whose recorded weight is a positive number into a portion of `weight`
    /// thousandths of a gram; the other foods are left as they are.
    pub fn set_weight(&mut self, weight: u64)
        requires
            old(self).wf(),
        ensures
            final(self).wf(),
            final(self).keys() == old(self).keys(),
            final(self).foods().len() == old(self).foods().len(),
            forall|i: int|
                0 <= i < old(self).foods().len() ==> #[trigger] final(self).foods()[i] == match old(
                    self,
                ).foods()[i][WEIGHT as int].number() {
                    Some(base) if base > 0 => rescaled(old(self).foods()[i], weight, base),
                    _ => old(self).foods()[i],
                },
    {
        let n = self.food_list.len();
        let mut list: Vec<(String, Food)> = Vec::with_capacity(n);
        let mut i: usize = 0;
        while i < n
            invariant
                self.wf(),
                self.food_list@ == old(self).food_list@,
                n == self.food_list@.len(),
                i <= n,
                list@.len() == i,
                forall|q: int| 0 <= q < i ==> (#[trigger] list@[q]).1.wf(),
                forall|q: int| 0 <= q < i ==> (#[trigger] list@[q]).0@ == self.food_list@[q].0@,
                forall|q: int|
                    0 <= q < i ==> (#[trigger] list@[q]).1@ == match self.food_list@[q].1@[WEIGHT as int].number() {
                        Some(base) if base > 0 => rescaled(self.food_list@[q].1@, weight, base),
                        _ => self.food_list@[q].1@,
                    },
            decreases n - i,
        {
            let key = self.food_list[i].0.clone();
            let food = &self.food_list[i].1;
            let changed = match food.change_weight(weight) {
                Some(f) => f,
                None => food.copy(),
            };
            list.push((key, changed));
            i = i + 1;
        }
        self.food_list = list;
        assert(self.keys() =~= old(self).keys());
    }

    /// The score of the foods together against the references of `kijun`, in thousandths
    /// of a percent; `None` when a scored nutrient has no reference or no numeric total.
    pub fn percentage_of_kijun(&self, kijun: &Kijun) -> (r: Option<i128>)
        requires
            self.wf(),
            kijun.wf(),
        ensures
            r matches Some(v) ==> score(kijun@, sum_of(self.foods())) == Some(v as int),
            r is None ==> score(kijun@, sum_of(self.foods())) is None,
    {
        let sum = self.get_sum();
        let ghost cells = sum@;
        let mut total: i128 = 0;
        let mut t: usize = 0;
        while t < TRACKED_COUNT
            invariant
                kijun.wf(),
                sum.wf(),
                cells == sum@,
                cells == sum_of(self.foods()),
                t <= TRACKED_COUNT,
                total_upto(kijun@, cells, t as int) == Some(total as int),
                -(t as int) * max_share() <= total <= (t as int) * max_share(),
            decreases TRACKED_COUNT - t,
        {
            let k = match kijun.get_at(t) {
                Some(k) => k,
                None => {
                    proof {
                        lemma_missing_target_scores_none(kijun@, cells, t as int);
                    }
                    return None;
                },
            };
            let v = match sum.cell(tracked_field_at(t)).get_number() {
                Some(v) => v,
                None => {
                    proof {
                        lemma_missing_amount_scores_none(kijun@, cells, t as int);
                    }
                    return None;
                },
            };
            let share = adjusted_share(k, v);
            proof {
                let m = max_share();
                assert((t as int + 1) * m == (t as int) * m + m) by (nonlinear_arith);
                assert(m == 1844674407370955161500000);
                assert((t as int + 1) * m <= 33 * m) by (nonlinear_arith)
                    requires
                        t < 33,
                        m >= 0,
                ;
                assert(-(t as int + 1) * m == -(t as int) * m - m) by (nonlinear_arith);
                assert(33 * m < i128::MAX);
            }
            total = total + share;
            t = t + 1;
        }
        let mean = if total >= 0 {
            total / (TRACKED_COUNT as i128)
        } else {
            -((-total) / (TRACKED_COUNT as i128))
        };
        Some(mean)
    }
}

} // verus!
