use meal::automatic_selection::{automatic_selection, TOP_COUNT};
use meal::food::Food;
use meal::food_data::FoodData;
use meal::food_table::FoodTable;
use meal::kijun::{Gender, Kijun, KijunValue, PAL};

const NAMES: [&str; 33] = [
    "エネルギー", "たんぱく質", "脂質", "飽和脂肪酸", "多価不飽和脂肪酸", "炭水化物",
    "食物繊維総量", "レチノール活性当量", "ビタミンD", "α-トコフェロール", "ビタミンK",
    "ビタミンB1", "ビタミンB2", "ナイアシン", "ビタミンB6", "ビタミンB12", "葉酸",
    "パントテン酸", "ビオチン", "ビタミンC", "ナトリウム", "カリウム", "カルシウム",
    "マグネシウム", "リン", "鉄", "亜鉛", "銅", "マンガン", "ヨウ素", "セレン", "クロム",
    "モリブデン",
];

fn references() -> Vec<Option<KijunValue>> {
    vec![
        Some(KijunValue::Adequate(1952759)),
        Some(KijunValue::Recommended(60000)),
        Some(KijunValue::Range(39000, 49000)),
        Some(KijunValue::UpperBound(14000)),
        Some(KijunValue::Adequate(13000)),
        Some(KijunValue::Range(220000, 270000)),
        Some(KijunValue::LowerBound(20000)),
        Some(KijunValue::Recommended(850000)),
        Some(KijunValue::Adequate(5500)),
        Some(KijunValue::Adequate(6500)),
        Some(KijunValue::Adequate(150000)),
        Some(KijunValue::Recommended(1400)),
        Some(KijunValue::Recommended(1600)),
        Some(KijunValue::Recommended(15000)),
        Some(KijunValue::Recommended(1400)),
        Some(KijunValue::Recommended(2400)),
        Some(KijunValue::Recommended(240000)),
        Some(KijunValue::Adequate(5000)),
        Some(KijunValue::Adequate(50000)),
        Some(KijunValue::Recommended(100000)),
        Some(KijunValue::UpperBound(3148000)),
        Some(KijunValue::LowerBound(2500000)),
        Some(KijunValue::Recommended(800000)),
        Some(KijunValue::Recommended(340000)),
        Some(KijunValue::Adequate(1000000)),
        Some(KijunValue::Recommended(7000)),
        Some(KijunValue::Recommended(10000)),
        Some(KijunValue::Recommended(900)),
        Some(KijunValue::Adequate(4000)),
        Some(KijunValue::Recommended(130000)),
        Some(KijunValue::Recommended(30000)),
        Some(KijunValue::Adequate(10000)),
        Some(KijunValue::Recommended(25000)),
    ]
}

fn kijun() -> Kijun {
    Kijun::new(20, Gender::Male, PAL::Low, 1, references())
}

fn matching_amount(k: &KijunValue) -> u64 {
    match *k {
        KijunValue::Recommended(t) | KijunValue::Adequate(t) | KijunValue::UpperBound(t) | KijunValue::LowerBound(t) => t,
        KijunValue::Range(min, max) => (min + max) / 2,
    }
}

/// A food whose amounts meet every reference, scaled by `num / den`.
fn full_match(number: &str, num: u64, den: u64) -> Food {
    let mut food = Food::new();
    food.set("食品番号", FoodData::Text(number.to_string()));
    food.set("重量", FoodData::Number(100000));
    for (name, k) in NAMES.iter().zip(references().iter()) {
        food.set(name, FoodData::Number(matching_amount(k.as_ref().unwrap()) * num / den));
    }
    food
}

#[test]
fn test_food_table_new() {
    FoodTable::new();
}

#[test]
fn test_food_table_add() {
    let mut food_table = FoodTable::new();
    let mut food = Food::new();
    food.set("食品番号", FoodData::from_str("0"));
    food.set("食品名", FoodData::from_str("麦ごはん"));
    food_table.add(food);

    let food = food_table.food_at(0);
    assert_eq!(food.get("食品名"), Some(&FoodData::from_str("麦ごはん")));
    assert_eq!(food.get("食品群"), Some(&FoodData::Absent));
}

#[test]
fn keys_lookup_and_sum() {
    let mut table = FoodTable::new();
    table.add(full_match("01001", 1, 2));
    table.add(full_match("01002", 1, 4));
    assert_eq!(table.len(), 2);
    assert!(table.get("01003").is_none());
    let f = table.get("01002").unwrap();
    assert_eq!(f.get("たんぱく質"), Some(&FoodData::Number(15000)));
    let picked = table.get_list(&["01002", "missing", "01001"]);
    assert_eq!(picked.len(), 2);
    assert_eq!(picked.food_at(0).get("食品番号"), Some(&FoodData::Text("01002".to_string())));
    let sum = table.get_sum();
    assert_eq!(sum.get("たんぱく質"), Some(&FoodData::Number(45000)));
    assert_eq!(sum.get("食品番号"), Some(&FoodData::Absent));
    assert_eq!(sum.get("水分"), Some(&FoodData::Absent));
    assert_eq!(FoodTable::new().get_sum().get("たんぱく質"), Some(&FoodData::Absent));
}

#[test]
fn set_weight_changes_every_scalable_food() {
    let mut table = FoodTable::new();
    table.add(full_match("01001", 1, 1));
    let mut unknown = Food::new();
    unknown.set("食品番号", FoodData::Text("x".to_string()));
    unknown.set("たんぱく質", FoodData::Number(1000));
    table.add(unknown);
    table.set_weight(50000);
    assert_eq!(table.get("01001").unwrap().get("重量"), Some(&FoodData::Number(50000)));
    assert_eq!(table.get("01001").unwrap().get("たんぱく質"), Some(&FoodData::Number(30000)));
    assert_eq!(table.get("x").unwrap().get("たんぱく質"), Some(&FoodData::Number(1000)));
}

#[test]
fn full_match_scores_one_hundred_percent() {
    let mut table = FoodTable::new();
    table.add(full_match("1", 1, 1));
    assert_eq!(table.percentage_of_kijun(&kijun()), Some(100000));
}

#[test]
fn excess_over_an_upper_bound_lowers_the_score() {
    let mut table = FoodTable::new();
    let mut food = full_match("1", 1, 1);
    food.set("ナトリウム", FoodData::Number(4000000));
    table.add(food);
    let score = table.percentage_of_kijun(&kijun()).unwrap();
    assert!(score < 100000);
    assert_eq!(score, 96149);
}

#[test]
fn excess_over_a_recommendation_is_not_rewarded() {
    let mut table = FoodTable::new();
    let mut food = full_match("1", 1, 1);
    food.set("たんぱく質", FoodData::Number(600000));
    table.add(food);
    assert_eq!(table.percentage_of_kijun(&kijun()), Some(100000));
}

#[test]
fn missing_reference_gives_no_score() {
    let mut table = FoodTable::new();
    table.add(full_match("1", 1, 1));
    let mut refs = references();
    refs[5] = None;
    let partial = Kijun::new(5, Gender::Female, PAL::Moderate, 1, refs);
    assert_eq!(table.percentage_of_kijun(&partial), None);
}

#[test]
fn missing_amount_gives_no_score() {
    let mut table = FoodTable::new();
    let mut food = full_match("1", 1, 1);
    food.set("ヨウ素", FoodData::Text("Tr".to_string()));
    table.add(food);
    assert_eq!(table.percentage_of_kijun(&kijun()), None);
    assert_eq!(FoodTable::new().percentage_of_kijun(&kijun()), None);
}

#[test]
fn half_of_everything_scores_half() {
    let mut table = FoodTable::new();
    table.add(full_match("1", 1, 2));
    let score = table.percentage_of_kijun(&kijun()).unwrap();
    assert!(score > 49000 && score <= 100000);
}

#[test]
fn selection_keeps_the_best_combinations_first() {
    let mut pool = FoodTable::new();
    pool.add(full_match("a", 1, 1));
    pool.add(full_match("b", 1, 2));
    pool.add(full_match("c", 1, 4));
    let k = kijun();
    let best = automatic_selection(&pool, &[1, 2], &k);
    assert_eq!(best.len(), TOP_COUNT);
    assert_eq!(best[0].score, 100000);
    assert_eq!(best[0].combination, vec![1]);
    assert_eq!(best[0].round, 0);
    for w in best.windows(2) {
        assert!(w[0].score >= w[1].score);
    }
    for s in best.iter() {
        assert_eq!(s.table.percentage_of_kijun(&k), Some(s.score));
        assert_eq!(s.table.len(), s.combination.len());
    }
    let all = automatic_selection(&pool, &[3], &k);
    assert_eq!(all.len(), 1);
    assert_eq!(all[0].combination, vec![3, 2, 1]);
}

#[test]
fn selection_of_impossible_sizes_is_empty() {
    let mut pool = FoodTable::new();
    pool.add(full_match("a", 1, 1));
    let k = kijun();
    assert!(automatic_selection(&pool, &[], &k).is_empty());
    assert!(automatic_selection(&pool, &[0], &k).is_empty());
    assert!(automatic_selection(&pool, &[2], &k).is_empty());
}

#[test]
fn the_smallest_excess_over_an_upper_bound_is_penalised() {
    let refs = vec![Some(KijunValue::UpperBound(200000)); 33];
    let bounds = Kijun::new(20, Gender::Male, PAL::Low, 1, refs);
    let mut food = Food::new();
    for name in NAMES.iter() {
        food.set(name, FoodData::Number(200000));
    }
    let mut at_bound = FoodTable::new();
    at_bound.add(food.copy());
    assert_eq!(at_bound.percentage_of_kijun(&bounds), Some(100000));

    food.set("エネルギー", FoodData::Number(200001));
    let mut over = FoodTable::new();
    over.add(food);
    let score = over.percentage_of_kijun(&bounds).unwrap();
    assert_eq!(score, 96969);
    assert!(score * 33 < 32 * 100000);
    assert_eq!(KijunValue::UpperBound(200000).get_percentage(200001), 100001);
    assert_eq!(KijunValue::Range(1000, 200000).get_percentage(200001), 100001);
}
