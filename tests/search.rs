use meal::food::Food;
use meal::food_data::FoodData;
use meal::food_table::FoodTable;

fn food(number: &str, name: &str, energy: Option<u64>) -> Food {
    let mut f = Food::new();
    f.set("食品番号", FoodData::Text(number.to_string()));
    f.set("食品名", FoodData::Text(name.to_string()));
    if let Some(e) = energy {
        f.set("エネルギー", FoodData::Number(e));
    }
    f
}

fn table() -> FoodTable {
    let mut t = FoodTable::new();
    t.add(food("01", "メンチカツ　冷凍", Some(300)));
    t.add(food("02", "ごはん", Some(100)));
    t.add(food("03", "メンチ　フライ", None));
    t.add(food("04", "うどん", Some(100)));
    t
}

fn numbers(t: &FoodTable) -> Vec<String> {
    (0..t.len())
        .map(|i| t.food_at(i).get("食品番号").unwrap().to_string())
        .collect()
}

#[test]
fn search_by_part_of_the_name() {
    let t = table();
    assert_eq!(numbers(&t.search("メンチ")), vec!["01", "03"]);
    assert_eq!(numbers(&t.search("ん")), vec!["02", "04"]);
    assert!(t.search("パン").len() == 0);
    assert_eq!(t.search("").len(), 4);
}

#[test]
fn search_with_several_words() {
    let t = table();
    assert_eq!(numbers(&t.search_or(&["ごはん", "うどん"])), vec!["02", "04"]);
    assert_eq!(numbers(&t.search_and(&["メンチ", "冷凍"])), vec!["01"]);
    assert_eq!(t.search_and(&[]).len(), 4);
    assert_eq!(t.search_or(&[]).len(), 0);
}

#[test]
fn sorting_by_a_nutrient_is_stable() {
    let mut t = table();
    t.sort_ascending_order("エネルギー");
    assert_eq!(numbers(&t), vec!["03", "02", "04", "01"]);
    t.sort_descending_order("エネルギー");
    assert_eq!(numbers(&t), vec!["01", "02", "04", "03"]);
    t.sort_ascending_order("no such field");
    assert_eq!(numbers(&t), vec!["01", "02", "04", "03"]);
}
