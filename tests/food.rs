use meal::food::Food;
use meal::food_data::FoodData;

#[test]
fn mod_test_food_new() {
    let _food = Food::new();
}

#[test]
fn food_test_food_new() {
    let _food = Food::new();
}

#[test]
fn test_food_get() {
    let mut food = Food::new();
    assert_eq!(food.get("food"), None);

    assert_eq!(food.get("エネルギー"), Some(&FoodData::Absent));

    food.set("エネルギー", FoodData::Number(200000));
    assert_eq!(food.get("エネルギー"), Some(&FoodData::Number(200000)));

    food.set("たんぱく質", FoodData::Estimated(200000));
    assert_eq!(food.get("たんぱく質"), Some(&FoodData::Estimated(200000)));

    food.set("食品名", FoodData::Text("ネギ".to_string()));
    assert_eq!(food.get("食品名"), Some(&FoodData::Text("ネギ".to_string())));
}

#[test]
fn test_food_get_list() {
    let mut food = Food::new();

    food.set("食品名", FoodData::Text("馬肉".to_string()));
    food.set("エネルギー", FoodData::Number(200000));
    food.set("ナイアシン", FoodData::Number(10000));

    assert_eq!(
        food.get_list(&["食品名", "エネルギー", "ナイアシン"]),
        vec![
            Some(&FoodData::Text("馬肉".to_string())),
            Some(&FoodData::Number(200000)),
            Some(&FoodData::Number(10000))
        ]
    );
}

#[test]
fn test_food_change_weight() {
    let food = Food::new();
    assert!(food.change_weight(10000).is_none());

    let mut food = Food::new();
    food.set("食品名", FoodData::Text("馬肉".to_string()));
    food.set("葉酸", FoodData::Number(200000));
    food.set("ビオチン", FoodData::Number(10000));
    food.set("重量", FoodData::Number(100000));
    let new_food = food.change_weight(50000).unwrap();
    assert_eq!(new_food.get("重量"), Some(&FoodData::Number(50000)));
    food.set("重量", FoodData::Number(50000));
    let new_food = food.change_weight(27000).unwrap();
    assert_eq!(new_food.get("重量").unwrap().to_string().as_str(), "27");
}

#[test]
fn energy_is_known_under_two_names() {
    let mut food = Food::new();
    food.set("エネルギー（kcal）", FoodData::Number(5));
    assert_eq!(food.get("エネルギー"), Some(&FoodData::Number(5)));
}

#[test]
fn change_weight_scales_amounts_and_keeps_identity() {
    let mut food = Food::new();
    food.set("食品名", FoodData::Text("馬肉".to_string()));
    food.set("重量", FoodData::Number(100000));
    food.set("たんぱく質", FoodData::Number(20000));
    food.set("ビタミンC", FoodData::Estimated(3000));
    food.set("重量変化率", FoodData::Number(90000));
    food.set("備考", FoodData::Text("生".to_string()));
    let f = food.change_weight(150000).unwrap();
    assert_eq!(f.get("重量"), Some(&FoodData::Number(150000)));
    assert_eq!(f.get("たんぱく質"), Some(&FoodData::Number(30000)));
    assert_eq!(f.get("ビタミンC"), Some(&FoodData::Estimated(4500)));
    assert_eq!(f.get("重量変化率"), Some(&FoodData::Number(135000)));
    assert_eq!(f.get("食品名"), Some(&FoodData::Text("馬肉".to_string())));
    assert_eq!(f.get("備考"), Some(&FoodData::Text("生".to_string())));

    let mut zero = Food::new();
    zero.set("重量", FoodData::Number(0));
    assert!(zero.change_weight(100).is_none());
    let mut text = Food::new();
    text.set("重量", FoodData::Text("100".to_string()));
    assert!(text.change_weight(100).is_none());
}

#[test]
fn change_weight_twice_stays_within_rounding() {
    let mut food = Food::new();
    food.set("重量", FoodData::Number(100000));
    food.set("たんぱく質", FoodData::Number(12345));
    food.set("食品名", FoodData::Text("米".to_string()));
    let twice = food.change_weight(30000).unwrap().change_weight(70000).unwrap();
    let direct = food.change_weight(70000).unwrap();
    assert_eq!(twice.get("重量"), direct.get("重量"));
    assert_eq!(twice.get("食品名"), direct.get("食品名"));
    let a = twice.get("たんぱく質").unwrap().get_number().unwrap();
    let b = direct.get("たんぱく質").unwrap().get_number().unwrap();
    assert!(a <= b && b <= a + 70000 / 30000 + 1);
    assert_eq!(b, 8641);
}

#[test]
fn adding_foods_empties_identity() {
    let mut left = Food::new();
    let mut right = Food::new();
    left.set("食品名", FoodData::Text("食品".to_string()));
    left.set("クロム", FoodData::Number(10000));
    right.set("食品名", FoodData::Text("食品".to_string()));
    right.set("クロム", FoodData::Number(20000));
    let result = left.add(&right);
    assert_eq!(result.get("食品名"), Some(&FoodData::Absent));
    assert_eq!(result.get("クロム"), Some(&FoodData::Number(30000)));
    assert_eq!(result.get("モリブデン"), Some(&FoodData::Absent));
}

#[test]
fn test_food_add() {
    let mut left = Food::new();
    let mut right = Food::new();

    left.set("食品名", FoodData::Text("食品".to_string()));
    left.set("クロム", FoodData::Number(10000));
    right.set("食品名", FoodData::Text("食品".to_string()));
    right.set("クロム", FoodData::Number(20000));
    let result = left.add(&right);
    assert_eq!(result.get("食品名"), Some(&FoodData::Absent));
    assert_eq!(result.get("クロム"), Some(&FoodData::Number(30000)));

    left.set("モリブデン", FoodData::Number(50000));
    let result = left.add(&right);
    assert_eq!(result.get("モリブデン"), Some(&FoodData::Absent));
}
