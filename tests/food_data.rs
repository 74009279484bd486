use meal::food_data::FoodData;

#[test]
fn mod_test_food_data_from_str() {
    let food_data = FoodData::from_str("100");
    assert_eq!(food_data, FoodData::Number(100000));

    let food_data = FoodData::from_str("(100)");
    assert_eq!(food_data, FoodData::Estimated(100000));

    let food_data = FoodData::from_str("(100.0)");
    assert_eq!(food_data, FoodData::Estimated(100000));

    let food_data = FoodData::from_str("(0.1)");
    assert_eq!(food_data, FoodData::Estimated(100));

    let food_data = FoodData::from_str("(1.1)");
    assert_eq!(food_data, FoodData::Estimated(1100));

    let food_data = FoodData::from_str("(0)");
    assert_eq!(food_data, FoodData::Estimated(0));

    let food_data = FoodData::from_str("(Tr)");
    assert_eq!(food_data, FoodData::Text("(Tr)".to_string()));
}

#[test]
fn food_test_food_data_from_str() {
    let food_data = FoodData::from_str("100");

    assert_eq!(food_data, FoodData::Number(100000));
}

#[test]
fn test_food_data_rate() {
    let food_data = FoodData::Number(100000);
    assert_eq!(food_data.rate(1, 2), FoodData::Number(50000));

    let food_data = FoodData::Number(100000);
    assert_eq!(food_data.rate(2, 1), FoodData::Number(200000));

    let food_data = FoodData::Estimated(100000);
    assert_eq!(food_data.rate(2, 1), FoodData::Estimated(200000));
}

#[test]
fn test_food_data_to_string() {
    let food_data = FoodData::from_str("100");
    assert_eq!(&food_data.to_string(), "100");

    let food_data = FoodData::from_str("(100)");
    assert_eq!(&food_data.to_string(), "(100)");

    let food_data = FoodData::from_str("(100.0)");
    assert_eq!(&food_data.to_string(), "(100)");

    let food_data = FoodData::from_str("(0.1)");
    assert_eq!(&food_data.to_string(), "(0.1)");

    let food_data = FoodData::from_str("(1.1)");
    assert_eq!(&food_data.to_string(), "(1.1)");

    let food_data = FoodData::from_str("(0)");
    assert_eq!(&food_data.to_string(), "(0)");

    let food_data = FoodData::from_str("(Tr)");
    assert_eq!(&food_data.to_string(), "(Tr)");
}

#[test]
fn parsing_amounts() {
    assert_eq!(FoodData::from_str("1952.7593"), FoodData::Number(1952759));
    assert_eq!(FoodData::from_str("5."), FoodData::Number(5000));
    assert_eq!(FoodData::from_str("0.05"), FoodData::Number(50));
    assert_eq!(FoodData::from_str("((2.5))"), FoodData::Estimated(2500));
    assert_eq!(FoodData::from_str("-"), FoodData::Text("-".to_string()));
    assert_eq!(FoodData::from_str(""), FoodData::Text("".to_string()));
    assert_eq!(FoodData::from_str("1.2.3"), FoodData::Text("1.2.3".to_string()));
    assert_eq!(FoodData::from_str("ネギ"), FoodData::Text("ネギ".to_string()));
    assert_eq!(FoodData::from_str("18446744073709551.615"), FoodData::Number(u64::MAX));
    assert_eq!(
        FoodData::from_str("18446744073709551.616"),
        FoodData::Text("18446744073709551.616".to_string())
    );
}

#[test]
fn formatting_rounds_to_two_places() {
    assert_eq!(FoodData::Number(0).to_string(), "0");
    assert_eq!(FoodData::Estimated(0).to_string(), "(0)");
    assert_eq!(FoodData::Number(1234).to_string(), "1.23");
    assert_eq!(FoodData::Number(1235).to_string(), "1.24");
    assert_eq!(FoodData::Number(42700).to_string(), "42.7");
    assert_eq!(FoodData::Number(4).to_string(), "0");
    assert_eq!(FoodData::Absent.to_string(), "-");
    assert_eq!(FoodData::Text("馬肉".to_string()).to_string(), "馬肉");
}

#[test]
fn adding_cells() {
    assert_eq!(FoodData::Number(10000).add(&FoodData::Number(20000)), FoodData::Number(30000));
    assert_eq!(FoodData::Number(1).add(&FoodData::Estimated(2)), FoodData::Estimated(3));
    assert_eq!(FoodData::Estimated(1).add(&FoodData::Estimated(2)), FoodData::Estimated(3));
    assert_eq!(FoodData::Number(1).add(&FoodData::Absent), FoodData::Absent);
    assert_eq!(FoodData::Text("a".to_string()).add(&FoodData::Number(1)), FoodData::Absent);
    assert_eq!(FoodData::Number(u64::MAX).add(&FoodData::Number(1)), FoodData::Number(u64::MAX));
}

#[test]
fn scaling_keeps_text_and_rounds_down() {
    assert_eq!(FoodData::Text("x".to_string()).rate(3, 1), FoodData::Text("x".to_string()));
    assert_eq!(FoodData::Absent.rate(3, 1), FoodData::Absent);
    assert_eq!(FoodData::Number(10).rate(1, 3), FoodData::Number(3));
    assert_eq!(FoodData::Number(u64::MAX).rate(2, 1), FoodData::Number(u64::MAX));
    assert_eq!(FoodData::Number(7).get_number(), Some(7));
    assert_eq!(FoodData::Estimated(8).get_number(), Some(8));
    assert_eq!(FoodData::Absent.get_number(), None);
}
