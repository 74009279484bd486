use meal::kijun::{Gender, Kijun, KijunValue, PAL, TRACKED_COUNT};

#[test]
fn test_kijun_value_to_string() {
    assert_eq!(&KijunValue::Recommended(20000).to_string(), "= 20");
    assert_eq!(&KijunValue::Recommended(20500).to_string(), "= 20.5");
    assert_eq!(&KijunValue::Recommended(30500).to_string(), "= 31");
    assert_eq!(&KijunValue::Range(20500, 30500).to_string(), "20.5 ~ 31");
}

#[test]
fn test_kijun_value_get_percentage() {
    assert_eq!(KijunValue::Recommended(20000).get_percentage(20000), 100000);
    assert_eq!(KijunValue::Recommended(20000).get_percentage(40000), 200000);
    assert_eq!(KijunValue::Recommended(20000).get_percentage(10000), 50000);
    assert_eq!(KijunValue::UpperBound(20000).get_percentage(10000), 100000);
    assert_eq!(KijunValue::LowerBound(20000).get_percentage(40000), 100000);
    assert_eq!(KijunValue::Range(20000, 40000).get_percentage(30000), 100000);
}

#[test]
fn test_kijun_value_change_days() {
    let mut kijun_value = KijunValue::Recommended(20000);
    kijun_value.change_days(10);
    assert_eq!(&kijun_value.to_string(), "= 200");
    kijun_value.change_days(0);
    assert_eq!(&kijun_value.to_string(), "= 0");
}

#[test]
fn percentages_outside_the_satisfactory_band() {
    assert_eq!(KijunValue::Adequate(20000).get_percentage(30000), 150000);
    assert_eq!(KijunValue::UpperBound(20000).get_percentage(30000), 150000);
    assert_eq!(KijunValue::LowerBound(20000).get_percentage(5000), 25000);
    assert_eq!(KijunValue::Range(20000, 40000).get_percentage(10000), 50000);
    assert_eq!(KijunValue::Range(20000, 40000).get_percentage(60000), 150000);
    assert_eq!(KijunValue::Range(20000, 40000).get_percentage(20000), 100000);
    assert_eq!(KijunValue::Range(20000, 40000).get_percentage(40000), 100000);
    assert_eq!(KijunValue::Recommended(3000).get_percentage(1000), 33333);
}

#[test]
fn reference_signs() {
    assert_eq!(KijunValue::Adequate(1500).to_string(), "? 1.5");
    assert_eq!(KijunValue::UpperBound(7499).to_string(), "- 7.49");
    assert_eq!(KijunValue::LowerBound(2650000).to_string(), "+ 2650");
    assert_eq!(KijunValue::Range(30001, 30499).to_string(), "30 ~ 30");
}

#[test]
fn days_multiply_every_bound() {
    let mut v = KijunValue::Range(2000, 3000);
    v.change_days(3);
    assert_eq!(v, KijunValue::Range(6000, 9000));
    let mut u = KijunValue::UpperBound(7500);
    u.change_days(2);
    assert_eq!(u, KijunValue::UpperBound(15000));
}

#[test]
fn kijun_scales_daily_references_and_finds_them_by_name() {
    let mut per_day = vec![None; TRACKED_COUNT];
    per_day[0] = Some(KijunValue::Adequate(2000000));
    per_day[20] = Some(KijunValue::UpperBound(3000000));
    let kijun = Kijun::new(20, Gender::Male, PAL::Low, 2, per_day);
    assert_eq!(kijun.get("エネルギー"), Some(KijunValue::Adequate(4000000)));
    assert_eq!(kijun.get("ナトリウム"), Some(KijunValue::UpperBound(6000000)));
    assert_eq!(kijun.get("たんぱく質"), None);
    assert_eq!(kijun.get("水分"), None);
    assert_eq!(kijun.get("unknown"), None);
    assert_eq!(kijun.get_at(20), Some(KijunValue::UpperBound(6000000)));
}

#[test]
fn references_listed_by_name() {
    let mut per_day = vec![None; TRACKED_COUNT];
    per_day[1] = Some(KijunValue::Recommended(60000));
    let kijun = Kijun::new(30, Gender::Female, PAL::High, 1, per_day);
    assert_eq!(
        kijun.get_list(&["たんぱく質", "脂質", "x"]),
        vec![Some(KijunValue::Recommended(60000)), None, None]
    );
}

#[test]
fn scored_nutrients_answer_to_their_other_names() {
    let mut per_day = vec![None; TRACKED_COUNT];
    per_day[6] = Some(KijunValue::LowerBound(20000));
    per_day[7] = Some(KijunValue::Recommended(850000));
    per_day[9] = Some(KijunValue::Adequate(6500));
    let kijun = Kijun::new(20, Gender::Male, PAL::Low, 1, per_day);
    assert_eq!(kijun.get("食物繊維"), Some(KijunValue::LowerBound(20000)));
    assert_eq!(kijun.get("ビタミンA"), Some(KijunValue::Recommended(850000)));
    assert_eq!(kijun.get("ビタミンE"), Some(KijunValue::Adequate(6500)));
    assert_eq!(kijun.get("n-6系脂肪酸"), None);
}
