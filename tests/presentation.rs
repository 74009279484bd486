use meal::color::color;
use meal::options::Options;

#[test]
fn color_wraps_text_in_styles() {
    assert_eq!(color("abc", "g+"), "\x1b[32m\x1b[1mabc\x1b[0m");
    assert_eq!(color("x", ""), "x\x1b[0m");
    assert_eq!(color("x", "zR?"), "\x1b[91mx\x1b[0m");
    assert_eq!(color("達成率", "W"), "\x1b[97m達成率\x1b[0m");
}

#[test]
fn options_accept_only_known_keys() {
    let mut options = Options::new();
    assert!(!options.show_status);
    assert!(options.set("show_status", Some(true)).is_ok());
    assert!(options.show_status);
    assert_eq!(
        options.set("show_status", None),
        Err("show_statusの値はboolにしてください".to_string())
    );
    assert!(options.show_status);
    assert_eq!(
        options.set("verbose", Some(false)),
        Err("verbose というオプションはありません".to_string())
    );
    assert!(options.show_status);
}
