use dev_restaurant::colors::get_rgb_color;

#[test]
fn test_colors() {
    assert_eq!(get_rgb_color("merah").unwrap(), (255, 0, 0, 0));
    assert_eq!(get_rgb_color("merah muda").unwrap(), (255, 127, 127, 0));
    assert_eq!(get_rgb_color("merah tua").unwrap(), (128, 0, 0, 0));

    assert_eq!(get_rgb_color("hijau").unwrap(), (0, 255, 0, 0));
    assert_eq!(get_rgb_color("hijau muda").unwrap(), (127, 255, 127, 0));

    assert_eq!(get_rgb_color("biru").unwrap(), (0, 0, 255, 0));
    assert_eq!(get_rgb_color("biru muda").unwrap(), (127, 127, 255, 0));
    assert_eq!(get_rgb_color("biru tua").unwrap(), (0, 0, 128, 0));

    assert_eq!(get_rgb_color("kuning").unwrap(), (255, 255, 0, 0));
    assert_eq!(get_rgb_color("kuning muda").unwrap(), (255, 255, 102, 0));
    assert_eq!(get_rgb_color("kuning tua").unwrap(), (128, 128, 0, 0));
}

#[test]
fn unknown_color_is_none() {
    assert_eq!(get_rgb_color("ungu"), None);
    assert_eq!(get_rgb_color(""), None);
    assert_eq!(get_rgb_color("MERAH"), None);
}
