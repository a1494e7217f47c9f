use kubectl_view_rngd::render::short_device_name;

#[test]
fn short_device_name_strips_only_digit_suffixes() {
    assert_eq!(short_device_name("npu0"), "0");
    assert_eq!(short_device_name("dev12"), "12");
    assert_eq!(short_device_name("abc"), "abc");
    assert_eq!(short_device_name("a1b2"), "a1b2");
}
