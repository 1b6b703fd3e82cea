use calendar_layout::text::{decimal, half, order_of_names, NameOrder};

#[test]
fn decimal_writes_numbers() {
    assert_eq!(decimal(0), "0");
    assert_eq!(decimal(7), "7");
    assert_eq!(decimal(10), "10");
    assert_eq!(decimal(600), "600");
    assert_eq!(decimal(720), "720");
    assert_eq!(decimal(65535), "65535");
    assert_eq!(decimal(1234567890), "1234567890");
}

#[test]
fn half_writes_halves() {
    assert_eq!(half(0), "0");
    assert_eq!(half(1), "0.5");
    assert_eq!(half(45), "22.5");
    assert_eq!(half(60), "30");
    assert_eq!(half(65535), "32767.5");
}

#[test]
fn order_of_names_is_that_of_strings() {
    assert_eq!(order_of_names("height", "width"), NameOrder::Before);
    assert_eq!(order_of_names("width", "height"), NameOrder::After);
    assert_eq!(order_of_names("width", "width"), NameOrder::Same);
    assert_eq!(order_of_names("stroke", "stroke-width"), NameOrder::Before);
    assert_eq!(order_of_names("", "a"), NameOrder::Before);
    assert_eq!(order_of_names("", ""), NameOrder::Same);
    assert_eq!(order_of_names("viewBox", "style"), NameOrder::After);
    assert_eq!(order_of_names("Z", "a"), NameOrder::Before);
}

#[test]
fn order_of_names_agrees_with_str() {
    let names = ["", "a", "ab", "b", "dy", "é", "x", "z–", "–", "😀", "fill", "Fill"];
    for a in names {
        for b in names {
            let expected = if a < b {
                NameOrder::Before
            } else if a == b {
                NameOrder::Same
            } else {
                NameOrder::After
            };
            assert_eq!(order_of_names(a, b), expected);
        }
    }
}
