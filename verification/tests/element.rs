use calendar_layout::element::HTMLElement;

#[test]
fn test_html_element_new() {
    let attrs = &[("height", 720.to_string())];
    let el = HTMLElement::new("svg", attrs);

    assert_eq!(el.tag(), "svg");
    assert_eq!(el.body().is_empty(), true);
    assert_eq!(el.attr("height").unwrap(), "720");
}

#[test]
fn test_html_element_append_child() {
    let mut el = HTMLElement::new("svg", &[]);
    el.append_child(HTMLElement::new("g", &[]));
    assert_eq!(el.body().len(), 1);
}

#[test]
fn test_html_element_to_string() {
    let mut el = HTMLElement::new("svg", &[("width", 600.to_string())]);
    let g = HTMLElement::new("g", &[("transform", "translate(10,0)".to_string())]);
    el.append_child(g);
    assert_eq!(
        el.to_string(),
        "<svg width=\"600\"><g transform=\"translate(10,0)\"></g></svg>"
    );
}

#[test]
fn attributes_stand_in_the_order_of_their_names() {
    let el = HTMLElement::new(
        "svg",
        &[
            ("width", "600".to_string()),
            ("height", "720".to_string()),
            ("viewBox", "0 0 600 720".to_string()),
            ("style", "s".to_string()),
        ],
    );
    assert_eq!(
        el.to_string(),
        "<svg height=\"720\" style=\"s\" viewBox=\"0 0 600 720\" width=\"600\"></svg>"
    );
}

#[test]
fn the_last_value_of_an_attribute_stays() {
    let mut el = HTMLElement::new("g", &[("x", "1".to_string()), ("x", "2".to_string())]);
    assert_eq!(el.attr("x").unwrap(), "2");
    el.attrs(&[("x", "3".to_string()), ("a", "0".to_string())]);
    assert_eq!(el.attr("x").unwrap(), "3");
    assert_eq!(el.to_string(), "<g a=\"0\" x=\"3\"></g>");
}

#[test]
fn attr_of_a_name_that_is_not_there() {
    let el = HTMLElement::new("g", &[("x", "1".to_string())]);
    assert!(el.attr("y").is_none());
    assert!(el.attr("").is_none());
}

#[test]
fn text_and_elements_as_children() {
    let mut el = HTMLElement::new("text", &[]);
    el.append_text("a".to_string());
    let mut tspan = HTMLElement::new("tspan", &[("dy", "1".to_string())]);
    tspan.append_text("b".to_string());
    el.append_child(tspan);
    el.append_text("c".to_string());
    assert_eq!(el.body().len(), 3);
    assert_eq!(el.to_string(), "<text>a<tspan dy=\"1\">b</tspan>c</text>");
}

#[test]
fn element_without_attributes_or_children() {
    assert_eq!(HTMLElement::new("g", &[]).to_string(), "<g></g>");
}

#[test]
fn deeply_nested_elements() {
    let mut el = HTMLElement::new("a", &[]);
    for _ in 0..50 {
        let mut outer = HTMLElement::new("a", &[]);
        outer.append_child(el);
        el = outer;
    }
    let expected = format!("{}{}", "<a>".repeat(51), "</a>".repeat(51));
    assert_eq!(el.to_string(), expected);
}
