use calendar_layout::events::deserialize;
use calendar_layout::layout::layout;
use calendar_layout::matrix::build;
use calendar_layout::positions::calculate;
use calendar_layout::svg::{
    create_clip_path, create_event_container, create_event_time, create_event_title,
    create_events_container, create_grid_container, create_hour_group, create_svg_container,
    create_vertical_line, format_interval, hour_label, render, EVENT_WIDTH, HOUR_HEIGHT,
    HOUR_MARKS, SVG_HEIGHT, SVG_WIDTH,
};
use calendar_layout::types::{Event, EventBox, EventPosition, ExternalEvent, LayoutError};

const STYLE: &str =
    "\n       overflow: visible;\n       font-family: Helvetica, Arial;\n       font-size: 0.8em;\n    ";

const HOURS: [&str; 13] = [
    "9 AM", "10 AM", "11 AM", "12 PM", "1 PM", "2 PM", "3 PM", "4 PM", "5 PM", "6 PM", "7 PM",
    "8 PM", "9 PM",
];

fn event(id: u16, starts_at: u16, duration: u16, title: Option<&str>, location: Option<&str>) -> Event {
    Event {
        id,
        starts_at,
        duration,
        title: title.map(|t| t.to_string()),
        location: location.map(|l| l.to_string()),
    }
}

fn external(starts_at: u16, duration: u16, title: &str) -> ExternalEvent {
    ExternalEvent { starts_at, duration, title: Some(title.to_string()), location: None }
}

fn boxed(id: u16, width: &str, left: &str) -> EventBox {
    EventBox { id, width: width.to_string(), left: left.to_string() }
}

fn pixel_box(position: &EventPosition) -> EventBox {
    let width = EVENT_WIDTH as f32 * (1.0 / position.columns as f32);
    EventBox {
        id: position.id,
        width: width.to_string(),
        left: (position.offset as f32 * width).to_string(),
    }
}

fn grid() -> String {
    let mut grid = String::from("<g stroke=\"#f8f8f8\">");
    for (i, hour) in HOURS.iter().enumerate() {
        grid.push_str(&format!(
            "<g transform=\"translate(0,{})\"><line x2=\"600\"></line><text dy=\".35em\" fill=\"#c9c9c9\" stroke=\"none\" text-anchor=\"end\" x=\"-10\">{}</text></g>",
            i * 60,
            hour
        ));
    }
    grid.push_str("<line transform=\"translate(600,0)\" y2=\"720\"></line>");
    grid.push_str("<line transform=\"translate(0,0)\" y2=\"720\"></line>");
    grid.push_str("</g>");
    grid
}

fn canvas(inner: &str) -> String {
    format!(
        "<svg height=\"720\" style=\"{}\" viewBox=\"0 0 600 720\" width=\"600\">{}</svg>",
        STYLE, inner
    )
}

#[test]
fn canvas_constants() {
    assert_eq!(SVG_WIDTH, 600);
    assert_eq!(SVG_HEIGHT, 720);
    assert_eq!(HOUR_MARKS, 13);
    assert_eq!(HOUR_HEIGHT, 60);
    assert_eq!(EVENT_WIDTH, 580);
}

#[test]
fn format_interval_on_the_hour() {
    assert_eq!(format_interval(0), "9 AM");
    assert_eq!(format_interval(60), "10 AM");
    assert_eq!(format_interval(120), "11 AM");
    assert_eq!(format_interval(180), "12 PM");
    assert_eq!(format_interval(240), "1 PM");
    assert_eq!(format_interval(720), "9 PM");
}

#[test]
fn format_interval_with_minutes() {
    assert_eq!(format_interval(30), "9:30 AM");
    assert_eq!(format_interval(90), "10:30 AM");
    assert_eq!(format_interval(179), "11:59 AM");
    assert_eq!(format_interval(181), "12:1 PM");
    assert_eq!(format_interval(245), "1:5 PM");
}

#[test]
fn format_interval_beyond_the_day() {
    assert_eq!(format_interval(900), "12 PM");
    assert_eq!(format_interval(960), "13 PM");
    assert_eq!(format_interval(65535), "1089:15 PM");
}

#[test]
fn hour_labels_of_the_grid() {
    for i in 0..13 {
        assert_eq!(hour_label(i as u16), HOURS[i]);
        assert_eq!(hour_label(i as u16), format_interval(i as u16 * 60));
    }
}

#[test]
fn svg_container_markup() {
    assert_eq!(create_svg_container().to_string(), canvas(""));
}

#[test]
fn events_container_markup() {
    assert_eq!(create_events_container().to_string(), "<g transform=\"translate(10,0)\"></g>");
}

#[test]
fn hour_group_markup() {
    assert_eq!(
        create_hour_group("10 AM", "60".to_string()).to_string(),
        "<g transform=\"translate(0,60)\"><line x2=\"600\"></line><text dy=\".35em\" fill=\"#c9c9c9\" stroke=\"none\" text-anchor=\"end\" x=\"-10\">10 AM</text></g>"
    );
}

#[test]
fn vertical_line_markup() {
    assert_eq!(
        create_vertical_line("600".to_string()).to_string(),
        "<line transform=\"translate(600,0)\" y2=\"720\"></line>"
    );
}

#[test]
fn grid_container_markup() {
    assert_eq!(create_grid_container().to_string(), grid());
}

#[test]
fn event_title_of_title_and_location() {
    let title = create_event_title(&event(0, 0, 30, Some("Lunch"), Some("Kitchen"))).unwrap();
    assert_eq!(
        title.to_string(),
        "<tspan dy=\"-0.1em\" style=\"font-weight: bold;\">Lunch/Kitchen</tspan>"
    );
}

#[test]
fn event_title_of_one_of_the_two() {
    let title = create_event_title(&event(0, 0, 30, Some("Lunch"), None)).unwrap();
    assert_eq!(title.to_string(), "<tspan dy=\"-0.1em\" style=\"font-weight: bold;\">Lunch</tspan>");
    let location = create_event_title(&event(0, 0, 30, None, Some("Kitchen"))).unwrap();
    assert_eq!(
        location.to_string(),
        "<tspan dy=\"-0.1em\" style=\"font-weight: bold;\">Kitchen</tspan>"
    );
}

#[test]
fn event_title_of_neither() {
    assert!(create_event_title(&event(0, 0, 30, None, None)).is_none());
}

#[test]
fn event_time_markup() {
    let e = event(0, 60, 45, None, None);
    assert_eq!(
        create_event_time(&e, true).to_string(),
        "<tspan dy=\"0.9em\" x=\"0\">10 AM – 10:45 AM</tspan>"
    );
    assert_eq!(
        create_event_time(&e, false).to_string(),
        "<tspan dy=\"0.35em\" x=\"0\">10 AM – 10:45 AM</tspan>"
    );
}

#[test]
fn clip_path_markup() {
    let (id, clip) = create_clip_path(&event(0, 60, 45, None, None), "193.33334", 3);
    assert_eq!(id, "clip-path-3");
    assert_eq!(
        clip.to_string(),
        "<clipPath id=\"clip-path-3\"><rect height=\"45\" width=\"193.33334\"></rect></clipPath>"
    );
}

#[test]
fn event_without_title_and_location_has_the_time_alone() {
    let g = create_event_container(&event(0, 60, 60, None, None), "580", "0", "clip-path-1".to_string());
    assert_eq!(
        g.to_string(),
        "<g clip-path=\"url(#clip-path-1)\" transform=\"translate(0,60)\">\
<rect fill=\"#45a51c\" height=\"60\" opacity=\"0.3\" width=\"580\"></rect>\
<line stroke=\"#45a51c\" stroke-width=\"4\" y2=\"60\"></line>\
<text fill=\"#45a51c\" transform=\"translate(10,30)\">\
<tspan dy=\"0.35em\" x=\"0\">10 AM – 11 AM</tspan>\
</text></g>"
    );
}

#[test]
fn event_with_title_and_location_has_two_lines() {
    let g = create_event_container(
        &event(0, 70, 45, Some("Lunch"), Some("Kitchen")),
        "290",
        "290",
        "clip-path-2".to_string(),
    );
    assert_eq!(
        g.to_string(),
        "<g clip-path=\"url(#clip-path-2)\" transform=\"translate(290,70)\">\
<rect fill=\"#45a51c\" height=\"45\" opacity=\"0.3\" width=\"290\"></rect>\
<line stroke=\"#45a51c\" stroke-width=\"4\" y2=\"45\"></line>\
<text fill=\"#45a51c\" transform=\"translate(10,22.5)\">\
<tspan dy=\"-0.1em\" style=\"font-weight: bold;\">Lunch/Kitchen</tspan>\
<tspan dy=\"0.9em\" x=\"0\">10:10 AM – 10:55 AM</tspan>\
</text></g>"
    );
}

#[test]
fn render_of_no_events_is_the_grid() {
    let markup = render(&vec![], &vec![]).unwrap();
    assert_eq!(markup, canvas(&format!("{}<g transform=\"translate(10,0)\"></g>", grid())));
}

#[test]
fn render_of_two_events() {
    let events = vec![event(0, 0, 30, Some("a"), None), event(1, 60, 30, None, None)];
    let boxes = vec![boxed(0, "580", "0"), boxed(1, "580", "0")];
    let markup = render(&events, &boxes).unwrap();
    let first = create_event_container(&events[0], "580", "0", "clip-path-1".to_string());
    let second = create_event_container(&events[1], "580", "0", "clip-path-2".to_string());
    let expected = canvas(&format!(
        "{}{}{}<g transform=\"translate(10,0)\">{}{}</g>",
        grid(),
        "<clipPath id=\"clip-path-1\"><rect height=\"30\" width=\"580\"></rect></clipPath>",
        "<clipPath id=\"clip-path-2\"><rect height=\"30\" width=\"580\"></rect></clipPath>",
        first.to_string(),
        second.to_string()
    ));
    assert_eq!(markup, expected);
}

#[test]
fn render_finds_the_event_of_a_box_by_its_place() {
    let events = vec![event(0, 0, 30, Some("first"), None), event(1, 60, 30, Some("second"), None)];
    let markup = render(&events, &vec![boxed(1, "580", "0")]).unwrap();
    assert!(markup.contains("second"));
    assert!(!markup.contains("first"));
    assert!(markup.contains("clip-path-1"));
    assert!(!markup.contains("clip-path-2"));
}

#[test]
fn render_numbers_the_clip_regions_anew() {
    let events = vec![event(0, 0, 30, None, None)];
    let boxes = vec![boxed(0, "580", "0")];
    let first = render(&events, &boxes).unwrap();
    let second = render(&events, &boxes).unwrap();
    assert!(second.contains("clip-path-1"));
    assert_eq!(first, second);
}

#[test]
fn render_refuses_a_box_without_event() {
    let events = vec![event(0, 0, 30, None, None)];
    assert_eq!(render(&events, &vec![boxed(1, "580", "0")]), Err(LayoutError::InvalidInput));
    assert_eq!(render(&vec![], &vec![boxed(0, "580", "0")]), Err(LayoutError::InvalidInput));
}

#[test]
fn render_refuses_an_event_of_no_duration() {
    let events = vec![event(0, 0, 30, None, None), event(1, 60, 0, None, None)];
    assert_eq!(
        render(&events, &vec![boxed(0, "580", "0"), boxed(1, "580", "0")]),
        Err(LayoutError::InvalidInput)
    );
    // an event that is not drawn does no harm
    assert!(render(&events, &vec![boxed(0, "580", "0")]).is_ok());
}

#[test]
fn render_refuses_an_end_beyond_the_last_minute() {
    let events = vec![event(0, 65000, 536, None, None)];
    assert_eq!(render(&events, &vec![boxed(0, "580", "0")]), Err(LayoutError::InvalidInput));
    let events = vec![event(0, 65000, 535, None, None)];
    assert!(render(&events, &vec![boxed(0, "580", "0")]).is_ok());
}

#[test]
fn test_render_events() {
    let events = deserialize(vec![
        external(60, 60, "Looooooooooooooooooooooooooong"),
        external(70, 30, "1"),
        external(110, 120, "2"),
        external(115, 30, "3"),
        external(200, 30, "4"),
        external(220, 100, "5"),
        external(310, 100, "6"),
    ]);
    let matrix = build(events.clone());
    let positions = calculate(matrix);
    let boxes: Vec<EventBox> = positions.iter().map(pixel_box).collect();

    println!("{}", render(&events, &boxes).unwrap());
}

#[test]
fn render_of_a_laid_out_day() {
    let events = vec![
        event(0, 60, 60, Some("Looooooooooooooooooooooooooong"), None),
        event(1, 70, 30, Some("1"), None),
        event(2, 110, 120, Some("2"), None),
        event(3, 115, 30, Some("3"), None),
        event(4, 200, 30, Some("4"), None),
        event(5, 220, 100, Some("5"), None),
        event(6, 310, 100, Some("6"), None),
    ];
    let boxes: Vec<EventBox> = layout(events.clone()).iter().map(pixel_box).collect();
    let markup = render(&events, &boxes).unwrap();
    assert!(markup.starts_with("<svg height=\"720\""));
    assert!(markup.ends_with("</g></svg>"));
    assert_eq!(markup.matches("<clipPath").count(), 7);
    assert_eq!(markup.matches("width=\"193.33334\"").count(), 14);
    assert!(markup.contains("translate(193.33334,70)"));
    assert!(markup.contains("translate(0,60)"));
    assert!(markup.contains("Looooooooooooooooooooooooooong"));
    assert_eq!(markup, render(&events, &boxes).unwrap());
}
