//! The geometry renderer: the grid of hours and the events as markup.

use crate::element::{attr_views, element, element_markup, ElementView, HTMLElement, NodeView};
use crate::text::{decimal, decimal_text, half, half_text, lemma_decimal_texts_differ};
use crate::types::{Event, EventBox, LayoutError};
use vstd::prelude::*;
use vstd::string::*;

verus! {

/// The width of the canvas.
pub const SVG_WIDTH: u16 = 600;

/// The height of the canvas. With thirteen hour marks an hour is 60 high, so
/// that a minute is exactly 1 high: an event is drawn as many units from the
/// top as it starts minutes after the first hour mark.
pub const SVG_HEIGHT: u16 = 720;

/// The number of hour marks on the grid.
pub const HOUR_MARKS: u16 = 13;

/// The height of an hour on the canvas.
pub const HOUR_HEIGHT: u16 = SVG_HEIGHT / (HOUR_MARKS - 1);

/// The width that the events share: the canvas without the margins.
pub const EVENT_WIDTH: u16 = SVG_WIDTH - 20;

/// The style of the canvas.
pub open spec fn canvas_style() -> Seq<char> {
    "\n       overflow: visible;\n       font-family: Helvetica, Arial;\n       font-size: 0.8em;\n    "@
}

/// The canvas: an `svg` element of the canvas's width and height.
pub open spec fn svg_container() -> ElementView {
    element(
        "svg"@,
        seq![
            ("width"@, decimal_text(SVG_WIDTH as nat)),
            ("height"@, decimal_text(SVG_HEIGHT as nat)),
            (
                "viewBox"@,
                "0 0 "@ + decimal_text(SVG_WIDTH as nat) + " "@ + decimal_text(SVG_HEIGHT as nat),
            ),
            ("style"@, canvas_style()),
        ],
    )
}

/// Makes the canvas.
pub fn create_svg_container() -> (svg: HTMLElement)
    ensures
        svg@ == svg_container(),
{
    let mut view_box = String::from_str("0 0 ");
    view_box.append(decimal(SVG_WIDTH as usize).as_str());
    view_box.append(" ");
    view_box.append(decimal(SVG_HEIGHT as usize).as_str());
    let style = String::from_str(
        "\n       overflow: visible;\n       font-family: Helvetica, Arial;\n       font-size: 0.8em;\n    ",
    );
    let attrs = [
        ("width", decimal(SVG_WIDTH as usize)),
        ("height", decimal(SVG_HEIGHT as usize)),
        ("viewBox", view_box),
        ("style", style),
    ];
    assert(attr_views(attrs@) =~= seq![
        ("width"@, decimal_text(SVG_WIDTH as nat)),
        ("height"@, decimal_text(SVG_HEIGHT as nat)),
        (
            "viewBox"@,
            "0 0 "@ + decimal_text(SVG_WIDTH as nat) + " "@ + decimal_text(SVG_HEIGHT as nat),
        ),
        ("style"@, canvas_style()),
    ]);
    HTMLElement::new("svg", &attrs)
}

/// The group that holds the events: shifted right by the left margin.
pub open spec fn events_container() -> ElementView {
    element("g"@, seq![("transform"@, "translate(10,0)"@)])
}

/// Makes the group that holds the events.
pub fn create_events_container() -> (g: HTMLElement)
    ensures
        g@ == events_container(),
{
    let attrs = [("transform", String::from_str("translate(10,0)"))];
    assert(attr_views(attrs@) =~= seq![("transform"@, "translate(10,0)"@)]);
    HTMLElement::new("g", &attrs)
}

/// The label of the hour mark `i`, the first being 9 AM.
pub open spec fn hour_text(i: int) -> Seq<char>
    recommends
        0 <= i < HOUR_MARKS,
{
    if i == 0 {
        "9 AM"@
    } else if i == 1 {
        "10 AM"@
    } else if i == 2 {
        "11 AM"@
    } else if i == 3 {
        "12 PM"@
    } else if i == 4 {
        "1 PM"@
    } else if i == 5 {
        "2 PM"@
    } else if i == 6 {
        "3 PM"@
    } else if i == 7 {
        "4 PM"@
    } else if i == 8 {
        "5 PM"@
    } else if i == 9 {
        "6 PM"@
    } else if i == 10 {
        "7 PM"@
    } else if i == 11 {
        "8 PM"@
    } else {
        "9 PM"@
    }
}

/// The label of the hour mark `i`.
pub fn hour_label(i: u16) -> (hour: &'static str)
    requires
        i < HOUR_MARKS,
    ensures
        hour@ == hour_text(i as int),
{
    if i == 0 {
        "9 AM"
    } else if i == 1 {
        "10 AM"
    } else if i == 2 {
        "11 AM"
    } else if i == 3 {
        "12 PM"
    } else if i == 4 {
        "1 PM"
    } else if i == 5 {
        "2 PM"
    } else if i == 6 {
        "3 PM"
    } else if i == 7 {
        "4 PM"
    } else if i == 8 {
        "5 PM"
    } else if i == 9 {
        "6 PM"
    } else if i == 10 {
        "7 PM"
    } else if i == 11 {
        "8 PM"
    } else {
        "9 PM"
    }
}

/// An hour mark: a guide line across the canvas and the hour's label to the
/// left of it, `offset` down from the top.
pub open spec fn hour_group(hour: Seq<char>, offset: Seq<char>) -> ElementView {
    element("g"@, seq![("transform"@, "translate(0,"@ + offset + ")"@)]).child(
        element("line"@, seq![("x2"@, decimal_text(SVG_WIDTH as nat))]),
    ).child(
        element(
            "text"@,
            seq![
                ("text-anchor"@, "end"@),
                ("dy"@, ".35em"@),
                ("x"@, "-10"@),
                ("fill"@, "#c9c9c9"@),
                ("stroke"@, "none"@),
            ],
        ).text(hour),
    )
}

/// Makes an hour mark with its label, `offset` down from the top.
pub fn create_hour_group(hour: &str, offset: String) -> (g: HTMLElement)
    ensures
        g@ == hour_group(hour@, offset@),
{
    let mut translate = String::from_str("translate(0,");
    translate.append(offset.as_str());
    translate.append(")");
    let g_attrs = [("transform", translate)];
    assert(attr_views(g_attrs@) =~= seq![("transform"@, "translate(0,"@ + offset@ + ")"@)]);
    let mut g = HTMLElement::new("g", &g_attrs);

    let line_attrs = [("x2", decimal(SVG_WIDTH as usize))];
    assert(attr_views(line_attrs@) =~= seq![("x2"@, decimal_text(SVG_WIDTH as nat))]);
    let line = HTMLElement::new("line", &line_attrs);
    let text_attrs = [
        ("text-anchor", String::from_str("end")),
        ("dy", String::from_str(".35em")),
        ("x", String::from_str("-10")),
        ("fill", String::from_str("#c9c9c9")),
        ("stroke", String::from_str("none")),
    ];
    assert(attr_views(text_attrs@) =~= seq![
        ("text-anchor"@, "end"@),
        ("dy"@, ".35em"@),
        ("x"@, "-10"@),
        ("fill"@, "#c9c9c9"@),
        ("stroke"@, "none"@),
    ]);
    let mut text = HTMLElement::new("text", &text_attrs);
    text.append_text(String::from_str(hour));

    g.append_child(line);
    g.append_child(text);
    g
}

/// A border line from the top of the canvas to its bottom, `offset` from the
/// left.
pub open spec fn vertical_line(offset: Seq<char>) -> ElementView {
    element(
        "line"@,
        seq![
            ("transform"@, "translate("@ + offset + ",0)"@),
            ("y2"@, decimal_text(SVG_HEIGHT as nat)),
        ],
    )
}

/// Makes a border line, `offset` from the left.
pub fn create_vertical_line(offset: String) -> (line: HTMLElement)
    ensures
        line@ == vertical_line(offset@),
{
    let mut translate = String::from_str("translate(");
    translate.append(offset.as_str());
    translate.append(",0)");
    let attrs = [("transform", translate), ("y2", decimal(SVG_HEIGHT as usize))];
    assert(attr_views(attrs@) =~= seq![
        ("transform"@, "translate("@ + offset@ + ",0)"@),
        ("y2"@, decimal_text(SVG_HEIGHT as nat)),
    ]);
    HTMLElement::new("line", &attrs)
}

/// The first `n` hour marks, an hour's height apart.
pub open spec fn hour_groups(n: int) -> Seq<NodeView> {
    Seq::new(
        n as nat,
        |i: int|
            NodeView::Element(hour_group(hour_text(i), decimal_text((i * HOUR_HEIGHT) as nat))),
    )
}

/// The grid: the hour marks, then the right and the left border line.
pub open spec fn grid_container() -> ElementView {
    ElementView {
        body: hour_groups(HOUR_MARKS as int) + seq![
            NodeView::Element(vertical_line(decimal_text(SVG_WIDTH as nat))),
            NodeView::Element(vertical_line("0"@)),
        ],
        ..element("g"@, seq![("stroke"@, "#f8f8f8"@)])
    }
}

/// Makes the grid: the hour marks and the two border lines.
pub fn create_grid_container() -> (g: HTMLElement)
    ensures
        g@ == grid_container(),
{
    let attrs = [("stroke", String::from_str("#f8f8f8"))];
    assert(attr_views(attrs@) =~= seq![("stroke"@, "#f8f8f8"@)]);
    let mut g = HTMLElement::new("g", &attrs);
    let ghost bare = g@;
    assert(bare.body =~= hour_groups(0));

    let mut i: u16 = 0;
    while i < HOUR_MARKS
        invariant
            i <= HOUR_MARKS,
            g@ == (ElementView { body: hour_groups(i as int), ..bare }),
        decreases HOUR_MARKS - i,
    {
        proof {
            lemma_minute_height();
        }
        g.append_child(create_hour_group(hour_label(i), decimal((i * HOUR_HEIGHT) as usize)));
        assert(g@.body =~= hour_groups(i + 1));
        i += 1;
    }

    g.append_child(create_vertical_line(decimal(SVG_WIDTH as usize)));
    g.append_child(create_vertical_line(String::from_str("0")));
    assert(g@.body =~= grid_container().body);
    g
}

/// The bold line of an event's label: the title and the location with a
/// slash between them, or the one of them that the event has.
pub open spec fn title_text(event: Event) -> Seq<char> {
    match (event.title, event.location) {
        (Some(title), Some(location)) => title@ + "/"@ + location@,
        (Some(title), None) => title@,
        (None, Some(location)) => location@,
        (None, None) => Seq::empty(),
    }
}

/// The bold line of an event's label as an element; none for an event that
/// has neither title nor location.
pub open spec fn event_title(event: Event) -> Option<ElementView> {
    if event.title is None && event.location is None {
        None
    } else {
        Some(
            element("tspan"@, seq![("style"@, "font-weight: bold;"@), ("dy"@, "-0.1em"@)]).text(
                title_text(event),
            ),
        )
    }
}

/// Makes the bold line of an event's label, if the event has a title or a
/// location.
pub fn create_event_title(event: &Event) -> (tspan: Option<HTMLElement>)
    ensures
        tspan is Some <==> event_title(*event) is Some,
        tspan matches Some(el) ==> Some(el@) == event_title(*event),
{
    if event.title.is_none() && event.location.is_none() {
        return None;
    }
    let attrs = [
        ("style", String::from_str("font-weight: bold;")),
        ("dy", String::from_str("-0.1em")),
    ];
    assert(attr_views(attrs@) =~= seq![("style"@, "font-weight: bold;"@), ("dy"@, "-0.1em"@)]);
    let mut tspan = HTMLElement::new("tspan", &attrs);
    let mut text = String::new();
    match &event.title {
        Some(title) => {
            text.append(title.as_str());
            match &event.location {
                Some(location) => {
                    text.append("/");
                    text.append(location.as_str());
                },
                None => {},
            }
        },
        None => {
            match &event.location {
                Some(location) => {
                    text.append(location.as_str());
                },
                None => {},
            }
        },
    }
    assert(text@ =~= title_text(*event));
    tspan.append_text(text);

    Some(tspan)
}

/// The clock label of the minute `interval` after the first hour mark, which
/// is 9 AM: the hour on the twelve-hour clock, the minutes after a colon
/// unless they are zero, and AM or PM.
pub open spec fn interval_text(interval: nat) -> Seq<char> {
    let minute = interval % 60;
    let hour = interval / 60 + 9;
    let shown = if hour > 12 {
        (hour - 12) as nat
    } else {
        hour
    };
    let clock = if minute != 0 {
        decimal_text(shown) + ":"@ + decimal_text(minute)
    } else {
        decimal_text(shown)
    };
    clock + " "@ + (if hour < 12 {
        "AM"@
    } else {
        "PM"@
    })
}

/// Writes the clock label of the minute `interval` after the first hour
/// mark.
pub fn format_interval(interval: u16) -> (label: String)
    ensures
        label@ == interval_text(interval as nat),
{
    let minute = interval % 60;
    let hour = (interval - minute) / 60 + 9;
    let period = if hour < 12 {
        "AM"
    } else {
        "PM"
    };

    let mut result = decimal(
        (if hour > 12 {
            hour - 12
        } else {
            hour
        }) as usize,
    );

    if minute != 0 {
        result.append(":");
        result.append(decimal(minute as usize).as_str());
    }
    result.append(" ");
    result.append(period);
    result
}

/// The time line of an event's label: from when to when it lasts. Below a
/// bold line it stands lower than it does alone.
pub open spec fn event_time(event: Event, has_title: bool) -> ElementView {
    element(
        "tspan"@,
        seq![("dy"@, if has_title {
            "0.9em"@
        } else {
            "0.35em"@
        }), ("x"@, "0"@)],
    ).text(
        interval_text(event.starts_at as nat) + " – "@ + interval_text(event.end_minute() as nat),
    )
}

/// Makes the time line of an event's label.
pub fn create_event_time(event: &Event, has_title: bool) -> (tspan: HTMLElement)
    requires
        event.end_minute() <= u16::MAX,
    ensures
        tspan@ == event_time(*event, has_title),
{
    let dy = if has_title {
        "0.9em"
    } else {
        "0.35em"
    };
    let attrs = [("dy", String::from_str(dy)), ("x", String::from_str("0"))];
    assert(attr_views(attrs@) =~= seq![("dy"@, dy@), ("x"@, "0"@)]);
    let mut tspan = HTMLElement::new("tspan", &attrs);
    let mut text = format_interval(event.starts_at);
    text.append(" – ");
    text.append(format_interval(event.ends_at()).as_str());
    tspan.append_text(text);

    tspan
}

/// The identifier of the `number`-th clip region of a drawing.
pub open spec fn clip_path_id(number: nat) -> Seq<char> {
    "clip-path-"@ + decimal_text(number)
}

/// The clip region of an event: a rectangle of the event's box, as wide as
/// `width` says and as high as the event lasts minutes.
pub open spec fn clip_path(event: Event, width: Seq<char>, number: nat) -> ElementView {
    element("clipPath"@, seq![("id"@, clip_path_id(number))]).child(
        element(
            "rect"@,
            seq![("width"@, width), ("height"@, decimal_text(event.duration as nat))],
        ),
    )
}

/// Makes the `number`-th clip region of a drawing; returns its identifier
/// with it.
pub fn create_clip_path(event: &Event, width: &str, number: usize) -> (clip: (String, HTMLElement))
    ensures
        clip.0@ == clip_path_id(number as nat),
        clip.1@ == clip_path(*event, width@, number as nat),
{
    let mut id = String::from_str("clip-path-");
    id.append(decimal(number).as_str());
    let clip_attrs = [("id", id.clone())];
    assert(attr_views(clip_attrs@) =~= seq![("id"@, clip_path_id(number as nat))]);
    let mut clip_path = HTMLElement::new("clipPath", &clip_attrs);
    let rect_attrs = [
        ("width", String::from_str(width)),
        ("height", decimal(event.duration as usize)),
    ];
    assert(attr_views(rect_attrs@) =~= seq![
        ("width"@, width@),
        ("height"@, decimal_text(event.duration as nat)),
    ]);
    let rect = HTMLElement::new("rect", &rect_attrs);
    clip_path.append_child(rect);

    (id, clip_path)
}

/// The label of an event: the bold line, if the event has a title or a
/// location, and the time line; halfway down the event's box.
pub open spec fn event_label(event: Event) -> ElementView {
    let text = element(
        "text"@,
        seq![
            ("transform"@, "translate(10,"@ + half_text(event.duration as nat) + ")"@),
            ("fill"@, "#45a51c"@),
        ],
    );
    match event_title(event) {
        Some(title) => text.child(title).child(event_time(event, true)),
        None => text.child(event_time(event, false)),
    }
}

/// The drawing of an event: a group moved `left` to the right and as far
/// down as the event starts minutes after the first hour mark, clipped to
/// the clip region `clip_id`, with the event's box, a bar on its left edge
/// and its label.
pub open spec fn event_container(
    event: Event,
    width: Seq<char>,
    left: Seq<char>,
    clip_id: Seq<char>,
) -> ElementView {
    let height = decimal_text(event.duration as nat);
    element(
        "g"@,
        seq![
            (
                "transform"@,
                "translate("@ + left + ","@ + decimal_text(event.starts_at as nat) + ")"@,
            ),
            ("clip-path"@, "url(#"@ + clip_id + ")"@),
        ],
    ).child(
        element(
            "rect"@,
            seq![
                ("width"@, width),
                ("height"@, height),
                ("fill"@, "#45a51c"@),
                ("opacity"@, "0.3"@),
            ],
        ),
    ).child(
        element(
            "line"@,
            seq![("stroke-width"@, decimal_text(4)), ("stroke"@, "#45a51c"@), ("y2"@, height)],
        ),
    ).child(event_label(event))
}

/// Makes the drawing of an event in its box.
pub fn create_event_container(
    event: &Event,
    width: &str,
    left: &str,
    clip_path_id: String,
) -> (g: HTMLElement)
    requires
        event.end_minute() <= u16::MAX,
    ensures
        g@ == event_container(*event, width@, left@, clip_path_id@),
{
    let mut translate = String::from_str("translate(");
    translate.append(left);
    translate.append(",");
    translate.append(decimal(event.starts_at as usize).as_str());
    translate.append(")");
    let mut url = String::from_str("url(#");
    url.append(clip_path_id.as_str());
    url.append(")");
    let g_attrs = [("transform", translate), ("clip-path", url)];
    assert(attr_views(g_attrs@) =~= seq![
        (
            "transform"@,
            "translate("@ + left@ + ","@ + decimal_text(event.starts_at as nat) + ")"@,
        ),
        ("clip-path"@, "url(#"@ + clip_path_id@ + ")"@),
    ]);
    let mut g = HTMLElement::new("g", &g_attrs);

    let rect_attrs = [
        ("width", String::from_str(width)),
        ("height", decimal(event.duration as usize)),
        ("fill", String::from_str("#45a51c")),
        ("opacity", String::from_str("0.3")),
    ];
    assert(attr_views(rect_attrs@) =~= seq![
        ("width"@, width@),
        ("height"@, decimal_text(event.duration as nat)),
        ("fill"@, "#45a51c"@),
        ("opacity"@, "0.3"@),
    ]);
    let rect = HTMLElement::new("rect", &rect_attrs);
    g.append_child(rect);

    let line_attrs = [
        ("stroke-width", decimal(4)),
        ("stroke", String::from_str("#45a51c")),
        ("y2", decimal(event.duration as usize)),
    ];
    assert(attr_views(line_attrs@) =~= seq![
        ("stroke-width"@, decimal_text(4)),
        ("stroke"@, "#45a51c"@),
        ("y2"@, decimal_text(event.duration as nat)),
    ]);
    let line = HTMLElement::new("line", &line_attrs);
    g.append_child(line);

    let mut middle = String::from_str("translate(10,");
    middle.append(half(event.duration as usize).as_str());
    middle.append(")");
    let text_attrs = [("transform", middle), ("fill", String::from_str("#45a51c"))];
    assert(attr_views(text_attrs@) =~= seq![
        ("transform"@, "translate(10,"@ + half_text(event.duration as nat) + ")"@),
        ("fill"@, "#45a51c"@),
    ]);
    let mut text = HTMLElement::new("text", &text_attrs);

    let title_container = create_event_title(event);
    match title_container {
        Some(title) => {
            text.append_child(title);
            text.append_child(create_event_time(event, true));
        },
        None => {
            text.append_child(create_event_time(event, false));
        },
    }
    g.append_child(text);

    g
}

/// The boxes can be drawn: each names an event of `events` by its position,
/// and that event lasts at least a minute and ends at a minute that can be
/// counted.
pub open spec fn can_render(events: Seq<Event>, boxes: Seq<EventBox>) -> bool {
    forall|k: int|
        0 <= k < boxes.len() ==> {
            let id = (#[trigger] boxes[k]).id as int;
            id < events.len() && events[id].duration > 0 && events[id].end_minute() <= u16::MAX
        }
}

/// The clip regions of the first `n` boxes, numbered from 1.
pub open spec fn clip_paths(events: Seq<Event>, boxes: Seq<EventBox>, n: int) -> Seq<NodeView> {
    Seq::new(
        n as nat,
        |k: int|
            NodeView::Element(
                clip_path(events[boxes[k].id as int], boxes[k].width@, (k + 1) as nat),
            ),
    )
}

/// The drawings of the events of the first `n` boxes.
pub open spec fn event_containers(events: Seq<Event>, boxes: Seq<EventBox>, n: int) -> Seq<
    NodeView,
> {
    Seq::new(
        n as nat,
        |k: int|
            NodeView::Element(
                event_container(
                    events[boxes[k].id as int],
                    boxes[k].width@,
                    boxes[k].left@,
                    clip_path_id((k + 1) as nat),
                ),
            ),
    )
}

/// The whole drawing: the canvas with the grid, one clip region for each box,
/// and the group of the events' drawings, each clipped to its region.
pub open spec fn document(events: Seq<Event>, boxes: Seq<EventBox>) -> ElementView {
    ElementView {
        body: seq![NodeView::Element(grid_container())] + clip_paths(
            events,
            boxes,
            boxes.len() as int,
        ) + seq![
            NodeView::Element(
                ElementView {
                    body: event_containers(events, boxes, boxes.len() as int),
                    ..events_container()
                },
            ),
        ],
        ..svg_container()
    }
}

/// Tells whether the boxes can be drawn.
pub fn check_boxes(events: &Vec<Event>, boxes: &Vec<EventBox>) -> (ok: bool)
    ensures
        ok == can_render(events@, boxes@),
{
    let mut k: usize = 0;
    while k < boxes.len()
        invariant
            k <= boxes.len(),
            can_render(events@, boxes@.subrange(0, k as int)),
        decreases boxes.len() - k,
    {
        let id = boxes[k].id as usize;
        if id >= events.len() || events[id].duration == 0 || events[id].starts_at > u16::MAX
            - events[id].duration {
            assert(boxes@[k as int].id == id);
            return false;
        }
        assert forall|j: int| 0 <= j < k + 1 implies {
            let id = (#[trigger] boxes@.subrange(0, k + 1)[j]).id as int;
            id < events@.len() && events@[id].duration > 0 && events@[id].end_minute() <= u16::MAX
        } by {
            if j < k {
                assert(boxes@.subrange(0, k as int)[j] == boxes@[j]);
            }
        }
        k += 1;
    }
    assert(boxes@.subrange(0, boxes.len() as int) =~= boxes@);
    true
}

/// Draws the events in their boxes on the grid and writes the drawing as
/// markup. Nothing is written unless every box can be drawn.
pub fn render(events: &Vec<Event>, boxes: &Vec<EventBox>) -> (result: Result<String, LayoutError>)
    ensures
        result is Ok <==> can_render(events@, boxes@),
        result matches Ok(markup) ==> markup@ == element_markup(document(events@, boxes@)),
        result matches Err(error) ==> error == LayoutError::InvalidInput,
{
    if !check_boxes(events, boxes) {
        return Err(LayoutError::InvalidInput);
    }
    let mut svg = create_svg_container();

    svg.append_child(create_grid_container());

    let mut events_container = create_events_container();
    assert(svg@.body =~= seq![NodeView::Element(grid_container())] + clip_paths(
        events@,
        boxes@,
        0,
    ));
    assert(events_container@.body =~= event_containers(events@, boxes@, 0));
    let mut k: usize = 0;
    while k < boxes.len()
        invariant
            k <= boxes.len(),
            can_render(events@, boxes@),
            svg@ == (ElementView {
                body: seq![NodeView::Element(grid_container())] + clip_paths(
                    events@,
                    boxes@,
                    k as int,
                ),
                ..svg_container()
            }),
            events_container@ == (ElementView {
                body: event_containers(events@, boxes@, k as int),
                ..crate::svg::events_container()
            }),
        decreases boxes.len() - k,
    {
        let pos = &boxes[k];
        assert(boxes@[k as int].id < events@.len());
        let event = &events[pos.id as usize];
        let clip_path = create_clip_path(event, pos.width.as_str(), k + 1);
        let event_container = create_event_container(
            event,
            pos.width.as_str(),
            pos.left.as_str(),
            clip_path.0,
        );
        svg.append_child(clip_path.1);
        events_container.append_child(event_container);
        assert(svg@.body =~= seq![NodeView::Element(grid_container())] + clip_paths(
            events@,
            boxes@,
            k + 1,
        ));
        assert(events_container@.body =~= event_containers(events@, boxes@, k + 1));
        k += 1;
    }
    svg.append_child(events_container);
    assert(svg@.body =~= document(events@, boxes@).body);

    Ok(svg.to_string())
}

/// An hour is 60 high on the canvas: a minute is exactly 1 high.
pub proof fn lemma_minute_height()
    ensures
        HOUR_HEIGHT == 60,
        HOUR_HEIGHT * (HOUR_MARKS - 1) == SVG_HEIGHT,
{
    assert(SVG_HEIGHT == 720);
    assert(HOUR_MARKS - 1 == 12);
    assert(720int / 12 == 60);
}

/// The drawing is a function of the events and the boxes: two runs on the
/// same events and boxes both fail or both give the same markup, byte for
/// byte.
pub proof fn lemma_same_boxes_same_markup(
    events: Seq<Event>,
    boxes: Seq<EventBox>,
    first: Result<String, LayoutError>,
    second: Result<String, LayoutError>,
)
    requires
        first is Ok <==> can_render(events, boxes),
        first matches Ok(markup) ==> markup@ == element_markup(document(events, boxes)),
        first matches Err(error) ==> error == LayoutError::InvalidInput,
        second is Ok <==> can_render(events, boxes),
        second matches Ok(markup) ==> markup@ == element_markup(document(events, boxes)),
        second matches Err(error) ==> error == LayoutError::InvalidInput,
    ensures
        first is Ok <==> second is Ok,
        first is Ok ==> first->Ok_0@ == second->Ok_0@,
        first is Err ==> first->Err_0 == second->Err_0,
{
}

/// Clip regions with different numbers have different identifiers: within a
/// drawing no two clip regions have the same.
pub proof fn lemma_clip_path_ids_differ(a: nat, b: nat)
    requires
        a != b,
    ensures
        clip_path_id(a) != clip_path_id(b),
{
    let prefix = "clip-path-"@;
    lemma_decimal_texts_differ(a, b);
    assert(clip_path_id(a).subrange(prefix.len() as int, clip_path_id(a).len() as int)
        =~= decimal_text(a));
    assert(clip_path_id(b).subrange(prefix.len() as int, clip_path_id(b).len() as int)
        =~= decimal_text(b));
}

} // verus!
