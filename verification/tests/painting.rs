use cascade_paint::css::{Color, Declaration, Rule, Selector, SimpleSelector, Stylesheet, Unit, Value};
use cascade_paint::dom::{elem, text, AttrMap, Node};
use cascade_paint::layout::{fits_coordinate, BoxType, Dimensions, EdgeSizes, LayoutBox, Rect};
use cascade_paint::painting::{build_display_list, can_paint, DisplayCommand};
use cascade_paint::style::{style_tree, PropertyMap, StyledNode};

const RED: Color = Color { r: 255, g: 0, b: 0, a: 255 };
const GREEN: Color = Color { r: 0, g: 128, b: 0, a: 255 };
const BLUE: Color = Color { r: 0, g: 0, b: 255, a: 255 };
const BLACK: Color = Color { r: 0, g: 0, b: 0, a: 255 };

fn edges(left: i32, right: i32, top: i32, bottom: i32) -> EdgeSizes {
    EdgeSizes { left, right, top, bottom }
}

fn no_edges() -> EdgeSizes {
    edges(0, 0, 0, 0)
}

fn rect(x: i32, y: i32, width: i32, height: i32) -> Rect {
    Rect { x, y, width, height }
}

fn plain(content: Rect) -> Dimensions {
    Dimensions { content, padding: no_edges(), border: no_edges(), margin: no_edges() }
}

fn styled<'a>(node: &'a Node, pairs: Vec<(&str, Value)>) -> StyledNode<'a> {
    let mut values = PropertyMap::new();
    for (name, value) in pairs {
        values.insert(name.to_string(), value);
    }
    StyledNode { node, specified_values: values, children: vec![] }
}

fn solid(x: i32, y: i32, width: i32, height: i32, color: Color) -> DisplayCommand {
    DisplayCommand::SolidColor(rect(x, y, width, height), color)
}

#[test]
fn box_with_background_border_and_text_child() {
    let document = elem(
        "div".to_string(),
        {
            let mut attributes = AttrMap::new();
            attributes.insert("class".to_string(), "big".to_string());
            attributes
        },
        vec![text("hi".to_string())],
    );
    let stylesheet = Stylesheet {
        rules: vec![
            Rule {
                selectors: vec![Selector::Simple(SimpleSelector {
                    tag_name: Some("div".to_string()),
                    id: None,
                    class: vec![],
                })],
                declarations: vec![Declaration {
                    name: "background".to_string(),
                    value: Value::ColorValue(RED),
                }],
            },
            Rule {
                selectors: vec![Selector::Simple(SimpleSelector {
                    tag_name: None,
                    id: None,
                    class: vec!["big".to_string()],
                })],
                declarations: vec![Declaration {
                    name: "border-color".to_string(),
                    value: Value::ColorValue(BLUE),
                }],
            },
        ],
    };
    let styled_div = style_tree(&document, &stylesheet, None);
    assert_eq!(styled_div.specified_values.len(), 2);
    assert_eq!(styled_div.value("background"), Some(Value::ColorValue(RED)));
    assert_eq!(styled_div.value("border-color"), Some(Value::ColorValue(BLUE)));
    assert_eq!(styled_div.children.len(), 1);
    assert_eq!(styled_div.children[0].specified_values.len(), 0);

    let content = rect(2, 1, 96, 48);
    let text_box = LayoutBox {
        dimensions: plain(content),
        box_type: BoxType::InlineNode(&styled_div.children[0]),
        children: vec![],
    };
    let div_box = LayoutBox {
        dimensions: Dimensions {
            content,
            padding: no_edges(),
            border: edges(2, 2, 1, 1),
            margin: no_edges(),
        },
        box_type: BoxType::BlockNode(&styled_div),
        children: vec![text_box],
    };
    assert_eq!(div_box.dimensions.border_box(), rect(0, 0, 100, 50));

    assert!(can_paint(&div_box));
    let list = build_display_list(&div_box);
    assert_eq!(
        list,
        vec![
            solid(0, 0, 100, 50, RED),
            solid(0, 0, 2, 50, BLUE),
            solid(98, 0, 2, 50, BLUE),
            solid(0, 0, 100, 1, BLUE),
            solid(0, 49, 100, 1, BLUE),
            DisplayCommand::Text(content, "hi".to_string(), BLACK),
        ]
    );
}

#[test]
fn own_commands_come_in_order_before_those_of_the_children() {
    let leaf = text("label".to_string());
    let first = elem("a".to_string(), AttrMap::new(), vec![]);
    let second = elem("b".to_string(), AttrMap::new(), vec![]);
    let leaf_style = styled(
        &leaf,
        vec![
            ("background", Value::ColorValue(RED)),
            ("border-color", Value::ColorValue(GREEN)),
            ("color", Value::ColorValue(BLUE)),
        ],
    );
    let first_style = styled(&first, vec![("background", Value::ColorValue(GREEN))]);
    let second_style = styled(&second, vec![("background", Value::ColorValue(BLUE))]);
    let grandchild = LayoutBox {
        dimensions: plain(rect(1, 1, 1, 1)),
        box_type: BoxType::InlineNode(&second_style),
        children: vec![],
    };
    let child_one = LayoutBox {
        dimensions: plain(rect(5, 5, 10, 10)),
        box_type: BoxType::BlockNode(&first_style),
        children: vec![grandchild],
    };
    let child_two = LayoutBox {
        dimensions: plain(rect(7, 7, 20, 20)),
        box_type: BoxType::BlockNode(&second_style),
        children: vec![],
    };
    let root = LayoutBox {
        dimensions: Dimensions {
            content: rect(10, 20, 30, 40),
            padding: edges(1, 2, 3, 4),
            border: edges(5, 6, 7, 8),
            margin: edges(9, 9, 9, 9),
        },
        box_type: BoxType::BlockNode(&leaf_style),
        children: vec![child_one, child_two],
    };
    assert!(can_paint(&root));
    assert_eq!(
        build_display_list(&root),
        vec![
            solid(4, 10, 44, 62, RED),
            solid(4, 10, 5, 62, GREEN),
            solid(42, 10, 6, 62, GREEN),
            solid(4, 10, 44, 7, GREEN),
            solid(4, 64, 44, 8, GREEN),
            DisplayCommand::Text(rect(10, 20, 30, 40), "label".to_string(), BLUE),
            solid(5, 5, 10, 10, GREEN),
            solid(1, 1, 1, 1, BLUE),
            solid(7, 7, 20, 20, BLUE),
        ]
    );
}

#[test]
fn border_is_not_painted_without_a_border_color() {
    let node = elem("div".to_string(), AttrMap::new(), vec![]);
    let style = styled(&node, vec![("background", Value::ColorValue(RED))]);
    let root = LayoutBox {
        dimensions: Dimensions {
            content: rect(10, 10, 20, 20),
            padding: no_edges(),
            border: edges(3, 3, 3, 3),
            margin: no_edges(),
        },
        box_type: BoxType::BlockNode(&style),
        children: vec![],
    };
    assert_eq!(build_display_list(&root), vec![solid(7, 7, 26, 26, RED)]);

    let bare = styled(&node, vec![]);
    let root = LayoutBox {
        dimensions: Dimensions {
            content: rect(10, 10, 20, 20),
            padding: no_edges(),
            border: edges(3, 3, 3, 3),
            margin: no_edges(),
        },
        box_type: BoxType::InlineNode(&bare),
        children: vec![],
    };
    assert_eq!(build_display_list(&root), vec![]);
}

#[test]
fn values_that_are_no_colors_paint_nothing() {
    let node = elem("div".to_string(), AttrMap::new(), vec![]);
    let style = styled(
        &node,
        vec![
            ("background", Value::Keyword("red".to_string())),
            ("border-color", Value::Length(2, Unit::Px)),
        ],
    );
    let root = LayoutBox {
        dimensions: Dimensions {
            content: rect(0, 0, 10, 10),
            padding: no_edges(),
            border: edges(1, 1, 1, 1),
            margin: no_edges(),
        },
        box_type: BoxType::BlockNode(&style),
        children: vec![],
    };
    assert_eq!(build_display_list(&root), vec![]);
}

#[test]
fn anonymous_block_paints_only_its_children() {
    let node = elem("span".to_string(), AttrMap::new(), vec![]);
    let leaf = text("x".to_string());
    let style = styled(&node, vec![("background", Value::ColorValue(GREEN))]);
    let leaf_style = styled(&leaf, vec![]);
    let inner_anonymous = LayoutBox {
        dimensions: plain(rect(0, 0, 5, 5)),
        box_type: BoxType::AnonymousBlock,
        children: vec![],
    };
    let root = LayoutBox {
        dimensions: Dimensions {
            content: rect(0, 0, 50, 50),
            padding: edges(1, 1, 1, 1),
            border: edges(4, 4, 4, 4),
            margin: no_edges(),
        },
        box_type: BoxType::AnonymousBlock,
        children: vec![
            LayoutBox {
                dimensions: plain(rect(0, 0, 25, 10)),
                box_type: BoxType::InlineNode(&style),
                children: vec![],
            },
            inner_anonymous,
            LayoutBox {
                dimensions: plain(rect(25, 0, 25, 10)),
                box_type: BoxType::InlineNode(&leaf_style),
                children: vec![],
            },
        ],
    };
    assert_eq!(
        build_display_list(&root),
        vec![
            solid(0, 0, 25, 10, GREEN),
            DisplayCommand::Text(rect(25, 0, 25, 10), "x".to_string(), BLACK),
        ]
    );
    let alone = LayoutBox {
        dimensions: plain(rect(0, 0, 5, 5)),
        box_type: BoxType::AnonymousBlock,
        children: vec![],
    };
    assert_eq!(build_display_list(&alone), vec![]);
}

#[test]
fn text_is_drawn_at_the_content_rectangle_in_its_color() {
    let leaf = text("word".to_string());
    let colored = styled(&leaf, vec![("color", Value::ColorValue(GREEN))]);
    let dimensions = Dimensions {
        content: rect(12, 34, 56, 78),
        padding: edges(1, 1, 1, 1),
        border: edges(2, 2, 2, 2),
        margin: edges(3, 3, 3, 3),
    };
    let root = LayoutBox { dimensions, box_type: BoxType::InlineNode(&colored), children: vec![] };
    assert_eq!(
        build_display_list(&root),
        vec![DisplayCommand::Text(rect(12, 34, 56, 78), "word".to_string(), GREEN)]
    );

    let keyword = styled(&leaf, vec![("color", Value::Keyword("green".to_string()))]);
    let root = LayoutBox { dimensions, box_type: BoxType::BlockNode(&keyword), children: vec![] };
    assert_eq!(
        build_display_list(&root),
        vec![DisplayCommand::Text(rect(12, 34, 56, 78), "word".to_string(), BLACK)]
    );
}

#[test]
fn element_boxes_draw_no_text() {
    let node = elem("p".to_string(), AttrMap::new(), vec![text("inside".to_string())]);
    let style = styled(&node, vec![("color", Value::ColorValue(RED))]);
    let root = LayoutBox {
        dimensions: plain(rect(0, 0, 10, 10)),
        box_type: BoxType::BlockNode(&style),
        children: vec![],
    };
    assert_eq!(build_display_list(&root), vec![]);
}

#[test]
fn border_box_adds_padding_and_border_but_not_margin() {
    let dimensions = Dimensions {
        content: rect(-10, 20, 100, 50),
        padding: edges(1, 2, 3, 4),
        border: edges(10, 20, 30, 40),
        margin: edges(100, 100, 100, 100),
    };
    assert!(dimensions.has_border_box());
    assert_eq!(dimensions.border_box(), rect(-21, -13, 133, 127));
    assert_eq!(plain(rect(3, 4, 5, 6)).border_box(), rect(3, 4, 5, 6));
}

#[test]
fn geometry_beyond_the_coordinate_range_cannot_be_painted() {
    let node = elem("div".to_string(), AttrMap::new(), vec![]);
    let filled = styled(&node, vec![("background", Value::ColorValue(RED))]);
    let framed = styled(&node, vec![("border-color", Value::ColorValue(RED))]);
    let bare = styled(&node, vec![]);

    let wide = Dimensions {
        content: rect(0, 0, i32::MAX, 10),
        padding: edges(1, 0, 0, 0),
        border: no_edges(),
        margin: no_edges(),
    };
    assert!(!wide.has_border_box());
    let far_left = Dimensions {
        content: rect(i32::MIN, 0, 10, 10),
        padding: no_edges(),
        border: edges(1, 0, 0, 0),
        margin: no_edges(),
    };
    assert!(!far_left.has_border_box());
    let at_the_limit = Dimensions {
        content: rect(i32::MIN + 1, i32::MIN + 1, i32::MAX - 2, i32::MAX - 2),
        padding: edges(1, 0, 1, 0),
        border: edges(0, 1, 0, 1),
        margin: no_edges(),
    };
    assert!(at_the_limit.has_border_box());
    assert_eq!(at_the_limit.border_box(), rect(i32::MIN, i32::MIN, i32::MAX, i32::MAX));

    let boxed = |dimensions: Dimensions, style| LayoutBox {
        dimensions,
        box_type: BoxType::BlockNode(style),
        children: vec![],
    };
    assert!(!can_paint(&boxed(wide, &filled)));
    assert!(!can_paint(&boxed(wide, &framed)));
    assert!(can_paint(&boxed(wide, &bare)));
    assert!(!can_paint(&boxed(far_left, &filled)));
    assert!(can_paint(&boxed(at_the_limit, &filled)));
    assert!(can_paint(&boxed(at_the_limit, &framed)));

    let strip_off_range = Dimensions {
        content: rect(i32::MAX - 5, 0, 10, 10),
        padding: no_edges(),
        border: edges(1, 1, 1, 1),
        margin: no_edges(),
    };
    assert!(strip_off_range.has_border_box());
    assert!(can_paint(&boxed(strip_off_range, &filled)));
    assert!(!can_paint(&boxed(strip_off_range, &framed)));

    let parent = LayoutBox {
        dimensions: plain(rect(0, 0, 1, 1)),
        box_type: BoxType::AnonymousBlock,
        children: vec![boxed(plain(rect(0, 0, 1, 1)), &filled), boxed(wide, &filled)],
    };
    assert!(!can_paint(&parent));

    assert!(fits_coordinate(2147483647));
    assert!(fits_coordinate(-2147483648));
    assert!(!fits_coordinate(2147483648));
    assert!(!fits_coordinate(-2147483649));
}

#[test]
fn display_list_is_the_same_on_every_run() {
    let leaf = text("again".to_string());
    let style = styled(
        &leaf,
        vec![("background", Value::ColorValue(RED)), ("border-color", Value::ColorValue(BLUE))],
    );
    let root = LayoutBox {
        dimensions: Dimensions {
            content: rect(0, 0, 10, 10),
            padding: edges(1, 1, 1, 1),
            border: edges(1, 1, 1, 1),
            margin: no_edges(),
        },
        box_type: BoxType::BlockNode(&style),
        children: vec![LayoutBox {
            dimensions: plain(rect(0, 0, 2, 2)),
            box_type: BoxType::InlineNode(&style),
            children: vec![],
        }],
    };
    let first = build_display_list(&root);
    let second = build_display_list(&root);
    assert_eq!(first.len(), 12);
    assert_eq!(first, second);
}
