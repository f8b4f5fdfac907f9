use vstd::prelude::*;
use crate::css::{Color, Value};
use crate::dom::NodeType;
use crate::layout::{fits_coordinate, Area, BoxType, Dimensions, LayoutBox, Rect};
use crate::style::value_in;

verus! {

/// One step of painting: a rectangle filled with a colour, or a text drawn
/// at a rectangle in a colour.
#[derive(Debug, PartialEq, Eq)]
pub enum DisplayCommand {
    SolidColor(Rect, Color),
    Text(Rect, String, Color),
}

/// The commands that paint a layout tree, in the order in which they are
/// carried out: what comes later is painted over what came before.
pub type DisplayList = Vec<DisplayCommand>;

/// The model of a display command, over rectangles of integers.
pub enum Paint {
    Solid(Area, Color),
    Text(Area, Seq<char>, Color),
}

impl Paint {
    /// The rectangle that the command paints.
    pub open spec fn area(self) -> Area {
        match self {
            Paint::Solid(area, _) => area,
            Paint::Text(area, _, _) => area,
        }
    }
}

impl View for DisplayCommand {
    type V = Paint;

    open spec fn view(&self) -> Paint {
        match *self {
            DisplayCommand::SolidColor(rect, color) => Paint::Solid(rect@, color),
            DisplayCommand::Text(rect, text, color) => Paint::Text(rect@, text@, color),
        }
    }
}

/// The model of a display list.
pub open spec fn painted(list: Seq<DisplayCommand>) -> Seq<Paint> {
    Seq::new(list.len(), |i: int| list[i]@)
}

/// Whether `Rect`s can hold the rectangles of all of `paints`.
pub open spec fn all_fit(paints: Seq<Paint>) -> bool {
    forall|i: int| 0 <= i < paints.len() ==> (#[trigger] paints[i]).area().fits()
}

/// The colour that the style of `b` gives the property `name`. There is none
/// where `b` has no style, where the style lacks the property, and where the
/// value of the property is no colour.
pub open spec fn color_of(b: LayoutBox, name: Seq<char>) -> Option<Color> {
    match b.styled_node() {
        Some(style) => match value_in(style.specified_values@, name) {
            Some(Value::ColorValue(color)) => Some(color),
            _ => None,
        },
        None => None,
    }
}

/// The text of `b`: that of the document node it was laid out for, where
/// that is a text leaf.
pub open spec fn text_of(b: LayoutBox) -> Option<String> {
    match b.styled_node() {
        Some(style) => match style.node.node_type {
            NodeType::Text(text) => Some(text),
            _ => None,
        },
        None => None,
    }
}

/// The colour of text that has no `color` of its own.
pub open spec fn opaque_black() -> Color {
    Color { r: 0, g: 0, b: 0, a: 255 }
}

/// The strip of the border box that the left border covers.
pub open spec fn left_strip(d: Dimensions) -> Area {
    let b = d.border_area();
    Area { x: b.x, y: b.y, width: d.border.left as int, height: b.height }
}

/// The strip of the border box that the right border covers.
pub open spec fn right_strip(d: Dimensions) -> Area {
    let b = d.border_area();
    Area { x: b.x + b.width - d.border.right, y: b.y, width: d.border.right as int, height: b.height }
}

/// The strip of the border box that the top border covers.
pub open spec fn top_strip(d: Dimensions) -> Area {
    let b = d.border_area();
    Area { x: b.x, y: b.y, width: b.width, height: d.border.top as int }
}

/// The strip of the border box that the bottom border covers.
pub open spec fn bottom_strip(d: Dimensions) -> Area {
    let b = d.border_area();
    Area { x: b.x, y: b.y + b.height - d.border.bottom, width: b.width, height: d.border.bottom as int }
}

/// The background of `b`: its border box in the colour of its `background`,
/// where it has one.
pub open spec fn background_paints(b: LayoutBox) -> Seq<Paint> {
    match color_of(b, "background"@) {
        Some(color) => seq![Paint::Solid(b.dimensions.border_area(), color)],
        None => Seq::empty(),
    }
}

/// The border of `b`: the left, right, top and bottom strip in its
/// `border-color`, and nothing where it has none. The strips overlap at the
/// corners.
pub open spec fn border_paints(b: LayoutBox) -> Seq<Paint> {
    match color_of(b, "border-color"@) {
        Some(color) => seq![
            Paint::Solid(left_strip(b.dimensions), color),
            Paint::Solid(right_strip(b.dimensions), color),
            Paint::Solid(top_strip(b.dimensions), color),
            Paint::Solid(bottom_strip(b.dimensions), color),
        ],
        None => Seq::empty(),
    }
}

/// The colour in which the text of `b` is drawn: its `color`, or black.
pub open spec fn text_color(b: LayoutBox) -> Color {
    match color_of(b, "color"@) {
        Some(color) => color,
        None => opaque_black(),
    }
}

/// The text of `b`, where it has one, at its content rectangle.
pub open spec fn text_paints(b: LayoutBox) -> Seq<Paint> {
    match text_of(b) {
        Some(text) => seq![Paint::Text(b.dimensions.content@, text@, text_color(b))],
        None => Seq::empty(),
    }
}

/// What `b` paints for itself: background, then border, then text.
pub open spec fn own_paints(b: LayoutBox) -> Seq<Paint> {
    background_paints(b) + border_paints(b) + text_paints(b)
}

/// What the first `n` children of `b` paint with all below them, child after
/// child.
pub open spec fn children_paints(b: LayoutBox, n: nat) -> Seq<Paint>
    decreases b, n,
{
    if n == 0 || n > b.children.len() {
        Seq::empty()
    } else {
        children_paints(b, (n - 1) as nat) + paints(b.children[n - 1])
    }
}

/// What `b` paints with all below it: first what it paints for itself, then
/// what its children paint, in their order.
pub open spec fn paints(b: LayoutBox) -> Seq<Paint>
    decreases b,
{
    own_paints(b) + children_paints(b, b.children.len() as nat)
}

/// Whether a display list can hold what `b` paints with all below it: every
/// rectangle in it has coordinates that a `Rect` can hold.
pub open spec fn paintable(b: LayoutBox) -> bool {
    all_fit(paints(b))
}

/// The first `n` children of `b` can be painted exactly when each of them
/// can.
pub proof fn lemma_children_paintable(b: LayoutBox, n: nat)
    requires
        n <= b.children.len(),
    ensures
        all_fit(children_paints(b, n)) <==> forall|i: int|
            0 <= i < n ==> paintable(#[trigger] b.children[i]),
    decreases n,
{
    if n > 0 {
        let before = children_paints(b, (n - 1) as nat);
        let last = paints(b.children[n - 1]);
        lemma_children_paintable(b, (n - 1) as nat);
        lemma_all_fit_concat(before, last);
        if all_fit(before + last) {
            assert forall|i: int| 0 <= i < n implies paintable(#[trigger] b.children[i]) by {}
        }
    }
}

/// A list fits exactly when both of its parts fit.
pub proof fn lemma_all_fit_concat(a: Seq<Paint>, b: Seq<Paint>)
    ensures
        all_fit(a + b) <==> all_fit(a) && all_fit(b),
{
    let whole = a + b;
    if all_fit(whole) {
        assert forall|i: int| 0 <= i < a.len() implies (#[trigger] a[i]).area().fits() by {
            assert(whole[i] == a[i]);
        }
        assert forall|i: int| 0 <= i < b.len() implies (#[trigger] b[i]).area().fits() by {
            assert(whole[a.len() + i] == b[i]);
        }
    }
}

/// A box can be painted exactly when what it paints for itself fits and each
/// of its children can be painted.
pub proof fn lemma_paintable(b: LayoutBox)
    ensures
        paintable(b) <==> all_fit(own_paints(b)) && forall|i: int|
            0 <= i < b.children.len() ==> paintable(#[trigger] b.children[i]),
{
    lemma_children_paintable(b, b.children.len() as nat);
    lemma_all_fit_concat(own_paints(b), children_paints(b, b.children.len() as nat));
}

/// The colour that the style of the box gives the property `name`.
fn get_color(layout_box: &LayoutBox, name: &str) -> (found: Option<Color>)
    ensures
        found == color_of(*layout_box, name@),
{
    match layout_box.box_type {
        BoxType::BlockNode(style) | BoxType::InlineNode(style) => {
            match style.value(name) {
                Some(Value::ColorValue(color)) => Some(color),
                _ => None,
            }
        },
        BoxType::AnonymousBlock => None,
    }
}

/// The colour that the style of the box gives the property `name`, or
/// `default` where it gives none.
fn get_color_or(layout_box: &LayoutBox, name: &str, default: Color) -> (color: Color)
    ensures
        color == match color_of(*layout_box, name@) {
            Some(found) => found,
            None => default,
        },
{
    match get_color(layout_box, name) {
        Some(found) => found,
        None => default,
    }
}

/// The text of the box, where it was laid out for a text leaf.
fn get_text(layout_box: &LayoutBox) -> (found: Option<String>)
    ensures
        found == text_of(*layout_box),
{
    match layout_box.box_type {
        BoxType::BlockNode(style) | BoxType::InlineNode(style) => {
            match &style.node.node_type {
                NodeType::Text(text) => Some(text.clone()),
                _ => None,
            }
        },
        BoxType::AnonymousBlock => None,
    }
}

/// Appends the background of the box.
fn render_background(list: &mut DisplayList, layout_box: &LayoutBox)
    requires
        all_fit(background_paints(*layout_box)),
    ensures
        painted(final(list)@) == painted(old(list)@) + background_paints(*layout_box),
{
    match get_color(layout_box, "background") {
        Some(color) => {
            assert(background_paints(*layout_box)[0].area().fits());
            let command = DisplayCommand::SolidColor(layout_box.dimensions.border_box(), color);
            list.push(command);
        },
        None => {},
    }
}

/// Appends the four strips of the border of the box.
fn render_borders(list: &mut DisplayList, layout_box: &LayoutBox)
    requires
        all_fit(border_paints(*layout_box)),
    ensures
        painted(final(list)@) == painted(old(list)@) + border_paints(*layout_box),
{
    let color = match get_color(layout_box, "border-color") {
        Some(color) => color,
        None => {
            return;
        },
    };
    proof {
        let strips = border_paints(*layout_box);
        assert(strips[0].area().fits());
        assert(strips[1].area().fits());
        assert(strips[2].area().fits());
        assert(strips[3].area().fits());
    }
    let d = &layout_box.dimensions;
    let border_box = d.border_box();

    let left = DisplayCommand::SolidColor(
        Rect { x: border_box.x, y: border_box.y, width: d.border.left, height: border_box.height },
        color,
    );
    list.push(left);

    let right_x: i64 = border_box.x as i64 + border_box.width as i64 - d.border.right as i64;
    let right = DisplayCommand::SolidColor(
        Rect {
            x: right_x as i32,
            y: border_box.y,
            width: d.border.right,
            height: border_box.height,
        },
        color,
    );
    list.push(right);

    let top = DisplayCommand::SolidColor(
        Rect { x: border_box.x, y: border_box.y, width: border_box.width, height: d.border.top },
        color,
    );
    list.push(top);

    let bottom_y: i64 = border_box.y as i64 + border_box.height as i64 - d.border.bottom as i64;
    let bottom = DisplayCommand::SolidColor(
        Rect {
            x: border_box.x,
            y: bottom_y as i32,
            width: border_box.width,
            height: d.border.bottom,
        },
        color,
    );
    list.push(bottom);
}

/// Appends the text of the box.
fn render_text(list: &mut DisplayList, layout_box: &LayoutBox)
    ensures
        painted(final(list)@) == painted(old(list)@) + text_paints(*layout_box),
{
    match get_text(layout_box) {
        Some(text) => {
            let font_color = get_color_or(
                layout_box,
                "color",
                Color { r: 0, g: 0, b: 0, a: 255 },
            );
            let command = DisplayCommand::Text(layout_box.dimensions.content, text, font_color);
            list.push(command);
        },
        None => {},
    }
}

/// Appends what the box paints for itself, then what its children paint.
fn render_layout_box(list: &mut DisplayList, layout_box: &LayoutBox)
    requires
        paintable(*layout_box),
    ensures
        painted(final(list)@) == painted(old(list)@) + paints(*layout_box),
    decreases layout_box,
{
    proof {
        lemma_paintable(*layout_box);
        lemma_all_fit_concat(
            background_paints(*layout_box) + border_paints(*layout_box),
            text_paints(*layout_box),
        );
        lemma_all_fit_concat(background_paints(*layout_box), border_paints(*layout_box));
    }
    render_background(list, layout_box);
    render_borders(list, layout_box);
    render_text(list, layout_box);
    let mut i: usize = 0;
    while i < layout_box.children.len()
        invariant
            i <= layout_box.children.len(),
            forall|k: int|
                0 <= k < layout_box.children.len() ==> paintable(#[trigger] layout_box.children[k]),
            painted(list@) == painted(old(list)@) + own_paints(*layout_box) + children_paints(
                *layout_box,
                i as nat,
            ),
        decreases layout_box.children.len() - i,
    {
        render_layout_box(list, &layout_box.children[i]);
        i += 1;
    }
}

/// Whether what the box paints for itself fits.
fn own_paints_fit(layout_box: &LayoutBox) -> (fits: bool)
    ensures
        fits == all_fit(own_paints(*layout_box)),
{
    let d = &layout_box.dimensions;
    let ghost background = background_paints(*layout_box);
    let ghost border = border_paints(*layout_box);
    let ghost text = text_paints(*layout_box);
    proof {
        lemma_all_fit_concat(background + border, text);
        lemma_all_fit_concat(background, border);
        assert(all_fit(text));
    }
    let has_box = d.has_border_box();
    if get_color(layout_box, "background").is_some() {
        if !has_box {
            assert(!background[0].area().fits());
            return false;
        }
    }
    if get_color(layout_box, "border-color").is_some() {
        if !has_box {
            assert(!border[0].area().fits() || !border[2].area().fits());
            return false;
        }
        let border_box = d.border_box();
        let right_x: i64 = border_box.x as i64 + border_box.width as i64 - d.border.right as i64;
        let bottom_y: i64 = border_box.y as i64 + border_box.height as i64
            - d.border.bottom as i64;
        if !fits_coordinate(right_x) {
            assert(!border[1].area().fits());
            return false;
        }
        if !fits_coordinate(bottom_y) {
            assert(!border[3].area().fits());
            return false;
        }
    }
    true
}

/// Decides whether a display list can hold what the tree paints, which is
/// what `build_display_list` asks of its argument.
pub fn can_paint(layout_root: &LayoutBox) -> (ok: bool)
    ensures
        ok == paintable(*layout_root),
    decreases layout_root,
{
    proof {
        lemma_paintable(*layout_root);
    }
    if !own_paints_fit(layout_root) {
        return false;
    }
    let mut i: usize = 0;
    while i < layout_root.children.len()
        invariant
            i <= layout_root.children.len(),
            forall|k: int| 0 <= k < i ==> paintable(#[trigger] layout_root.children[k]),
        decreases layout_root.children.len() - i,
    {
        if !can_paint(&layout_root.children[i]) {
            proof {
                lemma_paintable(*layout_root);
            }
            return false;
        }
        i += 1;
    }
    true
}

/// Compiles a layout tree into its display list where a display list can
/// hold it, and says so where none can.
pub fn try_build_display_list(layout_root: &LayoutBox) -> (list: Option<DisplayList>)
    ensures
        match list {
            Some(list) => paintable(*layout_root) && painted(list@) == paints(*layout_root),
            None => !paintable(*layout_root),
        },
{
    if can_paint(layout_root) {
        Some(build_display_list(layout_root))
    } else {
        None
    }
}

/// Compiles a layout tree into its display list: for each box its
/// background, its border and its text, and after them what its children
/// paint, in their order.
pub fn build_display_list(layout_root: &LayoutBox) -> (list: DisplayList)
    requires
        paintable(*layout_root),
    ensures
        painted(list@) == paints(*layout_root),
{
    let mut list = Vec::new();
    render_layout_box(&mut list, layout_root);
    list
}

/// A box that has a background, a border colour and a text paints them in
/// this order: the background, the left, right, top and bottom strip of the
/// border, the text. What its children paint follows, child after child.
pub proof fn lemma_paint_order(b: LayoutBox, background: Color, border: Color, text: String)
    requires
        color_of(b, "background"@) == Some(background),
        color_of(b, "border-color"@) == Some(border),
        text_of(b) == Some(text),
    ensures
        paints(b) == seq![
            Paint::Solid(b.dimensions.border_area(), background),
            Paint::Solid(left_strip(b.dimensions), border),
            Paint::Solid(right_strip(b.dimensions), border),
            Paint::Solid(top_strip(b.dimensions), border),
            Paint::Solid(bottom_strip(b.dimensions), border),
            Paint::Text(b.dimensions.content@, text@, text_color(b)),
        ] + children_paints(b, b.children.len() as nat),
        forall|n: nat|
            0 < n <= b.children.len() ==> #[trigger] children_paints(b, n) == children_paints(
                b,
                (n - 1) as nat,
            ) + paints(b.children[n - 1]),
{
    assert(own_paints(b) =~= seq![
        Paint::Solid(b.dimensions.border_area(), background),
        Paint::Solid(left_strip(b.dimensions), border),
        Paint::Solid(right_strip(b.dimensions), border),
        Paint::Solid(top_strip(b.dimensions), border),
        Paint::Solid(bottom_strip(b.dimensions), border),
        Paint::Text(b.dimensions.content@, text@, text_color(b)),
    ]);
}

/// A box whose style declares no `border-color` paints no border, however
/// thick its border is: it paints its background and its text, if any, and
/// nothing between them.
pub proof fn lemma_no_border_without_color(b: LayoutBox)
    requires
        b.styled_node() matches Some(style) ==> !style.specified_values@.contains_key(
            "border-color"@,
        ),
    ensures
        border_paints(b) == Seq::<Paint>::empty(),
        own_paints(b) == background_paints(b) + text_paints(b),
{
    assert(own_paints(b) =~= background_paints(b) + text_paints(b));
}

/// A box that stands for no styled node paints nothing for itself. What it
/// paints with all below it is what its children paint.
pub proof fn lemma_anonymous_block_paints_children_only(b: LayoutBox)
    requires
        b.box_type is AnonymousBlock,
    ensures
        own_paints(b) == Seq::<Paint>::empty(),
        paints(b) == children_paints(b, b.children.len() as nat),
{
    assert(own_paints(b) =~= Seq::<Paint>::empty());
    assert(paints(b) =~= children_paints(b, b.children.len() as nat));
}

/// Two runs of `build_display_list` on the same layout tree give the same
/// commands in the same order.
pub proof fn lemma_build_display_list_deterministic(
    layout_root: LayoutBox,
    first: DisplayList,
    second: DisplayList,
)
    requires
        call_ensures(build_display_list, (&layout_root,), first),
        call_ensures(build_display_list, (&layout_root,), second),
    ensures
        painted(first@) == painted(second@),
{
}

} // verus!
