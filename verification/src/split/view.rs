//! What a split view, its rows, its cards and its pages are put together
//! from.
//!
//! A [`Sketch`] says which widgets there are, in which order, under which
//! names, and with which texts and colours. Whoever inserts it into a tree
//! gives each [`Stock`] widget its size, and puts the parts it was handed in
//! their places.

use vstd::prelude::*;

use crate::arena::{text_view, WidgetId};
use crate::built::Built;
use crate::chars::owned;
use crate::split::names;
use crate::split::pages::Pages;
use crate::split::rows::{CardRow, SidebarRow};
use crate::split::switch::{Switch, SwitchView};
use crate::theme::ColorRole;
use crate::ui::Ui;

verus! {

// ---------------------------------------------------------------------
// stock widgets
// ---------------------------------------------------------------------

/// The sizes of text that these widgets use.
#[derive(Debug, Clone, Copy, PartialEq, Eq, Structural)]
pub enum TextSize {
    /// Badges, sections, subtitles and footnotes.
    Small,
    /// A row of a sidebar.
    Sidebar,
    /// A row of a card.
    Row,
    /// The caption of a group of cards.
    Caption,
    /// The title in a header.
    Header,
}

/// How a text looks.
#[derive(Debug, Clone, Copy, PartialEq, Eq, Structural)]
pub struct TextLook {
    /// How large it is.
    pub size: TextSize,
    /// CSS-style weight.
    pub weight: u16,
    /// Which colour it takes.
    pub role: ColorRole,
    /// Whether it is cut off with an ellipsis where it does not fit.
    pub elide: bool,
    /// Whether it takes the room that is left.
    pub grow: bool,
}

/// The containers that these widgets use.
#[derive(Debug, Clone, Copy, PartialEq, Eq, Structural)]
pub enum Frame {
    /// A section title in a sidebar.
    Section,
    /// The texts of a card row, one below the other.
    CardText,
    /// What centres a content column.
    Wrapper,
    /// A content column.
    Column,
    /// A split view.
    Root,
    /// The pane of a sidebar.
    Side,
    /// The header of a sidebar.
    SidebarHeader,
    /// The column of a sidebar's rows.
    Rows,
    /// The content pane.
    Content,
    /// The header of the content pane.
    Header,
    /// An empty content pane.
    Body,
}

/// A widget that needs no code of the app's; `P` is what the app hands in.
pub enum Stock<P> {
    /// A container.
    Frame(Frame),
    /// A text.
    Label {
        /// What it says.
        text: String,
        /// How it looks.
        look: TextLook,
    },
    /// An icon.
    Icon {
        /// Its name.
        name: String,
        /// Which colour it takes.
        role: ColorRole,
    },
    /// A hairline.
    Line {
        /// Whether it stands upright.
        vertical: bool,
    },
    /// What takes the room that is left.
    Spacer,
    /// A viewport.
    Scroll,
    /// A row of a sidebar.
    SidebarRow(SidebarRow),
    /// A card.
    Card,
    /// A row of a card.
    CardRow(CardRow),
    /// A stack of pages.
    Pages(Pages),
    /// A switch.
    Switch(Switch),
    /// A part that the app handed in; it keeps its own name if it has one.
    Part(P),
    /// The place of a widget that the app built earlier: once the sketch is
    /// inserted, that widget stands in for it.
    Held(WidgetId),
}

/// What is to be inserted into a tree.
pub type Sketch<P> = Built<Stock<P>>;

/// A sketch of one widget and nothing else.
pub open spec fn is_leaf<P>(b: Sketch<P>) -> bool {
    b.name is None && !b.focusable && b.children@.len() == 0
}

/// The place of a widget that is in the tree already, and nothing else.
pub open spec fn is_held<P>(b: Sketch<P>, id: WidgetId) -> bool {
    &&& b.widget == Stock::<P>::Held(id)
    &&& is_leaf(b)
}

/// A text and nothing else.
pub open spec fn is_text<P>(b: Sketch<P>, text: Seq<char>, look: TextLook) -> bool {
    &&& b.widget matches Stock::Label { text: t, look: l } && t@ == text && l == look
    &&& is_leaf(b)
}

/// An icon and nothing else.
pub open spec fn is_icon<P>(b: Sketch<P>, name: Seq<char>, role: ColorRole) -> bool {
    &&& b.widget matches Stock::Icon { name: n, role: r } && n@ == name && r == role
    &&& is_leaf(b)
}

/// An icon that is addressed by a name, if it has one.
pub open spec fn is_named_icon<P>(
    b: Sketch<P>,
    icon: Seq<char>,
    role: ColorRole,
    name: Option<Seq<char>>,
) -> bool {
    &&& b.widget matches Stock::Icon { name: n, role: r } && n@ == icon && r == role
    &&& text_view(b.name) == name
    &&& !b.focusable
    &&& b.children@.len() == 0
}

/// A container with these children that Tab passes by.
pub open spec fn is_frame<P>(
    b: Sketch<P>,
    frame: Frame,
    name: Option<Seq<char>>,
    children: Seq<Sketch<P>>,
) -> bool {
    &&& b.widget == Stock::<P>::Frame(frame)
    &&& text_view(b.name) == name
    &&& !b.focusable
    &&& b.children@ == children
}

/// Dim small print.
pub open spec fn small_print() -> TextLook {
    TextLook {
        size: TextSize::Small,
        weight: 400,
        role: ColorRole::TextDim,
        elide: false,
        grow: false,
    }
}

/// How the label of a sidebar row looks.
pub open spec fn sidebar_look() -> TextLook {
    TextLook {
        size: TextSize::Sidebar,
        weight: 400,
        role: ColorRole::Text,
        elide: true,
        grow: true,
    }
}

/// How the title of a pane looks.
pub open spec fn title_look(grow: bool) -> TextLook {
    TextLook { size: TextSize::Header, weight: 600, role: ColorRole::Text, elide: true, grow }
}

/// How the label of a card row looks.
pub open spec fn row_look() -> TextLook {
    TextLook {
        size: TextSize::Row,
        weight: 400,
        role: ColorRole::Text,
        elide: true,
        grow: false,
    }
}

fn held<P>(id: WidgetId) -> (b: Sketch<P>)
    ensures
        is_held(b, id),
{
    Built::new(Stock::Held(id))
}

fn label<P>(
    text: String,
    size: TextSize,
    weight: u16,
    role: ColorRole,
    elide: bool,
    grow: bool,
) -> (b: Sketch<P>)
    ensures
        is_text(b, text@, (TextLook { size, weight, role, elide, grow })),
{
    Built::new(Stock::Label { text, look: TextLook { size, weight, role, elide, grow } })
}

// ---------------------------------------------------------------------
// the sidebar
// ---------------------------------------------------------------------

/// A row of a sidebar, put together step by step.
pub struct SidebarRowBuilder {
    /// The row itself.
    pub row: SidebarRow,
    /// Which icon it shows.
    pub icon: String,
    /// What its icon is addressed by, if it has a name of its own.
    pub icon_name: Option<String>,
    /// What its badge says, if it has one.
    pub badge: Option<String>,
}

/// A row with an icon and a text.
pub fn sidebar_row(icon: String, label: String) -> (b: SidebarRowBuilder)
    ensures
        b.row.label@ == label@,
        !b.row.selected,
        !b.row.press.pressed,
        b.icon@ == icon@,
        b.icon_name is None,
        b.badge is None,
{
    SidebarRowBuilder { row: SidebarRow::new(label), icon, icon_name: None, badge: None }
}

impl SidebarRowBuilder {
    /// The same row, selected or not.
    pub fn selected(self, selected: bool) -> (b: SidebarRowBuilder)
        ensures
            b == (SidebarRowBuilder { row: SidebarRow { selected, ..self.row }, ..self }),
    {
        let mut b = self;
        b.row.selected = selected;
        b
    }

    /// The same row with a badge.
    pub fn badge(self, badge: String) -> (b: SidebarRowBuilder)
        ensures
            b == (SidebarRowBuilder { badge: Some(badge), ..self }),
    {
        let mut b = self;
        b.badge = Some(badge);
        b
    }

    /// The same row, whose icon has an addressing name of its own.
    pub fn icon_name(self, name: String) -> (b: SidebarRowBuilder)
        ensures
            b == (SidebarRowBuilder { icon_name: Some(name), ..self }),
    {
        let mut b = self;
        b.icon_name = Some(name);
        b
    }

    /// The row: its icon, its label, and its badge if it has one.
    pub fn into_widget<P>(self) -> (b: Sketch<P>)
        ensures
            b.widget == Stock::<P>::SidebarRow(self.row),
            b.name is None,
            b.focusable,
            b.children@.len() == (if self.badge is Some {
                3int
            } else {
                2
            }),
            is_named_icon(
                b.children@[0],
                self.icon@,
                ColorRole::Text,
                text_view(self.icon_name),
            ),
            is_text(b.children@[1], self.row.label@, sidebar_look()),
            self.badge matches Some(t) ==> is_text(b.children@[2], t@, small_print()),
    {
        let said = owned(self.row.label.as_str());
        let mut b: Sketch<P> = Built::new(Stock::SidebarRow(self.row));
        b.focusable = true;
        let mut icon: Sketch<P> = Built::new(
            Stock::Icon { name: self.icon, role: ColorRole::Text },
        );
        icon.name = self.icon_name;
        b.push(icon);
        b.push(label(said, TextSize::Sidebar, 400, ColorRole::Text, true, true));
        if let Some(t) = self.badge {
            b.push(badge(t));
        }
        b
    }
}

/// The badge of a sidebar row.
pub fn badge<P>(t: String) -> (b: Sketch<P>)
    ensures
        is_text(b, t@, small_print()),
{
    label(t, TextSize::Small, 400, ColorRole::TextDim, false, false)
}

/// A section title between sidebar rows.
pub fn sidebar_section<P>(title: String) -> (b: Sketch<P>)
    ensures
        is_frame(b, Frame::Section, None, b.children@),
        b.children@.len() == 1,
        is_text(b.children@[0], title@, (TextLook { weight: 700, ..small_print() })),
{
    let mut b: Sketch<P> = Built::new(Stock::Frame(Frame::Section));
    b.push(label(title, TextSize::Small, 700, ColorRole::TextDim, false, false));
    b
}

/// A line between sidebar rows.
pub fn sidebar_separator<P>() -> (b: Sketch<P>)
    ensures
        b.widget == (Stock::<P>::Line { vertical: false }),
        is_leaf(b),
{
    Built::new(Stock::Line { vertical: false })
}

// ---------------------------------------------------------------------
// cards
// ---------------------------------------------------------------------

/// A card, put together step by step.
pub struct CardBuilder<P> {
    built: Sketch<P>,
}

/// An empty card.
pub fn card<P>() -> (c: CardBuilder<P>)
    ensures
        c.rows().len() == 0,
{
    CardBuilder { built: Built::new(Stock::Card) }
}

impl<P> CardBuilder<P> {
    /// The rows so far.
    pub closed spec fn rows(self) -> Seq<Sketch<P>> {
        self.built.children@
    }

    /// A card and nothing but a card.
    #[verifier::type_invariant]
    spec fn is_card(self) -> bool {
        self.built.widget is Card && self.built.name is None && !self.built.focusable
    }

    /// The same card with one more row.
    pub fn child(self, row: Sketch<P>) -> (c: CardBuilder<P>)
        ensures
            c.rows() == self.rows().push(row),
    {
        proof {
            use_type_invariant(&self);
        }
        let mut built = self.built;
        built.push(row);
        CardBuilder { built }
    }

    /// The card.
    pub fn into_widget(self) -> (b: Sketch<P>)
        ensures
            b.widget is Card,
            b.name is None,
            !b.focusable,
            b.children@ == self.rows(),
    {
        proof {
            use_type_invariant(&self);
        }
        self.built
    }
}

/// A row of a card, put together step by step.
pub struct CardRowBuilder<P> {
    /// The row itself.
    pub row: CardRow,
    /// What stands below its label.
    pub subtitle: Option<String>,
    /// What stands behind its label.
    pub trailing: Vec<Sketch<P>>,
}

/// A row with a label.
pub fn card_row<P>(label: String) -> (b: CardRowBuilder<P>)
    ensures
        b.row.label@ == label@,
        !b.row.clickable,
        !b.row.press.pressed,
        b.subtitle is None,
        b.trailing@.len() == 0,
{
    CardRowBuilder { row: CardRow::new(label), subtitle: None, trailing: Vec::new() }
}

impl<P> CardRowBuilder<P> {
    /// The same row with a second line.
    pub fn subtitle(self, subtitle: String) -> (b: CardRowBuilder<P>)
        ensures
            b == (CardRowBuilder { subtitle: Some(subtitle), ..self }),
    {
        CardRowBuilder { row: self.row, subtitle: Some(subtitle), trailing: self.trailing }
    }

    /// The same row with one more widget behind its label.
    pub fn trailing(self, w: Sketch<P>) -> (b: CardRowBuilder<P>)
        ensures
            b.row == self.row,
            b.subtitle == self.subtitle,
            b.trailing@ == self.trailing@.push(w),
    {
        let mut trailing = self.trailing;
        trailing.push(w);
        CardRowBuilder { row: self.row, subtitle: self.subtitle, trailing }
    }

    /// The same row with one more text behind its label.
    pub fn value(self, value: String) -> (b: CardRowBuilder<P>)
        ensures
            b.row == self.row,
            b.subtitle == self.subtitle,
            b.trailing@.len() == self.trailing@.len() + 1,
            b.trailing@.drop_last() == self.trailing@,
            is_text(
                b.trailing@.last(),
                value@,
                (TextLook { size: TextSize::Row, ..small_print() }),
            ),
    {
        let ghost before = self.trailing@;
        let b = self.trailing(label(value, TextSize::Row, 400, ColorRole::TextDim, false, false));
        assert(b.trailing@.drop_last() =~= before);
        b
    }

    /// The same row, leading somewhere.
    pub fn clickable(self) -> (b: CardRowBuilder<P>)
        ensures
            b == (CardRowBuilder { row: CardRow { clickable: true, ..self.row }, ..self }),
    {
        let mut b = self;
        b.row.clickable = true;
        b
    }

    /// The row: its texts, what stands behind them, and an arrow where it
    /// leads somewhere.
    pub fn into_widget(self) -> (b: Sketch<P>)
        ensures
            b.widget == Stock::<P>::CardRow(self.row),
            b.name is None,
            b.focusable == self.row.clickable,
            ({
                let n = self.trailing@.len() as int;
                &&& b.children@.len() == 1 + n + (if self.row.clickable {
                    1int
                } else {
                    0
                })
                &&& is_card_text(b.children@[0], self.row.label@, text_view(self.subtitle))
                &&& b.children@.subrange(1, 1 + n) == self.trailing@
                &&& self.row.clickable ==> is_icon(
                    b.children@[1 + n],
                    "chevron-right"@,
                    ColorRole::TextDim,
                )
            }),
    {
        let ghost trailing = self.trailing@;
        let clickable: bool = self.row.clickable;
        let mut texts: Sketch<P> = Built::new(Stock::Frame(Frame::CardText));
        let said = owned(self.row.label.as_str());
        texts.push(label(said, TextSize::Row, 400, ColorRole::Text, true, false));
        if let Some(sub) = self.subtitle {
            texts.push(label(sub, TextSize::Small, 400, ColorRole::TextDim, true, false));
        }
        let mut b: Sketch<P> = Built::new(Stock::CardRow(self.row));
        b.focusable = clickable;
        b.push(texts);
        let mut rest = self.trailing;
        b.children.append(&mut rest);
        if clickable {
            b.push(Built::new(Stock::Icon {
                name: owned("chevron-right"),
                role: ColorRole::TextDim,
            }));
        }
        assert(b.children@.subrange(1, 1 + trailing.len() as int) =~= trailing);
        b
    }
}

/// The texts of a card row: its label, and its subtitle below it.
pub open spec fn is_card_text<P>(
    b: Sketch<P>,
    label: Seq<char>,
    subtitle: Option<Seq<char>>,
) -> bool {
    &&& is_frame(b, Frame::CardText, None, b.children@)
    &&& b.children@.len() == (if subtitle is Some {
        2int
    } else {
        1
    })
    &&& is_text(b.children@[0], label, row_look())
    &&& subtitle matches Some(s) ==> is_text(
        b.children@[1],
        s,
        (TextLook { elide: true, ..small_print() }),
    )
}

/// A heading above a card.
pub fn group_caption<P>(caption: String) -> (b: Sketch<P>)
    ensures
        is_text(
            b,
            caption@,
            (TextLook {
                size: TextSize::Caption,
                weight: 600,
                role: ColorRole::Text,
                elide: false,
                grow: false,
            }),
        ),
{
    label(caption, TextSize::Caption, 600, ColorRole::Text, false, false)
}

/// A remark below a card.
pub fn footnote<P>(remark: String) -> (b: Sketch<P>)
    ensures
        is_text(b, remark@, small_print()),
{
    label(remark, TextSize::Small, 400, ColorRole::TextDim, false, false)
}

// ---------------------------------------------------------------------
// content columns
// ---------------------------------------------------------------------

/// A scrolling column of cards, put together step by step.
pub struct ContentColumnBuilder<P> {
    /// What is in the column.
    pub children: Vec<Sketch<P>>,
    /// The addressing name of the column.
    pub name: Option<String>,
}

/// An empty column.
pub fn content_column<P>() -> (b: ContentColumnBuilder<P>)
    ensures
        b.children@.len() == 0,
        b.name is None,
{
    ContentColumnBuilder { children: Vec::new(), name: None }
}

impl<P> ContentColumnBuilder<P> {
    /// The same column with one more child.
    pub fn child(self, c: Sketch<P>) -> (b: ContentColumnBuilder<P>)
        ensures
            b.children@ == self.children@.push(c),
            b.name == self.name,
    {
        let mut children = self.children;
        children.push(c);
        ContentColumnBuilder { children, name: self.name }
    }

    /// The same column with more children.
    pub fn children(self, more: Vec<Sketch<P>>) -> (b: ContentColumnBuilder<P>)
        ensures
            b.children@ == self.children@ + more@,
            b.name == self.name,
    {
        let mut children = self.children;
        let mut rest = more;
        children.append(&mut rest);
        ContentColumnBuilder { children, name: self.name }
    }

    /// The same column under an addressing name.
    pub fn name(self, name: String) -> (b: ContentColumnBuilder<P>)
        ensures
            b == (ContentColumnBuilder { name: Some(name), ..self }),
    {
        ContentColumnBuilder { children: self.children, name: Some(name) }
    }

    /// The column, centred in a viewport.
    pub fn into_widget(self) -> (b: Sketch<P>)
        ensures
            b.widget is Scroll,
            b.name is None,
            !b.focusable,
            b.children@.len() == 1,
            is_frame(b.children@[0], Frame::Wrapper, None, b.children@[0].children@),
            b.children@[0].children@.len() == 1,
            is_frame(
                b.children@[0].children@[0],
                Frame::Column,
                text_view(self.name),
                self.children@,
            ),
    {
        let mut inner: Sketch<P> = Built::new(Stock::Frame(Frame::Column));
        inner.name = self.name;
        inner.children = self.children;
        let mut wrapper: Sketch<P> = Built::new(Stock::Frame(Frame::Wrapper));
        wrapper.push(inner);
        let mut b: Sketch<P> = Built::new(Stock::Scroll);
        b.push(wrapper);
        b
    }
}

/// The ids of a content column in a tree.
#[derive(Debug, Clone, Copy, PartialEq, Eq, Structural)]
pub struct ContentColumn {
    /// The viewport.
    pub page: WidgetId,
    /// The column in it, where children can be added.
    pub column: WidgetId,
}

/// The first child of a widget.
pub open spec fn first_child<W>(ui: &Ui<W>, id: WidgetId) -> Option<WidgetId> {
    if ui@.nodes.dom().contains(id) && ui@.nodes[id].state.children.len() > 0 {
        Some(ui@.nodes[id].state.children[0])
    } else {
        None
    }
}

/// The ids of a content column that was inserted at `page`: the column is
/// the first child of the first child. None where there is no such child.
pub fn content_column_at<W>(ui: &Ui<W>, page: WidgetId) -> (c: Option<ContentColumn>)
    ensures
        c == (match first_child(ui, page) {
            Some(wrapper) => match first_child(ui, wrapper) {
                Some(column) => Some(ContentColumn { page, column }),
                None => None,
            },
            None => None,
        }),
{
    let outer = ui.children(page);
    if outer.len() == 0 {
        return None;
    }
    let inner = ui.children(outer[0]);
    if inner.len() == 0 {
        return None;
    }
    Some(ContentColumn { page, column: inner[0] })
}

// ---------------------------------------------------------------------
// pages and switches
// ---------------------------------------------------------------------

/// A stack of pages, put together step by step.
pub struct PagesBuilder<P> {
    /// The pages.
    pub children: Vec<Sketch<P>>,
    /// The stack itself.
    pub pages: Pages,
}

/// An empty stack that shows its first page.
pub fn pages<P>() -> (b: PagesBuilder<P>)
    ensures
        b.children@.len() == 0,
        b.pages.current == 0,
{
    PagesBuilder { children: Vec::new(), pages: Pages::new() }
}

impl<P> PagesBuilder<P> {
    /// The same stack showing another page.
    pub fn current(self, index: usize) -> (b: PagesBuilder<P>)
        ensures
            b == (PagesBuilder { pages: Pages { current: index }, ..self }),
    {
        PagesBuilder { children: self.children, pages: Pages { current: index } }
    }

    /// The same stack with one more page.
    pub fn child(self, page: Sketch<P>) -> (b: PagesBuilder<P>)
        ensures
            b.children@ == self.children@.push(page),
            b.pages == self.pages,
    {
        let mut children = self.children;
        children.push(page);
        PagesBuilder { children, pages: self.pages }
    }

    /// The stack.
    pub fn into_widget(self) -> (b: Sketch<P>)
        ensures
            b.widget == Stock::<P>::Pages(self.pages),
            b.name is None,
            !b.focusable,
            b.children == self.children,
    {
        Built {
            widget: Stock::Pages(self.pages),
            name: None,
            focusable: false,
            children: self.children,
        }
    }
}

/// A switch, put together step by step.
pub struct SwitchBuilder {
    /// The switch itself.
    pub switch: Switch,
}

/// A switch that is off and reacts to input.
pub fn switch(label: String) -> (b: SwitchBuilder)
    ensures
        b.switch@ == (SwitchView { label: label@, checked: false, enabled: true }),
{
    SwitchBuilder { switch: Switch::new(label) }
}

impl SwitchBuilder {
    /// The same switch, on or off.
    pub fn checked(self, checked: bool) -> (b: SwitchBuilder)
        ensures
            b.switch@ == (SwitchView { checked, ..self.switch@ }),
    {
        let mut b = self;
        b.switch.set_checked(checked);
        b
    }

    /// The same switch, which does not react to input.
    pub fn disabled(self) -> (b: SwitchBuilder)
        ensures
            b.switch@ == (SwitchView { enabled: false, ..self.switch@ }),
    {
        let mut b = self;
        b.switch.set_enabled(false);
        b
    }

    /// The switch; Tab stops at it.
    pub fn into_widget<P>(self) -> (b: Sketch<P>)
        ensures
            b.widget == Stock::<P>::Switch(self.switch),
            b.name is None,
            b.focusable,
            b.children@.len() == 0,
    {
        let mut b: Sketch<P> = Built::new(Stock::Switch(self.switch));
        b.focusable = true;
        b
    }
}

// ---------------------------------------------------------------------
// the split view
// ---------------------------------------------------------------------

/// A split view, put together step by step.
pub struct SplitViewBuilder<P> {
    /// The addressing name of the view.
    pub name: String,
    /// The addressing name of the column of sidebar rows.
    pub sidebar_name: String,
    /// What stands above the sidebar rows.
    pub sidebar_header: Option<Sketch<P>>,
    /// The sidebar rows.
    pub sidebar_children: Vec<Sketch<P>>,
    /// The title of the content pane.
    pub header_title: Option<String>,
    /// What stands before the title.
    pub header_leading: Vec<Sketch<P>>,
    /// What stands behind the title.
    pub header_trailing: Vec<Sketch<P>>,
    /// What fills the content pane.
    pub content: Option<Sketch<P>>,
    /// What stands below that.
    pub footer: Option<Sketch<P>>,
}

/// The ids of the parts of a split view in a tree.
#[derive(Debug, Clone, Copy, PartialEq, Eq, Structural)]
pub struct SplitParts {
    /// The whole view.
    pub root: WidgetId,
    /// The column of sidebar rows.
    pub sidebar: WidgetId,
    /// The title in the content header, if it has one.
    pub title: Option<WidgetId>,
    /// What fills the content pane.
    pub content_body: WidgetId,
    /// What stands below that, if anything does.
    pub content_footer: Option<WidgetId>,
}

/// An empty split view.
pub fn split_view<P>() -> (b: SplitViewBuilder<P>)
    ensures
        b.name@ == names::SPLIT@,
        b.sidebar_name@ == names::SIDEBAR@,
        b.sidebar_header is None,
        b.sidebar_children@.len() == 0,
        b.header_title is None,
        b.header_leading@.len() == 0,
        b.header_trailing@.len() == 0,
        b.content is None,
        b.footer is None,
{
    SplitViewBuilder {
        name: owned(names::SPLIT),
        sidebar_name: owned(names::SIDEBAR),
        sidebar_header: None,
        sidebar_children: Vec::new(),
        header_title: None,
        header_leading: Vec::new(),
        header_trailing: Vec::new(),
        content: None,
        footer: None,
    }
}

/// The header of a sidebar: a title and nothing else.
pub open spec fn is_sidebar_header<P>(b: Sketch<P>, title: Seq<char>) -> bool {
    &&& is_frame(b, Frame::SidebarHeader, Some(names::SIDEBAR_HEADER@), b.children@)
    &&& b.children@.len() == 1
    &&& is_text(b.children@[0], title, title_look(false))
}

/// The header of a sidebar.
pub fn sidebar_header<P>(title: String) -> (b: Sketch<P>)
    ensures
        is_sidebar_header(b, title@),
{
    let mut b: Sketch<P> = Built::new(Stock::Frame(Frame::SidebarHeader));
    b.name = Some(owned(names::SIDEBAR_HEADER));
    b.push(label(title, TextSize::Header, 600, ColorRole::Text, true, false));
    b
}

/// The pane of the sidebar: the header if there is one, and the rows in a
/// viewport.
pub open spec fn is_side<P>(b: Sketch<P>, of: SplitViewBuilder<P>) -> bool {
    let head = of.sidebar_header is Some;
    let view = b.children@.last();
    &&& is_frame(b, Frame::Side, None, b.children@)
    &&& b.children@.len() == (if head {
        2int
    } else {
        1
    })
    &&& head ==> b.children@[0] == of.sidebar_header->0
    &&& view.widget is Scroll && view.name is None && !view.focusable
    &&& view.children@.len() == 1
    &&& is_frame(
        view.children@[0],
        Frame::Rows,
        Some(of.sidebar_name@),
        of.sidebar_children@,
    )
}

/// Whether the content pane has a header: it has a title, or something that
/// stands before one.
pub open spec fn has_header<P>(of: SplitViewBuilder<P>) -> bool {
    of.header_title is Some || of.header_leading@.len() > 0
}

/// The header of the content pane: what leads, the title or the room for
/// it, and what trails.
pub open spec fn is_header<P>(b: Sketch<P>, of: SplitViewBuilder<P>) -> bool {
    let lead = of.header_leading@.len() as int;
    let trail = of.header_trailing@.len() as int;
    &&& is_frame(b, Frame::Header, Some(names::CONTENT_HEADER@), b.children@)
    &&& b.children@.len() == lead + 1 + trail
    &&& b.children@.take(lead) == of.header_leading@
    &&& b.children@.skip(lead + 1) == of.header_trailing@
    &&& match of.header_title {
        Some(t) => is_title(b.children@[lead], t@),
        None => b.children@[lead].widget is Spacer && is_leaf(b.children@[lead]),
    }
}

/// The title of the content pane.
pub open spec fn is_title<P>(b: Sketch<P>, title: Seq<char>) -> bool {
    &&& b.widget matches Stock::Label { text, look } && text@ == title && look == title_look(true)
    &&& text_view(b.name) == Some(names::TITLE@)
    &&& !b.focusable
    &&& b.children@.len() == 0
}

/// A part under a name that it has unless it came with another.
pub open spec fn is_named<P>(b: Sketch<P>, part: Sketch<P>, name: Seq<char>) -> bool {
    &&& b.widget == part.widget
    &&& b.focusable == part.focusable
    &&& b.children == part.children
    &&& text_view(b.name) == (match part.name {
        Some(n) => Some(n@),
        None => Some(name),
    })
}

/// What fills the content pane: what was handed in, or an empty frame.
pub open spec fn is_body<P>(b: Sketch<P>, of: SplitViewBuilder<P>) -> bool {
    match of.content {
        Some(part) => is_named(b, part, names::CONTENT_BODY@),
        None => is_frame(b, Frame::Body, Some(names::CONTENT_BODY@), Seq::empty()),
    }
}

/// The content pane: its header if it has one, its body, and its footer if
/// it has one.
pub open spec fn is_content<P>(b: Sketch<P>, of: SplitViewBuilder<P>) -> bool {
    let at = if has_header(of) {
        1int
    } else {
        0
    };
    &&& is_frame(b, Frame::Content, Some(names::CONTENT@), b.children@)
    &&& b.children@.len() == at + 1 + (if of.footer is Some {
        1int
    } else {
        0
    })
    &&& has_header(of) ==> is_header(b.children@[0], of)
    &&& is_body(b.children@[at], of)
    &&& of.footer matches Some(part) ==> is_named(
        b.children@[at + 1],
        part,
        names::CONTENT_FOOTER@,
    )
}

/// The whole view: the sidebar, a line, and the content pane.
pub open spec fn is_split<P>(b: Sketch<P>, of: SplitViewBuilder<P>) -> bool {
    &&& is_frame(b, Frame::Root, Some(of.name@), b.children@)
    &&& b.children@.len() == 3
    &&& is_side(b.children@[0], of)
    &&& b.children@[1].widget == (Stock::<P>::Line { vertical: true }) && is_leaf(b.children@[1])
    &&& is_content(b.children@[2], of)
}

/// A part under a name that it has unless it came with another.
fn named<P>(part: Sketch<P>, name: &str) -> (b: Sketch<P>)
    ensures
        is_named(b, part, name@),
{
    let mut b = part;
    if b.name.is_none() {
        b.name = Some(owned(name));
    }
    b
}

fn framed<P>(frame: Frame, name: &str) -> (b: Sketch<P>)
    ensures
        is_frame(b, frame, Some(name@), Seq::empty()),
{
    let mut b: Sketch<P> = Built::new(Stock::Frame(frame));
    b.name = Some(owned(name));
    assert(b.children@ =~= Seq::empty());
    b
}

impl<P> SplitViewBuilder<P> {
    /// The same view under another addressing name.
    pub fn name(self, name: String) -> (b: SplitViewBuilder<P>)
        ensures
            b == (SplitViewBuilder { name, ..self }),
    {
        let mut b = self;
        b.name = name;
        b
    }

    /// The same view with another name for the column of rows.
    pub fn sidebar_name(self, name: String) -> (b: SplitViewBuilder<P>)
        ensures
            b == (SplitViewBuilder { sidebar_name: name, ..self }),
    {
        let mut b = self;
        b.sidebar_name = name;
        b
    }

    /// The same view with a header above the sidebar rows.
    pub fn sidebar_header_widget(self, header: Sketch<P>) -> (b: SplitViewBuilder<P>)
        ensures
            b == (SplitViewBuilder { sidebar_header: Some(header), ..self }),
    {
        let mut b = self;
        b.sidebar_header = Some(header);
        b
    }

    /// The same view with a title above the sidebar rows.
    pub fn sidebar_header(self, title: String) -> (b: SplitViewBuilder<P>)
        ensures
            b == (SplitViewBuilder { sidebar_header: b.sidebar_header, ..self }),
            b.sidebar_header matches Some(h) && is_sidebar_header(h, title@),
    {
        let mut b = self;
        b.sidebar_header = Some(sidebar_header(title));
        b
    }

    /// The same view with one more sidebar row.
    pub fn sidebar_child(self, row: Sketch<P>) -> (b: SplitViewBuilder<P>)
        ensures
            b.sidebar_children@ == self.sidebar_children@.push(row),
            b == (SplitViewBuilder { sidebar_children: b.sidebar_children, ..self }),
    {
        let mut b = self;
        b.sidebar_children.push(row);
        b
    }

    /// The same view with one more sidebar row, which the app built earlier.
    pub fn sidebar_child_id(self, id: WidgetId) -> (b: SplitViewBuilder<P>)
        ensures
            b.sidebar_children@.len() == self.sidebar_children@.len() + 1,
            b.sidebar_children@.drop_last() == self.sidebar_children@,
            is_held(b.sidebar_children@.last(), id),
            b == (SplitViewBuilder { sidebar_children: b.sidebar_children, ..self }),
    {
        let ghost before = self.sidebar_children@;
        let mut b = self;
        b.sidebar_children.push(held(id));
        assert(b.sidebar_children@.drop_last() =~= before);
        b
    }

    /// The same view with more sidebar rows.
    pub fn sidebar_children(self, rows: Vec<Sketch<P>>) -> (b: SplitViewBuilder<P>)
        ensures
            b.sidebar_children@ == self.sidebar_children@ + rows@,
            b == (SplitViewBuilder { sidebar_children: b.sidebar_children, ..self }),
    {
        let mut b = self;
        let mut rest = rows;
        b.sidebar_children.append(&mut rest);
        b
    }

    /// The same view with a title above the content.
    pub fn content_header(self, title: String) -> (b: SplitViewBuilder<P>)
        ensures
            b == (SplitViewBuilder { header_title: Some(title), ..self }),
    {
        let mut b = self;
        b.header_title = Some(title);
        b
    }

    /// The same view with one more widget before the title.
    pub fn content_header_leading(self, w: Sketch<P>) -> (b: SplitViewBuilder<P>)
        ensures
            b.header_leading@ == self.header_leading@.push(w),
            b == (SplitViewBuilder { header_leading: b.header_leading, ..self }),
    {
        let mut b = self;
        b.header_leading.push(w);
        b
    }

    /// The same view with a widget that the app built earlier before the title.
    pub fn content_header_leading_id(self, id: WidgetId) -> (b: SplitViewBuilder<P>)
        ensures
            b.header_leading@.len() == self.header_leading@.len() + 1,
            b.header_leading@.drop_last() == self.header_leading@,
            is_held(b.header_leading@.last(), id),
            b == (SplitViewBuilder { header_leading: b.header_leading, ..self }),
    {
        let ghost before = self.header_leading@;
        let mut b = self;
        b.header_leading.push(held(id));
        assert(b.header_leading@.drop_last() =~= before);
        b
    }

    /// The same view with one more widget behind the title.
    pub fn content_header_trailing(self, w: Sketch<P>) -> (b: SplitViewBuilder<P>)
        ensures
            b.header_trailing@ == self.header_trailing@.push(w),
            b == (SplitViewBuilder { header_trailing: b.header_trailing, ..self }),
    {
        let mut b = self;
        b.header_trailing.push(w);
        b
    }

    /// The same view with a widget that the app built earlier behind the title.
    pub fn content_header_trailing_id(self, id: WidgetId) -> (b: SplitViewBuilder<P>)
        ensures
            b.header_trailing@.len() == self.header_trailing@.len() + 1,
            b.header_trailing@.drop_last() == self.header_trailing@,
            is_held(b.header_trailing@.last(), id),
            b == (SplitViewBuilder { header_trailing: b.header_trailing, ..self }),
    {
        let ghost before = self.header_trailing@;
        let mut b = self;
        b.header_trailing.push(held(id));
        assert(b.header_trailing@.drop_last() =~= before);
        b
    }

    /// The same view with something in its content pane.
    pub fn content(self, w: Sketch<P>) -> (b: SplitViewBuilder<P>)
        ensures
            b == (SplitViewBuilder { content: Some(w), ..self }),
    {
        let mut b = self;
        b.content = Some(w);
        b
    }

    /// The same view with a widget that the app built earlier in its content pane.
    pub fn content_id(self, id: WidgetId) -> (b: SplitViewBuilder<P>)
        ensures
            b.content matches Some(w) && is_held(w, id),
            b == (SplitViewBuilder { content: b.content, ..self }),
    {
        let mut b = self;
        b.content = Some(held(id));
        b
    }

    /// The same view with something below its content.
    pub fn content_footer(self, w: Sketch<P>) -> (b: SplitViewBuilder<P>)
        ensures
            b == (SplitViewBuilder { footer: Some(w), ..self }),
    {
        let mut b = self;
        b.footer = Some(w);
        b
    }

    /// The same view with a widget that the app built earlier below its content.
    pub fn content_footer_id(self, id: WidgetId) -> (b: SplitViewBuilder<P>)
        ensures
            b.footer matches Some(w) && is_held(w, id),
            b == (SplitViewBuilder { footer: b.footer, ..self }),
    {
        let mut b = self;
        b.footer = Some(held(id));
        b
    }

    /// The view.
    pub fn into_widget(self) -> (b: Sketch<P>)
        ensures
            is_split(b, self),
    {
        let ghost of = self;
        let mut rows: Sketch<P> = framed(Frame::Rows, self.sidebar_name.as_str());
        rows.children = self.sidebar_children;
        let mut view: Sketch<P> = Built::new(Stock::Scroll);
        view.push(rows);
        let mut side: Sketch<P> = Built::new(Stock::Frame(Frame::Side));
        if let Some(h) = self.sidebar_header {
            side.push(h);
        }
        side.push(view);
        assert(is_side(side, of));

        let mut content: Sketch<P> = framed(Frame::Content, names::CONTENT);
        if self.header_title.is_some() || self.header_leading.len() > 0 {
            let mut header: Sketch<P> = framed(Frame::Header, names::CONTENT_HEADER);
            header.children = self.header_leading;
            match self.header_title {
                Some(t) => {
                    let mut title: Sketch<P> = label(
                        t,
                        TextSize::Header,
                        600,
                        ColorRole::Text,
                        true,
                        true,
                    );
                    title.name = Some(owned(names::TITLE));
                    header.push(title);
                },
                None => header.push(Built::new(Stock::Spacer)),
            }
            let mut rest = self.header_trailing;
            header.children.append(&mut rest);
            proof {
                let lead = of.header_leading@.len() as int;
                assert(header.children@.take(lead) =~= of.header_leading@);
                assert(header.children@.skip(lead + 1) =~= of.header_trailing@);
            }
            content.push(header);
        }
        let body = match self.content {
            Some(part) => named(part, names::CONTENT_BODY),
            None => framed(Frame::Body, names::CONTENT_BODY),
        };
        content.push(body);
        if let Some(part) = self.footer {
            content.push(named(part, names::CONTENT_FOOTER));
        }
        assert(is_content(content, of));

        let mut b: Sketch<P> = framed(Frame::Root, self.name.as_str());
        b.push(side);
        b.push(Built::new(Stock::Line { vertical: true }));
        b.push(content);
        b
    }
}

/// A title is the largest and the heaviest of the texts; small print alone is
/// dim and is never cut off; and of the rest only a row of the sidebar takes
/// the room that is left.
pub proof fn what_the_texts_look_like(grow: bool)
    ensures
        title_look(grow).size == TextSize::Header && title_look(grow).grow == grow,
        title_look(grow).weight == 600,
        row_look().size == TextSize::Row && row_look().weight == 400,
        sidebar_look().size == TextSize::Sidebar && sidebar_look().weight == 400,
        small_print().size == TextSize::Small && small_print().weight == 400,
        small_print().role == ColorRole::TextDim && !small_print().elide,
        title_look(grow).elide && row_look().elide && sidebar_look().elide,
        title_look(grow).role == ColorRole::Text && row_look().role == ColorRole::Text
            && sidebar_look().role == ColorRole::Text,
        sidebar_look().grow && !row_look().grow && !small_print().grow,
{
}

/// Whether a widget is a text and says so much.
pub open spec fn says<P>(b: Sketch<P>, text: Seq<char>) -> bool {
    b.widget matches Stock::Label { text: t, .. } && t@ == text
}

/// A row of a card says its label first and its subtitle below it, in small
/// print, where it has one.
pub proof fn a_card_says_its_label_first<P>(
    b: Sketch<P>,
    label: Seq<char>,
    subtitle: Option<Seq<char>>,
)
    requires
        is_card_text(b, label, subtitle),
    ensures
        b.children@.len() >= 1 && says(b.children@[0], label),
        b.children@.len() == 2 <==> subtitle is Some,
        b.children@.len() <= 2,
        subtitle is Some ==> says(b.children@[1], subtitle->0),
        b.name is None && !b.focusable,
        b.widget == Stock::<P>::Frame(Frame::CardText),
{
}

/// A sidebar header says its title and nothing else, and can be found by its
/// name.
pub proof fn a_sidebar_header_says_its_title<P>(b: Sketch<P>, title: Seq<char>)
    requires
        is_sidebar_header(b, title),
    ensures
        b.children@.len() == 1 && says(b.children@[0], title),
        text_view(b.name) == Some(names::SIDEBAR_HEADER@),
        b.widget == Stock::<P>::Frame(Frame::SidebarHeader),
        !b.focusable,
{
}

/// A split view has the sidebar at the start, a line beside it and the content
/// behind the line. The sidebar scrolls its rows below its header; the content
/// has a header where there is something to put in it, then its body, then its
/// footer.
pub proof fn a_split_view_is_put_together<P>(b: Sketch<P>, of: SplitViewBuilder<P>)
    requires
        is_split(b, of),
    ensures
        text_view(b.name) == Some(of.name@),
        b.children@.len() == 3,
        b.children@[1].widget == (Stock::<P>::Line { vertical: true }),
        ({
            let side = b.children@[0];
            let rows = side.children@.last();
            &&& side.children@.len() == 2 <==> of.sidebar_header is Some
            &&& of.sidebar_header is Some ==> side.children@[0] == of.sidebar_header->0
            &&& rows.widget is Scroll
            &&& rows.children@.len() == 1
            &&& rows.children@[0].children@ == of.sidebar_children@
            &&& text_view(rows.children@[0].name) == Some(of.sidebar_name@)
        }),
        ({
            let content = b.children@[2];
            let headed = of.header_title is Some || of.header_leading@.len() > 0;
            let at = if headed {
                1int
            } else {
                0
            };
            &&& text_view(content.name) == Some(names::CONTENT@)
            &&& content.children@.len() > at
            &&& of.content is Some ==> content.children@[at].widget == of.content->0.widget
                && content.children@[at].children == of.content->0.children
            &&& of.content is Some && of.content->0.name is None ==> text_view(
                content.children@[at].name,
            ) == Some(names::CONTENT_BODY@)
            &&& of.content is Some && of.content->0.name is Some ==> text_view(
                content.children@[at].name,
            ) == text_view(of.content->0.name)
            &&& of.content is None ==> content.children@[at].children@.len() == 0
            &&& of.footer is None ==> content.children@.len() == at + 1
            &&& of.footer is Some ==> content.children@.len() == at + 2 && content.children@[at
                + 1].widget == of.footer->0.widget
            &&& headed ==> {
                let head = content.children@[0];
                let lead = of.header_leading@.len() as int;
                &&& text_view(head.name) == Some(names::CONTENT_HEADER@)
                &&& head.children@.len() == lead + 1 + of.header_trailing@.len()
                &&& forall|i: int|
                    0 <= i < lead ==> #[trigger] head.children@[i] == of.header_leading@[i]
                &&& forall|i: int|
                    0 <= i < of.header_trailing@.len() ==> head.children@[lead + 1 + i]
                        == #[trigger] of.header_trailing@[i]
                &&& of.header_title is Some ==> says(head.children@[lead], of.header_title->0@)
                    && text_view(head.children@[lead].name) == Some(names::TITLE@)
                &&& of.header_title is None ==> head.children@[lead].widget is Spacer
            }
        }),
{
    let content = b.children@[2];
    if has_header(of) {
        let head = content.children@[0];
        let lead = of.header_leading@.len() as int;
        assert forall|i: int| 0 <= i < lead implies #[trigger] head.children@[i]
            == of.header_leading@[i] by {
            assert(head.children@.take(lead)[i] == head.children@[i]);
        }
        assert forall|i: int| 0 <= i < of.header_trailing@.len() implies head.children@[lead + 1 + i]
            == #[trigger] of.header_trailing@[i] by {
            assert(head.children@.skip(lead + 1)[i] == head.children@[lead + 1 + i]);
        }
    }
}

} // verus!
