//! The look: colours by what they are for, and the measures that go with
//! them.
//!
//! A colour is never chosen by a widget. A widget names a [`ColorRole`], and
//! a [`Palette`] says which colour that is, so that one switch of the
//! palette changes the whole desktop. What a colour is made of, and what a
//! length is measured in, is the caller's: `C` and `M`.

use vstd::prelude::*;

use crate::chars::owned;

verus! {

/// What a colour is for.
#[derive(Debug, Clone, Copy, PartialEq, Eq, Structural)]
pub enum ColorRole {
    /// Behind everything in a window.
    WindowBackground,
    /// The face of a panel or a card.
    Surface,
    /// Text.
    Text,
    /// Text of less weight, and of what is disabled.
    TextDim,
    /// The face of a button.
    Button,
    /// That face under the pointer.
    ButtonHover,
    /// That face held down.
    ButtonActive,
    /// That face when it does not react.
    ButtonDisabled,
    /// Text on a button.
    ButtonText,
    /// The border of a control.
    Border,
    /// The ring around the control with the focus.
    Focus,
    /// The inside of a text field.
    Field,
    /// Behind what is selected.
    Selection,
    /// The caret.
    Caret,
    /// What an empty field says.
    Placeholder,
    /// What is switched on or filled.
    Accent,
    /// That under the pointer.
    AccentHover,
    /// Text on the accent.
    TextOnAccent,
    /// The unfilled part of a track.
    Track,
    /// Behind a sidebar.
    SidebarBackground,
    /// The selected row of a sidebar.
    SidebarSelected,
    /// A row under the pointer.
    SidebarHover,
    /// A thin line between things.
    Hairline,
}

/// Which colour each role has.
#[derive(Debug, Clone, Copy)]
pub struct Palette<C> {
    /// Behind everything in a window.
    pub window_background: C,
    /// The face of a panel or a card.
    pub surface: C,
    /// Text.
    pub text: C,
    /// Text of less weight, and of what is disabled.
    pub text_dim: C,
    /// The face of a button.
    pub button: C,
    /// That face under the pointer.
    pub button_hover: C,
    /// That face held down.
    pub button_active: C,
    /// That face when it does not react.
    pub button_disabled: C,
    /// Text on a button.
    pub button_text: C,
    /// The border of a control.
    pub border: C,
    /// The ring around the control with the focus.
    pub focus: C,
    /// The inside of a text field.
    pub field: C,
    /// Behind what is selected.
    pub selection: C,
    /// The caret.
    pub caret: C,
    /// What an empty field says.
    pub placeholder: C,
    /// What is switched on or filled.
    pub accent: C,
    /// That under the pointer.
    pub accent_hover: C,
    /// Text on the accent.
    pub text_on_accent: C,
    /// The unfilled part of a track.
    pub track: C,
    /// Behind a sidebar.
    pub sidebar_background: C,
    /// The selected row of a sidebar.
    pub sidebar_selected: C,
    /// A row under the pointer.
    pub sidebar_hover: C,
    /// A thin line between things.
    pub hairline: C,
}

impl<C: Copy> Palette<C> {
    /// The colour of a role.
    pub open spec fn color(self, role: ColorRole) -> C {
        match role {
            ColorRole::WindowBackground => self.window_background,
            ColorRole::Surface => self.surface,
            ColorRole::Text => self.text,
            ColorRole::TextDim => self.text_dim,
            ColorRole::Button => self.button,
            ColorRole::ButtonHover => self.button_hover,
            ColorRole::ButtonActive => self.button_active,
            ColorRole::ButtonDisabled => self.button_disabled,
            ColorRole::ButtonText => self.button_text,
            ColorRole::Border => self.border,
            ColorRole::Focus => self.focus,
            ColorRole::Field => self.field,
            ColorRole::Selection => self.selection,
            ColorRole::Caret => self.caret,
            ColorRole::Placeholder => self.placeholder,
            ColorRole::Accent => self.accent,
            ColorRole::AccentHover => self.accent_hover,
            ColorRole::TextOnAccent => self.text_on_accent,
            ColorRole::Track => self.track,
            ColorRole::SidebarBackground => self.sidebar_background,
            ColorRole::SidebarSelected => self.sidebar_selected,
            ColorRole::SidebarHover => self.sidebar_hover,
            ColorRole::Hairline => self.hairline,
        }
    }

    /// The colour of a role.
    pub fn get(&self, role: ColorRole) -> (c: C)
        ensures
            c == self.color(role),
    {
        match role {
            ColorRole::WindowBackground => self.window_background,
            ColorRole::Surface => self.surface,
            ColorRole::Text => self.text,
            ColorRole::TextDim => self.text_dim,
            ColorRole::Button => self.button,
            ColorRole::ButtonHover => self.button_hover,
            ColorRole::ButtonActive => self.button_active,
            ColorRole::ButtonDisabled => self.button_disabled,
            ColorRole::ButtonText => self.button_text,
            ColorRole::Border => self.border,
            ColorRole::Focus => self.focus,
            ColorRole::Field => self.field,
            ColorRole::Selection => self.selection,
            ColorRole::Caret => self.caret,
            ColorRole::Placeholder => self.placeholder,
            ColorRole::Accent => self.accent,
            ColorRole::AccentHover => self.accent_hover,
            ColorRole::TextOnAccent => self.text_on_accent,
            ColorRole::Track => self.track,
            ColorRole::SidebarBackground => self.sidebar_background,
            ColorRole::SidebarSelected => self.sidebar_selected,
            ColorRole::SidebarHover => self.sidebar_hover,
            ColorRole::Hairline => self.hairline,
        }
    }
}

/// The measures of a theme, and its font.
#[derive(Debug)]
pub struct Metrics<M> {
    /// Font family name or generic alias.
    pub font_family: String,
    /// Default text size.
    pub font_size: M,
    /// Corner radius of buttons and fields.
    pub radius: M,
    /// Border width of buttons and fields.
    pub border_width: M,
    /// Padding inside a button, horizontal and vertical.
    pub button_padding: (M, M),
    /// Padding inside a panel.
    pub panel_padding: M,
    /// Gap between the children of a container.
    pub gap: M,
    /// Side of a checkbox.
    pub checkbox_size: M,
    /// Thickness of a slider's track.
    pub slider_track: M,
    /// Diameter of a slider's knob.
    pub slider_knob: M,
    /// Thickness of a separator.
    pub separator_width: M,
}

/// What [`Metrics`] hold, as mathematical values.
pub struct MetricsView<M> {
    /// Font family name or generic alias.
    pub font_family: Seq<char>,
    /// Default text size.
    pub font_size: M,
    /// Corner radius.
    pub radius: M,
    /// Border width.
    pub border_width: M,
    /// Padding inside a button.
    pub button_padding: (M, M),
    /// Padding inside a panel.
    pub panel_padding: M,
    /// Gap between children.
    pub gap: M,
    /// Side of a checkbox.
    pub checkbox_size: M,
    /// Thickness of a slider's track.
    pub slider_track: M,
    /// Diameter of a slider's knob.
    pub slider_knob: M,
    /// Thickness of a separator.
    pub separator_width: M,
}

impl<M> View for Metrics<M> {
    type V = MetricsView<M>;

    open spec fn view(&self) -> MetricsView<M> {
        MetricsView {
            font_family: self.font_family@,
            font_size: self.font_size,
            radius: self.radius,
            border_width: self.border_width,
            button_padding: self.button_padding,
            panel_padding: self.panel_padding,
            gap: self.gap,
            checkbox_size: self.checkbox_size,
            slider_track: self.slider_track,
            slider_knob: self.slider_knob,
            separator_width: self.separator_width,
        }
    }
}

impl<M: Copy> Metrics<M> {
    /// The measures again.
    pub fn copy(&self) -> (m: Metrics<M>)
        ensures
            m@ == self@,
    {
        Metrics {
            font_family: owned(self.font_family.as_str()),
            font_size: self.font_size,
            radius: self.radius,
            border_width: self.border_width,
            button_padding: self.button_padding,
            panel_padding: self.panel_padding,
            gap: self.gap,
            checkbox_size: self.checkbox_size,
            slider_track: self.slider_track,
            slider_knob: self.slider_knob,
            separator_width: self.separator_width,
        }
    }
}

/// Colours and measures for the built-in widgets.
#[derive(Debug)]
pub struct Theme<C, M> {
    /// Window background.
    pub background: C,
    /// Panel background.
    pub surface: C,
    /// Default text colour.
    pub text: C,
    /// Text colour of disabled widgets.
    pub text_disabled: C,
    /// Button face at rest.
    pub button: C,
    /// Button face under the pointer.
    pub button_hover: C,
    /// Button face while held.
    pub button_active: C,
    /// Button face when disabled.
    pub button_disabled: C,
    /// Button label colour.
    pub button_text: C,
    /// Border of buttons and fields.
    pub border: C,
    /// Focus ring.
    pub focus: C,
    /// Inside of a text field.
    pub field: C,
    /// Behind selected text and rows.
    pub selection: C,
    /// The text caret.
    pub caret: C,
    /// The text of an empty field.
    pub placeholder: C,
    /// What is switched on or filled.
    pub accent: C,
    /// The unfilled part of a track.
    pub track: C,
    /// The measures.
    pub metrics: Metrics<M>,
}

impl<C, M> Theme<C, M> {
    /// Every colour is the one that its role has in a palette.
    pub open spec fn follows(self, p: Palette<C>) -> bool {
        &&& self.background == p.window_background
        &&& self.surface == p.surface
        &&& self.text == p.text
        &&& self.text_disabled == p.text_dim
        &&& self.button == p.button
        &&& self.button_hover == p.button_hover
        &&& self.button_active == p.button_active
        &&& self.button_disabled == p.button_disabled
        &&& self.button_text == p.button_text
        &&& self.border == p.border
        &&& self.focus == p.focus
        &&& self.field == p.field
        &&& self.selection == p.selection
        &&& self.caret == p.caret
        &&& self.placeholder == p.placeholder
        &&& self.accent == p.accent
        &&& self.track == p.track
    }
}

impl<C: Copy, M: Copy> Theme<C, M> {
    /// A theme with the colours of a palette and the given measures.
    pub fn from_palette(p: &Palette<C>, metrics: Metrics<M>) -> (t: Theme<C, M>)
        ensures
            t.follows(*p),
            t.metrics == metrics,
    {
        Theme {
            background: p.get(ColorRole::WindowBackground),
            surface: p.get(ColorRole::Surface),
            text: p.get(ColorRole::Text),
            text_disabled: p.get(ColorRole::TextDim),
            button: p.get(ColorRole::Button),
            button_hover: p.get(ColorRole::ButtonHover),
            button_active: p.get(ColorRole::ButtonActive),
            button_disabled: p.get(ColorRole::ButtonDisabled),
            button_text: p.get(ColorRole::ButtonText),
            border: p.get(ColorRole::Border),
            focus: p.get(ColorRole::Focus),
            field: p.get(ColorRole::Field),
            selection: p.get(ColorRole::Selection),
            caret: p.get(ColorRole::Caret),
            placeholder: p.get(ColorRole::Placeholder),
            accent: p.get(ColorRole::Accent),
            track: p.get(ColorRole::Track),
            metrics,
        }
    }

    /// The same measures with the colours of another palette: what a switch
    /// of the scheme does to a running app.
    pub fn with_palette(&self, p: &Palette<C>) -> (t: Theme<C, M>)
        ensures
            t.follows(*p),
            t.metrics@ == self.metrics@,
    {
        Theme::from_palette(p, self.metrics.copy())
    }
}

/// Two themes that follow one palette with the same measures are the same
/// theme, whatever they came from: switching to a palette twice changes
/// nothing more.
pub proof fn a_palette_decides_the_colours<C, M>(p: Palette<C>, a: Theme<C, M>, b: Theme<C, M>)
    requires
        a.follows(p),
        b.follows(p),
        a.metrics@ == b.metrics@,
    ensures
        a.background == b.background,
        a.surface == b.surface,
        a.text == b.text,
        a.text_disabled == b.text_disabled,
        a.button == b.button,
        a.button_hover == b.button_hover,
        a.button_active == b.button_active,
        a.button_disabled == b.button_disabled,
        a.button_text == b.button_text,
        a.border == b.border,
        a.focus == b.focus,
        a.field == b.field,
        a.selection == b.selection,
        a.caret == b.caret,
        a.placeholder == b.placeholder,
        a.accent == b.accent,
        a.track == b.track,
{
}

/// Font selection and size of a piece of text.
#[derive(Debug)]
pub struct TextStyle<M> {
    /// Font family name or generic alias.
    pub family: String,
    /// Size.
    pub size_px: M,
    /// CSS-style weight, 100 to 900.
    pub weight: u16,
    /// Whether to use an italic face.
    pub italic: bool,
}

impl<M: Copy> TextStyle<M> {
    /// A style with normal weight, upright.
    pub fn new(family: String, size_px: M) -> (s: TextStyle<M>)
        ensures
            s.family@ == family@,
            s.size_px == size_px,
            s.weight == 400,
            !s.italic,
    {
        TextStyle { family, size_px, weight: 400, italic: false }
    }

    /// The default text style of a theme.
    pub fn from_theme<C>(theme: &Theme<C, M>) -> (s: TextStyle<M>)
        ensures
            s.family@ == theme.metrics@.font_family,
            s.size_px == theme.metrics@.font_size,
            s.weight == 400,
            !s.italic,
    {
        TextStyle::new(owned(theme.metrics.font_family.as_str()), theme.metrics.font_size)
    }
}

/// Each role has the colour that is named after it.
pub proof fn a_role_has_its_colour<C: Copy>(p: Palette<C>)
    ensures
        p.color(ColorRole::WindowBackground) == p.window_background,
        p.color(ColorRole::Surface) == p.surface,
        p.color(ColorRole::Text) == p.text,
        p.color(ColorRole::TextDim) == p.text_dim,
        p.color(ColorRole::Button) == p.button,
        p.color(ColorRole::ButtonHover) == p.button_hover,
        p.color(ColorRole::ButtonActive) == p.button_active,
        p.color(ColorRole::ButtonDisabled) == p.button_disabled,
        p.color(ColorRole::ButtonText) == p.button_text,
        p.color(ColorRole::Border) == p.border,
        p.color(ColorRole::Focus) == p.focus,
        p.color(ColorRole::Field) == p.field,
        p.color(ColorRole::Selection) == p.selection,
        p.color(ColorRole::Caret) == p.caret,
        p.color(ColorRole::Placeholder) == p.placeholder,
        p.color(ColorRole::Accent) == p.accent,
        p.color(ColorRole::AccentHover) == p.accent_hover,
        p.color(ColorRole::TextOnAccent) == p.text_on_accent,
        p.color(ColorRole::Track) == p.track,
        p.color(ColorRole::SidebarBackground) == p.sidebar_background,
        p.color(ColorRole::SidebarSelected) == p.sidebar_selected,
        p.color(ColorRole::SidebarHover) == p.sidebar_hover,
        p.color(ColorRole::Hairline) == p.hairline,
{
}

/// A theme that follows a palette has the colour that the palette has for the
/// role: text that is disabled is dim.
pub proof fn a_theme_has_the_colours_of_its_palette<C: Copy, M: Copy>(p: Palette<C>, t: Theme<C, M>)
    requires
        t.follows(p),
    ensures
        t.background == p.color(ColorRole::WindowBackground),
        t.surface == p.color(ColorRole::Surface),
        t.text == p.color(ColorRole::Text),
        t.text_disabled == p.color(ColorRole::TextDim),
        t.button == p.color(ColorRole::Button),
        t.button_hover == p.color(ColorRole::ButtonHover),
        t.button_active == p.color(ColorRole::ButtonActive),
        t.button_disabled == p.color(ColorRole::ButtonDisabled),
        t.button_text == p.color(ColorRole::ButtonText),
        t.border == p.color(ColorRole::Border),
        t.focus == p.color(ColorRole::Focus),
        t.field == p.color(ColorRole::Field),
        t.selection == p.color(ColorRole::Selection),
        t.caret == p.color(ColorRole::Caret),
        t.placeholder == p.color(ColorRole::Placeholder),
        t.accent == p.color(ColorRole::Accent),
        t.track == p.color(ColorRole::Track),
{
}

} // verus!
