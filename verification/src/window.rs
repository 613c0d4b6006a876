//! The one window of an app: what opening it sends, what changing it sends,
//! and what is kept from being sent twice.
//!
//! `L` is what the limits of the window's size are written in.

use vstd::prelude::*;

use crate::arena::text_view;
use crate::chars::{chars_of, owned, slice_of, string_of, text_eq};
use crate::error::Error;
use crate::hooks::Frame;
use crate::introspect::sockets::str_view;
use crate::introspect::text::{find, lemma_find, position};
use crate::shell::{window_flags, Anchor, Edge, Layer, Surface};

verus! {

/// Something to tell the server about the window.
pub enum WindowOp<L> {
    /// Create it.
    Create {
        /// Its title.
        title: String,
        /// Its layer.
        layer: Layer,
        /// What it asks of its manager.
        flags: u32,
    },
    /// What a window list names the program by.
    AppId(String),
    /// Where it sticks.
    Anchor {
        /// Which edges.
        edges: u8,
        /// How far from them.
        margin: u32,
    },
    /// The screen space it reserves.
    Zone {
        /// On which edge.
        edge: Edge,
        /// How much of it.
        px: u32,
    },
    /// The smallest and largest size.
    Limits(L),
    /// Its title.
    Title(String),
    /// A frame callback is wanted.
    RequestFrame,
}

/// What a [`WindowOp`] says, as mathematical values.
pub enum OpView<L> {
    /// Create it.
    Create {
        /// Its title.
        title: Seq<char>,
        /// Its layer.
        layer: Layer,
        /// What it asks of its manager.
        flags: u32,
    },
    /// What a window list names the program by.
    AppId(Seq<char>),
    /// Where it sticks.
    Anchor {
        /// Which edges.
        edges: u8,
        /// How far from them.
        margin: u32,
    },
    /// The screen space it reserves.
    Zone {
        /// On which edge.
        edge: Edge,
        /// How much of it.
        px: u32,
    },
    /// The smallest and largest size.
    Limits(L),
    /// Its title.
    Title(Seq<char>),
    /// A frame callback is wanted.
    RequestFrame,
}

impl<L> View for WindowOp<L> {
    type V = OpView<L>;

    open spec fn view(&self) -> OpView<L> {
        match *self {
            WindowOp::Create { title, layer, flags } => OpView::Create {
                title: title@,
                layer,
                flags,
            },
            WindowOp::AppId(id) => OpView::AppId(id@),
            WindowOp::Anchor { edges, margin } => OpView::Anchor { edges, margin },
            WindowOp::Zone { edge, px } => OpView::Zone { edge, px },
            WindowOp::Limits(l) => OpView::Limits(l),
            WindowOp::Title(t) => OpView::Title(t@),
            WindowOp::RequestFrame => OpView::RequestFrame,
        }
    }
}

/// What a run of operations says.
pub open spec fn ops_view<L>(s: Seq<WindowOp<L>>) -> Seq<OpView<L>> {
    s.map_values(|o: WindowOp<L>| o@)
}

/// The one window of an app.
pub struct Window<L> {
    /// Whether it was opened.
    pub open: bool,
    /// Its title.
    pub title: String,
    /// What a window list names the program by; empty for nothing.
    pub app_id: String,
    /// The limits of its size, if any were set.
    pub limits: Option<L>,
    /// What kind of shell surface it is, if it is one.
    pub surface: Option<Surface>,
    /// Whether a frame callback is outstanding.
    pub frame_requested: bool,
}

/// What a [`Window`] holds, as mathematical values.
pub struct WindowView<L> {
    /// Whether it was opened.
    pub open: bool,
    /// Its title.
    pub title: Seq<char>,
    /// What a window list names the program by.
    pub app_id: Seq<char>,
    /// The limits of its size.
    pub limits: Option<L>,
    /// What kind of shell surface it is.
    pub surface: Option<Surface>,
    /// Whether a frame callback is outstanding.
    pub frame_requested: bool,
}

impl<L> View for Window<L> {
    type V = WindowView<L>;

    open spec fn view(&self) -> WindowView<L> {
        WindowView {
            open: self.open,
            title: self.title@,
            app_id: self.app_id@,
            limits: self.limits,
            surface: self.surface,
            frame_requested: self.frame_requested,
        }
    }
}

/// The operations that a surface adds to the opening of its window.
pub open spec fn surface_ops<L>(surface: Option<Surface>) -> Seq<OpView<L>> {
    match surface {
        Some(s) => (match s.anchor {
            Some(a) => seq![OpView::Anchor { edges: a.edges, margin: a.margin }],
            None => Seq::empty(),
        }) + (match s.zone {
            Some(z) => seq![OpView::Zone { edge: z.0, px: z.1 }],
            None => Seq::empty(),
        }),
        None => Seq::empty(),
    }
}

/// All that opening a window sends, in one commit: a window that appeared
/// without its place, its name or its limits would be seen without them.
pub open spec fn opening<L>(v: WindowView<L>, title: Seq<char>) -> Seq<OpView<L>> {
    let (layer, flags) = match v.surface {
        Some(s) => (s.layer, s.flags),
        None => (Layer::Normal, 0u32),
    };
    seq![OpView::Create { title, layer, flags }] + (if v.app_id.len() > 0 {
        seq![OpView::AppId(v.app_id)]
    } else {
        Seq::empty()
    }) + surface_ops(v.surface) + (match v.limits {
        Some(l) => seq![OpView::Limits(l)],
        None => Seq::empty(),
    })
}

impl<L: Copy> Window<L> {
    /// A window that was not opened yet.
    pub fn new() -> (w: Window<L>)
        ensures
            w@ == (WindowView::<L> {
                open: false,
                title: Seq::empty(),
                app_id: Seq::empty(),
                limits: None,
                surface: None,
                frame_requested: false,
            }),
    {
        Window {
            open: false,
            title: String::new(),
            app_id: String::new(),
            limits: None,
            surface: None,
            frame_requested: false,
        }
    }

    /// Open the window. There has to be a root widget.
    pub fn open_window(&mut self, title: &str, has_root: bool) -> (r: Result<
        Vec<WindowOp<L>>,
        Error,
    >)
        ensures
            match r {
                Ok(ops) => has_root && ops_view(ops@) == opening(old(self)@, title@) && final(self)@
                    == (WindowView { open: true, title: title@, ..old(self)@ }),
                Err(e) => !has_root && e is NoRoot && final(self)@ == old(self)@,
            },
    {
        if !has_root {
            return Err(Error::NoRoot);
        }
        let mut ops: Vec<WindowOp<L>> = Vec::new();
        let (layer, flags) = match self.surface {
            Some(s) => (s.layer, s.flags),
            None => (Layer::Normal, 0u32),
        };
        ops.push(WindowOp::Create { title: owned(title), layer, flags });
        if self.app_id.unicode_len() > 0 {
            ops.push(WindowOp::AppId(owned(self.app_id.as_str())));
        }
        if let Some(s) = self.surface {
            if let Some(a) = s.anchor {
                ops.push(WindowOp::Anchor { edges: a.edges, margin: a.margin });
            }
            if let Some(z) = s.zone {
                ops.push(WindowOp::Zone { edge: z.0, px: z.1 });
            }
        }
        self.open = true;
        if let Some(l) = self.limits {
            ops.push(WindowOp::Limits(l));
        }
        self.title = owned(title);
        assert(ops_view(ops@) =~= opening(old(self)@, title@));
        Ok(ops)
    }

    /// Change the title. What the server has to be told: nothing where it
    /// did not change, or there is no window yet.
    pub fn set_window_title(&mut self, title: &str) -> (op: Option<WindowOp<L>>)
        ensures
            final(self)@ == (WindowView { title: title@, ..old(self)@ }),
            match op {
                Some(o) => old(self)@.title != title@ && old(self)@.open && o@ == OpView::<
                    L,
                >::Title(title@),
                None => old(self)@.title == title@ || !old(self)@.open,
            },
    {
        if text_eq(self.title.as_str(), title) {
            return None;
        }
        self.title = owned(title);
        if !self.open {
            return None;
        }
        Some(WindowOp::Title(owned(title)))
    }

    /// The title.
    pub fn window_title(&self) -> (s: &str)
        ensures
            s@ == self@.title,
    {
        self.title.as_str()
    }

    /// What a window list names the program by.
    pub fn set_app_id(&mut self, app_id: String)
        ensures
            final(self)@ == (WindowView { app_id: app_id@, ..old(self)@ }),
    {
        self.app_id = app_id;
    }

    /// Change the limits of the window's size; `same` where they are those
    /// that were set before. What the server has to be told: nothing where
    /// they did not change, or there is no window yet.
    pub fn set_window_limits(&mut self, limits: L, same: bool) -> (op: Option<WindowOp<L>>)
        ensures
            final(self)@ == (if same {
                old(self)@
            } else {
                WindowView { limits: Some(limits), ..old(self)@ }
            }),
            match op {
                Some(o) => !same && old(self)@.open && o@ == OpView::<L>::Limits(limits),
                None => same || !old(self)@.open,
            },
    {
        if same {
            return None;
        }
        self.limits = Some(limits);
        if !self.open {
            return None;
        }
        Some(WindowOp::Limits(limits))
    }

    /// Ask for a frame callback. Asking twice before the answer arrives
    /// sends one request.
    pub fn request_frame(&mut self) -> (op: Option<WindowOp<L>>)
        ensures
            final(self)@ == (if old(self)@.open {
                WindowView { frame_requested: true, ..old(self)@ }
            } else {
                old(self)@
            }),
            match op {
                Some(o) => old(self)@.open && !old(self)@.frame_requested && o@ == OpView::<
                    L,
                >::RequestFrame,
                None => !old(self)@.open || old(self)@.frame_requested,
            },
    {
        if self.frame_requested || !self.open {
            return None;
        }
        self.frame_requested = true;
        Some(WindowOp::RequestFrame)
    }

    /// Whether a frame callback is outstanding.
    pub fn frame_pending(&self) -> (r: bool)
        ensures
            r == self@.frame_requested,
    {
        self.frame_requested
    }

    /// A frame callback arrived.
    pub fn frame_arrived(&mut self)
        ensures
            final(self)@ == (WindowView { frame_requested: false, ..old(self)@ }),
    {
        self.frame_requested = false;
    }

    /// Make the window a shell surface. That has to be said before it is
    /// opened.
    pub fn set_surface(&mut self, surface: Surface)
        ensures
            final(self)@ == (WindowView { surface: Some(surface), ..old(self)@ }),
    {
        self.surface = Some(surface);
    }

    /// Whether a click may move the keyboard focus inside the window. Not
    /// in one that the server never focuses: the ring would stay behind.
    pub fn click_takes_focus(&self) -> (r: bool)
        ensures
            r == (match self@.surface {
                Some(s) => s.flags & window_flags::NO_FOCUS == 0,
                None => true,
            }),
    {
        match self.surface {
            Some(s) => s.click_takes_focus(),
            None => true,
        }
    }
}

/// Opening sends the creation first and everything else behind it.
pub proof fn creation_comes_first<L>(v: WindowView<L>, title: Seq<char>)
    ensures
        opening(v, title).len() > 0,
        opening(v, title)[0] is Create,
        forall|i: int| 0 < i < opening(v, title).len() ==> !(#[trigger] opening(v, title)[i] is Create),
{
}

// ---------------------------------------------------------------------
// what the server complains about
// ---------------------------------------------------------------------

/// Why the server complains.
#[derive(Debug, Clone, Copy, PartialEq, Eq, Structural)]
pub enum ErrorCode {
    /// It knows no icon of that name. The rest of the commit stands.
    BadIcon,
    /// A buffer is no good. On a remote link the connection stands.
    BadBuffer,
    /// Anything else; the connection is closed right behind it.
    Other(u32),
}

/// A complaint of the server's.
#[derive(Debug, Clone, PartialEq, Eq)]
pub struct ServerError {
    /// Why.
    pub code: ErrorCode,
    /// In words.
    pub msg: String,
}

/// What is to be done about a complaint.
#[derive(Debug, Clone, Copy, PartialEq, Eq, Structural)]
pub enum Complaint {
    /// Whoever asked for the icon takes its fallback.
    Fallback,
    /// It is reported, and that is all.
    Report,
    /// It is reported and kept as the reason why the connection ends.
    Latch,
}

/// What is to be done about a complaint.
pub open spec fn complaint(code: ErrorCode, remote: bool) -> Complaint {
    match code {
        ErrorCode::BadIcon => Complaint::Fallback,
        ErrorCode::BadBuffer => if remote {
            Complaint::Report
        } else {
            Complaint::Latch
        },
        ErrorCode::Other(_) => Complaint::Latch,
    }
}

/// The reason why a connection ends, as far as the server gave one.
pub struct LastError {
    latched: Option<ServerError>,
}

/// A complaint as mathematical values.
pub open spec fn error_view(e: Option<ServerError>) -> Option<(ErrorCode, Seq<char>)> {
    match e {
        Some(e) => Some((e.code, e.msg@)),
        None => None,
    }
}

impl LastError {
    /// What was kept.
    pub closed spec fn kept(&self) -> Option<(ErrorCode, Seq<char>)> {
        error_view(self.latched)
    }

    /// Nothing yet.
    pub fn new() -> (l: LastError)
        ensures
            l.kept() is None,
    {
        LastError { latched: None }
    }

    /// Take notice of a complaint; whatever is kept, the last one is.
    pub fn server_error(&mut self, code: ErrorCode, msg: &str, remote: bool) -> (c: Complaint)
        ensures
            c == complaint(code, remote),
            final(self).kept() == (if c is Latch {
                Some((code, msg@))
            } else {
                old(self).kept()
            }),
    {
        let c = deal_with(code, remote);
        if let Complaint::Latch = c {
            self.latched = Some(ServerError { code, msg: owned(msg) });
        }
        c
    }

    /// The reason why the loop has to end, if the server gave one; it is
    /// given once.
    pub fn take(&mut self) -> (e: Option<ServerError>)
        ensures
            error_view(e) == old(self).kept(),
            final(self).kept() is None,
    {
        let mut e: Option<ServerError> = None;
        std::mem::swap(&mut e, &mut self.latched);
        e
    }
}

// ---------------------------------------------------------------------
// what the server says
// ---------------------------------------------------------------------

/// A message of the server's, as far as what is done about it depends on
/// what it says.
#[derive(Debug, Clone, Copy, PartialEq, Eq, Structural)]
pub enum News {
    /// The window is somewhere else, or has another size.
    Configure {
        /// Whether the size is another one.
        resized: bool,
    },
    /// A window was closed.
    Closed {
        /// Which.
        window: u32,
    },
    /// The desktop's colours.
    Theme {
        /// Whether they are others than before.
        changed: bool,
    },
    /// The pointer came in or moved.
    PointerMotion,
    /// The pointer left.
    PointerLeave,
    /// A pointer button.
    PointerButton {
        /// Which.
        button: u32,
        /// Whether it went down.
        pressed: bool,
    },
    /// The wheel.
    PointerAxis,
    /// A key.
    Key,
    /// A frame callback.
    Frame(Frame),
    /// The window got or lost the keyboard focus.
    Focus {
        /// Whether it got it.
        focused: bool,
    },
    /// News about other windows, outputs and hotkeys.
    Shell,
    /// A complaint.
    Complaint {
        /// Why.
        code: ErrorCode,
        /// Whether the connection is a remote one.
        remote: bool,
    },
    /// Anything else.
    Other,
}

/// What is to be done about a message.
#[derive(Debug, Clone, Copy, PartialEq, Eq, Structural)]
pub enum Reaction {
    /// Nothing.
    Nothing,
    /// The place and scale are taken note of; where the size changed, the
    /// tree is laid out again and the resize handlers are told.
    Configure {
        /// Whether the size changed.
        resized: bool,
    },
    /// The app ends.
    Quit,
    /// It is not about this window, which is reported.
    Stray,
    /// The tree is painted in new colours, and the theme handlers are told.
    Recolour,
    /// The pointer is somewhere else.
    Move,
    /// The pointer is nowhere.
    Leave,
    /// A button went down or up where the pointer is.
    Button {
        /// Which.
        button: u32,
        /// Whether it went down.
        pressed: bool,
    },
    /// The innermost widget under the pointer is offered the wheel.
    Scroll,
    /// The key is routed.
    Key,
    /// The frame handlers are told.
    Frame(Frame),
    /// The focus is dropped.
    Blur,
    /// The shell handlers are told.
    Shell,
    /// A complaint is dealt with.
    Complaint(Complaint),
}

/// What is to be done about a message, where `ours` is the app's window.
///
/// A window that is not ours closes without us, colours that did not change
/// repaint nothing, and gaining the window focus moves no widget's.
pub open spec fn reaction(news: News, ours: u32) -> Reaction {
    match news {
        News::Configure { resized } => Reaction::Configure { resized },
        News::Closed { window } => if window == ours {
            Reaction::Quit
        } else {
            Reaction::Stray
        },
        News::Theme { changed } => if changed {
            Reaction::Recolour
        } else {
            Reaction::Nothing
        },
        News::PointerMotion => Reaction::Move,
        News::PointerLeave => Reaction::Leave,
        News::PointerButton { button, pressed } => Reaction::Button { button, pressed },
        News::PointerAxis => Reaction::Scroll,
        News::Key => Reaction::Key,
        News::Frame(f) => Reaction::Frame(f),
        News::Focus { focused } => if focused {
            Reaction::Nothing
        } else {
            Reaction::Blur
        },
        News::Shell => Reaction::Shell,
        News::Complaint { code, remote } => Reaction::Complaint(complaint(code, remote)),
        News::Other => Reaction::Nothing,
    }
}

/// What is to be done about a message.
pub fn dispatch(news: News, ours: u32) -> (r: Reaction)
    ensures
        r == reaction(news, ours),
{
    match news {
        News::Configure { resized } => Reaction::Configure { resized },
        News::Closed { window } => if window == ours {
            Reaction::Quit
        } else {
            Reaction::Stray
        },
        News::Theme { changed } => if changed {
            Reaction::Recolour
        } else {
            Reaction::Nothing
        },
        News::PointerMotion => Reaction::Move,
        News::PointerLeave => Reaction::Leave,
        News::PointerButton { button, pressed } => Reaction::Button { button, pressed },
        News::PointerAxis => Reaction::Scroll,
        News::Key => Reaction::Key,
        News::Frame(f) => Reaction::Frame(f),
        News::Focus { focused } => if focused {
            Reaction::Nothing
        } else {
            Reaction::Blur
        },
        News::Shell => Reaction::Shell,
        News::Complaint { code, remote } => Reaction::Complaint(deal_with(code, remote)),
        News::Other => Reaction::Nothing,
    }
}

fn deal_with(code: ErrorCode, remote: bool) -> (c: Complaint)
    ensures
        c == complaint(code, remote),
{
    match code {
        ErrorCode::BadIcon => Complaint::Fallback,
        ErrorCode::BadBuffer if remote => Complaint::Report,
        _ => Complaint::Latch,
    }
}

// ---------------------------------------------------------------------
// refused icons
// ---------------------------------------------------------------------

/// The text between the first two quotation marks.
pub open spec fn in_quotes(s: Seq<char>) -> Option<Seq<char>> {
    let a = find(s, '"') as int;
    let rest = s.skip(a + 1);
    if a >= s.len() || find(rest, '"') >= rest.len() {
        None
    } else {
        Some(rest.take(find(rest, '"') as int))
    }
}

/// The text between the first two quotation marks: the name of a refused
/// icon, whatever the words around it.
pub fn quoted(s: &str) -> (name: Option<String>)
    ensures
        text_view(name) == in_quotes(s@),
{
    let v = chars_of(s);
    assert(v@.skip(0) =~= v@);
    let a: usize = position(v.as_slice(), 0, '"');
    if a == v.len() {
        return None;
    }
    let rest = slice_of(v.as_slice(), a + 1, v.len());
    assert(rest@ =~= s@.skip(a + 1));
    assert(rest@.skip(0) =~= rest@);
    let b: usize = position(rest.as_slice(), 0, '"');
    if b == rest.len() {
        return None;
    }
    let name = slice_of(rest.as_slice(), 0, b);
    assert(name@ =~= rest@.take(b as int));
    Some(string_of(name.as_slice()))
}

/// Whether a name is the refused one, or may be where none is given.
pub open spec fn is_refused(refused: Option<Seq<char>>, name: Seq<char>) -> bool {
    match refused {
        Some(r) => name == r,
        None => true,
    }
}

/// Whether a widget that sent these icon names asked for the refused one.
/// Where the complaint names none, every widget with an icon may have.
pub fn asked_for(refused: Option<&str>, sent: &Vec<String>) -> (r: bool)
    ensures
        r == (exists|i: int|
            0 <= i < sent@.len() && is_refused(str_view(refused), (#[trigger] sent@[i])@)),
{
    let mut i: usize = 0;
    while i < sent.len()
        invariant
            i <= sent@.len(),
            forall|k: int|
                0 <= k < i ==> !is_refused(str_view(refused), (#[trigger] sent@[k])@),
        decreases sent.len() - i,
    {
        let hit: bool = match refused {
            Some(name) => text_eq(sent[i].as_str(), name),
            None => true,
        };
        if hit {
            assert(is_refused(str_view(refused), sent@[i as int]@));
            return true;
        }
        i += 1;
    }
    false
}

/// An opening says everything that the window was set up with, and nothing
/// that it was not: the title, the app's id where it has one, where it is
/// anchored and what it reserves where it is part of the desktop, and its
/// limits where it has any. An ordinary window is on the normal layer.
pub proof fn an_opening_says_everything<L>(v: WindowView<L>, title: Seq<char>)
    ensures
        ({
            let ops = opening(v, title);
            &&& ops[0] matches OpView::Create { title: t, layer, flags } && t == title && (
            match v.surface {
                Some(s) => layer == s.layer && flags == s.flags,
                None => layer is Normal && flags == 0,
            })
            &&& v.app_id.len() > 0 <==> exists|i: int| 0 <= i < ops.len() && #[trigger] ops[i] is AppId
            &&& v.app_id.len() > 0 ==> ops.contains(OpView::AppId(v.app_id))
            &&& v.limits is Some <==> exists|i: int|
                0 <= i < ops.len() && #[trigger] ops[i] is Limits
            &&& v.limits matches Some(l) ==> ops.contains(OpView::Limits(l))
            &&& (v.surface is Some && v.surface->0.anchor is Some) <==> exists|i: int|
                0 <= i < ops.len() && #[trigger] ops[i] is Anchor
            &&& v.surface is Some && v.surface->0.anchor is Some ==> ops.contains(
                OpView::Anchor {
                    edges: v.surface->0.anchor->0.edges,
                    margin: v.surface->0.anchor->0.margin,
                },
            )
            &&& (v.surface is Some && v.surface->0.zone is Some) <==> exists|i: int|
                0 <= i < ops.len() && #[trigger] ops[i] is Zone
            &&& v.surface is Some && v.surface->0.zone is Some ==> ops.contains(
                OpView::Zone { edge: (v.surface->0.zone->0).0, px: (v.surface->0.zone->0).1 },
            )
        }),
{
    let ops = opening(v, title);
    let a = if v.app_id.len() > 0 {
        2int
    } else {
        1
    };
    let anchored = v.surface is Some && v.surface->0.anchor is Some;
    let zoned = v.surface is Some && v.surface->0.zone is Some;
    let b = if anchored {
        a + 1
    } else {
        a
    };
    let c = if zoned {
        b + 1
    } else {
        b
    };
    if v.app_id.len() > 0 {
        assert(ops[1] == OpView::<L>::AppId(v.app_id));
    }
    if anchored {
        assert(ops[a] is Anchor);
    }
    if zoned {
        assert(ops[b] is Zone);
    }
    if v.limits is Some {
        assert(ops[c] is Limits);
    }
}

/// What became of a complaint of the server: an icon that it does not know is
/// drawn otherwise, a buffer that a remote server cannot take is reported and
/// forgotten, and everything else is kept for the app to see.
pub proof fn only_what_matters_is_kept(code: ErrorCode, remote: bool)
    ensures
        complaint(code, remote) is Fallback <==> code is BadIcon,
        complaint(code, remote) is Report <==> code is BadBuffer && remote,
        complaint(code, remote) is Latch <==> code is Other || (code is BadBuffer && !remote),
{
}

/// What the server says reaches the part of the app that it is for. The app
/// ends with its own window and with no other, loses the focus when the
/// window does, and takes on new colours only where they are new.
pub proof fn news_reach_whom_they_are_for(news: News, ours: u32)
    ensures
        reaction(news, ours) is Quit <==> (news matches News::Closed { window } && window == ours),
        reaction(news, ours) is Recolour <==> (news matches News::Theme { changed } && changed),
        reaction(news, ours) is Blur <==> (news matches News::Focus { focused } && !focused),
        reaction(news, ours) is Key <==> news is Key,
        reaction(news, ours) is Move <==> news is PointerMotion,
        reaction(news, ours) is Leave <==> news is PointerLeave,
        reaction(news, ours) is Scroll <==> news is PointerAxis,
        reaction(news, ours) is Shell <==> news is Shell,
        news matches News::PointerButton { button, pressed } ==> reaction(news, ours) == (
        Reaction::Button { button, pressed }),
        news matches News::Configure { resized } ==> reaction(news, ours) == (Reaction::Configure {
            resized,
        }),
        news matches News::Frame(f) ==> reaction(news, ours) == Reaction::Frame(f),
        news matches News::Complaint { code, remote } ==> reaction(news, ours)
            == Reaction::Complaint(complaint(code, remote)),
{
}

/// What stands between the first two quotation marks is what is quoted; where
/// there are not two, nothing is.
pub proof fn the_first_quotation_is_taken(a: Seq<char>, b: Seq<char>, c: Seq<char>)
    requires
        !a.contains('"'),
        !b.contains('"'),
    ensures
        in_quotes(a + seq!['"'] + b + seq!['"'] + c) == Some(b),
        in_quotes(a) is None,
        in_quotes(a + seq!['"'] + b) is None,
{
    let s = a + seq!['"'] + b + seq!['"'] + c;
    let n = a.len() as int;
    assert forall|k: int| 0 <= k < n implies s[k] != '"' by {
        assert(a.contains(a[k]));
    }
    assert(s[n] == '"');
    lemma_find(s, '"', n);
    let rest = s.skip(n + 1);
    let m = b.len() as int;
    assert forall|k: int| 0 <= k < m implies rest[k] != '"' by {
        assert(rest[k] == b[k]);
        assert(b.contains(b[k]));
    }
    assert(rest[m] == '"');
    lemma_find(rest, '"', m);
    assert(rest.take(m) =~= b);
    assert forall|k: int| 0 <= k < n implies a[k] != '"' by {
        assert(a.contains(a[k]));
    }
    lemma_find(a, '"', n);
    let t = a + seq!['"'] + b;
    assert forall|k: int| 0 <= k < n implies t[k] != '"' by {
        assert(a.contains(a[k]));
    }
    assert(t[n] == '"');
    lemma_find(t, '"', n);
    let tail = t.skip(n + 1);
    assert(tail =~= b);
    assert forall|k: int| 0 <= k < m implies b[k] != '"' by {
        assert(b.contains(b[k]));
    }
    lemma_find(b, '"', m);
}

} // verus!
