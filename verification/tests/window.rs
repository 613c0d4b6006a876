//! The window, the loop, shell surfaces and screenshots.

use nitro::error::Error;
use nitro::event::{key, mods, KeyEvent};
use nitro::event_loop::{
    loop_timeout, sync_fds, timespec, wake, Wake, CONN_TOKEN, INTROSPECT_TOKEN,
};
use nitro::hooks::{
    is_shortcut, Deferred, FdToken, Frame, Handlers, Hooks, Round, Timers, MAX_DEFER_ROUNDS,
    MILLISECOND,
};
use nitro::shell::{anchor, window_flags, Anchor, Edge, Layer, Surface};
use nitro::shot::{crop, line_step, parse_header, resolve_control, Header, LineStep, Shot};
use nitro::window::{
    asked_for, dispatch, quoted, Complaint, ErrorCode, LastError, News, Reaction, Window, WindowOp,
};

// -- shell surfaces -------------------------------------------------------

#[test]
fn a_bar_spans_the_top_and_reserves_its_own_height() {
    let s = Surface::bar(32);
    assert_eq!(s.layer, Layer::Top);
    assert_eq!(s.zone, Some((Edge::Top, 32)));
    let a = s.anchor.expect("a bar is anchored");
    assert_eq!(a.edges, anchor::TOP | anchor::LEFT | anchor::RIGHT);
    // Opposite edges on the horizontal axis is what makes it span;
    // one edge on the vertical is what keeps it 32 px tall.
    assert_ne!(a.edges & anchor::BOTTOM, anchor::BOTTOM);
}

#[test]
fn a_panel_never_takes_focus() {
    // The whole point of NO_FOCUS on a panel: glancing at the clock
    // must not deactivate the window behind it.
    for s in [Surface::bar(32), Surface::dock(48), Surface::overlay()] {
        assert_eq!(s.flags & window_flags::NO_FOCUS, window_flags::NO_FOCUS);
        assert_eq!(
            s.flags & window_flags::UNDECORATED,
            window_flags::UNDECORATED
        );
        assert!(!s.click_takes_focus());
    }
}

#[test]
fn an_overlay_and_a_wallpaper_reserve_nothing() {
    // A launcher that reserved space would shrink the desktop every
    // time it opened; a wallpaper *is* the desktop.
    assert_eq!(Surface::overlay().zone, None);
    assert_eq!(Surface::wallpaper().zone, None);
    assert_eq!(Surface::wallpaper().layer, Layer::Background);
    assert_eq!(Surface::overlay().layer, Layer::Overlay);
}

#[test]
fn a_centred_anchor_names_no_edge_at_all() {
    // "Centre on this axis" is the absence of both edges, not a flag.
    assert_eq!(Anchor::centre().edges, 0);
    assert_eq!(Anchor::fill().edges, anchor::ALL);
}

#[test]
fn a_margin_insets_without_changing_the_edges() {
    let a = Anchor::top().margin(4);
    assert_eq!(a.margin, 4);
    assert_eq!(a.edges, Anchor::top().edges);
}

#[test]
fn a_surface_can_be_changed() {
    let s = Surface::dock(48)
        .anchored(Anchor::fill())
        .reserving(Edge::Left, 5);
    assert_eq!(s.anchor, Some(Anchor::fill()));
    assert_eq!(s.zone, Some((Edge::Left, 5)));
    assert_eq!(s.reserving_nothing().zone, None);
}

// -- screenshots ------------------------------------------------------------

fn image(w: u32, h: u32) -> Shot {
    let stride = w * 4;
    let mut data = vec![0u8; (stride * h) as usize];
    for y in 0..h {
        for x in 0..w {
            let off = (y * stride + x * 4) as usize;
            data[off] = x as u8;
            data[off + 1] = y as u8;
        }
    }
    Shot {
        width: w,
        height: h,
        stride,
        data,
    }
}

#[test]
fn a_crop_takes_the_right_pixels() {
    let img = image(8, 8);
    let c = crop(&img, 2, 3, 4, 2);
    assert_eq!((c.width, c.height, c.stride), (4, 2, 16));
    assert_eq!(c.data.len(), 32);
    // First pixel of the crop is (2, 3) of the source.
    assert_eq!(c.data[0], 2);
    assert_eq!(c.data[1], 3);
    // First pixel of the second row is (2, 4).
    assert_eq!(c.data[16], 2);
    assert_eq!(c.data[17], 4);
}

#[test]
fn a_crop_is_clamped_to_the_image() {
    let img = image(8, 8);
    let c = crop(&img, 6, 6, 10, 10);
    assert_eq!((c.width, c.height), (2, 2));
    let off = crop(&img, 20, 20, 4, 4);
    assert_eq!((off.width, off.height), (0, 0));
    assert!(off.data.is_empty());
    let negative = crop(&img, -4, -4, 6, 6);
    assert_eq!((negative.width, negative.height), (2, 2));
}

#[test]
fn a_crop_off_one_axis_has_no_size() {
    let img = image(8, 8);
    for (x, y, w, h) in [(20, 2, 4, 4), (2, 20, 4, 4), (-9, 2, 4, 4), (2, 2, 0, 4), (2, 2, 4, 0)] {
        let c = crop(&img, x, y, w, h);
        assert_eq!((c.width, c.height, c.stride), (0, 0, 0));
        assert!(c.data.is_empty());
    }
}

#[test]
fn a_short_picture_is_black_where_it_ends() {
    let mut img = image(2, 2);
    img.data.truncate(12);
    let c = crop(&img, 0, 0, 2, 2);
    assert_eq!(&c.data[..8], &img.data[..8]);
    assert_eq!(&c.data[8..], &[0; 8]);
}

#[test]
fn the_control_path_follows_the_environment() {
    let over = "/tmp/nitro-shot-test.sock";
    assert_eq!(resolve_control(Some(over), Some("/run/user/1"), 7), over);
    assert_eq!(
        resolve_control(None, Some("/run/user/1"), 7),
        "/run/user/1/nitro/control.sock"
    );
    assert_eq!(resolve_control(None, None, 7), "/tmp/nitro-7/control.sock");
}

#[test]
fn a_reply_line_is_read_byte_by_byte() {
    let mut line = Vec::new();
    assert!(matches!(line_step(&mut line, b'o'), LineStep::More));
    assert!(matches!(line_step(&mut line, b'k'), LineStep::More));
    match line_step(&mut line, b'\n') {
        LineStep::Line(s) => assert_eq!(s, "ok"),
        _ => panic!("the line is complete"),
    }
    let mut long = vec![b'x'; 256];
    assert!(matches!(line_step(&mut long, b'x'), LineStep::TooLong));
}

#[test]
fn a_header_says_how_large_the_picture_is() {
    match parse_header("ok 640 480 2560") {
        Header::Image { width, height, stride } => {
            assert_eq!((width, height, stride), (640, 480, 2560));
        }
        _ => panic!("a picture follows"),
    }
    assert!(matches!(parse_header("err no output "), Header::Refused(s) if s == "err no output"));
    assert!(matches!(parse_header("ok 1 2"), Header::Bad));
    assert!(matches!(parse_header("ok 1 2 x"), Header::Bad));
    assert!(matches!(parse_header("ok 1 2 3 4"), Header::Bad));
}

// -- the window ---------------------------------------------------------------

fn opened() -> Window<(u32, u32)> {
    let mut w = Window::new();
    assert!(w.open_window("first", true).is_ok());
    w
}

#[test]
fn everything_rides_the_first_commit() {
    let mut w: Window<(u32, u32)> = Window::new();
    w.set_app_id("calc".to_owned());
    w.set_surface(Surface::bar(32));
    assert!(w.set_window_limits((1, 2), false).is_none(), "there is no window yet");
    let ops = match w.open_window("Calc", true) {
        Ok(ops) => ops,
        Err(e) => panic!("{e:?}"),
    };
    assert_eq!(ops.len(), 5);
    assert!(matches!(&ops[0], WindowOp::Create { title, layer: Layer::Top, .. } if title == "Calc"));
    assert!(matches!(&ops[1], WindowOp::AppId(id) if id == "calc"));
    assert!(matches!(ops[2], WindowOp::Anchor { .. }));
    assert!(matches!(ops[3], WindowOp::Zone { edge: Edge::Top, px: 32 }));
    assert!(matches!(ops[4], WindowOp::Limits((1, 2))));
    assert!(!w.click_takes_focus());
    let mut rootless: Window<u8> = Window::new();
    assert!(matches!(rootless.open_window("x", false), Err(Error::NoRoot)));
}

#[test]
fn an_unchanged_title_sends_nothing() {
    let mut w = opened();
    assert!(w.set_window_title("first").is_none());
    assert!(matches!(w.set_window_title("second"), Some(WindowOp::Title(t)) if t == "second"));
    assert!(w.set_window_title("second").is_none());
    assert_eq!(w.window_title(), "second");
    assert!(w.set_window_limits((3, 4), true).is_none());
    assert!(w.set_window_limits((3, 4), false).is_some());
    assert!(w.click_takes_focus());
}

#[test]
fn one_frame_is_asked_for_at_a_time() {
    let mut w = opened();
    assert!(matches!(w.request_frame(), Some(WindowOp::RequestFrame)));
    assert!(w.request_frame().is_none());
    assert!(w.frame_pending());
    w.frame_arrived();
    assert!(w.request_frame().is_some());
    let mut closed: Window<u8> = Window::new();
    assert!(closed.request_frame().is_none());
}

#[test]
fn messages_are_reacted_to() {
    assert_eq!(dispatch(News::Closed { window: 1 }, 1), Reaction::Quit);
    assert_eq!(dispatch(News::Closed { window: 2 }, 1), Reaction::Stray);
    assert_eq!(dispatch(News::Theme { changed: false }, 1), Reaction::Nothing);
    assert_eq!(dispatch(News::Theme { changed: true }, 1), Reaction::Recolour);
    assert_eq!(dispatch(News::Focus { focused: false }, 1), Reaction::Blur);
    assert_eq!(dispatch(News::Focus { focused: true }, 1), Reaction::Nothing);
    let f = Frame { deadline_ns: 5, refresh_ns: 6 };
    assert_eq!(dispatch(News::Frame(f), 1), Reaction::Frame(f));
    assert_eq!(
        dispatch(News::Complaint { code: ErrorCode::BadIcon, remote: false }, 1),
        Reaction::Complaint(Complaint::Fallback)
    );
}

#[test]
fn a_fatal_complaint_is_kept_as_the_reason() {
    let mut last = LastError::new();
    assert_eq!(last.server_error(ErrorCode::BadBuffer, "m", true), Complaint::Report);
    assert!(last.take().is_none());
    assert_eq!(last.server_error(ErrorCode::Other(3), "bad node", true), Complaint::Latch);
    let e = last.take().unwrap();
    assert_eq!((e.code, e.msg.as_str()), (ErrorCode::Other(3), "bad node"));
    assert!(last.take().is_none());
    assert_eq!(last.server_error(ErrorCode::BadBuffer, "m", false), Complaint::Latch);
}

#[test]
fn a_refused_icon_is_named_in_quotes() {
    assert_eq!(quoted("no icon named \"foo\"").as_deref(), Some("foo"));
    assert_eq!(quoted("no icon named \"foo"), None);
    assert_eq!(quoted("no icon"), None);
    let sent = vec!["bar".to_owned(), "foo".to_owned()];
    assert!(asked_for(Some("foo"), &sent));
    assert!(!asked_for(Some("baz"), &sent));
    assert!(asked_for(None, &sent));
    assert!(!asked_for(None, &Vec::new()));
}

// -- hooks, timers and what was put off ------------------------------------------

#[test]
fn tokens_are_never_reused() {
    let mut hooks: Hooks<&str> = Hooks::new();
    let a = hooks.add_fd("a");
    let b = hooks.add_fd("b");
    hooks.remove_fd(b);
    let c = hooks.add_fd("c");
    assert_ne!(b, c);
    assert_eq!(hooks.ids(), [a.raw(), c.raw()]);
    assert_eq!(FdToken::from_raw(a.raw()), a);
    assert_eq!(hooks.take(a), Some("a"));
    assert_eq!(hooks.take(a), None, "it is running");
    hooks.put_back(a, "a");
    assert_eq!(hooks.take(a), Some("a"));
    hooks.remove_fd(a);
    hooks.put_back(a, "a");
    assert_eq!(hooks.take(a), None, "it was removed while it ran");
    assert_eq!(hooks.take(b), None);
}

#[test]
fn timers_fire_when_they_are_due() {
    let mut t: Timers<&str> = Timers::new();
    assert_eq!(t.next_timeout(0), None);
    let late = t.set_timer(0, 20, "late");
    let soon = t.set_timer(0, 5, "soon");
    assert_eq!(t.next_timeout(MILLISECOND), Some(4));
    assert_eq!(t.due(5 * MILLISECOND), [soon]);
    assert_eq!(t.take(soon), Some("soon"));
    assert_eq!(t.take(soon), None);
    // Advancing is waiting.
    t.advance_timers(15 * MILLISECOND, 5 * MILLISECOND);
    assert_eq!(t.due(5 * MILLISECOND), [late]);
    assert_eq!(t.next_timeout(5 * MILLISECOND), Some(0));
    t.advance_timers(1000 * MILLISECOND, 5 * MILLISECOND);
    assert_eq!(t.due(5 * MILLISECOND), [late]);
    t.cancel_timer(late);
    assert_eq!(t.next_timeout(0), None);
}

#[test]
fn a_queue_that_refills_itself_is_cut_off() {
    let mut d: Deferred<u32> = Deferred::new();
    assert!(matches!(d.next_round(0), Round::Done));
    d.defer(1);
    d.defer(2);
    assert_eq!(d.deferred_count(), 2);
    assert!(matches!(d.next_round(0), Round::Run(batch) if batch == [1, 2]));
    d.defer(3);
    assert!(matches!(d.next_round(MAX_DEFER_ROUNDS), Round::Dropped(1)));
    assert_eq!(d.deferred_count(), 0);
}

#[test]
fn a_handler_is_out_while_it_runs() {
    let mut h: Handlers<u8> = Handlers::new();
    h.push(7);
    assert_eq!(h.count(), 1);
    assert_eq!(h.take(0), Some(7));
    assert_eq!(h.take(0), None);
    h.put_back(0, 7);
    assert_eq!(h.take(0), Some(7));
    assert_eq!(h.take(5), None);
}

#[test]
fn a_shortcut_wants_exactly_its_modifiers() {
    let k = KeyEvent {
        keycode: key::Q,
        keysym: 0,
        mods: mods::CTRL | 2,
        text: String::new(),
    };
    assert!(is_shortcut(mods::CTRL, key::Q, &k), "other bits do not count");
    assert!(!is_shortcut(mods::CTRL | mods::SHIFT, key::Q, &k));
    assert!(!is_shortcut(mods::CTRL, key::A, &k));
}

// -- the loop ----------------------------------------------------------------------

#[test]
fn the_loop_sleeps_until_something_is_due() {
    assert_eq!(loop_timeout(None, false), None);
    assert_eq!(loop_timeout(Some(500), false), Some(500));
    assert_eq!(loop_timeout(None, true), Some(10));
    assert_eq!(loop_timeout(Some(500), true), Some(10));
    assert_eq!(loop_timeout(Some(3), true), Some(3));
    assert_eq!(timespec(1234), (1, 234_000_000));
}

#[test]
fn the_set_follows_the_hooks() {
    let (add, have) = sync_fds(&vec![1, 2, 3], &vec![2, 9]);
    assert_eq!(add, [1, 3]);
    assert_eq!(have, [2, 1, 3]);
    let (add, again) = sync_fds(&vec![1, 2, 3], &have);
    assert!(add.is_empty());
    assert_eq!(again, have);
    assert_eq!(wake(CONN_TOKEN), Wake::Connection);
    assert_eq!(wake(INTROSPECT_TOKEN), Wake::Introspection);
    assert_eq!(wake(4), Wake::Hook(FdToken(4)));
}
