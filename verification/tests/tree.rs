//! The widget tree, and what an outside process reads of it.

use nitro::arena::{Bounds, NodeId, WidgetId};
use nitro::built::Built;
use nitro::dirty::Dirty;
use nitro::error::Error;
use nitro::event::Handled;
use nitro::introspect::answer::{
    answer, format_bounds, get, handle, invoke, list, Effect, Owed, Step,
};
use nitro::introspect::clients::{Client, Clients};
use nitro::introspect::path::{path_of, resolve};
use nitro::introspect::request::{err, ok_body, ok_empty, parse_request, Request};
use nitro::introspect::sockets::{
    found, process_path, responds, sibling, socket_name, sort_apps, stale, Dial,
};
use nitro::split::pages::Pages;
use nitro::ui::action::Called;
use nitro::ui::arrange::Placed;
use nitro::ui::backdrop::{Backdrop, Painting};
use nitro::ui::focus::{first_stage, next_stage, KeyStage};
use nitro::ui::{Op, Ui};
use nitro::widget::{Access, AccessView, Role, Widget};

/// A widget with a role, a name and a value.
struct Probe {
    role: Role,
    enabled: bool,
    value: Option<&'static str>,
}

impl Widget for Probe {
    fn role_view(&self) -> Role {
        unreachable!("named in contracts only")
    }

    fn enabled_view(&self) -> bool {
        unreachable!("named in contracts only")
    }

    fn access_view(&self) -> AccessView {
        unreachable!("named in contracts only")
    }

    fn role(&self) -> Role {
        self.role
    }

    fn enabled(&self) -> bool {
        self.enabled
    }

    fn accessible(&self) -> Access {
        Access {
            name: None,
            value: self.value.map(str::to_owned),
            actions: vec!["activate"],
        }
    }
}

fn probe(role: Role) -> Built<Probe> {
    Built::new(Probe {
        role,
        enabled: true,
        value: None,
    })
}

fn named(role: Role, name: &str) -> Built<Probe> {
    let mut b = probe(role);
    b.name = Some(name.to_owned());
    b
}

/// A window with a row of two buttons, one of them named, and a label.
fn window() -> (Ui<Probe>, WidgetId, Vec<WidgetId>) {
    let mut row = probe(Role::Container);
    let mut ok = named(Role::Button, "ok");
    ok.focusable = true;
    ok.widget.value = Some("OK");
    let mut cancel = probe(Role::Button);
    cancel.focusable = true;
    row.push(ok);
    row.push(cancel);
    row.push(probe(Role::Label));
    let mut root = probe(Role::Container);
    root.push(row);
    let mut ui = Ui::new();
    let id = ui.build(root);
    assert_eq!(ui.set_root(id), Ok(()));
    let row = ui.children(id)[0];
    let kids = ui.children(row);
    (ui, id, kids)
}

#[test]
fn a_built_tree_stands() {
    let (ui, root, kids) = window();
    assert_eq!(ui.root(), Some(root));
    assert_eq!(ui.widget_count(), 5);
    assert_eq!(kids.len(), 3);
    let row = ui.children(root)[0];
    assert_eq!(ui.parent(row), Some(root));
    assert_eq!(ui.parent(kids[1]), Some(row));
    assert_eq!(ui.role(kids[2]), Ok(Role::Label));
    assert_eq!(ui.address_name(kids[0]).as_deref(), Some("ok"));
}

#[test]
fn removing_takes_the_subtree_along() {
    let (mut ui, root, kids) = window();
    let row = ui.children(root)[0];
    assert_eq!(ui.remove(row), Ok(()));
    assert_eq!(ui.widget_count(), 1);
    assert!(ui.children(root).is_empty());
    assert!(!ui.is_live(kids[0]));
    assert_eq!(ui.remove(row), Err(Error::StaleWidget));
    assert_eq!(ui.role(kids[0]), Err(Error::StaleWidget));
}

#[test]
fn a_widget_that_is_out_is_busy() {
    let (mut ui, _, kids) = window();
    let w = ui.take(kids[0]);
    let w = match w {
        Ok(w) => w,
        Err(_) => panic!("the widget is there"),
    };
    assert!(matches!(ui.take(kids[0]), Err(Error::Busy)));
    ui.untake(kids[0], w);
    assert!(ui.take(kids[0]).is_ok());
}

#[test]
fn children_can_be_added_and_moved() {
    let (mut ui, root, _) = window();
    let extra = ui.add_child(root, probe(Role::Slider)).unwrap();
    assert_eq!(ui.children(root).len(), 2);
    assert_eq!(ui.parent(extra), Some(root));
    let loose = ui.build(probe(Role::Image));
    assert_eq!(ui.attach(root, loose), Ok(()));
    assert_eq!(ui.children(root), [ui.children(root)[0], extra, loose]);
}

#[test]
fn tab_goes_round_the_focusable_widgets() {
    let (mut ui, _, kids) = window();
    assert_eq!(ui.focus_order(), [kids[0], kids[1]]);
    assert_eq!(ui.next_focus(false), Some(kids[0]));
    ui.focus(kids[0]);
    assert!(ui.is_focused(kids[0]));
    assert_eq!(ui.next_focus(false), Some(kids[1]));
    assert_eq!(ui.next_focus(true), Some(kids[1]));
    ui.focus(kids[1]);
    // The first gain is overtaken, and is not reported any more.
    assert_eq!(ui.next_focus_event(), Some((kids[0], false)));
    assert_eq!(ui.next_focus_event(), Some((kids[1], true)));
    assert_eq!(ui.next_focus_event(), None);
}

#[test]
fn a_hidden_widget_is_not_visible_nor_are_its_children() {
    let (mut ui, root, kids) = window();
    let row = ui.children(root)[0];
    assert!(ui.is_visible(kids[0]));
    ui.set_node_visible(row, false);
    assert!(!ui.is_visible(kids[0]));
    assert!(ui.focus_order().is_empty());
}

#[test]
fn an_idle_tree_sends_nothing() {
    let (mut ui, _, _) = window();
    ui.flush_tree();
    let first = ui.take_ops();
    assert!(first.iter().any(|o| matches!(o, Op::CreateGroup { .. })));
    ui.paint_done();
    ui.flush_tree();
    assert!(ui.take_ops().is_empty());
    assert!(ui.paint_order().is_empty());
}

#[test]
fn a_new_look_paints_everything() {
    let (mut ui, _, _) = window();
    ui.flush_tree();
    ui.paint_done();
    assert!(ui.paint_order().is_empty());
    ui.restyle();
    assert_eq!(ui.paint_order().len(), 5);
    ui.paint_done();
    ui.resized();
    assert_eq!(ui.paint_order().len(), 1);
}

#[test]
fn one_page_shows_at_a_time() {
    let mut stack: Built<Probe> = probe(Role::Container);
    let mut first = probe(Role::Container);
    let mut field = probe(Role::TextField);
    field.focusable = true;
    first.push(field);
    stack.push(first);
    stack.push(probe(Role::Container));
    let mut ui = Ui::new();
    let id = ui.build(stack);
    assert!(ui.set_root(id).is_ok());
    let kids = ui.children(id);
    let field = ui.children(kids[0])[0];
    let mut pages = Pages::new();
    ui.turn_to(id, pages.current());
    assert!(ui.is_visible(kids[0]) && !ui.is_visible(kids[1]));
    ui.focus(field);
    assert!(pages.show(1));
    ui.show_page(id, 1);
    assert!(!ui.is_visible(kids[0]) && ui.is_visible(kids[1]));
    assert_eq!(ui.focused(), None, "the field is out of sight");
    assert!(!pages.show(1));
    assert_eq!(pages.action("show", Some("0")), Handled::Yes);
    assert_eq!(pages.current(), 0);
    assert_eq!(pages.action("show", Some("x")), Handled::No);
    assert_eq!(pages.action("turn", Some("1")), Handled::No);
}

#[test]
fn a_key_is_offered_in_stages() {
    assert_eq!(first_stage(true, true), KeyStage::Down);
    assert_eq!(first_stage(false, true), KeyStage::Up);
    assert_eq!(
        next_stage(KeyStage::Down, Handled::Yes, true, false),
        KeyStage::Done
    );
    assert_eq!(
        next_stage(KeyStage::Down, Handled::No, true, false),
        KeyStage::Text
    );
}

#[test]
fn activations_are_reported_once() {
    let (mut ui, _, kids) = window();
    ui.report_activation(kids[0]);
    assert_eq!(ui.take_activations(), [kids[0]]);
    assert!(ui.take_activations().is_empty());
}

#[test]
fn the_pointer_is_over_the_topmost() {
    let (mut ui, root, kids) = window();
    let row = ui.children(root)[0];
    let chain = ui.hit_chain(&vec![root, row, kids[0], kids[1]]);
    assert_eq!(chain, [root, row, kids[1]]);
    let (left, entered) = ui.hover_changes(&chain);
    assert!(left.is_empty());
    assert_eq!(entered.len(), 3);
    ui.set_hover(chain);
    assert_eq!(ui.deepest(), Some(kids[1]));
}

// -- introspection ------------------------------------------------------

#[test]
fn paths_lead_back() {
    let (ui, root, kids) = window();
    let row = ui.children(root)[0];
    for id in [root, row, kids[0], kids[1], kids[2]] {
        let path = path_of(&ui, id).unwrap();
        assert_eq!(resolve(&ui, &path), Some(id), "{path}");
    }
    assert_eq!(path_of(&ui, kids[0]).as_deref(), Some("window/container[0]/ok"));
    assert_eq!(resolve(&ui, "window/nothing"), None);
    assert_eq!(resolve(&ui, "ok"), Some(kids[0]), "a bare name finds its widget");
}

#[test]
fn a_tree_is_listed_and_read() {
    let (mut ui, root, kids) = window();
    ui.set_bounds(root, Bounds { x: 0, y: 0, w: 100, h: 50 });
    assert_eq!(format_bounds(Bounds { x: 1, y: -2, w: 3, h: 4 }), "1,-2,3,4");
    let text = list(&ui, "window", false).unwrap();
    assert_eq!(text.lines().count(), 5);
    assert!(list(&ui, "nowhere", false).is_err());
    assert_eq!(get(&ui, "ok", Some("role")).as_deref(), Ok("button\n"));
    assert_eq!(get(&ui, "ok", Some("text")).as_deref(), Ok("OK\n"));
    assert!(get(&ui, "ok", Some("colour")).is_err());
    assert_eq!(
        invoke(&ui, "ok", "click", None),
        Ok(Effect::Act {
            id: kids[0],
            action: "click".to_owned(),
            arg: None,
            owed: Owed::Action("click".to_owned()),
        })
    );
    assert!(invoke(&ui, "nowhere", "click", None).is_err());
    match nitro::introspect::answer::set(&ui, "ok", "focused", "true") {
        Ok(Effect::Act { id, action, .. }) => assert_eq!((id, action.as_str()), (kids[0], "focus")),
        other => panic!("{other:?}"),
    }
}

#[test]
fn requests_are_taken_apart() {
    assert_eq!(
        parse_request("get window/ok text"),
        Request::Get {
            path: "window/ok".to_owned(),
            only: Some("text".to_owned())
        }
    );
    assert_eq!(parse_request("quit"), Request::Quit);
    assert!(matches!(parse_request("dance"), Request::Bad { .. }));
    assert!(matches!(parse_request("set w text a  b"), Request::Put { value, .. } if value == "a  b"));
}

#[test]
fn replies_have_a_form() {
    assert!(err("no such widget").starts_with("err "));
    assert!(ok_empty().starts_with("ok"));
    assert!(ok_body("a\nb\n").contains("a\nb\n"));
    assert!(answer(&Owed::Nothing, Ok(Handled::No)).starts_with("ok"));
    assert!(answer(&Owed::Action("x".to_owned()), Ok(Handled::No)).starts_with("err"));
    assert!(answer(&Owed::Nothing, Err(Error::StaleWidget)).starts_with("err"));
}

#[test]
fn a_request_line_is_handled() {
    let (ui, _, _) = window();
    assert_eq!(handle(&ui, "quit"), Step::Quit);
    assert_eq!(handle(&ui, "shot"), Step::Shot);
    assert!(matches!(handle(&ui, "watch *"), Step::Watch(w) if w == "*"));
    assert!(matches!(handle(&ui, "list"), Step::Reply(r) if r.starts_with("ok")));
    assert!(matches!(handle(&ui, "get nowhere"), Step::Reply(r) if r.starts_with("err")));
    assert!(matches!(handle(&ui, "do ok click"), Step::Run(Effect::Act { .. })));
}

#[test]
fn the_trees_own_actions_work_on_any_widget() {
    let (mut ui, _, kids) = window();
    assert!(matches!(ui.action(kids[2], "focus", None), Called::Focused));
    assert_eq!(ui.focused(), Some(kids[2]));
    assert!(matches!(
        ui.action(kids[2], "set_name", Some("status")),
        Called::Named
    ));
    assert_eq!(ui.address_name(kids[2]).as_deref(), Some("status"));
    match ui.action(kids[0], "click", None) {
        Called::Own(w) => ui.untake(kids[0], w),
        _ => panic!("the widget's own action"),
    }
}

#[test]
fn a_dead_id_is_refused_every_action() {
    let (mut ui, _, kids) = window();
    ui.focus(kids[0]);
    assert_eq!(ui.remove(kids[2]), Ok(()));
    for action in ["focus", "set_name", "click"] {
        assert!(matches!(
            ui.action(kids[2], action, Some("x")),
            Called::Failed(Error::StaleWidget)
        ));
    }
    assert_eq!(ui.focused(), Some(kids[0]), "the focus stayed where it was");
}

#[test]
fn a_removed_id_is_dead_for_good() {
    let (mut ui, root, kids) = window();
    let row = ui.children(root)[0];
    assert_eq!(ui.remove(row), Ok(()));
    for _ in 0..50 {
        let id = ui.build(probe(Role::Label));
        assert!(id != row && !kids.contains(&id));
        assert!(!ui.is_live(row) && kids.iter().all(|k| !ui.is_live(*k)));
        assert_eq!(ui.remove(id), Ok(()));
    }
}

#[test]
fn every_live_widget_is_listed() {
    let (mut ui, root, kids) = window();
    let row = ui.children(root)[0];
    let loose = ui.build(probe(Role::Icon));
    assert_eq!(ui.parent(loose), None);
    assert_eq!(ui.remove(kids[1]), Ok(()));
    let live = ui.live_widgets();
    assert_eq!(live.len(), ui.widget_count());
    for id in [root, row, kids[0], kids[2], loose] {
        assert!(live.contains(&id));
    }
    assert!(!live.contains(&kids[1]));
}

#[test]
fn a_stand_in_gives_its_place_up() {
    let (mut ui, root, kids) = window();
    let row = ui.children(root)[0];
    let new = ui.build(probe(Role::Icon));
    assert_eq!(ui.stand_in(kids[0], new), Ok(()));
    assert_eq!(ui.children(row), [new, kids[1], kids[2]]);
    assert_eq!(ui.address_name(new).as_deref(), Some("ok"), "under its name");
    assert_eq!(ui.parent(new), Some(row));
    assert!(!ui.is_live(kids[0]));
    assert_eq!(ui.stand_in(kids[2], new), Ok(()), "also from beside it");
    assert_eq!(ui.children(row), [kids[1], new]);
    assert_eq!(ui.address_name(new).as_deref(), Some("ok"));
    assert_eq!(ui.stand_in(kids[2], new), Err(Error::StaleWidget));
    assert_eq!(ui.stand_in(kids[1], kids[0]), Err(Error::StaleWidget));
    assert_eq!(ui.children(row), [kids[1], new]);
}

#[test]
fn a_shown_widget_is_not_shown_again() {
    let (mut ui, _, kids) = window();
    ui.flush_tree();
    let _ = ui.take_ops();
    ui.set_node_visible(kids[0], true);
    assert!(ui.take_ops().is_empty(), "a group is created visible");
    ui.set_node_visible(kids[0], false);
    assert!(matches!(
        ui.take_ops().as_slice(),
        [Op::SetVisible { visible: false, .. }]
    ));
    ui.set_node_visible(kids[0], false);
    assert!(ui.take_ops().is_empty());
    ui.set_node_visible(kids[0], true);
    assert!(matches!(
        ui.take_ops().as_slice(),
        [Op::SetVisible { visible: true, .. }]
    ));
}

#[test]
fn a_collapsed_widget_is_not_laid_out() {
    let (mut ui, root, kids) = window();
    let row = ui.children(root)[0];
    assert_eq!(ui.flowing_children(row), kids);
    ui.set_collapsed(kids[1], true);
    assert_eq!(ui.flowing_children(row), [kids[0], kids[2]]);
    assert_eq!(ui.children(row), kids);
    ui.set_collapsed(kids[1], false);
    assert_eq!(ui.flowing_children(row), kids);
    assert!(ui.flowing_children(kids[2]).is_empty());
}

#[test]
fn a_reply_ends_at_its_one_blank_line() {
    let mut root = probe(Role::Container);
    let mut odd = named(Role::Label, "odd");
    odd.widget.value = Some("two\n\nlines");
    root.push(odd);
    let mut ui = Ui::new();
    let id = ui.build(root);
    assert_eq!(ui.set_root(id), Ok(()));
    for line in [
        "list",
        "tree",
        "get odd",
        "get odd value",
        "get odd name",
        "get window text",
        "get nowhere",
        "get odd colour",
        "set odd",
        "watch nowhere",
        "dance",
    ] {
        match handle(&ui, line) {
            Step::Reply(text) => {
                assert_eq!(text.find("\n\n"), Some(text.len() - 2), "{line}: {text:?}");
                assert!(!text.starts_with('\n'));
            }
            other => panic!("{line}: {other:?}"),
        }
    }
}

#[test]
fn a_client_is_served_line_by_line() {
    let mut c: Client<u8> = Client::new(0);
    c.receive(b"list\nget window");
    assert_eq!(c.next_line().as_deref(), Some("list"));
    assert_eq!(c.next_line(), None);
    c.receive("\u{fe}\n".as_bytes());
    assert_eq!(c.next_line().as_deref(), Some("get window\u{fe}"));
    c.receive(&[0xff, b'\n']);
    assert_eq!(c.next_line().as_deref(), Some("\u{fffd}"));
    c.send(b"ok\n");
    assert_eq!(c.unsent(), b"ok\n");
    c.sent(2);
    assert_eq!(c.unsent(), b"\n");
    assert!(!c.is_done());
    c.hang_up();
    assert!(c.is_done());
}

#[test]
fn a_watcher_hears_of_clicks_and_focus() {
    let (mut ui, _, kids) = window();
    let mut clients: Clients<u8> = Clients::new();
    assert!(!clients.busy());
    clients.welcome(1);
    clients.list[0].watch("window".to_owned());
    clients.take_snapshot(&ui);
    ui.report_activation(kids[0]);
    ui.focus(kids[1]);
    clients.emit_events(&mut ui);
    let said = String::from_utf8(clients.list[0].unsent().to_vec()).unwrap();
    assert!(said.contains("window/container[0]/ok"), "{said}");
    assert!(said.contains("click"), "{said}");
    assert!(said.contains("focus"), "{said}");
    clients.list[0].hang_up();
    clients.settle();
    assert_eq!(clients.client_count(), 0);
}

// -- sockets --------------------------------------------------------------

#[test]
fn only_proof_of_death_makes_a_socket_stale() {
    assert!(responds(Dial::Answered));
    assert!(responds(Dial::Unknown));
    assert!(!responds(Dial::Refused));
    assert!(stale(false, Dial::Missing) || !stale(false, Dial::Missing));
    assert!(!stale(true, Dial::Answered));
    assert!(stale(true, Dial::Refused));
    assert_eq!(process_path(42), "/proc/42");
}

#[test]
fn sockets_are_told_apart_and_sorted() {
    assert_eq!(socket_name("my app", 7), "my_app.7.sock");
    assert_eq!(sibling("bar.7.sock", "bar"), Some(7));
    assert_eq!(sibling("calc.7.sock", "bar"), None);
    let a = found("b.2.sock", "/r/b.2.sock").unwrap();
    let b = found("a.9.sock", "/r/a.9.sock").unwrap();
    let c = found("a.3.sock", "/r/a.3.sock").unwrap();
    assert!(found("notes.txt", "/r/notes.txt").is_none());
    let sorted = sort_apps(vec![a, b, c]);
    let order: Vec<(&str, u32)> = sorted.iter().map(|s| (s.name.as_str(), s.pid)).collect();
    assert_eq!(order, [("a", 3), ("a", 9), ("b", 2)]);
}

#[test]
fn a_settled_widget_moves_for_one_message() {
    let (mut ui, root, kids) = window();
    ui.flush_tree();
    ui.take_ops();
    assert!(ui.needs_layout());
    let (group, _) = ui.paint_target(kids[0]).expect("the tree pass made a group");
    let first = ui.place(kids[0], true, true);
    assert_eq!(first.moved, Some(group));
    assert!(first.inside);
    ui.laid_out(kids[0]);
    let moved = ui.place(kids[0], true, false);
    assert_eq!(
        moved,
        Placed {
            moved: Some(group),
            fit: None,
            inside: false
        }
    );
    let stayed = ui.place(kids[0], false, false);
    assert_eq!(stayed.moved, None);
    assert!(!stayed.inside);
    ui.laid_out(root);
    assert!(!ui.needs_layout());
    ui.resized();
    assert!(ui.needs_layout());
}

#[test]
fn a_clipping_group_follows_its_widget() {
    let (mut ui, root, _) = window();
    ui.set_content_clip(root, true);
    ui.flush_tree();
    let (_, content) = ui.paint_target(root).expect("the tree pass made a group");
    assert_ne!(content, NodeId::none());
    assert_eq!(ui.place(root, false, true).fit, Some(content));
    assert_eq!(ui.place(root, true, false).fit, None);
}

#[test]
fn a_measurement_is_recalled_until_the_layout_changes() {
    let (mut ui, _, kids) = window();
    ui.place(kids[0], false, true);
    ui.laid_out(kids[0]);
    assert!(!ui.recalls(kids[0], true));
    ui.remember(kids[0]);
    assert!(ui.recalls(kids[0], true));
    assert!(!ui.recalls(kids[0], false));
    ui.mark(kids[0], Dirty::layout());
    assert!(!ui.recalls(kids[0], true));
}

#[test]
fn the_backdrop_is_made_once_and_behind_the_tree() {
    let (mut ui, root, _) = window();
    ui.flush_tree();
    let (group, _) = ui.paint_target(root).expect("the tree pass made a group");
    let mut backdrop = Backdrop::new();
    assert!(backdrop.has_backdrop());
    let made = match backdrop.pass_backdrop(&mut ui, false) {
        Painting::Create { node, before } => {
            assert_eq!(before, group);
            node
        }
        other => panic!("{other:?}"),
    };
    assert_eq!(backdrop.pass_backdrop(&mut ui, true), Painting::Nothing);
    assert_eq!(backdrop.pass_backdrop(&mut ui, false), Painting::Update(made));
    backdrop.spoil();
    assert_eq!(backdrop.pass_backdrop(&mut ui, true), Painting::Update(made));
    backdrop.set_backdrop(false);
    assert_eq!(backdrop.pass_backdrop(&mut ui, true), Painting::Destroy(made));
    assert_eq!(backdrop.pass_backdrop(&mut ui, true), Painting::Nothing);
}
