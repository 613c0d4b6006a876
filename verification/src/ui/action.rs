//! Named actions, as a script invokes them on a widget.

use vstd::prelude::*;

use crate::arena::{WidgetId, WidgetView};
use crate::chars::{owned, text_eq};
use crate::error::Error;
use crate::tree::with_state;
use crate::ui::access::with_widget;
use crate::ui::focus::focus_moved;
use crate::ui::{Ui, UiView};

verus! {

/// What is left to do after an action was looked at.
pub enum Called<W> {
    /// The focus moved: the queued reports are to be delivered, and the
    /// action was handled.
    Focused,
    /// The widget was renamed, and the action was handled.
    Named,
    /// The action is the widget's own. The widget is out of its slot and
    /// goes back when its method has run.
    Own(W),
    /// There is no such widget, or it is out of its slot already.
    Failed(Error),
}

impl<W> Ui<W> {
    /// Invoke a named action on a widget.
    ///
    /// `focus` and `set_name` are the tree's own: they work on any widget.
    /// Everything else is the widget's, and goes through the same take-out
    /// dispatch a real event does. A dead id is refused, whatever is asked.
    pub fn action(&mut self, id: WidgetId, action: &str, arg: Option<&str>) -> (r: Called<W>)
        requires
            old(self).wf(),
        ensures
            final(self).wf(),
            final(self).rank() == old(self).rank(),
            final(self).top() == old(self).top(),
            final(self).space_left() == old(self).space_left(),
            final(self).still_retired(old(self)),
            r is Focused <==> action@ == "focus"@ && old(self)@.nodes.dom().contains(id),
            r is Named ==> action@ == "set_name"@,
            r is Failed && action@ == "focus"@ ==> r == Called::<W>::Failed(Error::StaleWidget),
            ({
                let v = old(self)@;
                let live = v.nodes.dom().contains(id);
                match r {
                    Called::Focused => final(self)@ == focus_moved(
                        v,
                        old(self).rank(),
                        old(self).top(),
                        id,
                    ),
                    Called::Named => live && final(self)@ == (UiView {
                        nodes: with_state(
                            v.nodes,
                            id,
                            WidgetView {
                                name: match arg {
                                    Some(a) => Some(a@),
                                    None => None,
                                },
                                ..v.nodes[id].state
                            },
                        ),
                        ..v
                    }),
                    Called::Own(w) => action@ != "set_name"@ && live && v.nodes[id].widget == Some(
                        w,
                    ) && final(self)@ == (UiView {
                        nodes: with_widget(v.nodes, id, None),
                        ..v
                    }),
                    Called::Failed(Error::StaleWidget) => !live && final(self)@ == v,
                    Called::Failed(Error::Busy) => action@ != "set_name"@ && live
                        && v.nodes[id].widget is None && final(self)@ == v,
                    Called::Failed(_) => false,
                }
            }),
    {
        if text_eq(action, "focus") {
            if !self.is_live(id) {
                return Called::Failed(Error::StaleWidget);
            }
            self.focus(id);
            return Called::Focused;
        }
        if text_eq(action, "set_name") {
            proof {
                reveal_strlit("focus");
                reveal_strlit("set_name");
            }
            if !self.is_live(id) {
                return Called::Failed(Error::StaleWidget);
            }
            let name = match arg {
                Some(a) => Some(owned(a)),
                None => None,
            };
            self.put_name(id, name);
            return Called::Named;
        }
        match self.take(id) {
            Ok(w) => Called::Own(w),
            Err(e) => Called::Failed(e),
        }
    }
}

} // verus!
