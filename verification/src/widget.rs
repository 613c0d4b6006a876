//! What a widget is to the outside world: its role, its accessibility
//! record and the trait every widget answers.

use vstd::prelude::*;

use crate::arena::text_view;
use crate::chars::{chars_of, same};

verus! {

/// What a widget is, for introspection and accessibility.
#[derive(Debug, Clone, Copy, PartialEq, Eq, Structural)]
pub enum Role {
    /// Groups other widgets and draws little or nothing itself.
    Container,
    /// Static text.
    Label,
    /// Something you activate.
    Button,
    /// An editable line of text.
    TextField,
    /// A two-state box.
    Checkbox,
    /// A scrollable viewport.
    Scroll,
    /// A list of rows, of which only the visible ones exist as nodes.
    List,
    /// A value picked from a range.
    Slider,
    /// A terminal emulator's screen.
    Terminal,
    /// A dividing line.
    Separator,
    /// A picture.
    Image,
    /// A symbolic icon, named rather than drawn.
    Icon,
    /// Empty space.
    Spacer,
    /// Anything else.
    Other,
}

/// The lowercase name of a role.
pub open spec fn role_name(r: Role) -> Seq<char> {
    match r {
        Role::Container => "container"@,
        Role::Label => "label"@,
        Role::Button => "button"@,
        Role::TextField => "textfield"@,
        Role::Checkbox => "checkbox"@,
        Role::Scroll => "scroll"@,
        Role::List => "list"@,
        Role::Slider => "slider"@,
        Role::Terminal => "terminal"@,
        Role::Separator => "separator"@,
        Role::Image => "image"@,
        Role::Icon => "icon"@,
        Role::Spacer => "spacer"@,
        Role::Other => "other"@,
    }
}

proof fn lemma_literals()
    ensures
        "container"@ =~= seq!['c', 'o', 'n', 't', 'a', 'i', 'n', 'e', 'r'],
        "label"@ =~= seq!['l', 'a', 'b', 'e', 'l'],
        "button"@ =~= seq!['b', 'u', 't', 't', 'o', 'n'],
        "textfield"@ =~= seq!['t', 'e', 'x', 't', 'f', 'i', 'e', 'l', 'd'],
        "checkbox"@ =~= seq!['c', 'h', 'e', 'c', 'k', 'b', 'o', 'x'],
        "scroll"@ =~= seq!['s', 'c', 'r', 'o', 'l', 'l'],
        "list"@ =~= seq!['l', 'i', 's', 't'],
        "slider"@ =~= seq!['s', 'l', 'i', 'd', 'e', 'r'],
        "terminal"@ =~= seq!['t', 'e', 'r', 'm', 'i', 'n', 'a', 'l'],
        "separator"@ =~= seq!['s', 'e', 'p', 'a', 'r', 'a', 't', 'o', 'r'],
        "image"@ =~= seq!['i', 'm', 'a', 'g', 'e'],
        "icon"@ =~= seq!['i', 'c', 'o', 'n'],
        "spacer"@ =~= seq!['s', 'p', 'a', 'c', 'e', 'r'],
        "other"@ =~= seq!['o', 't', 'h', 'e', 'r'],
{
    reveal_strlit("container");
    reveal_strlit("label");
    reveal_strlit("button");
    reveal_strlit("textfield");
    reveal_strlit("checkbox");
    reveal_strlit("scroll");
    reveal_strlit("list");
    reveal_strlit("slider");
    reveal_strlit("terminal");
    reveal_strlit("separator");
    reveal_strlit("image");
    reveal_strlit("icon");
    reveal_strlit("spacer");
    reveal_strlit("other");
}

/// No two roles share a name.
pub proof fn role_names_differ(a: Role, b: Role)
    ensures
        role_name(a) == role_name(b) ==> a == b,
{
    lemma_literals();
    if role_name(a) == role_name(b) {
        assert(role_name(a).len() == role_name(b).len());
        assert(role_name(a)[0] == role_name(b)[0]);
        assert(role_name(a)[1] == role_name(b)[1]);
        assert(role_name(a)[2] == role_name(b)[2]);
    }
}

/// A role's name is made of ASCII lowercase letters.
pub proof fn role_names_are_letters(r: Role)
    ensures
        role_name(r).len() > 0,
        forall|i: int| 0 <= i < role_name(r).len() ==> 'a' <= #[trigger] role_name(r)[i] <= 'z',
{
    lemma_literals();
}

impl Role {
    /// The lowercase name used by the introspection protocol.
    pub fn name(self) -> (s: &'static str)
        ensures
            s@ == role_name(self),
    {
        match self {
            Role::Container => "container",
            Role::Label => "label",
            Role::Button => "button",
            Role::TextField => "textfield",
            Role::Checkbox => "checkbox",
            Role::Scroll => "scroll",
            Role::List => "list",
            Role::Slider => "slider",
            Role::Terminal => "terminal",
            Role::Separator => "separator",
            Role::Image => "image",
            Role::Icon => "icon",
            Role::Spacer => "spacer",
            Role::Other => "other",
        }
    }

    /// The role named by `name`, for a protocol path segment.
    pub fn from_name(name: &str) -> (r: Option<Role>)
        ensures
            match r {
                Some(role) => role_name(role) == name@,
                None => forall|role: Role| role_name(role) != name@,
            },
    {
        let all: [Role; 14] = [
            Role::Container,
            Role::Label,
            Role::Button,
            Role::TextField,
            Role::Checkbox,
            Role::Scroll,
            Role::List,
            Role::Slider,
            Role::Terminal,
            Role::Separator,
            Role::Image,
            Role::Icon,
            Role::Spacer,
            Role::Other,
        ];
        let wanted = chars_of(name);
        let mut i: usize = 0;
        while i < 14
            invariant
                i <= 14,
                wanted@ == name@,
                forall|j: int| 0 <= j < i ==> role_name(#[trigger] all@[j]) != name@,
            decreases 14 - i,
        {
            let own = chars_of(all[i].name());
            if same(own.as_slice(), wanted.as_slice()) {
                return Some(all[i]);
            }
            i += 1;
        }
        assert forall|role: Role| role_name(role) != name@ by {
            let k: int = match role {
                Role::Container => 0,
                Role::Label => 1,
                Role::Button => 2,
                Role::TextField => 3,
                Role::Checkbox => 4,
                Role::Scroll => 5,
                Role::List => 6,
                Role::Slider => 7,
                Role::Terminal => 8,
                Role::Separator => 9,
                Role::Image => 10,
                Role::Icon => 11,
                Role::Spacer => 12,
                Role::Other => 13,
            };
            assert(all@[k] == role);
        }
        None
    }
}

/// What a widget exposes to the outside world.
#[derive(Debug, Clone, PartialEq, Eq)]
pub struct Access {
    /// Human-readable name ("OK", "Username").
    pub name: Option<String>,
    /// Current value, as text.
    pub value: Option<String>,
    /// Actions that can be invoked, such as `activate`.
    pub actions: Vec<&'static str>,
}

/// What an [`Access`] holds, as mathematical values.
pub struct AccessView {
    /// Human-readable name.
    pub name: Option<Seq<char>>,
    /// Current value.
    pub value: Option<Seq<char>>,
    /// The actions, in order.
    pub actions: Seq<Seq<char>>,
}

impl View for Access {
    type V = AccessView;

    open spec fn view(&self) -> AccessView {
        AccessView {
            name: text_view(self.name),
            value: text_view(self.value),
            actions: self.actions@.map_values(|s: &'static str| s@),
        }
    }
}

/// The record of a widget that says nothing but its role: a button can be
/// activated, and nothing else can be done to anything.
pub open spec fn role_access(role: Role) -> AccessView {
    AccessView {
        name: None,
        value: None,
        actions: if role is Button {
            seq!["activate"@]
        } else {
            Seq::empty()
        },
    }
}

/// The accessibility record derived from a role.
pub fn default_access(role: Role) -> (a: Access)
    ensures
        a@ == role_access(role),
{
    let mut actions: Vec<&'static str> = Vec::new();
    if role == Role::Button {
        actions.push("activate");
    }
    let a = Access { name: None, value: None, actions };
    assert(a@.actions =~= role_access(role).actions);
    a
}

/// What the framework asks of every widget, whatever its type.
pub trait Widget {
    /// What the widget is, in contracts.
    spec fn role_view(&self) -> Role;

    /// Whether it reacts to input, in contracts.
    spec fn enabled_view(&self) -> bool;

    /// Its accessibility record, in contracts.
    spec fn access_view(&self) -> AccessView;

    /// What this widget is.
    fn role(&self) -> (r: Role)
        ensures
            r == self.role_view(),
    ;

    /// Whether the widget reacts to input at all.
    fn enabled(&self) -> (r: bool)
        ensures
            r == self.enabled_view(),
    ;

    /// The accessibility record.
    fn accessible(&self) -> (a: Access)
        ensures
            a@ == self.access_view(),
    ;
}

/// A widget that says nothing of itself has neither a name nor a value, and a
/// button alone can be activated.
pub proof fn only_a_button_can_be_activated(role: Role)
    ensures
        role_access(role).name is None && role_access(role).value is None,
        role_access(role).actions.contains("activate"@) <==> role is Button,
        forall|i: int|
            0 <= i < role_access(role).actions.len() ==> #[trigger] role_access(role).actions[i]
                == "activate"@,
        role_access(role).actions.len() <= 1,
{
    if role is Button {
        assert(role_access(role).actions[0] == "activate"@);
    }
}

} // verus!
