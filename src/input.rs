//! Turns raw input events into semantic actions, with one finite state
//! machine per interactive widget.
use crate::text::push_char;
use vstd::prelude::*;

verus! {

/// Pointer state of a button.
#[derive(Clone, Copy, PartialEq, Eq, Structural, Debug)]
pub enum ButtonState {
    Idle,
    Hovered,
    Pressed,
}

/// A raw input event delivered to one widget; `over` tells whether the
/// pointer is over the widget.
#[derive(Clone, Copy, PartialEq, Eq, Structural, Debug)]
pub enum RawEvent {
    PointerMove { over: bool },
    PointerDown { over: bool },
    PointerUp { over: bool },
    /// A typed character.
    Char(char),
    /// The Enter / Return key.
    Enter,
    /// A completed click on a dropdown's face.
    Click,
    /// A choice of the entry with this index in an open dropdown menu.
    SelectEntry(usize),
}

/// Interaction state of a widget.
pub enum Interaction {
    /// A widget that takes no input.
    Inert,
    Button(ButtonState),
    /// A text input and its working buffer.
    TextInput(String),
    /// A dropdown: whether its menu is open and how many entries it offers.
    Dropdown { open: bool, entries: usize },
}

/// The mathematical value of an [`Interaction`].
pub enum InteractionView {
    Inert,
    Button(ButtonState),
    TextInput(Seq<char>),
    Dropdown { open: bool, entries: nat },
}

/// A semantic action addressed to a widget by its identifier.
#[derive(Debug)]
pub enum Action {
    Clicked { id: String },
    TextSubmitted { id: String, text: String },
    ValueSelected { id: String, index: usize },
}

/// The mathematical value of an [`Action`].
pub enum ActionView {
    Clicked(Seq<char>),
    TextSubmitted(Seq<char>, Seq<char>),
    ValueSelected(Seq<char>, nat),
}

/// What a completed gesture yields, before it is addressed.
pub enum Gesture {
    Click,
    Submit(Seq<char>),
    Select(nat),
}

impl Interaction {
    pub open spec fn view(&self) -> InteractionView {
        match self {
            Interaction::Inert => InteractionView::Inert,
            Interaction::Button(b) => InteractionView::Button(*b),
            Interaction::TextInput(t) => InteractionView::TextInput(t@),
            Interaction::Dropdown { open, entries } => InteractionView::Dropdown {
                open: *open,
                entries: *entries as nat,
            },
        }
    }
}

impl Action {
    pub open spec fn view(&self) -> ActionView {
        match self {
            Action::Clicked { id } => ActionView::Clicked(id@),
            Action::TextSubmitted { id, text } => ActionView::TextSubmitted(id@, text@),
            Action::ValueSelected { id, index } => ActionView::ValueSelected(id@, *index as nat),
        }
    }

    /// The identifier of the widget that the action is addressed to.
    pub fn widget_id(&self) -> (r: &String)
        ensures
            r@ == action_id(self@),
    {
        match self {
            Action::Clicked { id } => id,
            Action::TextSubmitted { id, .. } => id,
            Action::ValueSelected { id, .. } => id,
        }
    }
}

pub open spec fn action_id(a: ActionView) -> Seq<char> {
    match a {
        ActionView::Clicked(id) => id,
        ActionView::TextSubmitted(id, _) => id,
        ActionView::ValueSelected(id, _) => id,
    }
}

pub open spec fn addressed(id: Seq<char>, g: Gesture) -> ActionView {
    match g {
        Gesture::Click => ActionView::Clicked(id),
        Gesture::Submit(t) => ActionView::TextSubmitted(id, t),
        Gesture::Select(i) => ActionView::ValueSelected(id, i),
    }
}

pub open spec fn opt_view(r: Option<Action>) -> Option<ActionView> {
    match r {
        Some(a) => Some(a@),
        None => None,
    }
}

/// One step of a button: a press over the button arms it; a release over it
/// clicks; a release after the pointer left cancels.
pub open spec fn button_step(s: ButtonState, ev: RawEvent) -> (ButtonState, bool) {
    match ev {
        RawEvent::PointerMove { over } => match s {
            ButtonState::Pressed => (ButtonState::Pressed, false),
            _ => (
                if over {
                    ButtonState::Hovered
                } else {
                    ButtonState::Idle
                },
                false,
            ),
        },
        RawEvent::PointerDown { over } => if over {
            (ButtonState::Pressed, false)
        } else {
            (s, false)
        },
        RawEvent::PointerUp { over } => match s {
            ButtonState::Pressed => if over {
                (ButtonState::Hovered, true)
            } else {
                (ButtonState::Idle, false)
            },
            _ => (s, false),
        },
        _ => (s, false),
    }
}

/// One step of any widget's state machine: the next state and the gesture
/// completed, if any. Events that a widget does not understand leave it as it is.
pub open spec fn step(st: InteractionView, ev: RawEvent) -> (InteractionView, Option<Gesture>) {
    match st {
        InteractionView::Inert => (st, None),
        InteractionView::Button(b) => {
            let (nb, clicked) = button_step(b, ev);
            (
                InteractionView::Button(nb),
                if clicked {
                    Some(Gesture::Click)
                } else {
                    None
                },
            )
        },
        InteractionView::TextInput(t) => match ev {
            RawEvent::Char(c) => (InteractionView::TextInput(t.push(c)), None),
            RawEvent::Enter => (st, Some(Gesture::Submit(t))),
            _ => (st, None),
        },
        InteractionView::Dropdown { open, entries } => match ev {
            RawEvent::Click => (InteractionView::Dropdown { open: !open, entries }, None),
            RawEvent::SelectEntry(i) => if open && i < entries {
                (
                    InteractionView::Dropdown { open: false, entries },
                    Some(Gesture::Select(i as nat)),
                )
            } else {
                (st, None)
            },
            _ => (st, None),
        },
    }
}

/// The final state and the actions that a run of events yields.
pub open spec fn run(st: InteractionView, id: Seq<char>, evs: Seq<RawEvent>) -> (
    InteractionView,
    Seq<ActionView>,
)
    decreases evs.len(),
{
    if evs.len() == 0 {
        (st, Seq::empty())
    } else {
        let (s1, acts) = run(st, id, evs.drop_last());
        let (s2, g) = step(s1, evs.last());
        (
            s2,
            match g {
                Some(g) => acts.push(addressed(id, g)),
                None => acts,
            },
        )
    }
}

fn button_step_exec(s: ButtonState, ev: &RawEvent) -> (r: (ButtonState, bool))
    ensures
        r == button_step(s, *ev),
{
    match ev {
        RawEvent::PointerMove { over } => match s {
            ButtonState::Pressed => (ButtonState::Pressed, false),
            _ => (
                if *over {
                    ButtonState::Hovered
                } else {
                    ButtonState::Idle
                },
                false,
            ),
        },
        RawEvent::PointerDown { over } => if *over {
            (ButtonState::Pressed, false)
        } else {
            (s, false)
        },
        RawEvent::PointerUp { over } => match s {
            ButtonState::Pressed => if *over {
                (ButtonState::Hovered, true)
            } else {
                (ButtonState::Idle, false)
            },
            _ => (s, false),
        },
        _ => (s, false),
    }
}

/// Feeds one event to a widget's state machine, addressed by `id`.
pub fn translate(state: &mut Interaction, id: &String, ev: &RawEvent) -> (r: Option<Action>)
    ensures
        final(state)@ == step(old(state)@, *ev).0,
        opt_view(r) == match step(old(state)@, *ev).1 {
            Some(g) => Some(addressed(id@, g)),
            None => None::<ActionView>,
        },
{
    match state {
        Interaction::Inert => None,
        Interaction::Button(b) => {
            let (nb, clicked) = button_step_exec(*b, ev);
            *b = nb;
            if clicked {
                Some(Action::Clicked { id: id.clone() })
            } else {
                None
            }
        },
        Interaction::TextInput(t) => match ev {
            RawEvent::Char(c) => {
                push_char(t, *c);
                None
            },
            RawEvent::Enter => Some(Action::TextSubmitted { id: id.clone(), text: t.clone() }),
            _ => None,
        },
        Interaction::Dropdown { open, entries } => match ev {
            RawEvent::Click => {
                *open = !*open;
                None
            },
            RawEvent::SelectEntry(i) => {
                if *open && *i < *entries {
                    *open = false;
                    Some(Action::ValueSelected { id: id.clone(), index: *i })
                } else {
                    None
                }
            },
            _ => None,
        },
    }
}

/// Feeds a run of events, in order, to one widget's state machine.
pub fn translate_all(state: &mut Interaction, id: &String, evs: &Vec<RawEvent>) -> (r: Vec<Action>)
    ensures
        final(state)@ == run(old(state)@, id@, evs@).0,
        r@.map_values(|a: Action| a@) == run(old(state)@, id@, evs@).1,
{
    let mut out: Vec<Action> = Vec::new();
    let mut i: usize = 0;
    while i < evs.len()
        invariant
            i <= evs@.len(),
            (state@, out@.map_values(|a: Action| a@)) == run(old(state)@, id@, evs@.take(i as int)),
        decreases evs@.len() - i,
    {
        let ghost prev = out@;
        assert(evs@.take(i + 1).drop_last() =~= evs@.take(i as int));
        let a = translate(state, id, &evs[i]);
        match a {
            Some(a) => {
                out.push(a);
                assert(out@.map_values(|a: Action| a@) =~= prev.map_values(|a: Action| a@).push(a@));
            },
            None => {},
        }
        i = i + 1;
    }
    assert(evs@.take(i as int) =~= evs@);
    out
}

} // verus!
