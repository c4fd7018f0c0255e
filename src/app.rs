//! The application: a counter driven by two buttons and shown in a label,
//! an echo of submitted text, and a dropdown whose selection is bound to a
//! data store. Actions are matched against a fixed table of identifiers;
//! actions for other widgets are ignored.
use crate::input::{addressed, step, Action, ActionView, RawEvent};
use crate::style::{all_defined, first_undefined, ConstantTable, StyleError};
use crate::table::NameTable;
use crate::text::{decimal, joined, with_number};
use crate::tree::{cascaded, cascaded_entries, redraw_set, DirtySet, WidgetNode, WidgetTree};
use vstd::prelude::*;

verus! {

/// The counter after one action: `button1` raises it, `button2` lowers it
/// but never below zero.
pub open spec fn counter_step(c: nat, a: ActionView) -> nat {
    match a {
        ActionView::Clicked(id) => if id == "button1"@ {
            if c < usize::MAX {
                c + 1
            } else {
                c
            }
        } else if id == "button2"@ {
            if c >= 1 {
                (c - 1) as nat
            } else {
                0
            }
        } else {
            c
        },
        _ => c,
    }
}

pub open spec fn counter_after(c: nat, acts: Seq<ActionView>) -> nat
    decreases acts.len(),
{
    if acts.len() == 0 {
        c
    } else {
        counter_step(counter_after(c, acts.drop_last()), acts.last())
    }
}

/// The action is a click on one of the counter's buttons.
pub open spec fn touches_counter(a: ActionView) -> bool {
    a matches ActionView::Clicked(id) && (id == "button1"@ || id == "button2"@)
}

pub open spec fn any_counter_click(acts: Seq<ActionView>) -> bool
    decreases acts.len(),
{
    acts.len() > 0 && (touches_counter(acts.last()) || any_counter_click(acts.drop_last()))
}

/// The text of the last submission from `input_sample`.
pub open spec fn last_submitted(acts: Seq<ActionView>) -> Option<Seq<char>>
    decreases acts.len(),
{
    if acts.len() == 0 {
        None
    } else {
        match acts.last() {
            ActionView::TextSubmitted(id, t) if id == "input_sample"@ => Some(t),
            _ => last_submitted(acts.drop_last()),
        }
    }
}

/// The index of the last selection made in `dropdown`.
pub open spec fn last_selected(acts: Seq<ActionView>) -> Option<nat>
    decreases acts.len(),
{
    if acts.len() == 0 {
        None
    } else {
        match acts.last() {
            ActionView::ValueSelected(id, i) if id == "dropdown"@ => Some(i),
            _ => last_selected(acts.drop_last()),
        }
    }
}

/// The text of the counter's label.
pub open spec fn label_text(c: nat) -> Seq<char> {
    "Label: "@ + decimal(c)
}

/// The text of the echo label.
pub open spec fn input_text(t: Seq<char>) -> Seq<char> {
    "Input: "@ + t
}

pub open spec fn is_target(o: Option<usize>, k: int) -> bool {
    o matches Some(x) && x == k
}

pub open spec fn redraw_of(nodes: Seq<WidgetNode>, o: Option<usize>, when: bool) -> Set<usize> {
    match o {
        Some(n) => if when {
            redraw_set(nodes, n)
        } else {
            Set::empty()
        },
        None => Set::empty(),
    }
}

/// `new` differs from `old` only in the text of the nodes `label1` and
/// `label_input` and in the selection of the node `dropdown`.
#[verifier::opaque]
pub open spec fn display_only_of(
    label1: Option<usize>,
    label_input: Option<usize>,
    dropdown: Option<usize>,
    old: Seq<WidgetNode>,
    new: Seq<WidgetNode>,
) -> bool {
    &&& new.len() == old.len()
    &&& forall|k: int|
        0 <= k < new.len() ==> if is_target(label1, k) || is_target(label_input, k) {
            #[trigger] new[k] == old[k].with_text(new[k].text)
        } else if is_target(dropdown, k) {
            new[k] == old[k].with_selected(new[k].selected)
        } else {
            new[k] == old[k]
        }
}

pub fn names(id: &String, name: &str) -> (r: bool)
    ensures
        r == (id@ == name@),
{
    *id == String::from_str(name)
}

/// The application state: the widget tree, the counter, and the nodes that
/// the handlers drive, located once when the application is set up.
pub struct App {
    pub ui: WidgetTree,
    pub counter: usize,
    /// The text last submitted from `input_sample`.
    pub last_text: String,
    pub label1: Option<usize>,
    pub label_input: Option<usize>,
    pub dropdown: Option<usize>,
}

impl App {
    pub open spec fn wf(&self) -> bool {
        &&& self.ui.wf()
        &&& self.label1 matches Some(n) ==> n < self.ui.nodes@.len()
        &&& self.label_input matches Some(n) ==> n < self.ui.nodes@.len()
        &&& self.dropdown matches Some(n) ==> n < self.ui.nodes@.len()
        &&& self.label1 is Some && self.label_input is Some ==> self.label1 != self.label_input
        &&& self.label1 is Some && self.dropdown is Some ==> self.label1 != self.dropdown
        &&& self.label_input is Some && self.dropdown is Some ==> self.label_input != self.dropdown
    }

    /// `new` differs from `old` only in the display fields of the driven nodes.
    pub open spec fn display_only(&self, old: Seq<WidgetNode>, new: Seq<WidgetNode>) -> bool {
        display_only_of(self.label1, self.label_input, self.dropdown, old, new)
    }

    /// Sets the application up over a tree, locating the driven nodes at
    /// `button_view.label1`, `input_view.label_input` and
    /// `dropdown_view.my_dropdown.dropdown`.
    pub fn new(ui: WidgetTree) -> (r: App)
        requires
            ui.wf(),
        ensures
            r.wf(),
            r.ui == ui,
            r.counter == 0,
            r.last_text@.len() == 0,
            r.label1 == crate::tree::find_from(ui.nodes@, 0, seq!["button_view"@, "label1"@]),
            r.label_input == crate::tree::find_from(
                ui.nodes@,
                0,
                seq!["input_view"@, "label_input"@],
            ),
            r.dropdown == crate::tree::find_from(
                ui.nodes@,
                0,
                seq!["dropdown_view"@, "my_dropdown"@, "dropdown"@],
            ),
    {
        let label1_path = vec![String::from_str("button_view"), String::from_str("label1")];
        let input_path = vec![String::from_str("input_view"), String::from_str("label_input")];
        let dropdown_path = vec![
            String::from_str("dropdown_view"),
            String::from_str("my_dropdown"),
            String::from_str("dropdown"),
        ];
        assert(label1_path@.map_values(|s: String| s@) =~= seq!["button_view"@, "label1"@]);
        assert(input_path@.map_values(|s: String| s@) =~= seq!["input_view"@, "label_input"@]);
        assert(dropdown_path@.map_values(|s: String| s@) =~= seq![
            "dropdown_view"@,
            "my_dropdown"@,
            "dropdown"@,
        ]);
        let label1 = ui.find(&label1_path);
        let label_input = ui.find(&input_path);
        let dropdown = ui.find(&dropdown_path);
        proof {
            reveal_strlit("label1");
            reveal_strlit("label_input");
            reveal_strlit("dropdown");
            assert(label1_path@.last()@ == "label1"@);
            assert(input_path@.last()@ == "label_input"@);
            assert(dropdown_path@.last()@ == "dropdown"@);
            assert("label1"@.len() == 6);
            assert("label_input"@.len() == 11);
            assert("dropdown"@.len() == 8);
        }
        App { ui, counter: 0, last_text: String::new(), label1, label_input, dropdown }
    }

    /// Replaces the whole tree at once (after its design source changed)
    /// and locates the driven nodes in it again; the counter is kept.
    pub fn rebuild(&mut self, ui: WidgetTree)
        requires
            ui.wf(),
        ensures
            final(self).wf(),
            final(self).ui == ui,
            final(self).counter == old(self).counter,
            final(self).last_text == old(self).last_text,
            final(self).label1 == crate::tree::find_from(ui.nodes@, 0, seq!["button_view"@, "label1"@]),
            final(self).label_input == crate::tree::find_from(
                ui.nodes@,
                0,
                seq!["input_view"@, "label_input"@],
            ),
            final(self).dropdown == crate::tree::find_from(
                ui.nodes@,
                0,
                seq!["dropdown_view"@, "my_dropdown"@, "dropdown"@],
            ),
    {
        let counter = self.counter;
        let last_text = self.last_text.clone();
        *self = App::new(ui);
        self.counter = counter;
        self.last_text = last_text;
    }

    /// Rebuilds from a tree whose every node's style must resolve against
    /// `constants`: all or nothing. Where some node's style refers to an
    /// undefined constant, the error names it (for the first such node in
    /// index order) and the application is left as it was.
    pub fn try_rebuild(&mut self, ui: WidgetTree, constants: &ConstantTable) -> (r: Result<(), StyleError>)
        requires
            ui.wf(),
            forall|k: int| 0 <= k < ui.nodes@.len() ==> #[trigger] ui.nodes@[k].style.wf(),
        ensures
            r is Ok <==> forall|k: int| 0 <= k < ui.nodes@.len() ==> all_defined(
                #[trigger] cascaded(ui.nodes@, k as usize),
                constants@,
            ),
            r is Err ==> *final(self) == *old(self),
            r matches Err(StyleError::UndefinedConstant(n)) ==> exists|k: int|
                0 <= k < ui.nodes@.len() && (forall|j: int| 0 <= j < k ==> all_defined(#[trigger] cascaded(ui.nodes@, j as usize), constants@))
                    && first_undefined(#[trigger] cascaded_entries(ui.nodes@, k as usize), constants@) == Some(n@),
            r is Ok ==> {
                &&& final(self).wf()
                &&& final(self).ui == ui
                &&& final(self).counter == old(self).counter
                &&& final(self).last_text == old(self).last_text
                &&& final(self).label1 == crate::tree::find_from(ui.nodes@, 0, seq!["button_view"@, "label1"@])
                &&& final(self).label_input == crate::tree::find_from(ui.nodes@, 0, seq!["input_view"@, "label_input"@])
                &&& final(self).dropdown == crate::tree::find_from(ui.nodes@, 0, seq!["dropdown_view"@, "my_dropdown"@, "dropdown"@])
            },
    {
        let mut k: usize = 0;
        while k < ui.len()
            invariant
                ui.wf(),
                k <= ui.nodes@.len(),
                forall|i: int| 0 <= i < ui.nodes@.len() ==> #[trigger] ui.nodes@[i].style.wf(),
                forall|j: int| 0 <= j < k ==> all_defined(#[trigger] cascaded(ui.nodes@, j as usize), constants@),
            decreases ui.nodes@.len() - k,
        {
            match ui.resolved_style(k, constants) {
                Ok(_) => {},
                Err(e) => {
                    return Err(e);
                },
            }
            k = k + 1;
        }
        self.rebuild(ui);
        Ok(())
    }

    /// Applies one action.
    pub fn handle(&mut self, a: &Action, dirty: &mut DirtySet)
        requires
            old(self).wf(),
            old(dirty).ids@.no_duplicates(),
        ensures
            final(self).wf(),
            final(self).label1 == old(self).label1,
            final(self).label_input == old(self).label_input,
            final(self).dropdown == old(self).dropdown,
            old(self).display_only(old(self).ui.nodes@, final(self).ui.nodes@),
            final(self).counter == counter_step(old(self).counter as nat, a@),
            final(self).last_text@ == match last_submitted(seq![a@]) {
                Some(t) => t,
                None => old(self).last_text@,
            },
            final(self).label1 matches Some(l) ==> final(self).ui.nodes@[l as int].text@ == if touches_counter(a@) {
                label_text(final(self).counter as nat)
            } else {
                old(self).ui.nodes@[l as int].text@
            },
            final(self).label_input matches Some(l) ==> final(self).ui.nodes@[l as int].text@ == match last_submitted(seq![a@]) {
                Some(t) => input_text(t),
                None => old(self).ui.nodes@[l as int].text@,
            },
            final(self).dropdown matches Some(d) ==> final(self).ui.nodes@[d as int].selected as nat == match last_selected(seq![a@]) {
                Some(i) => i,
                None => old(self).ui.nodes@[d as int].selected as nat,
            },
            final(dirty).ids@.no_duplicates(),
            final(dirty).ids@.to_set() == old(dirty).ids@.to_set()
                + redraw_of(old(self).ui.nodes@, old(self).label1, touches_counter(a@))
                + redraw_of(old(self).ui.nodes@, old(self).label_input, last_submitted(seq![a@]) is Some)
                + redraw_of(old(self).ui.nodes@, old(self).dropdown, last_selected(seq![a@]) is Some),
    {
        let ghost s = seq![a@];
        assert(s.drop_last() =~= Seq::<ActionView>::empty());
        assert(s.last() == a@);
        assert(last_submitted(Seq::<ActionView>::empty()) is None);
        assert(last_selected(Seq::<ActionView>::empty()) is None);
        assert(last_submitted(s) == match a@ {
            ActionView::TextSubmitted(id, t) if id == "input_sample"@ => Some(t),
            _ => None,
        });
        assert(last_selected(s) == match a@ {
            ActionView::ValueSelected(id, i) if id == "dropdown"@ => Some(i),
            _ => None,
        });
        let ghost before = self.ui.nodes@;
        match a {
            Action::Clicked { id } => {
                let b1 = names(id, "button1");
                let b2 = names(id, "button2");
                if b1 || b2 {
                    if b1 {
                        if self.counter < usize::MAX {
                            self.counter = self.counter + 1;
                        }
                    } else if self.counter >= 1 {
                        self.counter = self.counter - 1;
                    }
                    match self.label1 {
                        Some(l) => {
                            let t = with_number("Label: ", self.counter);
                            self.ui.set_text_and_redraw(l, t, dirty);
                            proof {
                                lemma_display_only_text(self.label1, self.label_input, self.dropdown, before, l, t);
                            }
                        },
                        None => {},
                    }
                }
            },
            Action::TextSubmitted { id, text } => {
                if names(id, "input_sample") {
                    self.last_text = text.clone();
                    match self.label_input {
                        Some(l) => {
                            let t = joined("Input: ", text);
                            self.ui.set_text_and_redraw(l, t, dirty);
                            proof {
                                lemma_display_only_text(self.label1, self.label_input, self.dropdown, before, l, t);
                            }
                        },
                        None => {},
                    }
                }
            },
            Action::ValueSelected { id, index } => {
                if names(id, "dropdown") {
                    match self.dropdown {
                        Some(d) => {
                            self.ui.set_selected(d, *index);
                            proof {
                                crate::tree::lemma_redraw_set_frame(before, self.ui.nodes@, d);
                                lemma_display_only_selected(self.label1, self.label_input, self.dropdown, before, d, *index);
                            }
                            self.ui.mark_redraw(d, dirty);
                        },
                        None => {},
                    }
                }
            },
        }
        proof {
            if self.ui.nodes@ == before {
                lemma_display_only_refl(self.label1, self.label_input, self.dropdown, before);
            }
        }
        assert(dirty.ids@.to_set() =~= old(dirty).ids@.to_set()
            + redraw_of(before, self.label1, touches_counter(a@))
            + redraw_of(before, self.label_input, last_submitted(s) is Some)
            + redraw_of(before, self.dropdown, last_selected(s) is Some));
    }

    /// Applies a pass of actions in arrival order and returns the nodes to
    /// redraw, each once.
    #[verifier::rlimit(80)]
    pub fn reconcile(&mut self, actions: &Vec<Action>) -> (dirty: DirtySet)
        requires
            old(self).wf(),
        ensures
            final(self).wf(),
            final(self).label1 == old(self).label1,
            final(self).label_input == old(self).label_input,
            final(self).dropdown == old(self).dropdown,
            old(self).display_only(old(self).ui.nodes@, final(self).ui.nodes@),
            final(self).counter == counter_after(old(self).counter as nat, actions_view(actions@)),
            final(self).last_text@ == match last_submitted(actions_view(actions@)) {
                Some(t) => t,
                None => old(self).last_text@,
            },
            final(self).label1 matches Some(l) ==> final(self).ui.nodes@[l as int].text@ == if any_counter_click(actions_view(actions@)) {
                label_text(final(self).counter as nat)
            } else {
                old(self).ui.nodes@[l as int].text@
            },
            final(self).label_input matches Some(l) ==> final(self).ui.nodes@[l as int].text@ == match last_submitted(actions_view(actions@)) {
                Some(t) => input_text(t),
                None => old(self).ui.nodes@[l as int].text@,
            },
            final(self).dropdown matches Some(d) ==> final(self).ui.nodes@[d as int].selected as nat == match last_selected(actions_view(actions@)) {
                Some(i) => i,
                None => old(self).ui.nodes@[d as int].selected as nat,
            },
            dirty.ids@.no_duplicates(),
            dirty.ids@.to_set() == pass_redraw(
                old(self).ui.nodes@,
                old(self).label1,
                old(self).label_input,
                old(self).dropdown,
                actions_view(actions@),
            ),
    {
        let ghost acts = actions_view(actions@);
        let ghost start = self.ui.nodes@;
        let mut dirty = DirtySet::new();
        let mut i: usize = 0;
        assert(acts.take(0) =~= Seq::<ActionView>::empty());
        assert(dirty.ids@.to_set() =~= pass_redraw(start, self.label1, self.label_input, self.dropdown, acts.take(0)));
        assert(self.display_only(start, start)) by {
            reveal(display_only_of);
        }
        while i < actions.len()
            invariant
                self.wf(),
                i <= actions@.len(),
                acts == actions_view(actions@),
                self.label1 == old(self).label1,
                self.label_input == old(self).label_input,
                self.dropdown == old(self).dropdown,
                start == old(self).ui.nodes@,
                self.display_only(start, self.ui.nodes@),
                self.counter == counter_after(old(self).counter as nat, acts.take(i as int)),
                self.last_text@ == match last_submitted(acts.take(i as int)) {
                    Some(t) => t,
                    None => old(self).last_text@,
                },
                self.label1 matches Some(l) ==> self.ui.nodes@[l as int].text@ == if any_counter_click(acts.take(i as int)) {
                    label_text(self.counter as nat)
                } else {
                    start[l as int].text@
                },
                self.label_input matches Some(l) ==> self.ui.nodes@[l as int].text@ == match last_submitted(acts.take(i as int)) {
                    Some(t) => input_text(t),
                    None => start[l as int].text@,
                },
                self.dropdown matches Some(d) ==> self.ui.nodes@[d as int].selected as nat == match last_selected(acts.take(i as int)) {
                    Some(x) => x,
                    None => start[d as int].selected as nat,
                },
                dirty.ids@.no_duplicates(),
                dirty.ids@.to_set() == pass_redraw(start, self.label1, self.label_input, self.dropdown, acts.take(i as int)),
            decreases actions@.len() - i,
        {
            let ghost mid = self.ui.nodes@;
            let ghost pre = acts.take(i as int);
            let ghost post = acts.take(i + 1);
            assert(post.drop_last() =~= pre);
            assert(post.last() == actions@[i as int]@);
            self.handle(&actions[i], &mut dirty);
            proof {
                let a = actions@[i as int]@;
                let s1 = seq![a];
                assert(s1.drop_last() =~= Seq::<ActionView>::empty());
                assert(last_submitted(Seq::<ActionView>::empty()) is None);
                assert(last_selected(Seq::<ActionView>::empty()) is None);
                lemma_display_only_trans(*self, start, mid, self.ui.nodes@);
                lemma_display_only_frame(*self, start, mid);
                if let Some(l) = self.label1 {
                    crate::tree::lemma_redraw_set_frame(start, mid, l);
                }
                if let Some(l) = self.label_input {
                    crate::tree::lemma_redraw_set_frame(start, mid, l);
                }
                if let Some(l) = self.dropdown {
                    crate::tree::lemma_redraw_set_frame(start, mid, l);
                }
                assert(dirty.ids@.to_set() =~= pass_redraw(start, self.label1, self.label_input, self.dropdown, post));
            }
            i = i + 1;
        }
        assert(acts.take(i as int) =~= acts);
        dirty
    }
}

/// Which way a data binding copies values.
#[derive(Clone, Copy, PartialEq, Eq, Structural, Debug)]
pub enum BindDirection {
    /// From the widgets into the data store.
    WidgetsToData,
    /// From the data store into the widgets.
    DataToWidgets,
}

impl App {
    /// Binds the data key `my_dropdown` to the dropdown widget. Towards the
    /// data, the selection is written when the pass selected an entry in the
    /// dropdown; towards the widget, a stored value that differs from the
    /// selection replaces it, and the dropdown is marked for redraw.
    pub fn data_bind(
        &mut self,
        direction: BindDirection,
        actions: &Vec<Action>,
        store: &mut NameTable<usize>,
        dirty: &mut DirtySet,
    )
        requires
            old(self).wf(),
            old(dirty).ids@.no_duplicates(),
        ensures
            final(self).wf(),
            final(self).counter == old(self).counter,
            final(self).last_text == old(self).last_text,
            final(self).label1 == old(self).label1,
            final(self).label_input == old(self).label_input,
            final(self).dropdown == old(self).dropdown,
            old(self).display_only(old(self).ui.nodes@, final(self).ui.nodes@),
            final(dirty).ids@.no_duplicates(),
            match (direction, old(self).dropdown) {
                (BindDirection::WidgetsToData, Some(d)) => {
                    &&& final(store)@ == store_after(old(store)@, old(self).dropdown, actions_view(actions@))
                    &&& final(self).ui.nodes@ == old(self).ui.nodes@
                    &&& final(dirty).ids@ == old(dirty).ids@
                },
                (BindDirection::DataToWidgets, Some(d)) => {
                    &&& final(store)@ == old(store)@
                    &&& if store_differs(old(store)@, old(self).ui.nodes@[d as int].selected) {
                        &&& final(self).ui.nodes@ == old(self).ui.nodes@.update(
                            d as int,
                            old(self).ui.nodes@[d as int].with_selected(old(store)@["my_dropdown"@]),
                        )
                        &&& final(dirty).ids@.to_set() == old(dirty).ids@.to_set() + redraw_set(old(self).ui.nodes@, d)
                    } else {
                        &&& final(self).ui.nodes@ == old(self).ui.nodes@
                        &&& final(dirty).ids@ == old(dirty).ids@
                    }
                },
                (_, None) => {
                    &&& final(store)@ == old(store)@
                    &&& final(self).ui.nodes@ == old(self).ui.nodes@
                    &&& final(dirty).ids@ == old(dirty).ids@
                },
            },
    {
        let ghost before = self.ui.nodes@;
        match self.dropdown {
            Some(d) => match direction {
                BindDirection::WidgetsToData => {
                    match pass_selection(actions) {
                        Some(v) => store.define(String::from_str("my_dropdown"), v),
                        None => {},
                    }
                    proof {
                        lemma_display_only_refl(self.label1, self.label_input, self.dropdown, before);
                    }
                },
                BindDirection::DataToWidgets => {
                    let cur = self.ui.nodes[d].selected;
                    match store.lookup(&String::from_str("my_dropdown")) {
                        Some(v) => {
                            if v != cur {
                                self.ui.set_selected(d, v);
                                proof {
                                    crate::tree::lemma_redraw_set_frame(before, self.ui.nodes@, d);
                                    lemma_display_only_selected(self.label1, self.label_input, self.dropdown, before, d, v);
                                }
                                self.ui.mark_redraw(d, dirty);
                            } else {
                                proof {
                                    lemma_display_only_refl(self.label1, self.label_input, self.dropdown, before);
                                }
                            }
                        },
                        None => {
                            proof {
                                lemma_display_only_refl(self.label1, self.label_input, self.dropdown, before);
                            }
                        },
                    }
                },
            },
            None => {
                proof {
                    lemma_display_only_refl(self.label1, self.label_input, self.dropdown, before);
                }
            },
        }
    }

    /// Binds the dropdown's selection both ways: into the store, then back
    /// into the widget.
    pub fn sync_dropdown(&mut self, actions: &Vec<Action>, store: &mut NameTable<usize>, dirty: &mut DirtySet)
        requires
            old(self).wf(),
            old(dirty).ids@.no_duplicates(),
        ensures
            final(self).wf(),
            final(self).counter == old(self).counter,
            final(self).last_text == old(self).last_text,
            final(self).label1 == old(self).label1,
            final(self).label_input == old(self).label_input,
            final(self).dropdown == old(self).dropdown,
            final(dirty).ids@.no_duplicates(),
            final(store)@ == store_after(old(store)@, old(self).dropdown, actions_view(actions@)),
            pulls(old(store)@, old(self).dropdown, old(self).ui.nodes@, Seq::empty(), actions_view(actions@)) ==> {
                let d = old(self).dropdown->Some_0;
                &&& final(self).ui.nodes@ == old(self).ui.nodes@.update(
                    d as int,
                    old(self).ui.nodes@[d as int].with_selected(final(store)@["my_dropdown"@]),
                )
                &&& final(dirty).ids@.to_set() == old(dirty).ids@.to_set() + redraw_set(old(self).ui.nodes@, d)
            },
            !pulls(old(store)@, old(self).dropdown, old(self).ui.nodes@, Seq::empty(), actions_view(actions@)) ==> {
                &&& final(self).ui.nodes@ == old(self).ui.nodes@
                &&& final(dirty).ids@ == old(dirty).ids@
            },
    {
        proof {
            assert(last_selected(Seq::<ActionView>::empty()) is None);
        }
        self.data_bind(BindDirection::WidgetsToData, actions, store, dirty);
        self.data_bind(BindDirection::DataToWidgets, actions, store, dirty);
    }

    /// Handles a pass of actions: the handler table, then the data binding
    /// both ways. Returns the nodes to redraw, each once.
    #[verifier::rlimit(80)]
    #[verifier::spinoff_prover]
    pub fn handle_actions(&mut self, actions: &Vec<Action>, store: &mut NameTable<usize>) -> (dirty: DirtySet)
        requires
            old(self).wf(),
        ensures
            final(self).wf(),
            final(self).label1 == old(self).label1,
            final(self).label_input == old(self).label_input,
            final(self).dropdown == old(self).dropdown,
            old(self).display_only(old(self).ui.nodes@, final(self).ui.nodes@),
            final(self).counter == counter_after(old(self).counter as nat, actions_view(actions@)),
            final(self).last_text@ == match last_submitted(actions_view(actions@)) {
                Some(t) => t,
                None => old(self).last_text@,
            },
            final(self).label1 matches Some(l) ==> final(self).ui.nodes@[l as int].text@ == if any_counter_click(actions_view(actions@)) {
                label_text(final(self).counter as nat)
            } else {
                old(self).ui.nodes@[l as int].text@
            },
            final(self).label_input matches Some(l) ==> final(self).ui.nodes@[l as int].text@ == match last_submitted(actions_view(actions@)) {
                Some(t) => input_text(t),
                None => old(self).ui.nodes@[l as int].text@,
            },
            final(store)@ == store_after(old(store)@, old(self).dropdown, actions_view(actions@)),
            final(self).dropdown matches Some(d) ==> final(self).ui.nodes@[d as int].selected == dropdown_after(
                old(store)@,
                old(self).dropdown,
                old(self).ui.nodes@,
                actions_view(actions@),
            ),
            dirty.ids@.no_duplicates(),
            dirty.ids@.to_set() == pass_redraw(
                old(self).ui.nodes@,
                old(self).label1,
                old(self).label_input,
                old(self).dropdown,
                actions_view(actions@),
            ) + redraw_of(
                old(self).ui.nodes@,
                old(self).dropdown,
                pulls(old(store)@, old(self).dropdown, old(self).ui.nodes@, actions_view(actions@), actions_view(actions@)),
            ),
    {
        let ghost start = self.ui.nodes@;
        let ghost acts = actions_view(actions@);
        let mut dirty = self.reconcile(actions);
        let ghost mid = self.ui.nodes@;
        proof {
            lemma_display_only_frame(*self, start, mid);
            if let Some(d) = self.dropdown {
                crate::tree::lemma_redraw_set_frame(start, mid, d);
                assert(mid[d as int].selected == selection_after(start[d as int].selected, acts));
            }
        }
        self.sync_dropdown(actions, store, &mut dirty);
        proof {
            if let Some(d) = self.dropdown {
                if pulls(old(store)@, self.dropdown, mid, Seq::empty(), acts) {
                    lemma_display_only_selected(self.label1, self.label_input, self.dropdown, mid, d, store@["my_dropdown"@]);
                } else {
                    lemma_display_only_refl(self.label1, self.label_input, self.dropdown, mid);
                }
            } else {
                lemma_display_only_refl(self.label1, self.label_input, self.dropdown, mid);
            }
            lemma_display_only_trans(*self, start, mid, self.ui.nodes@);
            assert(dirty.ids@.to_set() =~= pass_redraw(start, self.label1, self.label_input, self.dropdown, acts)
                + redraw_of(start, self.dropdown, pulls(old(store)@, self.dropdown, start, acts, acts)));
        }
        dirty
    }

    /// Delivers an input event to node `target` and handles the action it
    /// completes, if any, in the same pass.
    #[verifier::rlimit(80)]
    #[verifier::spinoff_prover]
    pub fn handle_event(&mut self, target: usize, ev: &RawEvent, store: &mut NameTable<usize>) -> (dirty: DirtySet)
        requires
            old(self).wf(),
            target < old(self).ui.nodes@.len(),
        ensures
            final(self).wf(),
            final(self).label1 == old(self).label1,
            final(self).label_input == old(self).label_input,
            final(self).dropdown == old(self).dropdown,
            final(self).ui.nodes@.len() == old(self).ui.nodes@.len(),
            final(self).ui.nodes@[target as int].interaction@ == step(old(self).ui.nodes@[target as int].interaction@, *ev).0,
            old(self).display_only(
                old(self).ui.nodes@.update(
                    target as int,
                    old(self).ui.nodes@[target as int].with_interaction(final(self).ui.nodes@[target as int].interaction),
                ),
                final(self).ui.nodes@,
            ),
            final(self).counter == counter_after(
                old(self).counter as nat,
                emitted(old(self).ui.nodes@[target as int], *ev),
            ),
            final(self).last_text@ == match last_submitted(emitted(old(self).ui.nodes@[target as int], *ev)) {
                Some(t) => t,
                None => old(self).last_text@,
            },
            final(self).label1 matches Some(l) ==> final(self).ui.nodes@[l as int].text@ == if any_counter_click(emitted(old(self).ui.nodes@[target as int], *ev)) {
                label_text(final(self).counter as nat)
            } else {
                old(self).ui.nodes@[l as int].text@
            },
            final(self).label_input matches Some(l) ==> final(self).ui.nodes@[l as int].text@ == match last_submitted(emitted(old(self).ui.nodes@[target as int], *ev)) {
                Some(t) => input_text(t),
                None => old(self).ui.nodes@[l as int].text@,
            },
            final(store)@ == store_after(old(store)@, old(self).dropdown, emitted(old(self).ui.nodes@[target as int], *ev)),
            final(self).dropdown matches Some(d) ==> final(self).ui.nodes@[d as int].selected == dropdown_after(
                old(store)@,
                old(self).dropdown,
                old(self).ui.nodes@,
                emitted(old(self).ui.nodes@[target as int], *ev),
            ),
            dirty.ids@.no_duplicates(),
            dirty.ids@.to_set() == pass_redraw(
                old(self).ui.nodes@,
                old(self).label1,
                old(self).label_input,
                old(self).dropdown,
                emitted(old(self).ui.nodes@[target as int], *ev),
            ) + redraw_of(
                old(self).ui.nodes@,
                old(self).dropdown,
                pulls(
                    old(store)@,
                    old(self).dropdown,
                    old(self).ui.nodes@,
                    emitted(old(self).ui.nodes@[target as int], *ev),
                    emitted(old(self).ui.nodes@[target as int], *ev),
                ),
            ),
    {
        let ghost start = self.ui.nodes@;
        let a = self.ui.feed(target, ev);
        let ghost fed = self.ui.nodes@;
        let mut actions: Vec<Action> = Vec::new();
        match a {
            Some(a) => actions.push(a),
            None => {},
        }
        let ghost em = emitted(start[target as int], *ev);
        assert(actions_view(actions@) =~= em);
        proof {
            assert(fed =~= start.update(target as int, start[target as int].with_interaction(fed[target as int].interaction)));
            assert(forall|k: int| 0 <= k < fed.len() ==> #[trigger] fed[k].parent == start[k].parent && fed[k].fit == start[k].fit
                && fed[k].text == start[k].text && fed[k].selected == start[k].selected);
            if let Some(l) = self.label1 {
                crate::tree::lemma_redraw_set_frame(start, fed, l);
            }
            if let Some(l) = self.label_input {
                crate::tree::lemma_redraw_set_frame(start, fed, l);
            }
            if let Some(l) = self.dropdown {
                crate::tree::lemma_redraw_set_frame(start, fed, l);
            }
        }
        let dirty = self.handle_actions(&actions, store);
        proof {
            lemma_display_only_frame(*self, fed, self.ui.nodes@);
            let fin = self.ui.nodes@;
            assert(fin[target as int].parent == fed[target as int].parent);
            assert(fin[target as int].interaction == fed[target as int].interaction);
            assert(start.update(target as int, start[target as int].with_interaction(fin[target as int].interaction)) =~= fed);
            assert(pass_redraw(fed, self.label1, self.label_input, self.dropdown, em) == pass_redraw(
                start, self.label1, self.label_input, self.dropdown, em));
            assert(store_after(old(store)@, self.dropdown, em) == store_after(old(store)@, self.dropdown, em));
            assert(pulls(old(store)@, self.dropdown, fed, em, em) == pulls(old(store)@, self.dropdown, start, em, em));
            assert(redraw_of(fed, self.dropdown, pulls(old(store)@, self.dropdown, start, em, em)) == redraw_of(
                start, self.dropdown, pulls(old(store)@, self.dropdown, start, em, em)));
        }
        dirty
    }
}

/// The index of the pass's last selection in `dropdown`, if any.
pub fn pass_selection(actions: &Vec<Action>) -> (r: Option<usize>)
    ensures
        r.is_some() == last_selected(actions_view(actions@)) is Some,
        r matches Some(v) ==> v as nat == last_selected(actions_view(actions@))->Some_0,
{
    let ghost acts = actions_view(actions@);
    let mut found: Option<usize> = None;
    let mut i: usize = 0;
    assert(acts.take(0) =~= Seq::<ActionView>::empty());
    while i < actions.len()
        invariant
            i <= actions@.len(),
            acts == actions_view(actions@),
            found.is_some() == last_selected(acts.take(i as int)) is Some,
            found matches Some(v) ==> v as nat == last_selected(acts.take(i as int))->Some_0,
        decreases actions@.len() - i,
    {
        assert(acts.take(i + 1).drop_last() =~= acts.take(i as int));
        assert(acts.take(i + 1).last() == actions@[i as int]@);
        match &actions[i] {
            Action::ValueSelected { id, index } => {
                if names(id, "dropdown") {
                    found = Some(*index);
                }
            },
            _ => {},
        }
        i = i + 1;
    }
    assert(acts.take(i as int) =~= acts);
    found
}

/// The dropdown's selection once the pass's actions are applied.
pub open spec fn selection_after(old_sel: usize, acts: Seq<ActionView>) -> usize {
    match last_selected(acts) {
        Some(i) => i as usize,
        None => old_sel,
    }
}

/// The store after the widgets-to-data binding: the index of the pass's
/// last selection in the dropdown is written, when there is one.
pub open spec fn store_after(
    store: Map<Seq<char>, usize>,
    dropdown: Option<usize>,
    acts: Seq<ActionView>,
) -> Map<Seq<char>, usize> {
    match last_selected(acts) {
        Some(i) => if dropdown is Some {
            store.insert("my_dropdown"@, i as usize)
        } else {
            store
        },
        None => store,
    }
}

/// The store holds a value for the dropdown other than `sel`.
pub open spec fn store_differs(store: Map<Seq<char>, usize>, sel: usize) -> bool {
    store.contains_key("my_dropdown"@) && store["my_dropdown"@] != sel
}

/// The binding back to the widget changes the dropdown's selection.
pub open spec fn pulls(
    store: Map<Seq<char>, usize>,
    dropdown: Option<usize>,
    nodes: Seq<WidgetNode>,
    handled: Seq<ActionView>,
    bound: Seq<ActionView>,
) -> bool {
    match dropdown {
        Some(d) => store_differs(
            store_after(store, dropdown, bound),
            selection_after(nodes[d as int].selected, handled),
        ),
        None => false,
    }
}

/// The dropdown's selection at the end of a pass.
pub open spec fn dropdown_after(
    store: Map<Seq<char>, usize>,
    dropdown: Option<usize>,
    nodes: Seq<WidgetNode>,
    acts: Seq<ActionView>,
) -> usize {
    if pulls(store, dropdown, nodes, acts, acts) {
        store_after(store, dropdown, acts)["my_dropdown"@]
    } else {
        selection_after(nodes[dropdown->Some_0 as int].selected, acts)
    }
}

proof fn lemma_display_only_trans(app: App, a: Seq<WidgetNode>, b: Seq<WidgetNode>, c: Seq<WidgetNode>)
    requires
        app.display_only(a, b),
        app.display_only(b, c),
    ensures
        app.display_only(a, c),
{
    reveal(display_only_of);
    assert forall|k: int| 0 <= k < c.len() implies if is_target(app.label1, k) || is_target(app.label_input, k) {
        #[trigger] c[k] == a[k].with_text(c[k].text)
    } else if is_target(app.dropdown, k) {
        c[k] == a[k].with_selected(c[k].selected)
    } else {
        c[k] == a[k]
    } by {
        assert(b[k] == b[k]);
    }
}

proof fn lemma_display_only_refl(
    label1: Option<usize>,
    label_input: Option<usize>,
    dropdown: Option<usize>,
    a: Seq<WidgetNode>,
)
    ensures
        display_only_of(label1, label_input, dropdown, a, a),
{
    reveal(display_only_of);
    assert forall|k: int| 0 <= k < a.len() implies (if is_target(label1, k) || is_target(label_input, k) {
        #[trigger] a[k] == a[k].with_text(a[k].text)
    } else if is_target(dropdown, k) {
        a[k] == a[k].with_selected(a[k].selected)
    } else {
        a[k] == a[k]
    }) by {}
}

proof fn lemma_display_only_text(
    label1: Option<usize>,
    label_input: Option<usize>,
    dropdown: Option<usize>,
    a: Seq<WidgetNode>,
    l: usize,
    t: String,
)
    requires
        0 <= l < a.len(),
        label1 == Some(l) || label_input == Some(l),
        label1 is Some && label_input is Some ==> label1 != label_input,
        label1 is Some && dropdown is Some ==> label1 != dropdown,
        label_input is Some && dropdown is Some ==> label_input != dropdown,
    ensures
        display_only_of(label1, label_input, dropdown, a, a.update(l as int, a[l as int].with_text(t))),
{
    reveal(display_only_of);
    let b = a.update(l as int, a[l as int].with_text(t));
    assert forall|k: int| 0 <= k < b.len() implies (if is_target(label1, k) || is_target(label_input, k) {
        #[trigger] b[k] == a[k].with_text(b[k].text)
    } else if is_target(dropdown, k) {
        b[k] == a[k].with_selected(b[k].selected)
    } else {
        b[k] == a[k]
    }) by {}
}

proof fn lemma_display_only_selected(
    label1: Option<usize>,
    label_input: Option<usize>,
    dropdown: Option<usize>,
    a: Seq<WidgetNode>,
    d: usize,
    i: usize,
)
    requires
        0 <= d < a.len(),
        dropdown == Some(d),
        label1 is Some && dropdown is Some ==> label1 != dropdown,
        label_input is Some && dropdown is Some ==> label_input != dropdown,
    ensures
        display_only_of(label1, label_input, dropdown, a, a.update(d as int, a[d as int].with_selected(i))),
{
    reveal(display_only_of);
    let b = a.update(d as int, a[d as int].with_selected(i));
    assert forall|k: int| 0 <= k < b.len() implies (if is_target(label1, k) || is_target(label_input, k) {
        #[trigger] b[k] == a[k].with_text(b[k].text)
    } else if is_target(dropdown, k) {
        b[k] == a[k].with_selected(b[k].selected)
    } else {
        b[k] == a[k]
    }) by {}
}

proof fn lemma_display_only_frame(app: App, a: Seq<WidgetNode>, b: Seq<WidgetNode>)
    requires
        app.display_only(a, b),
    ensures
        b.len() == a.len(),
        forall|k: int| 0 <= k < b.len() ==> #[trigger] b[k].parent == a[k].parent && b[k].fit == a[k].fit
            && b[k].id == a[k].id && b[k].children == a[k].children && b[k].interaction == a[k].interaction,
{
    reveal(display_only_of);
    assert forall|k: int| 0 <= k < b.len() implies #[trigger] b[k].parent == a[k].parent && b[k].fit == a[k].fit
        && b[k].id == a[k].id && b[k].children == a[k].children && b[k].interaction == a[k].interaction by {
        assert(b[k] == b[k]);
    }
}

/// The actions that one event yields at a node.
pub open spec fn emitted(node: WidgetNode, ev: RawEvent) -> Seq<ActionView> {
    match step(node.interaction@, ev).1 {
        Some(g) => seq![addressed(node.id@, g)],
        None => Seq::empty(),
    }
}

pub open spec fn actions_view(s: Seq<Action>) -> Seq<ActionView> {
    s.map_values(|a: Action| a@)
}

/// The nodes that a pass of actions sends to redraw.
pub open spec fn pass_redraw(
    nodes: Seq<WidgetNode>,
    label1: Option<usize>,
    label_input: Option<usize>,
    dropdown: Option<usize>,
    acts: Seq<ActionView>,
) -> Set<usize> {
    redraw_of(nodes, label1, any_counter_click(acts)) + redraw_of(
        nodes,
        label_input,
        last_submitted(acts) is Some,
    ) + redraw_of(nodes, dropdown, last_selected(acts) is Some)
}

} // verus!
