use ui_core::app::{App, BindDirection};
use ui_core::input::{translate, translate_all, Action, ButtonState, Interaction, RawEvent};
use ui_core::style::{merge, resolve, ConstantTable, StyleError, StyleRecord, StyleValue};
use ui_core::table::NameTable;
use ui_core::text::with_number;
use ui_core::tree::{DirtySet, NodeKind, TreeError, WidgetTree};

fn path(segments: &[&str]) -> Vec<String> {
    segments.iter().map(|s| s.to_string()).collect()
}

fn number(r: &StyleRecord, p: &[&str]) -> Option<i64> {
    match r.get(&path(p)) {
        Some(StyleValue::Number(n)) => Some(*n),
        _ => None,
    }
}

/// root
/// ├── button_view: button1, label1, button2
/// ├── input_view: label_input, input_sample
/// └── dropdown_view: label_dropdown, my_dropdown: label, dropdown
fn sample_tree() -> WidgetTree {
    let mut t = WidgetTree::new("ui".to_string(), NodeKind::Container, StyleRecord::new());
    let add = |t: &mut WidgetTree, parent: usize, id: &str, kind: NodeKind, inter: Interaction, fit: bool| {
        t.insert_child(parent, id.to_string(), kind, StyleRecord::new(), inter, fit).unwrap()
    };
    let bv = add(&mut t, 0, "button_view", NodeKind::Container, Interaction::Inert, true);
    add(&mut t, bv, "button1", NodeKind::Button, Interaction::Button(ButtonState::Idle), false);
    add(&mut t, bv, "label1", NodeKind::Label, Interaction::Inert, false);
    add(&mut t, bv, "button2", NodeKind::Button, Interaction::Button(ButtonState::Idle), false);
    let iv = add(&mut t, 0, "input_view", NodeKind::Container, Interaction::Inert, false);
    add(&mut t, iv, "label_input", NodeKind::Label, Interaction::Inert, false);
    add(&mut t, iv, "input_sample", NodeKind::TextInput, Interaction::TextInput(String::new()), false);
    let dv = add(&mut t, 0, "dropdown_view", NodeKind::Container, Interaction::Inert, false);
    add(&mut t, dv, "label_dropdown", NodeKind::Label, Interaction::Inert, false);
    let md = add(&mut t, dv, "my_dropdown", NodeKind::Container, Interaction::Inert, true);
    add(&mut t, md, "label", NodeKind::Label, Interaction::Inert, false);
    add(&mut t, md, "dropdown", NodeKind::Dropdown, Interaction::Dropdown { open: false, entries: 4 }, false);
    t
}

fn clicked(id: &str) -> Action {
    Action::Clicked { id: id.to_string() }
}

#[test]
fn overrides_on_disjoint_keys_commute() {
    let mut base = StyleRecord::new();
    base.set(path(&["width"]), StyleValue::Number(100));
    base.set(path(&["padding", "top"]), StyleValue::Number(4));
    base.set(path(&["color"]), StyleValue::Color(0xffffff00));
    let mut o1 = StyleRecord::new();
    o1.set(path(&["padding", "top"]), StyleValue::Constant("SPACING".to_string()));
    let mut o2 = StyleRecord::new();
    o2.set(path(&["width"]), StyleValue::Number(7));
    o2.set(path(&["padding", "left"]), StyleValue::Number(2));
    let mut c = ConstantTable::new();
    c.define("SPACING".to_string(), 8);

    let a = resolve(&resolve(&base, &o1, &c).unwrap(), &o2, &c).unwrap();
    let b = resolve(&resolve(&base, &o2, &c).unwrap(), &o1, &c).unwrap();
    for p in [&["width"][..], &["padding", "top"][..], &["padding", "left"][..]] {
        assert_eq!(number(&a, p), number(&b, p));
    }
    assert_eq!(a.len(), b.len());
    assert_eq!(number(&a, &["width"]), Some(7));
    assert_eq!(number(&a, &["padding", "top"]), Some(8));
    assert_eq!(number(&a, &["padding", "left"]), Some(2));
    assert!(matches!(a.get(&path(&["color"])), Some(StyleValue::Color(0xffffff00))));
}

#[test]
fn nested_records_merge_key_by_key() {
    let mut base = StyleRecord::new();
    base.set(path(&["padding", "top"]), StyleValue::Number(1));
    base.set(path(&["padding", "left"]), StyleValue::Number(2));
    let mut over = StyleRecord::new();
    over.set(path(&["padding", "top"]), StyleValue::Number(5));
    let r = merge(&base, &over);
    assert_eq!(number(&r, &["padding", "top"]), Some(5));
    assert_eq!(number(&r, &["padding", "left"]), Some(2));
    assert_eq!(r.len(), 2);
}

#[test]
fn scalar_override_replaces_whole_record() {
    let mut base = StyleRecord::new();
    base.set(path(&["padding", "top"]), StyleValue::Number(1));
    base.set(path(&["padding", "left"]), StyleValue::Number(2));
    base.set(path(&["width"]), StyleValue::Keyword("Fill".to_string()));
    let mut over = StyleRecord::new();
    over.set(path(&["padding"]), StyleValue::Number(3));
    let r = merge(&base, &over);
    assert_eq!(number(&r, &["padding"]), Some(3));
    assert_eq!(number(&r, &["padding", "top"]), None);
    assert_eq!(number(&r, &["padding", "left"]), None);
    assert!(matches!(r.get(&path(&["width"])), Some(StyleValue::Keyword(k)) if k == "Fill"));
    assert_eq!(r.len(), 2);
}

#[test]
fn undefined_constant_fails_resolution() {
    let base = StyleRecord::new();
    let mut over = StyleRecord::new();
    over.set(path(&["spacing"]), StyleValue::Constant("SSPACING_9".to_string()));
    let mut c = ConstantTable::new();
    c.define("SSPACING_1".to_string(), 4);
    match resolve(&base, &over, &c) {
        Err(StyleError::UndefinedConstant(n)) => assert_eq!(n, "SSPACING_9"),
        Ok(_) => panic!("resolution should fail"),
    }
}

#[test]
fn later_constant_definition_wins() {
    let mut c: NameTable<i64> = NameTable::new();
    c.define("A".to_string(), 1);
    c.define("A".to_string(), 2);
    assert_eq!(c.lookup(&"A".to_string()), Some(2));
    assert_eq!(c.lookup(&"B".to_string()), None);
}

#[test]
fn dropdown_click_then_select_emits_one_selection() {
    let mut st = Interaction::Dropdown { open: false, entries: 4 };
    let acts = translate_all(&mut st, &"dropdown".to_string(), &vec![RawEvent::Click, RawEvent::SelectEntry(2)]);
    assert_eq!(acts.len(), 1);
    assert!(matches!(&acts[0], Action::ValueSelected { id, index: 2 } if id == "dropdown"));
    assert!(matches!(st, Interaction::Dropdown { open: false, entries: 4 }));
}

#[test]
fn dropdown_selection_while_closed_is_ignored() {
    let mut st = Interaction::Dropdown { open: false, entries: 4 };
    let acts = translate_all(&mut st, &"dropdown".to_string(), &vec![RawEvent::SelectEntry(1)]);
    assert!(acts.is_empty());
    let acts = translate_all(&mut st, &"dropdown".to_string(), &vec![RawEvent::Click, RawEvent::SelectEntry(4)]);
    assert!(acts.is_empty());
    assert!(matches!(st, Interaction::Dropdown { open: true, .. }));
}

#[test]
fn button_drag_off_cancels() {
    let mut st = Interaction::Button(ButtonState::Idle);
    let evs = vec![
        RawEvent::PointerDown { over: true },
        RawEvent::PointerMove { over: false },
        RawEvent::PointerUp { over: false },
    ];
    let acts = translate_all(&mut st, &"button1".to_string(), &evs);
    assert!(acts.is_empty());
    assert!(matches!(st, Interaction::Button(ButtonState::Idle)));
}

#[test]
fn button_press_and_release_over_clicks() {
    let mut st = Interaction::Button(ButtonState::Idle);
    let evs = vec![
        RawEvent::PointerMove { over: true },
        RawEvent::PointerDown { over: true },
        RawEvent::PointerUp { over: true },
    ];
    let acts = translate_all(&mut st, &"button1".to_string(), &evs);
    assert_eq!(acts.len(), 1);
    assert!(matches!(&acts[0], Action::Clicked { id } if id == "button1"));
    assert!(matches!(st, Interaction::Button(ButtonState::Hovered)));
}

#[test]
fn release_without_press_is_ignored() {
    let mut st = Interaction::Button(ButtonState::Hovered);
    let r = translate(&mut st, &"b".to_string(), &RawEvent::PointerUp { over: true });
    assert!(r.is_none());
    assert!(matches!(st, Interaction::Button(ButtonState::Hovered)));
}

#[test]
fn text_input_submits_buffer_and_keeps_it() {
    let mut st = Interaction::TextInput(String::new());
    let evs = vec![RawEvent::Char('h'), RawEvent::Char('i'), RawEvent::Enter, RawEvent::Char('!')];
    let acts = translate_all(&mut st, &"input_sample".to_string(), &evs);
    assert_eq!(acts.len(), 1);
    assert!(matches!(&acts[0], Action::TextSubmitted { id, text } if id == "input_sample" && text == "hi"));
    assert!(matches!(&st, Interaction::TextInput(t) if t == "hi!"));
}

#[test]
fn counter_scenario() {
    let mut app = App::new(sample_tree());
    let l = app.label1.expect("label1 is in the tree");
    let dirty = app.reconcile(&vec![clicked("button1")]);
    assert_eq!(app.counter, 1);
    assert_eq!(app.ui.node(l).text, "Label: 1");
    assert!(dirty.contains(l));

    let mut app = App::new(sample_tree());
    app.reconcile(&vec![clicked("button2")]);
    assert_eq!(app.counter, 0);
    assert_eq!(app.ui.node(l).text, "Label: 0");
}

#[test]
fn counter_follows_clicks_in_order() {
    let mut app = App::new(sample_tree());
    let l = app.label1.unwrap();
    let acts = vec![clicked("button1"), clicked("button1"), clicked("button2"), clicked("button1"), clicked("other")];
    app.reconcile(&acts);
    assert_eq!(app.counter, 2);
    assert_eq!(app.ui.node(l).text, "Label: 2");
}

#[test]
fn unknown_widget_actions_are_ignored() {
    let mut app = App::new(sample_tree());
    let l = app.label1.unwrap();
    let dirty = app.reconcile(&vec![clicked("nothing"), Action::ValueSelected { id: "other".to_string(), index: 1 }]);
    assert_eq!(app.counter, 0);
    assert_eq!(app.ui.node(l).text, "");
    assert_eq!(dirty.len(), 0);
}

#[test]
fn redraw_marks_fit_ancestors_once() {
    let mut app = App::new(sample_tree());
    let l = app.label1.unwrap();
    let bv = app.ui.find(&path(&["button_view"])).unwrap();
    let dirty = app.reconcile(&vec![clicked("button1"), clicked("button1")]);
    assert_eq!(dirty.len(), 2);
    assert!(dirty.contains(l));
    assert!(dirty.contains(bv));
    assert!(!dirty.contains(0));
}

#[test]
fn submitted_text_is_echoed() {
    let mut app = App::new(sample_tree());
    let l = app.label_input.unwrap();
    app.reconcile(&vec![Action::TextSubmitted { id: "input_sample".to_string(), text: "abc".to_string() }]);
    assert_eq!(app.ui.node(l).text, "Input: abc");
    assert_eq!(app.last_text, "abc");
    app.reconcile(&vec![Action::TextSubmitted { id: "elsewhere".to_string(), text: "x".to_string() }]);
    assert_eq!(app.last_text, "abc");
}

#[test]
fn dropdown_selection_is_bound_to_data() {
    let mut app = App::new(sample_tree());
    let d = app.dropdown.unwrap();
    let mut store: NameTable<usize> = NameTable::new();
    let dirty = app.handle_actions(&vec![Action::ValueSelected { id: "dropdown".to_string(), index: 3 }], &mut store);
    assert_eq!(app.ui.node(d).selected, 3);
    assert_eq!(store.lookup(&"my_dropdown".to_string()), Some(3));
    assert!(dirty.contains(d));
}

#[test]
fn data_to_widgets_sets_selection() {
    let mut app = App::new(sample_tree());
    let d = app.dropdown.unwrap();
    let mut store: NameTable<usize> = NameTable::new();
    store.define("my_dropdown".to_string(), 2);
    let mut dirty = DirtySet::new();
    app.data_bind(BindDirection::DataToWidgets, &vec![], &mut store, &mut dirty);
    assert_eq!(app.ui.node(d).selected, 2);
    assert!(dirty.contains(d));
    // the same value again changes nothing and marks nothing
    let mut again = DirtySet::new();
    app.data_bind(BindDirection::DataToWidgets, &vec![], &mut store, &mut again);
    assert_eq!(again.len(), 0);
}

#[test]
fn widgets_to_data_writes_only_after_a_selection() {
    let mut app = App::new(sample_tree());
    let mut store: NameTable<usize> = NameTable::new();
    let mut dirty = DirtySet::new();
    app.data_bind(BindDirection::WidgetsToData, &vec![clicked("button1")], &mut store, &mut dirty);
    assert_eq!(store.lookup(&"my_dropdown".to_string()), None);
    let sel = vec![Action::ValueSelected { id: "dropdown".to_string(), index: 1 }];
    app.data_bind(BindDirection::WidgetsToData, &sel, &mut store, &mut dirty);
    // the index carried by the selection, not the widget's current one
    assert_eq!(store.lookup(&"my_dropdown".to_string()), Some(1));
    assert_eq!(app.ui.node(app.dropdown.unwrap()).selected, 0);
    assert_eq!(dirty.len(), 0);
}

#[test]
fn events_reach_the_counter() {
    let mut app = App::new(sample_tree());
    let b = app.ui.find(&path(&["button_view", "button1"])).unwrap();
    let l = app.label1.unwrap();
    let mut store: NameTable<usize> = NameTable::new();
    app.handle_event(b, &RawEvent::PointerDown { over: true }, &mut store);
    app.handle_event(b, &RawEvent::PointerUp { over: true }, &mut store);
    assert_eq!(app.counter, 1);
    assert_eq!(app.ui.node(l).text, "Label: 1");
}

#[test]
fn marking_twice_lists_node_once() {
    let mut d = DirtySet::new();
    d.mark(5);
    d.mark(5);
    assert_eq!(d.len(), 1);
    assert_eq!(d.ids, vec![5]);
}

#[test]
fn path_lookup_finds_nested_node() {
    let t = sample_tree();
    let n = t.find(&path(&["dropdown_view", "my_dropdown", "dropdown"])).expect("present");
    assert_eq!(t.node(n).id, "dropdown");
    let md = t.find(&path(&["dropdown_view", "my_dropdown"])).unwrap();
    assert_eq!(t.child(md, &"dropdown".to_string()), Some(n));
    assert_eq!(t.find(&path(&["missing"])), None);
    assert_eq!(t.find(&path(&["dropdown_view", "dropdown"])), None);
    assert_eq!(t.find(&path(&[])), Some(0));
}

#[test]
fn insert_rejects_bad_parent_and_duplicate_id() {
    let mut t = WidgetTree::new("root".to_string(), NodeKind::Container, StyleRecord::new());
    let a = t.insert_child(0, "a".to_string(), NodeKind::Label, StyleRecord::new(), Interaction::Inert, false);
    assert_eq!(a, Ok(1));
    let dup = t.insert_child(0, "a".to_string(), NodeKind::Label, StyleRecord::new(), Interaction::Inert, false);
    assert_eq!(dup, Err(TreeError::DuplicateId));
    let bad = t.insert_child(7, "b".to_string(), NodeKind::Label, StyleRecord::new(), Interaction::Inert, false);
    assert_eq!(bad, Err(TreeError::NoSuchParent));
    assert_eq!(t.len(), 2);
    // the same identifier is fine under another parent
    assert_eq!(t.insert_child(1, "a".to_string(), NodeKind::Label, StyleRecord::new(), Interaction::Inert, false), Ok(2));
}

#[test]
fn numbers_render_in_decimal() {
    assert_eq!(with_number("Label: ", 0), "Label: 0");
    assert_eq!(with_number("Label: ", 1234), "Label: 1234");
    assert_eq!(with_number("", usize::MAX), usize::MAX.to_string());
}

#[test]
fn node_style_cascades_from_ancestors() {
    let mut root_style = StyleRecord::new();
    root_style.set(path(&["font_size"]), StyleValue::Constant("FONT_SIZE_H2".to_string()));
    root_style.set(path(&["padding", "top"]), StyleValue::Number(4));
    let mut t = WidgetTree::new("ui".to_string(), NodeKind::Container, root_style);
    let mut mid_style = StyleRecord::new();
    mid_style.set(path(&["padding", "left"]), StyleValue::Number(8));
    let mid = t.insert_child(0, "view".to_string(), NodeKind::Container, mid_style, Interaction::Inert, false).unwrap();
    let mut leaf_style = StyleRecord::new();
    leaf_style.set(path(&["padding", "top"]), StyleValue::Number(1));
    let leaf = t.insert_child(mid, "label".to_string(), NodeKind::Label, leaf_style, Interaction::Inert, false).unwrap();

    let s = t.cascaded_style(leaf);
    assert_eq!(number(&s, &["padding", "top"]), Some(1));
    assert_eq!(number(&s, &["padding", "left"]), Some(8));
    assert_eq!(s.len(), 3);

    let mut c = ConstantTable::new();
    assert!(matches!(t.resolved_style(leaf, &c), Err(StyleError::UndefinedConstant(n)) if n == "FONT_SIZE_H2"));
    c.define("FONT_SIZE_H2".to_string(), 9);
    let r = t.resolved_style(leaf, &c).unwrap();
    assert_eq!(number(&r, &["font_size"]), Some(9));
    // a sibling subtree is not affected by the leaf's own override
    assert_eq!(number(&t.resolved_style(mid, &c).unwrap(), &["padding", "top"]), Some(4));
}

#[test]
fn rebuild_keeps_counter_and_relocates_nodes() {
    let mut app = App::new(sample_tree());
    app.reconcile(&vec![clicked("button1"), clicked("button1")]);
    let mut t = WidgetTree::new("ui".to_string(), NodeKind::Container, StyleRecord::new());
    let bv = t.insert_child(0, "button_view".to_string(), NodeKind::Container, StyleRecord::new(), Interaction::Inert, false).unwrap();
    let l = t.insert_child(bv, "label1".to_string(), NodeKind::Label, StyleRecord::new(), Interaction::Inert, false).unwrap();
    app.rebuild(t);
    assert_eq!(app.counter, 2);
    assert_eq!(app.label1, Some(l));
    assert_eq!(app.label_input, None);
    assert_eq!(app.dropdown, None);
    app.reconcile(&vec![clicked("button2")]);
    assert_eq!(app.ui.node(l).text, "Label: 1");
}

#[test]
fn unknown_actions_change_nothing_in_a_full_pass() {
    let mut app = App::new(sample_tree());
    let mut store: NameTable<usize> = NameTable::new();
    let acts = vec![clicked("nothing"), Action::ValueSelected { id: "other".to_string(), index: 1 }];
    let dirty = app.handle_actions(&acts, &mut store);
    assert_eq!(dirty.len(), 0);
    assert_eq!(store.lookup(&"my_dropdown".to_string()), None);
    assert_eq!(app.counter, 0);
    let empty = app.handle_actions(&vec![], &mut store);
    assert_eq!(empty.len(), 0);
}

#[test]
fn dropdown_events_through_the_app() {
    let mut app = App::new(sample_tree());
    let d = app.dropdown.unwrap();
    let mut store: NameTable<usize> = NameTable::new();
    let first = app.handle_event(d, &RawEvent::Click, &mut store);
    assert_eq!(first.len(), 0);
    assert!(matches!(app.ui.node(d).interaction, Interaction::Dropdown { open: true, .. }));
    let second = app.handle_event(d, &RawEvent::SelectEntry(2), &mut store);
    assert_eq!(app.ui.node(d).selected, 2);
    assert_eq!(store.lookup(&"my_dropdown".to_string()), Some(2));
    assert!(second.contains(d));
    assert!(matches!(app.ui.node(d).interaction, Interaction::Dropdown { open: false, .. }));
}

#[test]
fn button_drag_off_through_the_app() {
    let mut app = App::new(sample_tree());
    let b = app.ui.find(&path(&["button_view", "button1"])).unwrap();
    let l = app.label1.unwrap();
    let mut store: NameTable<usize> = NameTable::new();
    for ev in [RawEvent::PointerMove { over: true }, RawEvent::PointerDown { over: true }, RawEvent::PointerMove { over: false }, RawEvent::PointerUp { over: false }] {
        let dirty = app.handle_event(b, &ev, &mut store);
        assert_eq!(dirty.len(), 0);
    }
    assert_eq!(app.counter, 0);
    assert_eq!(app.ui.node(l).text, "");
    assert!(matches!(app.ui.node(b).interaction, Interaction::Button(ButtonState::Idle)));
}

#[test]
fn typed_text_is_submitted_through_the_app() {
    let mut app = App::new(sample_tree());
    let t = app.ui.find(&path(&["input_view", "input_sample"])).unwrap();
    let l = app.label_input.unwrap();
    let mut store: NameTable<usize> = NameTable::new();
    for c in ['o', 'k'] {
        app.handle_event(t, &RawEvent::Char(c), &mut store);
    }
    let dirty = app.handle_event(t, &RawEvent::Enter, &mut store);
    assert_eq!(app.ui.node(l).text, "Input: ok");
    assert!(dirty.contains(l));
    assert!(matches!(&app.ui.node(t).interaction, Interaction::TextInput(b) if b == "ok"));
}

#[test]
fn failed_rebuild_keeps_the_active_tree() {
    let mut app = App::new(sample_tree());
    app.reconcile(&vec![clicked("button1")]);
    let before = app.ui.len();
    let mut bad_style = StyleRecord::new();
    bad_style.set(path(&["spacing"]), StyleValue::Constant("SSPACING_1".to_string()));
    let mut t = WidgetTree::new("ui".to_string(), NodeKind::Container, StyleRecord::new());
    let bv = t.insert_child(0, "button_view".to_string(), NodeKind::Container, bad_style, Interaction::Inert, false).unwrap();
    t.insert_child(bv, "label1".to_string(), NodeKind::Label, StyleRecord::new(), Interaction::Inert, false).unwrap();
    let c = ConstantTable::new();
    match app.try_rebuild(t, &c) {
        Err(StyleError::UndefinedConstant(n)) => assert_eq!(n, "SSPACING_1"),
        Ok(()) => panic!("rebuild should fail"),
    }
    assert_eq!(app.ui.len(), before);
    assert_eq!(app.counter, 1);
    assert_eq!(app.ui.node(app.label1.unwrap()).text, "Label: 1");
}

#[test]
fn valid_rebuild_replaces_the_tree() {
    let mut app = App::new(sample_tree());
    let mut style = StyleRecord::new();
    style.set(path(&["spacing"]), StyleValue::Constant("SSPACING_1".to_string()));
    let mut t = WidgetTree::new("ui".to_string(), NodeKind::Container, style);
    let bv = t.insert_child(0, "button_view".to_string(), NodeKind::Container, StyleRecord::new(), Interaction::Inert, false).unwrap();
    let l = t.insert_child(bv, "label1".to_string(), NodeKind::Label, StyleRecord::new(), Interaction::Inert, false).unwrap();
    let mut c = ConstantTable::new();
    c.define("SSPACING_1".to_string(), 4);
    assert!(app.try_rebuild(t, &c).is_ok());
    assert_eq!(app.ui.len(), 3);
    assert_eq!(app.label1, Some(l));
}

#[test]
fn node_ids_list_parents_first() {
    let t = sample_tree();
    let ids = t.node_ids();
    assert_eq!(ids.len(), t.len());
    for (pos, &n) in ids.iter().enumerate() {
        if let Some(p) = t.node(n).parent {
            assert!(ids[..pos].contains(&p));
        }
    }
}

#[test]
fn inserting_keeps_the_parent_as_it_was() {
    let mut t = WidgetTree::new("root".to_string(), NodeKind::Container, StyleRecord::new());
    let a = t.insert_child(0, "a".to_string(), NodeKind::Label, StyleRecord::new(), Interaction::Inert, true).unwrap();
    t.set_text(a, "hello".to_string());
    t.insert_child(a, "b".to_string(), NodeKind::Label, StyleRecord::new(), Interaction::Inert, false).unwrap();
    assert_eq!(t.node(a).text, "hello");
    assert!(t.node(a).fit);
    assert_eq!(t.node(a).children, vec![2]);
    assert_eq!(t.find(&path(&["a", "b"])), Some(2));
}
