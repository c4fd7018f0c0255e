//! The widget tree: an arena of named nodes, looked up by paths of
//! identifiers, and the set of nodes marked for redraw in one pass.
use crate::input::{addressed, opt_view, step, translate, Action, ActionView, Interaction, RawEvent};
use crate::style::{cascade, entries_view, merge, surviving, ConstantTable, PathModel, PropValue, StyleError, StyleRecord};
use vstd::prelude::*;

verus! {

/// The kind of a widget.
#[derive(Clone, Copy, PartialEq, Eq, Structural, Debug)]
pub enum NodeKind {
    Container,
    Button,
    Label,
    TextInput,
    Dropdown,
    Slide,
}

/// A node of the tree. Nodes live in the tree's arena and refer to each
/// other by index.
pub struct WidgetNode {
    /// Identifier, unique among the node's siblings.
    pub id: String,
    pub kind: NodeKind,
    pub parent: Option<usize>,
    pub children: Vec<usize>,
    pub style: StyleRecord,
    /// Displayed text.
    pub text: String,
    /// Selected entry, for a dropdown.
    pub selected: usize,
    /// Whether the node's size follows its children's (a redraw of a child
    /// then also redraws it).
    pub fit: bool,
    pub interaction: Interaction,
}

/// A widget tree; the node at index 0 is the root.
pub struct WidgetTree {
    pub nodes: Vec<WidgetNode>,
}

/// Why a node could not be inserted.
#[derive(Clone, Copy, PartialEq, Eq, Structural, Debug)]
pub enum TreeError {
    /// The parent index names no node.
    NoSuchParent,
    /// The parent already has a child with that identifier.
    DuplicateId,
}

/// Structural well-formedness of an arena.
pub open spec fn nodes_wf(nodes: Seq<WidgetNode>) -> bool {
    &&& nodes.len() >= 1
    &&& nodes[0].parent is None
    &&& forall|i: int|
        0 < i < nodes.len() ==> (#[trigger] nodes[i].parent matches Some(p) && p < i
            && nodes[p as int].children@.contains(i as usize))
    &&& forall|i: int, k: int|
        0 <= i < nodes.len() && 0 <= k < nodes[i].children@.len() ==> i < #[trigger] nodes[i].children@[k]
            < nodes.len() && nodes[nodes[i].children@[k] as int].parent == Some(i as usize)
    &&& forall|i: int, a: int, b: int|
        0 <= i < nodes.len() && 0 <= a < b < nodes[i].children@.len() ==> nodes[#[trigger] nodes[i].children@[a] as int].id@
            != nodes[#[trigger] nodes[i].children@[b] as int].id@
}

/// The first of `kids` whose identifier is `name`.
pub open spec fn child_named(nodes: Seq<WidgetNode>, kids: Seq<usize>, name: Seq<char>) -> Option<
    usize,
>
    decreases kids.len(),
{
    if kids.len() == 0 {
        None
    } else if kids[0] < nodes.len() && nodes[kids[0] as int].id@ == name {
        Some(kids[0])
    } else {
        child_named(nodes, kids.drop_first(), name)
    }
}

/// The node reached from `cur` by following `path` downward, one identifier
/// per level.
pub open spec fn find_from(nodes: Seq<WidgetNode>, cur: usize, path: Seq<Seq<char>>) -> Option<usize>
    decreases path.len(),
{
    if path.len() == 0 {
        Some(cur)
    } else if cur < nodes.len() {
        match child_named(nodes, nodes[cur as int].children@, path[0]) {
            Some(c) => find_from(nodes, c, path.drop_first()),
            None => None,
        }
    } else {
        None
    }
}

/// The style of node `n` after cascading its own record onto its parent's
/// cascaded style, from the root down.
pub open spec fn cascaded(nodes: Seq<WidgetNode>, n: usize) -> Map<PathModel, PropValue>
    decreases n,
{
    if n < nodes.len() {
        match nodes[n as int].parent {
            Some(p) => if p < n {
                cascade(cascaded(nodes, p), nodes[n as int].style@)
            } else {
                nodes[n as int].style@
            },
            None => nodes[n as int].style@,
        }
    } else {
        Map::empty()
    }
}

/// The properties of `cascaded(nodes, n)` in the order the cascade lists them:
/// the node's own first, then the surviving ones of its parent's.
pub open spec fn cascaded_entries(nodes: Seq<WidgetNode>, n: usize) -> Seq<(PathModel, PropValue)>
    decreases n,
{
    if n < nodes.len() {
        match nodes[n as int].parent {
            Some(p) => if p < n {
                entries_view(nodes[n as int].style.entries@) + surviving(
                    cascaded_entries(nodes, p),
                    nodes[n as int].style@,
                )
            } else {
                entries_view(nodes[n as int].style.entries@)
            },
            None => entries_view(nodes[n as int].style.entries@),
        }
    } else {
        Seq::empty()
    }
}

/// The nodes that a change of node `n` sends to redraw: `n`, and each
/// ancestor reached through parents whose size follows their children.
pub open spec fn redraw_set(nodes: Seq<WidgetNode>, n: usize) -> Set<usize>
    decreases n,
{
    if n < nodes.len() {
        match nodes[n as int].parent {
            Some(p) => if p < n && nodes[p as int].fit {
                redraw_set(nodes, p).insert(n)
            } else {
                set![n]
            },
            None => set![n],
        }
    } else {
        set![n]
    }
}

impl WidgetTree {
    pub open spec fn wf(&self) -> bool {
        nodes_wf(self.nodes@)
    }

    /// A tree holding only its root.
    pub fn new(root_id: String, kind: NodeKind, style: StyleRecord) -> (r: WidgetTree)
        ensures
            r.wf(),
            r.nodes@.len() == 1,
            r.nodes@[0].id@ == root_id@,
            r.nodes@[0].kind == kind,
            r.nodes@[0].style == style,
            r.nodes@[0].parent is None,
            r.nodes@[0].children@.len() == 0,
            r.nodes@[0].text@.len() == 0,
            r.nodes@[0].selected == 0,
            !r.nodes@[0].fit,
            r.nodes@[0].interaction@ == crate::input::InteractionView::Inert,
    {
        let root = WidgetNode {
            id: root_id,
            kind,
            parent: None,
            children: Vec::new(),
            style,
            text: String::new(),
            selected: 0,
            fit: false,
            interaction: Interaction::Inert,
        };
        WidgetTree { nodes: vec![root] }
    }

    pub fn len(&self) -> (r: usize)
        ensures
            r == self.nodes@.len(),
    {
        self.nodes.len()
    }

    pub fn node(&self, n: usize) -> (r: &WidgetNode)
        requires
            n < self.nodes@.len(),
        ensures
            *r == self.nodes@[n as int],
    {
        &self.nodes[n]
    }

    /// The child of `parent` with identifier `name`.
    pub fn child(&self, parent: usize, name: &String) -> (r: Option<usize>)
        requires
            self.wf(),
            parent < self.nodes@.len(),
        ensures
            r == child_named(self.nodes@, self.nodes@[parent as int].children@, name@),
    {
        let kids = &self.nodes[parent].children;
        let ghost ks = kids@;
        let mut i: usize = 0;
        assert(ks.subrange(0, ks.len() as int) =~= ks);
        while i < kids.len()
            invariant
                parent < self.nodes@.len(),
                i <= ks.len(),
                ks == kids@,
                kids@ == self.nodes@[parent as int].children@,
                child_named(self.nodes@, ks, name@) == child_named(
                    self.nodes@,
                    ks.subrange(i as int, ks.len() as int),
                    name@,
                ),
            decreases ks.len() - i,
        {
            assert(ks.subrange(i as int, ks.len() as int).drop_first() =~= ks.subrange(
                i + 1,
                ks.len() as int,
            ));
            let c = kids[i];
            if c < self.nodes.len() && self.nodes[c].id == *name {
                return Some(c);
            }
            i = i + 1;
        }
        None
    }

    /// The node reached from the root by `path`, or `None` where a segment
    /// names no child.
    pub fn find(&self, path: &Vec<String>) -> (r: Option<usize>)
        requires
            self.wf(),
        ensures
            r == find_from(self.nodes@, 0, path@.map_values(|s: String| s@)),
            r matches Some(n) ==> n < self.nodes@.len(),
            r matches Some(n) ==> path@.len() > 0 ==> self.nodes@[n as int].id@ == path@.last()@,
    {
        let ghost pv = path@.map_values(|s: String| s@);
        let mut cur: usize = 0;
        let mut i: usize = 0;
        assert(pv.subrange(0, pv.len() as int) =~= pv);
        while i < path.len()
            invariant
                self.wf(),
                i <= path@.len(),
                cur < self.nodes@.len(),
                i > 0 ==> self.nodes@[cur as int].id@ == path@[i - 1]@,
                pv == path@.map_values(|s: String| s@),
                find_from(self.nodes@, 0, pv) == find_from(
                    self.nodes@,
                    cur,
                    pv.subrange(i as int, pv.len() as int),
                ),
            decreases path@.len() - i,
        {
            let ghost rest = pv.subrange(i as int, pv.len() as int);
            assert(rest.drop_first() =~= pv.subrange(i + 1, pv.len() as int));
            assert(rest[0] == path@[i as int]@);
            match self.child(cur, &path[i]) {
                Some(c) => {
                    proof {
                        lemma_child_named_in(self.nodes@, self.nodes@[cur as int].children@, path@[i as int]@);
                    }
                    cur = c;
                },
                None => {
                    return None;
                },
            }
            i = i + 1;
        }
        assert(pv.subrange(i as int, pv.len() as int) =~= Seq::<Seq<char>>::empty());
        Some(cur)
    }

    /// Adds a node under `parent` and returns its index.
    pub fn insert_child(
        &mut self,
        parent: usize,
        id: String,
        kind: NodeKind,
        style: StyleRecord,
        interaction: Interaction,
        fit: bool,
    ) -> (r: Result<usize, TreeError>)
        requires
            old(self).wf(),
            old(self).nodes@.len() < usize::MAX,
        ensures
            final(self).wf(),
            parent >= old(self).nodes@.len() ==> r == Err::<usize, TreeError>(TreeError::NoSuchParent),
            parent < old(self).nodes@.len() ==> (r == Err::<usize, TreeError>(TreeError::DuplicateId)
                <==> child_named(old(self).nodes@, old(self).nodes@[parent as int].children@, id@) is Some),
            parent < old(self).nodes@.len() && child_named(
                old(self).nodes@,
                old(self).nodes@[parent as int].children@,
                id@,
            ) is None ==> r is Ok,
            r is Err ==> final(self).nodes@ == old(self).nodes@,
            r matches Ok(n) ==> {
                &&& n == old(self).nodes@.len()
                &&& final(self).nodes@.len() == n + 1
                &&& final(self).nodes@[n as int].id@ == id@
                &&& final(self).nodes@[n as int].kind == kind
                &&& final(self).nodes@[n as int].parent == Some(parent)
                &&& final(self).nodes@[n as int].style == style
                &&& final(self).nodes@[n as int].interaction == interaction
                &&& final(self).nodes@[n as int].fit == fit
                &&& final(self).nodes@[n as int].children@.len() == 0
                &&& final(self).nodes@[n as int].text@.len() == 0
                &&& final(self).nodes@[n as int].selected == 0
                &&& final(self).nodes@[parent as int].children@ == old(self).nodes@[parent as int].children@.push(n)
                &&& final(self).nodes@[parent as int] == old(self).nodes@[parent as int].with_children(
                    final(self).nodes@[parent as int].children,
                )
                &&& forall|k: int| 0 <= k < n && k != parent ==> #[trigger] final(self).nodes@[k] == old(self).nodes@[k]
            },
    {
        if parent >= self.nodes.len() {
            return Err(TreeError::NoSuchParent);
        }
        if self.child(parent, &id).is_some() {
            return Err(TreeError::DuplicateId);
        }
        proof {
            lemma_child_named_none(self.nodes@, self.nodes@[parent as int].children@, id@);
        }
        let n = self.nodes.len();
        let node = WidgetNode {
            id,
            kind,
            parent: Some(parent),
            children: Vec::new(),
            style,
            text: String::new(),
            selected: 0,
            fit,
            interaction,
        };
        let ghost before = self.nodes@;
        self.nodes.push(node);
        let ghost mid = self.nodes@;
        self.nodes[parent].children.push(n);
        proof {
            let nodes = self.nodes@;
            assert(nodes.len() == n + 1);
            assert forall|k: int| 0 <= k < n + 1 && k != parent implies #[trigger] nodes[k] == mid[k] by {}
            assert(nodes[parent as int].children@ == before[parent as int].children@.push(n));
            assert forall|i: int| 0 < i < nodes.len() implies (#[trigger] nodes[i].parent matches Some(p) && p < i
                && nodes[p as int].children@.contains(i as usize)) by {
                if i < n {
                    let p = before[i].parent->Some_0;
                    let k = choose|k: int| 0 <= k < before[p as int].children@.len() && before[p as int].children@[k] == i as usize;
                    assert(nodes[p as int].children@[k] == i as usize);
                } else {
                    assert(nodes[parent as int].children@[nodes[parent as int].children@.len() - 1] == n);
                }
            }
            assert forall|i: int, k: int|
                0 <= i < nodes.len() && 0 <= k < nodes[i].children@.len() implies i < #[trigger] nodes[i].children@[k]
                    < nodes.len() && nodes[nodes[i].children@[k] as int].parent == Some(i as usize) by {
                if i != parent {
                    assert(nodes[i] == before[i]);
                } else if k < before[i].children@.len() {
                    assert(nodes[i].children@[k] == before[i].children@[k]);
                }
            }
            assert forall|i: int, a: int, b: int|
                0 <= i < nodes.len() && 0 <= a < b < nodes[i].children@.len() implies nodes[#[trigger] nodes[i].children@[a] as int].id@
                    != nodes[#[trigger] nodes[i].children@[b] as int].id@ by {
                if i != parent {
                    assert(nodes[i] == before[i]);
                    assert(nodes[i].children@[a] < n);
                    assert(nodes[i].children@[b] < n);
                } else {
                    assert(nodes[i].children@[a] == before[i].children@[a]);
                    if b < before[i].children@.len() {
                        assert(nodes[i].children@[b] == before[i].children@[b]);
                    } else {
                        assert(before[i].children@.contains(before[i].children@[a]));
                    }
                }
            }
        }
        Ok(n)
    }
}

/// The nodes marked for redraw in one processing pass, each listed once.
pub struct DirtySet {
    pub ids: Vec<usize>,
}

/// The list after marking `n`: unchanged when `n` is already there.
pub open spec fn marked(s: Seq<usize>, n: usize) -> Seq<usize> {
    if s.contains(n) {
        s
    } else {
        s.push(n)
    }
}

impl DirtySet {
    pub fn new() -> (r: DirtySet)
        ensures
            r.ids@ == Seq::<usize>::empty(),
    {
        DirtySet { ids: Vec::new() }
    }

    pub fn contains(&self, n: usize) -> (r: bool)
        ensures
            r == self.ids@.contains(n),
    {
        let mut i: usize = 0;
        while i < self.ids.len()
            invariant
                i <= self.ids@.len(),
                forall|k: int| 0 <= k < i ==> self.ids@[k] != n,
            decreases self.ids@.len() - i,
        {
            if self.ids[i] == n {
                return true;
            }
            i = i + 1;
        }
        false
    }

    /// Marks node `n` for redraw; marking a node already marked does nothing.
    pub fn mark(&mut self, n: usize)
        ensures
            final(self).ids@ == marked(old(self).ids@, n),
    {
        if !self.contains(n) {
            self.ids.push(n);
        }
    }

    pub fn len(&self) -> (r: usize)
        ensures
            r == self.ids@.len(),
    {
        self.ids.len()
    }
}

/// Marking a node twice in a pass leaves the same list as marking it once,
/// and a list without repeats then holds that node exactly once.
pub proof fn lemma_mark_idempotent(s: Seq<usize>, n: usize)
    requires
        s.no_duplicates(),
    ensures
        marked(marked(s, n), n) == marked(s, n),
        marked(s, n).no_duplicates(),
        exists|i: int|
            0 <= i < marked(s, n).len() && marked(s, n)[i] == n && forall|j: int|
                0 <= j < marked(s, n).len() && #[trigger] marked(s, n)[j] == n ==> j == i,
{
    let m = marked(s, n);
    if !s.contains(n) {
        assert(m.last() == n);
        assert(m.contains(n));
        assert forall|a: int, b: int| 0 <= a < m.len() && 0 <= b < m.len() && a != b implies m[a] != m[b] by {
            if a < s.len() && b < s.len() {
                assert(m[a] == s[a] && m[b] == s[b]);
            } else if a < s.len() {
                assert(m[a] == s[a]);
            } else {
                assert(m[b] == s[b]);
            }
        }
    }
    let i = choose|i: int| 0 <= i < m.len() && m[i] == n;
    assert(0 <= i < m.len() && m[i] == n && forall|j: int| 0 <= j < m.len() && #[trigger] m[j] == n ==> j == i);
}

impl WidgetNode {
    pub open spec fn with_text(self, t: String) -> WidgetNode {
        WidgetNode { text: t, ..self }
    }

    pub open spec fn with_selected(self, i: usize) -> WidgetNode {
        WidgetNode { selected: i, ..self }
    }

    pub open spec fn with_children(self, c: Vec<usize>) -> WidgetNode {
        WidgetNode { children: c, ..self }
    }

    pub open spec fn with_interaction(self, i: Interaction) -> WidgetNode {
        WidgetNode { interaction: i, ..self }
    }
}

impl WidgetTree {
    /// Replaces the text that node `n` displays.
    pub fn set_text(&mut self, n: usize, text: String)
        requires
            old(self).wf(),
            n < old(self).nodes@.len(),
        ensures
            final(self).wf(),
            final(self).nodes@ == old(self).nodes@.update(n as int, old(self).nodes@[n as int].with_text(text)),
    {
        let ghost before = self.nodes@;
        self.nodes[n].text = text;
        assert(self.nodes@ =~= before.update(n as int, before[n as int].with_text(text)));
        assert(nodes_wf(self.nodes@)) by {
            let nodes = self.nodes@;
            assert forall|i: int| 0 <= i < nodes.len() implies #[trigger] nodes[i].id == before[i].id
                && nodes[i].parent == before[i].parent && nodes[i].children == before[i].children by {}
        }
    }

    /// Replaces the entry that node `n` shows as selected.
    pub fn set_selected(&mut self, n: usize, index: usize)
        requires
            old(self).wf(),
            n < old(self).nodes@.len(),
        ensures
            final(self).wf(),
            final(self).nodes@ == old(self).nodes@.update(n as int, old(self).nodes@[n as int].with_selected(index)),
    {
        let ghost before = self.nodes@;
        self.nodes[n].selected = index;
        assert(self.nodes@ =~= before.update(n as int, before[n as int].with_selected(index)));
        assert(nodes_wf(self.nodes@)) by {
            let nodes = self.nodes@;
            assert forall|i: int| 0 <= i < nodes.len() implies #[trigger] nodes[i].id == before[i].id
                && nodes[i].parent == before[i].parent && nodes[i].children == before[i].children by {}
        }
    }

    /// Every node index, in an order that lists each node after its parent.
    pub fn node_ids(&self) -> (r: Vec<usize>)
        requires
            self.wf(),
        ensures
            r@.len() == self.nodes@.len(),
            forall|i: int| 0 <= i < r@.len() ==> #[trigger] r@[i] == i,
            forall|i: int|
                0 < i < r@.len() ==> (#[trigger] self.nodes@[r@[i] as int].parent matches Some(p) && exists|j: int|
                    0 <= j < i && r@[j] == p),
    {
        let mut r: Vec<usize> = Vec::new();
        let mut i: usize = 0;
        while i < self.nodes.len()
            invariant
                i <= self.nodes@.len(),
                r@.len() == i,
                forall|k: int| 0 <= k < i ==> #[trigger] r@[k] == k,
            decreases self.nodes@.len() - i,
        {
            r.push(i);
            i = i + 1;
        }
        assert forall|i: int| 0 < i < r@.len() implies (#[trigger] self.nodes@[r@[i] as int].parent matches Some(p)
            && exists|j: int| 0 <= j < i && r@[j] == p) by {
            let p = self.nodes@[i].parent->Some_0;
            assert(r@[p as int] == p);
        }
        r
    }

    /// Node `n`'s style cascaded through its ancestry.
    pub fn cascaded_style(&self, n: usize) -> (r: StyleRecord)
        requires
            self.wf(),
            n < self.nodes@.len(),
            forall|k: int| 0 <= k < self.nodes@.len() ==> #[trigger] self.nodes@[k].style.wf(),
        ensures
            r.wf(),
            r@ == cascaded(self.nodes@, n),
            entries_view(r.entries@) == cascaded_entries(self.nodes@, n),
        decreases n,
    {
        let own = &self.nodes[n].style;
        match self.nodes[n].parent {
            Some(p) => {
                let up = self.cascaded_style(p);
                merge(&up, own)
            },
            None => {
                let empty = StyleRecord::new();
                assert(entries_view(empty.entries@) =~= Seq::<(PathModel, PropValue)>::empty());
                let r = merge(&empty, own);
                assert(surviving(Seq::<(PathModel, PropValue)>::empty(), own@) =~= Seq::empty());
                assert(entries_view(r.entries@) =~= entries_view(own.entries@));
                r
            },
        }
    }

    /// Node `n`'s style cascaded through its ancestry, with its constant
    /// references replaced by their values.
    pub fn resolved_style(&self, n: usize, constants: &ConstantTable) -> (r: Result<StyleRecord, StyleError>)
        requires
            self.wf(),
            n < self.nodes@.len(),
            forall|k: int| 0 <= k < self.nodes@.len() ==> #[trigger] self.nodes@[k].style.wf(),
        ensures
            r is Ok <==> crate::style::all_defined(cascaded(self.nodes@, n), constants@),
            r matches Ok(out) ==> out.wf() && out@ == crate::style::substituted(cascaded(self.nodes@, n), constants@),
            r matches Err(StyleError::UndefinedConstant(name)) ==> crate::style::first_undefined(
                cascaded_entries(self.nodes@, n),
                constants@,
            ) == Some(name@),
    {
        let c = self.cascaded_style(n);
        c.substitute(constants)
    }

    /// Feeds an input event to node `n`'s state machine; the action it
    /// completes is addressed by the node's identifier.
    pub fn feed(&mut self, n: usize, ev: &RawEvent) -> (r: Option<Action>)
        requires
            old(self).wf(),
            n < old(self).nodes@.len(),
        ensures
            final(self).wf(),
            final(self).nodes@.len() == old(self).nodes@.len(),
            forall|k: int| 0 <= k < old(self).nodes@.len() && k != n ==> #[trigger] final(self).nodes@[k] == old(self).nodes@[k],
            final(self).nodes@[n as int] == old(self).nodes@[n as int].with_interaction(final(self).nodes@[n as int].interaction),
            final(self).nodes@[n as int].interaction@ == step(old(self).nodes@[n as int].interaction@, *ev).0,
            opt_view(r) == match step(old(self).nodes@[n as int].interaction@, *ev).1 {
                Some(g) => Some(addressed(old(self).nodes@[n as int].id@, g)),
                None => None::<ActionView>,
            },
    {
        let ghost before = self.nodes@;
        let node = &mut self.nodes[n];
        let r = translate(&mut node.interaction, &node.id, ev);
        proof {
            let nodes = self.nodes@;
            assert forall|i: int| 0 <= i < nodes.len() implies #[trigger] nodes[i].id == before[i].id
                && nodes[i].parent == before[i].parent && nodes[i].children == before[i].children by {
                if i != n {
                    assert(nodes[i] == before[i]);
                }
            }
            assert(nodes_wf(nodes));
        }
        r
    }

    /// Marks node `n` for redraw, with each ancestor whose size follows its
    /// children's.
    pub fn mark_redraw(&self, n: usize, dirty: &mut DirtySet)
        requires
            self.wf(),
            n < self.nodes@.len(),
        ensures
            final(dirty).ids@.to_set() == old(dirty).ids@.to_set() + redraw_set(self.nodes@, n),
            old(dirty).ids@.no_duplicates() ==> final(dirty).ids@.no_duplicates(),
    {
        let mut cur: usize = n;
        loop
            invariant
                self.wf(),
                cur < self.nodes@.len(),
                dirty.ids@.to_set() + redraw_set(self.nodes@, cur) == old(dirty).ids@.to_set()
                    + redraw_set(self.nodes@, n),
                old(dirty).ids@.no_duplicates() ==> dirty.ids@.no_duplicates(),
            ensures
                dirty.ids@.to_set() == old(dirty).ids@.to_set() + redraw_set(self.nodes@, n),
                old(dirty).ids@.no_duplicates() ==> dirty.ids@.no_duplicates(),
            decreases cur,
        {
            let ghost before = dirty.ids@;
            dirty.mark(cur);
            proof {
                if old(dirty).ids@.no_duplicates() {
                    lemma_mark_idempotent(before, cur);
                }
                assert(dirty.ids@.to_set() =~= before.to_set().insert(cur)) by {
                    if !before.contains(cur) {
                        assert forall|x: usize| dirty.ids@.contains(x) <==> before.contains(x) || x == cur by {
                            if dirty.ids@.contains(x) {
                                let k = choose|k: int| 0 <= k < dirty.ids@.len() && dirty.ids@[k] == x;
                                if k < before.len() {
                                    assert(before[k] == x);
                                }
                            }
                            if before.contains(x) {
                                let k = choose|k: int| 0 <= k < before.len() && before[k] == x;
                                assert(dirty.ids@[k] == x);
                            }
                            if x == cur {
                                assert(dirty.ids@[before.len() as int] == x);
                            }
                        }
                    }
                }
            }
            match self.nodes[cur].parent {
                Some(p) => {
                    if p < cur && self.nodes[p].fit {
                        assert(dirty.ids@.to_set() + redraw_set(self.nodes@, p) =~= before.to_set()
                            + redraw_set(self.nodes@, cur));
                        cur = p;
                    } else {
                        assert(dirty.ids@.to_set() =~= before.to_set() + redraw_set(self.nodes@, cur));
                        break ;
                    }
                },
                None => {
                    assert(dirty.ids@.to_set() =~= before.to_set() + redraw_set(self.nodes@, cur));
                    break ;
                },
            }
        }
    }

    /// Replaces node `n`'s text and marks what must be redrawn.
    pub fn set_text_and_redraw(&mut self, n: usize, text: String, dirty: &mut DirtySet)
        requires
            old(self).wf(),
            n < old(self).nodes@.len(),
        ensures
            final(self).wf(),
            final(self).nodes@ == old(self).nodes@.update(n as int, old(self).nodes@[n as int].with_text(text)),
            final(dirty).ids@.to_set() == old(dirty).ids@.to_set() + redraw_set(old(self).nodes@, n),
            old(dirty).ids@.no_duplicates() ==> final(dirty).ids@.no_duplicates(),
    {
        self.mark_redraw(n, dirty);
        let ghost before = self.nodes@;
        self.set_text(n, text);
        proof {
            lemma_redraw_set_frame(before, self.nodes@, n);
        }
    }
}

/// The redraw set depends only on parents and sizing, which a change of
/// display fields leaves alone.
pub proof fn lemma_redraw_set_frame(a: Seq<WidgetNode>, b: Seq<WidgetNode>, n: usize)
    requires
        a.len() == b.len(),
        forall|i: int| 0 <= i < a.len() ==> #[trigger] a[i].parent == b[i].parent && a[i].fit == b[i].fit,
    ensures
        redraw_set(a, n) == redraw_set(b, n),
    decreases n,
{
    if n < a.len() {
        if let Some(p) = a[n as int].parent {
            if p < n {
                lemma_redraw_set_frame(a, b, p);
            }
        }
    }
}

/// Among siblings with distinct identifiers, the child named `name` is found.
pub proof fn lemma_child_named_unique(nodes: Seq<WidgetNode>, kids: Seq<usize>, name: Seq<char>, c: usize)
    requires
        kids.contains(c),
        c < nodes.len(),
        nodes[c as int].id@ == name,
        forall|k: int| 0 <= k < kids.len() ==> #[trigger] kids[k] < nodes.len(),
        forall|a: int, b: int|
            0 <= a < b < kids.len() ==> nodes[#[trigger] kids[a] as int].id@ != nodes[#[trigger] kids[b] as int].id@,
    ensures
        child_named(nodes, kids, name) == Some(c),
    decreases kids.len(),
{
    let j = choose|j: int| 0 <= j < kids.len() && kids[j] == c;
    if j == 0 {
    } else {
        assert(nodes[kids[0] as int].id@ != nodes[kids[j] as int].id@);
        let rest = kids.drop_first();
        assert(rest[j - 1] == c);
        assert forall|a: int, b: int| 0 <= a < b < rest.len() implies nodes[#[trigger] rest[a] as int].id@
            != nodes[#[trigger] rest[b] as int].id@ by {
            assert(rest[a] == kids[a + 1] && rest[b] == kids[b + 1]);
        }
        assert forall|k: int| 0 <= k < rest.len() implies #[trigger] rest[k] < nodes.len() by {
            assert(rest[k] == kids[k + 1]);
        }
        lemma_child_named_unique(nodes, rest, name, c);
    }
}

/// Where no sibling has identifier `name`, none is found.
pub proof fn lemma_child_named_absent(nodes: Seq<WidgetNode>, kids: Seq<usize>, name: Seq<char>)
    requires
        forall|k: int| 0 <= k < kids.len() && kids[k] < nodes.len() ==> nodes[#[trigger] kids[k] as int].id@ != name,
    ensures
        child_named(nodes, kids, name) is None,
    decreases kids.len(),
{
    if kids.len() > 0 {
        let rest = kids.drop_first();
        assert forall|k: int| 0 <= k < rest.len() && rest[k] < nodes.len() implies nodes[#[trigger] rest[k] as int].id@
            != name by {
            assert(rest[k] == kids[k + 1]);
        }
        lemma_child_named_absent(nodes, rest, name);
    }
}

/// A path of two identifiers leads from the root to the grandchild that
/// carries them, level by level.
pub proof fn lemma_find_nested(nodes: Seq<WidgetNode>, m: usize, n: usize)
    requires
        nodes_wf(nodes),
        nodes[0].children@.contains(m),
        nodes[m as int].children@.contains(n),
    ensures
        find_from(nodes, 0, seq![nodes[m as int].id@, nodes[n as int].id@]) == Some(n),
{
    let path = seq![nodes[m as int].id@, nodes[n as int].id@];
    let k = choose|k: int| 0 <= k < nodes[0].children@.len() && nodes[0].children@[k] == m;
    assert(nodes[0].children@[k] < nodes.len());
    lemma_child_named_unique(nodes, nodes[0].children@, path[0], m);
    let k2 = choose|k: int| 0 <= k < nodes[m as int].children@.len() && nodes[m as int].children@[k] == n;
    assert(nodes[m as int].children@[k2] < nodes.len());
    lemma_child_named_unique(nodes, nodes[m as int].children@, path[1], n);
    assert(path.drop_first() =~= seq![nodes[n as int].id@]);
    assert(path.drop_first().drop_first() =~= Seq::<Seq<char>>::empty());
    assert(find_from(nodes, n, Seq::<Seq<char>>::empty()) == Some(n));
    assert(path.drop_first()[0] == path[1]);
    assert(find_from(nodes, m, path.drop_first()) == Some(n));
}

/// A path whose first identifier names no child of the root leads nowhere.
pub proof fn lemma_find_missing(nodes: Seq<WidgetNode>, path: Seq<Seq<char>>)
    requires
        nodes_wf(nodes),
        path.len() > 0,
        forall|k: int| 0 <= k < nodes[0].children@.len() ==> nodes[#[trigger] nodes[0].children@[k] as int].id@ != path[0],
    ensures
        find_from(nodes, 0, path) is None,
{
    lemma_child_named_absent(nodes, nodes[0].children@, path[0]);
}

proof fn lemma_child_named_in(nodes: Seq<WidgetNode>, kids: Seq<usize>, name: Seq<char>)
    requires
        child_named(nodes, kids, name) is Some,
    ensures
        child_named(nodes, kids, name)->Some_0 < nodes.len(),
        kids.contains(child_named(nodes, kids, name)->Some_0),
        nodes[child_named(nodes, kids, name)->Some_0 as int].id@ == name,
    decreases kids.len(),
{
    if kids.len() > 0 && !(kids[0] < nodes.len() && nodes[kids[0] as int].id@ == name) {
        lemma_child_named_in(nodes, kids.drop_first(), name);
        let c = child_named(nodes, kids, name)->Some_0;
        let k = choose|k: int| 0 <= k < kids.len() - 1 && kids.drop_first()[k] == c;
        assert(kids[k + 1] == c);
    } else if kids.len() > 0 {
        assert(kids[0] == kids[0]);
    }
}

proof fn lemma_child_named_none(nodes: Seq<WidgetNode>, kids: Seq<usize>, name: Seq<char>)
    requires
        child_named(nodes, kids, name) is None,
    ensures
        forall|k: int| 0 <= k < kids.len() && kids[k] < nodes.len() ==> nodes[#[trigger] kids[k] as int].id@ != name,
    decreases kids.len(),
{
    if kids.len() > 0 {
        lemma_child_named_none(nodes, kids.drop_first(), name);
        assert forall|k: int| 0 <= k < kids.len() && kids[k] < nodes.len() implies nodes[#[trigger] kids[k] as int].id@ != name by {
            if k > 0 {
                assert(kids[k] == kids.drop_first()[k - 1]);
            }
        }
    }
}

} // verus!
