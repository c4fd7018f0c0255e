//! Style records: bags of leaf properties keyed by property paths, merged by
//! cascade (overrides win, nested records merge key by key) and resolved
//! against a table of named constants.
use crate::table::NameTable;
use vstd::prelude::*;

verus! {

/// A property path, one name per nesting level (`["padding", "top"]`).
pub type PathModel = Seq<Seq<char>>;

/// The mathematical value of a leaf property.
pub enum PropValue {
    Number(i64),
    Color(u32),
    Keyword(Seq<char>),
    Constant(Seq<char>),
}

/// `p` names the same record as `q` or one that encloses it.
pub open spec fn is_prefix(p: PathModel, q: PathModel) -> bool {
    p.len() <= q.len() && q.subrange(0, p.len() as int) == p
}

/// Two paths collide: one of them lies inside the other (or they are equal).
pub open spec fn related(p: PathModel, q: PathModel) -> bool {
    is_prefix(p, q) || is_prefix(q, p)
}

/// The map that a list of key/value pairs denotes; a later pair wins.
pub open spec fn assoc_map<K, V>(s: Seq<(K, V)>) -> Map<K, V>
    decreases s.len(),
{
    if s.len() == 0 {
        Map::empty()
    } else {
        assoc_map(s.drop_last()).insert(s.last().0, s.last().1)
    }
}

/// Some property of `over` collides with the path `p`.
pub open spec fn shadowed(p: PathModel, over: Map<PathModel, PropValue>) -> bool {
    exists|q: PathModel| over.contains_key(q) && related(p, q)
}

/// The cascade of `over` onto `base`: every override is kept, and a base
/// property survives when no override collides with it. A scalar override
/// thus replaces a whole nested record, and an override inside a record
/// keeps the record's other properties (deep merge).
pub open spec fn cascade(
    base: Map<PathModel, PropValue>,
    over: Map<PathModel, PropValue>,
) -> Map<PathModel, PropValue> {
    Map::new(
        |p: PathModel| over.contains_key(p) || (base.contains_key(p) && !shadowed(p, over)),
        |p: PathModel|
            if over.contains_key(p) {
                over[p]
            } else {
                base[p]
            },
    )
}

pub proof fn lemma_assoc_map_push<K, V>(s: Seq<(K, V)>, e: (K, V))
    ensures
        assoc_map(s.push(e)) == assoc_map(s).insert(e.0, e.1),
{
    assert(s.push(e).drop_last() =~= s);
}

pub proof fn lemma_assoc_map_dom<K, V>(s: Seq<(K, V)>, k: K)
    ensures
        assoc_map(s).contains_key(k) <==> exists|i: int| 0 <= i < s.len() && s[i].0 == k,
    decreases s.len(),
{
    if s.len() > 0 {
        lemma_assoc_map_dom(s.drop_last(), k);
        if exists|i: int| 0 <= i < s.len() && s[i].0 == k {
            let i = choose|i: int| 0 <= i < s.len() && s[i].0 == k;
            if i < s.len() - 1 {
                assert(s.drop_last()[i].0 == k);
            }
        }
        if exists|i: int| 0 <= i < s.len() - 1 && s.drop_last()[i].0 == k {
            let i = choose|i: int| 0 <= i < s.len() - 1 && s.drop_last()[i].0 == k;
            assert(s[i].0 == k);
        }
    }
}

/// A pair that no later pair overrides is what the map holds for its key.
pub proof fn lemma_assoc_map_latest<K, V>(s: Seq<(K, V)>, i: int)
    requires
        0 <= i < s.len(),
        forall|j: int| i < j < s.len() ==> s[j].0 != s[i].0,
    ensures
        assoc_map(s).contains_key(s[i].0),
        assoc_map(s)[s[i].0] == s[i].1,
    decreases s.len(),
{
    if i < s.len() - 1 {
        lemma_assoc_map_latest(s.drop_last(), i);
    }
}

/// A leaf value as written in a style source.
pub enum StyleValue {
    Number(i64),
    Color(u32),
    Keyword(String),
    /// A reference to a named numeric constant, replaced when resolving.
    Constant(String),
}

impl StyleValue {
    pub open spec fn view(&self) -> PropValue {
        match self {
            StyleValue::Number(n) => PropValue::Number(*n),
            StyleValue::Color(c) => PropValue::Color(*c),
            StyleValue::Keyword(k) => PropValue::Keyword(k@),
            StyleValue::Constant(n) => PropValue::Constant(n@),
        }
    }

    pub fn copy(&self) -> (r: StyleValue)
        ensures
            r@ == self@,
    {
        match self {
            StyleValue::Number(n) => StyleValue::Number(*n),
            StyleValue::Color(c) => StyleValue::Color(*c),
            StyleValue::Keyword(k) => StyleValue::Keyword(k.clone()),
            StyleValue::Constant(n) => StyleValue::Constant(n.clone()),
        }
    }
}

pub open spec fn path_view(p: Seq<String>) -> PathModel {
    p.map_values(|s: String| s@)
}

/// Copies a path name by name.
pub fn copy_path(p: &Vec<String>) -> (r: Vec<String>)
    ensures
        path_view(r@) == path_view(p@),
{
    let mut r: Vec<String> = Vec::new();
    let mut i: usize = 0;
    while i < p.len()
        invariant
            i <= p.len(),
            path_view(r@) == path_view(p@.take(i as int)),
        decreases p.len() - i,
    {
        r.push(p[i].clone());
        assert(path_view(p@.take(i + 1)) =~= path_view(p@.take(i as int)).push(p@[i as int]@));
        i = i + 1;
    }
    assert(p@.take(i as int) =~= p@);
    r
}

/// Whether one of the two paths lies inside the other.
pub fn paths_related(p: &Vec<String>, q: &Vec<String>) -> (r: bool)
    ensures
        r == related(path_view(p@), path_view(q@)),
{
    let n: usize = if p.len() <= q.len() { p.len() } else { q.len() };
    let mut i: usize = 0;
    while i < n
        invariant
            i <= n,
            n <= p.len(),
            n <= q.len(),
            n == p.len() || n == q.len(),
            forall|k: int| 0 <= k < i ==> p@[k]@ == q@[k]@,
        decreases n - i,
    {
        if p[i] != q[i] {
            assert(path_view(p@)[i as int] != path_view(q@)[i as int]);
            assert(!related(path_view(p@), path_view(q@))) by {
                if is_prefix(path_view(p@), path_view(q@)) {
                    assert(path_view(q@).subrange(0, path_view(p@).len() as int)[i as int]
                        == path_view(q@)[i as int]);
                }
                if is_prefix(path_view(q@), path_view(p@)) {
                    assert(path_view(p@).subrange(0, path_view(q@).len() as int)[i as int]
                        == path_view(p@)[i as int]);
                }
            }
            return false;
        }
        i = i + 1;
    }
    if n == p.len() {
        assert(path_view(q@).subrange(0, path_view(p@).len() as int) =~= path_view(p@));
    } else {
        assert(path_view(p@).subrange(0, path_view(q@).len() as int) =~= path_view(q@));
    }
    true
}

/// One leaf property of a record.
pub struct StyleEntry {
    pub path: Vec<String>,
    pub value: StyleValue,
}

impl StyleEntry {
    pub open spec fn view(&self) -> (PathModel, PropValue) {
        (path_view(self.path@), self.value@)
    }

    pub fn copy(&self) -> (r: StyleEntry)
        ensures
            r@ == self@,
    {
        StyleEntry { path: copy_path(&self.path), value: self.value.copy() }
    }
}

pub open spec fn entries_view(s: Seq<StyleEntry>) -> Seq<(PathModel, PropValue)> {
    s.map_values(|e: StyleEntry| e@)
}

/// No two properties of the list collide.
pub open spec fn entries_prefix_free(s: Seq<(PathModel, PropValue)>) -> bool {
    forall|i: int, j: int| 0 <= i < j < s.len() ==> !related(#[trigger] s[i].0, #[trigger] s[j].0)
}

/// A style record: a set of leaf properties, none of which lies inside another.
pub struct StyleRecord {
    pub entries: Vec<StyleEntry>,
}

impl StyleRecord {
    pub open spec fn view(&self) -> Map<PathModel, PropValue> {
        assoc_map(entries_view(self.entries@))
    }

    pub open spec fn wf(&self) -> bool {
        entries_prefix_free(entries_view(self.entries@))
    }

    pub fn new() -> (r: StyleRecord)
        ensures
            r.wf(),
            r@ == Map::<PathModel, PropValue>::empty(),
            r.entries@.len() == 0,
    {
        StyleRecord { entries: Vec::new() }
    }

    /// Whether some property of this record collides with `path`.
    pub fn collides(&self, path: &Vec<String>) -> (r: bool)
        ensures
            r == shadowed(path_view(path@), self@),
    {
        let ghost s = entries_view(self.entries@);
        let mut i: usize = 0;
        while i < self.entries.len()
            invariant
                i <= self.entries@.len(),
                s == entries_view(self.entries@),
                forall|k: int| 0 <= k < i ==> !related(path_view(path@), #[trigger] s[k].0),
            decreases self.entries@.len() - i,
        {
            if paths_related(path, &self.entries[i].path) {
                proof {
                    lemma_assoc_map_dom(s, s[i as int].0);
                }
                return true;
            }
            i = i + 1;
        }
        proof {
            if shadowed(path_view(path@), self@) {
                let q = choose|q: PathModel| self@.contains_key(q) && related(path_view(path@), q);
                lemma_assoc_map_dom(s, q);
            }
        }
        false
    }

    /// The value of the property at `path`, if the record has one.
    pub fn get(&self, path: &Vec<String>) -> (r: Option<&StyleValue>)
        requires
            self.wf(),
        ensures
            r.is_some() == self@.contains_key(path_view(path@)),
            r.is_some() ==> r.unwrap()@ == self@[path_view(path@)],
    {
        let ghost s = entries_view(self.entries@);
        proof {
            lemma_prefix_free_distinct(s);
        }
        let mut i: usize = 0;
        while i < self.entries.len()
            invariant
                i <= self.entries@.len(),
                s == entries_view(self.entries@),
                forall|a: int, b: int| 0 <= a < b < s.len() ==> s[a].0 != s[b].0,
                forall|k: int| 0 <= k < i ==> path_view(path@) != #[trigger] s[k].0,
            decreases self.entries@.len() - i,
        {
            let e = &self.entries[i];
            if paths_related(path, &e.path) && e.path.len() == path.len() {
                proof {
                    assert(path_view(path@) =~= s[i as int].0);
                    lemma_assoc_map_latest(s, i as int);
                }
                return Some(&e.value);
            }
            proof {
                if path_view(path@) == s[i as int].0 {
                    assert(s[i as int].0.subrange(0, s[i as int].0.len() as int) =~= s[i as int].0);
                }
            }
            i = i + 1;
        }
        proof {
            lemma_assoc_map_dom(s, path_view(path@));
        }
        None
    }

    /// Sets the property at `path`; every property that collides with it
    /// (an enclosing scalar, or the leaves of a replaced record) goes away.
    pub fn set(&mut self, path: Vec<String>, value: StyleValue)
        requires
            old(self).wf(),
        ensures
            final(self).wf(),
            final(self)@ == cascade(old(self)@, map![path_view(path@) => value@]),
    {
        let ghost pv = path_view(path@);
        let ghost vv = value@;
        let single = StyleRecord { entries: vec![StyleEntry { path, value }] };
        proof {
            let es = entries_view(single.entries@);
            assert(es =~= seq![(pv, vv)]);
            assert(es =~= Seq::<(PathModel, PropValue)>::empty().push((pv, vv)));
            lemma_assoc_map_push(Seq::<(PathModel, PropValue)>::empty(), (pv, vv));
            assert(assoc_map(Seq::<(PathModel, PropValue)>::empty()) == Map::<
                PathModel,
                PropValue,
            >::empty());
            assert(single@ =~= map![pv => vv]);
        }
        let merged = merge(self, &single);
        *self = merged;
    }

    pub fn len(&self) -> (r: usize)
        ensures
            r == self.entries@.len(),
    {
        self.entries.len()
    }
}


pub proof fn lemma_prefix_free_distinct(s: Seq<(PathModel, PropValue)>)
    requires
        entries_prefix_free(s),
    ensures
        forall|a: int, b: int| 0 <= a < b < s.len() ==> s[a].0 != s[b].0,
{
    assert forall|a: int, b: int| 0 <= a < b < s.len() implies s[a].0 != s[b].0 by {
        assert(!related(s[a].0, s[b].0));
        assert(s[a].0.subrange(0, s[a].0.len() as int) =~= s[a].0);
    }
}

/// Merges `over` onto `base` by cascade.
pub fn merge(base: &StyleRecord, over: &StyleRecord) -> (r: StyleRecord)
    requires
        base.wf(),
        over.wf(),
    ensures
        r.wf(),
        r@ == cascade(base@, over@),
        entries_view(r.entries@) == entries_view(over.entries@) + surviving(entries_view(base.entries@), over@),
{
    let ghost bs = entries_view(base.entries@);
    let ghost os = entries_view(over.entries@);
    let mut entries: Vec<StyleEntry> = Vec::new();
    let mut i: usize = 0;
    while i < over.entries.len()
        invariant
            i <= over.entries@.len(),
            os == entries_view(over.entries@),
            entries_view(entries@) == os.take(i as int),
        decreases over.entries@.len() - i,
    {
        let ghost prev = entries@;
        let c = over.entries[i].copy();
        entries.push(c);
        assert(entries@ =~= prev.push(c));
        assert(entries_view(entries@) =~= entries_view(prev).push(c@));
        assert(entries_view(entries@) =~= os.take(i + 1));
        i = i + 1;
    }
    assert(os.take(i as int) =~= os);
    let n_over = i;
    let ghost src: Seq<int> = Seq::empty();
    assert(bs.take(0) =~= Seq::<(PathModel, PropValue)>::empty());
    assert(entries_view(entries@) =~= os + surviving(bs.take(0), over@));
    assert(cascade(assoc_map(bs.take(0)), over@) =~= assoc_map(os)) by {
        lemma_prefix_free_distinct(os);
        assert forall|p: PathModel| #[trigger] assoc_map(os).contains_key(p) implies over@.contains_key(p) by {}
    }
    let mut j: usize = 0;
    while j < base.entries.len()
        invariant
            j <= base.entries@.len(),
            n_over == os.len(),
            bs == entries_view(base.entries@),
            os == entries_view(over.entries@),
            entries_prefix_free(bs),
            entries_prefix_free(os),
            over@ == assoc_map(os),
            entries_view(entries@).len() == n_over + src.len(),
            forall|k: int| 0 <= k < n_over ==> #[trigger] entries_view(entries@)[k] == os[k],
            forall|k: int|
                0 <= k < src.len() ==> 0 <= #[trigger] src[k] < j && entries_view(entries@)[n_over
                    + k] == bs[src[k]],
            entries_prefix_free(entries_view(entries@)),
            assoc_map(entries_view(entries@)) == cascade(assoc_map(bs.take(j as int)), over@),
            entries_view(entries@) == os + surviving(bs.take(j as int), over@),
        decreases base.entries@.len() - j,
    {
        let ghost m = assoc_map(bs.take(j as int));
        let ghost e = bs[j as int];
        assert(bs.take(j + 1) =~= bs.take(j as int).push(e));
        assert(bs.take(j + 1).drop_last() =~= bs.take(j as int));
        proof {
            lemma_assoc_map_push(bs.take(j as int), e);
        }
        if !over.collides(&base.entries[j].path) {
            let ghost old_es = entries_view(entries@);
            entries.push(base.entries[j].copy());
            proof {
                let es = entries_view(entries@);
                assert(es =~= old_es.push(e));
                assert(os + surviving(bs.take(j + 1), over@) =~= (os + surviving(bs.take(j as int), over@)).push(e));
                lemma_assoc_map_push(old_es, e);
                assert(cascade(m.insert(e.0, e.1), over@) =~= cascade(m, over@).insert(e.0, e.1)) by {
                    if over@.contains_key(e.0) {
                        assert(related(e.0, e.0)) by {
                            assert(e.0.subrange(0, e.0.len() as int) =~= e.0);
                        }
                    }
                }
                assert forall|a: int, b: int| 0 <= a < b < es.len() implies !related(
                    #[trigger] es[a].0,
                    #[trigger] es[b].0,
                ) by {
                    if b == es.len() - 1 {
                        if a < n_over {
                            assert(es[a] == os[a]);
                            lemma_assoc_map_dom(os, os[a].0);
                            if related(es[a].0, es[b].0) {
                                assert(related(e.0, os[a].0));
                            }
                        } else {
                            let sa = src[a - n_over];
                            assert(es[a] == bs[sa]);
                            assert(!related(bs[sa].0, bs[j as int].0));
                        }
                    } else {
                        assert(es[a] == old_es[a]);
                        assert(es[b] == old_es[b]);
                    }
                }
                src = src.push(j as int);
            }
        } else {
            proof {
                assert(cascade(m.insert(e.0, e.1), over@) =~= cascade(m, over@));
            }
        }
        j = j + 1;
    }
    assert(bs.take(j as int) =~= bs);
    StyleRecord { entries }
}


/// Substitutes a constant reference by the constant's value, where defined.
pub open spec fn subst(v: PropValue, c: Map<Seq<char>, i64>) -> PropValue {
    match v {
        PropValue::Constant(n) => if c.contains_key(n) {
            PropValue::Number(c[n])
        } else {
            v
        },
        _ => v,
    }
}

/// The value refers to a constant that `c` does not define.
pub open spec fn undefined_in(v: PropValue, c: Map<Seq<char>, i64>) -> bool {
    v is Constant && !c.contains_key(v->Constant_0)
}

/// Every constant that the record refers to is defined.
pub open spec fn all_defined(m: Map<PathModel, PropValue>, c: Map<Seq<char>, i64>) -> bool {
    forall|p: PathModel| #[trigger] m.contains_key(p) ==> !undefined_in(m[p], c)
}

pub open spec fn substituted(m: Map<PathModel, PropValue>, c: Map<Seq<char>, i64>) -> Map<
    PathModel,
    PropValue,
> {
    Map::new(|p: PathModel| m.contains_key(p), |p: PathModel| subst(m[p], c))
}

/// The record that resolving `over` onto `base` yields.
pub open spec fn resolved(
    base: Map<PathModel, PropValue>,
    over: Map<PathModel, PropValue>,
    c: Map<Seq<char>, i64>,
) -> Map<PathModel, PropValue> {
    substituted(cascade(base, over), c)
}

/// The base properties that survive a cascade of `over`, in order.
pub open spec fn surviving(bs: Seq<(PathModel, PropValue)>, over: Map<PathModel, PropValue>) -> Seq<
    (PathModel, PropValue),
>
    decreases bs.len(),
{
    if bs.len() == 0 {
        bs
    } else {
        let sub = surviving(bs.drop_last(), over);
        if shadowed(bs.last().0, over) {
            sub
        } else {
            sub.push(bs.last())
        }
    }
}

/// The first constant, in order of the properties, that `c` does not define.
pub open spec fn first_undefined(s: Seq<(PathModel, PropValue)>, c: Map<Seq<char>, i64>) -> Option<
    Seq<char>,
>
    decreases s.len(),
{
    if s.len() == 0 {
        None
    } else if undefined_in(s[0].1, c) {
        Some(s[0].1->Constant_0)
    } else {
        first_undefined(s.drop_first(), c)
    }
}

/// The two override sets touch no common property, not even one inside another.
pub open spec fn disjoint(o1: Map<PathModel, PropValue>, o2: Map<PathModel, PropValue>) -> bool {
    forall|p: PathModel, q: PathModel|
        o1.contains_key(p) && o2.contains_key(q) ==> !#[trigger] related(p, q)
}

/// A table of named numeric constants.
pub type ConstantTable = NameTable<i64>;

/// What can go wrong when resolving a style.
#[derive(Debug)]
pub enum StyleError {
    /// A property refers to a constant that the table does not define.
    UndefinedConstant(String),
}

impl StyleRecord {
    /// Replaces each constant reference by its value.
    pub fn substitute(&self, constants: &ConstantTable) -> (r: Result<StyleRecord, StyleError>)
        requires
            self.wf(),
        ensures
            r is Ok <==> all_defined(self@, constants@),
            r matches Ok(out) ==> out.wf() && out@ == substituted(self@, constants@),
            r matches Err(StyleError::UndefinedConstant(n)) ==> exists|p: PathModel|
                #[trigger] self@.contains_key(p) && self@[p] == PropValue::Constant(n@)
                    && !constants@.contains_key(n@),
            r matches Err(StyleError::UndefinedConstant(n)) ==> first_undefined(entries_view(self.entries@), constants@)
                == Some(n@),
    {
        let ghost s = entries_view(self.entries@);
        let ghost c = constants@;
        let ghost g = |e: (PathModel, PropValue)| (e.0, subst(e.1, c));
        proof {
            lemma_prefix_free_distinct(s);
        }
        let mut out: Vec<StyleEntry> = Vec::new();
        let mut i: usize = 0;
        assert(s.subrange(0, s.len() as int) =~= s);
        while i < self.entries.len()
            invariant
                i <= self.entries@.len(),
                s == entries_view(self.entries@),
                c == constants@,
                g == (|e: (PathModel, PropValue)| (e.0, subst(e.1, c))),
                forall|a: int, b: int| 0 <= a < b < s.len() ==> s[a].0 != s[b].0,
                entries_view(out@) == s.take(i as int).map_values(g),
                forall|k: int| 0 <= k < i ==> !undefined_in(#[trigger] s[k].1, c),
                first_undefined(s, c) == first_undefined(s.subrange(i as int, s.len() as int), c),
            decreases self.entries@.len() - i,
        {
            let e = &self.entries[i];
            assert(s.subrange(i as int, s.len() as int).drop_first() =~= s.subrange(i + 1, s.len() as int));
            assert(s.subrange(i as int, s.len() as int)[0] == s[i as int]);
            let v = match &e.value {
                StyleValue::Constant(n) => match constants.lookup(n) {
                    Some(x) => StyleValue::Number(x),
                    None => {
                        proof {
                            lemma_assoc_map_latest(s, i as int);
                            assert(self@.contains_key(s[i as int].0));
                            assert(!constants@.contains_key(n@));
                        }
                        let name = n.clone();
                        assert(name@ == n@);
                        return Err(StyleError::UndefinedConstant(name));
                    },
                },
                _ => e.value.copy(),
            };
            let ghost prev = out@;
            let ne = StyleEntry { path: copy_path(&e.path), value: v };
            out.push(ne);
            assert(out@ =~= prev.push(ne));
            assert(entries_view(out@) =~= entries_view(prev).push(ne@));
            assert(s.take(i + 1).map_values(g) =~= s.take(i as int).map_values(g).push(g(s[i as int])));
            i = i + 1;
        }
        assert(s.take(i as int) =~= s);
        let ghost os = entries_view(out@);
        proof {
            assert forall|p: PathModel| #[trigger] self@.contains_key(p) implies !undefined_in(self@[p], c) by {
                lemma_assoc_map_dom(s, p);
                let k = choose|k: int| 0 <= k < s.len() && s[k].0 == p;
                lemma_assoc_map_latest(s, k);
            }
            assert forall|p: PathModel| #[trigger] assoc_map(os).contains_key(p) <==> self@.contains_key(p) by {
                lemma_assoc_map_dom(s, p);
                lemma_assoc_map_dom(os, p);
                if self@.contains_key(p) {
                    let k = choose|k: int| 0 <= k < s.len() && s[k].0 == p;
                    assert(os[k].0 == p);
                }
                if assoc_map(os).contains_key(p) {
                    let k = choose|k: int| 0 <= k < os.len() && os[k].0 == p;
                    assert(s[k].0 == p);
                }
            }
            assert forall|p: PathModel| #[trigger] self@.contains_key(p) implies assoc_map(os)[p] == subst(self@[p], c) by {
                lemma_assoc_map_dom(s, p);
                let k = choose|k: int| 0 <= k < s.len() && s[k].0 == p;
                lemma_assoc_map_latest(s, k);
                assert(os[k] == g(s[k]));
                assert forall|j: int| k < j < os.len() implies os[j].0 != os[k].0 by {
                    assert(os[j] == g(s[j]));
                }
                lemma_assoc_map_latest(os, k);
            }
            assert(assoc_map(os) =~= substituted(self@, c));
            assert forall|a: int, b: int| 0 <= a < b < os.len() implies !related(
                #[trigger] os[a].0,
                #[trigger] os[b].0,
            ) by {
                assert(os[a] == g(s[a]));
                assert(os[b] == g(s[b]));
            }
        }
        Ok(StyleRecord { entries: out })
    }
}

/// Resolves `over` onto `base` (cascade, then constant substitution).
pub fn resolve(base: &StyleRecord, over: &StyleRecord, constants: &ConstantTable) -> (r: Result<
    StyleRecord,
    StyleError,
>)
    requires
        base.wf(),
        over.wf(),
    ensures
        r is Ok <==> all_defined(cascade(base@, over@), constants@),
        r matches Ok(out) ==> out.wf() && out@ == resolved(base@, over@, constants@),
        r matches Err(StyleError::UndefinedConstant(n)) ==> exists|p: PathModel|
            #[trigger] cascade(base@, over@).contains_key(p) && cascade(base@, over@)[p]
                == PropValue::Constant(n@) && !constants@.contains_key(n@),
        r matches Err(StyleError::UndefinedConstant(n)) ==> first_undefined(
            entries_view(over.entries@) + surviving(entries_view(base.entries@), over@),
            constants@,
        ) == Some(n@),
{
    let merged = merge(base, over);
    merged.substitute(constants)
}


/// Cascading two override sets that touch disjoint properties gives the same
/// record in either order.
pub proof fn lemma_cascade_commutes(
    base: Map<PathModel, PropValue>,
    o1: Map<PathModel, PropValue>,
    o2: Map<PathModel, PropValue>,
)
    requires
        disjoint(o1, o2),
    ensures
        cascade(cascade(base, o1), o2) == cascade(cascade(base, o2), o1),
{
    assert(disjoint(o2, o1)) by {
        assert forall|p: PathModel, q: PathModel|
            o2.contains_key(p) && o1.contains_key(q) implies !#[trigger] related(p, q) by {
            assert(!related(q, p));
        }
    }
    lemma_disjoint_shadow(o1, o2);
    lemma_disjoint_shadow(o2, o1);
    assert(cascade(cascade(base, o1), o2) =~= cascade(cascade(base, o2), o1));
}

proof fn lemma_disjoint_shadow(o1: Map<PathModel, PropValue>, o2: Map<PathModel, PropValue>)
    requires
        disjoint(o1, o2),
    ensures
        forall|p: PathModel| #[trigger] o1.contains_key(p) ==> !shadowed(p, o2) && !o2.contains_key(p),
{
    assert forall|p: PathModel| #[trigger] o1.contains_key(p) implies !shadowed(p, o2)
        && !o2.contains_key(p) by {
        if o2.contains_key(p) {
            assert(related(p, p)) by {
                assert(p.subrange(0, p.len() as int) =~= p);
            }
        }
    }
}

/// Resolving two override sets that touch disjoint properties, one after the
/// other, gives the same record in either order.
pub proof fn lemma_resolve_commutes(
    base: Map<PathModel, PropValue>,
    o1: Map<PathModel, PropValue>,
    o2: Map<PathModel, PropValue>,
    c: Map<Seq<char>, i64>,
)
    requires
        disjoint(o1, o2),
    ensures
        resolved(resolved(base, o1, c), o2, c) == resolved(resolved(base, o2, c), o1, c),
{
    lemma_resolve_twice(base, o1, o2, c);
    lemma_resolve_twice(base, o2, o1, c);
    lemma_cascade_commutes(base, o1, o2);
}

/// Resolving in two steps equals substituting once after both cascades.
proof fn lemma_resolve_twice(
    base: Map<PathModel, PropValue>,
    o1: Map<PathModel, PropValue>,
    o2: Map<PathModel, PropValue>,
    c: Map<Seq<char>, i64>,
)
    ensures
        resolved(resolved(base, o1, c), o2, c) == substituted(cascade(cascade(base, o1), o2), c),
{
    let x = cascade(base, o1);
    assert(cascade(substituted(x, c), o2) =~= Map::new(
        |p: PathModel| cascade(x, o2).contains_key(p),
        |p: PathModel|
            if o2.contains_key(p) {
                o2[p]
            } else {
                subst(x[p], c)
            },
    ));
    assert(resolved(substituted(x, c), o2, c) =~= substituted(cascade(x, o2), c));
}

/// Applying two override sets that touch disjoint properties one after the
/// other equals applying their merge once.
pub proof fn lemma_cascade_merge(
    base: Map<PathModel, PropValue>,
    o1: Map<PathModel, PropValue>,
    o2: Map<PathModel, PropValue>,
)
    requires
        disjoint(o1, o2),
    ensures
        cascade(cascade(base, o1), o2) == cascade(base, cascade(o1, o2)),
{
    assert(disjoint(o2, o1)) by {
        assert forall|p: PathModel, q: PathModel|
            o2.contains_key(p) && o1.contains_key(q) implies !#[trigger] related(p, q) by {
            assert(!related(q, p));
        }
    }
    lemma_disjoint_shadow(o1, o2);
    lemma_disjoint_shadow(o2, o1);
    let m = cascade(o1, o2);
    assert forall|p: PathModel| shadowed(p, m) <==> shadowed(p, o1) || shadowed(p, o2) by {
        if shadowed(p, o1) {
            let q = choose|q: PathModel| o1.contains_key(q) && related(p, q);
            assert(m.contains_key(q));
        }
        if shadowed(p, o2) {
            let q = choose|q: PathModel| o2.contains_key(q) && related(p, q);
            assert(m.contains_key(q));
        }
    }
    assert(cascade(cascade(base, o1), o2) =~= cascade(base, m));
}

} // verus!
