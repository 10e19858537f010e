//! The document model: a tree of element, text and comment nodes.

use vstd::prelude::*;

use crate::chars::{same_text, string_of};

verus! {

broadcast use vstd::std_specs::vec::group_vec_axioms;

/// The attributes of an element, each name at most once, in the order in
/// which they were first set.
pub struct AttrMap {
    entries: Vec<(String, String)>,
}

pub open spec fn pairs_view(v: Seq<(String, String)>) -> Seq<(Seq<char>, Seq<char>)> {
    v.map_values(|e: (String, String)| (e.0@, e.1@))
}

pub open spec fn keys_unique(m: Seq<(Seq<char>, Seq<char>)>) -> bool {
    forall|i: int, j: int| 0 <= i < j < m.len() ==> m[i].0 != m[j].0
}

/// The value that `name` has in a list of attributes.
pub open spec fn lookup(m: Seq<(Seq<char>, Seq<char>)>, name: Seq<char>) -> Option<Seq<char>>
    decreases m.len(),
{
    if m.len() == 0 {
        None
    } else if m.last().0 == name {
        Some(m.last().1)
    } else {
        lookup(m.drop_last(), name)
    }
}

/// Sets `name` to `value` in a list of attributes: in place where the name
/// is there already, at the end otherwise.
pub open spec fn insert_attr(m: Seq<(Seq<char>, Seq<char>)>, name: Seq<char>, value: Seq<char>) -> Seq<
    (Seq<char>, Seq<char>),
> {
    if exists|i: int| 0 <= i < m.len() && m[i].0 == name {
        let i = choose|i: int| 0 <= i < m.len() && m[i].0 == name;
        m.update(i, (name, value))
    } else {
        m.push((name, value))
    }
}

impl View for AttrMap {
    type V = Seq<(Seq<char>, Seq<char>)>;

    closed spec fn view(&self) -> Seq<(Seq<char>, Seq<char>)> {
        pairs_view(self.entries@)
    }
}

impl AttrMap {
    pub closed spec fn wf(&self) -> bool {
        keys_unique(self@)
    }

    pub fn new() -> (m: AttrMap)
        ensures
            m.wf(),
            m@ == Seq::<(Seq<char>, Seq<char>)>::empty(),
    {
        let m = AttrMap { entries: Vec::new() };
        assert(m@ =~= Seq::<(Seq<char>, Seq<char>)>::empty());
        m
    }

    pub fn len(&self) -> (n: usize)
        ensures
            n == self@.len(),
    {
        self.entries.len()
    }

    /// Sets an attribute, replacing an earlier value of the same name.
    pub fn insert(&mut self, name: String, value: String)
        requires
            old(self).wf(),
        ensures
            final(self).wf(),
            final(self)@ == insert_attr(old(self)@, name@, value@),
    {
        let ghost m = self@;
        let mut i: usize = 0;
        while i < self.entries.len() && !(self.entries[i].0 == name)
            invariant
                self@ == m,
                i <= m.len(),
                forall|k: int| 0 <= k < i ==> m[k].0 != name@,
            decreases m.len() - i,
        {
            i = i + 1;
        }
        if i < self.entries.len() {
            proof {
                assert(m[i as int].0 == name@);
                let j = choose|j: int| 0 <= j < m.len() && m[j].0 == name@;
                if j < i {
                    assert(m[j].0 != m[i as int].0);
                } else if j > i {
                    assert(m[i as int].0 != m[j].0);
                }
            }
            self.entries.set(i, (name, value));
            assert(self@ =~= m.update(i as int, (name@, value@)));
        } else {
            self.entries.push((name, value));
            assert(self@ =~= m.push((name@, value@)));
        }
    }

    /// The attribute at a position, in the order in which names were first set.
    pub fn entry(&self, i: usize) -> (r: (&String, &String))
        requires
            i < self@.len(),
        ensures
            (r.0@, r.1@) == self@[i as int],
    {
        (&self.entries[i].0, &self.entries[i].1)
    }

    /// The value of an attribute.
    pub fn get(&self, name: &str) -> (r: Option<&String>)
        ensures
            match r {
                Some(v) => lookup(self@, name@) == Some(v@),
                None => lookup(self@, name@) is None,
            },
    {
        let ghost m = self@;
        let mut i: usize = self.entries.len();
        assert(m.subrange(0, m.len() as int) =~= m);
        while i > 0
            invariant
                m == self@,
                i <= m.len(),
                lookup(m, name@) == lookup(m.subrange(0, i as int), name@),
            decreases i,
        {
            let ghost part = m.subrange(0, i as int);
            assert(part.drop_last() == m.subrange(0, i - 1));
            if same_text(self.entries[i - 1].0.as_str(), name) {
                return Some(&self.entries[i - 1].1);
            }
            i = i - 1;
        }
        None
    }
}

pub struct Node {
    pub children: Vec<Node>,
    pub node_type: NodeType,
}

pub enum NodeType {
    Text(String),
    Element(ElementData),
    Comment(String),
}

pub struct ElementData {
    pub tag_name: String,
    pub attributes: AttrMap,
}

/// What a node holds, without its children.
pub enum KindModel {
    Text(Seq<char>),
    Element(Seq<char>, Seq<(Seq<char>, Seq<char>)>),
    Comment(Seq<char>),
}

/// A document tree as plain sequences.
pub struct NodeModel {
    pub kind: KindModel,
    pub children: Seq<NodeModel>,
}

impl NodeType {
    pub open spec fn model(&self) -> KindModel {
        match self {
            NodeType::Text(t) => KindModel::Text(t@),
            NodeType::Element(e) => KindModel::Element(e.tag_name@, e.attributes@),
            NodeType::Comment(t) => KindModel::Comment(t@),
        }
    }
}

impl Node {
    pub open spec fn model(&self) -> NodeModel
        decreases self, 1int,
    {
        NodeModel { kind: self.node_type.model(), children: models_from(self.children@, 0) }
    }

    /// Every element of the tree has well-formed attributes.
    pub open spec fn wf(&self) -> bool
        decreases self, 1int,
    {
        &&& (self.node_type matches NodeType::Element(e) ==> e.wf())
        &&& all_wf(self.children@, 0)
    }
}

/// The models of `ns[i..]`.
pub open spec fn models_from(ns: Seq<Node>, i: int) -> Seq<NodeModel>
    decreases ns, ns.len() - i,
{
    if 0 <= i < ns.len() {
        seq![ns[i].model()] + models_from(ns, i + 1)
    } else {
        seq![]
    }
}

pub open spec fn all_wf(ns: Seq<Node>, i: int) -> bool
    decreases ns, ns.len() - i,
{
    if 0 <= i < ns.len() {
        ns[i].wf() && all_wf(ns, i + 1)
    } else {
        true
    }
}

/// The models of a sequence of nodes.
pub open spec fn models(ns: Seq<Node>) -> Seq<NodeModel> {
    models_from(ns, 0)
}

pub proof fn lemma_models_push(ns: Seq<Node>, n: Node, i: int)
    requires
        0 <= i <= ns.len(),
    ensures
        models_from(ns.push(n), i) == models_from(ns, i).push(n.model()),
        all_wf(ns.push(n), i) == (all_wf(ns, i) && n.wf()),
    decreases ns.len() - i,
{
    if i < ns.len() {
        lemma_models_push(ns, n, i + 1);
        assert(ns.push(n)[i] == ns[i]);
        assert(seq![ns[i].model()] + models_from(ns, i + 1).push(n.model()) == (seq![
            ns[i].model(),
        ] + models_from(ns, i + 1)).push(n.model()));
    } else {
        assert(ns.push(n)[i] == n);
        assert(models_from(ns.push(n), i + 1) == Seq::<NodeModel>::empty());
        assert(models_from(ns, i) == Seq::<NodeModel>::empty());
        assert(all_wf(ns.push(n), i + 1));
        assert(all_wf(ns, i));
    }
}

pub proof fn lemma_models_len(ns: Seq<Node>, i: int)
    requires
        0 <= i <= ns.len(),
    ensures
        models_from(ns, i).len() == ns.len() - i,
    decreases ns.len() - i,
{
    if i < ns.len() {
        lemma_models_len(ns, i + 1);
    }
}

pub proof fn lemma_models_empty(ns: Seq<Node>)
    requires
        ns.len() == 0,
    ensures
        models(ns) == Seq::<NodeModel>::empty(),
        all_wf(ns, 0),
{
}

impl ElementData {
    pub open spec fn wf(&self) -> bool {
        self.attributes.wf()
    }

    pub open spec fn attrs(&self) -> Seq<(Seq<char>, Seq<char>)> {
        self.attributes@
    }

    pub fn new(tag_name: String, attributes: AttrMap) -> (e: ElementData)
        ensures
            e.tag_name@ == tag_name@,
            e.attrs() == attributes@,
            e.wf() == attributes.wf(),
    {
        ElementData { tag_name, attributes }
    }

    pub fn attributes(&self) -> (r: &AttrMap)
        ensures
            r@ == self.attrs(),
    {
        &self.attributes
    }

    /// The element's `id` attribute.
    pub fn get_id(&self) -> (r: Option<&String>)
        ensures
            match r {
                Some(v) => lookup(self.attrs(), "id"@) == Some(v@),
                None => lookup(self.attrs(), "id"@) is None,
            },
    {
        self.attributes.get("id")
    }

    /// The pieces of the `class` attribute split at each space; none when the
    /// attribute is missing.
    pub fn get_classes(&self) -> (r: Vec<String>)
        ensures
            r@.map_values(|c: String| c@) == class_list(self.attrs()),
    {
        match self.attributes.get("class") {
            Some(s) => split_spaces(s.as_str()),
            None => Vec::new(),
        }
    }
}

/// The classes of an element with these attributes.
pub open spec fn class_list(attrs: Seq<(Seq<char>, Seq<char>)>) -> Seq<Seq<char>> {
    match lookup(attrs, "class"@) {
        Some(v) => split_spec(v),
        None => seq![],
    }
}

/// A text split at each space, empty pieces included.
pub open spec fn split_spec(s: Seq<char>) -> Seq<Seq<char>>
    decreases s.len(),
{
    if s.len() == 0 {
        seq![seq![]]
    } else {
        let p = split_spec(s.drop_last());
        if s.last() == ' ' {
            p.push(seq![])
        } else {
            p.update(p.len() - 1, p.last().push(s.last()))
        }
    }
}

fn split_spaces(s: &str) -> (r: Vec<String>)
    ensures
        r@.map_values(|c: String| c@) == split_spec(s@),
{
    let cs = crate::chars::chars_of(s);
    let mut pieces: Vec<String> = Vec::new();
    let mut cur: Vec<char> = Vec::new();
    let mut i: usize = 0;
    while i < cs.len()
        invariant
            cs@ == s@,
            i <= cs@.len(),
            pieces@.map_values(|c: String| c@).push(cur@) == split_spec(cs@.subrange(0, i as int)),
        decreases cs@.len() - i,
    {
        let ghost prev = cs@.subrange(0, i as int);
        let ghost next = cs@.subrange(0, i + 1);
        assert(next.drop_last() == prev);
        let ghost before = pieces@.map_values(|c: String| c@);
        if cs[i] == ' ' {
            let ghost old_cur = cur@;
            pieces.push(string_of(cur.as_slice()));
            cur = Vec::new();
            assert(pieces@.map_values(|c: String| c@) == before.push(old_cur));
            assert(pieces@.map_values(|c: String| c@).push(Seq::<char>::empty()) == split_spec(next));
        } else {
            let ghost old_cur = cur@;
            cur.push(cs[i]);
            assert(before.push(cur@) == before.push(old_cur).update(before.len() as int, old_cur.push(cs@[i as int])));
        }
        i = i + 1;
    }
    assert(cs@.subrange(0, cs@.len() as int) == cs@);
    let ghost before = pieces@.map_values(|c: String| c@);
    pieces.push(string_of(cur.as_slice()));
    assert(pieces@.map_values(|c: String| c@) == before.push(cur@));
    pieces
}

/// A text node.
pub fn text(data: String) -> (n: Node)
    ensures
        n.model() == (NodeModel { kind: KindModel::Text(data@), children: seq![] }),
        n.wf(),
{
    let n = Node { children: Vec::new(), node_type: NodeType::Text(data) };
    proof {
        lemma_models_empty(n.children@);
    }
    n
}

/// An element node.
pub fn elem(tag_name: String, attrs: AttrMap, children: Vec<Node>) -> (n: Node)
    ensures
        n.model() == (NodeModel {
            kind: KindModel::Element(tag_name@, attrs@),
            children: models(children@),
        }),
        n.wf() == (attrs.wf() && all_wf(children@, 0)),
{
    Node { children, node_type: NodeType::Element(ElementData::new(tag_name, attrs)) }
}

impl Node {
    pub fn new(node_type: NodeType, children: Vec<Node>) -> (n: Node)
        ensures
            n.model() == (NodeModel { kind: node_type.model(), children: models(children@) }),
    {
        Node { children, node_type }
    }
}

} // verus!
