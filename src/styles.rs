//! The style resolver: pairs each element of a document with the
//! declarations of the rules whose selectors match it.

use vstd::prelude::*;

use crate::chars::same_text;
use crate::css::{DeclModel, Declaration, RuleModel, Selector, SelectorModel, SimpleModel, Stylesheet, Value, ValueModel};
use crate::dom::{class_list, lookup, ElementData, Node, NodeType};

verus! {

broadcast use vstd::std_specs::vec::group_vec_axioms;

/// Whether a simple selector accepts an element with this tag and these
/// attributes: the tag, when given, is the element's; the id is the
/// element's (both absent, or both present and equal); every class is one of
/// the element's classes.
pub open spec fn simple_matches(
    tag: Seq<char>,
    attrs: Seq<(Seq<char>, Seq<char>)>,
    sel: SimpleModel,
) -> bool {
    &&& (sel.tag matches Some(t) ==> t == tag)
    &&& sel.id == lookup(attrs, "id"@)
    &&& forall|i: int| 0 <= i < sel.classes.len() ==> class_list(attrs).contains(#[trigger] sel.classes[i])
}

pub open spec fn selector_matches(
    tag: Seq<char>,
    attrs: Seq<(Seq<char>, Seq<char>)>,
    sel: SelectorModel,
) -> bool {
    exists|i: int| 0 <= i < sel.simple.len() && simple_matches(tag, attrs, #[trigger] sel.simple[i])
}

pub open spec fn rule_matches(tag: Seq<char>, attrs: Seq<(Seq<char>, Seq<char>)>, rule: RuleModel) -> bool {
    exists|i: int| 0 <= i < rule.selectors.len() && selector_matches(tag, attrs, #[trigger] rule.selectors[i])
}

/// The declarations of the matching rules, in document order.
pub open spec fn matched(
    tag: Seq<char>,
    attrs: Seq<(Seq<char>, Seq<char>)>,
    rules: Seq<RuleModel>,
) -> Seq<DeclModel>
    decreases rules.len(),
{
    if rules.len() == 0 {
        seq![]
    } else {
        matched(tag, attrs, rules.drop_last()) + if rule_matches(tag, attrs, rules.last()) {
            rules.last().declarations
        } else {
            seq![]
        }
    }
}

/// The value that the last declaration of `property` gives.
pub open spec fn last_with(ds: Seq<DeclModel>, property: Seq<char>) -> Option<ValueModel>
    decreases ds.len(),
{
    if ds.len() == 0 {
        None
    } else if ds.last().property == property {
        Some(ds.last().value)
    } else {
        last_with(ds.drop_last(), property)
    }
}

proof fn lemma_last_with_concat(a: Seq<DeclModel>, b: Seq<DeclModel>, p: Seq<char>)
    ensures
        last_with(a + b, p) == if last_with(b, p) is Some {
            last_with(b, p)
        } else {
            last_with(a, p)
        },
    decreases b.len(),
{
    if b.len() == 0 {
        assert(a + b == a);
    } else {
        assert((a + b).drop_last() == a + b.drop_last());
        assert((a + b).last() == b.last());
        lemma_last_with_concat(a, b.drop_last(), p);
    }
}

/// Cascade: when the last rule matches and declares a property, the value
/// that rule gives wins over every earlier rule.
pub proof fn lemma_later_rule_wins(
    tag: Seq<char>,
    attrs: Seq<(Seq<char>, Seq<char>)>,
    rules: Seq<RuleModel>,
    rule: RuleModel,
    p: Seq<char>,
)
    requires
        rule_matches(tag, attrs, rule),
        last_with(rule.declarations, p) is Some,
    ensures
        last_with(matched(tag, attrs, rules.push(rule)), p) == last_with(rule.declarations, p),
{
    assert(rules.push(rule).drop_last() == rules);
    lemma_last_with_concat(matched(tag, attrs, rules), rule.declarations, p);
}

/// A rule that does not match leaves the resolved values as they were.
pub proof fn lemma_unmatched_rule_changes_nothing(
    tag: Seq<char>,
    attrs: Seq<(Seq<char>, Seq<char>)>,
    rules: Seq<RuleModel>,
    rule: RuleModel,
)
    requires
        !rule_matches(tag, attrs, rule),
    ensures
        matched(tag, attrs, rules.push(rule)) == matched(tag, attrs, rules),
{
    assert(rules.push(rule).drop_last() == rules);
    assert(matched(tag, attrs, rules) + Seq::<DeclModel>::empty() == matched(tag, attrs, rules));
}

/// A rule adds its declarations once, however many of its selectors match:
/// after the first matching selector the others make no difference.
pub proof fn lemma_rule_contributes_once(
    tag: Seq<char>,
    attrs: Seq<(Seq<char>, Seq<char>)>,
    rule: RuleModel,
    i: int,
)
    requires
        0 <= i < rule.selectors.len(),
        selector_matches(tag, attrs, rule.selectors[i]),
    ensures
        matched(tag, attrs, seq![rule]) == rule.declarations,
{
    assert(seq![rule].drop_last() =~= Seq::<RuleModel>::empty());
    assert(seq![rule].last() == rule);
    assert(rule_matches(tag, attrs, rule));
    assert(matched(tag, attrs, Seq::<RuleModel>::empty()) == Seq::<DeclModel>::empty());
    assert(Seq::<DeclModel>::empty() + rule.declarations == rule.declarations);
}

fn has_class(classes: &Vec<String>, c: &String) -> (r: bool)
    ensures
        r == classes@.map_values(|x: String| x@).contains(c@),
{
    let ghost v = classes@.map_values(|x: String| x@);
    let mut i: usize = 0;
    while i < classes.len()
        invariant
            v == classes@.map_values(|x: String| x@),
            i <= classes@.len(),
            forall|k: int| 0 <= k < i ==> v[k] != c@,
        decreases classes@.len() - i,
    {
        if classes[i] == *c {
            assert(v[i as int] == c@);
            return true;
        }
        i = i + 1;
    }
    false
}

fn is_simple_match(el: &ElementData, simple: &crate::css::SimpleSelector) -> (r: bool)
    ensures
        r == simple_matches(el.tag_name@, el.attrs(), simple@),
{
    match &simple.tag_name {
        Some(t) => {
            if !(*t == el.tag_name) {
                return false;
            }
        },
        None => {},
    }
    match el.get_id() {
        Some(i) => match &simple.id {
            Some(id) => {
                if !(*i == *id) {
                    return false;
                }
            },
            None => {
                return false;
            },
        },
        None => match &simple.id {
            Some(_) => {
                return false;
            },
            None => {},
        },
    }
    let el_classes = el.get_classes();
    let mut j: usize = 0;
    while j < simple.classes.len()
        invariant
            el_classes@.map_values(|x: String| x@) == class_list(el.attrs()),
            j <= simple.classes@.len(),
            forall|k: int| 0 <= k < j ==> class_list(el.attrs()).contains(#[trigger] simple@.classes[k]),
        decreases simple.classes@.len() - j,
    {
        if !has_class(&el_classes, &simple.classes[j]) {
            assert(!class_list(el.attrs()).contains(simple@.classes[j as int]));
            return false;
        }
        j = j + 1;
    }
    true
}

/// Whether some simple selector of `sel` accepts the element.
pub fn is_selector_matches(el: &ElementData, sel: &Selector) -> (r: bool)
    ensures
        r == selector_matches(el.tag_name@, el.attrs(), sel@),
{
    let mut i: usize = 0;
    while i < sel.simple.len()
        invariant
            i <= sel.simple@.len(),
            forall|k: int| 0 <= k < i ==> !simple_matches(el.tag_name@, el.attrs(), #[trigger] sel@.simple[k]),
        decreases sel.simple@.len() - i,
    {
        if is_simple_match(el, &sel.simple[i]) {
            assert(simple_matches(el.tag_name@, el.attrs(), sel@.simple[i as int]));
            return true;
        }
        i = i + 1;
    }
    false
}

/// A document element paired with the declarations that apply to it.
pub struct StyledNode<'a> {
    node: &'a Node,
    styles: Vec<&'a Declaration>,
    pub children: Vec<StyledNode<'a>>,
}

#[derive(Debug, PartialEq, Eq, Structural)]
pub enum Display {
    Block,
    Inline,
    InlineBlock,
    /// Not displayed: `display: none`, or no `display` at all.
    Hidden,
}

/// The declarations that apply to a node: those of the matching rules for an
/// element, none for anything else.
pub open spec fn styles_for(node: Node, sheet: Seq<RuleModel>) -> Seq<DeclModel> {
    match node.node_type {
        NodeType::Element(e) => matched(e.tag_name@, e.attrs(), sheet),
        _ => seq![],
    }
}

/// The element children of a sequence of nodes, in order.
pub open spec fn element_children(ns: Seq<Node>) -> Seq<Node>
    decreases ns.len(),
{
    if ns.len() == 0 {
        seq![]
    } else {
        element_children(ns.drop_last()) + if ns.last().node_type is Element {
            seq![ns.last()]
        } else {
            seq![]
        }
    }
}

pub open spec fn decl_views(ds: Seq<&Declaration>) -> Seq<DeclModel> {
    ds.map_values(|d: &Declaration| d@)
}

/// How `display` is read from its declared value: unset is `None`, and any
/// value that is not a known keyword is `Inline`.
pub open spec fn display_of(v: Option<ValueModel>) -> Display {
    match v {
        None => Display::Hidden,
        Some(ValueModel::Other(t)) => if t == "block"@ {
            Display::Block
        } else if t == "none"@ {
            Display::Hidden
        } else if t == "inline-block"@ {
            Display::InlineBlock
        } else {
            Display::Inline
        },
        Some(_) => Display::Inline,
    }
}

/// The number of a length value, or `def` for anything else.
pub open spec fn number_or(v: Option<ValueModel>, def: u64) -> u64 {
    match v {
        Some(ValueModel::Length(n, _)) => n,
        _ => def,
    }
}

impl<'a> StyledNode<'a> {
    /// The document node this styled node stands for.
    pub closed spec fn source(&self) -> Node {
        *self.node
    }

    /// The declarations that apply, in order; a later one overrides an
    /// earlier one of the same property.
    pub closed spec fn declared(&self) -> Seq<DeclModel> {
        decl_views(self.styles@)
    }

    /// The styled children.
    pub closed spec fn kids(&self) -> Seq<StyledNode<'a>> {
        self.children@
    }

    /// The styled tree for `node` and its element descendants.
    pub open spec fn resolves(&self, sheet: Seq<RuleModel>) -> bool
        decreases self, 1int,
    {
        &&& self.declared() == styles_for(self.source(), sheet)
        &&& self.kids().len() == element_children(self.source().children@).len()
        &&& children_resolve(self.kids(), element_children(self.source().children@), sheet, 0)
    }

    pub fn node(&self) -> (r: &'a Node)
        ensures
            *r == self.source(),
    {
        self.node
    }

    /// Builds the styled tree of `node` against `stylesheet`.
    pub fn new(node: &'a Node, stylesheet: &'a Stylesheet) -> (r: StyledNode<'a>)
        ensures
            r.source() == *node,
            r.resolves(stylesheet@),
        decreases node,
    {
        let mut style_children: Vec<StyledNode<'a>> = Vec::new();
        let mut i: usize = 0;
        while i < node.children.len()
            invariant
                i <= node.children@.len(),
                style_children@.len() == element_children(node.children@.subrange(0, i as int)).len(),
                children_resolve(style_children@, element_children(node.children@.subrange(0, i as int)), stylesheet@, 0),
            decreases node.children@.len() - i,
        {
            let child = &node.children[i];
            let ghost prefix = node.children@.subrange(0, i as int);
            let ghost next = node.children@.subrange(0, i + 1);
            assert(next.drop_last() == prefix);
            let ghost before = style_children@;
            match child.node_type {
                NodeType::Element(_) => {
                    let sc = StyledNode::new(child, stylesheet);
                    style_children.push(sc);
                    proof {
                        lemma_children_resolve_push(before, element_children(prefix), sc, *child, stylesheet@, 0);
                    }
                },
                _ => {
                    assert(element_children(next) == element_children(prefix) + seq![]);
                    assert(element_children(prefix) + Seq::<Node>::empty() == element_children(prefix));
                },
            }
            i = i + 1;
        }
        assert(node.children@.subrange(0, node.children@.len() as int) == node.children@);
        let styles = match &node.node_type {
            NodeType::Element(e) => get_styles(e, stylesheet),
            _ => {
                let v: Vec<&'a Declaration> = Vec::new();
                assert(decl_views(v@) =~= seq![]);
                v
            },
        };
        StyledNode { node, styles, children: style_children }
    }

    /// The declarations that apply, in order.
    pub fn styles(&self) -> (r: &Vec<&'a Declaration>)
        ensures
            decl_views(r@) == self.declared(),
    {
        &self.styles
    }

    /// The resolved value of a property.
    pub fn value(&self, name: &str) -> (r: Option<&'a Value>)
        ensures
            match r {
                Some(v) => last_with(self.declared(), name@) == Some(v@),
                None => last_with(self.declared(), name@) is None,
            },
    {
        let ghost ds = self.declared();
        let mut i: usize = self.styles.len();
        assert(ds.subrange(0, ds.len() as int) == ds);
        while i > 0
            invariant
                ds == decl_views(self.styles@),
                i <= ds.len(),
                last_with(ds, name@) == last_with(ds.subrange(0, i as int), name@),
            decreases i,
        {
            let ghost part = ds.subrange(0, i as int);
            assert(part.drop_last() == ds.subrange(0, i - 1));
            let d: &'a Declaration = self.styles[i - 1];
            if same_text(d.property.as_str(), name) {
                return Some(&d.value);
            }
            i = i - 1;
        }
        None
    }

    /// How the node is displayed.
    pub fn get_display(&self) -> (r: Display)
        ensures
            r == display_of(last_with(self.declared(), "display"@)),
    {
        match self.value("display") {
            Some(Value::Other(v)) => {
                if same_text(v.as_str(), "block") {
                    Display::Block
                } else if same_text(v.as_str(), "none") {
                    Display::Hidden
                } else if same_text(v.as_str(), "inline-block") {
                    Display::InlineBlock
                } else {
                    Display::Inline
                }
            },
            Some(_) => Display::Inline,
            None => Display::Hidden,
        }
    }

    /// The number of a length property, or `def` when the property is unset
    /// or holds another kind of value.
    pub fn num_or(&self, name: &str, def: u64) -> (r: u64)
        ensures
            r == number_or(last_with(self.declared(), name@), def),
    {
        match self.value(name) {
            Some(Value::Length(n, _)) => *n,
            _ => def,
        }
    }
}

/// `styled[i..]` is the styled tree of each of `nodes[i..]`.
pub open spec fn children_resolve(
    styled: Seq<StyledNode>,
    nodes: Seq<Node>,
    sheet: Seq<RuleModel>,
    i: int,
) -> bool
    decreases styled, styled.len() - i,
{
    if 0 <= i < styled.len() {
        &&& i < nodes.len()
        &&& styled[i].source() == nodes[i]
        &&& styled[i].resolves(sheet)
        &&& children_resolve(styled, nodes, sheet, i + 1)
    } else {
        true
    }
}

proof fn lemma_children_resolve_push(
    styled: Seq<StyledNode>,
    nodes: Seq<Node>,
    s: StyledNode,
    n: Node,
    sheet: Seq<RuleModel>,
    i: int,
)
    requires
        0 <= i <= styled.len(),
        styled.len() == nodes.len(),
        children_resolve(styled, nodes, sheet, i),
        s.source() == n,
        s.resolves(sheet),
    ensures
        children_resolve(styled.push(s), nodes + seq![n], sheet, i),
    decreases styled.len() - i,
{
    if i < styled.len() {
        lemma_children_resolve_push(styled, nodes, s, n, sheet, i + 1);
        assert(styled.push(s)[i] == styled[i]);
        assert((nodes + seq![n])[i] == nodes[i]);
    } else {
        assert(styled.push(s)[i] == s);
        assert((nodes + seq![n])[i] == n);
        assert(children_resolve(styled.push(s), nodes + seq![n], sheet, i + 1));
    }
}

/// The declarations of the rules that match `el`, in document order.
fn get_styles<'a>(el: &ElementData, stylesheet: &'a Stylesheet) -> (r: Vec<&'a Declaration>)
    ensures
        decl_views(r@) == matched(el.tag_name@, el.attrs(), stylesheet@),
{
    let mut styles: Vec<&'a Declaration> = Vec::new();
    let ghost rules = stylesheet@;
    let mut i: usize = 0;
    assert(decl_views(styles@) =~= seq![]);
    while i < stylesheet.rules.len()
        invariant
            rules == stylesheet@,
            i <= rules.len(),
            decl_views(styles@) == matched(el.tag_name@, el.attrs(), rules.subrange(0, i as int)),
        decreases rules.len() - i,
    {
        let rule = &stylesheet.rules[i];
        let ghost prefix = rules.subrange(0, i as int);
        let ghost next = rules.subrange(0, i + 1);
        assert(next.drop_last() == prefix);
        assert(next.last() == rule@);
        let mut j: usize = 0;
        let mut hit = false;
        while j < rule.selectors.len()
            invariant_except_break
                !hit,
            invariant
                j <= rule.selectors@.len(),
                forall|k: int| 0 <= k < j ==> !selector_matches(el.tag_name@, el.attrs(), #[trigger] rule@.selectors[k]),
            ensures
                hit ==> j < rule.selectors@.len() && selector_matches(el.tag_name@, el.attrs(), rule@.selectors[j as int]),
                !hit ==> j == rule.selectors@.len(),
            decreases rule.selectors@.len() - j,
        {
            if is_selector_matches(el, &rule.selectors[j]) {
                hit = true;
                break;
            }
            j = j + 1;
        }
        let ghost before = decl_views(styles@);
        if hit {
            assert(selector_matches(el.tag_name@, el.attrs(), rule@.selectors[j as int]));
            let mut k: usize = 0;
            while k < rule.declarations.len()
                invariant
                    k <= rule.declarations@.len(),
                    decl_views(styles@) == before + rule@.declarations.subrange(0, k as int),
                decreases rule.declarations@.len() - k,
            {
                let ghost b2 = decl_views(styles@);
                styles.push(&rule.declarations[k]);
                assert(decl_views(styles@) == b2.push(rule@.declarations[k as int]));
                assert(rule@.declarations.subrange(0, k + 1) == rule@.declarations.subrange(0, k as int).push(rule@.declarations[k as int]));
                k = k + 1;
            }
            assert(rule@.declarations.subrange(0, rule@.declarations.len() as int) == rule@.declarations);
        } else {
            assert(!rule_matches(el.tag_name@, el.attrs(), rule@));
            assert(before + Seq::<DeclModel>::empty() == before);
        }
        i = i + 1;
    }
    assert(rules.subrange(0, rules.len() as int) == rules);
    styles
}

} // verus!
