//! The style object model: rules, selectors, declarations and values.
//!
//! Colour channels are held as integers from 0 to 255 (255 stands for full
//! intensity) and lengths as whole numbers, so that every value is exact.

use vstd::prelude::*;

use crate::chars::{push_text, string_of};

verus! {

pub struct Stylesheet {
    pub rules: Vec<Rule>,
}

pub struct Rule {
    pub selectors: Vec<Selector>,
    pub declarations: Vec<Declaration>,
}

#[derive(Debug, PartialEq, Eq)]
pub struct Selector {
    pub simple: Vec<SimpleSelector>,
    /// Reserved for combinators; the parser never fills it.
    pub combinators: Vec<char>,
}

#[derive(Debug, PartialEq, Eq)]
pub struct SimpleSelector {
    pub tag_name: Option<String>,
    pub id: Option<String>,
    pub classes: Vec<String>,
}

#[derive(Debug, PartialEq, Eq)]
pub struct Declaration {
    pub property: String,
    pub value: Value,
}

#[derive(Debug, PartialEq, Eq)]
pub enum Value {
    Color(Color),
    Length(u64, Unit),
    Other(String),
}

#[derive(Debug, Clone, Copy, PartialEq, Eq, Structural)]
pub enum Unit {
    Px,
    Em,
    Rem,
    Vh,
    Vw,
    Vmin,
    Vmax,
}

/// A colour with four channels, each from 0 (none) to 255 (full).
#[derive(Debug, Clone, Copy, PartialEq, Eq, Structural)]
pub struct Color {
    pub r: u8,
    pub g: u8,
    pub b: u8,
    pub a: u8,
}

/// What a simple selector asks of an element, as plain sequences.
pub struct SimpleModel {
    pub tag: Option<Seq<char>>,
    pub id: Option<Seq<char>>,
    pub classes: Seq<Seq<char>>,
}

pub struct SelectorModel {
    pub simple: Seq<SimpleModel>,
    pub combinators: Seq<char>,
}

pub enum ValueModel {
    Color(Color),
    Length(u64, Unit),
    Other(Seq<char>),
}

pub struct DeclModel {
    pub property: Seq<char>,
    pub value: ValueModel,
}

pub struct RuleModel {
    pub selectors: Seq<SelectorModel>,
    pub declarations: Seq<DeclModel>,
}

pub open spec fn text_view(o: Option<String>) -> Option<Seq<char>> {
    match o {
        Some(t) => Some(t@),
        None => None,
    }
}

impl View for SimpleSelector {
    type V = SimpleModel;

    open spec fn view(&self) -> SimpleModel {
        SimpleModel {
            tag: text_view(self.tag_name),
            id: text_view(self.id),
            classes: self.classes@.map_values(|c: String| c@),
        }
    }
}

impl View for Selector {
    type V = SelectorModel;

    open spec fn view(&self) -> SelectorModel {
        SelectorModel {
            simple: self.simple@.map_values(|s: SimpleSelector| s@),
            combinators: self.combinators@,
        }
    }
}

impl View for Value {
    type V = ValueModel;

    open spec fn view(&self) -> ValueModel {
        match self {
            Value::Color(c) => ValueModel::Color(*c),
            Value::Length(n, u) => ValueModel::Length(*n, *u),
            Value::Other(t) => ValueModel::Other(t@),
        }
    }
}

impl View for Declaration {
    type V = DeclModel;

    open spec fn view(&self) -> DeclModel {
        DeclModel { property: self.property@, value: self.value@ }
    }
}

impl View for Rule {
    type V = RuleModel;

    open spec fn view(&self) -> RuleModel {
        RuleModel {
            selectors: self.selectors@.map_values(|s: Selector| s@),
            declarations: self.declarations@.map_values(|d: Declaration| d@),
        }
    }
}

impl View for Stylesheet {
    type V = Seq<RuleModel>;

    open spec fn view(&self) -> Seq<RuleModel> {
        self.rules@.map_values(|r: Rule| r@)
    }
}

impl Stylesheet {
    pub fn new(rules: Vec<Rule>) -> (r: Stylesheet)
        ensures
            r.rules@ == rules@,
    {
        Stylesheet { rules }
    }
}

impl Rule {
    pub fn new(selectors: Vec<Selector>, declarations: Vec<Declaration>) -> (r: Rule)
        ensures
            r.selectors@ == selectors@,
            r.declarations@ == declarations@,
    {
        Rule { selectors, declarations }
    }
}

impl Selector {
    pub fn new(simple: Vec<SimpleSelector>, combinators: Vec<char>) -> (r: Selector)
        ensures
            r.simple@ == simple@,
            r.combinators@ == combinators@,
    {
        Selector { simple, combinators }
    }

    /// The selector that constrains nothing.
    pub open spec fn is_blank(&self) -> bool {
        self.simple@.len() == 0 && self.combinators@.len() == 0
    }
}

impl SimpleSelector {
    pub fn new(tag_name: Option<String>, id: Option<String>, classes: Vec<String>) -> (r:
        SimpleSelector)
        ensures
            r.tag_name == tag_name,
            r.id == id,
            r.classes@ == classes@,
    {
        SimpleSelector { tag_name, id, classes }
    }

    /// The simple selector that constrains nothing.
    pub open spec fn is_blank(&self) -> bool {
        self.tag_name is None && self.id is None && self.classes@.len() == 0
    }
}

impl Declaration {
    pub fn new(property: String, value: Value) -> (r: Declaration)
        ensures
            r.property == property,
            r.value == value,
    {
        Declaration { property, value }
    }
}

impl Color {
    pub fn new(r: u8, g: u8, b: u8, a: u8) -> (c: Color)
        ensures
            c == (Color { r, g, b, a }),
    {
        Color { r, g, b, a }
    }
}

impl Default for Stylesheet {
    fn default() -> (r: Stylesheet)
        ensures
            r.rules@.len() == 0,
    {
        Stylesheet { rules: Vec::new() }
    }
}

impl Default for Rule {
    fn default() -> (r: Rule)
        ensures
            r.selectors@.len() == 0,
            r.declarations@.len() == 0,
    {
        Rule { selectors: Vec::new(), declarations: Vec::new() }
    }
}

impl Default for Selector {
    fn default() -> (r: Selector)
        ensures
            r.is_blank(),
    {
        Selector { simple: Vec::new(), combinators: Vec::new() }
    }
}

impl Default for SimpleSelector {
    fn default() -> (r: SimpleSelector)
        ensures
            r.is_blank(),
    {
        SimpleSelector { tag_name: None, id: None, classes: Vec::new() }
    }
}

impl Default for Declaration {
    fn default() -> (r: Declaration)
        ensures
            r@ == (DeclModel { property: seq![], value: ValueModel::Other(seq![]) }),
    {
        Declaration { property: String::new(), value: Value::Other(String::new()) }
    }
}

impl Default for Color {
    /// Opaque white.
    fn default() -> (r: Color)
        ensures
            r == (Color { r: 255, g: 255, b: 255, a: 255 }),
    {
        Color::new(255, 255, 255, 255)
    }
}

/// `.a.b` for the classes `a` and `b`.
pub open spec fn classes_text(cs: Seq<Seq<char>>) -> Seq<char>
    decreases cs.len(),
{
    if cs.len() == 0 {
        seq![]
    } else {
        classes_text(cs.drop_last()) + seq!['.'] + cs.last()
    }
}

/// A simple selector written back as text: `tag#id.class`.
pub open spec fn simple_text(m: SimpleModel) -> Seq<char> {
    (match m.tag {
        Some(t) => t,
        None => seq![],
    }) + (match m.id {
        Some(i) => seq!['#'] + i,
        None => seq![],
    }) + classes_text(m.classes)
}

/// The simple selectors of a selector written back, separated by `, `.
pub open spec fn selector_text(ms: Seq<SimpleModel>) -> Seq<char>
    decreases ms.len(),
{
    if ms.len() == 0 {
        seq![]
    } else if ms.len() == 1 {
        simple_text(ms[0])
    } else {
        selector_text(ms.drop_last()) + seq![',', ' '] + simple_text(ms.last())
    }
}

impl SimpleSelector {
    fn write_to(&self, out: &mut Vec<char>)
        ensures
            final(out)@ == old(out)@ + simple_text(self@),
    {
        let ghost start = out@;
        match &self.tag_name {
            Some(t) => push_text(out, t.as_str()),
            None => {},
        }
        match &self.id {
            Some(i) => {
                out.push('#');
                push_text(out, i.as_str());
            },
            None => {},
        }
        let ghost head = out@;
        let mut k: usize = 0;
        while k < self.classes.len()
            invariant
                k <= self.classes@.len(),
                out@ == head + classes_text(self@.classes.subrange(0, k as int)),
            decreases self.classes@.len() - k,
        {
            let ghost cs = self@.classes.subrange(0, k + 1);
            assert(cs.drop_last() == self@.classes.subrange(0, k as int));
            out.push('.');
            push_text(out, self.classes[k].as_str());
            k = k + 1;
        }
        assert(self@.classes.subrange(0, self@.classes.len() as int) == self@.classes);
    }

    /// The selector as text: `tag#id.class`.
    pub fn to_text(&self) -> (r: String)
        ensures
            r@ == simple_text(self@),
    {
        let mut out: Vec<char> = Vec::new();
        self.write_to(&mut out);
        assert(out@ == simple_text(self@));
        string_of(out.as_slice())
    }
}

impl Selector {
    /// The selector as text, its simple selectors separated by `, `.
    pub fn to_text(&self) -> (r: String)
        ensures
            r@ == selector_text(self@.simple),
    {
        let mut out: Vec<char> = Vec::new();
        let mut k: usize = 0;
        while k < self.simple.len()
            invariant
                k <= self.simple@.len(),
                out@ == selector_text(self@.simple.subrange(0, k as int)),
            decreases self.simple@.len() - k,
        {
            let ghost ms = self@.simple.subrange(0, k + 1);
            assert(ms.drop_last() == self@.simple.subrange(0, k as int));
            if k > 0 {
                out.push(',');
                out.push(' ');
            }
            self.simple[k].write_to(&mut out);
            k = k + 1;
        }
        assert(self@.simple.subrange(0, self@.simple.len() as int) == self@.simple);
        string_of(out.as_slice())
    }
}

} // verus!
