//! Recursive-descent parser from markup text to a document tree.
//!
//! The grammar is stated as spec functions that give, for a position in the
//! text, what is read there and how many characters that takes, or which
//! fatal error stops the parse there. The parser is proved to follow it.

use vstd::prelude::*;

use crate::chars::{chars_of, is_space, space, string_of};
use crate::dom::{
    AttrMap, KindModel, Node, NodeModel, all_wf, elem, insert_attr, lemma_models_empty,
    lemma_models_push, models, text,
};

verus! {

/// A fatal error: the parse stops at the first one.
#[derive(Debug, PartialEq, Eq)]
pub enum MarkupError {
    /// Some text was expected at a character offset and was not found there.
    MalformedSyntax { expected: String, offset: usize },
    /// A character was needed past the end of the input.
    UnexpectedEnd,
}

pub enum MRun {
    Space,
    /// ASCII letters and digits.
    Name,
    /// Anything but `<`.
    Text,
    /// Anything but the given quote.
    Quoted(char),
}

impl MRun {
    pub open spec fn holds(self, c: char) -> bool {
        match self {
            MRun::Space => is_space(c),
            MRun::Name => ('a' <= c && c <= 'z') || ('A' <= c && c <= 'Z') || ('0' <= c && c
                <= '9'),
            MRun::Text => c != '<',
            MRun::Quoted(q) => c != q,
        }
    }

    fn test(&self, c: char) -> (r: bool)
        ensures
            r == self.holds(c),
    {
        match self {
            MRun::Space => space(c),
            MRun::Name => ('a' <= c && c <= 'z') || ('A' <= c && c <= 'Z') || ('0' <= c && c
                <= '9'),
            MRun::Text => c != '<',
            MRun::Quoted(q) => c != *q,
        }
    }
}

/// How many characters the run of kind `k` at `p` holds.
pub open spec fn run_len(s: Seq<char>, p: int, k: MRun) -> nat
    decreases s.len() - p,
{
    if 0 <= p < s.len() && k.holds(s[p]) {
        1 + run_len(s, p + 1, k)
    } else {
        0
    }
}

proof fn lemma_run_len(s: Seq<char>, p: int, k: MRun)
    requires
        0 <= p <= s.len(),
    ensures
        p + run_len(s, p, k) <= s.len(),
    decreases s.len() - p,
{
    if p < s.len() && k.holds(s[p]) {
        lemma_run_len(s, p + 1, k);
    }
}

pub open spec fn starts_at(s: Seq<char>, p: int, lit: Seq<char>) -> bool {
    0 <= p && p + lit.len() <= s.len() && s.subrange(p, p + lit.len()) == lit
}

/// What kind of fatal error the grammar finds.
pub enum Fault {
    /// Something other than what the grammar needs comes next.
    Syntax,
    /// The text ends where the grammar needs one more character.
    End,
}

impl MarkupError {
    pub open spec fn fault(&self) -> Fault {
        match self {
            MarkupError::MalformedSyntax { .. } => Fault::Syntax,
            MarkupError::UnexpectedEnd => Fault::End,
        }
    }
}

/// One attribute `name="value"` (or with single quotes) at `p`: its name,
/// its value and its length.
pub open spec fn attr_at(s: Seq<char>, p: int) -> Result<(Seq<char>, Seq<char>, nat), Fault> {
    let n = run_len(s, p, MRun::Name);
    let o = p + n + 1;
    if !starts_at(s, p + n, "="@) {
        Err(Fault::Syntax)
    } else if o >= s.len() {
        Err(Fault::End)
    } else if s[o] != '"' && s[o] != '\'' {
        Err(Fault::Syntax)
    } else {
        let v = run_len(s, o + 1, MRun::Quoted(s[o]));
        let c = o + 1 + v;
        if c >= s.len() {
            Err(Fault::End)
        } else {
            Ok((s.subrange(p, p + n), s.subrange(o + 1, c), n + 3 + v))
        }
    }
}

/// The attributes from `p` up to the `>` that ends them (not consumed),
/// added to `acc`, and the length they take.
pub open spec fn attrs_from(s: Seq<char>, p: int, acc: Seq<(Seq<char>, Seq<char>)>) -> Result<
    (Seq<(Seq<char>, Seq<char>)>, nat),
    Fault,
>
    decreases s.len() - p,
{
    let w = run_len(s, p, MRun::Space);
    let q = p + w;
    if q < 0 || q >= s.len() {
        Err(Fault::End)
    } else if s[q] == '>' {
        Ok((acc, w))
    } else {
        match attr_at(s, q) {
            Err(f) => Err(f),
            Ok((k, v, m)) => match attrs_from(s, q + m, insert_attr(acc, k, v)) {
                Err(f) => Err(f),
                Ok((a, r)) => Ok((a, w + m + r)),
            },
        }
    }
}

/// The node at `p` and its length: an element when the text there starts
/// with `<`, a text run otherwise.
pub open spec fn node_at(s: Seq<char>, p: int) -> Result<(NodeModel, nat), Fault>
    decreases s.len() - p, 0int,
{
    if starts_at(s, p, "<"@) {
        let n = run_len(s, p + 1, MRun::Name);
        let tag = s.subrange(p + 1, p + 1 + n);
        let b = p + 1 + n;
        match attrs_from(s, b, seq![]) {
            Err(f) => Err(f),
            Ok((attrs, a)) => {
                let c = b + a;
                if !starts_at(s, c, ">"@) || c + 1 > s.len() {
                    Err(Fault::Syntax)
                } else {
                    match nodes_from(s, c + 1) {
                        Err(f) => Err(f),
                        Ok((kids, k)) => {
                            let d = c + 1 + k;
                            if starts_at(s, d, "</"@) && starts_at(s, d + 2, tag) && starts_at(
                                s,
                                d + 2 + n,
                                ">"@,
                            ) {
                                Ok(
                                    (
                                        NodeModel {
                                            kind: KindModel::Element(tag, attrs),
                                            children: kids,
                                        },
                                        (d + 3 + n - p) as nat,
                                    ),
                                )
                            } else {
                                Err(Fault::Syntax)
                            }
                        },
                    }
                }
            },
        }
    } else {
        let t = run_len(s, p, MRun::Text);
        Ok((NodeModel { kind: KindModel::Text(s.subrange(p, p + t)), children: seq![] }, t))
    }
}

/// The nodes from `p` up to the end of the text or to a `</`, with the
/// whitespace before each; a node always takes at least one character and
/// never more than what is left.
pub open spec fn nodes_from(s: Seq<char>, p: int) -> Result<(Seq<NodeModel>, nat), Fault>
    decreases s.len() - p, 1int,
{
    let w = run_len(s, p, MRun::Space);
    let q = p + w;
    if q >= s.len() || starts_at(s, q, "</"@) {
        Ok((seq![], w))
    } else {
        match node_at(s, q) {
            Err(f) => Err(f),
            Ok((n, m)) => if m == 0 || q + m > s.len() {
                Err(Fault::Syntax)
            } else {
                match nodes_from(s, q + m) {
                    Err(f) => Err(f),
                    Ok((rest, r)) => Ok((seq![n] + rest, w + m + r)),
                }
            },
        }
    }
}

/// The document a markup text describes: its one top-level node, or an
/// `html` element around all of them when there are none or several.
pub open spec fn document_of(s: Seq<char>) -> Result<NodeModel, Fault> {
    match nodes_from(s, 0) {
        Err(f) => Err(f),
        Ok((ns, _)) => Ok(
            if ns.len() == 1 {
                ns[0]
            } else {
                NodeModel { kind: KindModel::Element("html"@, seq![]), children: ns }
            },
        ),
    }
}

pub struct Parser {
    input: Vec<char>,
}

fn expected(what: &str, offset: usize) -> (e: MarkupError)
    ensures
        e.fault() == Fault::Syntax,
{
    MarkupError::MalformedSyntax { expected: string_of(chars_of(what).as_slice()), offset }
}

impl Parser {
    closed spec fn wf(&self) -> bool {
        self.input@.len() <= usize::MAX
    }

    fn next_char(&self, p: usize) -> (c: char)
        requires
            p < self.input@.len(),
        ensures
            c == self.input@[p as int],
    {
        self.input[p]
    }

    fn starts_with(&self, p: usize, lit: &[char]) -> (r: bool)
        requires
            self.wf(),
            p <= self.input@.len(),
        ensures
            r == starts_at(self.input@, p as int, lit@),
    {
        if lit.len() > self.input.len() - p {
            return false;
        }
        assert(p + lit@.len() <= self.input@.len());
        let mut i: usize = 0;
        while i < lit.len()
            invariant
                self.wf(),
                p + lit@.len() <= self.input@.len(),
                i <= lit@.len(),
                self.input@.subrange(p as int, p + i) == lit@.subrange(0, i as int),
            decreases lit@.len() - i,
        {
            if self.input[p + i] != lit[i] {
                assert(self.input@.subrange(p as int, p + lit@.len())[i as int] != lit@[i as int]);
                return false;
            }
            assert(self.input@.subrange(p as int, p + i + 1) == self.input@.subrange(p as int, p + i).push(self.input@[p + i]));
            assert(lit@.subrange(0, i + 1) == lit@.subrange(0, i as int).push(lit@[i as int]));
            i = i + 1;
        }
        assert(lit@.subrange(0, lit@.len() as int) == lit@);
        true
    }

    /// Steps over `lit`, which must come next.
    fn expect(&self, p: usize, lit: &[char]) -> (r: Result<usize, MarkupError>)
        requires
            self.wf(),
            p <= self.input@.len(),
        ensures
            match r {
                Ok(e) => starts_at(self.input@, p as int, lit@) && e == p + lit@.len(),
                Err(x) => !starts_at(self.input@, p as int, lit@) && x.fault() == Fault::Syntax,
            },
    {
        if self.starts_with(p, lit) {
            Ok(p + lit.len())
        } else {
            Err(MarkupError::MalformedSyntax { expected: string_of(lit), offset: p })
        }
    }

    fn eof(&self, p: usize) -> (r: bool)
        ensures
            r == (p >= self.input@.len()),
    {
        p >= self.input.len()
    }

    fn consume_while(&self, p: usize, k: MRun) -> (r: (Vec<char>, usize))
        requires
            self.wf(),
            p <= self.input@.len(),
        ensures
            r.1 == p + run_len(self.input@, p as int, k),
            r.1 <= self.input@.len(),
            r.0@ == self.input@.subrange(p as int, r.1 as int),
    {
        let mut out: Vec<char> = Vec::new();
        let mut i: usize = p;
        proof {
            lemma_run_len(self.input@, p as int, k);
        }
        while i < self.input.len() && k.test(self.input[i])
            invariant
                self.wf(),
                p <= i <= self.input@.len(),
                p + run_len(self.input@, p as int, k) == i + run_len(self.input@, i as int, k),
                out@ == self.input@.subrange(p as int, i as int),
            decreases self.input@.len() - i,
        {
            out.push(self.input[i]);
            assert(self.input@.subrange(p as int, i + 1) == self.input@.subrange(p as int, i as int).push(self.input@[i as int]));
            i = i + 1;
        }
        (out, i)
    }

    fn consume_whitespace(&self, p: usize) -> (e: usize)
        requires
            self.wf(),
            p <= self.input@.len(),
        ensures
            e == p + run_len(self.input@, p as int, MRun::Space),
            e <= self.input@.len(),
    {
        self.consume_while(p, MRun::Space).1
    }

    fn parse_name(&self, p: usize) -> (r: (Vec<char>, usize))
        requires
            self.wf(),
            p <= self.input@.len(),
        ensures
            r.1 == p + run_len(self.input@, p as int, MRun::Name),
            r.1 <= self.input@.len(),
            r.0@ == self.input@.subrange(p as int, r.1 as int),
    {
        self.consume_while(p, MRun::Name)
    }

    fn parse_text(&self, p: usize) -> (r: (Node, usize))
        requires
            self.wf(),
            p <= self.input@.len(),
        ensures
            r.1 == p + run_len(self.input@, p as int, MRun::Text),
            r.1 <= self.input@.len(),
            r.0.model() == (NodeModel {
                kind: KindModel::Text(self.input@.subrange(p as int, r.1 as int)),
                children: seq![],
            }),
            r.0.wf(),
    {
        let (t, e) = self.consume_while(p, MRun::Text);
        (text(string_of(t.as_slice())), e)
    }

    fn parse_attr_value(&self, p: usize) -> (r: Result<(Vec<char>, usize), MarkupError>)
        requires
            self.wf(),
            p <= self.input@.len(),
        ensures
            match r {
                Ok((v, e)) => {
                    let s = self.input@;
                    &&& p < s.len() && (s[p as int] == '"' || s[p as int] == '\'')
                    &&& e == p + 2 + run_len(s, p + 1, MRun::Quoted(s[p as int]))
                    &&& e <= s.len()
                    &&& v@ == s.subrange(p + 1, e - 1)
                },
                Err(x) => {
                    let s = self.input@;
                    if p >= s.len() {
                        x.fault() == Fault::End
                    } else if s[p as int] != '"' && s[p as int] != '\'' {
                        x.fault() == Fault::Syntax
                    } else {
                        p + 1 + run_len(s, p + 1, MRun::Quoted(s[p as int])) >= s.len()
                            && x.fault() == Fault::End
                    }
                },
            },
    {
        if self.eof(p) {
            return Err(MarkupError::UnexpectedEnd);
        }
        let open_quote = self.next_char(p);
        if open_quote != '"' && open_quote != '\'' {
            return Err(expected("quote", p));
        }
        let (value, c) = self.consume_while(p + 1, MRun::Quoted(open_quote));
        if self.eof(c) {
            return Err(MarkupError::UnexpectedEnd);
        }
        Ok((value, c + 1))
    }

    fn parse_attr(&self, p: usize) -> (r: Result<(String, String, usize), MarkupError>)
        requires
            self.wf(),
            p <= self.input@.len(),
        ensures
            match r {
                Ok((k, v, e)) => attr_at(self.input@, p as int) == Ok::<_, Fault>((k@, v@, (e - p) as nat))
                    && p < e <= self.input@.len(),
                Err(x) => attr_at(self.input@, p as int) == Err::<(Seq<char>, Seq<char>, nat), _>(x.fault()),
            },
    {
        let (name, n) = self.parse_name(p);
        let eq = chars_of("=");
        proof {
            reveal_strlit("=");
        }
        let o = self.expect(n, eq.as_slice())?;
        let (value, e) = self.parse_attr_value(o)?;
        Ok((string_of(name.as_slice()), string_of(value.as_slice()), e))
    }

    fn parse_attrs(&self, p: usize) -> (r: Result<(AttrMap, usize), MarkupError>)
        requires
            self.wf(),
            p <= self.input@.len(),
        ensures
            match r {
                Ok((m, e)) => attrs_from(self.input@, p as int, seq![]) == Ok::<_, Fault>((m@, (e - p) as nat))
                    && m.wf() && p <= e <= self.input@.len(),
                Err(x) => attrs_from(self.input@, p as int, seq![]) == Err::<(Seq<(Seq<char>, Seq<char>)>, nat), _>(x.fault()),
            },
    {
        let ghost s = self.input@;
        let mut attrs = AttrMap::new();
        let mut i: usize = p;
        loop
            invariant
                self.wf(),
                p <= i <= s.len(),
                s == self.input@,
                attrs.wf(),
                attrs_from(s, p as int, seq![]) == match attrs_from(s, i as int, attrs@) {
                    Err(f) => Err(f),
                    Ok((a, r)) => Ok((a, (i - p + r) as nat)),
                },
            decreases s.len() - i,
        {
            let q = self.consume_whitespace(i);
            if self.eof(q) {
                return Err(MarkupError::UnexpectedEnd);
            }
            if self.next_char(q) == '>' {
                return Ok((attrs, q));
            }
            let (name, value, e) = self.parse_attr(q)?;
            let ghost before = attrs@;
            attrs.insert(name, value);
            proof {
                let m = (e - q) as nat;
                assert(attr_at(s, q as int) == Ok::<_, Fault>((name@, value@, m)));
                assert(attrs_from(s, i as int, before) == match attrs_from(s, e as int, attrs@) {
                    Err(f) => Err(f),
                    Ok((a, r)) => Ok((a, (q - i + m + r) as nat)),
                });
            }
            i = e;
        }
    }

    fn parse_element(&self, p: usize) -> (r: Result<(Node, usize), MarkupError>)
        requires
            self.wf(),
            p <= self.input@.len(),
            starts_at(self.input@, p as int, "<"@),
        ensures
            match r {
                Ok((n, e)) => node_at(self.input@, p as int) == Ok::<_, Fault>((n.model(), (e - p) as nat))
                    && n.wf() && p <= e <= self.input@.len(),
                Err(x) => node_at(self.input@, p as int) == Err::<(NodeModel, nat), _>(x.fault()),
            },
        decreases self.input@.len() - p, 0int,
    {
        let ghost s = self.input@;
        proof {
            reveal_strlit("<");
            reveal_strlit("</");
            reveal_strlit(">");
        }
        let (tag_name, b) = self.parse_name(p + 1);
        let (attrs, c) = self.parse_attrs(b)?;
        let gt = chars_of(">");
        let close = chars_of("</");
        let c1 = self.expect(c, gt.as_slice())?;
        let (children, d) = self.parse_nodes(c1)?;
        let d1 = self.expect(d, close.as_slice())?;
        let d2 = self.expect(d1, tag_name.as_slice())?;
        let e = self.expect(d2, gt.as_slice())?;
        Ok((elem(string_of(tag_name.as_slice()), attrs, children), e))
    }

    fn parse_node(&self, p: usize) -> (r: Result<(Node, usize), MarkupError>)
        requires
            self.wf(),
            p <= self.input@.len(),
        ensures
            match r {
                Ok((n, e)) => node_at(self.input@, p as int) == Ok::<_, Fault>((n.model(), (e - p) as nat))
                    && n.wf() && p <= e <= self.input@.len(),
                Err(x) => node_at(self.input@, p as int) == Err::<(NodeModel, nat), _>(x.fault()),
            },
        decreases self.input@.len() - p, 1int,
    {
        let lt = chars_of("<");
        if self.starts_with(p, lt.as_slice()) {
            self.parse_element(p)
        } else {
            Ok(self.parse_text(p))
        }
    }

    fn parse_nodes(&self, p: usize) -> (r: Result<(Vec<Node>, usize), MarkupError>)
        requires
            self.wf(),
            p <= self.input@.len(),
        ensures
            match r {
                Ok((ns, e)) => nodes_from(self.input@, p as int) == Ok::<_, Fault>((models(ns@), (e - p) as nat))
                    && all_wf(ns@, 0) && p <= e <= self.input@.len(),
                Err(x) => nodes_from(self.input@, p as int) == Err::<(Seq<NodeModel>, nat), _>(x.fault()),
            },
        decreases self.input@.len() - p, 2int,
    {
        let ghost s = self.input@;
        let close = chars_of("</");
        let mut nodes: Vec<Node> = Vec::new();
        let mut i: usize = p;
        proof {
            lemma_models_empty(nodes@);
        }
        loop
            invariant
                self.wf(),
                p <= i <= s.len(),
                s == self.input@,
                close@ == "</"@,
                all_wf(nodes@, 0),
                nodes_from(s, p as int) == match nodes_from(s, i as int) {
                    Err(f) => Err(f),
                    Ok((rest, r)) => Ok((models(nodes@) + rest, (i - p + r) as nat)),
                },
            decreases s.len() - i,
        {
            let q = self.consume_whitespace(i);
            if self.eof(q) || self.starts_with(q, close.as_slice()) {
                assert(models(nodes@) + Seq::<NodeModel>::empty() == models(nodes@));
                return Ok((nodes, q));
            }
            let (node, e) = match self.parse_node(q) {
                Ok(x) => x,
                Err(x) => {
                    assert(nodes_from(s, i as int) == Err::<(Seq<NodeModel>, nat), _>(x.fault()));
                    return Err(x);
                },
            };
            let ghost before = nodes@;
            proof {
                lemma_models_push(before, node, 0);
            }
            nodes.push(node);
            proof {
                assert(nodes@ == before.push(node));
                let m = (e - q) as nat;
                assert(node_at(s, q as int) == Ok::<_, Fault>((node.model(), m)));
                assert(m > 0) by {
                    if m == 0 {
                        assert(!starts_at(s, q as int, "<"@)) by {
                            reveal_strlit("<");
                        }
                        assert(s[q as int] != '<') by {
                            reveal_strlit("<");
                            if s[q as int] == '<' {
                                assert(s.subrange(q as int, q + 1) == "<"@);
                            }
                        }
                    }
                }
                assert(nodes_from(s, i as int) == match nodes_from(s, e as int) {
                    Err(f) => Err(f),
                    Ok((rest, r)) => Ok((seq![node.model()] + rest, (q - i + m + r) as nat)),
                });
                assert forall|rest: Seq<NodeModel>| models(before) + (seq![node.model()] + rest) == models(nodes@) + rest by {
                    assert(models(before) + (seq![node.model()] + rest) == models(before).push(node.model()) + rest);
                }
            }
            i = e;
        }
    }

    /// Parses a whole markup text into one document tree.
    pub fn parse(source: String) -> (r: Result<Node, MarkupError>)
        ensures
            match r {
                Ok(n) => document_of(source@) == Ok::<_, Fault>(n.model()) && n.wf(),
                Err(x) => document_of(source@) == Err::<NodeModel, _>(x.fault()),
            },
    {
        let text = source.as_str();
        let parser = Parser { input: chars_of(text) };
        let _size = parser.input.len();
        let (mut nodes, _) = parser.parse_nodes(0)?;
        if nodes.len() == 1 {
            let ghost ns = nodes@;
            assert(models(ns) == seq![ns[0].model()] + crate::dom::models_from(ns, 1));
            assert(all_wf(ns, 0) ==> ns[0].wf());
            let n = nodes.remove(0);
            assert(n == ns[0]);
            assert(document_of(source@) == Ok::<_, Fault>(n.model()));
            Ok(n)
        } else {
            proof {
                crate::dom::lemma_models_len(nodes@, 0);
            }
            let html = chars_of("html");
            let tag = string_of(html.as_slice());
            assert(tag@ == "html"@);
            let n = elem(tag, AttrMap::new(), nodes);
            assert(n.wf());
            assert(document_of(source@) == Ok::<_, Fault>(n.model()));
            Ok(n)
        }
    }
}

// ----- laws -----

/// A name made of the characters that tag names allow.
pub open spec fn is_name(t: Seq<char>) -> bool {
    forall|i: int| 0 <= i < t.len() ==> MRun::Name.holds(#[trigger] t[i])
}

/// The markup of an empty element opened as `t` and closed as `u`.
pub open spec fn empty_element_markup(t: Seq<char>, u: Seq<char>) -> Seq<char> {
    seq!['<'] + t + seq!['>', '<', '/'] + u + seq!['>']
}

proof fn lemma_run_len_exact(s: Seq<char>, p: int, n: int, k: MRun)
    requires
        0 <= p,
        0 <= n,
        p + n <= s.len(),
        forall|i: int| p <= i < p + n ==> k.holds(#[trigger] s[i]),
        p + n == s.len() || !k.holds(s[p + n]),
    ensures
        run_len(s, p, k) == n,
    decreases n,
{
    if n > 0 {
        lemma_run_len_exact(s, p + 1, n - 1, k);
    }
}

proof fn lemma_literals()
    ensures
        "<"@ == seq!['<'],
        ">"@ == seq!['>'],
        "</"@ == seq!['<', '/'],
        "="@ == seq!['='],
{
    reveal_strlit("<");
    reveal_strlit(">");
    reveal_strlit("</");
    reveal_strlit("=");
}

/// What the parse of `empty_element_markup(t, u)` finds up to its closing
/// tag name, for every pair of names.
proof fn lemma_open_and_empty_body(t: Seq<char>, u: Seq<char>)
    requires
        is_name(t),
        is_name(u),
    ensures
        ({
            let s = empty_element_markup(t, u);
            let n = t.len() as int;
            &&& starts_at(s, 0, "<"@)
            &&& run_len(s, 1, MRun::Name) == n
            &&& s.subrange(1, 1 + n) == t
            &&& attrs_from(s, 1 + n, seq![]) == Ok::<_, Fault>((Seq::<(Seq<char>, Seq<char>)>::empty(), 0nat))
            &&& starts_at(s, 1 + n, ">"@)
            &&& nodes_from(s, 2 + n) == Ok::<_, Fault>((Seq::<NodeModel>::empty(), 0nat))
            &&& starts_at(s, 2 + n, "</"@)
            &&& run_len(s, 0, MRun::Space) == 0
            &&& !starts_at(s, 0, "</"@)
            &&& s.subrange(4 + n, 4 + n + u.len()) == u
            &&& s[4 + n + u.len()] == '>'
            &&& s.len() == 5 + n + u.len()
        }),
{
    lemma_literals();
    let s = empty_element_markup(t, u);
    let n = t.len() as int;
    assert(s[0] == '<');
    assert forall|i: int| 1 <= i < 1 + n implies MRun::Name.holds(#[trigger] s[i]) by {
        assert(s[i] == t[i - 1]);
    }
    assert(s[1 + n] == '>');
    lemma_run_len_exact(s, 1, n, MRun::Name);
    assert(s.subrange(1, 1 + n) =~= t);
    assert(s.subrange(0, 1) =~= seq!['<']);
    assert(s.subrange(1 + n, 2 + n) =~= seq!['>']);
    assert(s[2 + n] == '<');
    assert(s[3 + n] == '/');
    assert(s.subrange(2 + n, 4 + n) =~= seq!['<', '/']);
    assert(run_len(s, 1 + n, MRun::Space) == 0);
    assert(run_len(s, 2 + n, MRun::Space) == 0);
    assert(run_len(s, 0, MRun::Space) == 0);
    assert(s.subrange(4 + n, 4 + n + u.len()) =~= u);
    assert(s[1] != '/') by {
        if n > 0 {
            assert(s[1] == t[0]);
        }
    }
    assert(s.subrange(0, 2)[1] == s[1]);
}

/// A well-formed empty element whose closing tag repeats its name parses to
/// that element, with no attributes and no children.
pub proof fn lemma_matching_tags_parse(t: Seq<char>)
    requires
        is_name(t),
    ensures
        document_of(empty_element_markup(t, t)) == Ok::<_, Fault>(
            NodeModel { kind: KindModel::Element(t, seq![]), children: seq![] },
        ),
{
    lemma_open_and_empty_body(t, t);
    lemma_literals();
    let s = empty_element_markup(t, t);
    let n = t.len() as int;
    assert(starts_at(s, 4 + n, t));
    assert(s.subrange(4 + 2 * n, 5 + 2 * n) =~= seq!['>']);
    assert(starts_at(s, 4 + 2 * n, ">"@));
    let el = NodeModel { kind: KindModel::Element(t, seq![]), children: seq![] };
    assert(node_at(s, 0) == Ok::<_, Fault>((el, (5 + 2 * n) as nat)));
    assert(run_len(s, s.len() as int, MRun::Space) == 0);
    assert(nodes_from(s, s.len() as int) == Ok::<_, Fault>((Seq::<NodeModel>::empty(), 0nat)));
    assert(seq![el] + Seq::<NodeModel>::empty() =~= seq![el]);
    assert(nodes_from(s, 0) == Ok::<_, Fault>((seq![el], (5 + 2 * n) as nat)));
}

/// An element whose closing tag names another element fails to parse, with
/// a syntax error.
pub proof fn lemma_mismatched_tags_fail(t: Seq<char>, u: Seq<char>)
    requires
        is_name(t),
        is_name(u),
        t != u,
    ensures
        document_of(empty_element_markup(t, u)) == Err::<NodeModel, _>(Fault::Syntax),
{
    lemma_open_and_empty_body(t, u);
    lemma_literals();
    let s = empty_element_markup(t, u);
    let n = t.len() as int;
    let m = u.len() as int;
    if starts_at(s, 4 + n, t) {
        if n == m + 1 {
            assert(s.subrange(4 + n, 4 + 2 * n)[m] == s[4 + n + m]);
            assert(!MRun::Name.holds('>'));
            assert(false);
        }
        assert(n <= m);
        if n == m {
            assert(t =~= u);
        }
        assert(n < m);
        assert(s[4 + 2 * n] == u[n]);
        assert(!starts_at(s, 4 + 2 * n, ">"@)) by {
            if starts_at(s, 4 + 2 * n, ">"@) {
                assert(s.subrange(4 + 2 * n, 5 + 2 * n)[0] == s[4 + 2 * n]);
            }
        }
    }
    assert(node_at(s, 0) == Err::<(NodeModel, nat), _>(Fault::Syntax));
    assert(nodes_from(s, 0) == Err::<(Seq<NodeModel>, nat), _>(Fault::Syntax));
}

/// When the text holds some number of top-level nodes other than one, the
/// document is an `html` element whose children are exactly those nodes,
/// in order.
pub proof fn lemma_top_level_nodes_wrapped(s: Seq<char>, ns: Seq<NodeModel>, k: nat)
    requires
        nodes_from(s, 0) == Ok::<_, Fault>((ns, k)),
        ns.len() != 1,
    ensures
        document_of(s) == Ok::<_, Fault>(
            NodeModel { kind: KindModel::Element("html"@, seq![]), children: ns },
        ),
{
}

/// Parsing is a function of the text: two successful parses of one text
/// give the same tree.
pub proof fn lemma_parse_deterministic(s: Seq<char>, a: NodeModel, b: NodeModel)
    requires
        document_of(s) == Ok::<_, Fault>(a),
        document_of(s) == Ok::<_, Fault>(b),
    ensures
        a == b,
{
}

} // verus!
