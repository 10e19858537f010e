//! Recursive-descent parser from stylesheet text to a [`Stylesheet`].
//!
//! Every step of the grammar is stated as a spec function over the input
//! characters and a position; the parser is proved to follow it exactly.

use vstd::prelude::*;

use crate::chars::{chars_of, lower_of, lowercase, same_chars, space, string_of, is_space};
use crate::css::{
    Color, DeclModel, Declaration, Rule, RuleModel, Selector, SelectorModel, SimpleModel,
    SimpleSelector, Stylesheet, Unit, Value, ValueModel, text_view,
};

verus! {

// ----- characters -----

pub open spec fn spec_is_upper_letter(c: char) -> bool {
    'A' <= c && c <= 'Z'
}

pub open spec fn spec_is_lower_letter(c: char) -> bool {
    'a' <= c && c <= 'z'
}

pub open spec fn spec_is_letter(c: char) -> bool {
    spec_is_upper_letter(c) || spec_is_lower_letter(c)
}

pub open spec fn spec_is_non_ascii(c: char) -> bool {
    c >= '\u{80}'
}

pub open spec fn spec_is_valid_start_ident(c: char) -> bool {
    spec_is_letter(c) || spec_is_non_ascii(c) || c == '_'
}

pub open spec fn spec_is_valid_ident(c: char) -> bool {
    spec_is_valid_start_ident(c) || ('0' <= c && c <= '9') || c == '-'
}

pub fn is_upper_letter(c: char) -> (r: bool)
    ensures
        r == spec_is_upper_letter(c),
{
    c >= 'A' && c <= 'Z'
}

pub fn is_lower_letter(c: char) -> (r: bool)
    ensures
        r == spec_is_lower_letter(c),
{
    c >= 'a' && c <= 'z'
}

pub fn is_letter(c: char) -> (r: bool)
    ensures
        r == spec_is_letter(c),
{
    is_upper_letter(c) || is_lower_letter(c)
}

pub fn is_non_ascii(c: char) -> (r: bool)
    ensures
        r == spec_is_non_ascii(c),
{
    c >= '\u{80}'
}

pub fn is_valid_start_ident(c: char) -> (r: bool)
    ensures
        r == spec_is_valid_start_ident(c),
{
    is_letter(c) || is_non_ascii(c) || c == '_'
}

pub fn is_valid_ident(c: char) -> (r: bool)
    ensures
        r == spec_is_valid_ident(c),
{
    is_valid_start_ident(c) || (c >= '0' && c <= '9') || c == '-'
}

// ----- values -----

pub open spec fn rgba(r: u8, g: u8, b: u8, a: u8) -> Color {
    Color { r, g, b, a }
}

/// The colour a keyword names; anything unknown is black.
pub open spec fn color_of(name: Seq<char>) -> Color {
    if name == "white"@ {
        rgba(255, 255, 255, 255)
    } else if name == "red"@ {
        rgba(255, 0, 0, 255)
    } else if name == "green"@ {
        rgba(0, 255, 0, 255)
    } else if name == "blue"@ {
        rgba(0, 0, 255, 255)
    } else {
        rgba(0, 0, 0, 255)
    }
}

/// A colour keyword outside the known ones gives opaque black, never a failure.
pub proof fn lemma_unknown_color_is_black(name: Seq<char>)
    requires
        name != "white"@,
        name != "red"@,
        name != "green"@,
        name != "blue"@,
    ensures
        color_of(name) == rgba(0, 0, 0, 255),
{
}

pub fn translate_color(name: &[char]) -> (c: Color)
    ensures
        c == color_of(name@),
{
    if same_chars(name, "white") {
        Color::new(255, 255, 255, 255)
    } else if same_chars(name, "red") {
        Color::new(255, 0, 0, 255)
    } else if same_chars(name, "green") {
        Color::new(0, 255, 0, 255)
    } else if same_chars(name, "blue") {
        Color::new(0, 0, 255, 255)
    } else {
        Color::new(0, 0, 0, 255)
    }
}

pub open spec fn is_digit(c: char) -> bool {
    '0' <= c && c <= '9'
}

/// Whether `char::is_numeric` accepts a character.
pub uninterp spec fn numeric_of(c: char) -> bool;

/// Relies on `char::is_numeric`: whether the character is in one of Unicode's
/// number categories.
#[verifier::external_body]
fn numeric(c: char) -> (r: bool)
    ensures
        r == numeric_of(c),
{
    c.is_numeric()
}

/// Where the leading run of numeric characters of `s` ends.
pub open spec fn numeral_end(s: Seq<char>, i: int) -> int
    decreases s.len() - i,
{
    if 0 <= i < s.len() && numeric_of(s[i]) {
        numeral_end(s, i + 1)
    } else {
        i
    }
}

pub open spec fn all_digits(d: Seq<char>) -> bool {
    forall|k: int| 0 <= k < d.len() ==> is_digit(#[trigger] d[k])
}

/// The number that a run of decimal digits writes.
pub open spec fn digits_value(d: Seq<char>) -> nat
    decreases d.len(),
{
    if d.len() == 0 {
        0
    } else {
        digits_value(d.drop_last()) * 10 + (d.last() as nat - '0' as nat) as nat
    }
}

pub open spec fn unit_of(u: Seq<char>) -> Unit {
    if u == "em"@ {
        Unit::Em
    } else if u == "rem"@ {
        Unit::Rem
    } else if u == "vh"@ {
        Unit::Vh
    } else if u == "vw"@ {
        Unit::Vw
    } else if u == "vmin"@ {
        Unit::Vmin
    } else if u == "vmax"@ {
        Unit::Vmax
    } else {
        Unit::Px
    }
}

/// A length: the leading run of numeric characters is the numeral, everything
/// after it names the unit. A numeral of ASCII digits gives its number (capped
/// at `u64::MAX`); an empty one, or one with other numeric characters, gives 0.
pub open spec fn length_of(s: Seq<char>) -> ValueModel {
    let e = numeral_end(s, 0);
    let numeral = s.subrange(0, e);
    let n = if all_digits(numeral) { digits_value(numeral) } else { 0 };
    ValueModel::Length(
        if n > u64::MAX { u64::MAX } else { n as u64 },
        unit_of(s.subrange(e, s.len() as int)),
    )
}

proof fn lemma_numeral_end(s: Seq<char>, i: int)
    requires
        0 <= i <= s.len(),
    ensures
        i <= numeral_end(s, i) <= s.len(),
    decreases s.len() - i,
{
    if i < s.len() && numeric_of(s[i]) {
        lemma_numeral_end(s, i + 1);
    }
}

pub fn translate_length(s: &[char]) -> (v: Value)
    ensures
        v@ == length_of(s@),
{
    let mut i: usize = 0;
    let mut n: u64 = 0;
    let mut other = false;
    proof {
        lemma_numeral_end(s@, 0);
    }
    while i < s.len() && numeric(s[i])
        invariant
            i <= s@.len(),
            numeral_end(s@, i as int) == numeral_end(s@, 0),
            other == !all_digits(s@.subrange(0, i as int)),
            !other ==> n == (if digits_value(s@.subrange(0, i as int)) > u64::MAX {
                u64::MAX
            } else {
                digits_value(s@.subrange(0, i as int)) as u64
            }),
        decreases s.len() - i,
    {
        let ghost before = s@.subrange(0, i as int);
        let ghost after = s@.subrange(0, i + 1);
        assert(after.drop_last() == before);
        assert(after == before.push(s@[i as int]));
        if '0' <= s[i] && s[i] <= '9' {
            assert(all_digits(after) == all_digits(before)) by {
                if all_digits(before) {
                    assert forall|k: int| 0 <= k < after.len() implies is_digit(#[trigger] after[k]) by {
                        if k < before.len() {
                            assert(after[k] == before[k]);
                        }
                    }
                }
                if all_digits(after) {
                    assert forall|k: int| 0 <= k < before.len() implies is_digit(#[trigger] before[k]) by {
                        assert(after[k] == before[k]);
                    }
                }
            }
            if !other {
                let d: u64 = (s[i] as u32 - '0' as u32) as u64;
                assert(digits_value(after) == digits_value(before) * 10 + d);
                if n > (u64::MAX - d) / 10 {
                    assert(digits_value(after) > u64::MAX) by (nonlinear_arith)
                        requires
                            n > (u64::MAX - d) / 10,
                            d <= 9,
                            n <= digits_value(before),
                            digits_value(after) == digits_value(before) * 10 + d,
                    ;
                    n = u64::MAX;
                } else {
                    assert(n * 10 + d <= u64::MAX) by (nonlinear_arith)
                        requires
                            n <= (u64::MAX - d) / 10,
                            d <= 9,
                    ;
                    assert(digits_value(before) <= u64::MAX);
                    n = n * 10 + d;
                }
            }
        } else {
            assert(!is_digit(after[i as int]));
            other = true;
        }
        i = i + 1;
    }
    assert(i == numeral_end(s@, 0));
    if other {
        n = 0;
    }
    let unit_chars = vstd::slice::slice_subrange(s, i, s.len());
    assert(unit_chars@ == s@.subrange(i as int, s@.len() as int));
    let unit = if same_chars(unit_chars, "em") {
        Unit::Em
    } else if same_chars(unit_chars, "rem") {
        Unit::Rem
    } else if same_chars(unit_chars, "vh") {
        Unit::Vh
    } else if same_chars(unit_chars, "vw") {
        Unit::Vw
    } else if same_chars(unit_chars, "vmin") {
        Unit::Vmin
    } else if same_chars(unit_chars, "vmax") {
        Unit::Vmax
    } else {
        Unit::Px
    };
    Value::Length(n, unit)
}

pub open spec fn is_color_property(p: Seq<char>) -> bool {
    p == "background-color"@ || p == "border-color"@ || p == "color"@
}

pub open spec fn is_length_property(p: Seq<char>) -> bool {
    p == "margin"@ || p == "padding"@ || p == "margin-top"@ || p == "margin-left"@
        || p == "margin-right"@ || p == "margin-bottom"@ || p == "padding-top"@
        || p == "padding-left"@ || p == "padding-right"@ || p == "padding-bottom"@
        || p == "border-top-width"@ || p == "border-left-width"@ || p == "border-right-width"@
        || p == "border-bottom-width"@ || p == "width"@ || p == "height"@
}

/// The typed value of a declaration, chosen by its property.
pub open spec fn value_of(property: Seq<char>, raw: Seq<char>) -> ValueModel {
    if is_color_property(property) {
        ValueModel::Color(color_of(raw))
    } else if is_length_property(property) {
        length_of(raw)
    } else {
        ValueModel::Other(raw)
    }
}

/// Builds the declaration for an already lowercased property and value.
pub fn declaration_of(property: &[char], value: &[char]) -> (d: Declaration)
    ensures
        d@ == (DeclModel { property: property@, value: value_of(property@, value@) }),
{
    let is_color = same_chars(property, "background-color") || same_chars(property, "border-color")
        || same_chars(property, "color");
    let v = if is_color {
        Value::Color(translate_color(value))
    } else if same_chars(property, "margin") || same_chars(property, "padding")
        || same_chars(property, "margin-top") || same_chars(property, "margin-left")
        || same_chars(property, "margin-right") || same_chars(property, "margin-bottom")
        || same_chars(property, "padding-top") || same_chars(property, "padding-left")
        || same_chars(property, "padding-right") || same_chars(property, "padding-bottom")
        || same_chars(property, "border-top-width") || same_chars(property, "border-left-width")
        || same_chars(property, "border-right-width") || same_chars(property, "border-bottom-width")
        || same_chars(property, "width") || same_chars(property, "height") {
        translate_length(value)
    } else {
        Value::Other(string_of(value))
    };
    Declaration::new(string_of(property), v)
}

// ----- runs of characters -----

/// The kinds of character run that the parser consumes.
pub enum Run {
    Space,
    Ident,
    /// Anything up to the next `,` or `{`.
    SelectorJunk,
    /// A property name, up to the `:`.
    Property,
    /// A value, up to `;`, a newline or `{`.
    ValueText,
}

impl Run {
    pub open spec fn holds(self, c: char) -> bool {
        match self {
            Run::Space => is_space(c),
            Run::Ident => spec_is_valid_ident(c),
            Run::SelectorJunk => c != ',' && c != '{',
            Run::Property => c != ':',
            Run::ValueText => c != ';' && c != '\n' && c != '{',
        }
    }

    pub fn test(&self, c: char) -> (r: bool)
        ensures
            r == self.holds(c),
    {
        match self {
            Run::Space => space(c),
            Run::Ident => is_valid_ident(c),
            Run::SelectorJunk => c != ',' && c != '{',
            Run::Property => c != ':',
            Run::ValueText => c != ';' && c != '\n' && c != '{',
        }
    }
}

/// Where the run of kind `k` that starts at `p` ends.
pub open spec fn run_end(s: Seq<char>, p: int, k: Run) -> int
    decreases s.len() - p,
{
    if 0 <= p < s.len() && k.holds(s[p]) {
        run_end(s, p + 1, k)
    } else {
        p
    }
}

proof fn lemma_run_end(s: Seq<char>, p: int, k: Run)
    requires
        0 <= p <= s.len(),
    ensures
        p <= run_end(s, p, k) <= s.len(),
        forall|i: int| p <= i < run_end(s, p, k) ==> k.holds(#[trigger] s[i]),
        run_end(s, p, k) == s.len() || !k.holds(s[run_end(s, p, k)]),
        p < s.len() && k.holds(s[p]) ==> run_end(s, p, k) > p,
    decreases s.len() - p,
{
    if p < s.len() && k.holds(s[p]) {
        lemma_run_end(s, p + 1, k);
    }
}

/// Where an identifier that starts at `p` ends (at `p` itself when none starts there).
pub open spec fn ident_end(s: Seq<char>, p: int) -> int {
    if 0 <= p < s.len() && spec_is_valid_start_ident(s[p]) {
        run_end(s, p, Run::Ident)
    } else {
        p
    }
}

proof fn lemma_ident_end(s: Seq<char>, p: int)
    requires
        0 <= p <= s.len(),
    ensures
        p <= ident_end(s, p) <= s.len(),
        p < s.len() && spec_is_valid_start_ident(s[p]) ==> ident_end(s, p) > p,
{
    lemma_run_end(s, p, Run::Ident);
}

/// The lowercased identifier that starts at `p`.
pub open spec fn ident_at(s: Seq<char>, p: int) -> Seq<char> {
    lower_of(s.subrange(p, ident_end(s, p)))
}

// ----- selectors -----

/// What the scan of a selector has gathered so far.
pub struct ScanState {
    pub id: Option<Seq<char>>,
    /// Set once a second `#id` was seen: the selector then has no id.
    pub multi: bool,
    pub classes: Seq<Seq<char>>,
}

/// The scan of `#id` and `.class` tokens goes on while the next character is
/// neither `,` nor `{` nor whitespace.
pub open spec fn scan_continues(c: char) -> bool {
    c != ',' && c != '{' && !is_space(c)
}

pub open spec fn scan_step(s: Seq<char>, p: int, st: ScanState) -> (ScanState, int) {
    if s[p] == '#' {
        let name = ident_at(s, p + 1);
        let next = if st.id is Some || st.multi {
            ScanState { id: None, multi: true, classes: st.classes }
        } else {
            ScanState {
                id: if name.len() == 0 { None } else { Some(name) },
                multi: st.multi,
                classes: st.classes,
            }
        };
        (next, ident_end(s, p + 1))
    } else if s[p] == '.' {
        let name = ident_at(s, p + 1);
        let classes = if name.len() == 0 { st.classes } else { st.classes.push(name) };
        (ScanState { id: st.id, multi: st.multi, classes }, ident_end(s, p + 1))
    } else {
        (st, run_end(s, p, Run::SelectorJunk))
    }
}

proof fn lemma_scan_step(s: Seq<char>, p: int, st: ScanState)
    requires
        0 <= p < s.len(),
        scan_continues(s[p]),
    ensures
        p < scan_step(s, p, st).1 <= s.len(),
{
    lemma_ident_end(s, p + 1);
    lemma_run_end(s, p, Run::SelectorJunk);
}

/// Scans the `#id` and `.class` tokens of a selector from `p`.
pub open spec fn scan(s: Seq<char>, p: int, st: ScanState) -> (ScanState, int)
    decreases s.len() - p,
    via scan_decreases
{
    if 0 <= p < s.len() && scan_continues(s[p]) {
        let (next, e) = scan_step(s, p, st);
        scan(s, e, next)
    } else {
        (st, p)
    }
}

#[via_fn]
proof fn scan_decreases(s: Seq<char>, p: int, st: ScanState) {
    if 0 <= p < s.len() && scan_continues(s[p]) {
        lemma_scan_step(s, p, st);
    }
}

proof fn lemma_scan(s: Seq<char>, p: int, st: ScanState)
    requires
        0 <= p <= s.len(),
    ensures
        p <= scan(s, p, st).1 <= s.len(),
        p < s.len() && scan_continues(s[p]) ==> scan(s, p, st).1 > p,
    decreases s.len() - p,
{
    if p < s.len() && scan_continues(s[p]) {
        lemma_scan_step(s, p, st);
        lemma_scan(s, scan_step(s, p, st).1, scan_step(s, p, st).0);
    }
}

pub open spec fn blank_simple(m: SimpleModel) -> bool {
    m.tag is None && m.id is None && m.classes.len() == 0
}

/// One selector read from `p`: an optional tag name, then `#id` and `.class`
/// tokens; it holds one simple selector, or none when nothing was found.
pub open spec fn selector_at(s: Seq<char>, p: int) -> (SelectorModel, int) {
    let q = run_end(s, p, Run::Space);
    let r = ident_end(s, q);
    let tag = if r > q { Some(lower_of(s.subrange(q, r))) } else { None };
    let (st, e) = scan(s, r, ScanState { id: None, multi: false, classes: seq![] });
    let simple = SimpleModel { tag, id: st.id, classes: st.classes };
    (SelectorModel {
        simple: if blank_simple(simple) { seq![] } else { seq![simple] },
        combinators: seq![],
    }, e)
}

/// After a selector: whitespace, then an optional `,`.
pub open spec fn after_selector(s: Seq<char>, e: int) -> int {
    let q = run_end(s, e, Run::Space);
    if 0 <= q < s.len() && s[q] == ',' { q + 1 } else { q }
}

proof fn lemma_selector_at(s: Seq<char>, p: int)
    requires
        0 <= p < s.len(),
        s[p] != '{',
    ensures
        p < after_selector(s, selector_at(s, p).1) <= s.len(),
        p <= selector_at(s, p).1,
{
    let q = run_end(s, p, Run::Space);
    lemma_run_end(s, p, Run::Space);
    lemma_ident_end(s, q);
    let r = ident_end(s, q);
    lemma_scan(s, r, ScanState { id: None, multi: false, classes: seq![] });
    let e = selector_at(s, p).1;
    lemma_run_end(s, e, Run::Space);
}

/// The selector list of a rule, read from `p` through its `{`.
pub open spec fn selectors_from(s: Seq<char>, p: int) -> (Seq<SelectorModel>, int)
    decreases s.len() - p,
    via selectors_decreases
{
    if 0 <= p < s.len() && s[p] != '{' {
        let (sel, e) = selector_at(s, p);
        let (rest, f) = selectors_from(s, after_selector(s, e));
        (if sel.simple.len() == 0 { rest } else { seq![sel] + rest }, f)
    } else {
        (seq![], if 0 <= p < s.len() { p + 1 } else { p })
    }
}

#[via_fn]
proof fn selectors_decreases(s: Seq<char>, p: int) {
    if 0 <= p < s.len() && s[p] != '{' {
        lemma_selector_at(s, p);
    }
}

proof fn lemma_selectors_from(s: Seq<char>, p: int)
    requires
        0 <= p <= s.len(),
    ensures
        p <= selectors_from(s, p).1 <= s.len(),
        p < s.len() ==> selectors_from(s, p).1 > p,
    decreases s.len() - p,
{
    if p < s.len() && s[p] != '{' {
        lemma_selector_at(s, p);
        lemma_selectors_from(s, after_selector(s, selector_at(s, p).1));
    }
}

// ----- declarations -----

/// One declaration read from `p`: the declaration, whether it is kept, and
/// where the reading stopped. It is kept when a `;` follows its value, or
/// whitespace and then `}`.
pub open spec fn declaration_at(s: Seq<char>, p: int) -> (DeclModel, bool, int) {
    let a = run_end(s, p, Run::Space);
    let b = run_end(s, a, Run::Property);
    let property = lower_of(s.subrange(a, b));
    let c = if b < s.len() { b + 1 } else { b };
    let d = run_end(s, c, Run::Space);
    let e = run_end(s, d, Run::ValueText);
    let raw = lower_of(s.subrange(d, e));
    let decl = DeclModel { property, value: value_of(property, raw) };
    if e < s.len() && s[e] == ';' {
        (decl, true, run_end(s, e + 1, Run::Space))
    } else {
        let g = run_end(s, e, Run::Space);
        (decl, g < s.len() && s[g] == '}', run_end(s, g, Run::Space))
    }
}

proof fn lemma_declaration_at(s: Seq<char>, p: int)
    requires
        0 <= p < s.len(),
        s[p] != '}',
    ensures
        p < declaration_at(s, p).2 <= s.len(),
{
    let a = run_end(s, p, Run::Space);
    lemma_run_end(s, p, Run::Space);
    let b = run_end(s, a, Run::Property);
    lemma_run_end(s, a, Run::Property);
    let c = if b < s.len() { b + 1 } else { b };
    let d = run_end(s, c, Run::Space);
    lemma_run_end(s, c, Run::Space);
    let e = run_end(s, d, Run::ValueText);
    lemma_run_end(s, d, Run::ValueText);
    if e < s.len() && s[e] == ';' {
        lemma_run_end(s, e + 1, Run::Space);
    } else {
        let g = run_end(s, e, Run::Space);
        lemma_run_end(s, e, Run::Space);
        lemma_run_end(s, g, Run::Space);
    }
}

/// The declaration block read from `p` through its `}`.
pub open spec fn declarations_from(s: Seq<char>, p: int) -> (Seq<DeclModel>, int)
    decreases s.len() - p,
    via declarations_decreases
{
    if 0 <= p < s.len() && s[p] != '}' {
        let (decl, keep, e) = declaration_at(s, p);
        let (rest, f) = declarations_from(s, e);
        (if keep { seq![decl] + rest } else { rest }, f)
    } else {
        (seq![], if 0 <= p < s.len() { p + 1 } else { p })
    }
}

#[via_fn]
proof fn declarations_decreases(s: Seq<char>, p: int) {
    if 0 <= p < s.len() && s[p] != '}' {
        lemma_declaration_at(s, p);
    }
}

proof fn lemma_declarations_from(s: Seq<char>, p: int)
    requires
        0 <= p <= s.len(),
    ensures
        p <= declarations_from(s, p).1 <= s.len(),
    decreases s.len() - p,
{
    if p < s.len() && s[p] != '}' {
        lemma_declaration_at(s, p);
        lemma_declarations_from(s, declaration_at(s, p).2);
    }
}

// ----- rules -----

/// The rule read from `p` and where it ends.
pub open spec fn rule_at(s: Seq<char>, p: int) -> (RuleModel, int) {
    let (selectors, a) = selectors_from(s, p);
    let (declarations, b) = declarations_from(s, a);
    (RuleModel { selectors, declarations }, b)
}

proof fn lemma_rule_at(s: Seq<char>, p: int)
    requires
        0 <= p < s.len(),
    ensures
        p < rule_at(s, p).1 <= s.len(),
{
    lemma_selectors_from(s, p);
    lemma_declarations_from(s, selectors_from(s, p).1);
}

/// The rules read from `p` to the end of the text.
pub open spec fn rules_from(s: Seq<char>, p: int) -> Seq<RuleModel>
    decreases s.len() - p,
    via rules_decreases
{
    if 0 <= p < s.len() {
        let (rule, e) = rule_at(s, p);
        seq![rule] + rules_from(s, e)
    } else {
        seq![]
    }
}

#[via_fn]
proof fn rules_decreases(s: Seq<char>, p: int) {
    if 0 <= p < s.len() {
        lemma_rule_at(s, p);
    }
}

// ----- the parser -----

pub struct CssParser {
    chars: Vec<char>,
    pos: usize,
}

pub open spec fn strings_view(v: Seq<String>) -> Seq<Seq<char>> {
    v.map_values(|c: String| c@)
}

impl CssParser {
    /// The whole text being parsed.
    pub closed spec fn input(&self) -> Seq<char> {
        self.chars@
    }

    /// How many characters have been consumed.
    pub closed spec fn position(&self) -> int {
        self.pos as int
    }

    pub closed spec fn wf(&self) -> bool {
        self.pos <= self.chars@.len()
    }

    pub fn new(full_css: &str) -> (p: CssParser)
        ensures
            p.wf(),
            p.input() == full_css@,
            p.position() == 0,
    {
        CssParser { chars: chars_of(full_css), pos: 0 }
    }

    fn peek_is(&self, c: char) -> (r: bool)
        requires
            self.wf(),
        ensures
            r == (self.pos < self.chars@.len() && self.chars@[self.pos as int] == c),
    {
        self.pos < self.chars.len() && self.chars[self.pos] == c
    }

    fn consume_while(&mut self, k: Run) -> (r: Vec<char>)
        requires
            old(self).wf(),
        ensures
            final(self).wf(),
            final(self).chars@ == old(self).chars@,
            final(self).pos == run_end(old(self).chars@, old(self).pos as int, k),
            r@ == old(self).chars@.subrange(old(self).pos as int, final(self).pos as int),
    {
        let ghost start = self.pos as int;
        let mut out: Vec<char> = Vec::new();
        while self.pos < self.chars.len() && k.test(self.chars[self.pos])
            invariant
                self.chars@ == old(self).chars@,
                start == old(self).pos,
                start <= self.pos <= self.chars@.len(),
                run_end(self.chars@, self.pos as int, k) == run_end(self.chars@, start, k),
                out@ == self.chars@.subrange(start, self.pos as int),
            decreases self.chars@.len() - self.pos,
        {
            out.push(self.chars[self.pos]);
            assert(self.chars@.subrange(start, self.pos + 1) == self.chars@.subrange(
                start,
                self.pos as int,
            ).push(self.chars@[self.pos as int]));
            self.pos = self.pos + 1;
        }
        out
    }

    fn parse_identifier(&mut self) -> (r: Vec<char>)
        requires
            old(self).wf(),
        ensures
            final(self).wf(),
            final(self).chars@ == old(self).chars@,
            final(self).pos == ident_end(old(self).chars@, old(self).pos as int),
            r@ == ident_at(old(self).chars@, old(self).pos as int),
    {
        let ident = if self.pos < self.chars.len() && is_valid_start_ident(self.chars[self.pos]) {
            self.consume_while(Run::Ident)
        } else {
            Vec::new()
        };
        assert(ident@ == old(self).chars@.subrange(old(self).pos as int, self.pos as int));
        lowercase(ident.as_slice())
    }

    fn parse_id(&mut self) -> (r: Option<Vec<char>>)
        requires
            old(self).wf(),
        ensures
            final(self).wf(),
            final(self).chars@ == old(self).chars@,
            final(self).pos == ident_end(old(self).chars@, old(self).pos as int),
            match r {
                Some(v) => v@ == ident_at(old(self).chars@, old(self).pos as int) && v@.len() > 0,
                None => ident_at(old(self).chars@, old(self).pos as int).len() == 0,
            },
    {
        let ident = self.parse_identifier();
        if ident.len() == 0 {
            None
        } else {
            Some(ident)
        }
    }

    fn parse_selector(&mut self) -> (r: Selector)
        requires
            old(self).wf(),
        ensures
            final(self).wf(),
            final(self).chars@ == old(self).chars@,
            (r@, final(self).pos as int) == selector_at(old(self).chars@, old(self).pos as int),
    {
        let ghost s = self.chars@;
        let ghost p = self.pos as int;
        self.consume_while(Run::Space);
        let ghost q = self.pos as int;
        let tag_name = if self.pos < self.chars.len() && is_valid_start_ident(self.chars[self.pos]) {
            let t = self.parse_identifier();
            Some(string_of(t.as_slice()))
        } else {
            None
        };
        proof {
            lemma_ident_end(s, q);
        }
        let ghost r0 = self.pos as int;
        let ghost init = ScanState { id: None, multi: false, classes: seq![] };
        let mut id: Option<String> = None;
        let mut multiple_ids = false;
        let mut classes: Vec<String> = Vec::new();
        assert(strings_view(classes@) =~= seq![]);
        while self.pos < self.chars.len() && self.chars[self.pos] != ',' && self.chars[self.pos]
            != '{' && !space(self.chars[self.pos])
            invariant
                self.wf(),
                self.chars@ == s,
                r0 <= self.pos,
                scan(s, self.pos as int, ScanState {
                    id: text_view(id),
                    multi: multiple_ids,
                    classes: strings_view(classes@),
                }) == scan(s, r0, init),
            decreases s.len() - self.pos,
        {
            let ghost st = ScanState {
                id: text_view(id),
                multi: multiple_ids,
                classes: strings_view(classes@),
            };
            let ghost at = self.pos as int;
            proof {
                lemma_scan_step(s, at, st);
            }
            if self.chars[self.pos] == '#' {
                self.pos = self.pos + 1;
                if id.is_some() || multiple_ids {
                    id = None;
                    multiple_ids = true;
                    self.parse_id();
                } else {
                    id = match self.parse_id() {
                        Some(v) => Some(string_of(v.as_slice())),
                        None => None,
                    };
                }
            } else if self.chars[self.pos] == '.' {
                self.pos = self.pos + 1;
                let name = self.parse_identifier();
                if name.len() > 0 {
                    let ghost before = classes@;
                    classes.push(string_of(name.as_slice()));
                    assert(strings_view(classes@) == strings_view(before).push(name@));
                }
            } else {
                self.consume_while(Run::SelectorJunk);
            }
            assert(scan_step(s, at, st) == (ScanState {
                id: text_view(id),
                multi: multiple_ids,
                classes: strings_view(classes@),
            }, self.pos as int));
        }
        let simple = SimpleSelector::new(tag_name, id, classes);
        let mut selector = Selector::new(Vec::new(), Vec::new());
        if simple.tag_name.is_some() || simple.id.is_some() || simple.classes.len() > 0 {
            selector.simple.push(simple);
        }
        assert(selector@.simple == selector_at(s, p).0.simple);
        assert(selector@.combinators == selector_at(s, p).0.combinators);
        selector
    }

    fn parse_selectors(&mut self) -> (r: Vec<Selector>)
        requires
            old(self).wf(),
        ensures
            final(self).wf(),
            final(self).chars@ == old(self).chars@,
            (r@.map_values(|x: Selector| x@), final(self).pos as int) == selectors_from(
                old(self).chars@,
                old(self).pos as int,
            ),
    {
        let ghost s = self.chars@;
        let ghost p = self.pos as int;
        let mut selectors: Vec<Selector> = Vec::new();
        while self.pos < self.chars.len() && self.chars[self.pos] != '{'
            invariant
                self.wf(),
                self.chars@ == s,
                selectors@.map_values(|x: Selector| x@) + selectors_from(s, self.pos as int).0
                    == selectors_from(s, p).0,
                selectors_from(s, self.pos as int).1 == selectors_from(s, p).1,
            decreases s.len() - self.pos,
        {
            let ghost at = self.pos as int;
            proof {
                lemma_selector_at(s, at);
            }
            let ghost before = selectors@.map_values(|x: Selector| x@);
            let selector = self.parse_selector();
            if selector.simple.len() > 0 || selector.combinators.len() > 0 {
                selectors.push(selector);
                assert(selectors@.map_values(|x: Selector| x@) == before.push(
                    selector_at(s, at).0,
                ));
            }
            self.consume_while(Run::Space);
            if self.peek_is(',') {
                self.pos = self.pos + 1;
            }
            assert(self.pos == after_selector(s, selector_at(s, at).1));
            let ghost tail = selectors_from(s, self.pos as int).0;
            assert(before + seq![selector_at(s, at).0] + tail == before + (seq![
                selector_at(s, at).0,
            ] + tail));
        }
        if self.pos < self.chars.len() {
            self.pos = self.pos + 1;
        }
        assert(selectors@.map_values(|x: Selector| x@) + seq![] == selectors@.map_values(
            |x: Selector| x@,
        ));
        selectors
    }

    fn parse_declarations(&mut self) -> (r: Vec<Declaration>)
        requires
            old(self).wf(),
        ensures
            final(self).wf(),
            final(self).chars@ == old(self).chars@,
            (r@.map_values(|x: Declaration| x@), final(self).pos as int) == declarations_from(
                old(self).chars@,
                old(self).pos as int,
            ),
    {
        let ghost s = self.chars@;
        let ghost p = self.pos as int;
        let mut decls: Vec<Declaration> = Vec::new();
        while self.pos < self.chars.len() && self.chars[self.pos] != '}'
            invariant
                self.wf(),
                self.chars@ == s,
                decls@.map_values(|x: Declaration| x@) + declarations_from(s, self.pos as int).0
                    == declarations_from(s, p).0,
                declarations_from(s, self.pos as int).1 == declarations_from(s, p).1,
            decreases s.len() - self.pos,
        {
            let ghost at = self.pos as int;
            proof {
                lemma_declaration_at(s, at);
            }
            let ghost before = decls@.map_values(|x: Declaration| x@);
            self.consume_while(Run::Space);
            let raw_property = self.consume_while(Run::Property);
            let property = lowercase(raw_property.as_slice());
            if self.pos < self.chars.len() {
                self.pos = self.pos + 1;
            }
            self.consume_while(Run::Space);
            let raw_value = self.consume_while(Run::ValueText);
            let value = lowercase(raw_value.as_slice());
            let declaration = declaration_of(property.as_slice(), value.as_slice());
            let ghost (model, keep, end) = declaration_at(s, at);
            assert(declaration@ == model);
            let mut kept = false;
            if self.peek_is(';') {
                decls.push(declaration);
                kept = true;
                self.pos = self.pos + 1;
            } else {
                self.consume_while(Run::Space);
                if self.peek_is('}') {
                    decls.push(declaration);
                    kept = true;
                }
            }
            self.consume_while(Run::Space);
            assert(kept == keep);
            assert(self.pos == end);
            if kept {
                assert(decls@.map_values(|x: Declaration| x@) == before.push(model));
            } else {
                assert(decls@.map_values(|x: Declaration| x@) == before);
            }
            let ghost tail = declarations_from(s, self.pos as int).0;
            assert(before + seq![model] + tail == before + (seq![model] + tail));
        }
        if self.pos < self.chars.len() {
            self.pos = self.pos + 1;
        }
        assert(decls@.map_values(|x: Declaration| x@) + seq![] == decls@.map_values(
            |x: Declaration| x@,
        ));
        decls
    }

    /// Parses rules until the text is used up.
    pub fn parse_stylesheet(&mut self) -> (r: Stylesheet)
        requires
            old(self).wf(),
        ensures
            final(self).wf(),
            final(self).input() == old(self).input(),
            final(self).position() == old(self).input().len(),
            r@ == rules_from(old(self).input(), old(self).position()),
    {
        let ghost s = self.chars@;
        let ghost p = self.pos as int;
        let mut rules: Vec<Rule> = Vec::new();
        while self.pos < self.chars.len()
            invariant
                self.wf(),
                self.chars@ == s,
                rules@.map_values(|x: Rule| x@) + rules_from(s, self.pos as int) == rules_from(
                    s,
                    p,
                ),
            decreases s.len() - self.pos,
        {
            let ghost at = self.pos as int;
            proof {
                lemma_rule_at(s, at);
            }
            let ghost before = rules@.map_values(|x: Rule| x@);
            let selectors = self.parse_selectors();
            let declarations = self.parse_declarations();
            let rule = Rule::new(selectors, declarations);
            assert(rule@ == rule_at(s, at).0);
            rules.push(rule);
            assert(rules@.map_values(|x: Rule| x@) == before.push(rule_at(s, at).0));
            let ghost tail = rules_from(s, self.pos as int);
            assert(before + seq![rule_at(s, at).0] + tail == before + (seq![rule_at(s, at).0]
                + tail));
        }
        assert(rules@.map_values(|x: Rule| x@) + seq![] == rules@.map_values(|x: Rule| x@));
        Stylesheet::new(rules)
    }
}

} // verus!
