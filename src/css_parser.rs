//! The stylesheet parser: text to rules.
use vstd::prelude::*;

use crate::arith::UNITS_PER_PX;
use crate::cascade::spec_lt;
use crate::css::{Color, Declaration, Rule, Selector, SimpleSelector, Specificity, Stylesheet, Unit, Value,
    spec_le, specificity_of, specificity_le};
use crate::scan::{CharClass, Scanner, advanced, in_class, lemma_run_end, run_end, starts_at};
use crate::dom::views;
use crate::strmap::str_eq;

verus! {

/// Why a text is not a well-formed stylesheet.
#[derive(Debug, PartialEq, Eq, Structural)]
pub enum CssError {
    /// The text ended inside a rule or comment.
    UnexpectedEnd,
    /// A character that the grammar does not allow where it stands.
    UnexpectedChar(char),
    /// A length unit other than `px` and `em`.
    UnknownUnit,
    /// A number that is malformed or too large.
    BadNumber,
}

/// The value of a hexadecimal digit.
pub open spec fn hex_value(c: char) -> Option<u8> {
    if '0' <= c && c <= '9' {
        Some((c as u32 - '0' as u32) as u8)
    } else if 'a' <= c && c <= 'f' {
        Some((c as u32 - 'a' as u32 + 10) as u8)
    } else if 'A' <= c && c <= 'F' {
        Some((c as u32 - 'A' as u32 + 10) as u8)
    } else {
        None
    }
}

/// The number that decimal digits `s` write.
pub open spec fn digits_value(s: Seq<char>) -> int
    decreases s.len(),
{
    if s.len() == 0 {
        0
    } else {
        digits_value(s.drop_last()) * 10 + (s.last() as u32 - '0' as u32)
    }
}

/// Thousandths written by the first three digits of fraction digits `s`.
pub open spec fn fraction_value(s: Seq<char>) -> int {
    let d = |i: int| if i < s.len() { (s[i] as u32 - '0' as u32) as int } else { 0 };
    d(0) * 100 + d(1) * 10 + d(2)
}

/// The unit that a unit name stands for.
pub open spec fn unit_of(name: Seq<char>) -> Option<Unit> {
    if name == "px"@ {
        Some(Unit::Px)
    } else if name == "em"@ {
        Some(Unit::Em)
    } else {
        None
    }
}

/// The byte that the two hexadecimal digits at `i` of `s` write.
pub open spec fn hex_byte(s: Seq<char>, i: int) -> Option<u8> {
    if 0 <= i && i + 2 <= s.len() && hex_value(s[i]) is Some && hex_value(s[i + 1]) is Some {
        Some((hex_value(s[i])->0 * 16 + hex_value(s[i + 1])->0) as u8)
    } else {
        None
    }
}

pub open spec fn is_letter(c: char) -> bool {
    ('a' <= c && c <= 'z') || ('A' <= c && c <= 'Z')
}

/// The identifier that starts at `p` of `s`.
pub open spec fn identifier_at(s: Seq<char>, p: int) -> Seq<char> {
    s.subrange(p, run_end(s, p, CharClass::Identifier))
}

/// What a value holds, as plain values.
pub enum ValueView {
    Keyword(Seq<char>),
    Length(i64, Unit),
    Number(i64),
    ColorValue(Color),
}

pub open spec fn value_view(v: Value) -> ValueView {
    match v {
        Value::Keyword(k) => ValueView::Keyword(k@),
        Value::Length(n, u) => ValueView::Length(n, u),
        Value::Number(n) => ValueView::Number(n),
        Value::ColorValue(c) => ValueView::ColorValue(c),
    }
}

/// The length or number that starts at `p` of `s`, a number with a unit when
/// a letter follows it, and where it ends.
pub open spec fn length_at(s: Seq<char>, p: int) -> Option<(ValueView, int)> {
    match number_at(s, p) {
        Some((n, e)) => if e < s.len() && is_letter(s[e]) {
            match unit_of(identifier_at(s, e)) {
                Some(u) => Some((ValueView::Length(n as i64, u), run_end(s, e, CharClass::Identifier))),
                None => None,
            }
        } else {
            Some((ValueView::Number(n as i64), e))
        },
        None => None,
    }
}

/// The value that starts at `p` of `s`, and where it ends: a length or number
/// at a digit, `-` or `.`; a color at `#`; else a keyword.
pub open spec fn value_at(s: Seq<char>, p: int) -> Option<(ValueView, int)> {
    if p < 0 || p >= s.len() {
        None
    } else {
        let c = s[p];
        if ('0' <= c && c <= '9') || c == '-' || c == '.' {
            length_at(s, p)
        } else if c == '#' {
            match color_at(s, p) {
                Some(col) => Some((ValueView::ColorValue(col), p + 7)),
                None => None,
            }
        } else {
            Some((ValueView::Keyword(identifier_at(s, p)), run_end(s, p, CharClass::Identifier)))
        }
    }
}

/// The color `#rrggbb` that starts at `p` of `s`, opaque.
pub open spec fn color_at(s: Seq<char>, p: int) -> Option<Color> {
    if 0 <= p < s.len() && s[p] == '#' && hex_byte(s, p + 1) is Some && hex_byte(s, p + 3) is Some
        && hex_byte(s, p + 5) is Some {
        Some(Color { r: hex_byte(s, p + 1)->0, g: hex_byte(s, p + 3)->0, b: hex_byte(s, p + 5)->0, a: 255 })
    } else {
        None
    }
}

/// A declaration as (name, values).
pub type DeclView = (Seq<char>, Seq<ValueView>);

pub open spec fn decl_view(d: Declaration) -> DeclView {
    (d.name@, d.values@.map_values(|v: Value| value_view(v)))
}

/// The values from `p` of `s` up to `;`, after `acc`, each followed by white
/// space; at least one; and where they end (at the `;`).
pub open spec fn values_at(s: Seq<char>, p: int, acc: Seq<ValueView>) -> Option<(Seq<ValueView>, int)>
    decreases s.len() - p,
{
    if p < 0 || p >= s.len() {
        None
    } else if s[p] == ';' && acc.len() > 0 {
        Some((acc, p))
    } else {
        match value_at(s, p) {
            Some((v, e)) => if p < e <= s.len() {
                proof {
                    lemma_run_end(s, e, CharClass::Whitespace);
                }
                values_at(s, run_end(s, e, CharClass::Whitespace), acc.push(v))
            } else {
                None
            },
            None => None,
        }
    }
}

/// The declaration `name: values;` at `p` of `s`, and where it ends.
pub open spec fn declaration_at(s: Seq<char>, p: int) -> Option<(DeclView, int)> {
    let e1 = run_end(s, p, CharClass::Identifier);
    let q = run_end(s, e1, CharClass::Whitespace);
    if 0 <= p && q < s.len() && s[q] == ':' {
        match values_at(s, run_end(s, q + 1, CharClass::Whitespace), Seq::empty()) {
            Some((vs, r)) => if r < s.len() && s[r] == ';' {
                Some(((s.subrange(p, e1), vs), r + 1))
            } else {
                None
            },
            None => None,
        }
    } else {
        None
    }
}

/// The declarations from `p` of `s` up to `}`, after `acc`, and where they
/// end (at the `}`).
pub open spec fn declarations_at(s: Seq<char>, p: int, acc: Seq<DeclView>) -> Option<(Seq<DeclView>, int)>
    decreases s.len() - p,
{
    if p < 0 || p > s.len() {
        None
    } else {
        let q = run_end(s, p, CharClass::Whitespace);
        proof {
            lemma_run_end(s, p, CharClass::Whitespace);
        }
        if q >= s.len() {
            None
        } else if s[q] == '}' {
            Some((acc, q))
        } else {
            match declaration_at(s, q) {
                Some((d, e)) => if q < e <= s.len() {
                    declarations_at(s, e, acc.push(d))
                } else {
                    None
                },
                None => None,
            }
        }
    }
}

/// The block `{ declarations }` at `p` of `s`, and where it ends.
pub open spec fn block_at(s: Seq<char>, p: int) -> Option<(Seq<DeclView>, int)> {
    if 0 <= p < s.len() && s[p] == '{' {
        match declarations_at(s, p + 1, Seq::empty()) {
            Some((ds, q)) => if q < s.len() && s[q] == '}' {
                Some((ds, q + 1))
            } else {
                None
            },
            None => None,
        }
    } else {
        None
    }
}

/// The specificity of selector parts: (ids, classes, tag names).
pub open spec fn parts_specificity(x: SelectorParts) -> Specificity {
    (if x.1 is Some { 1 } else { 0 }, x.2.len() as usize, if x.0 is Some { 1 } else { 0 })
}

pub open spec fn selector_parts(sel: Selector) -> SelectorParts {
    match sel {
        Selector::Simple(ss) => parts_of(ss),
    }
}

pub open spec fn selectors_view(v: Seq<Selector>) -> Seq<SelectorParts> {
    v.map_values(|sel: Selector| selector_parts(sel))
}

/// `l` with `x` inserted after every entry at least as specific.
pub open spec fn insert_desc(l: Seq<SelectorParts>, x: SelectorParts) -> Seq<SelectorParts>
    decreases l.len(),
{
    if l.len() == 0 {
        seq![x]
    } else if spec_lt(parts_specificity(l.last()), parts_specificity(x)) {
        insert_desc(l.drop_last(), x).push(l.last())
    } else {
        l.push(x)
    }
}

pub proof fn lemma_scan_selector(s: Seq<char>, p: int, acc: SelectorParts)
    ensures
        scan_selector(s, p, acc).1 >= p,
        0 <= p <= s.len() ==> scan_selector(s, p, acc).1 <= s.len(),
    decreases s.len() - p,
{
    if 0 <= p < s.len() {
        lemma_run_end(s, p + 1, CharClass::Identifier);
        lemma_run_end(s, p, CharClass::Identifier);
        if s[p] == '#' {
            let e = run_end(s, p + 1, CharClass::Identifier);
            lemma_scan_selector(s, e, (acc.0, Some(s.subrange(p + 1, e)), acc.2));
        } else if s[p] == '.' {
            let e = run_end(s, p + 1, CharClass::Identifier);
            lemma_scan_selector(s, e, (acc.0, acc.1, acc.2.push(s.subrange(p + 1, e))));
        } else if s[p] == '*' {
            lemma_scan_selector(s, p + 1, acc);
        } else if in_class(s[p], CharClass::Identifier) {
            let e = run_end(s, p, CharClass::Identifier);
            lemma_scan_selector(s, e, (Some(s.subrange(p, e)), acc.1, acc.2));
        }
    }
}

/// The selector list from `p` of `s` up to `{`, each selector inserted into
/// `acc` after those at least as specific, and where it ends (at the `{`).
pub open spec fn selectors_at(s: Seq<char>, p: int, acc: Seq<SelectorParts>) -> Option<(Seq<SelectorParts>, int)>
    decreases s.len() - p,
{
    if p < 0 || p > s.len() {
        None
    } else {
        let (parts, e) = scan_selector(s, p, (None, None, Seq::empty()));
        let acc2 = insert_desc(acc, parts);
        proof {
            lemma_scan_selector(s, p, (None, None, Seq::empty()));
            lemma_run_end(s, e, CharClass::Whitespace);
        }
        let q = run_end(s, e, CharClass::Whitespace);
        if q >= s.len() {
            None
        } else if s[q] == ',' {
            proof {
                lemma_run_end(s, q + 1, CharClass::Whitespace);
            }
            selectors_at(s, run_end(s, q + 1, CharClass::Whitespace), acc2)
        } else if s[q] == '{' {
            Some((acc2, q))
        } else {
            None
        }
    }
}

/// A rule as (selectors, declarations).
pub type RuleView = (Seq<SelectorParts>, Seq<DeclView>);

pub open spec fn rule_view(r: Rule) -> RuleView {
    (selectors_view(r.selectors@), r.declarations@.map_values(|d: Declaration| decl_view(d)))
}

pub open spec fn rules_view(v: Seq<Rule>) -> Seq<RuleView> {
    v.map_values(|r: Rule| rule_view(r))
}

/// The rule at `p` of `s`, and where it ends.
pub open spec fn rule_at(s: Seq<char>, p: int) -> Option<(RuleView, int)> {
    match selectors_at(s, p, Seq::empty()) {
        Some((sels, q)) => match block_at(s, q) {
            Some((ds, e)) => Some(((sels, ds), e)),
            None => None,
        },
        None => None,
    }
}

/// Where the comment that the cursor at `p` is inside ends: just after the
/// first `*/` at or after `p`.
pub open spec fn comment_end(s: Seq<char>, p: int) -> Option<int>
    decreases s.len() - p,
{
    if p < 0 {
        None
    } else if starts_at(s, p, "*/"@) {
        Some(p + 2)
    } else if p >= s.len() {
        None
    } else {
        comment_end(s, p + 1)
    }
}

pub proof fn lemma_comment_end(s: Seq<char>, p: int)
    ensures
        comment_end(s, p) matches Some(e) ==> p < e <= s.len(),
    decreases s.len() - p,
{
    reveal_strlit("*/");
    if p >= 0 && !starts_at(s, p, "*/"@) && p < s.len() {
        lemma_comment_end(s, p + 1);
    }
}

/// The rules from `p` of `s` to its end, after `acc`, skipping white space
/// and comments between them.
pub open spec fn rules_at(s: Seq<char>, p: int, acc: Seq<RuleView>) -> Option<Seq<RuleView>>
    decreases s.len() - p,
{
    if p < 0 || p > s.len() {
        None
    } else {
        let q = run_end(s, p, CharClass::Whitespace);
        proof {
            lemma_run_end(s, p, CharClass::Whitespace);
            lemma_comment_end(s, q);
        }
        if starts_at(s, q, "/*"@) {
            match comment_end(s, q) {
                Some(e) => rules_at(s, e, acc),
                None => None,
            }
        } else if q >= s.len() {
            Some(acc)
        } else {
            match rule_at(s, q) {
                Some((r, e)) => if q < e <= s.len() {
                    rules_at(s, e, acc.push(r))
                } else {
                    None
                },
                None => None,
            }
        }
    }
}

/// Selectors in order of non-increasing specificity.
pub open spec fn by_specificity_desc(s: Seq<Selector>) -> bool {
    forall|i: int, j: int| 0 <= i < j < s.len() ==> spec_le(specificity_of(#[trigger] s[j]), specificity_of(#[trigger] s[i]))
}

/// Parses a stylesheet.
pub fn parse(source: String) -> (r: Result<Stylesheet, CssError>)
    ensures
        r is Ok <==> rules_at(source@, 0, Seq::empty()) is Some,
        r matches Ok(sheet) ==> rules_at(source@, 0, Seq::empty()) == Some(rules_view(sheet.rules@)),
        r matches Ok(sheet) ==> forall|i: int| 0 <= i < sheet.rules@.len()
            ==> by_specificity_desc(#[trigger] sheet.rules@[i].selectors@),
{
    let mut p = Scanner::new(source.as_str());
    let rules = parse_rules(&mut p)?;
    Ok(Stylesheet { rules })
}

fn parse_rules(p: &mut Scanner) -> (r: Result<Vec<Rule>, CssError>)
    requires
        old(p).wf(),
    ensures
        advanced(*old(p), *final(p)),
        r matches Ok(rules) ==> forall|i: int| 0 <= i < rules@.len()
            ==> by_specificity_desc(#[trigger] rules@[i].selectors@),
        r is Ok <==> rules_at(old(p).input@, old(p).pos as int, Seq::empty()) is Some,
        r matches Ok(rules) ==> rules_at(old(p).input@, old(p).pos as int, Seq::empty()) == Some(rules_view(rules@)),
{
    let ghost s = p.input@;
    let mut rules: Vec<Rule> = Vec::new();
    assert(rules_view(rules@) =~= Seq::<RuleView>::empty());
    loop
        invariant_except_break
            rules_at(s, old(p).pos as int, Seq::empty()) == rules_at(s, p.pos as int, rules_view(rules@)),
        invariant
            p.wf(),
            advanced(*old(p), *p),
            s == p.input@,
            forall|i: int| 0 <= i < rules@.len() ==> by_specificity_desc(#[trigger] rules@[i].selectors@),
        ensures
            p.wf(),
            advanced(*old(p), *p),
            forall|i: int| 0 <= i < rules@.len() ==> by_specificity_desc(#[trigger] rules@[i].selectors@),
            rules_at(s, old(p).pos as int, Seq::empty()) == Some(rules_view(rules@)),
        decreases p.input@.len() - p.pos,
    {
        proof {
            lemma_run_end(s, p.pos as int, CharClass::Whitespace);
            reveal_strlit("/*");
        }
        p.consume_whitespace();
        if p.starts_with("/*") {
            proof {
                lemma_comment_end(s, p.pos as int);
            }
            consume_comment(p)?;
            continue;
        }
        if p.eof() {
            break;
        }
        let rule = parse_rule(p)?;
        let ghost before = rules@;
        rules.push(rule);
        assert(rules_view(rules@) =~= rules_view(before).push(rule_view(rule)));
    }
    Ok(rules)
}

fn parse_rule(p: &mut Scanner) -> (r: Result<Rule, CssError>)
    requires
        old(p).wf(),
    ensures
        advanced(*old(p), *final(p)),
        r is Ok ==> final(p).pos > old(p).pos,
        r matches Ok(rule) ==> by_specificity_desc(rule.selectors@),
        r is Ok <==> rule_at(old(p).input@, old(p).pos as int) is Some,
        r matches Ok(rule) ==> rule_at(old(p).input@, old(p).pos as int) == Some((rule_view(rule), final(p).pos as int)),
{
    let selectors = parse_selectors(p)?;
    let declarations = parse_declarations(p)?;
    Ok(Rule { selectors, declarations })
}

proof fn lemma_insert_desc_at(l: Seq<SelectorParts>, x: SelectorParts, p: int)
    requires
        0 <= p <= l.len(),
        forall|q: int| p <= q < l.len() ==> spec_lt(parts_specificity(#[trigger] l[q]), parts_specificity(x)),
        p == 0 || !spec_lt(parts_specificity(l[p - 1]), parts_specificity(x)),
    ensures
        insert_desc(l, x) == l.insert(p, x),
    decreases l.len(),
{
    if l.len() == 0 {
        assert(l.insert(p, x) =~= seq![x]);
    } else if p == l.len() {
        assert(l.insert(p, x) =~= l.push(x));
    } else {
        assert(spec_lt(parts_specificity(l[l.len() - 1]), parts_specificity(x)));
        lemma_insert_desc_at(l.drop_last(), x, p);
        assert(l.drop_last().insert(p, x).push(l.last()) =~= l.insert(p, x));
    }
}

/// `sels` with `x` inserted after every selector at least as specific.
fn insert_by_specificity(sels: &mut Vec<Selector>, x: Selector)
    requires
        by_specificity_desc(old(sels)@),
    ensures
        by_specificity_desc(final(sels)@),
        final(sels)@.len() == old(sels)@.len() + 1,
        selectors_view(final(sels)@) == insert_desc(selectors_view(old(sels)@), selector_parts(x)),
{
    let s = x.specificity();
    let mut p: usize = sels.len();
    while p > 0 && !specificity_le(s, sels[p - 1].specificity())
        invariant
            p <= sels@.len(),
            by_specificity_desc(sels@),
            sels@ == old(sels)@,
            s == specificity_of(x),
            forall|q: int| p <= q < sels@.len() ==> spec_lt(specificity_of(#[trigger] sels@[q]), s),
        decreases p,
    {
        p = p - 1;
    }
    let ghost before = sels@;
    proof {
        let v = selectors_view(before);
        assert forall|q: int| p <= q < v.len() implies spec_lt(parts_specificity(#[trigger] v[q]), parts_specificity(selector_parts(x))) by {
            assert(spec_lt(specificity_of(before[q]), s));
        }
        lemma_insert_desc_at(v, selector_parts(x), p as int);
    }
    sels.insert(p, x);
    assert(selectors_view(sels@) =~= selectors_view(before).insert(p as int, selector_parts(x)));
    assert forall|i: int, j: int| 0 <= i < j < sels@.len()
        implies spec_le(specificity_of(#[trigger] sels@[j]), specificity_of(#[trigger] sels@[i])) by {
        if j < p {
            assert(sels@[i] == before[i] && sels@[j] == before[j]);
        } else if i > p {
            assert(sels@[i] == before[i - 1] && sels@[j] == before[j - 1]);
        } else if i < p && j > p {
            assert(sels@[i] == before[i] && sels@[j] == before[j - 1]);
            assert(spec_le(specificity_of(before[j - 1]), specificity_of(before[p - 1])));
        } else if i == p {
            assert(sels@[j] == before[j - 1]);
        } else {
            assert(sels@[i] == before[i]);
            if i < p - 1 {
                assert(spec_le(specificity_of(before[p - 1]), specificity_of(before[i])));
            }
        }
    }
}

/// A comma-separated list of simple selectors, up to `{`, most specific first.
fn parse_selectors(p: &mut Scanner) -> (r: Result<Vec<Selector>, CssError>)
    requires
        old(p).wf(),
    ensures
        advanced(*old(p), *final(p)),
        r matches Ok(v) ==> by_specificity_desc(v@),
        r is Ok ==> final(p).pos < final(p).input@.len() && final(p).input@[final(p).pos as int] == '{',
        r is Ok <==> selectors_at(old(p).input@, old(p).pos as int, Seq::empty()) is Some,
        r matches Ok(v) ==> selectors_at(old(p).input@, old(p).pos as int, Seq::empty())
            == Some((selectors_view(v@), final(p).pos as int)),
{
    let ghost s = p.input@;
    let mut selectors: Vec<Selector> = Vec::new();
    assert(selectors_view(selectors@) =~= Seq::<SelectorParts>::empty());
    loop
        invariant_except_break
            selectors_at(s, old(p).pos as int, Seq::empty()) == selectors_at(s, p.pos as int, selectors_view(selectors@)),
        invariant
            p.wf(),
            advanced(*old(p), *p),
            s == p.input@,
            by_specificity_desc(selectors@),
        ensures
            p.wf(),
            advanced(*old(p), *p),
            by_specificity_desc(selectors@),
            p.pos < p.input@.len() && p.input@[p.pos as int] == '{',
            selectors_at(s, old(p).pos as int, Seq::empty()) == Some((selectors_view(selectors@), p.pos as int)),
        decreases p.input@.len() - p.pos,
    {
        let simple = parse_simple_selector(p);
        proof {
            lemma_run_end(s, p.pos as int, CharClass::Whitespace);
        }
        insert_by_specificity(&mut selectors, Selector::Simple(simple));
        p.consume_whitespace();
        if p.eof() {
            return Err(CssError::UnexpectedEnd);
        }
        let c = p.next_char();
        if c == ',' {
            p.consume_char();
            p.consume_whitespace();
        } else if c == '{' {
            break;
        } else {
            return Err(CssError::UnexpectedChar(c));
        }
    }
    Ok(selectors)
}

/// A simple selector as (tag name, id, class names).
pub type SelectorParts = (Option<Seq<char>>, Option<Seq<char>>, Seq<Seq<char>>);

pub open spec fn opt_view(o: Option<String>) -> Option<Seq<char>> {
    match o {
        Some(x) => Some(x@),
        None => None,
    }
}

pub open spec fn parts_of(sel: SimpleSelector) -> SelectorParts {
    (opt_view(sel.tag_name), opt_view(sel.id), views(sel.class@))
}

/// Reads selector parts from `p` of `s` into `acc`: `#id` sets the id,
/// `.name` adds a class, `*` is skipped, an identifier sets the tag name; a
/// later id or tag name replaces an earlier one. Returns the parts and where
/// they end.
pub open spec fn scan_selector(s: Seq<char>, p: int, acc: SelectorParts) -> (SelectorParts, int)
    decreases s.len() - p,
{
    if p < 0 || p >= s.len() {
        (acc, p)
    } else if s[p] == '#' {
        proof {
            lemma_run_end(s, p + 1, CharClass::Identifier);
        }
        let e = run_end(s, p + 1, CharClass::Identifier);
        scan_selector(s, e, (acc.0, Some(s.subrange(p + 1, e)), acc.2))
    } else if s[p] == '.' {
        proof {
            lemma_run_end(s, p + 1, CharClass::Identifier);
        }
        let e = run_end(s, p + 1, CharClass::Identifier);
        scan_selector(s, e, (acc.0, acc.1, acc.2.push(s.subrange(p + 1, e))))
    } else if s[p] == '*' {
        scan_selector(s, p + 1, acc)
    } else if in_class(s[p], CharClass::Identifier) {
        proof {
            lemma_run_end(s, p + 1, CharClass::Identifier);
        }
        let e = run_end(s, p, CharClass::Identifier);
        scan_selector(s, e, (Some(s.subrange(p, e)), acc.1, acc.2))
    } else {
        (acc, p)
    }
}

/// Tag name, `#id`, `.class` and `*` parts, in any order.
fn parse_simple_selector(p: &mut Scanner) -> (r: SimpleSelector)
    requires
        old(p).wf(),
    ensures
        advanced(*old(p), *final(p)),
        (parts_of(r), final(p).pos as int) == scan_selector(old(p).input@, old(p).pos as int,
            (None, None, Seq::empty())),
{
    let mut selector = SimpleSelector { tag_name: None, id: None, class: Vec::new() };
    assert(views(selector.class@) =~= Seq::<Seq<char>>::empty());
    while !p.eof()
        invariant
            p.wf(),
            advanced(*old(p), *p),
            scan_selector(old(p).input@, old(p).pos as int, (None, None, Seq::empty()))
                == scan_selector(p.input@, p.pos as int, parts_of(selector)),
        ensures
            p.wf(),
            advanced(*old(p), *p),
            scan_selector(old(p).input@, old(p).pos as int, (None, None, Seq::empty()))
                == (parts_of(selector), p.pos as int),
        decreases p.input@.len() - p.pos,
    {
        let c = p.next_char();
        if c == '#' {
            p.consume_char();
            selector.id = Some(parse_identifier(p));
        } else if c == '.' {
            p.consume_char();
            let name = parse_identifier(p);
            let ghost before = views(selector.class@);
            selector.class.push(name);
            assert(views(selector.class@) =~= before.push(name@));
        } else if c == '*' {
            p.consume_char();
        } else if valid_identifier_char(c) {
            proof {
                lemma_run_end(p.input@, p.pos + 1, CharClass::Identifier);
            }
            selector.tag_name = Some(parse_identifier(p));
        } else {
            break;
        }
    }
    selector
}

pub fn valid_identifier_char(c: char) -> (r: bool)
    ensures
        r == in_class(c, CharClass::Identifier),
{
    crate::scan::char_in_class(c, CharClass::Identifier)
}

/// A run of letters, digits, `-` and `_`.
fn parse_identifier(p: &mut Scanner) -> (r: String)
    requires
        old(p).wf(),
    ensures
        advanced(*old(p), *final(p)),
        final(p).pos == run_end(old(p).input@, old(p).pos as int, CharClass::Identifier),
        r@ == old(p).input@.subrange(old(p).pos as int, final(p).pos as int),
{
    p.consume_while(CharClass::Identifier)
}

/// Consumes `c`, or fails.
fn expect(p: &mut Scanner, c: char) -> (r: Result<(), CssError>)
    requires
        old(p).wf(),
    ensures
        advanced(*old(p), *final(p)),
        r is Ok <==> (old(p).pos < old(p).input@.len() && old(p).input@[old(p).pos as int] == c),
        r is Ok ==> final(p).pos == old(p).pos + 1,
{
    if p.eof() {
        return Err(CssError::UnexpectedEnd);
    }
    let got = p.consume_char();
    if got != c {
        return Err(CssError::UnexpectedChar(got));
    }
    Ok(())
}

/// `{ name: values; ... }`.
fn parse_declarations(p: &mut Scanner) -> (r: Result<Vec<Declaration>, CssError>)
    requires
        old(p).wf(),
    ensures
        advanced(*old(p), *final(p)),
        r is Ok ==> final(p).pos > old(p).pos,
        r is Ok <==> block_at(old(p).input@, old(p).pos as int) is Some,
        r matches Ok(ds) ==> block_at(old(p).input@, old(p).pos as int)
            == Some((ds@.map_values(|d: Declaration| decl_view(d)), final(p).pos as int)),
{
    let ghost s = p.input@;
    expect(p, '{')?;
    let mut declarations: Vec<Declaration> = Vec::new();
    assert(declarations@.map_values(|d: Declaration| decl_view(d)) =~= Seq::<DeclView>::empty());
    loop
        invariant_except_break
            declarations_at(s, old(p).pos + 1, Seq::empty())
                == declarations_at(s, p.pos as int, declarations@.map_values(|d: Declaration| decl_view(d))),
        invariant
            p.wf(),
            advanced(*old(p), *p),
            p.pos > old(p).pos,
            s == p.input@,
        ensures
            p.wf(),
            advanced(*old(p), *p),
            p.pos > old(p).pos,
            p.pos < s.len() && s[p.pos as int] == '}',
            declarations_at(s, old(p).pos + 1, Seq::empty())
                == Some((declarations@.map_values(|d: Declaration| decl_view(d)), p.pos as int)),
        decreases p.input@.len() - p.pos,
    {
        proof {
            lemma_run_end(s, p.pos as int, CharClass::Whitespace);
        }
        p.consume_whitespace();
        if p.eof() {
            return Err(CssError::UnexpectedEnd);
        }
        if p.next_char() == '}' {
            break;
        }
        let d = parse_declaration(p)?;
        let ghost before = declarations@;
        declarations.push(d);
        assert(declarations@.map_values(|d: Declaration| decl_view(d))
            =~= before.map_values(|d: Declaration| decl_view(d)).push(decl_view(d)));
    }
    expect(p, '}')?;
    Ok(declarations)
}

/// `name: value value ...;`, with one value or more.
fn parse_declaration(p: &mut Scanner) -> (r: Result<Declaration, CssError>)
    requires
        old(p).wf(),
    ensures
        advanced(*old(p), *final(p)),
        r is Ok ==> final(p).pos > old(p).pos,
        r matches Ok(d) ==> d.values@.len() >= 1,
        r is Ok <==> declaration_at(old(p).input@, old(p).pos as int) is Some,
        r matches Ok(d) ==> declaration_at(old(p).input@, old(p).pos as int) == Some((decl_view(d), final(p).pos as int)),
{
    let ghost s = p.input@;
    let name = parse_identifier(p);
    let ghost e1 = p.pos as int;
    proof {
        lemma_run_end(s, p.pos as int, CharClass::Whitespace);
    }
    p.consume_whitespace();
    let ghost q = p.pos as int;
    expect(p, ':')?;
    p.consume_whitespace();
    let ghost q2 = p.pos as int;
    let mut values: Vec<Value> = Vec::new();
    assert(values@.map_values(|v: Value| value_view(v)) =~= Seq::<ValueView>::empty());
    loop
        invariant_except_break
            values_at(s, q2, Seq::empty()) == values_at(s, p.pos as int, values@.map_values(|v: Value| value_view(v))),
        invariant
            p.wf(),
            advanced(*old(p), *p),
            s == p.input@,
            q2 <= p.pos,
            e1 == run_end(s, old(p).pos as int, CharClass::Identifier),
            q == run_end(s, e1, CharClass::Whitespace),
            q < s.len() && s[q] == ':',
            q2 == run_end(s, q + 1, CharClass::Whitespace),
            name@ == s.subrange(old(p).pos as int, e1),
        ensures
            p.wf(),
            advanced(*old(p), *p),
            values@.len() >= 1,
            p.pos < s.len() && s[p.pos as int] == ';',
            values_at(s, q2, Seq::empty()) == Some((values@.map_values(|v: Value| value_view(v)), p.pos as int)),
        decreases p.input@.len() - p.pos,
    {
        if p.eof() {
            return Err(CssError::UnexpectedEnd);
        }
        if p.next_char() == ';' && values.len() > 0 {
            break;
        }
        let start = p.pos;
        let v = parse_value(p)?;
        if p.pos == start {
            return Err(CssError::UnexpectedChar(p.next_char()));
        }
        let ghost before = values@;
        values.push(v);
        assert(values@.map_values(|v: Value| value_view(v)) =~= before.map_values(|v: Value| value_view(v)).push(value_view(v)));
        proof {
            lemma_run_end(s, p.pos as int, CharClass::Whitespace);
        }
        p.consume_whitespace();
    }
    expect(p, ';')?;
    Ok(Declaration { name, values })
}

/// A length or number, a `#rrggbb` color, or a keyword.
fn parse_value(p: &mut Scanner) -> (r: Result<Value, CssError>)
    requires
        old(p).wf(),
        old(p).pos < old(p).input@.len(),
    ensures
        advanced(*old(p), *final(p)),
        r is Ok <==> value_at(old(p).input@, old(p).pos as int) is Some,
        r matches Ok(v) ==> value_at(old(p).input@, old(p).pos as int) == Some((value_view(v), final(p).pos as int)),
{
    let c = p.next_char();
    if ('0' <= c && c <= '9') || c == '-' || c == '.' {
        parse_length_value(p)
    } else if c == '#' {
        parse_color_value(p)
    } else {
        Ok(Value::Keyword(parse_identifier(p)))
    }
}

/// A number, followed by a unit when a letter follows it.
fn parse_length_value(p: &mut Scanner) -> (r: Result<Value, CssError>)
    requires
        old(p).wf(),
    ensures
        advanced(*old(p), *final(p)),
        r is Ok <==> length_at(old(p).input@, old(p).pos as int) is Some,
        r matches Ok(v) ==> length_at(old(p).input@, old(p).pos as int) == Some((value_view(v), final(p).pos as int)),
{
    let f = parse_float(p)?;
    if !p.eof() && (('a' <= p.next_char() && p.next_char() <= 'z') || ('A' <= p.next_char() && p.next_char() <= 'Z')) {
        let unit = parse_unit(p)?;
        Ok(Value::Length(f, unit))
    } else {
        Ok(Value::Number(f))
    }
}

proof fn lemma_digits_prefix(s: Seq<char>, k: int)
    requires
        0 <= k <= s.len(),
        forall|i: int| 0 <= i < s.len() ==> in_class(#[trigger] s[i], CharClass::Digit),
    ensures
        0 <= digits_value(s.take(k)) <= digits_value(s),
    decreases s.len(),
{
    if s.len() > 0 {
        let t = s.drop_last();
        assert forall|i: int| 0 <= i < t.len() implies in_class(#[trigger] t[i], CharClass::Digit) by {
            assert(t[i] == s[i]);
        }
        assert(in_class(s[s.len() - 1], CharClass::Digit));
        if k == s.len() {
            assert(s.take(k) =~= s);
            lemma_digits_prefix(t, t.len() as int);
            assert(t.take(t.len() as int) =~= t);
        } else {
            lemma_digits_prefix(t, k);
            assert(t.take(k) =~= s.take(k));
            lemma_digits_prefix(t, t.len() as int);
            assert(t.take(t.len() as int) =~= t);
        }
    }
}

/// The value of decimal digits, or `None` if it does not fit in an `i64`.
fn digits_to_int(s: &String) -> (r: Option<i64>)
    requires
        forall|i: int| 0 <= i < s@.len() ==> in_class(#[trigger] s@[i], CharClass::Digit),
    ensures
        r matches Some(v) ==> v == digits_value(s@),
        r is None ==> digits_value(s@) > i64::MAX,
{
    let chars = crate::scan::chars_of(s.as_str());
    let mut v: i64 = 0;
    let mut i: usize = 0;
    assert(s@.take(0) =~= Seq::<char>::empty());
    while i < chars.len()
        invariant
            i <= chars@.len(),
            chars@ == s@,
            forall|j: int| 0 <= j < s@.len() ==> in_class(#[trigger] s@[j], CharClass::Digit),
            v == digits_value(s@.take(i as int)),
        decreases chars@.len() - i,
    {
        let d = (chars[i] as u32 - '0' as u32) as i64;
        assert(in_class(s@[i as int], CharClass::Digit));
        assert(s@.take(i + 1).drop_last() =~= s@.take(i as int));
        proof {
            lemma_digits_prefix(s@, i + 1);
        }
        match v.checked_mul(10) {
            Some(t) => match t.checked_add(d) {
                Some(n) => {
                    v = n;
                },
                None => {
                    return None;
                },
            },
            None => {
                return None;
            },
        }
        i = i + 1;
    }
    assert(s@.take(i as int) =~= s@);
    Some(v)
}

/// The value of the digit at `i` of `v`, or zero past its end.
fn digit_at(v: &Vec<char>, i: usize) -> (r: i64)
    requires
        forall|j: int| 0 <= j < v@.len() ==> in_class(#[trigger] v@[j], CharClass::Digit),
    ensures
        r == if i < v@.len() { (v@[i as int] as u32 - '0' as u32) as int } else { 0 },
        0 <= r <= 9,
{
    if i < v.len() {
        assert(in_class(v@[i as int], CharClass::Digit));
        (v[i] as u32 - '0' as u32) as i64
    } else {
        0
    }
}

/// The number written at `p` of `s`, `-`? digits (`.` digits)?, in
/// thousandths with digits past the third decimal dropped, and where it ends;
/// `None` when there are no digits or it does not fit in an `i64`.
pub open spec fn number_at(s: Seq<char>, p: int) -> Option<(int, int)> {
    let neg = p < s.len() && s[p] == '-';
    let a = if neg { p + 1 } else { p };
    let e1 = run_end(s, a, CharClass::Digit);
    let has_frac = e1 < s.len() && s[e1] == '.';
    let e2 = if has_frac { run_end(s, e1 + 1, CharClass::Digit) } else { e1 };
    let frac = if has_frac { fraction_value(s.subrange(e1 + 1, e2)) } else { 0 };
    let mag = digits_value(s.subrange(a, e1)) * 1000 + frac;
    if (e1 == a && !has_frac) || mag > i64::MAX {
        None
    } else {
        Some((if neg { -mag } else { mag }, e2))
    }
}

/// A decimal number: see `number_at`.
fn parse_float(p: &mut Scanner) -> (r: Result<i64, CssError>)
    requires
        old(p).wf(),
    ensures
        advanced(*old(p), *final(p)),
        r is Ok <==> number_at(old(p).input@, old(p).pos as int) is Some,
        r matches Ok(v) ==> number_at(old(p).input@, old(p).pos as int) == Some((v as int, final(p).pos as int)),
        r is Err ==> r == Err::<i64, CssError>(CssError::BadNumber),
{
    let ghost s = p.input@;
    let negative = if !p.eof() && p.next_char() == '-' {
        p.consume_char();
        true
    } else {
        false
    };
    let ghost a = p.pos as int;
    let int_digits = p.consume_while(CharClass::Digit);
    proof {
        lemma_run_end(s, a, CharClass::Digit);
    }
    let ghost e1 = p.pos as int;
    let mut frac: i64 = 0;
    let mut has_frac = false;
    if !p.eof() && p.next_char() == '.' {
        p.consume_char();
        has_frac = true;
        let start = p.pos;
        let frac_digits = p.consume_while(CharClass::Digit);
        proof {
            lemma_run_end(s, start as int, CharClass::Digit);
        }
        let fc = crate::scan::chars_of(frac_digits.as_str());
        assert(fc@ == s.subrange(e1 + 1, p.pos as int));
        let d0 = digit_at(&fc, 0);
        let d1 = digit_at(&fc, 1);
        let d2 = digit_at(&fc, 2);
        frac = d0 * 100 + d1 * 10 + d2;
        assert(frac as int == fraction_value(s.subrange(e1 + 1, p.pos as int)));
    }
    let ghost e2 = p.pos as int;
    assert(has_frac ==> frac as int == fraction_value(s.subrange(e1 + 1, e2)));
    assert(!has_frac ==> e2 == e1);
    assert(frac >= 0);
    if int_digits.unicode_len() == 0 && !has_frac {
        return Err(CssError::BadNumber);
    }
    proof {
        assert(int_digits@ == s.subrange(a, e1));
        assert forall|i: int| 0 <= i < int_digits@.len() implies in_class(#[trigger] int_digits@[i], CharClass::Digit) by {
            assert(int_digits@[i] == s[a + i]);
        }
        lemma_digits_prefix(int_digits@, 0);
    }
    let whole = match digits_to_int(&int_digits) {
        Some(v) => v,
        None => {
            return Err(CssError::BadNumber);
        },
    };
    let scaled = match whole.checked_mul(UNITS_PER_PX) {
        Some(v) => v,
        None => {
            return Err(CssError::BadNumber);
        },
    };
    let total = match scaled.checked_add(frac) {
        Some(v) => v,
        None => {
            return Err(CssError::BadNumber);
        },
    };
    Ok(if negative { -total } else { total })
}

/// `px` or `em`.
fn parse_unit(p: &mut Scanner) -> (r: Result<Unit, CssError>)
    requires
        old(p).wf(),
    ensures
        advanced(*old(p), *final(p)),
        r == match unit_of(identifier_at(old(p).input@, old(p).pos as int)) {
            Some(u) => Ok::<Unit, CssError>(u),
            None => Err(CssError::UnknownUnit),
        },
        final(p).pos == run_end(old(p).input@, old(p).pos as int, CharClass::Identifier),
{
    let unit = parse_identifier(p);
    proof {
        reveal_strlit("px");
        reveal_strlit("em");
        assert("px"@[0] != "em"@[0]);
    }
    if str_eq(unit.as_str(), "px") {
        Ok(Unit::Px)
    } else if str_eq(unit.as_str(), "em") {
        Ok(Unit::Em)
    } else {
        Err(CssError::UnknownUnit)
    }
}

/// `#rrggbb`, opaque.
fn parse_color_value(p: &mut Scanner) -> (r: Result<Value, CssError>)
    requires
        old(p).wf(),
    ensures
        advanced(*old(p), *final(p)),
        r is Ok <==> color_at(old(p).input@, old(p).pos as int) is Some,
        r matches Ok(v) ==> v == Value::ColorValue(color_at(old(p).input@, old(p).pos as int)->0)
            && final(p).pos == old(p).pos + 7,
{
    expect(p, '#')?;
    let r = parse_hex(p)?;
    let g = parse_hex(p)?;
    let b = parse_hex(p)?;
    Ok(Value::ColorValue(Color { r, g, b, a: 255 }))
}

fn hex_digit(c: char) -> (r: Option<u8>)
    ensures
        r == hex_value(c),
{
    if '0' <= c && c <= '9' {
        Some((c as u32 - '0' as u32) as u8)
    } else if 'a' <= c && c <= 'f' {
        Some((c as u32 - 'a' as u32 + 10) as u8)
    } else if 'A' <= c && c <= 'F' {
        Some((c as u32 - 'A' as u32 + 10) as u8)
    } else {
        None
    }
}

/// Two hexadecimal digits.
fn parse_hex(p: &mut Scanner) -> (r: Result<u8, CssError>)
    requires
        old(p).wf(),
    ensures
        advanced(*old(p), *final(p)),
        ({
            let s = old(p).input@;
            let i = old(p).pos as int;
            &&& r is Ok <==> hex_byte(s, i) is Some
            &&& r matches Ok(v) ==> Some(v) == hex_byte(s, i) && final(p).pos == i + 2
        }),
{
    if p.eof() {
        return Err(CssError::UnexpectedEnd);
    }
    let hi = p.consume_char();
    if p.eof() {
        return Err(CssError::UnexpectedEnd);
    }
    let lo = p.consume_char();
    match (hex_digit(hi), hex_digit(lo)) {
        (Some(h), Some(l)) => Ok(h * 16 + l),
        _ => Err(CssError::UnexpectedChar(hi)),
    }
}

/// Skips a comment, `/*` through `*/`.
fn consume_comment(p: &mut Scanner) -> (r: Result<(), CssError>)
    requires
        old(p).wf(),
    ensures
        advanced(*old(p), *final(p)),
        r is Ok <==> comment_end(old(p).input@, old(p).pos as int) is Some,
        r is Ok ==> final(p).pos == comment_end(old(p).input@, old(p).pos as int)->0,
{
    loop
        invariant
            p.wf(),
            advanced(*old(p), *p),
            comment_end(old(p).input@, old(p).pos as int) == comment_end(p.input@, p.pos as int),
        decreases p.input@.len() - p.pos,
    {
        proof {
            reveal_strlit("*/");
        }
        if p.starts_with("*/") {
            p.consume_char();
            p.consume_char();
            return Ok(());
        }
        if p.eof() {
            return Err(CssError::UnexpectedEnd);
        }
        p.consume_char();
    }
}

} // verus!
