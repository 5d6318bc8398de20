//! Stylesheets: rules, selectors, declarations and values.
use vstd::prelude::*;

use crate::arith::{sat_mul, clamp64};

pub use crate::css_parser::parse;

verus! {

/// The unit of a length value.
#[derive(Clone, Copy, Debug, PartialEq, Eq, Structural)]
pub enum Unit {
    Px,
    Em,
}

/// An RGBA color, one byte per channel.
#[derive(Clone, Copy, Debug, PartialEq, Eq, Structural)]
pub struct Color {
    pub r: u8,
    pub g: u8,
    pub b: u8,
    pub a: u8,
}

impl Color {
    pub fn new(r: u8, g: u8, b: u8, a: u8) -> (c: Color)
        ensures
            c == (Color { r, g, b, a }),
    {
        Color { r, g, b, a }
    }
}

/// A property value. Numbers and lengths count thousandths of a unit.
#[derive(Debug, PartialEq)]
pub enum Value {
    Keyword(String),
    Length(i64, Unit),
    Number(i64),
    ColorValue(Color),
}

/// Pixels in one `em`.
pub const EM_PX: i64 = 16;

/// What a value measures in thousandths of a pixel; zero for keywords and colors.
pub open spec fn px_of(v: Value) -> int {
    match v {
        Value::Length(f, Unit::Px) => f as int,
        Value::Length(f, Unit::Em) => clamp64(f * EM_PX),
        Value::Number(f) => f as int,
        _ => 0,
    }
}

impl Value {
    /// A copy of this value.
    pub fn duplicate(&self) -> (r: Value)
        ensures
            r == *self,
    {
        match self {
            Value::Keyword(s) => Value::Keyword(s.clone()),
            Value::Length(f, u) => Value::Length(*f, *u),
            Value::Number(f) => Value::Number(*f),
            Value::ColorValue(c) => Value::ColorValue(*c),
        }
    }

    pub fn to_px(&self) -> (r: i64)
        ensures
            r == px_of(*self),
    {
        match self {
            Value::Length(f, Unit::Px) => *f,
            Value::Length(f, Unit::Em) => sat_mul(*f, EM_PX),
            Value::Number(f) => *f,
            _ => 0,
        }
    }
}

/// A simple selector: an optional tag name, an optional id and class names.
#[derive(Debug, PartialEq)]
pub struct SimpleSelector {
    pub tag_name: Option<String>,
    pub id: Option<String>,
    pub class: Vec<String>,
}

#[derive(Debug, PartialEq)]
pub enum Selector {
    Simple(SimpleSelector),
}

/// (ids, classes, tag names), compared lexicographically.
pub type Specificity = (usize, usize, usize);

/// Lexicographic `a <= b` on specificities.
pub open spec fn spec_le(a: Specificity, b: Specificity) -> bool {
    a.0 < b.0 || (a.0 == b.0 && (a.1 < b.1 || (a.1 == b.1 && a.2 <= b.2)))
}

pub open spec fn specificity_of(sel: Selector) -> Specificity {
    match sel {
        Selector::Simple(s) => (
            if s.id is Some { 1 } else { 0 },
            s.class@.len() as usize,
            if s.tag_name is Some { 1 } else { 0 },
        ),
    }
}

impl Selector {
    pub fn specificity(&self) -> (r: Specificity)
        ensures
            r == specificity_of(*self),
    {
        let Selector::Simple(simple) = self;
        let a: usize = if simple.id.is_some() { 1 } else { 0 };
        let b: usize = simple.class.len();
        let c: usize = if simple.tag_name.is_some() { 1 } else { 0 };
        (a, b, c)
    }
}

/// `a <= b` on specificities, lexicographically.
pub fn specificity_le(a: Specificity, b: Specificity) -> (r: bool)
    ensures
        r == spec_le(a, b),
{
    a.0 < b.0 || (a.0 == b.0 && (a.1 < b.1 || (a.1 == b.1 && a.2 <= b.2)))
}

/// A property name with one or more values (several for shorthands).
#[derive(Debug, PartialEq)]
pub struct Declaration {
    pub name: String,
    pub values: Vec<Value>,
}

#[derive(Debug, PartialEq)]
pub struct Rule {
    pub selectors: Vec<Selector>,
    pub declarations: Vec<Declaration>,
}

#[derive(Debug, PartialEq)]
pub struct Stylesheet {
    pub rules: Vec<Rule>,
}

impl Default for Stylesheet {
    /// A sheet with no rules.
    fn default() -> (r: Stylesheet)
        ensures
            r.rules@.len() == 0,
    {
        Stylesheet { rules: Vec::new() }
    }
}

impl Stylesheet {
    /// Appends the rules of `other` after this sheet's own, in order.
    pub fn merge(&mut self, other: Stylesheet)
        ensures
            final(self).rules@ == old(self).rules@ + other.rules@,
    {
        let mut other = other;
        self.rules.append(&mut other.rules);
    }
}

} // verus!
