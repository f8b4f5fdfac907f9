use vstd::prelude::*;

verus! {

/// An RGBA colour with eight bits per channel.
#[derive(Clone, Copy, Debug, PartialEq, Eq, Structural)]
pub struct Color {
    pub r: u8,
    pub g: u8,
    pub b: u8,
    pub a: u8,
}

/// The unit of a length. Lengths are whole pixels.
#[derive(Clone, Copy, Debug, PartialEq, Eq, Structural)]
pub enum Unit {
    Px,
}

/// The value of a declaration.
#[derive(Debug, PartialEq, Eq)]
pub enum Value {
    Keyword(String),
    Length(i32, Unit),
    ColorValue(Color),
}

impl Clone for Value {
    fn clone(&self) -> (copy: Self)
        ensures
            copy == *self,
    {
        match self {
            Value::Keyword(word) => Value::Keyword(word.clone()),
            Value::Length(amount, unit) => Value::Length(*amount, *unit),
            Value::ColorValue(color) => Value::ColorValue(*color),
        }
    }
}

/// One `name: value` pair of a rule.
#[derive(Debug, PartialEq, Eq)]
pub struct Declaration {
    pub name: String,
    pub value: Value,
}

/// A selector of one tag name, one id and any number of class names. A part
/// that is absent matches every element.
#[derive(Debug, PartialEq, Eq)]
pub struct SimpleSelector {
    pub tag_name: Option<String>,
    pub id: Option<String>,
    pub class: Vec<String>,
}

/// A selector. Simple selectors are the only kind.
#[derive(Debug, PartialEq, Eq)]
pub enum Selector {
    Simple(SimpleSelector),
}

/// The weight of a selector: the number of ids, of classes and of tag names in
/// it. Weights are ordered as triples, the first component counting most.
pub type Specificity = (usize, usize, usize);

/// Whether weight `a` is strictly below weight `b`.
pub open spec fn specificity_lt(a: Specificity, b: Specificity) -> bool {
    a.0 < b.0 || (a.0 == b.0 && (a.1 < b.1 || (a.1 == b.1 && a.2 < b.2)))
}

/// Weights are in a strict total order: no weight is below itself, a weight
/// below a second that is below a third is below the third, and of two
/// different weights one is below the other.
pub proof fn lemma_specificity_order(a: Specificity, b: Specificity, c: Specificity)
    ensures
        !specificity_lt(a, a),
        specificity_lt(a, b) && specificity_lt(b, c) ==> specificity_lt(a, c),
        a != b ==> specificity_lt(a, b) || specificity_lt(b, a),
{
}

/// Decides whether weight `a` is strictly below weight `b`.
pub fn specificity_less(a: Specificity, b: Specificity) -> (below: bool)
    ensures
        below == specificity_lt(a, b),
{
    a.0 < b.0 || (a.0 == b.0 && (a.1 < b.1 || (a.1 == b.1 && a.2 < b.2)))
}

impl Selector {
    /// The weight of this selector.
    pub open spec fn weight(self) -> Specificity {
        match self {
            Selector::Simple(simple) => (
                if simple.id is Some { 1usize } else { 0usize },
                simple.class.len(),
                if simple.tag_name is Some { 1usize } else { 0usize },
            ),
        }
    }

    /// The weight of this selector.
    pub fn specificity(&self) -> (weight: Specificity)
        ensures
            weight == self.weight(),
    {
        match self {
            Selector::Simple(simple) => {
                let ids: usize = if simple.id.is_some() { 1 } else { 0 };
                let tags: usize = if simple.tag_name.is_some() { 1 } else { 0 };
                (ids, simple.class.len(), tags)
            },
        }
    }
}

/// A list of selectors with the declarations that hold for the elements that
/// one of the selectors matches.
#[derive(Debug, PartialEq, Eq)]
pub struct Rule {
    pub selectors: Vec<Selector>,
    pub declarations: Vec<Declaration>,
}

/// The rules of a stylesheet, in source order.
#[derive(Debug, PartialEq, Eq)]
pub struct Stylesheet {
    pub rules: Vec<Rule>,
}

} // verus!
