//! The notation tree: a tagged union of presentation elements and the
//! constructor helpers that build it.

use vstd::prelude::*;

use std::collections::HashMap;

verus! {

/// The root element of a MathML document.
pub struct Math {
    pub attributes: HashMap<String, String>,
    pub content: Element,
}

/// A horizontal row of elements, concatenated left to right on a shared
/// baseline.
pub struct Mrow {
    pub terms: Vec<Element>,
}

/// An identifier leaf (a variable name).
pub struct Mi {
    pub identifier: String,
}

/// A numeric literal leaf.
pub struct Mn {
    pub number: String,
}

/// An operator leaf; it reserves horizontal padding on both sides.
pub struct Mo {
    pub operator: String,
}

/// A base with a subscript hanging from its lower half.
pub struct Msub {
    pub base: Box<Element>,
    pub subscript: Box<Element>,
}

/// A base with a superscript raised above its upper half.
pub struct Msup {
    pub base: Box<Element>,
    pub superscript: Box<Element>,
}

/// A numerator over a denominator, separated by a horizontal bar.
pub struct Mfrac {
    pub numerator: Box<Element>,
    pub denominator: Box<Element>,
}

/// A plain text leaf.
pub struct Mtext {
    pub text: String,
}

/// A square root: a radical sign around a term.
pub struct Msqrt {
    pub term: Box<Element>,
}

/// An nth root.  The optional index (the root degree) is carried in the
/// tree but takes no part in layout; no reference rendering for it has
/// been settled.
pub struct Mroot {
    pub base: Box<Element>,
    pub index: Option<Box<Element>>,
}

/// Reserves the footprint of its terms without painting them.
pub struct Mphantom {
    pub terms: Vec<Element>,
}

/// Types of presentation elements.
pub enum Element {
    Mrow(Mrow),
    Mi(Mi),
    Mn(Mn),
    Mo(Mo),
    Msub(Msub),
    Msup(Msup),
    Mfrac(Mfrac),
    Mtext(Mtext),
    Msqrt(Msqrt),
    Mroot(Mroot),
    Mphantom(Mphantom),
}

pub fn mrow(terms: Vec<Element>) -> (r: Element)
    ensures
        r matches Element::Mrow(m) && m.terms == terms,
{
    Element::Mrow(Mrow { terms })
}

pub fn mi(identifier: &str) -> (r: Element)
    ensures
        r matches Element::Mi(m) && m.identifier@ == identifier@,
{
    let identifier = identifier.to_owned();
    Element::Mi(Mi { identifier })
}

pub fn mo(operator: &str) -> (r: Element)
    ensures
        r matches Element::Mo(m) && m.operator@ == operator@,
{
    let operator = operator.to_owned();
    Element::Mo(Mo { operator })
}

pub fn mn(number: &str) -> (r: Element)
    ensures
        r matches Element::Mn(m) && m.number@ == number@,
{
    let number = number.to_owned();
    Element::Mn(Mn { number })
}

pub fn msup(base: Element, superscript: Element) -> (r: Element)
    ensures
        r matches Element::Msup(m) && *m.base == base && *m.superscript == superscript,
{
    let base = Box::new(base);
    let superscript = Box::new(superscript);
    Element::Msup(Msup { base, superscript })
}

pub fn msub(base: Element, subscript: Element) -> (r: Element)
    ensures
        r matches Element::Msub(m) && *m.base == base && *m.subscript == subscript,
{
    let base = Box::new(base);
    let subscript = Box::new(subscript);
    Element::Msub(Msub { base, subscript })
}

pub fn mfrac(numerator: Element, denominator: Element) -> (r: Element)
    ensures
        r matches Element::Mfrac(m) && *m.numerator == numerator && *m.denominator
            == denominator,
{
    let numerator = Box::new(numerator);
    let denominator = Box::new(denominator);
    Element::Mfrac(Mfrac { numerator, denominator })
}

pub fn mtext(text: &str) -> (r: Element)
    ensures
        r matches Element::Mtext(m) && m.text@ == text@,
{
    let text = text.to_owned();
    Element::Mtext(Mtext { text })
}

pub fn mroot(base: Element, index: Option<Element>) -> (r: Element)
    ensures
        r matches Element::Mroot(m) && *m.base == base && (match index {
            Some(i) => m.index matches Some(b) && *b == i,
            None => m.index is None,
        }),
{
    let base = Box::new(base);
    let index = match index {
        Some(i) => Some(Box::new(i)),
        None => None,
    };
    Element::Mroot(Mroot { base, index })
}

pub fn mphantom(terms: Vec<Element>) -> (r: Element)
    ensures
        r matches Element::Mphantom(m) && m.terms == terms,
{
    Element::Mphantom(Mphantom { terms })
}

} // verus!
