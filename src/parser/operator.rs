//! Binding powers of the operators, for precedence climbing.
use vstd::prelude::*;

use crate::lexer::Kind;

verus! {

/// Trait for handling operator precedence and parsing expressions.
///
/// A higher binding power binds tighter. An infix operator whose left power is
/// below its right power associates to the left; one whose left power is
/// above its right power associates to the right.
pub trait Operator {
    /// The right binding power of a prefix operator, if this is one.
    spec fn prefix_power(&self) -> Option<u8>;

    /// The left and right binding powers of an infix operator, if this is one.
    spec fn infix_power(&self) -> Option<(u8, u8)>;

    /// The left binding power of a postfix operator, if this is one.
    spec fn postfix_power(&self) -> Option<u8>;

    /// Prefix operators bind their operand to the right.
    fn prefix_binding_power(&self) -> (r: ((), u8))
        requires
            self.prefix_power() is Some,
        ensures
            r.1 == self.prefix_power()->0,
    ;

    fn infix_binding_power(&self) -> (r: Option<(u8, u8)>)
        ensures
            r == self.infix_power(),
    ;

    fn postfix_binding_power(&self) -> (r: Option<(u8, ())>)
        ensures
            r is Some <==> self.postfix_power() is Some,
            r matches Some((left, _)) ==> left == self.postfix_power()->0,
    ;
}

impl Operator for Kind {
    open spec fn prefix_power(&self) -> Option<u8> {
        match self {
            Kind::Plus | Kind::Minus | Kind::Bang => Some(51),
            _ => None,
        }
    }

    open spec fn infix_power(&self) -> Option<(u8, u8)> {
        match self {
            Kind::Or => Some((1, 2)),
            Kind::And => Some((3, 4)),
            Kind::Eqq | Kind::Neq => Some((5, 6)),
            Kind::LAngle | Kind::RAngle | Kind::Leq | Kind::Geq => Some((7, 8)),
            Kind::Plus | Kind::Minus => Some((9, 10)),
            Kind::Times | Kind::Divide => Some((11, 12)),
            Kind::Power => Some((22, 21)),
            _ => None,
        }
    }

    open spec fn postfix_power(&self) -> Option<u8> {
        match self {
            Kind::Bang => Some(101),
            _ => None,
        }
    }

    fn prefix_binding_power(&self) -> (r: ((), u8)) {
        ((), 51)
    }

    fn infix_binding_power(&self) -> (r: Option<(u8, u8)>) {
        match self {
            Kind::Or => Some((1, 2)),
            Kind::And => Some((3, 4)),
            Kind::Eqq | Kind::Neq => Some((5, 6)),
            Kind::LAngle | Kind::RAngle | Kind::Leq | Kind::Geq => Some((7, 8)),
            Kind::Plus | Kind::Minus => Some((9, 10)),
            Kind::Times | Kind::Divide => Some((11, 12)),
            Kind::Power => Some((22, 21)),
            _ => None,
        }
    }

    fn postfix_binding_power(&self) -> (r: Option<(u8, ())>) {
        match self {
            Kind::Bang => Some((101, ())),
            _ => None,
        }
    }
}

} // verus!
