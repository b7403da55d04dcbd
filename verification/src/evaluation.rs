//! What a marker says of an environment.

use vstd::prelude::*;

use crate::clause::{self, Operator};
use crate::marker_grammar::{MarkerOp, Operand, Tree};
use crate::names;
use crate::order;
use crate::outside;
use crate::specifiers::{self, SpecifierSpec};
use crate::text;

verus! {

/// The value of an environment variable: a text or a set of texts.
pub enum Value {
    Text(Seq<char>),
    Texts(Set<Seq<char>>),
}

/// Why a marker says nothing of an environment.
pub enum Failure {
    /// The operator does not apply to the operands.
    UndefinedComparison(Seq<char>),
    /// The environment has no such variable.
    UndefinedEnvironmentName(Seq<char>),
}

/// Whether a variable holds a version.
pub open spec fn is_version_key(key: Seq<char>) -> bool {
    key == "implementation_version"@ || key == "platform_release"@ || key
        == "python_full_version"@ || key == "python_version"@
}

/// Whether a variable holds a set of names.
pub open spec fn is_set_key(key: Seq<char>) -> bool {
    key == "extras"@ || key == "dependency_groups"@
}

/// The specifier that an operator and a version make, if they make one.
pub open spec fn specifier_of(op: MarkerOp, rhs: Seq<char>) -> Option<SpecifierSpec> {
    match clause::read_clause(op.spelling() + rhs) {
        Some((operator, version)) => Some(SpecifierSpec { operator, version, prereleases: None }),
        None => None,
    }
}

/// What a comparison of two texts says. Versions are compared as versions where the variable
/// holds one and the right side is one; all else is compared as text.
pub open spec fn compare_texts(
    lhs: Seq<char>,
    op: MarkerOp,
    rhs: Seq<char>,
    key: Seq<char>,
) -> Result<bool, Failure> {
    if is_version_key(key) && specifier_of(op, rhs) is Some {
        Ok(specifiers::contains(specifier_of(op, rhs).unwrap(), lhs, Some(true)))
    } else {
        match op {
            MarkerOp::In => Ok(text::contains_text(rhs, lhs)),
            MarkerOp::NotIn => Ok(!text::contains_text(rhs, lhs)),
            MarkerOp::Version(Operator::Below) => Ok(order::compare_text(lhs, rhs) < 0),
            MarkerOp::Version(Operator::AtMost) => Ok(order::compare_text(lhs, rhs) <= 0),
            MarkerOp::Version(Operator::Equal) => Ok(lhs == rhs),
            MarkerOp::Version(Operator::NotEqual) => Ok(lhs != rhs),
            MarkerOp::Version(Operator::AtLeast) => Ok(order::compare_text(lhs, rhs) >= 0),
            MarkerOp::Version(Operator::Above) => Ok(order::compare_text(lhs, rhs) > 0),
            MarkerOp::Version(_) => Err(
                Failure::UndefinedComparison(
                    "Undefined "@ + outside::quoted(op.spelling()) + " on "@ + outside::quoted(lhs)
                        + " and "@ + outside::quoted(rhs) + "."@,
                ),
            ),
        }
    }
}

/// Whether a set holds a name. Names are normalized where the variable holds a set of names.
pub open spec fn has_member(set: Set<Seq<char>>, name: Seq<char>, key: Seq<char>) -> bool {
    if is_set_key(key) {
        exists|t: Seq<char>|
            #![trigger set.contains(t)]
            set.contains(t) && names::canonical_name(t) == names::canonical_name(name)
    } else {
        set.contains(name)
    }
}

/// What a comparison of a text with a set says.
pub open spec fn compare_set(
    lhs: Seq<char>,
    op: MarkerOp,
    set: Set<Seq<char>>,
    key: Seq<char>,
) -> Result<bool, Failure> {
    match op {
        MarkerOp::In => Ok(has_member(set, lhs, key)),
        MarkerOp::NotIn => Ok(!has_member(set, lhs, key)),
        MarkerOp::Version(Operator::Equal) => Ok(false),
        MarkerOp::Version(Operator::NotEqual) => Ok(true),
        MarkerOp::Version(Operator::Below) | MarkerOp::Version(Operator::AtMost)
        | MarkerOp::Version(Operator::AtLeast) | MarkerOp::Version(Operator::Above) => Err(
            Failure::UndefinedComparison(
                "'"@ + op.spelling() + "' not supported between a string and a set ("@
                    + outside::quoted(lhs) + ")"@,
            ),
        ),
        MarkerOp::Version(_) => Err(
            Failure::UndefinedComparison(
                "Undefined "@ + outside::quoted(op.spelling()) + " on "@ + outside::quoted(lhs)
                    + " and a set."@,
            ),
        ),
    }
}

/// The name or the text of an operand.
pub open spec fn operand(v: Operand) -> Seq<char> {
    match v {
        Operand::Variable(t) => t,
        Operand::Value(t) => t,
    }
}

/// A text, normalized as a name where the variable holds a set of names.
pub open spec fn named_for(t: Seq<char>, key: Seq<char>) -> Seq<char> {
    if is_set_key(key) {
        names::canonical_name(t)
    } else {
        t
    }
}

/// What a comparison says of an environment. The variable is the left operand, or else the
/// right one.
pub open spec fn eval_item(
    lhs: Operand,
    op: MarkerOp,
    rhs: Operand,
    env: spec_fn(Seq<char>) -> Option<Value>,
) -> Result<bool, Failure> {
    let on_left = lhs is Variable;
    let key = if on_left {
        operand(lhs)
    } else {
        operand(rhs)
    };
    let other = if on_left {
        operand(rhs)
    } else {
        operand(lhs)
    };
    match env(key) {
        None => Err(Failure::UndefinedEnvironmentName(key)),
        Some(Value::Text(t)) => if on_left {
            compare_texts(named_for(t, key), op, named_for(other, key), key)
        } else {
            compare_texts(named_for(other, key), op, named_for(t, key), key)
        },
        Some(Value::Texts(set)) => if on_left {
            Err(
                Failure::UndefinedComparison(
                    outside::quoted(key)
                        + " is set-valued and can only appear on the right of a comparison"@,
                ),
            )
        } else {
            compare_set(other, op, set, key)
        },
    }
}

/// What the parts of a marker say of an environment so far: whether one of the groups between
/// `or` held, and whether the group that was reached holds.
pub open spec fn eval_parts(l: Seq<Tree>, env: spec_fn(Seq<char>) -> Option<Value>) -> Result<
    (bool, bool),
    Failure,
>
    decreases l, 0nat,
{
    if l.len() == 0 {
        Ok((false, true))
    } else {
        match eval_parts(l.drop_last(), env) {
            Err(e) => Err(e),
            Ok((some, group)) => match l.last() {
                Tree::Or => Ok((some || group, true)),
                Tree::And => Ok((some, group)),
                Tree::Item { lhs, op, rhs } => match eval_item(lhs, op, rhs, env) {
                    Err(e) => Err(e),
                    Ok(b) => Ok((some, group && b)),
                },
                Tree::List(inner) => match eval_list(inner, env) {
                    Err(e) => Err(e),
                    Ok(b) => Ok((some, group && b)),
                },
            },
        }
    }
}

/// What a marker says of an environment: some group between `or` holds. The first comparison
/// that fails makes the marker fail.
pub open spec fn eval_list(l: Seq<Tree>, env: spec_fn(Seq<char>) -> Option<Value>) -> Result<
    bool,
    Failure,
>
    decreases l, 1nat,
{
    match eval_parts(l, env) {
        Err(e) => Err(e),
        Ok((some, group)) => Ok(some || group),
    }
}

} // verus!
