//! PDF/A-1b preflight: rules that each report violations, and a validator
//! that runs a list of rules.

pub mod rules;
pub mod validator;

use vstd::prelude::*;
use crate::cos::ObjectId;
use crate::text::{decimal_text, push_decimal, push_str, push_char};

pub use validator::PreflightValidator;

verus! {

/// The outcome of running a validator.
#[derive(Debug, Clone)]
pub struct ValidationResult {
    pub is_valid: bool,
    pub errors: Vec<ValidationError>,
}

/// One violation: the rule that found it and a message.
#[derive(Debug, Clone)]
pub struct ValidationError {
    pub rule_id: &'static str,
    pub message: String,
}

/// A violation as text: rule id and message.
pub type Finding = (Seq<char>, Seq<char>);

pub open spec fn errors_view(v: Seq<ValidationError>) -> Seq<Finding> {
    Seq::new(v.len(), |k: int| (v[k].rule_id@, v[k].message@))
}

impl ValidationError {
    /// `[rule_id] message`.
    pub fn to_text(&self) -> (r: String)
        ensures r@ == seq!['['] + self.rule_id@ + seq![']', ' '] + self.message@,
    {
        let mut s = String::new();
        push_char(&mut s, '[');
        push_str(&mut s, self.rule_id);
        push_char(&mut s, ']');
        push_char(&mut s, ' ');
        push_str(&mut s, self.message.as_str());
        proof {
            assert(s@ =~= seq!['['] + self.rule_id@ + seq![']', ' '] + self.message@);
        }
        s
    }
}

/// `N G` for an object id.
pub open spec fn obj_text(id: ObjectId) -> Seq<char> {
    decimal_text(id.object_number as int) + seq![' '] + decimal_text(id.generation as int)
}

/// `prefix N G suffix`.
pub open spec fn obj_msg(prefix: Seq<char>, id: ObjectId, suffix: Seq<char>) -> Seq<char> {
    prefix + obj_text(id) + suffix
}

pub fn make_obj_msg(prefix: &str, id: ObjectId, suffix: &str) -> (r: String)
    ensures r@ == obj_msg(prefix@, id, suffix@),
{
    let mut s = String::new();
    push_str(&mut s, prefix);
    push_decimal(&mut s, id.object_number as i64);
    push_char(&mut s, ' ');
    push_decimal(&mut s, id.generation as i64);
    push_str(&mut s, suffix);
    proof { assert(s@ =~= obj_msg(prefix@, id, suffix@)); }
    s
}

pub fn finding(rule_id: &'static str, message: String) -> (r: ValidationError)
    ensures r.rule_id == rule_id, r.message == message,
{
    ValidationError { rule_id, message }
}

/// Appends `more` to `errors`.
pub fn append_errors(errors: &mut Vec<ValidationError>, more: Vec<ValidationError>)
    ensures errors_view(final(errors)@) == errors_view(old(errors)@) + errors_view(more@),
{
    let mut more = more;
    let ghost a = errors@;
    let ghost b = more@;
    errors.append(&mut more);
    proof { assert(errors_view(errors@) =~= errors_view(a) + errors_view(b)); }
}

} // verus!
