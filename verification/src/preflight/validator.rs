//! Runs a list of preflight rules over a document.

use vstd::prelude::*;
use crate::document::Document;
use crate::preflight::{Finding, ValidationResult, append_errors, errors_view};
use crate::preflight::rules::{
    AnnotationRule, ColorSpaceRule, EmbeddedFileRule, FontEmbeddingRule, MetadataRule, NoDeprecatedFiltersRule,
    NoEncryptionRule, NoJavaScriptRule, NoLaunchActionsRule, NoLzwFilterRule, NoOpiRule, NoTransparencyRule,
    OutputIntentRule, PageRule, PreflightRule,
};

verus! {

/// A validator: rules run in order.
pub struct PreflightValidator {
    pub rules: Vec<Box<dyn PreflightRule>>,
}

/// The findings of `rules` on `doc`, rule after rule.
pub open spec fn all_findings(rules: Seq<Box<dyn PreflightRule>>, doc: &Document) -> Seq<Finding>
    decreases rules.len(),
{
    if rules.len() == 0 {
        Seq::empty()
    } else {
        all_findings(rules.drop_last(), doc) + rules.last().findings(doc)
    }
}

/// What the PDF/A-1b rule set reports, rule after rule: encryption,
/// JavaScript, launch actions, LZW, deprecated filters, transparency, OPI,
/// colour spaces, font embedding, metadata, output intents, annotations,
/// pages, embedded files.
pub open spec fn a1b_findings(doc: &Document) -> Seq<Finding> {
    NoEncryptionRule.findings(doc) + NoJavaScriptRule.findings(doc) + NoLaunchActionsRule.findings(doc)
        + NoLzwFilterRule.findings(doc) + NoDeprecatedFiltersRule.findings(doc) + NoTransparencyRule.findings(doc)
        + NoOpiRule.findings(doc) + ColorSpaceRule.findings(doc) + FontEmbeddingRule.findings(doc)
        + MetadataRule.findings(doc) + OutputIntentRule.findings(doc) + AnnotationRule.findings(doc)
        + PageRule.findings(doc) + EmbeddedFileRule.findings(doc)
}

impl PreflightValidator {
    /// The PDF/A-1b rule set (see `a1b_findings`).
    pub fn pdf_a1b() -> (r: PreflightValidator)
        ensures
            r.rules@.len() == 14,
            forall|doc: &Document| #[trigger] all_findings(r.rules@, doc) == a1b_findings(doc),
    {
        let rules: Vec<Box<dyn PreflightRule>> = vec![
            Box::new(NoEncryptionRule),
            Box::new(NoJavaScriptRule),
            Box::new(NoLaunchActionsRule),
            Box::new(NoLzwFilterRule),
            Box::new(NoDeprecatedFiltersRule),
            Box::new(NoTransparencyRule),
            Box::new(NoOpiRule),
            Box::new(ColorSpaceRule),
            Box::new(FontEmbeddingRule),
            Box::new(MetadataRule),
            Box::new(OutputIntentRule),
            Box::new(AnnotationRule),
            Box::new(PageRule),
            Box::new(EmbeddedFileRule),
        ];
        proof {
            assert forall|doc: &Document| #[trigger] all_findings(rules@, doc) == a1b_findings(doc) by {
                reveal_with_fuel(all_findings, 15);
            }
        }
        PreflightValidator { rules }
    }

    /// A validator with the given rules.
    pub fn with_rules(rules: Vec<Box<dyn PreflightRule>>) -> (r: PreflightValidator)
        ensures r.rules@ == rules@,
    {
        PreflightValidator { rules }
    }

    /// Runs every rule; the document is valid when no rule reports anything.
    pub fn validate(&self, doc: &Document) -> (r: ValidationResult)
        ensures
            errors_view(r.errors@) == all_findings(self.rules@, doc),
            r.is_valid == (r.errors@.len() == 0),
    {
        let mut errors = Vec::new();
        proof { assert(errors_view(errors@) =~= Seq::<Finding>::empty()); }
        let mut k: usize = 0;
        while k < self.rules.len()
            invariant
                k <= self.rules@.len(),
                errors_view(errors@) == all_findings(self.rules@.take(k as int), doc),
            decreases self.rules.len() - k,
        {
            proof { assert(self.rules@.take(k + 1).drop_last() =~= self.rules@.take(k as int)); }
            let found = self.rules[k].validate(doc);
            append_errors(&mut errors, found);
            k += 1;
        }
        proof { assert(self.rules@.take(self.rules@.len() as int) =~= self.rules@); }
        let is_valid = errors.len() == 0;
        ValidationResult { is_valid, errors }
    }
}

} // verus!
