//! How sure the identification of a hit's target is.
use vstd::prelude::*;

use crate::text;

verus! {

/// How sure an identification is.
#[derive(Clone, Copy, Debug, PartialEq, Eq, Structural)]
pub enum TargetConfidence {
    Unknown,
    Possible,
    Probable,
    Confirmed,
}

impl TargetConfidence {
    /// The surer, the higher.
    pub open spec fn spec_rank(self) -> u8 {
        match self {
            TargetConfidence::Unknown => 0,
            TargetConfidence::Possible => 1,
            TargetConfidence::Probable => 2,
            TargetConfidence::Confirmed => 3,
        }
    }

    pub fn rank(self) -> (r: u8)
        ensures
            r == self.spec_rank(),
    {
        match self {
            TargetConfidence::Unknown => 0,
            TargetConfidence::Possible => 1,
            TargetConfidence::Probable => 2,
            TargetConfidence::Confirmed => 3,
        }
    }
}

/// What the rating of a hit's possible targets came to.
#[derive(Clone, Debug)]
pub struct TargetResolutionSummary {
    pub target_id: Option<String>,
    pub target_name: Option<String>,
    pub target_context: Vec<String>,
    pub score: i32,
    pub confidence: TargetConfidence,
    pub direct_hp_evidence: bool,
}

#[verifier::ext_equal]
pub struct SummaryView {
    pub target_id: Option<Seq<char>>,
    pub target_name: Option<Seq<char>>,
    pub target_context: Seq<Seq<char>>,
    pub score: i32,
    pub confidence: TargetConfidence,
    pub direct_hp_evidence: bool,
}

impl Default for TargetResolutionSummary {
    fn default() -> (r: TargetResolutionSummary)
        ensures
            r@.target_id is None,
            r@.target_name is None,
            r@.target_context.len() == 0,
            r@.score == 0,
            r@.confidence == TargetConfidence::Unknown,
            !r@.direct_hp_evidence,
    {
        TargetResolutionSummary {
            target_id: None,
            target_name: None,
            target_context: Vec::new(),
            score: 0,
            confidence: TargetConfidence::Unknown,
            direct_hp_evidence: false,
        }
    }
}

impl View for TargetResolutionSummary {
    type V = SummaryView;

    open spec fn view(&self) -> SummaryView {
        SummaryView {
            target_id: text::opt_text(self.target_id),
            target_name: text::opt_text(self.target_name),
            target_context: text::texts(self.target_context@),
            score: self.score,
            confidence: self.confidence,
            direct_hp_evidence: self.direct_hp_evidence,
        }
    }
}

/// From unknown to confirmed, each rank is one higher than the one before.
pub proof fn confidence_rises_to_confirmed(c: TargetConfidence)
    ensures
        TargetConfidence::Confirmed.spec_rank() == 3,
        TargetConfidence::Probable.spec_rank() == 2,
        TargetConfidence::Possible.spec_rank() == 1,
        TargetConfidence::Unknown.spec_rank() == 0,
        c != TargetConfidence::Confirmed ==> c.spec_rank()
            < TargetConfidence::Confirmed.spec_rank(),
{
}

} // verus!
