//! What a hit says about the hit points of its target.
use vstd::prelude::*;

use crate::model;
use crate::model::Hit;
use crate::model::HitView;

verus! {

#[derive(Clone, Debug)]
pub struct DamageHitFact {
    pub hit_uid: String,
    pub timestamp: i64,
    pub hp_before: i64,
    pub hp_after: i64,
    pub hp_reported_max: i64,
}

#[verifier::ext_equal]
pub struct FactView {
    pub hit_uid: Seq<char>,
    pub timestamp: i64,
    pub hp_before: i64,
    pub hp_after: i64,
    pub hp_reported_max: i64,
}

impl View for DamageHitFact {
    type V = FactView;

    open spec fn view(&self) -> FactView {
        FactView {
            hit_uid: self.hit_uid@,
            timestamp: self.timestamp,
            hp_before: self.hp_before,
            hp_after: self.hp_after,
            hp_reported_max: self.hp_reported_max,
        }
    }
}

/// What the hit says.
pub open spec fn fact_of(hit: HitView) -> FactView {
    FactView {
        hit_uid: model::hit_uid(hit),
        timestamp: hit.timestamp,
        hp_before: hit.target_hp_before,
        hp_after: hit.target_hp_after,
        hp_reported_max: hit.target_max_hp,
    }
}

impl DamageHitFact {
    pub fn from(hit: &Hit) -> (r: DamageHitFact)
        ensures
            r@ == fact_of(hit@),
    {
        DamageHitFact {
            hit_uid: model::stable_hit_uid(hit),
            timestamp: hit.timestamp,
            hp_before: hit.target_hp_before,
            hp_after: hit.target_hp_after,
            hp_reported_max: hit.target_max_hp,
        }
    }
}

} // verus!
