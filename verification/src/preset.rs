//! Brush presets: a named brush you can come back to.
//!
//! Two things a [`Brush`] carries are deliberately not in a preset. The colour: picking a pen must
//! not change your ink. And the tip's pixels: a preset references a bitmap tip rather than copying
//! it. Everything else is copied wholesale.
//!
//! The edge profile rides alongside: a preset using a bitmap tip would otherwise have nowhere to
//! keep it, and switching such a preset back to a round tip would find the curve gone.

use vstd::prelude::*;

use crate::brush::{Brush, Tip};
use crate::curve::Curve;

verus! {

/// Which tip a preset asks for.
#[derive(Debug, PartialEq, Eq)]
pub enum TipRef {
    /// The procedural disc, shaped by the preset's edge profile.
    Round,
    /// A bitmap, by the path it was loaded from.
    File { path: String },
}

impl Clone for TipRef {
    fn clone(&self) -> (r: TipRef)
        ensures
            r == *self,
    {
        match self {
            TipRef::Round => TipRef::Round,
            TipRef::File { path } => TipRef::File { path: path.clone() },
        }
    }
}

impl Default for TipRef {
    fn default() -> (r: TipRef)
        ensures
            r == TipRef::Round,
    {
        TipRef::Round
    }
}

/// A named set of brush settings.
#[derive(Debug, PartialEq)]
pub struct BrushPreset {
    pub name: String,
    /// Every setting except the colour and the tip.
    pub brush: Brush,
    /// The edge profile, kept out of `brush` because a stamped tip has nowhere to hold one.
    pub edge: Curve,
    pub tip: TipRef,
}

impl Clone for BrushPreset {
    fn clone(&self) -> (r: BrushPreset)
        ensures
            r.name == self.name,
            r.brush.set_like(&self.brush),
            r.brush.tip.alike(&self.brush.tip),
            r.brush.color_linear_premul == self.brush.color_linear_premul,
            r.edge@ == self.edge@,
            r.tip == self.tip,
    {
        BrushPreset {
            name: self.name.clone(),
            brush: self.brush.clone(),
            edge: self.edge.clone(),
            tip: self.tip.clone(),
        }
    }
}

/// The edge profile of a tip, and the identity for one that has none of its own.
pub open spec fn edge_of(tip: Tip) -> Seq<crate::curve::Point> {
    match tip {
        Tip::Round(curve) => curve@,
        Tip::Stamp(_) => Curve::identity(),
    }
}

impl BrushPreset {
    /// Capture the brush as it stands, under a name.
    pub fn capture(name: String, brush: &Brush, tip: TipRef) -> (p: BrushPreset)
        ensures
            p.name == name,
            p.brush.set_like(brush),
            p.brush.tip.alike(&brush.tip),
            p.brush.color_linear_premul == brush.color_linear_premul,
            p.edge@ == edge_of(brush.tip),
            p.tip == tip,
    {
        // Whatever profile is in force, whether or not it is the one being drawn with: a preset
        // saved while a bitmap tip is loaded still remembers the edge it would use if the tip were
        // taken off.
        let edge = match brush.tip.falloff() {
            Some(curve) => curve.clone(),
            None => Curve::linear(),
        };
        BrushPreset { name, brush: brush.clone(), edge, tip }
    }

    /// Apply every setting to `brush`, leaving its colour alone.
    ///
    /// A bitmap tip is the caller's to set, because resolving one means touching the file system.
    /// What is set here is the procedural edge, which is the right answer whenever the reference
    /// does not resolve.
    pub fn apply_to(&self, brush: &mut Brush)
        ensures
            final(brush).set_like(&self.brush),
            final(brush).color_linear_premul == old(brush).color_linear_premul,
            final(brush).tip matches Tip::Round(edge) && edge@ == self.edge@,
    {
        let colour = brush.color_linear_premul();
        let mut set = self.brush.clone();
        set.tip = Tip::Round(self.edge.clone());
        set.set_color_linear_premul(colour);
        *brush = set;
    }
}

/// Capturing a brush and applying the preset to another gives the other every setting of the first,
/// and leaves it its own ink.
pub proof fn law_a_preset_carries_settings_but_not_ink(
    source: Brush,
    preset: BrushPreset,
    before: Brush,
    after: Brush,
)
    requires
        preset.brush.set_like(&source),
        after.set_like(&preset.brush),
        after.color_linear_premul == before.color_linear_premul,
    ensures
        after.set_like(&source),
        after.color_linear_premul == before.color_linear_premul,
{
}

/// A round tip is kept with the edge it has, and a bitmap tip with a straight one, from nothing to
/// everything.
pub proof fn law_a_preset_keeps_the_edge_of_a_round_tip(tip: Tip)
    ensures
        tip matches Tip::Round(curve) ==> edge_of(tip) == curve@,
        tip is Stamp ==> {
            let (low, high) = (edge_of(tip)[0], edge_of(tip)[1]);
            &&& edge_of(tip).len() == 2
            &&& low.0.bits == 0
            &&& low.1.bits == 0
            &&& high.0.bits == 0x3F80_0000
            &&& high.1.bits == 0x3F80_0000
        },
{
}

} // verus!
