//! Layers: the stack of surfaces a page is drawn on.
//!
//! A layer here is properties only: name, opacity, blend mode, visibility. Its pixels live in the
//! renderer's tile store, keyed by the layer's id. The id is assigned once and never reused; the
//! layer's position in the stack is just its index, which changes whenever the stack is reordered.

use vstd::prelude::*;

use crate::scalar::{Scalar, ONE, ZERO};
use crate::text::TextBlock;

verus! {

/// How a layer combines with what is beneath it.
#[derive(Clone, Copy, Debug, PartialEq, Eq, Structural)]
pub enum Blend {
    Normal,
    Multiply,
    Screen,
}

impl Default for Blend {
    fn default() -> (r: Blend)
        ensures
            r == Blend::Normal,
    {
        Blend::Normal
    }
}

impl Blend {
    /// Every mode, in the order the interface lists them.
    pub fn all() -> (r: [Blend; 3])
        ensures
            r@ == seq![Blend::Normal, Blend::Multiply, Blend::Screen],
    {
        [Blend::Normal, Blend::Multiply, Blend::Screen]
    }

    /// The shader's encoding of a mode.
    pub open spec fn encoded(self) -> u32 {
        match self {
            Blend::Normal => 0,
            Blend::Multiply => 1,
            Blend::Screen => 2,
        }
    }

    /// The name shown in the interface.
    pub fn label(self) -> (r: &'static str)
        ensures
            r@ == match self {
                Blend::Normal => "Normal"@,
                Blend::Multiply => "Multiply"@,
                Blend::Screen => "Screen"@,
            },
    {
        match self {
            Blend::Normal => "Normal",
            Blend::Multiply => "Multiply",
            Blend::Screen => "Screen",
        }
    }

    /// The shader's encoding of this mode.
    pub fn code(self) -> (r: u32)
        ensures
            r == self.encoded(),
    {
        match self {
            Blend::Normal => 0,
            Blend::Multiply => 1,
            Blend::Screen => 2,
        }
    }
}

/// The encodings of the blend modes are distinct and dense from zero.
pub proof fn law_blend_codes_are_unique_and_dense(a: Blend, b: Blend)
    ensures
        a.encoded() < 3,
        a.encoded() == b.encoded() ==> a == b,
{
}

/// What a layer is made of: the thing its pixels are derived from.
///
/// In a raster layer the tiles are the truth. In a text layer the [`TextBlock`] is, and the tiles are
/// a cache of it, thrown away and rebuilt whenever the text, font or box changes.
#[derive(Debug, PartialEq)]
pub enum Content {
    Raster,
    Text(Box<TextBlock>),
}

impl Clone for Content {
    fn clone(&self) -> (r: Content)
        ensures
            r == *self,
    {
        match self {
            Content::Raster => Content::Raster,
            Content::Text(block) => Content::Text(Box::new((**block).clone())),
        }
    }
}

impl Default for Content {
    fn default() -> (r: Content)
        ensures
            r == Content::Raster,
    {
        Content::Raster
    }
}

impl Content {
    /// The name shown where a layer's kind is displayed.
    pub fn label(&self) -> (r: &'static str)
        ensures
            r@ == match *self {
                Content::Raster => "Raster"@,
                Content::Text(_) => "Text"@,
            },
    {
        match self {
            Content::Raster => "Raster",
            Content::Text(_) => "Text",
        }
    }
}

/// One layer of a page: how it looks, not what is on it.
#[derive(Debug, PartialEq)]
pub struct Layer {
    id: u32,
    pub name: String,
    /// From 0 to 1, applied to the whole layer at composite time.
    pub opacity: Scalar,
    pub blend: Blend,
    pub visible: bool,
    /// Freeze this layer's transparency. See [`Layer::locks_alpha`].
    pub lock_alpha: bool,
    /// Mask this layer by the layer below it. See [`Layer::clips_below`].
    pub clip_below: bool,
    /// Nothing may change this layer's pixels at all. See [`Layer::is_locked`].
    pub locked: bool,
    /// What this layer is made of. Private, because changing it is a decision and not an ordinary
    /// field write: see [`Layer::set_content`].
    content: Content,
}

impl Clone for Layer {
    fn clone(&self) -> (r: Layer)
        ensures
            r == *self,
    {
        Layer {
            id: self.id,
            name: self.name.clone(),
            opacity: self.opacity,
            blend: self.blend,
            visible: self.visible,
            lock_alpha: self.lock_alpha,
            clip_below: self.clip_below,
            locked: self.locked,
            content: self.content.clone(),
        }
    }
}

/// Everything about a layer except its name, its id, its content and its pixels: one value, so that
/// recording and restoring it takes one snapshot.
#[derive(Clone, Copy, Debug, PartialEq, Eq, Structural)]
pub struct Settings {
    pub opacity: Scalar,
    pub blend: Blend,
    pub visible: bool,
    pub lock_alpha: bool,
    pub clip_below: bool,
    pub locked: bool,
}

/// One where something holds, and zero where it does not.
pub open spec fn counted(holds: bool) -> int {
    if holds {
        1
    } else {
        0
    }
}

/// One where something holds, and zero where it does not.
fn bit(holds: bool) -> (r: u8)
    ensures
        r == counted(holds),
        r <= 1,
{
    if holds {
        1
    } else {
        0
    }
}

impl Settings {
    /// Which fields differ between two sets of settings, one bit for each.
    pub open spec fn differing(self, other: Settings) -> int {
        counted(self.opacity != other.opacity) + 2 * counted(self.blend != other.blend) + 4
            * counted(self.visible != other.visible) + 8 * counted(
            self.lock_alpha != other.lock_alpha,
        ) + 16 * counted(self.clip_below != other.clip_below) + 32 * counted(
            self.locked != other.locked,
        )
    }

    /// Which fields differ between two sets of settings, as a bitmask.
    ///
    /// For deciding whether two changes are the same change: dragging a slider is one step, but "the
    /// opacity moved again" and "and then it was locked" are two. Opacity is compared bit for bit.
    pub fn differences(self, other: Settings) -> (mask: u8)
        ensures
            mask == self.differing(other),
    {
        let opacity: u8 = bit(self.opacity.bits != other.opacity.bits);
        let blend: u8 = bit(self.blend != other.blend);
        let visible: u8 = bit(self.visible != other.visible);
        let lock_alpha: u8 = bit(self.lock_alpha != other.lock_alpha);
        let clip_below: u8 = bit(self.clip_below != other.clip_below);
        let locked: u8 = bit(self.locked != other.locked);
        opacity + 2 * blend + 4 * visible + 8 * lock_alpha + 16 * clip_below + 32 * locked
    }
}

/// Two settings differ in nothing exactly when they are the same, and the order does not matter.
pub proof fn law_differences_name_what_changed(a: Settings, b: Settings)
    ensures
        a.differing(b) == 0 <==> a == b,
        a.differing(b) == b.differing(a),
        0 <= a.differing(b) < 64,
{
}

/// Two pairs of settings that differ by the same mask differ in the same fields: a mask tells every
/// set of changed fields from every other.
pub proof fn law_a_mask_names_its_fields(a: Settings, b: Settings, c: Settings, d: Settings)
    requires
        a.differing(b) == c.differing(d),
    ensures
        (a.opacity != b.opacity) == (c.opacity != d.opacity),
        (a.blend != b.blend) == (c.blend != d.blend),
        (a.visible != b.visible) == (c.visible != d.visible),
        (a.lock_alpha != b.lock_alpha) == (c.lock_alpha != d.lock_alpha),
        (a.clip_below != b.clip_below) == (c.clip_below != d.clip_below),
        (a.locked != b.locked) == (c.locked != d.locked),
{
}

impl Layer {
    /// The layer's id.
    pub closed spec fn key(&self) -> u32 {
        self.id
    }

    /// What the layer is made of.
    pub closed spec fn made_of(&self) -> Content {
        self.content
    }

    /// What the layer is called.
    pub closed spec fn title(&self) -> Seq<char> {
        self.name@
    }

    /// The layer's settings, as one value.
    pub closed spec fn looks(&self) -> Settings {
        Settings {
            opacity: self.opacity,
            blend: self.blend,
            visible: self.visible,
            lock_alpha: self.lock_alpha,
            clip_below: self.clip_below,
            locked: self.locked,
        }
    }

    /// The opacity a layer is composited with.
    pub open spec fn shown(&self) -> Scalar {
        if self.looks().visible {
            self.looks().opacity.clamped_spec(Scalar { bits: ZERO }, Scalar { bits: ONE })
        } else {
            Scalar { bits: ZERO }
        }
    }

    /// Whether a brush may write to the layer.
    pub open spec fn paintable(&self) -> bool {
        self.made_of() is Raster && !self.looks().locked
    }

    /// The settings of a layer that nothing has been done to.
    pub open spec fn plain() -> Settings {
        Settings {
            opacity: Scalar { bits: ONE },
            blend: Blend::Normal,
            visible: true,
            lock_alpha: false,
            clip_below: false,
            locked: false,
        }
    }

    /// This layer's settings, as one value.
    pub fn settings(&self) -> (r: Settings)
        ensures
            r == self.looks(),
    {
        Settings {
            opacity: self.opacity,
            blend: self.blend,
            visible: self.visible,
            lock_alpha: self.lock_alpha,
            clip_below: self.clip_below,
            locked: self.locked,
        }
    }

    /// Put settings back onto this layer, every one of them.
    pub fn set_settings(&mut self, settings: Settings)
        ensures
            final(self).looks() == settings,
            final(self).key() == old(self).key(),
            final(self).title() == old(self).title(),
            final(self).made_of() == old(self).made_of(),
    {
        self.opacity = settings.opacity;
        self.blend = settings.blend;
        self.visible = settings.visible;
        self.lock_alpha = settings.lock_alpha;
        self.clip_below = settings.clip_below;
        self.locked = settings.locked;
    }

    /// Rebuild a layer exactly as it was, for loading a document.
    ///
    /// Takes the id rather than assigning one, because tiles are keyed by it.
    pub fn restored(
        id: u32,
        name: String,
        opacity: Scalar,
        blend: Blend,
        visible: bool,
        lock_alpha: bool,
        clip_below: bool,
    ) -> (r: Layer)
        ensures
            r.key() == id,
            r.title() == name@,
            r.looks() == (Settings {
                opacity,
                blend,
                visible,
                lock_alpha,
                clip_below,
                locked: false,
            }),
            r.made_of() == Content::Raster,
    {
        Layer {
            id,
            name,
            opacity,
            blend,
            visible,
            lock_alpha,
            clip_below,
            locked: false,
            content: Content::Raster,
        }
    }

    /// The same layer, locked or not.
    pub fn with_lock(self, locked: bool) -> (r: Layer)
        ensures
            r.key() == self.key(),
            r.title() == self.title(),
            r.looks() == (Settings { locked, ..self.looks() }),
            r.made_of() == self.made_of(),
    {
        let mut r = self;
        r.locked = locked;
        r
    }

    /// The same layer, carrying text instead of pixels.
    pub fn with_text(self, block: TextBlock) -> (r: Layer)
        ensures
            r.key() == self.key(),
            r.title() == self.title(),
            r.looks() == self.looks(),
            r.made_of() == Content::Text(Box::new(block)),
    {
        let mut r = self;
        r.content = Content::Text(Box::new(block));
        r
    }

    /// Create a layer with a given id. Ids come from the document, so that they stay unique.
    pub fn new(id: u32, name: String) -> (r: Layer)
        ensures
            r.key() == id,
            r.title() == name@,
            r.looks() == Layer::plain(),
            r.made_of() == Content::Raster,
    {
        Layer {
            id,
            name,
            opacity: Scalar { bits: ONE },
            blend: Blend::Normal,
            visible: true,
            lock_alpha: false,
            clip_below: false,
            locked: false,
            content: Content::Raster,
        }
    }

    /// Stable for the layer's whole life, and never reused. Tiles are keyed by it.
    pub fn id(&self) -> (r: u32)
        ensures
            r == self.key(),
    {
        self.id
    }

    /// What the layer is called.
    pub fn name(&self) -> (r: &str)
        ensures
            r@ == self.title(),
    {
        self.name.as_str()
    }

    /// Whether this layer's transparency is frozen: alpha cannot change, whatever the tool.
    pub fn locks_alpha(&self) -> (r: bool)
        ensures
            r == self.looks().lock_alpha,
    {
        self.lock_alpha
    }

    /// Whether this layer is masked by the one below it.
    pub fn clips_below(&self) -> (r: bool)
        ensures
            r == self.looks().clip_below,
    {
        self.clip_below
    }

    /// What this layer is made of.
    pub fn content(&self) -> (r: &Content)
        ensures
            *r == self.made_of(),
    {
        &self.content
    }

    /// Replace what this layer is made of. The tiles are not touched: they are stale, and the caller
    /// derives them again.
    pub fn set_content(&mut self, content: Content)
        ensures
            final(self).made_of() == content,
            final(self).key() == old(self).key(),
            final(self).title() == old(self).title(),
            final(self).looks() == old(self).looks(),
    {
        self.content = content;
    }

    /// The text this layer holds, if it holds text.
    pub fn text(&self) -> (r: Option<&TextBlock>)
        ensures
            match self.made_of() {
                Content::Raster => r is None,
                Content::Text(block) => r == Some(&*block),
            },
    {
        match &self.content {
            Content::Raster => None,
            Content::Text(block) => Some(&**block),
        }
    }

    /// The text this layer holds, to edit in place.
    ///
    /// The tiles are stale the moment this is written through.
    pub fn text_mut(&mut self) -> (r: Option<&mut TextBlock>)
        ensures
            match old(self).made_of() {
                Content::Raster => r is None && *final(self) == *old(self),
                Content::Text(block) => {
                    &&& r matches Some(t) && *t == *block && final(self).made_of() == Content::Text(
                        Box::new(*final(t)),
                    )
                    &&& final(self).key() == old(self).key()
                    &&& final(self).title() == old(self).title()
                    &&& final(self).looks() == old(self).looks()
                },
            },
    {
        match &mut self.content {
            Content::Raster => None,
            Content::Text(block) => Some(&mut **block),
        }
    }

    /// Whether a brush may write to this layer's pixels.
    ///
    /// A stroke painted on a text layer would vanish the next time the text was rendered, so the
    /// answer there is no. Everything that changes pixels asks this one question.
    pub fn accepts_paint(&self) -> (r: bool)
        ensures
            r == self.paintable(),
    {
        let raster = match self.content {
            Content::Raster => true,
            Content::Text(_) => false,
        };
        raster && !self.locked
    }

    /// Whether this layer has been set aside: nothing may change its pixels.
    pub fn is_locked(&self) -> (r: bool)
        ensures
            r == self.looks().locked,
    {
        self.locked
    }

    /// Opacity clamped to the range the compositor accepts, and nothing for a hidden layer.
    pub fn effective_opacity(&self) -> (r: Scalar)
        ensures
            r == self.shown(),
    {
        if self.visible {
            self.opacity.clamped(Scalar { bits: ZERO }, Scalar { bits: ONE })
        } else {
            Scalar { bits: ZERO }
        }
    }
}

/// Two layers with the same id, name, settings and content cannot be told apart by anything a layer
/// says of itself; a text layer or a locked one never takes paint, and a hidden one never shows.
pub proof fn law_settings_are_all_there_is(a: Layer, b: Layer)
    requires
        a.looks() == b.looks(),
        a.made_of() == b.made_of(),
    ensures
        a.shown() == b.shown(),
        a.paintable() == b.paintable(),
        a.made_of() is Text || a.looks().locked ==> !a.paintable(),
        !a.looks().visible ==> a.shown() == (Scalar { bits: ZERO }),
{
}

/// A visible layer shows at the opacity it is set to, held from none to all of it, and a hidden one not
/// at all, whatever it is set to.
pub proof fn law_a_layer_shows_at_its_opacity(layer: Layer)
    ensures
        !layer.looks().visible ==> layer.shown().bits == 0,
        layer.looks().visible && layer.looks().opacity.bits <= 0x3F80_0000 ==> layer.shown()
            == layer.looks().opacity,
        layer.looks().visible && 0x3F80_0000 < layer.looks().opacity.bits <= 0x7F80_0000
            ==> layer.shown().bits == 0x3F80_0000,
        layer.looks().visible && 0x8000_0000 < layer.looks().opacity.bits <= 0xFF80_0000
            ==> layer.shown().bits == 0,
{
}

/// Paint is refused on a locked layer and on a text layer, and on no other: neither hiding a layer, nor
/// freezing its transparency, nor clipping it, nor how it blends keeps paint off it.
pub proof fn law_only_a_lock_or_text_refuses_paint(layer: Layer)
    ensures
        layer.paintable() <==> layer.made_of() == Content::Raster && layer.looks().locked == false,
{
}

/// A layer that nothing has been done to is opaque, blends normally, is visible, and is neither frozen,
/// clipped nor locked; so it takes paint and shows all of it.
pub proof fn law_a_new_layer_takes_paint_and_shows_it(layer: Layer)
    requires
        layer.looks() == Layer::plain(),
    ensures
        layer.looks().opacity.bits == 0x3F80_0000,
        layer.looks().blend == Blend::Normal,
        layer.looks().visible,
        !layer.looks().lock_alpha,
        !layer.looks().clip_below,
        !layer.looks().locked,
        layer.shown().bits == 0x3F80_0000,
        layer.made_of() == Content::Raster ==> layer.paintable(),
{
}

} // verus!
