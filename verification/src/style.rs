//! The palette and widget styling of the rendering shell, as plain byte
//! channels. The shell owns the actual color type; these functions say
//! which palette entry, with which opacity, each widget state uses.
use vstd::prelude::*;

verus! {

/// A color as byte channels, with opacity in percent.
#[derive(Clone, Copy, PartialEq, Eq, Structural, Debug)]
pub struct Rgba {
    pub red: u8,
    pub green: u8,
    pub blue: u8,
    pub alpha_pct: u8,
}

/// An opaque color from byte channels.
pub open spec fn spec_rgb(red: u8, green: u8, blue: u8) -> Rgba {
    Rgba { red, green, blue, alpha_pct: 100 }
}

pub fn color_gold() -> (r: Rgba)
    ensures
        r == spec_rgb(0xD4, 0xAF, 0x37),
{
    Rgba { red: 0xD4, green: 0xAF, blue: 0x37, alpha_pct: 100 }
}

pub fn color_rhodium() -> (r: Rgba)
    ensures
        r == spec_rgb(0xE2, 0xE7, 0xE1),
{
    Rgba { red: 0xE2, green: 0xE7, blue: 0xE1, alpha_pct: 100 }
}

pub fn color_platinum() -> (r: Rgba)
    ensures
        r == spec_rgb(0xE5, 0xE4, 0xE2),
{
    Rgba { red: 0xE5, green: 0xE4, blue: 0xE2, alpha_pct: 100 }
}

pub fn color_palladium() -> (r: Rgba)
    ensures
        r == spec_rgb(0x6F, 0x6A, 0x75),
{
    Rgba { red: 0x6F, green: 0x6A, blue: 0x75, alpha_pct: 100 }
}

pub fn color_tellurium() -> (r: Rgba)
    ensures
        r == spec_rgb(0x4C, 0x55, 0x59),
{
    Rgba { red: 0x4C, green: 0x55, blue: 0x59, alpha_pct: 100 }
}

pub fn color_osmium() -> (r: Rgba)
    ensures
        r == spec_rgb(0x90, 0x90, 0xA3),
{
    Rgba { red: 0x90, green: 0x90, blue: 0xA3, alpha_pct: 100 }
}

pub fn color_white() -> (r: Rgba)
    ensures
        r == spec_rgb(0xFF, 0xFF, 0xFF),
{
    Rgba { red: 0xFF, green: 0xFF, blue: 0xFF, alpha_pct: 100 }
}

/// The two nesting levels the shell styles differently.
#[derive(Clone, Copy, PartialEq, Eq, Structural, Debug)]
pub enum Theme {
    Default,
    Nested,
}

/// How a slider is drawn: its two rail colors, its round handle's color
/// and radius, and its border width.
#[derive(Clone, Copy, PartialEq, Eq, Structural, Debug)]
pub struct SliderStyle {
    pub rail_top: Rgba,
    pub rail_bottom: Rgba,
    pub handle_color: Rgba,
    pub handle_radius: u8,
    pub border_width: u8,
}

/// The slider style of the shell: a gold rail over a translucent gold
/// rail, with a handle that brightens as it is hovered and dragged.
#[derive(Clone, Copy, PartialEq, Eq, Structural, Debug)]
pub struct Slider;

impl Slider {
    pub fn active(&self) -> (r: SliderStyle)
        ensures
            r.rail_top == spec_rgb(0xD4, 0xAF, 0x37),
            r.rail_bottom == (Rgba { red: 0xD4, green: 0xAF, blue: 0x37, alpha_pct: 10 }),
            r.handle_color == spec_rgb(0xD4, 0xAF, 0x37),
            r.handle_radius == 9,
            r.border_width == 0,
    {
        let gold = color_gold();
        SliderStyle {
            rail_top: gold,
            rail_bottom: Rgba { alpha_pct: 10, ..gold },
            handle_color: gold,
            handle_radius: 9,
            border_width: 0,
        }
    }

    pub fn hovered(&self) -> (r: SliderStyle)
        ensures
            r.handle_color == spec_rgb(0xE5, 0xE4, 0xE2),
            r.rail_top == spec_rgb(0xD4, 0xAF, 0x37),
            r.rail_bottom == (Rgba { red: 0xD4, green: 0xAF, blue: 0x37, alpha_pct: 10 }),
            r.handle_radius == 9,
            r.border_width == 0,
    {
        let active = self.active();
        SliderStyle { handle_color: color_platinum(), ..active }
    }

    pub fn dragging(&self) -> (r: SliderStyle)
        ensures
            r.handle_color == spec_rgb(0xE2, 0xE7, 0xE1),
            r.rail_top == spec_rgb(0xD4, 0xAF, 0x37),
            r.rail_bottom == (Rgba { red: 0xD4, green: 0xAF, blue: 0x37, alpha_pct: 10 }),
            r.handle_radius == 9,
            r.border_width == 0,
    {
        let active = self.active();
        SliderStyle { handle_color: color_rhodium(), ..active }
    }
}

/// How a container is drawn: background and text colors.
#[derive(Clone, Copy, PartialEq, Eq, Structural, Debug)]
pub struct ContainerStyle {
    pub background: Rgba,
    pub text_color: Rgba,
}

/// The top-level container: gold text on osmium.
#[derive(Clone, Copy, PartialEq, Eq, Structural, Debug)]
pub struct Container;

impl Container {
    pub fn style(&self) -> (r: ContainerStyle)
        ensures
            r.background == spec_rgb(0x90, 0x90, 0xA3),
            r.text_color == spec_rgb(0xD4, 0xAF, 0x37),
    {
        ContainerStyle { background: color_osmium(), text_color: color_gold() }
    }
}

/// A nested container: gold text on tellurium.
#[derive(Clone, Copy, PartialEq, Eq, Structural, Debug)]
pub struct ContainerNested;

impl ContainerNested {
    pub fn style(&self) -> (r: ContainerStyle)
        ensures
            r.background == spec_rgb(0x4C, 0x55, 0x59),
            r.text_color == spec_rgb(0xD4, 0xAF, 0x37),
    {
        ContainerStyle { background: color_tellurium(), text_color: color_gold() }
    }
}

/// How a button is drawn: background and text colors.
#[derive(Clone, Copy, PartialEq, Eq, Structural, Debug)]
pub struct ButtonStyle {
    pub background: Rgba,
    pub text_color: Rgba,
}

/// A top-level button: gold on tellurium, white text when hovered.
#[derive(Clone, Copy, PartialEq, Eq, Structural, Debug)]
pub struct Button;

impl Button {
    pub fn active(&self) -> (r: ButtonStyle)
        ensures
            r.background == spec_rgb(0x4C, 0x55, 0x59),
            r.text_color == spec_rgb(0xD4, 0xAF, 0x37),
    {
        ButtonStyle { background: color_tellurium(), text_color: color_gold() }
    }

    pub fn hovered(&self) -> (r: ButtonStyle)
        ensures
            r.background == spec_rgb(0x4C, 0x55, 0x59),
            r.text_color == spec_rgb(0xFF, 0xFF, 0xFF),
    {
        ButtonStyle { text_color: color_white(), ..self.active() }
    }
}

/// A nested button: gold on palladium, white text when hovered.
#[derive(Clone, Copy, PartialEq, Eq, Structural, Debug)]
pub struct ButtonNested;

impl ButtonNested {
    pub fn active(&self) -> (r: ButtonStyle)
        ensures
            r.background == spec_rgb(0x6F, 0x6A, 0x75),
            r.text_color == spec_rgb(0xD4, 0xAF, 0x37),
    {
        ButtonStyle { background: color_palladium(), text_color: color_gold() }
    }

    pub fn hovered(&self) -> (r: ButtonStyle)
        ensures
            r.background == spec_rgb(0x6F, 0x6A, 0x75),
            r.text_color == spec_rgb(0xFF, 0xFF, 0xFF),
    {
        ButtonStyle { text_color: color_white(), ..self.active() }
    }
}

} // verus!
