//! The choice of color theme.

use vstd::prelude::*;

use crate::types::NodeKind;

verus! {

/// The three-way theme toggle (light → dark → system).
#[derive(Debug, Clone, Copy, PartialEq, Eq, Structural)]
pub enum ThemeMode {
    Light,
    Dark,
    System,
}

impl ThemeMode {
    /// The mode after this one on the toggle.
    pub open spec fn following(self) -> ThemeMode {
        match self {
            ThemeMode::Light => ThemeMode::Dark,
            ThemeMode::Dark => ThemeMode::System,
            ThemeMode::System => ThemeMode::Light,
        }
    }

    /// The mode after this one on the toggle.
    pub fn next(self) -> (r: Self)
        ensures
            r == self.following(),
    {
        match self {
            ThemeMode::Light => ThemeMode::Dark,
            ThemeMode::Dark => ThemeMode::System,
            ThemeMode::System => ThemeMode::Light,
        }
    }
}

/// App-wide theme choice, so every view resolves the same palette.
#[derive(Debug, Clone, Copy, PartialEq, Eq, Structural)]
pub struct ThemeState(pub Option<ThemeMode>);

impl Default for ThemeState {
    /// No choice made.
    fn default() -> (r: Self)
        ensures
            r.0 is None,
    {
        ThemeState(None)
    }
}

impl ThemeState {
    /// The chosen mode; the system's where no choice was made.
    pub fn mode(self) -> (r: ThemeMode)
        ensures
            r == (match self.0 {
                Some(m) => m,
                None => ThemeMode::System,
            }),
    {
        match self.0 {
            Some(m) => m,
            None => ThemeMode::System,
        }
    }
}

impl ThemeMode {
    /// Whether the light palette is shown, for a window whose system appearance is light or dark.
    pub open spec fn shows_light(self, system_is_light: bool) -> bool {
        match self {
            ThemeMode::Light => true,
            ThemeMode::Dark => false,
            ThemeMode::System => system_is_light,
        }
    }

    /// Whether the light palette is shown: the explicit choice, or else the system's appearance.
    pub fn is_light(self, system_is_light: bool) -> (r: bool)
        ensures
            r == self.shows_light(system_is_light),
    {
        match self {
            ThemeMode::Light => true,
            ThemeMode::Dark => false,
            ThemeMode::System => system_is_light,
        }
    }
}

/// The toggle goes through all three modes and comes back.
pub proof fn the_toggle_is_a_cycle(mode: ThemeMode)
    ensures
        mode.following() != mode,
        mode.following().following() != mode,
        mode.following().following().following() == mode,
{
}

// ── palettes ───────────────────────────────────────────────────────────────

/// The colors of a theme, each as red, green, blue and alpha in one number.
#[derive(Debug, Clone, Copy, PartialEq, Eq, Structural)]
pub struct Palette {
    pub bg: u32,
    pub panel: u32,
    pub panel_border: u32,
    pub card_bg: u32,
    pub card_border: u32,
    pub text: u32,
    pub text_muted: u32,
    pub text_faint: u32,
    pub hover_bg: u32,
    pub active_bg: u32,
    pub input_bg: u32,
    /// Translucent chrome (toolbar / status bar / tooltip) background.
    pub chrome_bg: u32,
    pub type_amber: u32,
    pub red: u32,
    pub overlay_green: u32,
    pub arg_orange: u32,
    pub accent: u32,
    /// Near-black in light, near-white in dark.
    pub primary: u32,
    pub primary_fg: u32,
    /// Muted amber for builtin-scalar return types.
    pub type_builtin: u32,
    pub relay_orange: u32,
    /// Investigate outlines.
    pub investigate: u32,
    /// Pinned rows.
    pub pin: u32,
    /// Expired `[until]` marker, the same in both palettes.
    pub expired: u32,
    pub kind_object: u32,
    pub kind_interface: u32,
    pub kind_union: u32,
    pub kind_enum: u32,
    pub kind_input: u32,
    pub kind_scalar: u32,
    /// How strong shadows are, in percent of black.
    pub shadow: u32,
}

/// The dark palette.
pub open spec fn dark_palette() -> Palette {
    Palette {
        bg: 0x0a0a0aff,
        panel: 0x171717ff,
        panel_border: 0xffffff1a,
        card_bg: 0x171717ff,
        card_border: 0xffffff1a,
        text: 0xfafafaff,
        text_muted: 0xa1a1a1ff,
        text_faint: 0x737373ff,
        hover_bg: 0x262626ff,
        active_bg: 0x262626ff,
        input_bg: 0xffffff26,
        chrome_bg: 0x171717f0,
        type_amber: 0xf59e0bff,
        red: 0xff6467ff,
        overlay_green: 0x10b981ff,
        arg_orange: 0xe08a4aff,
        accent: 0x0ea5e9ff,
        primary: 0xe5e5e5ff,
        primary_fg: 0x171717ff,
        type_builtin: 0xb08c5aff,
        relay_orange: 0xf26a03ff,
        investigate: 0xf97316ff,
        pin: 0xf97316ff,
        expired: 0xef4444ff,
        kind_object: 0x0ea5e9ff,
        kind_interface: 0x8b5cf6ff,
        kind_union: 0xf59e0bff,
        kind_enum: 0x10b981ff,
        kind_input: 0xd946efff,
        kind_scalar: 0xf43f5eff,
        shadow: 35,
    }
}

/// The light palette.
pub open spec fn light_palette() -> Palette {
    Palette {
        bg: 0xfafaf9ff,
        panel: 0xfafafaff,
        panel_border: 0xe5e5e5ff,
        card_bg: 0xffffffff,
        card_border: 0xe5e5e5ff,
        text: 0x0a0a0aff,
        text_muted: 0x737373ff,
        text_faint: 0xa1a1a1ff,
        hover_bg: 0xf5f5f5ff,
        active_bg: 0xf5f5f5ff,
        input_bg: 0xffffffff,
        chrome_bg: 0xfffffff0,
        type_amber: 0xf59e0bff,
        red: 0xe7000bff,
        overlay_green: 0x10b981ff,
        arg_orange: 0xb05a1fff,
        accent: 0x0369a1ff,
        primary: 0x171717ff,
        primary_fg: 0xfafafaff,
        type_builtin: 0xb08c5aff,
        relay_orange: 0xf26a03ff,
        investigate: 0xf97316ff,
        pin: 0xf97316ff,
        expired: 0xef4444ff,
        kind_object: 0x0ea5e9ff,
        kind_interface: 0x8b5cf6ff,
        kind_union: 0xf59e0bff,
        kind_enum: 0x10b981ff,
        kind_input: 0xd946efff,
        kind_scalar: 0xf43f5eff,
        shadow: 18,
    }
}

/// The dark palette.
pub fn dark() -> (r: Palette)
    ensures
        r == dark_palette(),
{
    Palette {
        bg: 0x0a0a0aff,
        panel: 0x171717ff,
        panel_border: 0xffffff1a,
        card_bg: 0x171717ff,
        card_border: 0xffffff1a,
        text: 0xfafafaff,
        text_muted: 0xa1a1a1ff,
        text_faint: 0x737373ff,
        hover_bg: 0x262626ff,
        active_bg: 0x262626ff,
        input_bg: 0xffffff26,
        chrome_bg: 0x171717f0,
        type_amber: 0xf59e0bff,
        red: 0xff6467ff,
        overlay_green: 0x10b981ff,
        arg_orange: 0xe08a4aff,
        accent: 0x0ea5e9ff,
        primary: 0xe5e5e5ff,
        primary_fg: 0x171717ff,
        type_builtin: 0xb08c5aff,
        relay_orange: 0xf26a03ff,
        investigate: 0xf97316ff,
        pin: 0xf97316ff,
        expired: 0xef4444ff,
        kind_object: 0x0ea5e9ff,
        kind_interface: 0x8b5cf6ff,
        kind_union: 0xf59e0bff,
        kind_enum: 0x10b981ff,
        kind_input: 0xd946efff,
        kind_scalar: 0xf43f5eff,
        shadow: 35,
    }
}

/// The light palette.
pub fn light() -> (r: Palette)
    ensures
        r == light_palette(),
{
    Palette {
        bg: 0xfafaf9ff,
        panel: 0xfafafaff,
        panel_border: 0xe5e5e5ff,
        card_bg: 0xffffffff,
        card_border: 0xe5e5e5ff,
        text: 0x0a0a0aff,
        text_muted: 0x737373ff,
        text_faint: 0xa1a1a1ff,
        hover_bg: 0xf5f5f5ff,
        active_bg: 0xf5f5f5ff,
        input_bg: 0xffffffff,
        chrome_bg: 0xfffffff0,
        type_amber: 0xf59e0bff,
        red: 0xe7000bff,
        overlay_green: 0x10b981ff,
        arg_orange: 0xb05a1fff,
        accent: 0x0369a1ff,
        primary: 0x171717ff,
        primary_fg: 0xfafafaff,
        type_builtin: 0xb08c5aff,
        relay_orange: 0xf26a03ff,
        investigate: 0xf97316ff,
        pin: 0xf97316ff,
        expired: 0xef4444ff,
        kind_object: 0x0ea5e9ff,
        kind_interface: 0x8b5cf6ff,
        kind_union: 0xf59e0bff,
        kind_enum: 0x10b981ff,
        kind_input: 0xd946efff,
        kind_scalar: 0xf43f5eff,
        shadow: 18,
    }
}

impl Palette {
    /// The color of a kind of type.
    pub open spec fn color_of(self, kind: NodeKind) -> u32 {
        match kind {
            NodeKind::Object => self.kind_object,
            NodeKind::Interface => self.kind_interface,
            NodeKind::Union => self.kind_union,
            NodeKind::Enum => self.kind_enum,
            NodeKind::Input => self.kind_input,
            NodeKind::Scalar => self.kind_scalar,
        }
    }

    /// The color of a kind of type.
    pub fn kind_color(self, kind: NodeKind) -> (r: u32)
        ensures
            r == self.color_of(kind),
    {
        match kind {
            NodeKind::Object => self.kind_object,
            NodeKind::Interface => self.kind_interface,
            NodeKind::Union => self.kind_union,
            NodeKind::Enum => self.kind_enum,
            NodeKind::Input => self.kind_input,
            NodeKind::Scalar => self.kind_scalar,
        }
    }
}

/// The palette of a mode, for a window whose system appearance is light or dark.
pub fn theme_for(mode: ThemeMode, system_is_light: bool) -> (r: Palette)
    ensures
        r == (if mode.shows_light(system_is_light) {
            light_palette()
        } else {
            dark_palette()
        }),
{
    if mode.is_light(system_is_light) {
        light()
    } else {
        dark()
    }
}

/// A kind of type keeps its color from theme to theme, and no two kinds share one.
pub proof fn kinds_keep_their_colors(a: NodeKind, b: NodeKind)
    ensures
        dark_palette().color_of(a) == light_palette().color_of(a),
        a != b ==> dark_palette().color_of(a) != dark_palette().color_of(b),
{
}

// ── the toggle ─────────────────────────────────────────────────────────────

/// The word on the theme toggle.
pub open spec fn mode_word(mode: ThemeMode) -> Seq<char> {
    match mode {
        ThemeMode::Light => "Light"@,
        ThemeMode::Dark => "Dark"@,
        ThemeMode::System => "System"@,
    }
}

impl ThemeMode {
    /// The word on the theme toggle.
    pub fn label(self) -> (r: &'static str)
        ensures
            r@ == mode_word(self),
    {
        match self {
            ThemeMode::Light => "Light",
            ThemeMode::Dark => "Dark",
            ThemeMode::System => "System",
        }
    }
}

} // verus!
