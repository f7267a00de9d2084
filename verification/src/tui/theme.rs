//! Colour themes of the terminal interface.

use vstd::prelude::*;

verus! {

/// A 24-bit colour.
#[derive(Clone, Copy, Debug, PartialEq, Eq, Structural)]
pub struct Rgb {
    pub r: u8,
    pub g: u8,
    pub b: u8,
}

/// The colours of every element of the interface.
#[derive(Clone, Copy, Debug, PartialEq, Eq, Structural)]
pub struct Theme {
    pub bg: Rgb,
    pub fg: Rgb,
    pub border: Rgb,
    pub accent: Rgb,
    pub list_highlight_bg: Rgb,
    pub list_highlight_fg: Rgb,
    pub sel_highlight_bg: Rgb,
    pub sel_highlight_fg: Rgb,
    pub ok: Rgb,
    pub error: Rgb,
}

pub open spec fn rgb(r: u8, g: u8, b: u8) -> Rgb {
    Rgb { r, g, b }
}

/// The dark palette, inspired by GitUI.
pub open spec fn dark_palette() -> Theme {
    Theme {
        bg: rgb(12, 12, 12),
        fg: rgb(201, 209, 217),
        border: rgb(48, 54, 61),
        accent: rgb(88, 166, 255),
        list_highlight_bg: rgb(31, 111, 235),
        list_highlight_fg: rgb(255, 255, 255),
        sel_highlight_bg: rgb(34, 197, 94),
        sel_highlight_fg: rgb(0, 0, 0),
        ok: rgb(46, 160, 67),
        error: rgb(248, 81, 73),
    }
}

/// The light palette.
pub open spec fn light_palette() -> Theme {
    Theme {
        bg: rgb(250, 250, 250),
        fg: rgb(30, 30, 30),
        border: rgb(200, 200, 200),
        accent: rgb(25, 118, 210),
        list_highlight_bg: rgb(187, 222, 251),
        list_highlight_fg: rgb(0, 0, 0),
        sel_highlight_bg: rgb(200, 230, 201),
        sel_highlight_fg: rgb(0, 0, 0),
        ok: rgb(46, 160, 67),
        error: rgb(211, 47, 47),
    }
}

/// The dark theme is light text on a near-black background and the light
/// theme dark text on a near-white one: every channel of the dark
/// background is below 32 and of its text above 192, and the other way
/// round for the light theme; the two themes differ in every colour but the
/// "ok" green and the black text of a selected item.
pub proof fn lemma_palettes_contrast()
    ensures
        dark_palette().bg.r < 32 && dark_palette().bg.g < 32 && dark_palette().bg.b < 32,
        dark_palette().fg.r > 192 && dark_palette().fg.g > 192 && dark_palette().fg.b > 192,
        light_palette().bg.r > 224 && light_palette().bg.g > 224 && light_palette().bg.b > 224,
        light_palette().fg.r < 32 && light_palette().fg.g < 32 && light_palette().fg.b < 32,
        dark_palette().ok == light_palette().ok,
        dark_palette().sel_highlight_fg == light_palette().sel_highlight_fg,
        dark_palette().accent != light_palette().accent,
        dark_palette().border != light_palette().border,
        dark_palette().error != light_palette().error,
        dark_palette().list_highlight_bg != light_palette().list_highlight_bg,
        dark_palette().list_highlight_fg != light_palette().list_highlight_fg,
        dark_palette().sel_highlight_bg != light_palette().sel_highlight_bg,
{
}

impl Theme {
    /// The dark theme.
    pub fn gitui_dark() -> (t: Theme)
        ensures
            t == dark_palette(),
            t.bg == (Rgb { r: 12, g: 12, b: 12 }),
            t.fg == (Rgb { r: 201, g: 209, b: 217 }),
            t.border == (Rgb { r: 48, g: 54, b: 61 }),
            t.accent == (Rgb { r: 88, g: 166, b: 255 }),
            t.list_highlight_bg == (Rgb { r: 31, g: 111, b: 235 }),
            t.list_highlight_fg == (Rgb { r: 255, g: 255, b: 255 }),
            t.sel_highlight_bg == (Rgb { r: 34, g: 197, b: 94 }),
            t.sel_highlight_fg == (Rgb { r: 0, g: 0, b: 0 }),
            t.ok == (Rgb { r: 46, g: 160, b: 67 }),
            t.error == (Rgb { r: 248, g: 81, b: 73 }),
    {
        Theme {
            bg: Rgb { r: 12, g: 12, b: 12 },
            fg: Rgb { r: 201, g: 209, b: 217 },
            border: Rgb { r: 48, g: 54, b: 61 },
            accent: Rgb { r: 88, g: 166, b: 255 },
            list_highlight_bg: Rgb { r: 31, g: 111, b: 235 },
            list_highlight_fg: Rgb { r: 255, g: 255, b: 255 },
            sel_highlight_bg: Rgb { r: 34, g: 197, b: 94 },
            sel_highlight_fg: Rgb { r: 0, g: 0, b: 0 },
            ok: Rgb { r: 46, g: 160, b: 67 },
            error: Rgb { r: 248, g: 81, b: 73 },
        }
    }

    /// The light theme.
    pub fn light() -> (t: Theme)
        ensures
            t == light_palette(),
            t.bg == (Rgb { r: 250, g: 250, b: 250 }),
            t.fg == (Rgb { r: 30, g: 30, b: 30 }),
            t.border == (Rgb { r: 200, g: 200, b: 200 }),
            t.accent == (Rgb { r: 25, g: 118, b: 210 }),
            t.list_highlight_bg == (Rgb { r: 187, g: 222, b: 251 }),
            t.list_highlight_fg == (Rgb { r: 0, g: 0, b: 0 }),
            t.sel_highlight_bg == (Rgb { r: 200, g: 230, b: 201 }),
            t.sel_highlight_fg == (Rgb { r: 0, g: 0, b: 0 }),
            t.ok == (Rgb { r: 46, g: 160, b: 67 }),
            t.error == (Rgb { r: 211, g: 47, b: 47 }),
    {
        Theme {
            bg: Rgb { r: 250, g: 250, b: 250 },
            fg: Rgb { r: 30, g: 30, b: 30 },
            border: Rgb { r: 200, g: 200, b: 200 },
            accent: Rgb { r: 25, g: 118, b: 210 },
            list_highlight_bg: Rgb { r: 187, g: 222, b: 251 },
            list_highlight_fg: Rgb { r: 0, g: 0, b: 0 },
            sel_highlight_bg: Rgb { r: 200, g: 230, b: 201 },
            sel_highlight_fg: Rgb { r: 0, g: 0, b: 0 },
            ok: Rgb { r: 46, g: 160, b: 67 },
            error: Rgb { r: 211, g: 47, b: 47 },
        }
    }
}

/// The theme a name selects: `light` gives the light theme; any other name,
/// or none, gives the dark one.
pub fn resolve(name: Option<String>) -> (t: Theme)
    ensures
        t == (if name matches Some(n) && n@ == "light"@ {
            light_palette()
        } else {
            dark_palette()
        }),
{
    let light_name = String::from_str("light");
    match name {
        Some(n) => if n == light_name {
            Theme::light()
        } else {
            Theme::gitui_dark()
        },
        None => Theme::gitui_dark(),
    }
}

} // verus!
