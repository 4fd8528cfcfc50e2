//! Colour themes of the terminal interface.
//!
//! A colour is a plain RGB triple here; the binary turns it into the
//! terminal library's colour.

use vstd::prelude::*;
use crate::text::str_eq;

verus! {

/// A 24-bit colour.
#[derive(Debug, Clone, Copy, PartialEq, Eq, Structural)]
pub struct Rgb(pub u8, pub u8, pub u8);

/// The colours of one theme.
#[derive(Debug, Clone, Copy)]
pub struct Theme {
    pub name: &'static str,
    pub background: Rgb,
    pub foreground: Rgb,
    pub primary: Rgb,
    pub border: Rgb,
    pub accent: Rgb,
    pub warning: Rgb,
    pub success: Rgb,
    pub dimmed: Rgb,
    /// Brighter colour for selected items.
    pub highlight: Rgb,
    /// Subtle background of secondary panels.
    pub surface: Rgb,
    /// Text over the highlight colour.
    pub on_highlight: Rgb,
}

/// The built-in themes, in menu order; the last one, "Advance Ink" (amber
/// on deep ink, coral for risk, teal for health and data), is the
/// project's own default.
pub open spec fn theme_table() -> Seq<Theme> {
    seq![
        Theme {
            name: "Catppuccin Mocha",
            background: Rgb(0x1E, 0x1E, 0x2E),
            foreground: Rgb(0xCD, 0xD6, 0xF4),
            primary: Rgb(0x89, 0xB4, 0xFA),
            border: Rgb(0x45, 0x45, 0x5A),
            accent: Rgb(0xF9, 0xE2, 0xAF),
            warning: Rgb(0xFA, 0xB3, 0x87),
            success: Rgb(0xA6, 0xE3, 0xA1),
            dimmed: Rgb(0x58, 0x5B, 0x70),
            highlight: Rgb(0xC4, 0xA7, 0xE7),
            surface: Rgb(0x25, 0x25, 0x35),
            on_highlight: Rgb(0x1E, 0x1E, 0x2E),
        },
        Theme {
            name: "Tokyo Night",
            background: Rgb(0x1A, 0x1B, 0x26),
            foreground: Rgb(0xA9, 0xB1, 0xD6),
            primary: Rgb(0x7A, 0xA2, 0xF7),
            border: Rgb(0x36, 0x38, 0x4A),
            accent: Rgb(0xE0, 0xAF, 0x68),
            warning: Rgb(0xF7, 0x76, 0x8E),
            success: Rgb(0x9E, 0xCE, 0x6A),
            dimmed: Rgb(0x56, 0x5F, 0x89),
            highlight: Rgb(0xBB, 0x9A, 0xF7),
            surface: Rgb(0x20, 0x21, 0x30),
            on_highlight: Rgb(0x1A, 0x1B, 0x26),
        },
        Theme {
            name: "Gruvbox Dark",
            background: Rgb(0x28, 0x28, 0x28),
            foreground: Rgb(0xEB, 0xDB, 0xB2),
            primary: Rgb(0xFA, 0xBD, 0x2F),
            border: Rgb(0x50, 0x50, 0x50),
            accent: Rgb(0x8E, 0xC0, 0x7C),
            warning: Rgb(0xFB, 0x49, 0x34),
            success: Rgb(0xB8, 0xBB, 0x26),
            dimmed: Rgb(0x66, 0x5C, 0x54),
            highlight: Rgb(0xFE, 0x80, 0x19),
            surface: Rgb(0x32, 0x32, 0x32),
            on_highlight: Rgb(0x28, 0x28, 0x28),
        },
        Theme {
            name: "Nord",
            background: Rgb(0x2E, 0x34, 0x40),
            foreground: Rgb(0xD8, 0xDE, 0xE9),
            primary: Rgb(0x88, 0xC0, 0xD0),
            border: Rgb(0x4C, 0x56, 0x6A),
            accent: Rgb(0xEB, 0xCB, 0x8B),
            warning: Rgb(0xBF, 0x61, 0x6A),
            success: Rgb(0xA3, 0xBE, 0x8C),
            dimmed: Rgb(0x4C, 0x56, 0x6A),
            highlight: Rgb(0x81, 0xA1, 0xC1),
            surface: Rgb(0x38, 0x3E, 0x4A),
            on_highlight: Rgb(0x2E, 0x34, 0x40),
        },
        Theme {
            name: "Rose Pine",
            background: Rgb(0x19, 0x17, 0x24),
            foreground: Rgb(0xE0, 0xDE, 0xF4),
            primary: Rgb(0x9C, 0xCF, 0xD8),
            border: Rgb(0x35, 0x33, 0x40),
            accent: Rgb(0xF6, 0xC1, 0x77),
            warning: Rgb(0xEB, 0x6F, 0x92),
            success: Rgb(0x31, 0x74, 0x8F),
            dimmed: Rgb(0x6E, 0x6A, 0x86),
            highlight: Rgb(0xC4, 0xA7, 0xE7),
            surface: Rgb(0x1F, 0x1D, 0x2A),
            on_highlight: Rgb(0x19, 0x17, 0x24),
        },
        Theme {
            name: "Kanagawa",
            background: Rgb(0x1F, 0x1F, 0x28),
            foreground: Rgb(0xDC, 0xD7, 0xBA),
            primary: Rgb(0x7E, 0x9C, 0xD8),
            border: Rgb(0x40, 0x40, 0x50),
            accent: Rgb(0xFF, 0x9E, 0x3B),
            warning: Rgb(0xC3, 0x40, 0x43),
            success: Rgb(0x76, 0x94, 0x6A),
            dimmed: Rgb(0x54, 0x54, 0x6D),
            highlight: Rgb(0xFF, 0x9E, 0x3B),
            surface: Rgb(0x25, 0x25, 0x2E),
            on_highlight: Rgb(0x1F, 0x1F, 0x28),
        },
        Theme {
            name: "Everforest",
            background: Rgb(0x2D, 0x35, 0x3B),
            foreground: Rgb(0xD3, 0xC6, 0xAA),
            primary: Rgb(0xA7, 0xC0, 0x80),
            border: Rgb(0x50, 0x58, 0x5E),
            accent: Rgb(0x7F, 0xBB, 0xB3),
            warning: Rgb(0xE6, 0x7E, 0x80),
            success: Rgb(0x83, 0xC0, 0x92),
            dimmed: Rgb(0x5C, 0x6A, 0x72),
            highlight: Rgb(0xDB, 0xBC, 0x7F),
            surface: Rgb(0x33, 0x3C, 0x43),
            on_highlight: Rgb(0x2D, 0x35, 0x3B),
        },
        Theme {
            name: "Dracula",
            background: Rgb(0x28, 0x2A, 0x36),
            foreground: Rgb(0xF8, 0xF8, 0xF2),
            primary: Rgb(0x8B, 0xE9, 0xFD),
            border: Rgb(0x44, 0x46, 0x52),
            accent: Rgb(0xFF, 0x79, 0xC6),
            warning: Rgb(0xFF, 0x55, 0x55),
            success: Rgb(0x50, 0xFA, 0x7B),
            dimmed: Rgb(0x62, 0x72, 0xA4),
            highlight: Rgb(0xBD, 0x93, 0xF9),
            surface: Rgb(0x2E, 0x30, 0x3C),
            on_highlight: Rgb(0x28, 0x2A, 0x36),
        },
        Theme {
            name: "One Dark",
            background: Rgb(0x28, 0x2C, 0x34),
            foreground: Rgb(0xAB, 0xB2, 0xBF),
            primary: Rgb(0x61, 0xAF, 0xEF),
            border: Rgb(0x40, 0x44, 0x4C),
            accent: Rgb(0xE5, 0xC0, 0x7B),
            warning: Rgb(0xE0, 0x6C, 0x75),
            success: Rgb(0x98, 0xC3, 0x79),
            dimmed: Rgb(0x5C, 0x63, 0x70),
            highlight: Rgb(0xC6, 0x78, 0xDD),
            surface: Rgb(0x2E, 0x32, 0x3A),
            on_highlight: Rgb(0x28, 0x2C, 0x34),
        },
        Theme {
            name: "Nightfly",
            background: Rgb(0x01, 0x16, 0x27),
            foreground: Rgb(0xBD, 0xC1, 0xC6),
            primary: Rgb(0x00, 0xA6, 0xF2),
            border: Rgb(0x22, 0x2E, 0x3F),
            accent: Rgb(0xEC, 0xC6, 0x2F),
            warning: Rgb(0xFC, 0x51, 0x4E),
            success: Rgb(0x21, 0xC7, 0xA8),
            dimmed: Rgb(0x44, 0x4A, 0x73),
            highlight: Rgb(0xAE, 0x81, 0xFF),
            surface: Rgb(0x06, 0x1C, 0x2D),
            on_highlight: Rgb(0x01, 0x16, 0x27),
        },
        Theme {
            name: "Advance Ink",
            background: Rgb(0x14, 0x17, 0x1F),
            foreground: Rgb(0xE6, 0xE1, 0xD3),
            primary: Rgb(0xF2, 0xA9, 0x3B),
            border: Rgb(0x2E, 0x34, 0x42),
            accent: Rgb(0xFF, 0xC8, 0x6B),
            warning: Rgb(0xFF, 0x6F, 0x61),
            success: Rgb(0x3F, 0xB8, 0xAF),
            dimmed: Rgb(0x6B, 0x72, 0x80),
            highlight: Rgb(0xFF, 0xD1, 0x80),
            surface: Rgb(0x1C, 0x21, 0x2B),
            on_highlight: Rgb(0x14, 0x17, 0x1F),
        },
    ]
}

/// The built-in themes, in menu order.
pub fn get_themes() -> (v: Vec<Theme>)
    ensures
        v@ == theme_table(),
{
    let mut v: Vec<Theme> = Vec::new();
    v.push(
        Theme {
            name: "Catppuccin Mocha",
            background: Rgb(0x1E, 0x1E, 0x2E),
            foreground: Rgb(0xCD, 0xD6, 0xF4),
            primary: Rgb(0x89, 0xB4, 0xFA),
            border: Rgb(0x45, 0x45, 0x5A),
            accent: Rgb(0xF9, 0xE2, 0xAF),
            warning: Rgb(0xFA, 0xB3, 0x87),
            success: Rgb(0xA6, 0xE3, 0xA1),
            dimmed: Rgb(0x58, 0x5B, 0x70),
            highlight: Rgb(0xC4, 0xA7, 0xE7),
            surface: Rgb(0x25, 0x25, 0x35),
            on_highlight: Rgb(0x1E, 0x1E, 0x2E),
        },
    );
    v.push(
        Theme {
            name: "Tokyo Night",
            background: Rgb(0x1A, 0x1B, 0x26),
            foreground: Rgb(0xA9, 0xB1, 0xD6),
            primary: Rgb(0x7A, 0xA2, 0xF7),
            border: Rgb(0x36, 0x38, 0x4A),
            accent: Rgb(0xE0, 0xAF, 0x68),
            warning: Rgb(0xF7, 0x76, 0x8E),
            success: Rgb(0x9E, 0xCE, 0x6A),
            dimmed: Rgb(0x56, 0x5F, 0x89),
            highlight: Rgb(0xBB, 0x9A, 0xF7),
            surface: Rgb(0x20, 0x21, 0x30),
            on_highlight: Rgb(0x1A, 0x1B, 0x26),
        },
    );
    v.push(
        Theme {
            name: "Gruvbox Dark",
            background: Rgb(0x28, 0x28, 0x28),
            foreground: Rgb(0xEB, 0xDB, 0xB2),
            primary: Rgb(0xFA, 0xBD, 0x2F),
            border: Rgb(0x50, 0x50, 0x50),
            accent: Rgb(0x8E, 0xC0, 0x7C),
            warning: Rgb(0xFB, 0x49, 0x34),
            success: Rgb(0xB8, 0xBB, 0x26),
            dimmed: Rgb(0x66, 0x5C, 0x54),
            highlight: Rgb(0xFE, 0x80, 0x19),
            surface: Rgb(0x32, 0x32, 0x32),
            on_highlight: Rgb(0x28, 0x28, 0x28),
        },
    );
    v.push(
        Theme {
            name: "Nord",
            background: Rgb(0x2E, 0x34, 0x40),
            foreground: Rgb(0xD8, 0xDE, 0xE9),
            primary: Rgb(0x88, 0xC0, 0xD0),
            border: Rgb(0x4C, 0x56, 0x6A),
            accent: Rgb(0xEB, 0xCB, 0x8B),
            warning: Rgb(0xBF, 0x61, 0x6A),
            success: Rgb(0xA3, 0xBE, 0x8C),
            dimmed: Rgb(0x4C, 0x56, 0x6A),
            highlight: Rgb(0x81, 0xA1, 0xC1),
            surface: Rgb(0x38, 0x3E, 0x4A),
            on_highlight: Rgb(0x2E, 0x34, 0x40),
        },
    );
    v.push(
        Theme {
            name: "Rose Pine",
            background: Rgb(0x19, 0x17, 0x24),
            foreground: Rgb(0xE0, 0xDE, 0xF4),
            primary: Rgb(0x9C, 0xCF, 0xD8),
            border: Rgb(0x35, 0x33, 0x40),
            accent: Rgb(0xF6, 0xC1, 0x77),
            warning: Rgb(0xEB, 0x6F, 0x92),
            success: Rgb(0x31, 0x74, 0x8F),
            dimmed: Rgb(0x6E, 0x6A, 0x86),
            highlight: Rgb(0xC4, 0xA7, 0xE7),
            surface: Rgb(0x1F, 0x1D, 0x2A),
            on_highlight: Rgb(0x19, 0x17, 0x24),
        },
    );
    v.push(
        Theme {
            name: "Kanagawa",
            background: Rgb(0x1F, 0x1F, 0x28),
            foreground: Rgb(0xDC, 0xD7, 0xBA),
            primary: Rgb(0x7E, 0x9C, 0xD8),
            border: Rgb(0x40, 0x40, 0x50),
            accent: Rgb(0xFF, 0x9E, 0x3B),
            warning: Rgb(0xC3, 0x40, 0x43),
            success: Rgb(0x76, 0x94, 0x6A),
            dimmed: Rgb(0x54, 0x54, 0x6D),
            highlight: Rgb(0xFF, 0x9E, 0x3B),
            surface: Rgb(0x25, 0x25, 0x2E),
            on_highlight: Rgb(0x1F, 0x1F, 0x28),
        },
    );
    v.push(
        Theme {
            name: "Everforest",
            background: Rgb(0x2D, 0x35, 0x3B),
            foreground: Rgb(0xD3, 0xC6, 0xAA),
            primary: Rgb(0xA7, 0xC0, 0x80),
            border: Rgb(0x50, 0x58, 0x5E),
            accent: Rgb(0x7F, 0xBB, 0xB3),
            warning: Rgb(0xE6, 0x7E, 0x80),
            success: Rgb(0x83, 0xC0, 0x92),
            dimmed: Rgb(0x5C, 0x6A, 0x72),
            highlight: Rgb(0xDB, 0xBC, 0x7F),
            surface: Rgb(0x33, 0x3C, 0x43),
            on_highlight: Rgb(0x2D, 0x35, 0x3B),
        },
    );
    v.push(
        Theme {
            name: "Dracula",
            background: Rgb(0x28, 0x2A, 0x36),
            foreground: Rgb(0xF8, 0xF8, 0xF2),
            primary: Rgb(0x8B, 0xE9, 0xFD),
            border: Rgb(0x44, 0x46, 0x52),
            accent: Rgb(0xFF, 0x79, 0xC6),
            warning: Rgb(0xFF, 0x55, 0x55),
            success: Rgb(0x50, 0xFA, 0x7B),
            dimmed: Rgb(0x62, 0x72, 0xA4),
            highlight: Rgb(0xBD, 0x93, 0xF9),
            surface: Rgb(0x2E, 0x30, 0x3C),
            on_highlight: Rgb(0x28, 0x2A, 0x36),
        },
    );
    v.push(
        Theme {
            name: "One Dark",
            background: Rgb(0x28, 0x2C, 0x34),
            foreground: Rgb(0xAB, 0xB2, 0xBF),
            primary: Rgb(0x61, 0xAF, 0xEF),
            border: Rgb(0x40, 0x44, 0x4C),
            accent: Rgb(0xE5, 0xC0, 0x7B),
            warning: Rgb(0xE0, 0x6C, 0x75),
            success: Rgb(0x98, 0xC3, 0x79),
            dimmed: Rgb(0x5C, 0x63, 0x70),
            highlight: Rgb(0xC6, 0x78, 0xDD),
            surface: Rgb(0x2E, 0x32, 0x3A),
            on_highlight: Rgb(0x28, 0x2C, 0x34),
        },
    );
    v.push(
        Theme {
            name: "Nightfly",
            background: Rgb(0x01, 0x16, 0x27),
            foreground: Rgb(0xBD, 0xC1, 0xC6),
            primary: Rgb(0x00, 0xA6, 0xF2),
            border: Rgb(0x22, 0x2E, 0x3F),
            accent: Rgb(0xEC, 0xC6, 0x2F),
            warning: Rgb(0xFC, 0x51, 0x4E),
            success: Rgb(0x21, 0xC7, 0xA8),
            dimmed: Rgb(0x44, 0x4A, 0x73),
            highlight: Rgb(0xAE, 0x81, 0xFF),
            surface: Rgb(0x06, 0x1C, 0x2D),
            on_highlight: Rgb(0x01, 0x16, 0x27),
        },
    );
    v.push(
        Theme {
            name: "Advance Ink",
            background: Rgb(0x14, 0x17, 0x1F),
            foreground: Rgb(0xE6, 0xE1, 0xD3),
            primary: Rgb(0xF2, 0xA9, 0x3B),
            border: Rgb(0x2E, 0x34, 0x42),
            accent: Rgb(0xFF, 0xC8, 0x6B),
            warning: Rgb(0xFF, 0x6F, 0x61),
            success: Rgb(0x3F, 0xB8, 0xAF),
            dimmed: Rgb(0x6B, 0x72, 0x80),
            highlight: Rgb(0xFF, 0xD1, 0x80),
            surface: Rgb(0x1C, 0x21, 0x2B),
            on_highlight: Rgb(0x14, 0x17, 0x1F),
        },
    );
    assert(v@ =~= theme_table());
    v
}


/// No two built-in themes share a name, and none has an empty name.
pub proof fn lemma_theme_names()
    ensures
        forall|i: int, j: int|
            0 <= i < j < theme_table().len() ==> (#[trigger] theme_table()[i]).name@ != (#[trigger] theme_table()[j]).name@,
        forall|i: int| 0 <= i < theme_table().len() ==> (#[trigger] theme_table()[i]).name@.len() > 0,
{
    reveal_strlit("Catppuccin Mocha");
    reveal_strlit("Tokyo Night");
    reveal_strlit("Gruvbox Dark");
    reveal_strlit("Nord");
    reveal_strlit("Rose Pine");
    reveal_strlit("Kanagawa");
    reveal_strlit("Everforest");
    reveal_strlit("Dracula");
    reveal_strlit("One Dark");
    reveal_strlit("Nightfly");
    reveal_strlit("Advance Ink");
    let t = theme_table();
    assert forall|i: int, j: int| 0 <= i < j < t.len() implies (#[trigger] t[i]).name@ != (#[trigger] t[j]).name@ by {
        if t[i].name@.len() == t[j].name@.len() {
            assert(t[i].name@[0] != t[j].name@[0]);
        }
    }
}

/// The theme called `name`; "Tokyo Night" when none is.
pub fn get_theme_by_name(name: &str) -> (t: Theme)
    ensures
        forall|i: int| 0 <= i < theme_table().len() && (#[trigger] theme_table()[i]).name@ == name@ ==> t == theme_table()[i],
        (forall|i: int| 0 <= i < theme_table().len() ==> (#[trigger] theme_table()[i]).name@ != name@) ==> t == theme_table()[1],
{
    let themes = get_themes();
    let mut k: usize = 0;
    while k < themes.len()
        invariant
            themes@ == theme_table(),
            k <= themes@.len(),
            forall|i: int| 0 <= i < k ==> (#[trigger] theme_table()[i]).name@ != name@,
        decreases themes@.len() - k,
    {
        if str_eq(themes[k].name, name) {
            proof {
                lemma_theme_names();
                assert forall|i: int|
                    0 <= i < theme_table().len() && (#[trigger] theme_table()[i]).name@ == name@ implies themes@[k as int]
                        == theme_table()[i] by {
                    if i > k {
                        assert(theme_table()[k as int].name@ != theme_table()[i].name@);
                    }
                }
            }
            return themes[k];
        }
        k = k + 1;
    }
    themes[1]
}


/// The default palette is among the built-in themes, under its own name.
pub proof fn lemma_default_theme_listed()
    ensures
        theme_table()[theme_table().len() - 1].name@ == "Advance Ink"@,
{
}

} // verus!
