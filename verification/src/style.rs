//! Colors, text formats and the light/dark palettes of the editor view.

use vstd::prelude::*;

verus! {

/// An sRGBA color with premultiplied alpha, one byte per channel.
#[derive(Clone, Copy, Debug, PartialEq, Eq, Structural)]
pub struct Color {
    pub r: u8,
    pub g: u8,
    pub b: u8,
    pub a: u8,
}

impl Color {
    /// Opaque color from red, green and blue.
    pub fn from_rgb(r: u8, g: u8, b: u8) -> (c: Color)
        ensures
            c == (Color { r, g, b, a: 255 }),
    {
        Color { r, g, b, a: 255 }
    }

    /// Opaque gray of lightness `l`.
    pub fn from_gray(l: u8) -> (c: Color)
        ensures
            c == (Color { r: l, g: l, b: l, a: 255 }),
    {
        Color { r: l, g: l, b: l, a: 255 }
    }
}

/// Size of the monospace editor font: the editor's own size, or one point
/// larger for headings.
#[derive(Clone, Copy, Debug, PartialEq, Eq, Structural)]
pub enum FontSize {
    Editor,
    Heading,
}

/// How one run of text is drawn.
#[derive(Clone, Copy, Debug, PartialEq, Eq, Structural)]
pub struct TextFormat {
    pub color: Color,
    pub italics: bool,
    pub size: FontSize,
}

/// The role that the highlighter gives a run of text.
#[derive(Clone, Copy, Debug, PartialEq, Eq, Structural)]
pub enum Style {
    /// Plain text, and the line breaks.
    Text,
    /// A whole ATX heading line.
    Heading,
    /// Fence lines, horizontal rules and list markers.
    Marker,
    /// Fenced code lines and `inline code`.
    Code,
    /// `**bold**`.
    Bold,
    /// `*italic*`.
    Italic,
    /// The `[text]` of a link.
    Link,
    /// The `(url)` of a link.
    Url,
    /// A whole block-quote line.
    Quote,
}

/// The colors of one theme.
#[derive(Clone, Copy, Debug, PartialEq, Eq, Structural)]
pub struct Palette {
    pub text: Color,
    pub heading: Color,
    pub marker: Color,
    pub code: Color,
    pub emphasis: Color,
    pub link: Color,
    pub url: Color,
    pub quote: Color,
}

pub open spec fn rgb(r: u8, g: u8, b: u8) -> Color {
    Color { r, g, b, a: 255 }
}

pub open spec fn gray(l: u8) -> Color {
    Color { r: l, g: l, b: l, a: 255 }
}

/// The dark and the light palette.
pub open spec fn palette_of(dark: bool) -> Palette {
    if dark {
        Palette {
            text: gray(220),
            heading: rgb(120, 180, 255),
            marker: gray(130),
            code: rgb(214, 157, 102),
            emphasis: rgb(235, 219, 178),
            link: rgb(100, 170, 240),
            url: gray(120),
            quote: rgb(140, 170, 140),
        }
    } else {
        Palette {
            text: gray(40),
            heading: rgb(0, 90, 200),
            marker: gray(150),
            code: rgb(160, 80, 20),
            emphasis: rgb(110, 80, 30),
            link: rgb(20, 100, 210),
            url: gray(150),
            quote: rgb(80, 130, 80),
        }
    }
}

/// Plain editor-size text in color `c`.
pub open spec fn plain_format(c: Color) -> TextFormat {
    TextFormat { color: c, italics: false, size: FontSize::Editor }
}

/// Italic editor-size text in color `c`.
pub open spec fn italic_format(c: Color) -> TextFormat {
    TextFormat { color: c, italics: true, size: FontSize::Editor }
}

/// The format that the theme gives each role.
pub open spec fn format_of(style: Style, dark: bool) -> TextFormat {
    let p = palette_of(dark);
    match style {
        Style::Text => plain_format(p.text),
        Style::Heading => TextFormat { color: p.heading, italics: false, size: FontSize::Heading },
        Style::Marker => plain_format(p.marker),
        Style::Code => plain_format(p.code),
        Style::Bold => plain_format(p.emphasis),
        Style::Italic => italic_format(p.emphasis),
        Style::Link => plain_format(p.link),
        Style::Url => plain_format(p.url),
        Style::Quote => italic_format(p.quote),
    }
}

/// The palette of the dark (`true`) or light theme.
pub fn palette(dark: bool) -> (p: Palette)
    ensures
        p == palette_of(dark),
{
    if dark {
        Palette {
            text: Color::from_gray(220),
            heading: Color::from_rgb(120, 180, 255),
            marker: Color::from_gray(130),
            code: Color::from_rgb(214, 157, 102),
            emphasis: Color::from_rgb(235, 219, 178),
            link: Color::from_rgb(100, 170, 240),
            url: Color::from_gray(120),
            quote: Color::from_rgb(140, 170, 140),
        }
    } else {
        Palette {
            text: Color::from_gray(40),
            heading: Color::from_rgb(0, 90, 200),
            marker: Color::from_gray(150),
            code: Color::from_rgb(160, 80, 20),
            emphasis: Color::from_rgb(110, 80, 30),
            link: Color::from_rgb(20, 100, 210),
            url: Color::from_gray(150),
            quote: Color::from_rgb(80, 130, 80),
        }
    }
}

fn fmt(color: Color) -> (f: TextFormat)
    ensures
        f == plain_format(color),
{
    TextFormat { color, italics: false, size: FontSize::Editor }
}

fn fmt_italic(color: Color) -> (f: TextFormat)
    ensures
        f == italic_format(color),
{
    TextFormat { color, italics: true, size: FontSize::Editor }
}

/// The format of a role in the palette `p`.
pub(crate) fn format_in(style: Style, p: &Palette) -> (f: TextFormat)
    ensures
        forall|dark: bool| *p == palette_of(dark) ==> f == format_of(style, dark),
{
    match style {
        Style::Text => fmt(p.text),
        Style::Heading => {
            let mut f = fmt(p.heading);
            f.size = FontSize::Heading;
            f
        },
        Style::Marker => fmt(p.marker),
        Style::Code => fmt(p.code),
        Style::Bold => fmt(p.emphasis),
        Style::Italic => fmt_italic(p.emphasis),
        Style::Link => fmt(p.link),
        Style::Url => fmt(p.url),
        Style::Quote => fmt_italic(p.quote),
    }
}

} // verus!
