//! Line-based Markdown syntax highlighting for a plain-text editor.
//!
//! `highlight::layout_job` cuts a text into sections, each with a text
//! format of the light or the dark theme. The modules below it, from the
//! bottom up: `scan` (whitespace, runs and substring search over UTF-8
//! bytes), `blocks` (fences, headings, rules, list markers), `inline`
//! (code, bold, italic, links), `style` (colors and formats), `laws`
//! (what holds of every layout), `line_laws` (what each kind of line and
//! inline span becomes) and `compose` (how the layouts of two texts joined
//! by a line break relate).

pub mod blocks;
pub mod compose;
pub mod highlight;
pub mod inline;
pub mod laws;
pub mod line_laws;
pub mod scan;
pub mod style;
