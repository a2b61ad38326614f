use vstd::prelude::*;

verus! {

/// How a line is expected to be indented.
#[derive(Debug, Clone, Copy, PartialEq, Eq, Structural)]
pub enum IndentStyle {
    Tabs,
    Spaces,
}

impl Default for IndentStyle {
    fn default() -> (r: Self)
        ensures
            r == IndentStyle::Spaces,
    {
        IndentStyle::Spaces
    }
}

/// Why a source text could not be linted.
#[derive(Debug, Clone, Copy, PartialEq, Eq, Structural)]
pub enum LintError {
    /// The Java grammar could not be loaded.
    Language,
    /// The source text could not be parsed.
    Parse,
}

impl LintError {
    /// The human-readable description of the error.
    pub fn message(&self) -> (r: String)
        ensures
            *self == LintError::Language ==> r@ == "failed to initialize Java language"@,
            *self == LintError::Parse ==> r@ == "failed to parse source"@,
    {
        match self {
            LintError::Language => String::from_str("failed to initialize Java language"),
            LintError::Parse => String::from_str("failed to parse source"),
        }
    }
}

/// Style parameters read by the line-length and indentation rules.
#[derive(Debug, Clone, Copy, PartialEq, Eq, Structural)]
pub struct Config {
    pub indent_style: IndentStyle,
    pub indent_width: u16,
    pub max_line_length: u16,
}

pub const DEFAULT_INDENT_WIDTH: u16 = 4;

pub const DEFAULT_MAX_LINE_LENGTH: u16 = 100;

/// Indentation width used when a configuration does not give one.
pub fn default_indent_width() -> (r: u16)
    ensures
        r == DEFAULT_INDENT_WIDTH,
{
    DEFAULT_INDENT_WIDTH
}

/// Line length budget used when a configuration does not give one.
pub fn default_max_line_length() -> (r: u16)
    ensures
        r == DEFAULT_MAX_LINE_LENGTH,
{
    DEFAULT_MAX_LINE_LENGTH
}

impl Config {
    /// A configuration is usable when its indentation width is positive.
    pub open spec fn wf(&self) -> bool {
        self.indent_width > 0
    }
}

impl Default for Config {
    fn default() -> (r: Self)
        ensures
            r.indent_style == IndentStyle::Spaces,
            r.indent_width == DEFAULT_INDENT_WIDTH,
            r.max_line_length == DEFAULT_MAX_LINE_LENGTH,
            r.wf(),
    {
        Config {
            indent_style: IndentStyle::Spaces,
            indent_width: default_indent_width(),
            max_line_length: default_max_line_length(),
        }
    }
}

} // verus!
