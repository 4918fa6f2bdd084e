//! The identifier rules of the SQL dialect: back-ticks and double quotes
//! delimit identifiers; identifiers hold ASCII letters, digits, `_`, `$` and
//! any character from U+0080 on.
use vstd::prelude::*;

verus! {

/// The SQL dialect with back-tick identifiers.
#[derive(Debug)]
pub struct MySqlDialectWithBackTicks {}

/// Characters that may start an identifier.
pub open spec fn identifier_start(ch: char) -> bool {
    ('a' <= ch && ch <= 'z') || ('A' <= ch && ch <= 'Z') || ch == '_' || ch == '$' || ch >= '\u{0080}'
}

impl MySqlDialectWithBackTicks {
    /// Whether `ch` opens a delimited identifier.
    pub fn is_delimited_identifier_start(&self, ch: char) -> (r: bool)
        ensures
            r == (ch == '"' || ch == '`'),
    {
        ch == '"' || ch == '`'
    }

    /// Whether `ch` may start an identifier.
    pub fn is_identifier_start(&self, ch: char) -> (r: bool)
        ensures
            r == identifier_start(ch),
    {
        ('a' <= ch && ch <= 'z') || ('A' <= ch && ch <= 'Z') || ch == '_' || ch == '$' || ch >= '\u{0080}'
    }

    /// Whether `ch` may continue an identifier.
    pub fn is_identifier_part(&self, ch: char) -> (r: bool)
        ensures
            r == (identifier_start(ch) || ('0' <= ch && ch <= '9')),
    {
        self.is_identifier_start(ch) || ('0' <= ch && ch <= '9')
    }
}

} // verus!
