//! The characters a file is read and written with.

use vstd::prelude::*;

verus! {

/// The ASCII record separator, which files of the ASCII separators put
/// between records.
pub const RECORD_SEPARATOR: char = '\u{1E}';

/// The ASCII unit separator, the field delimiter that goes with it.
pub const UNIT_SEPARATOR: char = '\u{1F}';

/// How fields are separated, quoted, and gathered into records.
///
/// The delimiter and the quote are two different ASCII characters, neither
/// of them a line break.
#[derive(Debug, Clone, Copy, PartialEq, Eq, Structural)]
pub struct Dialect {
    delimiter: char,
    quote: char,
    records: RecordStyle,
}

/// What ends a record.
#[derive(Debug, Clone, Copy, PartialEq, Eq, Structural)]
pub enum RecordStyle {
    /// A line break, as nearly every delimited file does it.
    LineBreak,
    /// The ASCII record separator. Line breaks are then ordinary text.
    RecordSeparator,
}

/// Why two characters do not make a dialect.
#[derive(Debug, Clone, Copy, PartialEq, Eq, Structural)]
pub enum DialectError {
    NotAscii,
    LineBreak,
    SameCharacter,
}

/// Whether a character is a line break as a record ends with one.
pub open spec fn is_line_break(c: char) -> bool {
    c == '\n' || c == '\r'
}

pub open spec fn is_ascii_char(c: char) -> bool {
    (c as u32) < 128
}

/// Why `Dialect::new` refuses two characters, checked in the order it checks
/// them, or nothing when they make a dialect.
pub open spec fn dialect_refusal(delimiter: char, quote: char) -> Option<DialectError> {
    if !is_ascii_char(delimiter) {
        Some(DialectError::NotAscii)
    } else if is_line_break(delimiter) {
        Some(DialectError::LineBreak)
    } else if !is_ascii_char(quote) {
        Some(DialectError::NotAscii)
    } else if is_line_break(quote) {
        Some(DialectError::LineBreak)
    } else if delimiter == quote {
        Some(DialectError::SameCharacter)
    } else {
        None
    }
}

impl Dialect {
    /// The field delimiter.
    pub closed spec fn delimiter_char(self) -> char {
        self.delimiter
    }

    /// The quote character.
    pub closed spec fn quote_char(self) -> char {
        self.quote
    }

    /// What ends a record.
    pub closed spec fn style(self) -> RecordStyle {
        self.records
    }

    /// The two characters are ASCII, differ, and neither is a line break.
    pub open spec fn wf(self) -> bool {
        &&& is_ascii_char(self.delimiter_char())
        &&& is_ascii_char(self.quote_char())
        &&& !is_line_break(self.delimiter_char())
        &&& !is_line_break(self.quote_char())
        &&& self.delimiter_char() != self.quote_char()
        &&& self.style() == RecordStyle::RecordSeparator ==> self.delimiter_char()
            == UNIT_SEPARATOR && self.quote_char() == '"'
    }

    #[verifier::type_invariant]
    closed spec fn inv(self) -> bool {
        self.wf()
    }

    /// Every dialect there is satisfies `wf`.
    pub fn check(&self)
        ensures
            self.wf(),
    {
        proof {
            use_type_invariant(self);
        }
    }

    /// Two dialects are the same exactly when their characters and their
    /// record style are.
    pub broadcast proof fn lemma_eq(a: Self, b: Self)
        ensures
            #![trigger a.delimiter_char(), b.delimiter_char()]
            (a == b) <== (a.delimiter_char() == b.delimiter_char() && a.quote_char()
                == b.quote_char() && a.style() == b.style()),
    {
    }

    /// Whether a character ends a field or a record when a value is written:
    /// exactly the characters a value has to be quoted to contain.
    pub open spec fn spec_is_boundary(self, c: char) -> bool {
        c == self.delimiter_char() || match self.style() {
            RecordStyle::LineBreak => is_line_break(c),
            RecordStyle::RecordSeparator => c == RECORD_SEPARATOR,
        }
    }

    /// The dialect of these two characters, when they make one.
    pub fn new(delimiter: char, quote: char) -> (r: Result<Self, DialectError>)
        ensures
            match dialect_refusal(delimiter, quote) {
                Some(e) => r == Err::<Self, DialectError>(e),
                None => r matches Ok(d) && d.delimiter_char() == delimiter && d.quote_char()
                    == quote && d.style() == RecordStyle::LineBreak,
            },
    {
        let d: u32 = delimiter as u32;
        let q: u32 = quote as u32;
        if d >= 128 {
            return Err(DialectError::NotAscii);
        }
        if delimiter == '\n' || delimiter == '\r' {
            return Err(DialectError::LineBreak);
        }
        if q >= 128 {
            return Err(DialectError::NotAscii);
        }
        if quote == '\n' || quote == '\r' {
            return Err(DialectError::LineBreak);
        }
        if delimiter == quote {
            return Err(DialectError::SameCharacter);
        }
        Ok(Self { delimiter, quote, records: RecordStyle::LineBreak })
    }

    /// The dialect of this delimiter, double quotes and line breaks.
    pub closed spec fn spec_line_break(delimiter: char) -> Self {
        Self { delimiter, quote: '"', records: RecordStyle::LineBreak }
    }

    pub open spec fn spec_comma() -> Self {
        Self::spec_line_break(',')
    }

    pub open spec fn spec_tab() -> Self {
        Self::spec_line_break('\t')
    }

    pub open spec fn spec_semicolon() -> Self {
        Self::spec_line_break(';')
    }

    pub open spec fn spec_pipe() -> Self {
        Self::spec_line_break('|')
    }

    pub closed spec fn spec_unit_separator() -> Self {
        Self { delimiter: UNIT_SEPARATOR, quote: '"', records: RecordStyle::RecordSeparator }
    }

    /// What the named dialects are made of.
    pub proof fn lemma_presets()
        ensures
            forall|c: char|
                #![trigger Self::spec_line_break(c)]
                Self::spec_line_break(c).delimiter_char() == c && Self::spec_line_break(
                    c,
                ).quote_char() == '"' && Self::spec_line_break(c).style()
                    == RecordStyle::LineBreak,
            Self::spec_unit_separator().delimiter_char() == UNIT_SEPARATOR,
            Self::spec_unit_separator().quote_char() == '"',
            Self::spec_unit_separator().style() == RecordStyle::RecordSeparator,
    {
    }

    /// Commas between fields, records on lines of their own.
    pub fn comma() -> (r: Self)
        ensures
            r == Self::spec_comma(),
            r.wf(),
    {
        Self::line_break(',')
    }

    /// Tabs between fields.
    pub fn tab() -> (r: Self)
        ensures
            r == Self::spec_tab(),
            r.wf(),
    {
        Self::line_break('\t')
    }

    /// Semicolons between fields.
    pub fn semicolon() -> (r: Self)
        ensures
            r == Self::spec_semicolon(),
            r.wf(),
    {
        Self::line_break(';')
    }

    /// Pipes between fields.
    pub fn pipe() -> (r: Self)
        ensures
            r == Self::spec_pipe(),
            r.wf(),
    {
        Self::line_break('|')
    }

    /// The ASCII separators: unit separator between fields, record separator
    /// between records.
    pub fn unit_separator() -> (r: Self)
        ensures
            r == Self::spec_unit_separator(),
            r.wf(),
    {
        Self { delimiter: UNIT_SEPARATOR, quote: '"', records: RecordStyle::RecordSeparator }
    }

    fn line_break(delimiter: char) -> (r: Self)
        requires
            is_ascii_char(delimiter),
            !is_line_break(delimiter),
            delimiter != '"',
        ensures
            r == Self::spec_line_break(delimiter),
            r.wf(),
    {
        Self { delimiter, quote: '"', records: RecordStyle::LineBreak }
    }

    /// The field delimiter.
    pub fn delimiter(&self) -> (r: char)
        ensures
            r == self.delimiter_char(),
    {
        self.delimiter
    }

    /// The quote character.
    pub fn quote(&self) -> (r: char)
        ensures
            r == self.quote_char(),
    {
        self.quote
    }

    /// Whether records end with the ASCII record separator rather than a
    /// line break.
    pub fn uses_record_separator(&self) -> (r: bool)
        ensures
            r == (self.style() == RecordStyle::RecordSeparator),
    {
        match self.records {
            RecordStyle::LineBreak => false,
            RecordStyle::RecordSeparator => true,
        }
    }

    /// Whether a character ends a field or a record when a value is written.
    pub fn is_boundary(&self, c: char) -> (r: bool)
        ensures
            r == self.spec_is_boundary(c),
    {
        if c == self.delimiter {
            return true;
        }
        match self.records {
            RecordStyle::LineBreak => c == '\n' || c == '\r',
            RecordStyle::RecordSeparator => c == RECORD_SEPARATOR,
        }
    }

    /// Whether two dialects are the same one.
    pub fn same(&self, other: &Self) -> (r: bool)
        ensures
            r == (*self == *other),
    {
        self.delimiter == other.delimiter && self.quote == other.quote && match (
            self.records,
            other.records,
        ) {
            (RecordStyle::LineBreak, RecordStyle::LineBreak) => true,
            (RecordStyle::RecordSeparator, RecordStyle::RecordSeparator) => true,
            _ => false,
        }
    }
}

impl Default for Dialect {
    fn default() -> (r: Self)
        ensures
            r == Self::spec_comma(),
    {
        Self::comma()
    }
}

impl DialectError {
    /// What the refusal says, to be shown to a person.
    pub fn message(&self) -> (r: &'static str)
        ensures
            r@ == match self {
                DialectError::NotAscii => "the delimiter and quote character must be ASCII"@,
                DialectError::LineBreak => "a line break cannot be used as a delimiter or quote character"@,
                DialectError::SameCharacter => "the delimiter and quote character must differ"@,
            },
    {
        match self {
            DialectError::NotAscii => "the delimiter and quote character must be ASCII",
            DialectError::LineBreak => "a line break cannot be used as a delimiter or quote character",
            DialectError::SameCharacter => "the delimiter and quote character must differ",
        }
    }
}

} // verus!
