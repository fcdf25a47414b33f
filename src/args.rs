//! Options that steer counting and reporting.
use vstd::prelude::*;

verus! {

/// Options for displaying the total column in the report.
#[derive(Debug, Clone, Copy, PartialEq, Eq, Structural)]
pub enum TotalColumn {
    /// Display only if there is more than one input in the report.
    Enabled,
    /// Never display.
    Disabled,
    /// Always display.
    Force,
}

impl TotalColumn {
    /// Whether the total column is shown when the report holds `count` inputs.
    pub open spec fn displays(self, count: nat) -> bool {
        match self {
            TotalColumn::Enabled => count > 1,
            TotalColumn::Disabled => false,
            TotalColumn::Force => true,
        }
    }

    /// Returns whether the total column should be displayed, depending on the
    /// number `count` of inputs in the report.
    pub fn should_display(&self, count: usize) -> (r: bool)
        ensures
            r == self.displays(count as nat),
    {
        match self {
            TotalColumn::Enabled => count > 1,
            TotalColumn::Disabled => false,
            TotalColumn::Force => true,
        }
    }
}

/// The families of patterns that a word can be matched by.
#[derive(Debug, Clone, Copy, PartialEq, Eq, Structural)]
pub enum WordRegex {
    /// A letter or digit, then letters, digits, apostrophes and dashes.
    All,
    /// Letters and digits only.
    OnlyAlphanumeric,
    /// Letters only.
    OnlyAlphabetic,
    /// Digits only.
    OnlyNumeric,
    /// Like `All`, but a dash ends the word.
    NoDash,
    /// Like `All`, but an apostrophe ends the word.
    NoApostrophe,
}

/// `p` is the regular expression of one of the word families.
pub open spec fn is_word_regex(p: Seq<char>) -> bool {
    ||| p == WordRegex::All.source()
    ||| p == WordRegex::OnlyAlphanumeric.source()
    ||| p == WordRegex::OnlyAlphabetic.source()
    ||| p == WordRegex::OnlyNumeric.source()
    ||| p == WordRegex::NoDash.source()
    ||| p == WordRegex::NoApostrophe.source()
}

impl WordRegex {
    /// The regular expression of each pattern family.
    pub open spec fn source(self) -> Seq<char> {
        match self {
            WordRegex::All => r"(\p{Alphabetic}|\d)(\p{Alphabetic}|\d|'|-)*"@,
            WordRegex::OnlyAlphanumeric => r"(\p{Alphabetic}|\d)+"@,
            WordRegex::OnlyAlphabetic => r"(\p{Alphabetic})+"@,
            WordRegex::OnlyNumeric => r"(\d)+"@,
            WordRegex::NoDash => r"(\p{Alphabetic}|\d)(\p{Alphabetic}|\d|')*"@,
            WordRegex::NoApostrophe => r"(\p{Alphabetic}|\d)(\p{Alphabetic}|\d|-)*"@,
        }
    }

    /// Returns the regular expression that matches one word of this family.
    pub fn to_regex(self) -> (r: &'static str)
        ensures
            r@ == self.source(),
    {
        match self {
            WordRegex::All => r"(\p{Alphabetic}|\d)(\p{Alphabetic}|\d|'|-)*",
            WordRegex::OnlyAlphanumeric => r"(\p{Alphabetic}|\d)+",
            WordRegex::OnlyAlphabetic => r"(\p{Alphabetic})+",
            WordRegex::OnlyNumeric => r"(\d)+",
            WordRegex::NoDash => r"(\p{Alphabetic}|\d)(\p{Alphabetic}|\d|')*",
            WordRegex::NoApostrophe => r"(\p{Alphabetic}|\d)(\p{Alphabetic}|\d|-)*",
        }
    }
}

/// The settings of one run, as given on the command line.
pub struct Cli {
    /// Inputs that the words are counted from; `-` stands for standard input.
    pub files: Vec<String>,
    /// Fold the text to lower case before counting.
    pub case_insensitive: bool,
    /// Pattern that a word matches.
    pub pattern: WordRegex,
    /// Input that lists the words to leave out of the report.
    pub excluded_words: Option<String>,
    /// Number of rows to show; 0 shows every row.
    pub row_count: usize,
    /// When to show the total column.
    pub display_total: TotalColumn,
    /// Heading of the total column.
    pub total_label: String,
    /// Show the rows in ascending order of count.
    pub reverse: bool,
    /// Stop at the first warning.
    pub werror: bool,
}

} // verus!
