//! The grade that the site gives a pollutant, read from its status word.

use vstd::prelude::*;

verus! {

/// Severity bucket that the site gives a pollutant's current reading.
///
/// Ordered from unknown to worst: `Unknown < Good < Normal < Bad < Critical`.
#[derive(Clone, Copy, Debug, PartialEq, Eq, PartialOrd, Ord, Hash, Structural)]
pub enum Grade {
    Unknown,
    Good,
    Normal,
    Bad,
    Critical,
}

/// The grade named by a status word: the site prefixes each grade's word with
/// its own leading glyph ("좋음", "보통", "나쁨", "매우나쁨").
pub open spec fn grade_of(word: Seq<char>) -> Grade {
    if word.len() == 0 {
        Grade::Unknown
    } else if word[0] == '좋' {
        Grade::Good
    } else if word[0] == '보' {
        Grade::Normal
    } else if word[0] == '나' {
        Grade::Bad
    } else if word[0] == '매' {
        Grade::Critical
    } else {
        Grade::Unknown
    }
}

/// The English name of each grade.
pub open spec fn grade_name(g: Grade) -> Seq<char> {
    match g {
        Grade::Unknown => "None"@,
        Grade::Good => "Good"@,
        Grade::Normal => "Normal"@,
        Grade::Bad => "Bad"@,
        Grade::Critical => "Critical"@,
    }
}

impl Grade {
    /// Classifies a status word by its leading glyph; anything unrecognised,
    /// the empty word included, is `Grade::Unknown`.
    pub fn from_str(s: &str) -> (r: Grade)
        ensures
            r == grade_of(s@),
    {
        if s.unicode_len() == 0 {
            return Grade::Unknown;
        }
        let c = s.get_char(0);
        if c == '좋' {
            Grade::Good
        } else if c == '보' {
            Grade::Normal
        } else if c == '나' {
            Grade::Bad
        } else if c == '매' {
            Grade::Critical
        } else {
            Grade::Unknown
        }
    }

    /// The grade's English name.
    pub fn as_str(&self) -> (r: &'static str)
        ensures
            r@ == grade_name(*self),
    {
        match self {
            Grade::Unknown => "None",
            Grade::Good => "Good",
            Grade::Normal => "Normal",
            Grade::Bad => "Bad",
            Grade::Critical => "Critical",
        }
    }
}

/// Two status words that begin with the same glyph get the same grade,
/// whatever follows it; the empty word has no grade.
pub proof fn lemma_grade_by_leading_glyph(a: Seq<char>, b: Seq<char>)
    requires
        a.len() > 0,
        b.len() > 0,
        a[0] == b[0],
    ensures
        grade_of(a) == grade_of(b),
        grade_of(Seq::<char>::empty()) == Grade::Unknown,
{
}

} // verus!
