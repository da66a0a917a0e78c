//! The character classes of the lexical grammar.
//!
//! Which characters are letters, word characters, digits and white space is
//! decided by the Unicode tables of the `regex` crate. The crate's answers
//! are taken on trust here; everything that is built on them is proved.

use regex::Regex;
use vstd::prelude::*;

verus! {

/// A compiled regular expression of the `regex` crate, opaque to the
/// verifier.
#[verifier::external_type_specification]
#[verifier::external_body]
pub struct ExRegex(Regex);

/// The error with which the `regex` crate refuses a pattern.
#[verifier::external_type_specification]
#[verifier::external_body]
pub struct ExRegexError(regex::Error);

/// Whether a compiled regular expression has a match somewhere in `text`:
/// the answer of `Regex::is_match`.
pub uninterp spec fn accepts(re: Regex, text: Seq<char>) -> bool;

/// Whether the regular expression that `Regex::new` compiles from `pattern`
/// has a match somewhere in `text`.
pub uninterp spec fn pattern_matches(pattern: Seq<char>, text: Seq<char>) -> bool;

/// Whether `Regex::new` compiles `pattern`: it builds with one fixed
/// configuration, so the pattern alone decides.
pub uninterp spec fn pattern_compiles(pattern: Seq<char>) -> bool;

/// `Regex::new`. Whether a pattern compiles is decided by the pattern, and
/// what the regular expression matches is decided by the pattern that it was
/// compiled from. Nothing is claimed about which patterns compile.
#[verifier::external_body]
fn compile(pattern: &str) -> (r: Result<Regex, regex::Error>)
    ensures
        r is Ok <==> pattern_compiles(pattern@),
        r matches Ok(re) ==> forall|text: Seq<char>| #[trigger]
            accepts(re, text) == pattern_matches(pattern@, text),
{
    Regex::new(pattern)
}

/// `Regex::is_match` on the text that consists of `c` alone.
#[verifier::external_body]
fn matches_char(re: &Regex, c: char) -> (b: bool)
    ensures
        b == accepts(*re, seq![c]),
{
    re.is_match(c.encode_utf8(&mut [0u8; 4]))
}

/// The pattern of the characters that may begin a name.
pub open spec fn letter_pattern() -> Seq<char> {
    "\\p{Alphabetic}"@
}

/// The pattern of the characters that may continue a name.
pub open spec fn word_pattern() -> Seq<char> {
    "\\w"@
}

/// The pattern of the characters that numbers are written with.
pub open spec fn digit_pattern() -> Seq<char> {
    "\\d"@
}

/// The pattern of the characters that are not white space.
pub open spec fn solid_pattern() -> Seq<char> {
    "\\S"@
}

/// Whether the patterns of the four character classes compile.
pub open spec fn classes_compile() -> bool {
    &&& pattern_compiles(letter_pattern())
    &&& pattern_compiles(word_pattern())
    &&& pattern_compiles(digit_pattern())
    &&& pattern_compiles(solid_pattern())
}

/// Whether `c` may begin a name: a character with the Unicode property
/// Alphabetic.
pub open spec fn is_letter(c: char) -> bool {
    pattern_matches(letter_pattern(), seq![c])
}

/// Whether `c` may continue a name: a Unicode word character.
pub open spec fn is_word(c: char) -> bool {
    pattern_matches(word_pattern(), seq![c])
}

/// Whether `c` is a Unicode decimal digit.
pub open spec fn is_digit(c: char) -> bool {
    pattern_matches(digit_pattern(), seq![c])
}

/// Whether `c` is anything but white space.
pub open spec fn is_solid(c: char) -> bool {
    pattern_matches(solid_pattern(), seq![c])
}

/// Whether the classes answer about the characters of plain ASCII writing
/// as Unicode has them: small letters are letters and word characters, the
/// ten digits are digits and no letters, the space is nothing at all, and
/// neither the point, the punctuation nor `#` is a letter, a digit or, in
/// the case of `#`, a word character.
pub open spec fn plain_ascii() -> bool {
    &&& forall|c: char| 'a' <= c <= 'z' ==> #[trigger] is_letter(c)
    &&& forall|c: char| 'a' <= c <= 'z' ==> #[trigger] is_word(c)
    &&& forall|c: char| '0' <= c <= '9' ==> #[trigger] is_digit(c)
    &&& forall|c: char| '0' <= c <= '9' ==> !#[trigger] is_letter(c)
    &&& !is_letter(' ') && !is_word(' ') && !is_digit(' ') && !is_solid(' ')
    &&& !is_digit('.')
    &&& !is_letter(';') && !is_digit(';')
    &&& !is_letter('(') && !is_digit('(')
    &&& !is_letter(')') && !is_digit(')')
    &&& !is_letter(',') && !is_digit(',')
    &&& !is_letter('#') && !is_word('#')
}

/// The four character classes, compiled once and then asked about single
/// characters.
pub struct CharClasses {
    letter: Regex,
    word: Regex,
    digit: Regex,
    solid: Regex,
}

impl CharClasses {
    /// What the compiled class of letters answers about `c`.
    pub closed spec fn says_letter(&self, c: char) -> bool {
        accepts(self.letter, seq![c])
    }

    /// What the compiled class of word characters answers about `c`.
    pub closed spec fn says_word(&self, c: char) -> bool {
        accepts(self.word, seq![c])
    }

    /// What the compiled class of digits answers about `c`.
    pub closed spec fn says_digit(&self, c: char) -> bool {
        accepts(self.digit, seq![c])
    }

    /// What the compiled class of visible characters answers about `c`.
    pub closed spec fn says_solid(&self, c: char) -> bool {
        accepts(self.solid, seq![c])
    }

    /// Whether each compiled class answers about every character as its
    /// pattern does.
    pub open spec fn decides(&self) -> bool {
        &&& forall|c: char| #[trigger] self.says_letter(c) == is_letter(c)
        &&& forall|c: char| #[trigger] self.says_word(c) == is_word(c)
        &&& forall|c: char| #[trigger] self.says_digit(c) == is_digit(c)
        &&& forall|c: char| #[trigger] self.says_solid(c) == is_solid(c)
    }

    #[verifier::type_invariant]
    spec fn always_decides(&self) -> bool {
        self.decides()
    }

    /// Compiles the four classes from their patterns. The result is `Some`
    /// exactly if all four patterns compile, and classes that were compiled
    /// answer as their patterns do.
    pub fn new() -> (r: Option<CharClasses>)
        ensures
            r is Some <==> classes_compile(),
            r matches Some(classes) ==> classes.decides(),
    {
        let letter = match compile("\\p{Alphabetic}") {
            Ok(re) => re,
            Err(_) => {
                return None;
            },
        };
        let word = match compile("\\w") {
            Ok(re) => re,
            Err(_) => {
                return None;
            },
        };
        let digit = match compile("\\d") {
            Ok(re) => re,
            Err(_) => {
                return None;
            },
        };
        let solid = match compile("\\S") {
            Ok(re) => re,
            Err(_) => {
                return None;
            },
        };
        Some(CharClasses { letter, word, digit, solid })
    }

    /// Whether `c` may begin a name.
    pub fn letter(&self, c: char) -> (b: bool)
        ensures
            b == self.says_letter(c),
            b == is_letter(c),
    {
        proof {
            use_type_invariant(self);
            assert(self.says_letter(c) == is_letter(c));
        }
        matches_char(&self.letter, c)
    }

    /// Whether `c` may continue a name.
    pub fn word(&self, c: char) -> (b: bool)
        ensures
            b == self.says_word(c),
            b == is_word(c),
    {
        proof {
            use_type_invariant(self);
            assert(self.says_word(c) == is_word(c));
        }
        matches_char(&self.word, c)
    }

    /// Whether `c` is a decimal digit.
    pub fn digit(&self, c: char) -> (b: bool)
        ensures
            b == self.says_digit(c),
            b == is_digit(c),
    {
        proof {
            use_type_invariant(self);
            assert(self.says_digit(c) == is_digit(c));
        }
        matches_char(&self.digit, c)
    }

    /// Whether `c` is anything but white space.
    pub fn solid(&self, c: char) -> (b: bool)
        ensures
            b == self.says_solid(c),
            b == is_solid(c),
    {
        proof {
            use_type_invariant(self);
            assert(self.says_solid(c) == is_solid(c));
        }
        matches_char(&self.solid, c)
    }

    /// Whether the classes answer about the characters of plain ASCII
    /// writing as Unicode has them. Each character concerned is asked.
    pub fn agrees_on_ascii(&self) -> (b: bool)
        ensures
            b == plain_ascii(),
    {
        let mut code: u8 = 97;
        while code <= 122
            invariant
                97 <= code <= 123,
                forall|c: char| 97 <= c as int && (c as int) < code ==> #[trigger] is_letter(c),
                forall|c: char| 97 <= c as int && (c as int) < code ==> #[trigger] is_word(c),
            decreases 123 - code,
        {
            let c = code as char;
            if !self.letter(c) || !self.word(c) {
                return false;
            }
            code = code + 1;
        }
        let mut code: u8 = 48;
        while code <= 57
            invariant
                48 <= code <= 58,
                forall|c: char| 97 <= c as int <= 122 ==> #[trigger] is_letter(c),
                forall|c: char| 97 <= c as int <= 122 ==> #[trigger] is_word(c),
                forall|c: char| 48 <= c as int && (c as int) < code ==> #[trigger] is_digit(c),
                forall|c: char| 48 <= c as int && (c as int) < code ==> !#[trigger] is_letter(c),
            decreases 58 - code,
        {
            let c = code as char;
            if !self.digit(c) || self.letter(c) {
                return false;
            }
            code = code + 1;
        }
        let space = !self.letter(' ') && !self.word(' ') && !self.digit(' ') && !self.solid(' ');
        let point = !self.digit('.');
        let marks = !self.letter(';') && !self.digit(';') && !self.letter('(') && !self.digit('(')
            && !self.letter(')') && !self.digit(')') && !self.letter(',') && !self.digit(',');
        let hash = !self.letter('#') && !self.word('#');
        space && point && marks && hash
    }
}

} // verus!
