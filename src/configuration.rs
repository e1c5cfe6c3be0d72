//! The settings of a run, and the rules by which the command-line arguments
//! set them, one argument at a time.

use crate::runner::{byte_len, byte_length};
use crate::{Error, Options};
use vstd::prelude::*;
use vstd::string::StringExecFns;

verus! {

/// What a run works with: the ordering policy, the optional required letter,
/// the rack and the dictionary's name.
#[derive(Debug, PartialEq)]
pub struct Config {
    pub options: Options,
    pub require_letter: bool,
    pub letter: char,
    pub letters: String,
    pub dictionary: String,
}

/// The settings of a `Config` as plain values.
pub struct ConfigView {
    pub options: Options,
    pub require_letter: bool,
    pub letter: char,
    pub letters: Seq<char>,
    pub dictionary: Seq<char>,
}

impl View for Config {
    type V = ConfigView;

    open spec fn view(&self) -> ConfigView {
        ConfigView {
            options: self.options,
            require_letter: self.require_letter,
            letter: self.letter,
            letters: self.letters@,
            dictionary: self.dictionary@,
        }
    }
}

/// What the caller does once an argument has been taken.
#[derive(Debug, PartialEq)]
pub enum Step {
    /// Go on with the next argument.
    Next,
    /// The argument named the dictionary: check that the file opens, and fail
    /// with `Error::FileIO` when it does not; then go on.
    OpenDictionary,
    /// Stop: the arguments are refused with this error.
    Fail(Error),
}

/// Whether `c` is alphabetic in Unicode's sense.
pub uninterp spec fn alphabetic(c: char) -> bool;

/// Relies on `char::is_alphabetic`: the answer depends on the character alone.
#[verifier::external_body]
fn is_alphabetic(c: char) -> (r: bool)
    ensures
        r == alphabetic(c),
{
    c.is_alphabetic()
}

/// Every character of `a` is alphabetic.
pub open spec fn all_alphabetic(a: Seq<char>) -> bool {
    forall|k: int| 0 <= k < a.len() ==> alphabetic(#[trigger] a[k])
}

/// The settings with another policy.
pub open spec fn with_options(c: ConfigView, o: Options) -> ConfigView {
    ConfigView {
        options: o,
        require_letter: c.require_letter,
        letter: c.letter,
        letters: c.letters,
        dictionary: c.dictionary,
    }
}

/// How one argument `a` (not empty) changes the settings `c`, and what the
/// caller does next. While no rack has been given, an argument that starts
/// with '-' must be an option: one of the three policies, at most one of them,
/// or "-include", which asks for a required letter. The argument after
/// "-include" is that letter: one alphabetic byte. Then comes the rack: at
/// least three bytes, all alphabetic. Then the dictionary's name; after it
/// nothing more.
pub open spec fn after_arg(c: ConfigView, a: Seq<char>) -> (ConfigView, Step) {
    if a[0] == '-' && c.letters.len() == 0 {
        if a == "-alpha"@ && c.options == Options::ScanOrder {
            (with_options(c, Options::Alpha), Step::Next)
        } else if a == "-len"@ && c.options == Options::ScanOrder {
            (with_options(c, Options::Len), Step::Next)
        } else if a == "-longest"@ && c.options == Options::ScanOrder {
            (with_options(c, Options::Longest), Step::Next)
        } else if a == "-include"@ {
            (
                ConfigView {
                    options: c.options,
                    require_letter: true,
                    letter: c.letter,
                    letters: c.letters,
                    dictionary: c.dictionary,
                },
                Step::Next,
            )
        } else {
            (c, Step::Fail(Error::Usage))
        }
    } else if c.require_letter && c.letter == '\0' {
        if byte_len(a) < 2 && alphabetic(a[0]) {
            (
                ConfigView {
                    options: c.options,
                    require_letter: c.require_letter,
                    letter: a[0],
                    letters: c.letters,
                    dictionary: c.dictionary,
                },
                Step::Next,
            )
        } else {
            (c, Step::Fail(Error::Usage))
        }
    } else if c.letters.len() == 0 {
        let d = ConfigView {
            options: c.options,
            require_letter: c.require_letter,
            letter: c.letter,
            letters: a,
            dictionary: c.dictionary,
        };
        if byte_len(a) < 3 {
            (d, Step::Fail(Error::LettersLength))
        } else if !all_alphabetic(a) {
            (d, Step::Fail(Error::LettersContainsNumerics))
        } else {
            (d, Step::Next)
        }
    } else if c.dictionary.len() == 0 {
        (
            ConfigView {
                options: c.options,
                require_letter: c.require_letter,
                letter: c.letter,
                letters: c.letters,
                dictionary: a,
            },
            Step::OpenDictionary,
        )
    } else {
        (c, Step::Fail(Error::Usage))
    }
}

/// Whether every character of `a` is alphabetic.
fn is_all_alphabetic(a: &String) -> (r: bool)
    ensures
        r == all_alphabetic(a@),
{
    for c in it: a.as_str().chars()
        invariant
            it.seq() == a@,
            forall|k: int| 0 <= k < it.index() ==> alphabetic(#[trigger] a@[k]),
    {
        if !is_alphabetic(c) {
            assert(!alphabetic(a@[it.index() as int]));
            return false;
        }
    }
    true
}

/// Whether `a` reads exactly `lit`.
fn text_is(a: &String, lit: &str) -> (r: bool)
    ensures
        r == (a@ == lit@),
{
    *a == String::from_str(lit)
}

impl Config {
    /// The settings before any argument: no policy, no required letter, no
    /// rack and no dictionary.
    pub fn new() -> (r: Config)
        ensures
            r@.options == Options::ScanOrder,
            !r@.require_letter,
            r@.letter == '\0',
            r@.letters.len() == 0,
            r@.dictionary.len() == 0,
    {
        Config {
            options: Options::ScanOrder,
            require_letter: false,
            letter: '\0',
            letters: String::new(),
            dictionary: String::new(),
        }
    }

    /// Takes one command-line argument (the program's name excluded).
    pub fn take_arg(&mut self, arg: &String) -> (r: Step)
        requires
            arg@.len() > 0,
        ensures
            (final(self)@, r) == after_arg(old(self)@, arg@),
    {
        let first_char = arg.as_str().get_char(0);
        if first_char == '-' && self.letters.as_str().is_empty() {
            if text_is(arg, "-alpha") && self.options == Options::ScanOrder {
                self.options = Options::Alpha;
                return Step::Next;
            } else if text_is(arg, "-len") && self.options == Options::ScanOrder {
                self.options = Options::Len;
                return Step::Next;
            } else if text_is(arg, "-longest") && self.options == Options::ScanOrder {
                self.options = Options::Longest;
                return Step::Next;
            } else if text_is(arg, "-include") {
                self.require_letter = true;
                return Step::Next;
            }
            return Step::Fail(Error::Usage);
        }
        if self.require_letter && self.letter == '\0' {
            if byte_length(arg) < 2 && is_alphabetic(first_char) {
                self.letter = first_char;
                return Step::Next;
            }
            return Step::Fail(Error::Usage);
        }
        if self.letters.as_str().is_empty() {
            self.letters = arg.clone();
            if byte_length(arg) < 3 {
                return Step::Fail(Error::LettersLength);
            }
            if !is_all_alphabetic(arg) {
                return Step::Fail(Error::LettersContainsNumerics);
            }
            return Step::Next;
        }
        if self.dictionary.as_str().is_empty() {
            self.dictionary = arg.clone();
            return Step::OpenDictionary;
        }
        Step::Fail(Error::Usage)
    }

    /// Ends the arguments: the settings are complete once a rack was given.
    pub fn finish(self) -> (r: Result<Config, Error>)
        ensures
            self@.letters.len() == 0 ==> r == Err::<Config, Error>(Error::Usage),
            self@.letters.len() > 0 ==> r == Ok::<Config, Error>(self),
    {
        if self.letters.as_str().is_empty() {
            Err(Error::Usage)
        } else {
            Ok(self)
        }
    }
}

} // verus!
