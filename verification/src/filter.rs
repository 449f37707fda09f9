//! The document filters that need no numeric threshold.

use vstd::prelude::*;
use vstd::string::StringSliceAdditionalSpecFns;

use crate::quality::{can_tokenize, cleaned_words, split_words, vtext_tokens};
use crate::text::{
    byte_len, find_bytes, first_occurrence, str_len, string_views, trim, trimmed,
};

verus! {

/// Splits the text of a document into words once and keeps them with the
/// document for the filters that follow.
#[derive(Clone, Debug)]
pub struct CacheTokenFilter {
    pub lang: String,
}

/// Drops the words that `CacheTokenFilter` left with the document.
#[derive(Clone, Copy, Debug)]
pub struct UncacheTokenFilter;

/// What the quality filter is started with.
#[derive(Clone, Debug)]
pub struct Args {
    pub input: Vec<String>,
    pub output: String,
    pub threads: usize,
    pub queue_id: Option<String>,
    pub use_redis_task: bool,
    pub no_progress_bar: bool,
}

impl CacheTokenFilter {
    /// The name under which the filter reports.
    pub fn name(&self) -> (n: &'static str)
        ensures
            n@ == "CacheTokenFilter"@,
    {
        "CacheTokenFilter"
    }
}

impl UncacheTokenFilter {
    /// The name under which the filter reports.
    pub fn name(&self) -> (n: &'static str)
        ensures
            n@ == "UncacheTokenFilter"@,
    {
        "UncacheTokenFilter"
    }
}

/// Whether `part` stands somewhere in `text`.
pub open spec fn holds_text(text: &str, part: &str) -> bool {
    first_occurrence(text.spec_bytes(), part.spec_bytes(), 0) >= 0
}

/// Whether `part` stands somewhere in `text`.
pub fn contains(text: &str, part: &str) -> (found: bool)
    ensures
        found == holds_text(text, part),
{
    find_bytes(text.as_bytes(), part.as_bytes(), 0).is_some()
}

/// Whether a line, in lower case, asks the reader to switch on
/// JavaScript: it names it, and says to enable, disable, require or
/// activate it, or speaks of the browser.
pub fn check_javascript(line: &str) -> (found: bool)
    ensures
        found == (holds_text(line, "javascript") && (holds_text(line, "enable") || holds_text(
            line,
            "disable",
        ) || holds_text(line, "require") || holds_text(line, "activate") || holds_text(
            line,
            "browser",
        ))),
{
    contains(line, "javascript") && (contains(line, "enable") || contains(line, "disable")
        || contains(line, "require") || contains(line, "activate") || contains(line, "browser"))
}

/// Whether a line, in lower case, speaks of the terms of a site or of its
/// cookies.
pub fn check_cookie(line: &str) -> (found: bool)
    ensures
        found == (holds_text(line, "terms of use") || holds_text(line, "privacy policy")
            || holds_text(line, "cookie policy") || holds_text(line, "uses cookies") || holds_text(
            line,
            "use of cookies",
        ) || holds_text(line, "use cookies")),
{
    contains(line, "terms of use") || contains(line, "privacy policy") || contains(
        line,
        "cookie policy",
    ) || contains(line, "uses cookies") || contains(line, "use of cookies") || contains(
        line,
        "use cookies",
    )
}

/// What `CacheTokenFilter` makes of a document.
#[derive(Debug)]
pub struct TokenCache {
    /// Whether the document goes on to the next filter.
    pub keep: bool,
    /// The words to keep with the document, where they change.
    pub words: Option<Vec<String>>,
}

/// The longest text, in bytes, that may fail to split without a trace.
pub const LONG_TEXT_BYTES: usize = 1000;

impl CacheTokenFilter {
    /// Splits the text of a document into words, to keep them with the
    /// document. A document without text, or with a text of white space
    /// only, is dropped and left as it is. Where the text splits, the words
    /// are kept: those that the document held already, or the tokens of
    /// the text, white space trimmed. Where it does not, the document is
    /// dropped, and a long text gets an empty list of words.
    pub fn filter(&self, text: Option<&str>, cached: Option<&Vec<String>>) -> (r: TokenCache)
        ensures
            match text {
                None => !r.keep && r.words is None,
                Some(t) => if trimmed(t@).len() == 0 {
                    !r.keep && r.words is None
                } else {
                    let held = match cached {
                        Some(words) => string_views(words@),
                        None => Seq::empty(),
                    };
                    let tokens = if held.len() > 0 {
                        Some(held)
                    } else if !can_tokenize(self.lang@, trimmed(t@)) {
                        None
                    } else {
                        vtext_tokens(self.lang@, trimmed(t@))
                    };
                    match tokens {
                        Some(found) => r.keep && (r.words matches Some(w) && string_views(w@)
                            == cleaned_words(found, false, true)),
                        None => !r.keep && if byte_len(trimmed(t@)) > LONG_TEXT_BYTES {
                            r.words matches Some(w) && w@.len() == 0
                        } else {
                            r.words is None
                        },
                    }
                },
            },
    {
        let text: &str = match text {
            Some(t) => trim(t),
            None => {
                return TokenCache { keep: false, words: None };
            },
        };
        if text.is_empty() {
            return TokenCache { keep: false, words: None };
        }
        match split_words(text, cached, self.lang.as_str(), false, true) {
            Ok(words) => TokenCache { keep: true, words: Some(words) },
            Err(_) => {
                if str_len(text) > LONG_TEXT_BYTES {
                    TokenCache { keep: false, words: Some(Vec::new()) }
                } else {
                    TokenCache { keep: false, words: None }
                }
            },
        }
    }
}

impl UncacheTokenFilter {
    /// Lets every document pass; the words kept with it are dropped.
    pub fn filter(&self) -> (keep: bool)
        ensures
            keep,
    {
        true
    }
}

} // verus!
