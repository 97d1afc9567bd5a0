//! The errors of prompt rendering.
use vstd::prelude::*;
use vstd::string::*;

verus! {

/// Why a prompt could not be rendered.
#[derive(Debug)]
pub enum PromptError {
    /// A placeholder names a module that does not exist.
    UnknownModule(String),
    /// A module was given a format it does not know.
    InvalidFormat { module: String, format: String, valid_formats: String },
    /// A placeholder's style string does not parse.
    StyleError { module: String, error: String },
}

/// `e` is the invalid-format error of `module` for `format`, listing `valid`.
pub open spec fn is_invalid_format(
    e: PromptError,
    module: Seq<char>,
    format: Seq<char>,
    valid: Seq<char>,
) -> bool {
    match e {
        PromptError::InvalidFormat { module: m, format: f, valid_formats: v } => m@ == module
            && f@ == format && v@ == valid,
        _ => false,
    }
}

impl Clone for PromptError {
    fn clone(&self) -> (r: PromptError)
        ensures
            r == *self,
    {
        match self {
            PromptError::UnknownModule(m) => PromptError::UnknownModule(m.clone()),
            PromptError::InvalidFormat { module, format, valid_formats } => PromptError::InvalidFormat {
                module: module.clone(),
                format: format.clone(),
                valid_formats: valid_formats.clone(),
            },
            PromptError::StyleError { module, error } => PromptError::StyleError {
                module: module.clone(),
                error: error.clone(),
            },
        }
    }
}

impl PromptError {
    /// The invalid-format error of `module` for `format`.
    pub fn invalid_format(module: &str, format: &str, valid: &str) -> (r: PromptError)
        ensures
            is_invalid_format(r, module@, format@, valid@),
    {
        PromptError::InvalidFormat {
            module: String::from_str(module),
            format: String::from_str(format),
            valid_formats: String::from_str(valid),
        }
    }
}

} // verus!
