//! The configuration contract: where the dictionary files live. The
//! loader asks for four lookups; file reading itself stays outside the
//! core.

use vstd::prelude::*;

verus! {

/// A provider of dictionary file locations.
pub trait Configuration {
    /// The main dictionary file.
    fn get_main_dictionary(&self) -> String;

    /// The quantifier dictionary file.
    fn get_quantifier_dictionary(&self) -> String;

    /// The extension dictionary files, merged into the main dictionary.
    fn get_ext_dictionaries(&self) -> Vec<String>;

    /// The stop-word dictionary files, the built-in one first.
    fn get_ext_stop_word_dictionaries(&self) -> Vec<String>;
}

} // verus!
