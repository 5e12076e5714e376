//! The default configuration: dictionary file names resolved against one
//! root path. Reading the configuration file itself is left to the
//! caller, who hands the fields in.

use vstd::prelude::*;
use crate::configuration::Configuration;

verus! {

/// Dictionary locations, each resolved as `root_path` followed by the
/// stored name.
#[derive(Debug)]
pub struct DefaultConfig {
    pub root_path: String,
    pub main_dict: String,
    pub quantifier_dict: String,
    pub stop_word_dict: String,
    pub ext_dicts: Vec<String>,
    pub ext_stop_word_dicts: Vec<String>,
}

impl DefaultConfig {
    /// A configuration from its parts.
    pub fn new(
        root_path: String,
        main_dict: String,
        quantifier_dict: String,
        stop_word_dict: String,
        ext_dicts: Vec<String>,
        ext_stop_word_dicts: Vec<String>,
    ) -> (r: Self)
        ensures
            r.root_path == root_path,
            r.main_dict == main_dict,
            r.quantifier_dict == quantifier_dict,
            r.stop_word_dict == stop_word_dict,
            r.ext_dicts == ext_dicts,
            r.ext_stop_word_dicts == ext_stop_word_dicts,
    {
        DefaultConfig {
            root_path,
            main_dict,
            quantifier_dict,
            stop_word_dict,
            ext_dicts,
            ext_stop_word_dicts,
        }
    }

    /// `root_path` followed by `name`.
    fn resolve(&self, name: &str) -> (r: String)
        ensures
            r@ == self.root_path@ + name@,
    {
        let root = self.root_path.clone();
        root.concat(name)
    }
}

impl Configuration for DefaultConfig {
    /// The main dictionary file under the root path.
    fn get_main_dictionary(&self) -> (r: String)
        ensures
            r@ == self.root_path@ + self.main_dict@,
    {
        self.resolve(self.main_dict.as_str())
    }

    /// The quantifier dictionary file under the root path.
    fn get_quantifier_dictionary(&self) -> (r: String)
        ensures
            r@ == self.root_path@ + self.quantifier_dict@,
    {
        self.resolve(self.quantifier_dict.as_str())
    }

    /// The extension dictionary files under the root path, in order.
    fn get_ext_dictionaries(&self) -> (r: Vec<String>)
        ensures
            r@.len() == self.ext_dicts@.len(),
            forall|i: int|
                0 <= i < r@.len() ==> (#[trigger] r@[i])@ == self.root_path@
                    + self.ext_dicts@[i]@,
    {
        let mut dicts: Vec<String> = Vec::new();
        let m = self.ext_dicts.len();
        let mut k: usize = 0;
        while k < m
            invariant
                k <= m,
                m == self.ext_dicts@.len(),
                dicts@.len() == k,
                forall|i: int|
                    0 <= i < k ==> (#[trigger] dicts@[i])@ == self.root_path@
                        + self.ext_dicts@[i]@,
            decreases m - k,
        {
            dicts.push(self.resolve(self.ext_dicts[k].as_str()));
            k += 1;
        }
        dicts
    }

    /// The stop-word dictionary files under the root path: the configured
    /// one first, then the extension stop-word files in order.
    fn get_ext_stop_word_dictionaries(&self) -> (r: Vec<String>)
        ensures
            r@.len() == 1 + self.ext_stop_word_dicts@.len(),
            r@[0]@ == self.root_path@ + self.stop_word_dict@,
            forall|i: int|
                0 <= i < self.ext_stop_word_dicts@.len() ==> (#[trigger] r@[i + 1])@
                    == self.root_path@ + self.ext_stop_word_dicts@[i]@,
    {
        let mut dicts: Vec<String> = Vec::new();
        dicts.push(self.resolve(self.stop_word_dict.as_str()));
        let m = self.ext_stop_word_dicts.len();
        let mut k: usize = 0;
        while k < m
            invariant
                k <= m,
                m == self.ext_stop_word_dicts@.len(),
                dicts@.len() == 1 + k,
                dicts@[0]@ == self.root_path@ + self.stop_word_dict@,
                forall|i: int|
                    0 <= i < k ==> (#[trigger] dicts@[i + 1])@ == self.root_path@
                        + self.ext_stop_word_dicts@[i]@,
            decreases m - k,
        {
            dicts.push(self.resolve(self.ext_stop_word_dicts[k].as_str()));
            k += 1;
        }
        dicts
    }
}

} // verus!
