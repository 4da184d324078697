//! A file that backs executable mappings, and how what a symbolizer found in
//! it is named.

use vstd::prelude::*;
use vstd::string::*;

verus! {

/// A dynamically shared object, known by its path.
#[derive(Clone, Debug, PartialEq, Eq)]
pub struct Dso {
    path: String,
}

/// The name under which the outcome of a lookup is reported: the symbol's name
/// where one was found, `unknown` where none was.
pub open spec fn reported_name(found: Option<Seq<char>>) -> Seq<char> {
    match found {
        Some(name) => name,
        None => "unknown"@,
    }
}

impl Dso {
    /// The path of the file.
    pub closed spec fn spec_path(&self) -> Seq<char> {
        self.path@
    }

    pub fn new(path: String) -> (res: Dso)
        ensures
            res.spec_path() == path@,
    {
        Dso { path }
    }

    /// The path of the file.
    pub fn path(&self) -> (res: &String)
        ensures
            res@ == self.spec_path(),
    {
        &self.path
    }

    /// Names the outcome of looking one offset up in this file.
    pub fn translate_single(&self, found: Option<String>) -> (res: String)
        ensures
            res@ == reported_name(
                match found {
                    Some(n) => Some(n@),
                    None => None,
                },
            ),
    {
        match found {
            Some(name) => name,
            None => String::from_str("unknown"),
        }
    }

    /// Names the outcomes of looking several offsets up in this file, in their
    /// order.
    pub fn translate(&self, found: Vec<Option<String>>) -> (res: Vec<String>)
        ensures
            res@.len() == found@.len(),
            forall|i: int|
                0 <= i < found@.len() ==> (#[trigger] res@[i])@ == reported_name(
                    match found@[i] {
                        Some(n) => Some(n@),
                        None => None,
                    },
                ),
    {
        let mut names: Vec<String> = Vec::new();
        let mut i: usize = 0;
        while i < found.len()
            invariant
                i <= found@.len(),
                names@.len() == i,
                forall|k: int|
                    0 <= k < i ==> (#[trigger] names@[k])@ == reported_name(
                        match found@[k] {
                            Some(n) => Some(n@),
                            None => None,
                        },
                    ),
            decreases found@.len() - i,
        {
            let name = match &found[i] {
                Some(n) => n.clone(),
                None => String::from_str("unknown"),
            };
            names.push(name);
            i += 1;
        }
        names
    }
}

} // verus!
