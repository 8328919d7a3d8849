//! Files: numbered lists of values that EXAs carry and leave in hosts.

use vstd::prelude::*;

verus! {

#[derive(Debug, PartialEq, Eq)]
pub struct File {
    pub id: i32,
    pub contents: Vec<i32>,
}

#[verifier::ext_equal]
pub struct SpecFile {
    pub id: i32,
    pub contents: Seq<i32>,
}

impl View for File {
    type V = SpecFile;

    open spec fn view(&self) -> SpecFile {
        SpecFile { id: self.id, contents: self.contents@ }
    }
}

/// The models of a list of files.
pub open spec fn files_view(v: Seq<File>) -> Seq<SpecFile> {
    v.map_values(|f: File| f@)
}

impl File {
    pub fn new(id: i32, contents: Vec<i32>) -> (f: File)
        ensures
            f@ == (SpecFile { id, contents: contents@ }),
    {
        File { id, contents }
    }
}

} // verus!
