//! The kinds of file that hold a scene, and the parts of their text that
//! are whole numbers.

pub mod rt;

use vstd::prelude::*;
use vstd::string::StringExecFns;

verus! {

/// The kind of file that a scene was read from.
#[derive(PartialEq, Eq, Structural, Debug, Clone, Copy)]
pub enum FileType {
    Rt,
    Obj,
    Cbor,
}

impl FileType {
    /// The ending of the names of the files of the kind.
    pub open spec fn spec_extension(&self) -> Seq<char> {
        match self {
            FileType::Rt => "rt"@,
            FileType::Obj => "obj"@,
            FileType::Cbor => "cbor"@,
        }
    }

    /// The kind of the files whose names end so, if there is one.
    pub fn from_extension(extension: &str) -> (r: Option<FileType>)
        ensures
            match r {
                Some(kind) => extension@ == kind.spec_extension(),
                None => forall|kind: FileType| extension@ != #[trigger] kind.spec_extension(),
            },
    {
        let text = String::from_str(extension);
        if text == String::from_str("rt") {
            Some(FileType::Rt)
        } else if text == String::from_str("obj") {
            Some(FileType::Obj)
        } else if text == String::from_str("cbor") {
            Some(FileType::Cbor)
        } else {
            None
        }
    }
}

} // verus!
