//! A generation's decoded string table. A `name_stridx` only makes sense
//! relative to the string table of the generation that declares it.

use vstd::prelude::*;
use crate::errors::ArchiveError;

verus! {

#[derive(Clone, Debug)]
pub struct StringTable {
    strings: Vec<String>,
}

impl View for StringTable {
    type V = Seq<Seq<char>>;

    closed spec fn view(&self) -> Seq<Seq<char>> {
        self.strings@.map_values(|s: String| s@)
    }
}

impl Default for StringTable {
    /// The empty table.
    fn default() -> (t: StringTable)
        ensures
            t@ == Seq::<Seq<char>>::empty(),
    {
        let t = StringTable { strings: Vec::new() };
        assert(t@ =~= Seq::<Seq<char>>::empty());
        t
    }
}

impl StringTable {
    pub fn new(strings: Vec<String>) -> (t: StringTable)
        ensures
            t@ == strings@.map_values(|s: String| s@),
    {
        StringTable { strings }
    }

    pub fn empty() -> (t: StringTable)
        ensures
            t@ == Seq::<Seq<char>>::empty(),
    {
        StringTable { strings: Vec::new() }
    }

    pub fn len(&self) -> (n: usize)
        ensures
            n == self@.len(),
    {
        self.strings.len()
    }

    pub fn is_empty(&self) -> (b: bool)
        ensures
            b == (self@.len() == 0),
    {
        self.strings.len() == 0
    }

    /// The string at `idx`, or `IndexOutOfBounds` past the end of the table.
    pub fn get(&self, idx: u32) -> (r: Result<&str, ArchiveError>)
        ensures
            idx < self@.len() ==> r is Ok && r->Ok_0@ == self@[idx as int],
            idx >= self@.len() ==> r is Err && r->Err_0 == ArchiveError::IndexOutOfBounds(
                "StringTable index",
            ),
    {
        let i = idx as usize;
        if i < self.strings.len() {
            Ok(self.strings[i].as_str())
        } else {
            Err(ArchiveError::IndexOutOfBounds("StringTable index"))
        }
    }
}

} // verus!
