//! Views of collections of strings and byte strings.
use vstd::prelude::*;

verus! {

/// The byte strings that a vector of byte vectors holds.
pub open spec fn rows(v: Seq<Vec<u8>>) -> Seq<Seq<u8>> {
    v.map_values(|row: Vec<u8>| row@)
}

/// The strings that a vector of strings holds.
pub open spec fn strs(v: Seq<String>) -> Seq<Seq<char>> {
    v.map_values(|s: String| s@)
}

pub broadcast proof fn lemma_rows_push(v: Seq<Vec<u8>>, x: Vec<u8>)
    ensures
        #[trigger] rows(v.push(x)) == rows(v).push(x@),
{
    assert(rows(v.push(x)) =~= rows(v).push(x@));
}

pub broadcast proof fn lemma_strs_push(v: Seq<String>, x: String)
    ensures
        #[trigger] strs(v.push(x)) == strs(v).push(x@),
{
    assert(strs(v.push(x)) =~= strs(v).push(x@));
}

} // verus!
