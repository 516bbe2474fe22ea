//! Trusted interface to the `suffix` crate: the generalized suffix table
//! that answers substring-occurrence queries over the corpus.

use crate::model::occurs_at;
use suffix::SuffixTable;
use vstd::prelude::*;
use vstd::string::StringSliceAdditionalSpecFns;
use vstd::utf8::encode_utf8;

verus! {

#[verifier::external_type_specification]
#[verifier::external_body]
pub struct ExSuffixTable<'s, 't>(SuffixTable<'s, 't>);

/// The bytes of the text that a suffix table indexes.
pub uninterp spec fn table_text(t: SuffixTable<'static, 'static>) -> Seq<u8>;

/// Relies on suffix::SuffixTable::new: it builds a suffix table over the
/// given text, which later queries search. It panics on texts of more
/// than u32::MAX bytes, so those are required away.
#[verifier::external_body]
pub(crate) fn table_new(text: String) -> (t: SuffixTable<'static, 'static>)
    requires
        encode_utf8(text@).len() <= u32::MAX,
    ensures
        table_text(t) == encode_utf8(text@),
{
    SuffixTable::new(text)
}

/// Relies on suffix::SuffixTable::positions: it returns, in no
/// particular order and each exactly once, the byte offsets of every
/// occurrence of the pattern in the indexed text, and nothing for an
/// empty pattern.
#[verifier::external_body]
pub(crate) fn table_positions(t: &SuffixTable<'static, 'static>, pattern: &str) -> (r: Vec<u32>)
    ensures
        forall|i: int|
            0 <= i < r@.len() ==> occurs_at(table_text(*t), pattern.spec_bytes(), r@[i] as int),
        pattern.spec_bytes().len() > 0 ==> forall|p: int|
            occurs_at(table_text(*t), pattern.spec_bytes(), p) ==> exists|i: int|
                0 <= i < r@.len() && r@[i] as int == p,
        forall|i: int, j: int| 0 <= i < j < r@.len() ==> r@[i] != r@[j],
{
    t.positions(pattern).to_vec()
}

} // verus!
