//! Byte-level substring matching: the meaning of the store's
//! `LIKE '%term%'` test, stated over the UTF-8 encoding of the texts.

use vstd::prelude::*;
use vstd::string::StrSliceExecFns;
use vstd::string::StringSliceAdditionalSpecFns;

verus! {

/// The needle occurs in the haystack starting at position `i`.
pub open spec fn matches_at(hay: Seq<u8>, needle: Seq<u8>, i: int) -> bool {
    &&& 0 <= i
    &&& i + needle.len() <= hay.len()
    &&& hay.subrange(i, i + needle.len() as int) == needle
}

/// The needle occurs somewhere in the haystack. An empty needle occurs
/// in every haystack, as `LIKE '%%'` matches every text.
pub open spec fn is_substring(needle: Seq<u8>, hay: Seq<u8>) -> bool {
    exists|i: int| matches_at(hay, needle, i)
}

/// The needle occurs in the haystack starting exactly at position `i`.
fn match_at(hay: &Vec<u8>, needle: &Vec<u8>, i: usize) -> (r: bool)
    requires
        i + needle@.len() <= hay@.len(),
    ensures
        r == matches_at(hay@, needle@, i as int),
{
    let n: usize = needle.len();
    let h: usize = hay.len();
    let mut j: usize = 0;
    while j < n
        invariant
            n == needle@.len(),
            h == hay@.len(),
            i + needle@.len() <= hay@.len(),
            j <= needle@.len(),
            forall|k: int| 0 <= k < j ==> hay@[i + k] == #[trigger] needle@[k],
        decreases needle@.len() - j,
    {
        if hay[i + j] != needle[j] {
            proof {
                let sub = hay@.subrange(i as int, i + needle@.len() as int);
                assert(sub[j as int] == hay@[i + j]);
            }
            return false;
        }
        j = j + 1;
    }
    proof {
        assert(hay@.subrange(i as int, i + needle@.len() as int) =~= needle@);
    }
    true
}

/// Whether `needle` occurs in `hay` as a contiguous run of bytes.
pub fn contains_bytes(hay: &Vec<u8>, needle: &Vec<u8>) -> (r: bool)
    ensures
        r == is_substring(needle@, hay@),
{
    if needle.len() > hay.len() {
        return false;
    }
    let bound: usize = hay.len() - needle.len();
    let mut i: usize = 0;
    loop
        invariant
            needle@.len() <= hay@.len(),
            bound == hay@.len() - needle@.len(),
            0 <= i <= bound,
            forall|k: int| 0 <= k < i ==> !matches_at(hay@, needle@, k),
        decreases bound - i,
    {
        if match_at(hay, needle, i) {
            return true;
        }
        if i == bound {
            proof {
                assert forall|k: int| !matches_at(hay@, needle@, k) by {
                    if 0 <= k && k + needle@.len() <= hay@.len() {
                        assert(k <= bound);
                    }
                }
            }
            return false;
        }
        i = i + 1;
    }
}

/// Whether `term` occurs in `text`, compared on their UTF-8 encodings:
/// the store's `LIKE '%term%'` test on one text column.
pub fn str_contains_term(text: &str, term: &str) -> (r: bool)
    ensures
        r == is_substring(term.spec_bytes(), text.spec_bytes()),
{
    let hay = text.as_bytes_vec();
    let needle = term.as_bytes_vec();
    contains_bytes(&hay, &needle)
}

} // verus!
