//! Classification of engine errors into the categories a presentation
//! layer reports: client error, not found, or server error.
use vstd::prelude::*;
use vstd::string::*;

verus! {

/// Whether `needle` occurs contiguously somewhere in `hay`.
pub open spec fn spec_contains(hay: Seq<char>, needle: Seq<char>) -> bool {
    exists|k: int| 0 <= k <= hay.len() - needle.len() && #[trigger] hay.subrange(
        k,
        k + needle.len(),
    ) == needle
}

/// Whether the characters of `needle` stand at offset `k` of `hay`.
fn match_at(hay: &str, needle: &str, k: usize) -> (r: bool)
    requires
        k + needle@.len() <= hay@.len(),
    ensures
        r == (hay@.subrange(k as int, k as int + needle@.len() as int) == needle@),
{
    let m = needle.unicode_len();
    let hn = hay.unicode_len();
    let mut j: usize = 0;
    while j < m
        invariant
            j <= m,
            m == needle@.len(),
            hn == hay@.len(),
            k + m <= hay@.len(),
            forall|t: int| 0 <= t < j ==> hay@[k + t] == needle@[t],
        decreases m - j,
    {
        let hc = hay.get_char(k + j);
        let nc = needle.get_char(j);
        if hc != nc {
            proof {
                let sub = hay@.subrange(k as int, k as int + needle@.len() as int);
                assert(sub[j as int] != needle@[j as int]);
            }
            return false;
        }
        j = j + 1;
    }
    proof {
        assert(hay@.subrange(k as int, k as int + needle@.len() as int) =~= needle@);
    }
    true
}

/// Searches `hay` for `needle` at every offset.
fn str_contains(hay: &str, needle: &str) -> (r: bool)
    ensures
        r == spec_contains(hay@, needle@),
{
    let n = hay.unicode_len();
    let m = needle.unicode_len();
    if m > n {
        return false;
    }
    let mut k: usize = 0;
    while k <= n - m
        invariant
            m <= n,
            n == hay@.len(),
            m == needle@.len(),
            k <= n - m + 1,
            m == 0 ==> k == 0,
            forall|k2: int| 0 <= k2 < k ==> #[trigger] hay@.subrange(k2, k2 + m) != needle@,
        decreases n - k,
    {
        if match_at(hay, needle, k) {
            return true;
        }
        proof {
            if m == 0 {
                assert(hay@.subrange(k as int, k as int) =~= needle@);
            }
        }
        k = k + 1;
    }
    false
}

/// The categories a presentation layer reports an engine failure under.
#[derive(Debug, Clone)]
pub enum ApiError {
    BadRequest(String),
    NotFound(String),
    Internal(String),
}

/// Whether an error message describes invalid user input: a malformed
/// address length or a non-hex character.
pub fn matches_invalid_input(err: &str) -> (r: bool)
    ensures
        r == (spec_contains(err@, "Address must"@) || spec_contains(err@, "Invalid hex"@)),
{
    str_contains(err, "Address must") || str_contains(err, "Invalid hex")
}

/// Whether an error message describes an address absent from the store.
pub fn matches_not_found(err: &str) -> (r: bool)
    ensures
        r == spec_contains(err@, "not found in addresses.bin"@),
{
    str_contains(err, "not found in addresses.bin")
}

/// Sorts an engine error message into the category a presentation layer
/// reports: invalid input first, then not-found, and everything else as a
/// server-side failure, always carrying the message through.
pub fn classify_error(err: String) -> (r: ApiError)
    ensures
        (spec_contains(err@, "Address must"@) || spec_contains(err@, "Invalid hex"@)) ==> (r
            matches ApiError::BadRequest(m) && m@ == err@),
        !(spec_contains(err@, "Address must"@) || spec_contains(err@, "Invalid hex"@))
            && spec_contains(err@, "not found in addresses.bin"@) ==> (r
            matches ApiError::NotFound(m) && m@ == err@),
        !(spec_contains(err@, "Address must"@) || spec_contains(err@, "Invalid hex"@))
            && !spec_contains(err@, "not found in addresses.bin"@) ==> (r
            matches ApiError::Internal(m) && m@ == err@),
{
    if matches_invalid_input(err.as_str()) {
        ApiError::BadRequest(err)
    } else if matches_not_found(err.as_str()) {
        ApiError::NotFound(err)
    } else {
        ApiError::Internal(err)
    }
}

} // verus!
