//! What the status of an index says of its git revision.

use vstd::prelude::*;
use vstd::string::StringSliceAdditionalSpecFns;
use vstd::utf8::{encode_utf8, is_char_boundary};

verus! {

broadcast use vstd::string::group_string_axioms;

/// How the revision an index was built at compares with the current one.
#[derive(Debug, PartialEq, Eq)]
pub enum HeadStatus {
    /// No revision is known on one side or the other: nothing to report.
    Unknown,
    /// The index was built at the current revision (shortened).
    UpToDate(String),
    /// The index was built at another revision (both shortened).
    Stale { indexed: String, current: String },
}

/// The number of bytes a revision is shortened to.
pub open spec fn short_len(s: &str) -> int {
    if s.len() < 8 {
        s.len() as int
    } else {
        8
    }
}

/// A revision is cut to its first eight bytes, or kept whole when it is
/// shorter.
pub proof fn lemma_short_len(head: &str)
    ensures
        head.len() >= 8 ==> short_len(head) == 8,
        head.len() < 8 ==> short_len(head) == head.len(),
        0 <= short_len(head) <= head.len(),
{
}

/// The first eight bytes of a revision name (all of it when it is
/// shorter). The cut must fall between two characters.
pub fn short_head(head: &str) -> (r: String)
    requires
        is_char_boundary(head.spec_bytes(), short_len(head)),
    ensures
        encode_utf8(r@) == head.spec_bytes().take(short_len(head)),
{
    let n = if head.len() < 8 {
        head.len()
    } else {
        8
    };
    assert(n as int == short_len(head));
    let (prefix, _rest) = head.split_at(n);
    let r = prefix.to_owned();
    assert(head.spec_bytes().take(short_len(head)) =~= head.spec_bytes().subrange(0, n as int));
    r
}


/// Compares the revision an index was built at with the current one.
pub fn head_status(indexed: Option<&str>, current: Option<&str>) -> (r: HeadStatus)
    requires
        indexed matches Some(h) ==> is_char_boundary(h.spec_bytes(), short_len(h)),
        current matches Some(h) ==> is_char_boundary(h.spec_bytes(), short_len(h)),
    ensures
        (indexed is None || current is None) <==> r is Unknown,
        r matches HeadStatus::UpToDate(h) ==> {
            &&& indexed matches Some(i)
            &&& current matches Some(c)
            &&& i@ == c@
            &&& encode_utf8(h@) == i.spec_bytes().take(short_len(i))
        },
        r matches HeadStatus::Stale { indexed: hi, current: hc } ==> {
            &&& indexed matches Some(i)
            &&& current matches Some(c)
            &&& i@ != c@
            &&& encode_utf8(hi@) == i.spec_bytes().take(short_len(i))
            &&& encode_utf8(hc@) == c.spec_bytes().take(short_len(c))
        },
        indexed is Some && current is Some ==> (r is UpToDate <==> indexed->0@ == current->0@),
{
    match (indexed, current) {
        (Some(i), Some(c)) => {
            if str_eq(i, c) {
                HeadStatus::UpToDate(short_head(i))
            } else {
                HeadStatus::Stale { indexed: short_head(i), current: short_head(c) }
            }
        },
        _ => HeadStatus::Unknown,
    }
}

/// Whether two texts are equal.
fn str_eq(a: &str, b: &str) -> (r: bool)
    ensures
        r == (a@ == b@),
{
    let x = a.to_owned();
    let y = b.to_owned();
    x == y
}

} // verus!
