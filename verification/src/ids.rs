//! Random identifiers for messages and deliveries.

use vstd::prelude::*;

use crate::text::{is_trimmed, is_white_space, lemma_trim_of_trimmed, normalized};

verus! {

/// A lower-case hexadecimal digit.
pub open spec fn is_lower_hex(c: char) -> bool {
    ('0' <= c && c <= '9') || ('a' <= c && c <= 'f')
}

/// The hyphenated lower-case text form of a UUID, such as
/// `67e55044-10b1-426f-9247-bb680e5fe0c8`.
pub open spec fn is_uuid_text(s: Seq<char>) -> bool {
    &&& s.len() == 36
    &&& forall|i: int|
        0 <= i < 36 ==> if i == 8 || i == 13 || i == 18 || i == 23 {
            #[trigger] s[i] == '-'
        } else {
            is_lower_hex(s[i])
        }
}

/// The text of a version-4 (random) UUID: the version digit at position 14
/// is `4`, and the variant digit at position 19 is one of `8`, `9`, `a`, `b`.
pub open spec fn is_v4_uuid_text(s: Seq<char>) -> bool {
    &&& is_uuid_text(s)
    &&& s[14] == '4'
    &&& (s[19] == '8' || s[19] == '9' || s[19] == 'a' || s[19] == 'b')
}

/// `uuid::Uuid::new_v4`, written out with `to_string`.
/// Claims that the text is the hyphenated lower-case form that the `uuid`
/// crate's `Display` writes: 36 characters, hyphens at positions 8, 13, 18
/// and 23, lower-case hex digits elsewhere; and that `new_v4` fixes the
/// version digit to `4` and the variant digit to one of `8`, `9`, `a`, `b`.
/// The other digits are random, so nothing is claimed about them.
#[verifier::external_body]
fn random_uuid_text() -> (id: String)
    ensures
        is_v4_uuid_text(id@),
{
    uuid::Uuid::new_v4().to_string()
}

/// The text of a UUID is accepted unchanged as a queue name or delivery id.
pub proof fn lemma_uuid_text_normalized(s: Seq<char>)
    requires
        is_uuid_text(s),
    ensures
        normalized(s) == Some(s),
{
    assert(!is_white_space(s[0]));
    assert(!is_white_space(s[35]));
    assert(is_trimmed(s));
    lemma_trim_of_trimmed(s);
}

/// A new random identifier in UUID text form.
pub fn new_id() -> (id: String)
    ensures
        is_v4_uuid_text(id@),
        normalized(id@) == Some(id@),
{
    let id = random_uuid_text();
    proof {
        lemma_uuid_text_normalized(id@);
    }
    id
}

/// `n` new random identifiers in UUID text form.
pub fn new_ids(n: usize) -> (ids: Vec<String>)
    ensures
        ids@.len() == n,
        forall|i: int| 0 <= i < n ==> #[trigger] is_v4_uuid_text(ids@[i]@),
{
    let mut ids: Vec<String> = Vec::new();
    let mut k: usize = 0;
    while k < n
        invariant
            k <= n,
            ids@.len() == k,
            forall|i: int| 0 <= i < k ==> #[trigger] is_v4_uuid_text(ids@[i]@),
        decreases n - k,
    {
        ids.push(new_id());
        k = k + 1;
    }
    ids
}

} // verus!
