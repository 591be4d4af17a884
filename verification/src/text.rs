//! Request text normalisation: queue names and delivery ids are trimmed of
//! surrounding whitespace and must not be empty.

use vstd::prelude::*;

verus! {

/// The characters that `char::is_whitespace` accepts: those with the Unicode
/// `White_Space` property.
pub open spec fn is_white_space(c: char) -> bool {
    let n = c as u32;
    ||| 0x9 <= n <= 0xd
    ||| n == 0x20
    ||| n == 0x85
    ||| n == 0xa0
    ||| n == 0x1680
    ||| 0x2000 <= n <= 0x200a
    ||| n == 0x2028
    ||| n == 0x2029
    ||| n == 0x202f
    ||| n == 0x205f
    ||| n == 0x3000
}

/// `s` without its leading whitespace.
pub open spec fn trim_start(s: Seq<char>) -> Seq<char>
    decreases s.len(),
{
    if s.len() > 0 && is_white_space(s[0]) {
        trim_start(s.drop_first())
    } else {
        s
    }
}

/// `s` without its trailing whitespace.
pub open spec fn trim_end(s: Seq<char>) -> Seq<char>
    decreases s.len(),
{
    if s.len() > 0 && is_white_space(s.last()) {
        trim_end(s.drop_last())
    } else {
        s
    }
}

/// `s` without leading and trailing whitespace, as `str::trim` returns it.
pub open spec fn trim(s: Seq<char>) -> Seq<char> {
    trim_end(trim_start(s))
}

/// Neither end of `s` is whitespace.
pub open spec fn is_trimmed(s: Seq<char>) -> bool {
    s.len() > 0 ==> !is_white_space(s[0]) && !is_white_space(s.last())
}

/// What normalisation makes of a queue name or delivery id: the trimmed text,
/// or nothing when only whitespace was given.
pub open spec fn normalized(s: Seq<char>) -> Option<Seq<char>> {
    if trim(s).len() == 0 {
        None
    } else {
        Some(trim(s))
    }
}

/// Why a request was refused.
#[derive(Debug, PartialEq, Eq, Structural)]
pub enum BrokerError {
    /// The queue name is empty once trimmed.
    EmptyQueue,
    /// The delivery id is empty once trimmed.
    EmptyDeliveryId,
}

impl BrokerError {
    /// The text that goes with the refusal.
    pub fn message(&self) -> (r: &'static str)
        ensures
            *self == BrokerError::EmptyQueue ==> r@ == "queue must not be empty"@,
            *self == BrokerError::EmptyDeliveryId ==> r@ == "delivery_id must not be empty"@,
    {
        match self {
            BrokerError::EmptyQueue => "queue must not be empty",
            BrokerError::EmptyDeliveryId => "delivery_id must not be empty",
        }
    }
}

/// `str::trim`, copied into an owned `String`.
/// Claims that the result is `s` with its leading and trailing Unicode
/// whitespace removed, which is what the standard library documents.
#[verifier::external_body]
fn trimmed(s: &str) -> (r: String)
    ensures
        r@ == trim(s@),
{
    s.trim().to_owned()
}

proof fn lemma_trim_start_shape(s: Seq<char>)
    ensures
        is_trimmed_front(trim_start(s)),
        trim_start(s).len() <= s.len(),
        trim_start(s) =~= s.subrange(s.len() - trim_start(s).len(), s.len() as int),
        forall|k: int| 0 <= k < s.len() - trim_start(s).len() ==> is_white_space(#[trigger] s[k]),
    decreases s.len(),
{
    if s.len() > 0 && is_white_space(s[0]) {
        let rest = s.drop_first();
        lemma_trim_start_shape(rest);
        assert forall|k: int| 0 <= k < s.len() - trim_start(s).len() implies is_white_space(
            #[trigger] s[k],
        ) by {
            if k > 0 {
                assert(s[k] == rest[k - 1]);
            }
        }
    }
}

spec fn is_trimmed_front(s: Seq<char>) -> bool {
    s.len() > 0 ==> !is_white_space(s[0])
}

proof fn lemma_trim_end_shape(s: Seq<char>)
    ensures
        trim_end(s).len() <= s.len(),
        trim_end(s) =~= s.subrange(0, trim_end(s).len() as int),
        trim_end(s).len() > 0 ==> !is_white_space(trim_end(s).last()),
        forall|k: int| trim_end(s).len() <= k < s.len() ==> is_white_space(#[trigger] s[k]),
    decreases s.len(),
{
    if s.len() > 0 && is_white_space(s.last()) {
        let rest = s.drop_last();
        lemma_trim_end_shape(rest);
        assert forall|k: int| trim_end(s).len() <= k < s.len() implies is_white_space(
            #[trigger] s[k],
        ) by {
            if k < s.len() - 1 {
                assert(s[k] == rest[k]);
            }
        }
    }
}

/// The result of trimming has no whitespace at either end.
pub proof fn lemma_trim_is_trimmed(s: Seq<char>)
    ensures
        is_trimmed(trim(s)),
{
    let t = trim_start(s);
    lemma_trim_start_shape(s);
    lemma_trim_end_shape(t);
    if trim_end(t).len() > 0 {
        assert(trim_end(t)[0] == t.subrange(0, trim_end(t).len() as int)[0]);
    }
}

/// What normalising keeps of a queue name or delivery id: text made only of
/// whitespace is refused; otherwise the result is the part of the text
/// between its leading and trailing whitespace, unchanged, and it neither
/// starts nor ends with whitespace.
pub proof fn lemma_normalized_shape(s: Seq<char>)
    ensures
        normalized(s) is None <==> forall|i: int| 0 <= i < s.len() ==> is_white_space(#[trigger] s[i]),
        normalized(s) matches Some(t) ==> exists|a: int, b: int|
            {
                &&& 0 <= a < b <= s.len()
                &&& t == s.subrange(a, b)
                &&& forall|i: int| 0 <= i < a ==> is_white_space(#[trigger] s[i])
                &&& forall|i: int| b <= i < s.len() ==> is_white_space(#[trigger] s[i])
                &&& !is_white_space(t[0])
                &&& !is_white_space(t.last())
            },
{
    let u = trim_start(s);
    lemma_trim_start_shape(s);
    lemma_trim_end_shape(u);
    lemma_trim_is_trimmed(s);
    let a = s.len() - u.len();
    let t = trim_end(u);
    let b = a + t.len();
    assert(t =~= s.subrange(a, b));
    assert forall|i: int| b <= i < s.len() implies is_white_space(#[trigger] s[i]) by {
        assert(s[i] == u[i - a]);
    }
    if t.len() == 0 {
        assert forall|i: int| 0 <= i < s.len() implies is_white_space(#[trigger] s[i]) by {}
    } else {
        assert(t[0] == s[a]);
        assert(!(forall|i: int| 0 <= i < s.len() ==> is_white_space(#[trigger] s[i])));
    }
}

/// Text that is already trimmed is left as it is.
pub proof fn lemma_trim_of_trimmed(s: Seq<char>)
    requires
        is_trimmed(s),
    ensures
        trim(s) == s,
{
    assert(trim_start(s) == s);
    assert(trim_end(s) == s);
}

/// Normalising twice gives what normalising once gave: a normalised queue
/// name or delivery id is accepted unchanged.
pub proof fn lemma_normalized_idempotent(s: Seq<char>)
    ensures
        normalized(s) matches Some(t) ==> normalized(t) == Some(t),
{
    lemma_trim_is_trimmed(s);
    lemma_trim_of_trimmed(trim(s));
}

/// Trims a queue name; refuses one that is empty once trimmed.
pub fn normalize_queue(queue: String) -> (r: Result<String, BrokerError>)
    ensures
        match r {
            Ok(q) => normalized(queue@) == Some(q@) && q@ == trim(queue@) && q@.len() > 0,
            Err(e) => normalized(queue@) is None && trim(queue@).len() == 0 && e
                == BrokerError::EmptyQueue,
        },
{
    let q = trimmed(queue.as_str());
    if q.as_str().is_empty() {
        return Err(BrokerError::EmptyQueue);
    }
    Ok(q)
}

/// Trims a delivery id; refuses one that is empty once trimmed.
pub fn normalize_delivery_id(delivery_id: String) -> (r: Result<String, BrokerError>)
    ensures
        match r {
            Ok(d) => normalized(delivery_id@) == Some(d@) && d@ == trim(delivery_id@) && d@.len() > 0,
            Err(e) => normalized(delivery_id@) is None && trim(delivery_id@).len() == 0 && e
                == BrokerError::EmptyDeliveryId,
        },
{
    let d = trimmed(delivery_id.as_str());
    if d.as_str().is_empty() {
        return Err(BrokerError::EmptyDeliveryId);
    }
    Ok(d)
}

} // verus!
