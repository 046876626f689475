//! HTTP response validation: distinguishes network-level success (status code)
//! from user-level success (response body free of block/denial markers).

use vstd::prelude::*;

verus! {

/// A needle occurs somewhere inside a haystack of bytes.
pub open spec fn contains_seq(hay: Seq<u8>, needle: Seq<u8>) -> bool {
    exists|i: int|
        0 <= i && i + needle.len() <= hay.len() && #[trigger] hay.subrange(
            i,
            i + needle.len() as int,
        ) == needle
}

/// "blocked"
pub open spec fn pat_blocked() -> Seq<u8> {
    seq![98u8, 108u8, 111u8, 99u8, 107u8, 101u8, 100u8]
}

/// "forbidden"
pub open spec fn pat_forbidden() -> Seq<u8> {
    seq![102u8, 111u8, 114u8, 98u8, 105u8, 100u8, 100u8, 101u8, 110u8]
}

/// "access denied"
pub open spec fn pat_access_denied() -> Seq<u8> {
    seq![97u8, 99u8, 99u8, 101u8, 115u8, 115u8, 32u8, 100u8, 101u8, 110u8, 105u8, 101u8, 100u8]
}

/// "error 403"
pub open spec fn pat_error_403() -> Seq<u8> {
    seq![101u8, 114u8, 114u8, 111u8, 114u8, 32u8, 52u8, 48u8, 51u8]
}

/// "error 404"
pub open spec fn pat_error_404() -> Seq<u8> {
    seq![101u8, 114u8, 114u8, 111u8, 114u8, 32u8, 52u8, 48u8, 52u8]
}

/// The block/denial markers searched for in a lowercased response body.
pub open spec fn spec_error_patterns() -> Seq<Seq<u8>> {
    seq![pat_blocked(), pat_forbidden(), pat_access_denied(), pat_error_403(), pat_error_404()]
}

/// A lowercased body text contains at least one of the error markers.
pub open spec fn has_error_marker(s: Seq<u8>) -> bool {
    exists|k: int| 0 <= k < spec_error_patterns().len() && contains_seq(s, spec_error_patterns()[k])
}

/// What `str::to_lowercase` returns on the lossy UTF-8 decoding of a byte
/// string, re-encoded as UTF-8 bytes: a function of the input bytes alone.
pub uninterp spec fn lower_of(s: Seq<u8>) -> Seq<u8>;

/// Relies on `String::from_utf8_lossy` and `str::to_lowercase`: both are
/// deterministic in their input, and both map an empty input to an empty
/// output.
#[verifier::external_body]
fn lowercase_bytes(body: &[u8]) -> (r: Vec<u8>)
    ensures
        r@ == lower_of(body@),
        body@.len() == 0 ==> r@.len() == 0,
{
    String::from_utf8_lossy(body).to_lowercase().into_bytes()
}

/// The needle matches the haystack at offset `at`.
fn matches_at(hay: &[u8], needle: &[u8], at: usize) -> (r: bool)
    requires
        at + needle@.len() <= hay@.len(),
    ensures
        r == (hay@.subrange(at as int, at + needle@.len() as int) == needle@),
{
    let hay_len = hay.len();
    let mut j: usize = 0;
    while j < needle.len()
        invariant
            at + needle@.len() <= hay@.len(),
            hay@.len() == hay_len,
            0 <= j <= needle@.len(),
            forall|k: int| 0 <= k < j ==> hay@[at + k] == needle@[k],
        decreases needle@.len() - j,
    {
        if hay[at + j] != needle[j] {
            assert(hay@.subrange(at as int, at + needle@.len() as int)[j as int] != needle@[j as int]);
            return false;
        }
        j = j + 1;
    }
    assert(hay@.subrange(at as int, at + needle@.len() as int) =~= needle@);
    true
}

/// Naive substring search over bytes.
fn contains_subseq(hay: &[u8], needle: &[u8]) -> (r: bool)
    ensures
        r == contains_seq(hay@, needle@),
{
    if needle.len() > hay.len() {
        return false;
    }
    if needle.len() == 0 {
        assert(hay@.subrange(0, 0 + needle@.len() as int) =~= needle@);
        return true;
    }
    let hay_len = hay.len();
    let bound = hay.len() - needle.len();
    let mut i: usize = 0;
    while i <= bound
        invariant
            1 <= needle@.len() <= hay@.len(),
            hay@.len() == hay_len,
            bound == hay@.len() - needle@.len(),
            0 <= i <= bound + 1,
            forall|j: int|
                0 <= j < i ==> #[trigger] hay@.subrange(j, j + needle@.len() as int) != needle@,
        decreases bound + 1 - i,
    {
        if matches_at(hay, needle, i) {
            return true;
        }
        i = i + 1;
    }
    false
}

/// The five error markers, as byte strings.
fn error_patterns() -> (ps: Vec<Vec<u8>>)
    ensures
        ps.deep_view() == spec_error_patterns(),
{
    let mut blocked: Vec<u8> = Vec::new();
    blocked.push(98);
    blocked.push(108);
    blocked.push(111);
    blocked.push(99);
    blocked.push(107);
    blocked.push(101);
    blocked.push(100);
    assert(blocked@ =~= pat_blocked());

    let mut forbidden: Vec<u8> = Vec::new();
    forbidden.push(102);
    forbidden.push(111);
    forbidden.push(114);
    forbidden.push(98);
    forbidden.push(105);
    forbidden.push(100);
    forbidden.push(100);
    forbidden.push(101);
    forbidden.push(110);
    assert(forbidden@ =~= pat_forbidden());

    let mut access_denied: Vec<u8> = Vec::new();
    access_denied.push(97);
    access_denied.push(99);
    access_denied.push(99);
    access_denied.push(101);
    access_denied.push(115);
    access_denied.push(115);
    access_denied.push(32);
    access_denied.push(100);
    access_denied.push(101);
    access_denied.push(110);
    access_denied.push(105);
    access_denied.push(101);
    access_denied.push(100);
    assert(access_denied@ =~= pat_access_denied());

    let mut error_403: Vec<u8> = Vec::new();
    error_403.push(101);
    error_403.push(114);
    error_403.push(114);
    error_403.push(111);
    error_403.push(114);
    error_403.push(32);
    error_403.push(52);
    error_403.push(48);
    error_403.push(51);
    assert(error_403@ =~= pat_error_403());

    let mut error_404: Vec<u8> = Vec::new();
    error_404.push(101);
    error_404.push(114);
    error_404.push(114);
    error_404.push(111);
    error_404.push(114);
    error_404.push(32);
    error_404.push(52);
    error_404.push(48);
    error_404.push(52);
    assert(error_404@ =~= pat_error_404());

    let mut ps: Vec<Vec<u8>> = Vec::new();
    ps.push(blocked);
    ps.push(forbidden);
    ps.push(access_denied);
    ps.push(error_403);
    ps.push(error_404);
    assert(ps.deep_view() =~~= spec_error_patterns());
    ps
}

/// Decides, from an already-lowercased body text, whether the content passes
/// validation: true exactly when none of the error markers occurs in it.
pub fn passes_content_check(lowered: &Vec<u8>) -> (r: bool)
    ensures
        r == !has_error_marker(lowered@),
{
    let ps = error_patterns();
    let mut k: usize = 0;
    while k < ps.len()
        invariant
            ps.deep_view() == spec_error_patterns(),
            0 <= k <= ps@.len(),
            forall|j: int| 0 <= j < k ==> !contains_seq(lowered@, spec_error_patterns()[j]),
        decreases ps@.len() - k,
    {
        assert(ps@[k as int]@ == spec_error_patterns()[k as int]);
        if contains_subseq(lowered.as_slice(), ps[k].as_slice()) {
            return false;
        }
        k = k + 1;
    }
    true
}

/// Inspects an HTTP response to tell network success from user success.
pub struct SuccessValidator;

impl SuccessValidator {
    pub fn new() -> (r: Self) {
        SuccessValidator
    }

    /// Network success is a status in [200, 400); user success additionally
    /// needs a non-empty body whose lowercasing carries no error marker.
    pub fn validate_http(&self, status: u16, body: &[u8]) -> (r: (bool, bool))
        ensures
            r.0 == (200 <= status && status < 400),
            r.1 == (200 <= status && status < 400 && body@.len() > 0 && !has_error_marker(
                lower_of(body@),
            )),
    {
        let network_success = 200 <= status && status < 400;
        if !network_success {
            return (false, false);
        }
        if body.len() == 0 {
            return (network_success, false);
        }
        let lowered = lowercase_bytes(body);
        let user_success = passes_content_check(&lowered);
        (network_success, user_success)
    }
}

} // verus!
