//! Small verified string utilities: equality, membership, and decimal
//! rendering of counters, shared by the runway inventory and the tracker.

use vstd::prelude::*;
use vstd::string::StringExecFns;

verus! {

/// Equality of two string slices, decided at the view level.
pub fn str_eq(a: &str, b: &str) -> (r: bool)
    ensures
        r == (a@ == b@),
{
    let sa = a.to_owned();
    let sb = b.to_owned();
    sa == sb
}

/// Whether some element of `v` has the same text as `s`.
pub fn vec_contains_str(v: &Vec<String>, s: &str) -> (r: bool)
    ensures
        r == (exists|i: int| 0 <= i < v@.len() && v@[i]@ == s@),
{
    let mut i: usize = 0;
    while i < v.len()
        invariant
            0 <= i <= v@.len(),
            forall|j: int| 0 <= j < i ==> v@[j]@ != s@,
        decreases v@.len() - i,
    {
        if str_eq(v[i].as_str(), s) {
            return true;
        }
        i = i + 1;
    }
    false
}

/// The character for one decimal digit.
pub open spec fn dec_digit_char(d: nat) -> char {
    if d == 0 {
        '0'
    } else if d == 1 {
        '1'
    } else if d == 2 {
        '2'
    } else if d == 3 {
        '3'
    } else if d == 4 {
        '4'
    } else if d == 5 {
        '5'
    } else if d == 6 {
        '6'
    } else if d == 7 {
        '7'
    } else if d == 8 {
        '8'
    } else {
        '9'
    }
}

/// The canonical decimal rendering of a natural number (no leading zeros).
pub open spec fn spec_dec(n: nat) -> Seq<char>
    decreases n,
{
    if n < 10 {
        seq![dec_digit_char(n)]
    } else {
        spec_dec(n / 10).push(dec_digit_char(n % 10))
    }
}

/// A decimal rendering is never empty.
pub proof fn lemma_dec_len_pos(n: nat)
    ensures
        spec_dec(n).len() >= 1,
    decreases n,
{
    if n >= 10 {
        lemma_dec_len_pos(n / 10);
    }
}

/// A decimal rendering holds digit characters only; in particular no
/// underscore.
pub proof fn lemma_dec_no_underscore(n: nat)
    ensures
        forall|x: int| 0 <= x < spec_dec(n).len() ==> #[trigger] spec_dec(n)[x] != '_',
    decreases n,
{
    if n < 10 {
        assert(spec_dec(n)[0] == dec_digit_char(n));
        assert(dec_digit_char(n) != '_');
    } else {
        lemma_dec_no_underscore(n / 10);
        assert forall|x: int| 0 <= x < spec_dec(n).len() implies #[trigger] spec_dec(n)[x]
            != '_' by {
            if x < spec_dec(n / 10).len() {
                assert(spec_dec(n)[x] == spec_dec(n / 10)[x]);
            } else {
                assert(spec_dec(n)[x] == dec_digit_char(n % 10));
            }
        }
    }
}

/// Two numbers with the same decimal rendering are the same number.
pub proof fn lemma_dec_injective(m: nat, n: nat)
    requires
        spec_dec(m) == spec_dec(n),
    ensures
        m == n,
    decreases m + n,
{
    lemma_dec_len_pos(m);
    lemma_dec_len_pos(n);
    if m < 10 && n < 10 {
        assert(spec_dec(m)[0] == dec_digit_char(m));
        assert(spec_dec(n)[0] == dec_digit_char(n));
    } else if m < 10 {
        lemma_dec_len_pos(n / 10);
        assert(spec_dec(n).len() >= 2);
        assert(spec_dec(m).len() == 1);
    } else if n < 10 {
        lemma_dec_len_pos(m / 10);
        assert(spec_dec(m).len() >= 2);
        assert(spec_dec(n).len() == 1);
    } else {
        let pm = spec_dec(m / 10);
        let pn = spec_dec(n / 10);
        assert(spec_dec(m).last() == dec_digit_char(m % 10));
        assert(spec_dec(n).last() == dec_digit_char(n % 10));
        assert(dec_digit_char(m % 10) == dec_digit_char(n % 10));
        assert(m % 10 == n % 10);
        assert(spec_dec(m).drop_last() =~= pm);
        assert(spec_dec(n).drop_last() =~= pn);
        lemma_dec_injective(m / 10, n / 10);
    }
}

/// Texts that end in an underscore-separated decimal counter agree on the
/// counter whenever they agree as texts.
pub proof fn lemma_counter_suffix_unique(a: Seq<char>, b: Seq<char>, m: nat, n: nat)
    requires
        a + "_"@ + spec_dec(m) == b + "_"@ + spec_dec(n),
    ensures
        m == n,
{
    reveal_strlit("_");
    lemma_dec_len_pos(m);
    lemma_dec_len_pos(n);
    lemma_dec_no_underscore(m);
    lemma_dec_no_underscore(n);
    let s = a + "_"@ + spec_dec(m);
    let dm = spec_dec(m).len() as int;
    let dn = spec_dec(n).len() as int;
    let len = s.len() as int;
    assert(forall|x: int|
        0 <= x < dm ==> #[trigger] s[len - dm + x] == spec_dec(m)[x]);
    assert(forall|x: int|
        0 <= x < dn ==> #[trigger] s[len - dn + x] == spec_dec(n)[x]);
    assert(s[len - dm - 1] == '_');
    assert(s[len - dn - 1] == '_');
    if dm == dn {
        assert forall|x: int| 0 <= x < dm implies spec_dec(m)[x] == spec_dec(n)[x] by {
            assert(s[len - dm + x] == spec_dec(m)[x]);
            assert(s[len - dn + x] == spec_dec(n)[x]);
        }
        assert(spec_dec(m) =~= spec_dec(n));
        lemma_dec_injective(m, n);
    } else if dm < dn {
        let p = len - dm - 1;
        assert(s[p] == '_');
        assert(s[p] == spec_dec(n)[p - (len - dn)]);
        assert(false);
    } else {
        let p = len - dn - 1;
        assert(s[p] == '_');
        assert(s[p] == spec_dec(m)[p - (len - dm)]);
        assert(false);
    }
}

fn digit_to_str(d: u64) -> (r: &'static str)
    requires
        d < 10,
    ensures
        r@ == seq![dec_digit_char(d as nat)],
{
    if d == 0 {
        proof {
            reveal_strlit("0");
        }
        "0"
    } else if d == 1 {
        proof {
            reveal_strlit("1");
        }
        "1"
    } else if d == 2 {
        proof {
            reveal_strlit("2");
        }
        "2"
    } else if d == 3 {
        proof {
            reveal_strlit("3");
        }
        "3"
    } else if d == 4 {
        proof {
            reveal_strlit("4");
        }
        "4"
    } else if d == 5 {
        proof {
            reveal_strlit("5");
        }
        "5"
    } else if d == 6 {
        proof {
            reveal_strlit("6");
        }
        "6"
    } else if d == 7 {
        proof {
            reveal_strlit("7");
        }
        "7"
    } else if d == 8 {
        proof {
            reveal_strlit("8");
        }
        "8"
    } else {
        proof {
            reveal_strlit("9");
        }
        "9"
    }
}

/// The position of the first element satisfying `p`, or -1.
pub open spec fn find_at<T>(s: Seq<T>, p: spec_fn(T) -> bool) -> int
    decreases s.len(),
{
    if s.len() == 0 {
        -1
    } else if p(s[0]) {
        0
    } else {
        let k = find_at(s.drop_first(), p);
        if k == -1 {
            -1
        } else {
            k + 1
        }
    }
}

/// `find_at` lands on a satisfying element, inside bounds.
pub proof fn lemma_find_at_bounds<T>(s: Seq<T>, p: spec_fn(T) -> bool)
    ensures
        -1 <= find_at(s, p) < s.len(),
        find_at(s, p) >= 0 ==> p(s[find_at(s, p)]),
    decreases s.len(),
{
    if s.len() > 0 && !p(s[0]) {
        lemma_find_at_bounds(s.drop_first(), p);
    }
}

/// A first satisfying position determines `find_at`.
pub proof fn lemma_find_at_is<T>(s: Seq<T>, p: spec_fn(T) -> bool, j: int)
    requires
        0 <= j < s.len(),
        p(s[j]),
        forall|x: int| 0 <= x < j ==> !p(#[trigger] s[x]),
    ensures
        find_at(s, p) == j,
    decreases s.len(),
{
    if j > 0 {
        lemma_find_at_is(s.drop_first(), p, j - 1);
    }
}

/// With no satisfying element, `find_at` is -1.
pub proof fn lemma_find_at_none<T>(s: Seq<T>, p: spec_fn(T) -> bool)
    requires
        forall|x: int| 0 <= x < s.len() ==> !p(#[trigger] s[x]),
    ensures
        find_at(s, p) == -1,
    decreases s.len(),
{
    if s.len() > 0 {
        lemma_find_at_none(s.drop_first(), p);
    }
}

/// Renders `n` in canonical decimal.
pub fn u64_to_string(n: u64) -> (r: String)
    ensures
        r@ == spec_dec(n as nat),
    decreases n,
{
    if n < 10 {
        digit_to_str(n).to_owned()
    } else {
        let mut r = u64_to_string(n / 10);
        r.append(digit_to_str(n % 10));
        assert(r@ =~= spec_dec(n as nat));
        r
    }
}

} // verus!
