//! Trimming of ASCII whitespace from both ends of a cell's text.

use vstd::prelude::*;
use vstd::string::StrSliceExecFns;
use vstd::string::StringExecFns;

verus! {

/// An ASCII whitespace character: space, tab, line feed, form feed, or
/// carriage return.
pub open spec fn is_space(c: char) -> bool {
    c == ' ' || c == '\t' || c == '\n' || c == '\u{c}' || c == '\r'
}

/// `s` without its leading whitespace.
pub open spec fn trim_front(s: Seq<char>) -> Seq<char>
    decreases s.len(),
{
    if s.len() > 0 && is_space(s[0]) {
        trim_front(s.drop_first())
    } else {
        s
    }
}

/// `s` without its trailing whitespace.
pub open spec fn trim_back(s: Seq<char>) -> Seq<char>
    decreases s.len(),
{
    if s.len() > 0 && is_space(s.last()) {
        trim_back(s.drop_last())
    } else {
        s
    }
}

/// `s` with ASCII whitespace stripped from both ends.
pub open spec fn trimmed(s: Seq<char>) -> Seq<char> {
    trim_back(trim_front(s))
}

/// Whitespace-only text trims to the empty string.
pub proof fn lemma_trim_all_space(s: Seq<char>)
    requires
        forall|i: int| 0 <= i < s.len() ==> is_space(#[trigger] s[i]),
    ensures
        trimmed(s) =~= Seq::<char>::empty(),
    decreases s.len(),
{
    if s.len() > 0 {
        assert(s.drop_first() =~= s.subrange(1, s.len() as int));
        lemma_trim_all_space(s.drop_first());
    }
}

fn is_space_char(c: char) -> (r: bool)
    ensures
        r == is_space(c),
{
    c == ' ' || c == '\t' || c == '\n' || c == '\u{c}' || c == '\r'
}

/// Strip ASCII whitespace from both ends of `s`.
pub fn trim_ascii(s: &str) -> (r: String)
    ensures
        r@ == trimmed(s@),
{
    let n: usize = s.unicode_len();
    let mut lo: usize = 0;
    proof {
        assert(s@.skip(0) =~= s@);
    }
    loop
        invariant
            n as int == s@.len(),
            0 <= lo <= n,
            trim_front(s@) == trim_front(s@.skip(lo as int)),
        ensures
            lo >= n || !is_space(s@[lo as int]),
        decreases n - lo,
    {
        if lo >= n {
            break;
        }
        let c = s.get_char(lo);
        if !is_space_char(c) {
            break;
        }
        proof {
            assert(s@.skip(lo as int)[0] == s@[lo as int]);
            assert(s@.skip(lo as int).drop_first() =~= s@.skip(lo as int + 1));
        }
        lo = lo + 1;
    }
    if lo >= n {
        proof {
            assert(s@.skip(lo as int) =~= Seq::<char>::empty());
            assert(trim_back(trim_front(s@)) =~= Seq::<char>::empty());
        }
        return String::new();
    }
    // here s@[lo] is not whitespace, so trim_front(s@) == s@.skip(lo)
    proof {
        assert(s@.skip(lo as int).len() > 0);
        assert(s@.skip(lo as int)[0] == s@[lo as int]);
    }
    let mut hi: usize = n;
    proof {
        assert(s@.skip(lo as int) =~= s@.subrange(lo as int, n as int));
    }
    loop
        invariant
            n as int == s@.len(),
            0 <= lo < n,
            lo <= hi <= n,
            trim_front(s@) == s@.skip(lo as int),
            !is_space(s@[lo as int]),
            trimmed(s@) == trim_back(s@.subrange(lo as int, hi as int)),
        ensures
            hi <= lo || !is_space(s@[hi as int - 1]),
        decreases hi - lo,
    {
        if hi <= lo {
            break;
        }
        let c = s.get_char(hi - 1);
        if !is_space_char(c) {
            break;
        }
        proof {
            assert(s@.subrange(lo as int, hi as int).last() == s@[hi as int - 1]);
            assert(s@.subrange(lo as int, hi as int).len() > 0);
            assert(s@.subrange(lo as int, hi as int).drop_last() =~= s@.subrange(
                lo as int,
                hi as int - 1,
            ));
        }
        hi = hi - 1;
    }
    if hi <= lo {
        proof {
            assert(s@.subrange(lo as int, hi as int) =~= Seq::<char>::empty());
        }
        return String::new();
    }
    proof {
        assert(s@.subrange(lo as int, hi as int).last() == s@[hi as int - 1]);
    }
    let piece: &str = s.substring_char(lo, hi);
    String::from_str(piece)
}

/// Whether two string slices hold the same characters.
pub fn str_eq(a: &str, b: &str) -> (r: bool)
    ensures
        r == (a@ == b@),
{
    let na = a.unicode_len();
    let nb = b.unicode_len();
    if na != nb {
        return false;
    }
    let mut i: usize = 0;
    while i < na
        invariant
            na as int == a@.len(),
            nb as int == b@.len(),
            na == nb,
            0 <= i <= na,
            forall|k: int| 0 <= k < i as int ==> a@[k] == b@[k],
        decreases na - i,
    {
        if a.get_char(i) != b.get_char(i) {
            assert(a@[i as int] != b@[i as int]);
            return false;
        }
        i = i + 1;
    }
    proof {
        assert(a@ =~= b@);
    }
    true
}

/// Strip ASCII whitespace from both ends of an owned string's text.
pub fn trim_string(s: &String) -> (r: String)
    ensures
        r@ == trimmed(s@),
{
    trim_ascii(s.as_str())
}

} // verus!
