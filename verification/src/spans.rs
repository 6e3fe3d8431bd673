//! Interpretation of the `colspan`/`rowspan` attribute of a table cell.
//!
//! A missing attribute, a value that is not a string of decimal digits (an
//! optional leading plus sign is accepted, as integer parsing does), the
//! value zero, and a value too large for `usize` all denote a span of one.

use vstd::prelude::*;
use vstd::arithmetic::div_mod::lemma_fundamental_div_mod;
use vstd::string::StrSliceExecFns;

verus! {

/// An ASCII decimal digit.
pub open spec fn is_digit(c: char) -> bool {
    ('0' as int) <= c as int <= ('9' as int)
}

/// The numeric value of one digit.
pub open spec fn digit_val(c: char) -> int {
    c as int - ('0' as int)
}

/// Every character of `s` is an ASCII decimal digit.
pub open spec fn all_digits(s: Seq<char>) -> bool {
    forall|i: int| 0 <= i < s.len() ==> is_digit(#[trigger] s[i])
}

/// The number that `s` writes in decimal, most significant digit first.
pub open spec fn digits_value(s: Seq<char>) -> int
    decreases s.len(),
{
    if s.len() == 0 {
        0
    } else {
        digits_value(s.drop_last()) * 10 + digit_val(s.last())
    }
}

/// View of an optional attribute string.
pub open spec fn opt_view(a: Option<String>) -> Option<Seq<char>> {
    match a {
        Option::Some(s) => Option::Some(s@),
        Option::None => Option::None,
    }
}

/// The digit part of a span value: integer parsing accepts one optional
/// leading plus sign.
pub open spec fn span_digits(s: Seq<char>) -> Seq<char> {
    if s.len() > 0 && s[0] == '+' {
        s.drop_first()
    } else {
        s
    }
}

/// Whether an attribute value is a well-formed span: an optional leading
/// plus sign, then a nonempty digit string whose value is at least one and
/// fits in `usize`.
pub open spec fn valid_span_text(s: Seq<char>) -> bool {
    span_digits(s).len() > 0 && all_digits(span_digits(s)) && 1 <= digits_value(span_digits(s))
        <= usize::MAX as int
}

/// The span that an optional attribute value denotes: its decimal value when
/// that is a positive number representable in `usize`, and one otherwise.
pub open spec fn span_of_attr(attr: Option<Seq<char>>) -> int {
    match attr {
        Option::None => 1,
        Option::Some(s) => if valid_span_text(s) {
            digits_value(span_digits(s))
        } else {
            1
        },
    }
}

pub proof fn lemma_digits_value_nonneg(s: Seq<char>)
    requires
        all_digits(s),
    ensures
        digits_value(s) >= 0,
    decreases s.len(),
{
    if s.len() > 0 {
        assert(all_digits(s.drop_last()));
        lemma_digits_value_nonneg(s.drop_last());
        assert(is_digit(s.last()));
    }
}

/// Parse an optional span attribute, defaulting to one where the attribute is
/// missing, not a digit string, zero, or out of range.
pub fn parse_span(attr: &Option<String>) -> (r: usize)
    ensures
        r as int == span_of_attr(opt_view(*attr)),
        r >= 1,
{
    if attr.is_none() {
        return 1;
    }
    let s: &String = attr.as_ref().unwrap();
    assert(opt_view(*attr) == Option::Some(s@));
    let st: &str = s.as_str();
    let n: usize = st.unicode_len();
    if n == 0 {
        return 1;
    }
    let start: usize = if st.get_char(0) == '+' {
        1
    } else {
        0
    };
    let ghost ds = span_digits(s@);
    proof {
        assert(ds =~= s@.skip(start as int));
    }
    let mut i: usize = start;
    let mut val: usize = 0;
    let mut over: bool = false;
    while i < n
        invariant
            opt_view(*attr) == Option::Some(s@),
            st@ == s@,
            n as int == s@.len(),
            start <= i <= n,
            start <= 1,
            ds == span_digits(s@),
            ds =~= s@.skip(start as int),
            all_digits(ds.take(i as int - start as int)),
            !over ==> val as int == digits_value(ds.take(i as int - start as int)),
            over ==> digits_value(ds.take(i as int - start as int)) > usize::MAX as int,
        decreases n - i,
    {
        let c = st.get_char(i);
        let cv = c as u32;
        proof {
            assert(ds[i as int - start as int] == s@[i as int]);
        }
        if cv < 48 || cv > 57 {
            assert(!is_digit(ds[i as int - start as int]));
            assert(!all_digits(ds));
            return 1;
        }
        let d: usize = (cv - 48) as usize;
        proof {
            assert(ds.take(i as int - start as int + 1).drop_last() =~= ds.take(
                i as int - start as int,
            ));
            assert(ds.take(i as int - start as int + 1).last() == ds[i as int - start as int]);
            assert(is_digit(ds[i as int - start as int]));
            assert(digit_val(ds[i as int - start as int]) == d as int);
        }
        if over {
            proof {
                lemma_digits_value_nonneg(ds.take(i as int - start as int));
                assert(digits_value(ds.take(i as int - start as int + 1)) > usize::MAX as int);
            }
        } else {
            let limit = (usize::MAX - d) / 10;
            proof {
                lemma_fundamental_div_mod(usize::MAX as int - d as int, 10);
            }
            if val > limit {
                proof {
                    assert(10 * (val as int) + d as int > usize::MAX as int);
                    assert(digits_value(ds.take(i as int - start as int + 1)) > usize::MAX as int);
                }
                over = true;
            } else {
                proof {
                    assert(10 * (val as int) + d as int <= usize::MAX as int);
                }
                val = val * 10 + d;
                assert(val as int == digits_value(ds.take(i as int - start as int + 1)));
            }
        }
        i += 1;
    }
    proof {
        assert(ds.take(n as int - start as int) =~= ds);
    }
    if n == start {
        return 1;
    }
    if over {
        1
    } else if val == 0 {
        1
    } else {
        val
    }
}

/// Missing or unusable span attributes behave exactly like the attribute set
/// to the string "1": both denote a span of one.
pub proof fn lemma_default_span(attr: Option<Seq<char>>)
    requires
        match attr {
            Option::None => true,
            Option::Some(s) => !valid_span_text(s),
        },
    ensures
        span_of_attr(attr) == 1,
        span_of_attr(attr) == span_of_attr(Option::Some(seq!['1'])),
{
    let one = seq!['1'];
    assert(span_digits(one) =~= one);
    assert(one.drop_last() =~= Seq::<char>::empty());
    assert(digits_value(one.drop_last()) == 0);
    assert(digit_val(one.last()) == 1);
    assert(digits_value(one) == 1);
    assert(all_digits(one));
}

} // verus!
