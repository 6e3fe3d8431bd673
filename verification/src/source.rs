//! Classification of the input source: an `http://` or `https://` URL is
//! fetched over the network, anything else is read as a file path.

use vstd::prelude::*;
use vstd::string::StrSliceExecFns;

verus! {

/// `s` begins with `http://` or `https://`.
pub open spec fn spec_is_url(s: Seq<char>) -> bool {
    ||| (s.len() >= 7 && s[0] == 'h' && s[1] == 't' && s[2] == 't' && s[3] == 'p' && s[4] == ':'
        && s[5] == '/' && s[6] == '/')
    ||| (s.len() >= 8 && s[0] == 'h' && s[1] == 't' && s[2] == 't' && s[3] == 'p' && s[4] == 's'
        && s[5] == ':' && s[6] == '/' && s[7] == '/')
}

/// Whether `source` names a URL to fetch rather than a file to read.
pub fn is_url(source: &str) -> (r: bool)
    ensures
        r == spec_is_url(source@),
{
    let n = source.unicode_len();
    if n < 7 {
        return false;
    }
    if !(source.get_char(0) == 'h' && source.get_char(1) == 't' && source.get_char(2) == 't'
        && source.get_char(3) == 'p') {
        return false;
    }
    if source.get_char(4) == ':' && source.get_char(5) == '/' && source.get_char(6) == '/' {
        return true;
    }
    if n < 8 {
        return false;
    }
    source.get_char(4) == 's' && source.get_char(5) == ':' && source.get_char(6) == '/'
        && source.get_char(7) == '/'
}

} // verus!
