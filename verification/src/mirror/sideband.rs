//! Progress lines that a git server sends beside the data.

use vstd::prelude::*;

use crate::text::{from_utf8, skip, take, to_chars, trim, trim_spec};

verus! {

broadcast use vstd::string::group_string_axioms;

/// Whether `c` ends a progress line.
pub open spec fn is_break(c: char) -> bool {
    c == '\r' || c == '\n'
}

/// Where the last progress line of `s` starts.
pub open spec fn last_start(s: Seq<char>) -> int
    decreases s.len(),
{
    if s.len() == 0 || is_break(s.last()) {
        s.len() as int
    } else {
        last_start(s.drop_last())
    }
}

/// The last progress line of `s` that is not blank, trimmed.
pub open spec fn last_line_spec(s: Seq<char>) -> Option<Seq<char>>
    decreases s.len(),
{
    let from = last_start(s);
    let line = trim_spec(s.skip(from));
    if line.len() > 0 {
        Some(line)
    } else if 0 < from <= s.len() {
        last_line_spec(s.take(from - 1))
    } else {
        None
    }
}

/// The last line of a chunk of progress that is not blank, trimmed. A chunk that
/// is no UTF-8 has none.
pub fn last_line(data: &[u8]) -> (r: Option<String>)
    ensures
        crate::text::opt_view(r) == (if vstd::utf8::valid_utf8(data@) {
            last_line_spec(vstd::utf8::decode_utf8(data@))
        } else {
            None
        }),
{
    let mut rest: &str = match from_utf8(data) {
        Ok(s) => s,
        Err(_) => {
            return None;
        },
    };
    let ghost whole = rest@;
    loop
        invariant
            vstd::utf8::valid_utf8(data@),
            whole == vstd::utf8::decode_utf8(data@),
            last_line_spec(rest@) == last_line_spec(whole),
        decreases rest@.len(),
    {
        let cs = to_chars(rest);
        let mut i: usize = cs.len();
        assert(rest@.take(i as int) =~= rest@);
        while i > 0 && cs[i - 1] != '\r' && cs[i - 1] != '\n'
            invariant
                cs@ == rest@,
                i <= cs.len(),
                last_start(rest@.take(i as int)) == last_start(rest@),
            decreases i,
        {
            assert(rest@.take(i as int).drop_last() =~= rest@.take(i as int - 1));
            assert(rest@.take(i as int).last() == rest@[i as int - 1]);
            i = i - 1;
        }
        proof {
            if i > 0 {
                assert(rest@.take(i as int).last() == rest@[i as int - 1]);
            }
            assert(last_start(rest@) == i);
        }
        let line = trim(skip(rest, i));
        if !line.is_empty() {
            return Some(line.to_owned());
        }
        if i == 0 {
            return None;
        }
        rest = take(rest, i - 1);
    }
}

} // verus!
