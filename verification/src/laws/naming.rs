//! What is cut off texts and off dependency expressions.

use vstd::prelude::*;

use crate::names::{bare_spec, cut_at_ops, is_plain, law_constraints_are_stripped};
use crate::text::{find_spec, is_white, lemma_find_is, lemma_first_exists, occurs, trim_spec};
use crate::text::{trim_end_spec, trim_start_spec};

verus! {

/// The blank, the tab and the ends of lines are white space; what ASCII prints is not.
pub proof fn law_white_space_is_what_it_looks_like(c: char)
    ensures
        c == ' ' || c == '\t' || c == '\n' || c == '\r' ==> is_white(c),
        '!' <= c <= '~' ==> !is_white(c),
{
}

proof fn lemma_trim_start(s: Seq<char>) -> (a: int)
    ensures
        0 <= a <= s.len(),
        trim_start_spec(s) == s.skip(a),
        forall|i: int| 0 <= i < a ==> is_white(#[trigger] s[i]),
        a < s.len() ==> !is_white(s[a]),
    decreases s.len(),
{
    if s.len() > 0 && is_white(s[0]) {
        let d = s.drop_first();
        let b = lemma_trim_start(d);
        assert(d.skip(b) =~= s.skip(b + 1));
        assert forall|i: int| 0 <= i < b + 1 implies is_white(#[trigger] s[i]) by {
            if i > 0 {
                assert(d[i - 1] == s[i]);
            }
        }
        if b + 1 < s.len() {
            assert(d[b] == s[b + 1]);
        }
        b + 1
    } else {
        assert(s.skip(0) =~= s);
        0
    }
}

proof fn lemma_trim_end(s: Seq<char>) -> (b: int)
    ensures
        0 <= b <= s.len(),
        trim_end_spec(s) == s.take(b),
        forall|i: int| b <= i < s.len() ==> is_white(#[trigger] s[i]),
        b > 0 ==> !is_white(s[b - 1]),
    decreases s.len(),
{
    if s.len() > 0 && is_white(s.last()) {
        let d = s.drop_last();
        let b = lemma_trim_end(d);
        assert(d.take(b) =~= s.take(b));
        assert forall|i: int| b <= i < s.len() implies is_white(#[trigger] s[i]) by {
            if i < d.len() {
                assert(d[i] == s[i]);
            }
        }
        b
    } else {
        assert(s.take(s.len() as int) =~= s);
        s.len() as int
    }
}

/// Trimming cuts white space off both ends, all of it and nothing else.
pub proof fn law_trimming_cuts_white_space(s: Seq<char>) -> (cut: (int, int))
    ensures
        0 <= cut.0 <= cut.1 <= s.len(),
        trim_spec(s) == s.subrange(cut.0, cut.1),
        forall|i: int| 0 <= i < cut.0 ==> is_white(#[trigger] s[i]),
        forall|i: int| cut.1 <= i < s.len() ==> is_white(#[trigger] s[i]),
        cut.0 < cut.1 ==> !is_white(s[cut.0]) && !is_white(s[cut.1 - 1]),
{
    let a = lemma_trim_start(s);
    let t = s.skip(a);
    let b = lemma_trim_end(t);
    assert(t.take(b) =~= s.subrange(a, a + b));
    assert forall|i: int| a + b <= i < s.len() implies is_white(#[trigger] s[i]) by {
        assert(t[i - a] == s[i]);
    }
    if b > 0 {
        assert(t[b - 1] == s[a + b - 1]);
        assert(t[0] == s[a]);
    }
    (a, a + b)
}

/// A text without white space at its ends stays as it is.
pub proof fn law_trimmed_texts_stay(s: Seq<char>)
    requires
        s.len() > 0 ==> !is_white(s[0]) && !is_white(s.last()),
    ensures
        trim_spec(s) == s,
{
    let cut = law_trimming_cuts_white_space(s);
    if s.len() > 0 {
        if cut.0 > 0 {
            assert(is_white(s[0]));
        }
        if cut.1 < s.len() {
            assert(is_white(s[s.len() - 1]));
        }
    }
    assert(s.subrange(cut.0, cut.1) =~= s);
}

/// Whichever of the six operators stands between a name and a version, the name is what
/// is left.
pub proof fn law_every_operator_is_known(name: Seq<char>, version: Seq<char>)
    requires
        is_plain(name),
        is_plain(version),
    ensures
        bare_spec(name + ">="@ + version) == trim_spec(name),
        bare_spec(name + "<="@ + version) == trim_spec(name),
        bare_spec(name + "=="@ + version) == trim_spec(name),
        bare_spec(name + ">"@ + version) == trim_spec(name),
        bare_spec(name + "<"@ + version) == trim_spec(name),
        bare_spec(name + "="@ + version) == trim_spec(name),
        bare_spec(name) == trim_spec(name),
{
    law_constraints_are_stripped(name, 0, version);
    law_constraints_are_stripped(name, 1, version);
    law_constraints_are_stripped(name, 2, version);
    law_constraints_are_stripped(name, 3, version);
    law_constraints_are_stripped(name, 4, version);
    law_constraints_are_stripped(name, 5, version);
}

/// What is left of a dependency expression is a trimmed beginning of it, which ends
/// where the text ends or before one of the characters of an operator.
pub proof fn law_a_name_is_how_an_expression_begins(s: Seq<char>) -> (at: int)
    ensures
        0 <= at <= s.len(),
        bare_spec(s) == trim_spec(s.take(at)),
        at < s.len() ==> s[at] == '<' || s[at] == '>' || s[at] == '=',
        at == s.len() ==> is_plain(s),
{
    reveal_strlit(">=");
    reveal_strlit("<=");
    reveal_strlit("==");
    reveal_strlit(">");
    reveal_strlit("<");
    reveal_strlit("=");
    let ops = crate::names::constraint_ops();
    let at = lemma_cut(s, ops);
    if at < s.len() {
        let k = choose|k: int| 0 <= k < ops.len() && #[trigger] crate::text::occurs_at(s, ops[k], at);
        assert(s.subrange(at, at + ops[k].len())[0] == s[at]);
    } else {
        assert forall|i: int| 0 <= i < s.len() implies (#[trigger] s[i]) != '<' && s[i] != '>' && s[i]
            != '=' by {
            assert(!occurs(s, ops[3]) && !occurs(s, ops[4]) && !occurs(s, ops[5]));
            if s[i] == '>' {
                assert(s.subrange(i, i + 1) =~= ">"@);
                assert(crate::text::occurs_at(s, ops[3], i));
            }
            if s[i] == '<' {
                assert(s.subrange(i, i + 1) =~= "<"@);
                assert(crate::text::occurs_at(s, ops[4], i));
            }
            if s[i] == '=' {
                assert(s.subrange(i, i + 1) =~= "="@);
                assert(crate::text::occurs_at(s, ops[5], i));
            }
        }
        assert(s.take(at) =~= s);
    }
    at
}

proof fn lemma_cut(s: Seq<char>, ops: Seq<Seq<char>>) -> (at: int)
    requires
        forall|k: int| 0 <= k < ops.len() ==> (#[trigger] ops[k]).len() > 0,
    ensures
        0 <= at <= s.len(),
        cut_at_ops(s, ops) == trim_spec(s.take(at)),
        at < s.len() ==> exists|k: int|
            0 <= k < ops.len() && #[trigger] crate::text::occurs_at(s, ops[k], at),
        at == s.len() ==> forall|k: int| 0 <= k < ops.len() ==> !occurs(s, #[trigger] ops[k]),
    decreases ops.len(),
{
    if ops.len() == 0 {
        assert(s.take(s.len() as int) =~= s);
        s.len() as int
    } else if occurs(s, ops[0]) {
        let i = lemma_first_exists(s, ops[0]);
        lemma_find_is(s, ops[0], i);
        i
    } else {
        let rest = ops.drop_first();
        assert forall|k: int| 0 <= k < rest.len() implies (#[trigger] rest[k]).len() > 0 by {
            assert(rest[k] == ops[k + 1]);
        }
        let at = lemma_cut(s, rest);
        assert(find_spec(s, ops[0]) is None);
        if at < s.len() {
            let k = choose|k: int|
                0 <= k < rest.len() && #[trigger] crate::text::occurs_at(s, rest[k], at);
            assert(ops[k + 1] == rest[k]);
        } else {
            assert forall|k: int| 0 <= k < ops.len() implies !occurs(s, #[trigger] ops[k]) by {
                if k > 0 {
                    assert(rest[k - 1] == ops[k]);
                }
            }
        }
        at
    }
}

} // verus!
