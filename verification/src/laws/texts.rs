//! How texts come apart and are put together.

use vstd::prelude::*;

use crate::text::{
    chomp, dec, dec_int, digits_value, join_spec, lines_spec, pad_spec, parse_i64_spec,
    parse_u64_spec, split_spec, trim_end_char_spec, Align,
};

verus! {

/// `c` does not stand in `s`.
pub open spec fn is_without(s: Seq<char>, c: char) -> bool {
    forall|i: int| 0 <= i < s.len() ==> #[trigger] s[i] != c
}

/// A text without the separator is one piece. A separator ends the first piece, and what
/// stands behind it comes apart by itself.
pub proof fn law_separators_end_pieces(p: Seq<char>, c: char, rest: Seq<char>)
    requires
        is_without(p, c),
    ensures
        split_spec(p, c) == seq![p],
        split_spec(p + seq![c] + rest, c) == seq![p] + split_spec(rest, c),
    decreases p.len() + rest.len(),
{
    if p.len() > 0 {
        let q = p.drop_last();
        assert(is_without(q, c)) by {
            assert forall|i: int| 0 <= i < q.len() implies #[trigger] q[i] != c by {
                assert(q[i] == p[i]);
            }
        }
        law_separators_end_pieces(q, c, Seq::empty());
        assert(p.last() != c);
        assert(q.push(p.last()) =~= p);
        assert(split_spec(p, c) =~= seq![p]);
    } else {
        assert(split_spec(p, c) =~= seq![p]);
    }
    let s = p + seq![c] + rest;
    if rest.len() == 0 {
        assert(s.drop_last() =~= p);
        assert(s.last() == c);
        assert(rest =~= Seq::empty());
        assert(split_spec(s, c) =~= seq![p] + split_spec(rest, c));
    } else {
        let r = rest.drop_last();
        law_separators_end_pieces(p, c, r);
        assert(s.drop_last() =~= p + seq![c] + r);
        assert(s.last() == rest.last());
        crate::text::lemma_split_nonempty(r, c);
        let before = split_spec(r, c);
        if rest.last() == c {
            assert((seq![p] + before).push(Seq::empty()) =~= seq![p] + before.push(Seq::empty()));
        } else {
            let all = seq![p] + before;
            assert(all.last() == before.last());
            assert(all.update(all.len() - 1, all.last().push(rest.last())) =~= seq![p]
                + before.update(before.len() - 1, before.last().push(rest.last())));
        }
    }
}

/// A line feed ends a line, which a carriage return before it does not belong to; what
/// stands behind it is read by itself. What stands before no line feed is a line as it
/// is, unless it is empty.
pub proof fn law_line_feeds_end_lines(p: Seq<char>, rest: Seq<char>)
    requires
        is_without(p, '\n'),
    ensures
        lines_spec(p + seq!['\n'] + rest) == seq![
            if p.len() > 0 && p.last() == '\r' {
                p.drop_last()
            } else {
                p
            },
        ] + lines_spec(rest),
        p.len() > 0 ==> lines_spec(p) == seq![p],
        lines_spec(Seq::empty()) == Seq::<Seq<char>>::empty(),
{
    let none = Seq::<char>::empty();
    law_separators_end_pieces(p, '\n', rest);
    law_separators_end_pieces(none, '\n', none);
    crate::text::lemma_split_nonempty(rest, '\n');
    assert(lines_spec(none) =~= Seq::<Seq<char>>::empty());
    if p.len() > 0 {
        assert(lines_spec(p) =~= seq![p]);
    }
    let pieces = split_spec(rest, '\n');
    let all = seq![p] + pieces;
    assert(all.drop_last() =~= seq![p] + pieces.drop_last());
    assert(all.last() == pieces.last());
    let f = |l: Seq<char>| chomp(l);
    assert(all.drop_last().map_values(f) =~= seq![chomp(p)] + pieces.drop_last().map_values(f));
    assert(lines_spec(p + seq!['\n'] + rest) =~= seq![chomp(p)] + lines_spec(rest));
}

/// What is joined by a character that the parts are without comes apart into the parts.
pub proof fn law_joined_parts_come_apart(parts: Seq<Seq<char>>, c: char)
    requires
        parts.len() > 0,
        forall|i: int| 0 <= i < parts.len() ==> is_without(#[trigger] parts[i], c),
    ensures
        split_spec(join_spec(parts, seq![c]), c) == parts,
    decreases parts.len(),
{
    let last = parts.last();
    assert(is_without(parts[parts.len() - 1], c));
    if parts.len() == 1 {
        law_separators_end_pieces(last, c, last);
        assert(seq![last] =~= parts);
    } else {
        let r = parts.drop_last();
        assert forall|i: int| 0 <= i < r.len() implies is_without(#[trigger] r[i], c) by {
            assert(r[i] == parts[i]);
        }
        law_joined_parts_come_apart(r, c);
        lemma_split_behind(join_spec(r, seq![c]), c, last);
        assert(r.push(last) =~= parts);
    }
}

proof fn lemma_split_behind(s: Seq<char>, c: char, p: Seq<char>)
    requires
        is_without(p, c),
    ensures
        split_spec(s + seq![c] + p, c) == split_spec(s, c).push(p),
    decreases p.len(),
{
    let all = s + seq![c] + p;
    if p.len() == 0 {
        assert(all.drop_last() =~= s);
        assert(p =~= Seq::empty());
    } else {
        let q = p.drop_last();
        assert forall|i: int| 0 <= i < q.len() implies #[trigger] q[i] != c by {
            assert(q[i] == p[i]);
        }
        lemma_split_behind(s, c, q);
        assert(all.drop_last() =~= s + seq![c] + q);
        assert(all.last() == p.last());
        assert(p.last() == p[p.len() - 1]);
        assert(q.push(p.last()) =~= p);
        let rest = split_spec(s, c).push(q);
        assert(rest.update(rest.len() - 1, rest.last().push(p.last())) =~= split_spec(s, c).push(p));
    }
}

/// Joining nothing gives nothing, whatever is put between.
pub proof fn law_nothing_joins_to_nothing(sep: Seq<char>, part: Seq<char>)
    ensures
        join_spec(Seq::empty(), sep).len() == 0,
        join_spec(seq![part], sep) == part,
        join_spec(seq![part, part], sep) == part + sep + part,
{
    let two = seq![part, part];
    assert(two.drop_last() =~= seq![part]);
    assert(join_spec(seq![part], sep) == part);
}

/// A number below ten is written with its digit; a larger one with the digits of its
/// tenth and then its last digit.
pub proof fn law_numbers_are_written_in_tens(q: nat, r: nat)
    requires
        r < 10,
    ensures
        dec(r).len() == 1,
        dec(r)[0] as int == '0' as int + r,
        q > 0 ==> dec(10 * q + r) == dec(q) + dec(r),
        dec_int(r as int) == dec(r),
        q > 0 ==> dec_int(-(q as int)) == "-"@ + dec(q),
{
    if q > 0 {
        let n = 10 * q + r;
        assert(n / 10 == q && n % 10 == r);
        assert(dec(n) =~= dec(q) + dec(r));
    }
}

/// What is written is read back, with a sign or without one.
pub proof fn law_numbers_are_read_back(n: u64)
    ensures
        parse_u64_spec(dec(n as nat)) == Some(n),
        parse_u64_spec("+"@ + dec(n as nat)) == Some(n),
        parse_u64_spec("-"@ + dec(n as nat)) is None,
        n <= 0x7fff_ffff_ffff_ffff ==> parse_i64_spec(dec(n as nat)) == Some(n as i64),
        n <= 0x7fff_ffff_ffff_ffff ==> parse_i64_spec("-"@ + dec(n as nat)) == Some((-(n as int)) as i64),
        n > 0x7fff_ffff_ffff_ffff ==> parse_i64_spec(dec(n as nat)) is None,
{
    reveal_strlit("+");
    reveal_strlit("-");
    crate::text::lemma_dec_reads_back(n as nat);
    let d = dec(n as nat);
    let plus = "+"@ + d;
    let minus = "-"@ + d;
    assert(plus.skip(1) =~= d);
    assert(minus.skip(1) =~= d);
    assert(minus[0] == '-');
    assert(plus[0] == '+');
    lemma_first_is_digit(n as nat);
}

proof fn lemma_first_is_digit(n: nat)
    ensures
        dec(n).len() > 0,
        '0' <= dec(n)[0] <= '9',
    decreases n,
{
    if n >= 10 {
        lemma_first_is_digit(n / 10);
    }
}

/// A text that holds anything but digits behind its sign, or nothing, is no number.
pub proof fn law_only_digits_are_numbers(s: Seq<char>, i: int)
    requires
        0 <= i < s.len(),
        !('0' <= s[i] <= '9'),
        i > 0 || s[0] != '+',
    ensures
        parse_u64_spec(s) is None,
        i > 0 || s[0] != '-' ==> parse_i64_spec(s) is None,
        parse_u64_spec(Seq::empty()) is None,
        parse_i64_spec(Seq::empty()) is None,
{
    let t = s.skip(1);
    if i > 0 {
        assert(t[i - 1] == s[i]);
    }
}

/// Leading zeros do not change a number.
pub proof fn law_zeros_in_front_do_not_count(s: Seq<char>)
    ensures
        digits_value("0"@ + s) == digits_value(s),
    decreases s.len(),
{
    reveal_strlit("0");
    let t = "0"@ + s;
    if s.len() == 0 {
        assert(t =~= "0"@);
        assert(t.drop_last() =~= Seq::<char>::empty());
        assert(digits_value(t.drop_last()) == 0);
    } else {
        assert(t.drop_last() =~= "0"@ + s.drop_last());
        law_zeros_in_front_do_not_count(s.drop_last());
    }
}

/// A text is filled up to its column: on the right, on the left, or on both sides, where
/// the left side never gets more.
pub proof fn law_texts_are_filled_up(s: Seq<char>, fill: char, width: nat, i: int)
    ensures
        s.len() >= width ==> pad_spec(s, fill, Align::Left, width) == s && pad_spec(
            s,
            fill,
            Align::Right,
            width,
        ) == s && pad_spec(s, fill, Align::Center, width) == s,
        s.len() < width ==> {
            let left = pad_spec(s, fill, Align::Left, width);
            let right = pad_spec(s, fill, Align::Right, width);
            let mid = pad_spec(s, fill, Align::Center, width);
            let n = (width - s.len()) as int;
            &&& left.len() == width && right.len() == width && mid.len() == width
            &&& left.take(s.len() as int) == s
            &&& right.skip(n) == s
            &&& mid.subrange(n / 2, n / 2 + s.len()) == s
            &&& s.len() <= i < width ==> left[i] == fill
            &&& 0 <= i < n ==> right[i] == fill
            &&& (0 <= i < n / 2 || n / 2 + s.len() <= i < width) ==> mid[i] == fill
        },
{
    if s.len() < width {
        let n = (width - s.len()) as int;
        assert(pad_spec(s, fill, Align::Left, width).take(s.len() as int) =~= s);
        assert(pad_spec(s, fill, Align::Right, width).skip(n) =~= s);
        assert(pad_spec(s, fill, Align::Center, width).subrange(n / 2, n / 2 + s.len()) =~= s);
    }
}

/// Of a character at the end of a text nothing is left, and nothing else is taken away.
pub proof fn law_only_the_end_is_cut(s: Seq<char>, c: char) -> (n: int)
    ensures
        0 <= n <= s.len(),
        trim_end_char_spec(s, c) == s.take(n),
        n > 0 ==> s[n - 1] != c,
        forall|i: int| n <= i < s.len() ==> #[trigger] s[i] == c,
    decreases s.len(),
{
    if s.len() > 0 && s.last() == c {
        let r = s.drop_last();
        let n = law_only_the_end_is_cut(r, c);
        assert(r.take(n) =~= s.take(n));
        assert forall|i: int| n <= i < s.len() implies #[trigger] s[i] == c by {
            if i < r.len() {
                assert(r[i] == s[i]);
            }
        }
        n
    } else {
        assert(s.take(s.len() as int) =~= s);
        s.len() as int
    }
}

} // verus!
