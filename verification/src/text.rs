//! Character-level operations on strings, with their mathematical meaning.
//!
//! A string is modelled by its view, the sequence of its characters. Every
//! executable function here is specified over that view.

use vstd::prelude::*;

verus! {

broadcast use vstd::string::group_string_axioms;

/// The characters that carry Unicode's `White_Space` property.
pub open spec fn is_white(c: char) -> bool {
    ||| '\u{9}' <= c <= '\u{d}'
    ||| c == ' '
    ||| c == '\u{85}'
    ||| c == '\u{a0}'
    ||| c == '\u{1680}'
    ||| '\u{2000}' <= c <= '\u{200a}'
    ||| c == '\u{2028}'
    ||| c == '\u{2029}'
    ||| c == '\u{202f}'
    ||| c == '\u{205f}'
    ||| c == '\u{3000}'
}

/// Tests for white space.
pub fn white(c: char) -> (r: bool)
    ensures
        r == is_white(c),
{
    ('\u{9}' <= c && c <= '\u{d}') || c == ' ' || c == '\u{85}' || c == '\u{a0}' || c == '\u{1680}'
        || ('\u{2000}' <= c && c <= '\u{200a}') || c == '\u{2028}' || c == '\u{2029}'
        || c == '\u{202f}' || c == '\u{205f}' || c == '\u{3000}'
}

/// `p` stands in `s` at position `i`.
pub open spec fn occurs_at(s: Seq<char>, p: Seq<char>, i: int) -> bool {
    &&& 0 <= i
    &&& i + p.len() <= s.len()
    &&& s.subrange(i, i + p.len()) == p
}

/// `i` is the first position at which `p` stands in `s`.
pub open spec fn first_at(s: Seq<char>, p: Seq<char>, i: int) -> bool {
    &&& occurs_at(s, p, i)
    &&& forall|j: int| 0 <= j < i ==> !occurs_at(s, p, j)
}

/// `p` stands somewhere in `s`.
pub open spec fn occurs(s: Seq<char>, p: Seq<char>) -> bool {
    exists|i: int| occurs_at(s, p, i)
}

/// The position at which `p` stands first in `s`, if it does.
pub open spec fn find_spec(s: Seq<char>, p: Seq<char>) -> Option<int> {
    if occurs(s, p) {
        Some(choose|i: int| first_at(s, p, i))
    } else {
        None
    }
}

/// Whatever stands first at `i` is what `find_spec` names.
pub proof fn lemma_find_is(s: Seq<char>, p: Seq<char>, i: int)
    requires
        first_at(s, p, i),
    ensures
        find_spec(s, p) == Some(i),
{
    assert(occurs_at(s, p, i));
    let k = choose|k: int| first_at(s, p, k);
    assert(first_at(s, p, k));
    if k < i {
        assert(!occurs_at(s, p, k));
    } else if i < k {
        assert(!occurs_at(s, p, i));
    }
}

/// What stands in `s` stands first somewhere.
pub proof fn lemma_first_exists(s: Seq<char>, p: Seq<char>) -> (i: int)
    requires
        occurs(s, p),
    ensures
        first_at(s, p, i),
{
    let k = choose|k: int| occurs_at(s, p, k);
    lemma_first_before(s, p, k)
}

/// What stands at `k` stands first there or before.
proof fn lemma_first_before(s: Seq<char>, p: Seq<char>, k: int) -> (i: int)
    requires
        occurs_at(s, p, k),
    ensures
        first_at(s, p, i),
    decreases k,
{
    if exists|j: int| 0 <= j < k && occurs_at(s, p, j) {
        let j = choose|j: int| 0 <= j < k && occurs_at(s, p, j);
        lemma_first_before(s, p, j)
    } else {
        k
    }
}

/// `s` without its leading white space.
pub open spec fn trim_start_spec(s: Seq<char>) -> Seq<char>
    decreases s.len(),
{
    if s.len() > 0 && is_white(s[0]) {
        trim_start_spec(s.drop_first())
    } else {
        s
    }
}

/// `s` without its trailing white space.
pub open spec fn trim_end_spec(s: Seq<char>) -> Seq<char>
    decreases s.len(),
{
    if s.len() > 0 && is_white(s.last()) {
        trim_end_spec(s.drop_last())
    } else {
        s
    }
}

/// `s` without the white space at both ends.
pub open spec fn trim_spec(s: Seq<char>) -> Seq<char> {
    trim_end_spec(trim_start_spec(s))
}

/// Collects the characters of a string.
pub fn to_chars(s: &str) -> (r: Vec<char>)
    ensures
        r@ == s@,
{
    let mut r: Vec<char> = Vec::new();
    for c in it: s.chars()
        invariant
            it.seq() == s@,
            r@ == s@.take(it.index()),
    {
        r.push(c);
        assert(s@.take(it.index()).push(c) =~= s@.take(it.index() + 1));
    }
    assert(s@.take(s@.len() as int) =~= s@);
    r
}

/// Tests two strings for equality.
pub fn same(a: &str, b: &str) -> (r: bool)
    ensures
        r == (a@ == b@),
{
    let x = to_chars(a);
    let y = to_chars(b);
    if x.len() != y.len() {
        return false;
    }
    let mut i: usize = 0;
    while i < x.len()
        invariant
            x@ == a@,
            y@ == b@,
            x.len() == y.len(),
            i <= x.len(),
            a@.take(i as int) == b@.take(i as int),
        decreases x.len() - i,
    {
        if x[i] != y[i] {
            assert(a@[i as int] != b@[i as int]);
            return false;
        }
        assert(a@.take(i as int + 1) =~= a@.take(i as int).push(a@[i as int]));
        assert(b@.take(i as int + 1) =~= b@.take(i as int).push(b@[i as int]));
        i = i + 1;
    }
    assert(a@.take(i as int) =~= a@);
    assert(b@.take(i as int) =~= b@);
    true
}

/// Tests whether `p` begins `s`.
pub fn starts_with(s: &str, p: &str) -> (r: bool)
    ensures
        r == p@.is_prefix_of(s@),
{
    let x = to_chars(s);
    let y = to_chars(p);
    matches_at(&x, &y, 0)
}

/// Tests whether `p` ends `s`.
pub fn ends_with(s: &str, p: &str) -> (r: bool)
    ensures
        r == p@.is_suffix_of(s@),
{
    let x = to_chars(s);
    let y = to_chars(p);
    if y.len() > x.len() {
        return false;
    }
    let i: usize = x.len() - y.len();
    assert(s@.subrange(i as int, i + p@.len()) =~= s@.subrange(s@.len() - p@.len(), s@.len() as int));
    matches_at(&x, &y, i)
}

/// Tests whether `p` stands in `s` at position `i`.
pub fn matches_at(s: &Vec<char>, p: &Vec<char>, i: usize) -> (r: bool)
    ensures
        r == occurs_at(s@, p@, i as int),
        i == 0 ==> r == p@.is_prefix_of(s@),
{
    if i > s.len() || p.len() > s.len() - i {
        return false;
    }
    let mut k: usize = 0;
    while k < p.len()
        invariant
            i + p.len() <= s.len(),
            k <= p.len(),
            forall|j: int| 0 <= j < k ==> s@[i + j] == p@[j],
        decreases p.len() - k,
    {
        if s[i + k] != p[k] {
            assert(s@.subrange(i as int, i + p@.len())[k as int] != p@[k as int]);
            return false;
        }
        k = k + 1;
    }
    assert(s@.subrange(i as int, i + p@.len()) =~= p@);
    true
}

/// Finds where `p` stands first in `s`, counted in characters.
pub fn find(s: &str, p: &str) -> (r: Option<usize>)
    ensures
        match r {
            Some(i) => first_at(s@, p@, i as int) && find_spec(s@, p@) == Some(i as int),
            None => !occurs(s@, p@) && find_spec(s@, p@) == None::<int>,
        },
{
    let x = to_chars(s);
    let y = to_chars(p);
    if y.len() > x.len() {
        return None;
    }
    let last: usize = x.len() - y.len();
    let mut i: usize = 0;
    while !matches_at(&x, &y, i)
        invariant
            x@ == s@,
            y@ == p@,
            y.len() <= x.len(),
            last == x.len() - y.len(),
            i <= last,
            forall|j: int| 0 <= j < i ==> !occurs_at(s@, p@, j),
        decreases last - i,
    {
        if i == last {
            return None;
        }
        i = i + 1;
    }
    proof {
        lemma_find_is(s@, p@, i as int);
    }
    Some(i)
}

/// Tests whether `p` stands anywhere in `s`.
pub fn contains(s: &str, p: &str) -> (r: bool)
    ensures
        r == occurs(s@, p@),
{
    find(s, p).is_some()
}

/// The pieces of `s` before and after the first `sep`, if there is one.
pub open spec fn split_once_spec(s: Seq<char>, sep: Seq<char>) -> Option<(Seq<char>, Seq<char>)> {
    match find_spec(s, sep) {
        Some(i) => Some((s.take(i), s.skip(i + sep.len()))),
        None => None,
    }
}

/// Splits `s` at the first `sep`.
pub fn split_once<'a>(s: &'a str, sep: &str) -> (r: Option<(&'a str, &'a str)>)
    ensures
        match r {
            Some((a, b)) => split_once_spec(s@, sep@) == Some((a@, b@)),
            None => split_once_spec(s@, sep@) == None::<(Seq<char>, Seq<char>)>,
        },
{
    match find(s, sep) {
        Some(i) => {
            let n: usize = s.unicode_len();
            let k: usize = sep.unicode_len();
            let a = s.substring_char(0, i);
            let b = s.substring_char(i + k, n);
            assert(a@ =~= s@.take(i as int));
            assert(b@ =~= s@.skip(i + sep@.len()));
            Some((a, b))
        },
        None => None,
    }
}

/// The first `n` characters of `s`.
pub fn take<'a>(s: &'a str, n: usize) -> (r: &'a str)
    requires
        n <= s@.len(),
    ensures
        r@ == s@.take(n as int),
{
    let r = s.substring_char(0, n);
    assert(r@ =~= s@.take(n as int));
    r
}

/// `s` without its first `n` characters.
pub fn skip<'a>(s: &'a str, n: usize) -> (r: &'a str)
    requires
        n <= s@.len(),
    ensures
        r@ == s@.skip(n as int),
{
    let len: usize = s.unicode_len();
    let r = s.substring_char(n, len);
    assert(r@ =~= s@.skip(n as int));
    r
}

/// Removes leading white space.
pub fn trim_start<'a>(s: &'a str) -> (r: &'a str)
    ensures
        r@ == trim_start_spec(s@),
{
    let x = to_chars(s);
    let mut i: usize = 0;
    assert(s@.skip(0) =~= s@);
    while i < x.len() && white(x[i])
        invariant
            x@ == s@,
            i <= x.len(),
            trim_start_spec(s@.skip(i as int)) == trim_start_spec(s@),
        decreases x.len() - i,
    {
        assert(s@.skip(i as int).drop_first() =~= s@.skip(i as int + 1));
        i = i + 1;
    }
    skip(s, i)
}

/// Removes trailing white space.
pub fn trim_end<'a>(s: &'a str) -> (r: &'a str)
    ensures
        r@ == trim_end_spec(s@),
{
    let x = to_chars(s);
    let mut i: usize = x.len();
    assert(s@.take(s@.len() as int) =~= s@);
    while i > 0 && white(x[i - 1])
        invariant
            x@ == s@,
            i <= x.len(),
            trim_end_spec(s@.take(i as int)) == trim_end_spec(s@),
        decreases i,
    {
        assert(s@.take(i as int).drop_last() =~= s@.take(i as int - 1));
        i = i - 1;
    }
    take(s, i)
}

/// Removes the white space at both ends.
pub fn trim<'a>(s: &'a str) -> (r: &'a str)
    ensures
        r@ == trim_spec(s@),
{
    trim_end(trim_start(s))
}

/// `s` without the `c`s at its end.
pub open spec fn trim_end_char_spec(s: Seq<char>, c: char) -> Seq<char>
    decreases s.len(),
{
    if s.len() > 0 && s.last() == c {
        trim_end_char_spec(s.drop_last(), c)
    } else {
        s
    }
}

/// Removes the `c`s at the end of `s`.
pub fn trim_end_char<'a>(s: &'a str, c: char) -> (r: &'a str)
    ensures
        r@ == trim_end_char_spec(s@, c),
{
    let x = to_chars(s);
    let mut i: usize = x.len();
    assert(s@.take(s@.len() as int) =~= s@);
    while i > 0 && x[i - 1] == c
        invariant
            x@ == s@,
            i <= x.len(),
            trim_end_char_spec(s@.take(i as int), c) == trim_end_char_spec(s@, c),
        decreases i,
    {
        assert(s@.take(i as int).drop_last() =~= s@.take(i as int - 1));
        i = i - 1;
    }
    take(s, i)
}

/// The pieces of `s` between the `c`s: always one more than there are `c`s.
pub open spec fn split_spec(s: Seq<char>, c: char) -> Seq<Seq<char>>
    decreases s.len(),
{
    if s.len() == 0 {
        seq![s]
    } else if s.last() == c {
        split_spec(s.drop_last(), c).push(Seq::empty())
    } else {
        let rest = split_spec(s.drop_last(), c);
        rest.update(rest.len() - 1, rest.last().push(s.last()))
    }
}

/// A split has at least one piece.
pub proof fn lemma_split_nonempty(s: Seq<char>, c: char)
    ensures
        split_spec(s, c).len() > 0,
    decreases s.len(),
{
    if s.len() > 0 {
        lemma_split_nonempty(s.drop_last(), c);
    }
}

/// The views of a list of strings.
pub open spec fn views(v: Seq<String>) -> Seq<Seq<char>> {
    v.map_values(|s: String| s@)
}

/// The views of a list of string slices.
pub open spec fn str_views(v: Seq<&str>) -> Seq<Seq<char>> {
    v.map_values(|s: &str| s@)
}

/// The view of an optional string.
pub open spec fn opt_view(o: Option<String>) -> Option<Seq<char>> {
    match o {
        Some(s) => Some(s@),
        None => None,
    }
}

/// Splits `s` at each `c`.
pub fn split<'a>(s: &'a str, c: char) -> (r: Vec<&'a str>)
    ensures
        str_views(r@) == split_spec(s@, c),
{
    let x = to_chars(s);
    let mut r: Vec<&'a str> = Vec::new();
    let mut from: usize = 0;
    let mut i: usize = 0;
    assert(s@.take(0) =~= Seq::<char>::empty());
    assert(str_views(r@).push(s@.subrange(0, 0)) =~= split_spec(s@.take(0), c));
    while i < x.len()
        invariant
            x@ == s@,
            from <= i <= x.len(),
            str_views(r@).push(s@.subrange(from as int, i as int)) == split_spec(s@.take(i as int), c),
        decreases x.len() - i,
    {
        let ghost before = split_spec(s@.take(i as int), c);
        assert(s@.take(i as int + 1).drop_last() =~= s@.take(i as int));
        assert(s@.take(i as int + 1).last() == s@[i as int]);
        if x[i] == c {
            let piece = s.substring_char(from, i);
            let ghost old_r = r@;
            r.push(piece);
            assert(str_views(r@) =~= str_views(old_r).push(piece@));
            from = i + 1;
            assert(s@.subrange(i as int + 1, i as int + 1) =~= Seq::<char>::empty());
            assert(str_views(r@).push(s@.subrange(from as int, i as int + 1)) =~= split_spec(
                s@.take(i as int + 1),
                c,
            ));
        } else {
            assert(s@.subrange(from as int, i as int + 1) =~= s@.subrange(from as int, i as int).push(
                s@[i as int],
            ));
            assert(before.last() == s@.subrange(from as int, i as int));
            assert(str_views(r@).push(s@.subrange(from as int, i as int + 1)) =~= before.update(
                before.len() - 1,
                before.last().push(s@[i as int]),
            ));
        }
        i = i + 1;
    }
    let piece = s.substring_char(from, x.len());
    let ghost old_r = r@;
    r.push(piece);
    assert(str_views(r@) =~= str_views(old_r).push(piece@));
    assert(s@.take(s@.len() as int) =~= s@);
    r
}

/// A line without the carriage return that may end it.
pub open spec fn chomp(s: Seq<char>) -> Seq<char> {
    if s.len() > 0 && s.last() == '\r' {
        s.drop_last()
    } else {
        s
    }
}

/// The lines of a text: what stands between the line feeds, each without one
/// carriage return at its end. A line feed at the very end opens no line, and a
/// last line that no line feed ends keeps its carriage return.
pub open spec fn lines_spec(s: Seq<char>) -> Seq<Seq<char>> {
    let pieces = split_spec(s, '\n');
    let ended = pieces.drop_last().map_values(|l: Seq<char>| chomp(l));
    if pieces.last().len() == 0 {
        ended
    } else {
        ended.push(pieces.last())
    }
}

/// Splits a text into its lines.
pub fn lines<'a>(s: &'a str) -> (r: Vec<&'a str>)
    ensures
        str_views(r@) == lines_spec(s@),
{
    let pieces = split(s, '\n');
    proof {
        lemma_split_nonempty(s@, '\n');
    }
    let ghost p = split_spec(s@, '\n');
    assert(p.len() == pieces.len());
    let mut r: Vec<&'a str> = Vec::new();
    let mut i: usize = 0;
    while i < pieces.len() - 1
        invariant
            p == str_views(pieces@),
            pieces.len() > 0,
            i <= pieces.len() - 1,
            str_views(r@) == p.take(i as int).map_values(|l: Seq<char>| chomp(l)),
        decreases pieces.len() - i,
    {
        let l = pieces[i];
        let n: usize = l.unicode_len();
        let cut = if n > 0 && l.get_char(n - 1) == '\r' {
            let t = take(l, n - 1);
            assert(t@ =~= l@.drop_last());
            t
        } else {
            l
        };
        assert(p[i as int] == l@);
        assert(cut@ == chomp(p[i as int]));
        let ghost old_r = r@;
        r.push(cut);
        assert(str_views(r@) =~= str_views(old_r).push(cut@));
        assert(p.take(i as int + 1).map_values(|l: Seq<char>| chomp(l)) =~= p.take(i as int).map_values(
            |l: Seq<char>| chomp(l),
        ).push(chomp(p[i as int])));
        i = i + 1;
    }
    assert(p.drop_last() =~= p.take(p.len() - 1));
    let last = pieces[pieces.len() - 1];
    assert(p.last() == last@);
    if !last.is_empty() {
        let ghost old_r = r@;
        r.push(last);
        assert(str_views(r@) =~= str_views(old_r).push(last@));
    }
    r
}

/// The decimal digit `d`.
pub open spec fn digit(d: nat) -> char {
    if d == 0 {
        '0'
    } else if d == 1 {
        '1'
    } else if d == 2 {
        '2'
    } else if d == 3 {
        '3'
    } else if d == 4 {
        '4'
    } else if d == 5 {
        '5'
    } else if d == 6 {
        '6'
    } else if d == 7 {
        '7'
    } else if d == 8 {
        '8'
    } else {
        '9'
    }
}

/// `n` in decimal, without leading zeros.
pub open spec fn dec(n: nat) -> Seq<char>
    decreases n,
{
    if n < 10 {
        seq![digit(n)]
    } else {
        dec(n / 10).push(digit(n % 10))
    }
}

/// `n` in decimal, with a minus sign where it is negative.
pub open spec fn dec_int(n: int) -> Seq<char> {
    if n < 0 {
        "-"@ + dec((-n) as nat)
    } else {
        dec(n as nat)
    }
}

fn digit_str(d: u64) -> (r: &'static str)
    requires
        d < 10,
    ensures
        r@ == seq![digit(d as nat)],
{
    proof {
        reveal_strlit("0");
        reveal_strlit("1");
        reveal_strlit("2");
        reveal_strlit("3");
        reveal_strlit("4");
        reveal_strlit("5");
        reveal_strlit("6");
        reveal_strlit("7");
        reveal_strlit("8");
        reveal_strlit("9");
    }
    let r = match d {
        0 => "0",
        1 => "1",
        2 => "2",
        3 => "3",
        4 => "4",
        5 => "5",
        6 => "6",
        7 => "7",
        8 => "8",
        _ => "9",
    };
    assert(r@ =~= seq![digit(d as nat)]);
    r
}

/// Writes `n` in decimal.
pub fn dec_string(n: u64) -> (r: String)
    ensures
        r@ == dec(n as nat),
    decreases n,
{
    if n < 10 {
        digit_str(n).to_owned()
    } else {
        let mut r = dec_string(n / 10);
        let ghost head = r@;
        r.append(digit_str(n % 10));
        assert(r@ =~= head.push(digit((n % 10) as nat)));
        r
    }
}

/// Writes `n` in decimal, with its sign.
pub fn dec_int_string(n: i64) -> (r: String)
    ensures
        r@ == dec_int(n as int),
{
    if n >= 0 {
        dec_string(n as u64)
    } else {
        let mut r = String::new();
        r.append("-");
        let m: u64 = if n == i64::MIN {
            0x8000_0000_0000_0000
        } else {
            (-n) as u64
        };
        r.append(dec_string(m).as_str());
        assert(r@ =~= "-"@ + dec((-n) as nat));
        r
    }
}

/// `parts` one after the other, with `sep` in between.
pub open spec fn join_spec(parts: Seq<Seq<char>>, sep: Seq<char>) -> Seq<char>
    decreases parts.len(),
{
    if parts.len() == 0 {
        Seq::empty()
    } else if parts.len() == 1 {
        parts[0]
    } else {
        join_spec(parts.drop_last(), sep) + sep + parts.last()
    }
}

/// Joins `parts` with `sep`.
pub fn join(parts: &Vec<String>, sep: &str) -> (r: String)
    ensures
        r@ == join_spec(views(parts@), sep@),
{
    let mut r = String::new();
    let mut i: usize = 0;
    let ghost all = views(parts@);
    assert(all.take(0) =~= Seq::<Seq<char>>::empty());
    while i < parts.len()
        invariant
            all == views(parts@),
            i <= parts.len(),
            r@ == join_spec(all.take(i as int), sep@),
        decreases parts.len() - i,
    {
        let ghost before = r@;
        if i > 0 {
            r.append(sep);
        }
        r.append(parts[i].as_str());
        proof {
            let now = all.take(i as int + 1);
            assert(now.drop_last() =~= all.take(i as int));
            assert(now.last() == parts@[i as int]@);
            if i == 0 {
                assert(r@ =~= now[0]);
            } else {
                assert(r@ =~= before + sep@ + now.last());
            }
        }
        i = i + 1;
    }
    assert(all.take(all.len() as int) =~= all);
    r
}

/// `n` times the character `c`.
pub open spec fn repeat(c: char, n: nat) -> Seq<char> {
    Seq::new(n, |i: int| c)
}

/// Which side of a column a text keeps to.
#[derive(Debug, Clone, Copy, PartialEq, Eq, Structural)]
pub enum Align {
    Left,
    Right,
    Center,
}

/// `s` filled up to `width` characters. Centred text has the odd fill character
/// at its right; a text that is too long stays as it is.
pub open spec fn pad_spec(s: Seq<char>, fill: char, align: Align, width: nat) -> Seq<char> {
    if s.len() >= width {
        s
    } else {
        let n = (width - s.len()) as nat;
        match align {
            Align::Left => s + repeat(fill, n),
            Align::Right => repeat(fill, n) + s,
            Align::Center => repeat(fill, n / 2) + s + repeat(fill, (n - n / 2) as nat),
        }
    }
}

fn append_fill(out: &mut String, fill: &str, n: usize)
    requires
        fill@.len() == 1,
    ensures
        final(out)@ == old(out)@ + repeat(fill@[0], n as nat),
{
    let ghost before = out@;
    let mut i: usize = 0;
    assert(out@ =~= before + repeat(fill@[0], 0));
    while i < n
        invariant
            fill@.len() == 1,
            i <= n,
            out@ == before + repeat(fill@[0], i as nat),
        decreases n - i,
    {
        out.append(fill);
        i = i + 1;
        assert(out@ =~= before + repeat(fill@[0], i as nat));
    }
}

/// Fills `s` up to `width` characters with the one character of `fill`.
pub fn pad(s: &str, fill: &str, align: Align, width: usize) -> (r: String)
    requires
        fill@.len() == 1,
    ensures
        r@ == pad_spec(s@, fill@[0], align, width as nat),
{
    let n: usize = s.unicode_len();
    if n >= width {
        return s.to_owned();
    }
    let gap: usize = width - n;
    let (before, after): (usize, usize) = match align {
        Align::Left => (0, gap),
        Align::Right => (gap, 0),
        Align::Center => (gap / 2, gap - gap / 2),
    };
    let mut r = String::new();
    append_fill(&mut r, fill, before);
    r.append(s);
    append_fill(&mut r, fill, after);
    assert(r@ =~= pad_spec(s@, fill@[0], align, width as nat));
    r
}

/// `c` as a lower-case letter, where it is one of the ASCII capitals.
pub open spec fn ascii_lower(c: char) -> char {
    if 'A' <= c <= 'Z' {
        ((c as u32) + 32) as char
    } else {
        c
    }
}

/// Two texts that differ at most in the case of their ASCII letters.
pub open spec fn same_ascii_caseless(a: Seq<char>, b: Seq<char>) -> bool {
    &&& a.len() == b.len()
    &&& forall|i: int| 0 <= i < a.len() ==> ascii_lower(#[trigger] a[i]) == ascii_lower(b[i])
}

fn lower(c: char) -> (r: u32)
    ensures
        r == ascii_lower(c) as u32,
{
    let n: u32 = c as u32;
    if 'A' <= c && c <= 'Z' {
        n + 32
    } else {
        n
    }
}

/// Tests two texts for equality, the case of ASCII letters ignored.
pub fn eq_ignore_ascii_case(a: &str, b: &str) -> (r: bool)
    ensures
        r == same_ascii_caseless(a@, b@),
{
    let x = to_chars(a);
    let y = to_chars(b);
    if x.len() != y.len() {
        return false;
    }
    let mut i: usize = 0;
    while i < x.len()
        invariant
            x@ == a@,
            y@ == b@,
            x.len() == y.len(),
            i <= x.len(),
            forall|j: int| 0 <= j < i ==> ascii_lower(#[trigger] a@[j]) == ascii_lower(b@[j]),
        decreases x.len() - i,
    {
        if lower(x[i]) != lower(y[i]) {
            assert(ascii_lower(a@[i as int]) != ascii_lower(b@[i as int]));
            return false;
        }
        i = i + 1;
    }
    true
}

/// What `std::str::from_utf8` reports of bytes that are no UTF-8.
pub uninterp spec fn utf8_complaint(bytes: Seq<u8>) -> Seq<char>;

/// Reads bytes as UTF-8 by `std::str::from_utf8`. It gives a text exactly when
/// the bytes are well-formed UTF-8, and then the text that they encode; otherwise
/// its error's message, which says where the bytes go wrong and which is only
/// named here.
#[verifier::external_body]
fn checked_utf8<'a>(bytes: &'a [u8]) -> (r: Result<&'a str, String>)
    ensures
        r is Ok <==> vstd::utf8::valid_utf8(bytes@),
        r matches Ok(s) ==> s@ == vstd::utf8::decode_utf8(bytes@),
        r matches Err(m) ==> m@ == utf8_complaint(bytes@),
{
    std::str::from_utf8(bytes).map_err(|e| e.to_string())
}

/// The text that `bytes` encode, or what is wrong with them.
pub fn from_utf8<'a>(bytes: &'a [u8]) -> (r: Result<&'a str, String>)
    ensures
        r is Ok <==> vstd::utf8::valid_utf8(bytes@),
        r matches Ok(s) ==> s@ == vstd::utf8::decode_utf8(bytes@),
        r matches Err(m) ==> m@ == utf8_complaint(bytes@),
{
    checked_utf8(bytes)
}

/// What `String::from_utf8_lossy` makes of bytes.
pub uninterp spec fn lossy_text(bytes: Seq<u8>) -> Seq<char>;

/// Reads bytes as text by `String::from_utf8_lossy`, which puts replacement
/// characters where they are no UTF-8. Well-formed bytes give the text that they
/// encode; of others the result is only named.
#[verifier::external_body]
pub(crate) fn from_utf8_lossy(bytes: &[u8]) -> (r: String)
    ensures
        r@ == lossy_text(bytes@),
        vstd::utf8::valid_utf8(bytes@) ==> r@ == vstd::utf8::decode_utf8(bytes@),
{
    String::from_utf8_lossy(bytes).into_owned()
}

/// Whether `c` is one of the ten ASCII digits.
pub open spec fn is_digit(c: char) -> bool {
    '0' <= c <= '9'
}

/// Whether `c` is one of the ten ASCII digits.
pub fn is_ascii_digit(c: char) -> (r: bool)
    ensures
        r == is_digit(c),
{
    '0' <= c && c <= '9'
}

/// Whether every character is a digit.
pub open spec fn all_digits(s: Seq<char>) -> bool {
    forall|i: int| 0 <= i < s.len() ==> is_digit(#[trigger] s[i])
}

/// The number that a run of digits writes.
pub open spec fn digits_value(s: Seq<char>) -> nat
    decreases s.len(),
{
    if s.len() == 0 {
        0
    } else {
        (10 * digits_value(s.drop_last()) + (s.last() as int - '0' as int)) as nat
    }
}

/// The digits of a number that may have a plus sign before it.
pub open spec fn unsigned(s: Seq<char>) -> Seq<char> {
    if s.len() > 0 && s[0] == '+' {
        s.skip(1)
    } else {
        s
    }
}

/// The number that `s` writes: at least one digit, a plus sign before them or
/// none, and a value that 64 bits hold.
pub open spec fn parse_u64_spec(s: Seq<char>) -> Option<u64> {
    let d = unsigned(s);
    if d.len() > 0 && all_digits(d) && digits_value(d) <= u64::MAX {
        Some(digits_value(d) as u64)
    } else {
        None
    }
}

/// A longer run of digits writes no smaller number.
proof fn lemma_digits_grow(s: Seq<char>, i: int)
    requires
        0 <= i <= s.len(),
        all_digits(s),
    ensures
        digits_value(s.take(i)) <= digits_value(s),
    decreases s.len() - i,
{
    if i == s.len() {
        assert(s.take(i) =~= s);
    } else {
        lemma_digits_grow(s, i + 1);
        crate::seqs::lemma_take_succ(s, i);
        assert(is_digit(s[i]));
    }
}

/// Reads an unsigned number.
pub fn parse_u64(s: &str) -> (r: Option<u64>)
    ensures
        r == parse_u64_spec(s@),
{
    let n: usize = s.unicode_len();
    let d = if n > 0 && s.get_char(0) == '+' {
        skip(s, 1)
    } else {
        s
    };
    assert(d@ =~= unsigned(s@));
    let cs = to_chars(d);
    if cs.len() == 0 {
        return None;
    }
    let mut v: u64 = 0;
    let mut i: usize = 0;
    assert(d@.take(0) =~= Seq::<char>::empty());
    while i < cs.len()
        invariant
            cs@ == d@,
            d@ == unsigned(s@),
            i <= cs.len(),
            all_digits(d@.take(i as int)),
            v == digits_value(d@.take(i as int)),
        decreases cs.len() - i,
    {
        let c = cs[i];
        proof {
            crate::seqs::lemma_take_succ(d@, i as int);
        }
        if !is_ascii_digit(c) {
            return None;
        }
        let x: u64 = (c as u32 - '0' as u32) as u64;
        assert(all_digits(d@.take(i as int + 1)));
        let ghost next = digits_value(d@.take(i as int + 1));
        assert(next == 10 * v + x);
        match v.checked_mul(10) {
            None => {
                proof {
                    if all_digits(d@) {
                        lemma_digits_grow(d@, i as int + 1);
                    }
                }
                return None;
            },
            Some(t) => match t.checked_add(x) {
                None => {
                    proof {
                        if all_digits(d@) {
                            lemma_digits_grow(d@, i as int + 1);
                        }
                    }
                    return None;
                },
                Some(t2) => {
                    v = t2;
                },
            },
        }
        i = i + 1;
    }
    assert(d@.take(cs.len() as int) =~= d@);
    Some(v)
}

/// The number that `s` writes: an integer of 64 bits with a sign or without one.
pub open spec fn parse_i64_spec(s: Seq<char>) -> Option<i64> {
    if s.len() > 0 && s[0] == '-' {
        let d = s.skip(1);
        if d.len() > 0 && all_digits(d) && digits_value(d) <= 0x8000_0000_0000_0000 {
            Some((-(digits_value(d) as int)) as i64)
        } else {
            None
        }
    } else {
        match parse_u64_spec(s) {
            Some(n) => if n <= i64::MAX {
                Some(n as i64)
            } else {
                None
            },
            None => None,
        }
    }
}

/// Reads an integer.
pub fn parse_i64(s: &str) -> (r: Option<i64>)
    ensures
        r == parse_i64_spec(s@),
{
    let n: usize = s.unicode_len();
    if n > 0 && s.get_char(0) == '-' {
        let d = skip(s, 1);
        let m: usize = d.unicode_len();
        if m == 0 || !is_ascii_digit(d.get_char(0)) {
            assert(m > 0 ==> !is_digit(d@[0]));
            return None;
        }
        assert(unsigned(d@) == d@);
        match parse_u64(d) {
            Some(v) => {
                if v <= 0x7fff_ffff_ffff_ffff {
                    Some(-(v as i64))
                } else if v == 0x8000_0000_0000_0000 {
                    Some(i64::MIN)
                } else {
                    None
                }
            },
            None => None,
        }
    } else {
        match parse_u64(s) {
            Some(v) => {
                if v <= 0x7fff_ffff_ffff_ffff {
                    Some(v as i64)
                } else {
                    None
                }
            },
            None => None,
        }
    }
}

/// A number is read as it was written.
pub proof fn lemma_dec_reads_back(n: nat)
    requires
        n <= u64::MAX,
    ensures
        trim_spec(dec(n)) == dec(n),
        parse_u64_spec(dec(n)) == Some(n as u64),
{
    lemma_dec_digits(n);
    let s = dec(n);
    assert(is_digit(s[0]));
    assert(is_digit(s.last()));
    assert(unsigned(s) == s);
}

/// A number is written in digits that have its value.
proof fn lemma_dec_digits(n: nat)
    ensures
        dec(n).len() > 0,
        all_digits(dec(n)),
        digits_value(dec(n)) == n,
    decreases n,
{
    if n < 10 {
        let s = dec(n);
        assert(s.drop_last() =~= Seq::<char>::empty());
        assert(digits_value(s.drop_last()) == 0);
    } else {
        lemma_dec_digits(n / 10);
        let s = dec(n);
        assert(s.drop_last() =~= dec(n / 10));
        assert(s.last() == digit(n % 10));
    }
}

} // verus!
