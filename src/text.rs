//! Character-level helpers shared by the codecs: conversion between `str` and characters,
//! splitting on separators, and decimal digits.
use vstd::prelude::*;
use vstd::std_specs::iter::IteratorSpec;

verus! {

/// ASCII whitespace, the characters that `split_ascii_whitespace` splits on.
pub open spec fn is_space(c: char) -> bool {
    c == ' ' || c == '\t' || c == '\n' || c == '\r' || c == '\x0C'
}

pub open spec fn is_digit(c: char) -> bool {
    '0' <= c && c <= '9'
}

/// The predicate "is the character `c`", as a separator for `split`.
pub open spec fn is_char(c: char) -> spec_fn(char) -> bool {
    |x: char| x == c
}

/// The predicate `is_space`, as a separator for `split`.
pub open spec fn space_sep() -> spec_fn(char) -> bool {
    |x: char| is_space(x)
}

pub open spec fn has_no(s: Seq<char>, sep: spec_fn(char) -> bool) -> bool {
    forall|i: int| 0 <= i < s.len() ==> !sep(s[i])
}

/// The pieces of `s` between the characters for which `sep` holds, empty pieces included:
/// there is always one piece more than there are separators.
pub open spec fn split(s: Seq<char>, sep: spec_fn(char) -> bool) -> Seq<Seq<char>>
    decreases s.len(),
{
    if s.len() == 0 {
        seq![Seq::empty()]
    } else {
        let prev = split(s.drop_last(), sep);
        if sep(s.last()) {
            prev.push(Seq::empty())
        } else {
            prev.update(prev.len() - 1, prev.last().push(s.last()))
        }
    }
}

/// The pieces, with `sep` between each two of them.
pub open spec fn join(parts: Seq<Seq<char>>, sep: char) -> Seq<char>
    decreases parts.len(),
{
    if parts.len() == 0 {
        Seq::empty()
    } else if parts.len() == 1 {
        parts[0]
    } else {
        join(parts.drop_last(), sep).push(sep) + parts.last()
    }
}

/// The pieces that are not empty, in order.
pub open spec fn non_empty(parts: Seq<Seq<char>>) -> Seq<Seq<char>>
    decreases parts.len(),
{
    if parts.len() == 0 {
        parts
    } else if parts.last().len() == 0 {
        non_empty(parts.drop_last())
    } else {
        non_empty(parts.drop_last()).push(parts.last())
    }
}

/// The whitespace-separated words of `s`.
pub open spec fn words(s: Seq<char>) -> Seq<Seq<char>> {
    non_empty(split(s, space_sep()))
}

pub proof fn lemma_split_len(s: Seq<char>, sep: spec_fn(char) -> bool)
    ensures
        split(s, sep).len() >= 1,
    decreases s.len(),
{
    if s.len() > 0 {
        lemma_split_len(s.drop_last(), sep);
    }
}

pub proof fn lemma_split_none(s: Seq<char>, sep: spec_fn(char) -> bool)
    requires
        has_no(s, sep),
    ensures
        split(s, sep) == seq![s],
    decreases s.len(),
{
    if s.len() > 0 {
        lemma_split_none(s.drop_last(), sep);
        assert(!sep(s[s.len() - 1]));
        assert(s.drop_last().push(s.last()) =~= s);
        assert(seq![s.drop_last()].update(0, s.drop_last().push(s.last())) =~= seq![s]);
    } else {
        assert(s =~= Seq::empty());
    }
}

/// Splitting at a separator splits the two sides apart.
pub proof fn lemma_split_at_sep(a: Seq<char>, c: char, b: Seq<char>, sep: spec_fn(char) -> bool)
    requires
        sep(c),
    ensures
        split(a.push(c) + b, sep) == split(a, sep) + split(b, sep),
    decreases b.len(),
{
    if b.len() == 0 {
        assert(a.push(c) + b =~= a.push(c));
        assert(a.push(c).drop_last() =~= a);
        assert(split(a, sep).push(Seq::empty()) =~= split(a, sep) + split(b, sep));
    } else {
        let s = a.push(c) + b;
        assert(s.drop_last() =~= a.push(c) + b.drop_last());
        lemma_split_at_sep(a, c, b.drop_last(), sep);
        lemma_split_len(b.drop_last(), sep);
        let pa = split(a, sep);
        let pb = split(b.drop_last(), sep);
        if sep(b.last()) {
            assert((pa + pb).push(Seq::empty()) =~= pa + pb.push(Seq::empty()));
        } else {
            assert((pa + pb).update((pa + pb).len() - 1, (pa + pb).last().push(b.last())) =~= pa
                + pb.update(pb.len() - 1, pb.last().push(b.last())));
        }
    }
}

/// Splitting what `join` made, at the joining character, gives back its pieces.
pub proof fn lemma_split_join(parts: Seq<Seq<char>>, c: char, sep: spec_fn(char) -> bool)
    requires
        parts.len() >= 1,
        sep(c),
        forall|i: int| 0 <= i < parts.len() ==> has_no(#[trigger] parts[i], sep),
    ensures
        split(join(parts, c), sep) == parts,
    decreases parts.len(),
{
    if parts.len() == 1 {
        lemma_split_none(parts[0], sep);
        assert(seq![parts[0]] =~= parts);
    } else {
        let init = parts.drop_last();
        assert forall|i: int| 0 <= i < init.len() implies has_no(#[trigger] init[i], sep) by {
            assert(init[i] == parts[i]);
        }
        lemma_split_join(init, c, sep);
        assert(has_no(parts[parts.len() - 1], sep));
        lemma_split_none(parts.last(), sep);
        lemma_split_at_sep(join(init, c), c, parts.last(), sep);
        assert(init + seq![parts.last()] =~= parts);
    }
}

/// Dropping empty pieces leaves a list of non-empty pieces unchanged.
pub proof fn lemma_non_empty_id(parts: Seq<Seq<char>>)
    requires
        forall|i: int| 0 <= i < parts.len() ==> #[trigger] parts[i].len() > 0,
    ensures
        non_empty(parts) == parts,
    decreases parts.len(),
{
    if parts.len() > 0 {
        let init = parts.drop_last();
        assert forall|i: int| 0 <= i < init.len() implies #[trigger] init[i].len() > 0 by {
            assert(init[i] == parts[i]);
        }
        lemma_non_empty_id(init);
        assert(parts[parts.len() - 1].len() > 0);
        assert(init.push(parts.last()) =~= parts);
    }
}

/// Relies on `String::push`: the character is appended to the end of the string.
#[verifier::external_body]
pub fn push_char(s: &mut String, c: char)
    ensures
        final(s)@ == old(s)@.push(c),
{
    s.push(c)
}

/// The characters of `s`, in order.
pub fn chars_of(s: &str) -> (r: Vec<char>)
    ensures
        r@ == s@,
{
    let n = s.unicode_len();
    let mut r: Vec<char> = Vec::with_capacity(n);
    let mut it = s.chars();
    loop
        invariant
            r@ + it.remaining() == s@,
            it.obeys_prophetic_iter_laws(),
            it.decrease() is Some,
        ensures
            r@ == s@,
        decreases it.decrease()->0,
    {
        match it.next() {
            Some(c) => {
                r.push(c);
            },
            None => {
                assert(r@ + it.remaining() =~= r@);
                break ;
            },
        }
    }
    r
}

} // verus!

verus! {

pub open spec fn digit_char(d: nat) -> char {
    if d == 0 {
        '0'
    } else if d == 1 {
        '1'
    } else if d == 2 {
        '2'
    } else if d == 3 {
        '3'
    } else if d == 4 {
        '4'
    } else if d == 5 {
        '5'
    } else if d == 6 {
        '6'
    } else if d == 7 {
        '7'
    } else if d == 8 {
        '8'
    } else {
        '9'
    }
}

pub open spec fn digit_value(c: char) -> nat {
    (c as int - '0' as int) as nat
}

pub open spec fn all_digits(s: Seq<char>) -> bool {
    forall|i: int| 0 <= i < s.len() ==> is_digit(#[trigger] s[i])
}

/// The value of a string of decimal digits.
pub open spec fn number_of(s: Seq<char>) -> nat
    decreases s.len(),
{
    if s.len() == 0 {
        0
    } else {
        number_of(s.drop_last()) * 10 + digit_value(s.last())
    }
}

/// `n` in decimal, without leading zeros.
pub open spec fn decimal(n: nat) -> Seq<char>
    decreases n,
{
    if n < 10 {
        seq![digit_char(n)]
    } else {
        decimal(n / 10).push(digit_char(n % 10))
    }
}

pub proof fn lemma_digit_char(d: nat)
    requires
        d < 10,
    ensures
        is_digit(digit_char(d)),
        digit_value(digit_char(d)) == d,
{
}

/// The deep view of a vector of characters is its view.
pub proof fn lemma_chars_deep(v: Vec<char>)
    ensures
        v.deep_view() == v@,
{
    assert(v.deep_view() =~= v@);
}

pub proof fn lemma_decimal(n: nat)
    ensures
        decimal(n).len() >= 1,
        all_digits(decimal(n)),
        number_of(decimal(n)) == n,
    decreases n,
{
    lemma_digit_char(n % 10);
    if n >= 10 {
        lemma_decimal(n / 10);
        assert(decimal(n).drop_last() =~= decimal(n / 10));
        assert(decimal(n).last() == digit_char(n % 10));
        assert(number_of(decimal(n)) == number_of(decimal(n / 10)) * 10 + digit_value(digit_char(n % 10)));
        assert((n / 10) * 10 + n % 10 == n);
        assert forall|i: int| 0 <= i < decimal(n).len() implies is_digit(#[trigger] decimal(n)[i]) by {
            if i < decimal(n).len() - 1 {
                assert(decimal(n)[i] == decimal(n / 10)[i]);
            }
        }
    } else {
        assert(seq![digit_char(n)].drop_last() =~= Seq::<char>::empty());
        assert(number_of(decimal(n)) == number_of(Seq::<char>::empty()) * 10 + digit_value(digit_char(n)));
    }
}

/// The separator that `split_pieces` uses: the character `c`, or whitespace.
pub open spec fn sep_of(c: char, spaces: bool) -> spec_fn(char) -> bool {
    if spaces {
        space_sep()
    } else {
        is_char(c)
    }
}

pub fn is_space_char(c: char) -> (r: bool)
    ensures
        r == is_space(c),
{
    c == ' ' || c == '\t' || c == '\n' || c == '\r' || c == '\x0C'
}

pub fn is_digit_char(c: char) -> (r: bool)
    ensures
        r == is_digit(c),
{
    '0' <= c && c <= '9'
}

fn digit_of(d: u64) -> (c: char)
    requires
        d < 10,
    ensures
        c == digit_char(d as nat),
{
    if d == 0 {
        '0'
    } else if d == 1 {
        '1'
    } else if d == 2 {
        '2'
    } else if d == 3 {
        '3'
    } else if d == 4 {
        '4'
    } else if d == 5 {
        '5'
    } else if d == 6 {
        '6'
    } else if d == 7 {
        '7'
    } else if d == 8 {
        '8'
    } else {
        '9'
    }
}

/// Appends `n` in decimal.
pub fn push_decimal(out: &mut String, n: u64)
    ensures
        final(out)@ == old(out)@ + decimal(n as nat),
    decreases n,
{
    if n >= 10 {
        push_decimal(out, n / 10);
    }
    push_char(out, digit_of(n % 10));
    proof {
        if n >= 10 {
            assert(decimal(n as nat) == decimal((n / 10) as nat).push(digit_char((n % 10) as nat)));
        } else {
            assert(decimal(n as nat) == seq![digit_char(n as nat)]);
        }
    }
    assert(final(out)@ =~= old(out)@ + decimal(n as nat));
}

/// Appends the characters of `s`.
pub fn push_chars(out: &mut String, s: &[char])
    ensures
        final(out)@ == old(out)@ + s@,
{
    let ghost start = out@;
    let mut i: usize = 0;
    while i < s.len()
        invariant
            i <= s@.len(),
            out@ == start + s@.take(i as int),
        decreases s@.len() - i,
    {
        push_char(out, s[i]);
        i = i + 1;
        assert(out@ =~= start + s@.take(i as int));
    }
    assert(s@.take(i as int) =~= s@);
}

/// A string holding the characters of `s`.
pub fn string_of(s: &[char]) -> (r: String)
    ensures
        r@ == s@,
{
    let mut r = String::new();
    push_chars(&mut r, s);
    r
}

/// The value of the digits `s` if there is at least one, all are digits and the value is at
/// most `max`; `None` otherwise.
pub fn parse_number(s: &[char], max: u64) -> (r: Option<u64>)
    ensures
        r == (if s@.len() > 0 && all_digits(s@) && number_of(s@) <= max {
            Some(number_of(s@) as u64)
        } else {
            None
        }),
{
    if s.len() == 0 {
        return None;
    }
    let mut v: u64 = 0;
    let mut i: usize = 0;
    while i < s.len()
        invariant
            i <= s@.len(),
            all_digits(s@.take(i as int)),
            v as nat == number_of(s@.take(i as int)),
            v <= max,
        decreases s@.len() - i,
    {
        let c = s[i];
        assert(s@.take(i as int + 1).drop_last() =~= s@.take(i as int));
        if !is_digit_char(c) {
            assert(!all_digits(s@));
            return None;
        }
        let d = (c as u32 - '0' as u32) as u64;
        assert(d as nat == digit_value(c));
        assert(number_of(s@.take(i as int + 1)) == v * 10 + d);
        if d > max || v > (max - d) / 10 {
            proof {
                assert(v * 10 + d > max) by (nonlinear_arith)
                    requires
                        d > max || v > (max - d) / 10,
                ;
                if all_digits(s@) {
                    lemma_number_of_prefix(s@, i as int + 1);
                }
            }
            return None;
        }
        assert(v * 10 + d <= max) by (nonlinear_arith)
            requires
                d <= max,
                v <= (max - d) / 10,
        ;
        v = v * 10 + d;
        i = i + 1;
        assert(all_digits(s@.take(i as int)));
    }
    assert(s@.take(i as int) =~= s@);
    Some(v)
}

/// A string of digits is worth at least as much as its prefixes.
proof fn lemma_number_of_prefix(s: Seq<char>, k: int)
    requires
        0 <= k <= s.len(),
        all_digits(s),
    ensures
        number_of(s.take(k)) <= number_of(s),
    decreases s.len() - k,
{
    if k < s.len() {
        lemma_number_of_prefix(s, k + 1);
        assert(s.take(k + 1).drop_last() =~= s.take(k));
    } else {
        assert(s.take(k) =~= s);
    }
}

fn split_pieces(s: &[char], c: char, spaces: bool) -> (r: Vec<Vec<char>>)
    ensures
        r.deep_view() == split(s@, sep_of(c, spaces)),
{
    let ghost sep = sep_of(c, spaces);
    let mut done: Vec<Vec<char>> = Vec::new();
    let mut cur: Vec<char> = Vec::new();
    let mut i: usize = 0;
    assert(s@.take(0) =~= Seq::<char>::empty());
    assert(done.deep_view().push(cur@) =~= split(s@.take(0), sep));
    while i < s.len()
        invariant
            i <= s@.len(),
            sep == sep_of(c, spaces),
            done.deep_view().push(cur@) == split(s@.take(i as int), sep),
        decreases s@.len() - i,
    {
        let x = s[i];
        let ghost before = done.deep_view();
        assert(s@.take(i as int + 1).drop_last() =~= s@.take(i as int));
        assert(s@.take(i as int + 1).last() == x);
        let is_sep = if spaces {
            is_space_char(x)
        } else {
            x == c
        };
        if is_sep {
            let piece = cur;
            proof {
                lemma_chars_deep(piece);
            }
            done.push(piece);
            cur = Vec::new();
            assert(done.deep_view() =~= before.push(piece@));
            assert(done.deep_view().push(cur@) =~= before.push(piece@).push(Seq::empty()));
        } else {
            let ghost old_cur = cur@;
            cur.push(x);
            assert(done.deep_view().push(cur@) =~= before.push(old_cur).update(
                before.len() as int,
                old_cur.push(x),
            ));
        }
        i = i + 1;
    }
    assert(s@.take(i as int) =~= s@);
    let ghost before = done.deep_view();
    proof {
        lemma_chars_deep(cur);
    }
    done.push(cur);
    assert(done.deep_view() =~= before.push(cur@));
    done
}

/// The pieces of `s` between the occurrences of `c`.
pub fn split_on(s: &[char], c: char) -> (r: Vec<Vec<char>>)
    ensures
        r.deep_view() == split(s@, is_char(c)),
{
    split_pieces(s, c, false)
}

/// The whitespace-separated words of `s`.
pub fn words_of(s: &[char]) -> (r: Vec<Vec<char>>)
    ensures
        r.deep_view() == words(s@),
{
    let parts = split_pieces(s, ' ', true);
    let mut r: Vec<Vec<char>> = Vec::new();
    let mut j: usize = 0;
    assert(parts.deep_view().take(0) =~= Seq::<Seq<char>>::empty());
    while j < parts.len()
        invariant
            j <= parts@.len(),
            parts.deep_view() == split(s@, space_sep()),
            r.deep_view() == non_empty(parts.deep_view().take(j as int)),
        decreases parts@.len() - j,
    {
        let ghost pv = parts.deep_view();
        assert(pv.take(j as int + 1).drop_last() =~= pv.take(j as int));
        assert(pv.take(j as int + 1).last() == parts@[j as int]@);
        if parts[j].len() > 0 {
            let ghost before = r.deep_view();
            let piece = parts[j].clone();
            proof {
                lemma_chars_deep(piece);
                lemma_chars_deep(parts@[j as int]);
            }
            r.push(piece);
            assert(r.deep_view() =~= before.push(parts@[j as int]@));
        }
        j = j + 1;
    }
    assert(parts.deep_view().take(j as int) =~= parts.deep_view());
    r
}

/// `s` without the whitespace at its start.
pub open spec fn trim_start(s: Seq<char>) -> Seq<char>
    decreases s.len(),
{
    if s.len() > 0 && is_space(s[0]) {
        trim_start(s.drop_first())
    } else {
        s
    }
}

/// `s` without the whitespace at its end.
pub open spec fn trim_end(s: Seq<char>) -> Seq<char>
    decreases s.len(),
{
    if s.len() > 0 && is_space(s.last()) {
        trim_end(s.drop_last())
    } else {
        s
    }
}

/// `s` without the whitespace at either end.
pub open spec fn trim(s: Seq<char>) -> Seq<char> {
    trim_end(trim_start(s))
}

/// The characters of `s` without the whitespace at either end.
pub fn trimmed_chars(s: &str) -> (r: Vec<char>)
    ensures
        r@ == trim(s@),
{
    let cs = chars_of(s);
    let mut lo: usize = 0;
    assert(cs@.skip(0) =~= cs@);
    while lo < cs.len() && is_space_char(cs[lo])
        invariant
            lo <= cs@.len(),
            trim_start(cs@) == trim_start(cs@.skip(lo as int)),
        decreases cs@.len() - lo,
    {
        assert(cs@.skip(lo as int).drop_first() =~= cs@.skip(lo as int + 1));
        lo = lo + 1;
    }
    let mut hi: usize = cs.len();
    let ghost start = cs@.skip(lo as int);
    assert(lo < cs@.len() ==> start[0] == cs@[lo as int]);
    assert(trim_start(start) == start);
    assert(start =~= cs@.subrange(lo as int, hi as int));
    while hi > lo && is_space_char(cs[hi - 1])
        invariant
            lo <= hi <= cs@.len(),
            trim_end(start) == trim_end(cs@.subrange(lo as int, hi as int)),
            start == cs@.skip(lo as int),
        decreases hi,
    {
        assert(cs@.subrange(lo as int, hi as int).drop_last() =~= cs@.subrange(lo as int, hi as int - 1));
        hi = hi - 1;
    }
    let r = vstd::slice::slice_to_vec(vstd::slice::slice_subrange(cs.as_slice(), lo, hi));
    r
}

pub open spec fn starts_with(s: Seq<char>, p: Seq<char>) -> bool {
    p.len() <= s.len() && s.take(p.len() as int) == p
}

/// Whether `s` starts with `p`.
pub fn starts_with_chars(s: &[char], p: &str) -> (r: bool)
    ensures
        r == starts_with(s@, p@),
{
    let pc = chars_of(p);
    if pc.len() > s.len() {
        return false;
    }
    let mut i: usize = 0;
    while i < pc.len()
        invariant
            pc@ == p@,
            pc@.len() <= s@.len(),
            i <= pc@.len(),
            forall|j: int| 0 <= j < i ==> s@[j] == pc@[j],
        decreases pc@.len() - i,
    {
        if s[i] != pc[i] {
            assert(s@.take(pc@.len() as int)[i as int] != p@[i as int]);
            return false;
        }
        i = i + 1;
    }
    assert(s@.take(pc@.len() as int) =~= p@);
    true
}

/// No piece of a split holds a separator.
pub proof fn lemma_split_pieces(s: Seq<char>, sep: spec_fn(char) -> bool)
    ensures
        forall|i: int| 0 <= i < split(s, sep).len() ==> has_no(#[trigger] split(s, sep)[i], sep),
    decreases s.len(),
{
    if s.len() > 0 {
        lemma_split_pieces(s.drop_last(), sep);
        lemma_split_len(s.drop_last(), sep);
        let prev = split(s.drop_last(), sep);
        if !sep(s.last()) {
            assert forall|i: int| 0 <= i < split(s, sep).len() implies has_no(
                #[trigger] split(s, sep)[i],
                sep,
            ) by {
                if i == prev.len() - 1 {
                    let p = prev.last().push(s.last());
                    assert forall|j: int| 0 <= j < p.len() implies !sep(p[j]) by {
                        if j < p.len() - 1 {
                            assert(p[j] == prev.last()[j]);
                            assert(has_no(prev[prev.len() - 1], sep));
                        }
                    }
                }
            }
        }
    }
}

/// Joining the pieces of a split, at the character split on, gives back the text.
pub proof fn lemma_join_split(s: Seq<char>, c: char)
    ensures
        join(split(s, is_char(c)), c) == s,
    decreases s.len(),
{
    if s.len() > 0 {
        let prev = split(s.drop_last(), is_char(c));
        lemma_join_split(s.drop_last(), c);
        lemma_split_len(s.drop_last(), is_char(c));
        if s.last() == c {
            assert(prev.push(Seq::empty()).drop_last() =~= prev);
            assert(join(prev.push(Seq::empty()), c) =~= s);
        } else {
            let up = prev.update(prev.len() - 1, prev.last().push(s.last()));
            lemma_join_update_last(prev, c, s.last());
            assert(join(up, c) =~= s);
        }
    } else {
        assert(join(seq![Seq::<char>::empty()], c) =~= s);
    }
}

/// Adding a character to the last piece adds it to the end of the join.
pub proof fn lemma_join_update_last(ps: Seq<Seq<char>>, c: char, x: char)
    requires
        ps.len() >= 1,
    ensures
        join(ps.update(ps.len() - 1, ps.last().push(x)), c) == join(ps, c).push(x),
{
    let up = ps.update(ps.len() - 1, ps.last().push(x));
    if ps.len() == 1 {
        assert(join(up, c) == up[0]);
    } else {
        assert(up.drop_last() =~= ps.drop_last());
        assert(join(up, c) == join(ps.drop_last(), c).push(c) + ps.last().push(x));
        assert(join(up, c) =~= join(ps, c).push(x));
    }
}

/// A text without separators in front of another joins the first piece of the other.
pub proof fn lemma_split_prefix(a: Seq<char>, b: Seq<char>, sep: spec_fn(char) -> bool)
    requires
        has_no(a, sep),
    ensures
        split(a + b, sep) == split(b, sep).update(0, a + split(b, sep)[0]),
    decreases b.len(),
{
    lemma_split_len(b, sep);
    if b.len() == 0 {
        assert(a + b =~= a);
        lemma_split_none(a, sep);
        assert(split(b, sep).update(0, a + split(b, sep)[0]) =~= seq![a]);
    } else {
        let b0 = b.drop_last();
        let x = b.last();
        lemma_split_prefix(a, b0, sep);
        lemma_split_len(b0, sep);
        assert((a + b).drop_last() =~= a + b0);
        assert((a + b).last() == x);
        let pb = split(b0, sep);
        if sep(x) {
            assert(split(b, sep) == pb.push(Seq::empty()));
            assert(pb.update(0, a + pb[0]).push(Seq::empty()) =~= pb.push(Seq::empty()).update(
                0,
                a + pb.push(Seq::empty())[0],
            ));
        } else {
            let pab = pb.update(0, a + pb[0]);
            assert(split(b, sep) == pb.update(pb.len() - 1, pb.last().push(x)));
            if pb.len() == 1 {
                assert(pab.update(pab.len() - 1, pab.last().push(x)) =~= pb.update(
                    pb.len() - 1,
                    pb.last().push(x),
                ).update(0, a + pb.update(pb.len() - 1, pb.last().push(x))[0]));
            } else {
                assert(pab.update(pab.len() - 1, pab.last().push(x)) =~= pb.update(
                    pb.len() - 1,
                    pb.last().push(x),
                ).update(0, a + pb.update(pb.len() - 1, pb.last().push(x))[0]));
            }
        }
    }
}

/// The pieces of each text, one list after the other.
pub open spec fn split_each(ts: Seq<Seq<char>>, c: char) -> Seq<Seq<char>>
    decreases ts.len(),
{
    if ts.len() <= 1 {
        if ts.len() == 0 {
            Seq::empty()
        } else {
            split(ts[0], is_char(c))
        }
    } else {
        split_each(ts.drop_last(), c) + split(ts.last(), is_char(c))
    }
}

/// Splitting a join splits each of its texts.
pub proof fn lemma_split_join_each(ts: Seq<Seq<char>>, c: char)
    requires
        ts.len() >= 1,
    ensures
        split(join(ts, c), is_char(c)) == split_each(ts, c),
    decreases ts.len(),
{
    if ts.len() > 1 {
        lemma_split_join_each(ts.drop_last(), c);
        lemma_split_at_sep(join(ts.drop_last(), c), c, ts.last(), is_char(c));
    }
}

/// Joining pieces none of which holds a character `p` picks, with a separator that `p` does
/// not pick, gives a text without such characters.
pub proof fn lemma_join_avoids(parts: Seq<Seq<char>>, c: char, p: spec_fn(char) -> bool)
    requires
        !p(c),
        forall|i: int| 0 <= i < parts.len() ==> has_no(#[trigger] parts[i], p),
    ensures
        has_no(join(parts, c), p),
    decreases parts.len(),
{
    if parts.len() > 1 {
        let init = parts.drop_last();
        assert forall|i: int| 0 <= i < init.len() implies has_no(#[trigger] init[i], p) by {
            assert(init[i] == parts[i]);
        }
        lemma_join_avoids(init, c, p);
        let j = join(parts, c);
        let ji = join(init, c);
        assert(has_no(parts[parts.len() - 1], p));
        assert forall|k: int| 0 <= k < j.len() implies !(#[trigger] p(j[k])) by {
            if k < ji.len() {
                assert(j[k] == ji[k]);
            } else if k > ji.len() {
                assert(j[k] == parts.last()[k - ji.len() - 1]);
            }
        }
    } else if parts.len() == 1 {
        assert(has_no(parts[0], p));
    }
}

/// The pieces of a split hold only characters of the text.
pub proof fn lemma_split_pieces_avoid(s: Seq<char>, sep: spec_fn(char) -> bool, p: spec_fn(char) -> bool)
    requires
        has_no(s, p),
    ensures
        forall|i: int| 0 <= i < split(s, sep).len() ==> has_no(#[trigger] split(s, sep)[i], p),
    decreases s.len(),
{
    if s.len() > 0 {
        assert(has_no(s.drop_last(), p)) by {
            assert forall|j: int| 0 <= j < s.drop_last().len() implies !p(s.drop_last()[j]) by {
                assert(s.drop_last()[j] == s[j]);
            }
        }
        lemma_split_pieces_avoid(s.drop_last(), sep, p);
        lemma_split_len(s.drop_last(), sep);
        let prev = split(s.drop_last(), sep);
        if !sep(s.last()) {
            assert forall|i: int| 0 <= i < split(s, sep).len() implies has_no(
                #[trigger] split(s, sep)[i],
                p,
            ) by {
                if i == prev.len() - 1 {
                    let q = prev.last().push(s.last());
                    assert forall|j: int| 0 <= j < q.len() implies !p(q[j]) by {
                        if j < q.len() - 1 {
                            assert(q[j] == prev.last()[j]);
                            assert(has_no(prev[prev.len() - 1], p));
                        } else {
                            assert(!p(s[s.len() - 1]));
                        }
                    }
                }
            }
        }
    }
}

} // verus!
