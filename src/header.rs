//! FASTA header lines: kept whole (`Plain`), or parsed into the UniProt fields (`UniProt`)
//! `>database|accession|entry_name protein name KEY=value ...`.
use vstd::prelude::*;
use vstd::slice::slice_subrange;

use crate::error::Error;
use crate::text::{
    chars_of, has_no, is_char, join, lemma_chars_deep, lemma_join_split, lemma_split_at_sep,
    lemma_split_join_each, lemma_split_len, lemma_split_none, lemma_split_pieces_avoid,
    lemma_split_pieces, lemma_split_prefix, push_char, push_chars, split, split_each, split_on,
    string_of,
};
use crate::text::lemma_join_avoids;

verus! {

/// The position of the first `c` in `s` at or after `i`, or the length of `s` if there is none.
pub open spec fn find_from(s: Seq<char>, c: char, i: int) -> int
    decreases s.len() - i,
{
    if i < 0 || i >= s.len() {
        s.len() as int
    } else if s[i] == c {
        i
    } else {
        find_from(s, c, i + 1)
    }
}

pub open spec fn has_eq(t: Seq<char>) -> bool {
    !has_no(t, is_char('='))
}

/// The position of the first token at or after `i` that holds `=`, or the number of tokens.
pub open spec fn first_attr(ts: Seq<Seq<char>>, i: int) -> int
    decreases ts.len() - i,
{
    if i < 0 || i >= ts.len() {
        ts.len() as int
    } else if has_eq(ts[i]) {
        i
    } else {
        first_attr(ts, i + 1)
    }
}

/// What stands before the first `=` of a token.
pub open spec fn key_of(t: Seq<char>) -> Seq<char> {
    t.subrange(0, find_from(t, '=', 0))
}

/// What stands after the first `=` of a token.
pub open spec fn value_of(t: Seq<char>) -> Seq<char> {
    t.subrange(find_from(t, '=', 0) + 1, t.len() as int)
}

/// The attributes that tokens write, in order and before duplicate keys are merged: a token
/// with `=` starts an attribute, and each token without one is added, after a space, to the
/// value of the attribute before it. Tokens before the first attribute are dropped.
pub open spec fn attr_groups(ts: Seq<Seq<char>>) -> Seq<(Seq<char>, Seq<char>)>
    decreases ts.len(),
{
    if ts.len() == 0 {
        Seq::empty()
    } else {
        let g = attr_groups(ts.drop_last());
        let t = ts.last();
        if has_eq(t) {
            g.push((key_of(t), value_of(t)))
        } else if g.len() == 0 {
            g
        } else {
            g.update(g.len() - 1, (g.last().0, g.last().1.push(' ') + t))
        }
    }
}

/// The position of the first entry with key `k`, or -1.
pub open spec fn key_index(es: Seq<(Seq<char>, Seq<char>)>, k: Seq<char>) -> int
    decreases es.len(),
{
    if es.len() == 0 {
        -1
    } else if key_index(es.drop_last(), k) >= 0 {
        key_index(es.drop_last(), k)
    } else if es.last().0 == k {
        es.len() - 1
    } else {
        -1
    }
}

/// Sets the value of key `k`: in place when the key is there, else at the end.
pub open spec fn assoc_insert(es: Seq<(Seq<char>, Seq<char>)>, k: Seq<char>, v: Seq<char>) -> Seq<
    (Seq<char>, Seq<char>),
> {
    if key_index(es, k) >= 0 {
        es.update(key_index(es, k), (k, v))
    } else {
        es.push((k, v))
    }
}

pub open spec fn insert_all(
    es: Seq<(Seq<char>, Seq<char>)>,
    gs: Seq<(Seq<char>, Seq<char>)>,
) -> Seq<(Seq<char>, Seq<char>)>
    decreases gs.len(),
{
    if gs.len() == 0 {
        es
    } else {
        let prev = insert_all(es, gs.drop_last());
        assoc_insert(prev, gs.last().0, gs.last().1)
    }
}

/// The keyword attributes that tokens write; a later value of a key replaces an earlier one.
pub open spec fn attributes_of(ts: Seq<Seq<char>>) -> Seq<(Seq<char>, Seq<char>)> {
    insert_all(Seq::empty(), attr_groups(ts))
}

pub open spec fn unique_keys(es: Seq<(Seq<char>, Seq<char>)>) -> bool {
    forall|i: int, j: int| 0 <= i < j < es.len() ==> es[i].0 != es[j].0
}

pub proof fn lemma_key_index(es: Seq<(Seq<char>, Seq<char>)>, k: Seq<char>)
    ensures
        -1 <= key_index(es, k) < es.len(),
        key_index(es, k) < 0 <==> forall|j: int| 0 <= j < es.len() ==> es[j].0 != k,
        key_index(es, k) >= 0 ==> es[key_index(es, k)].0 == k,
    decreases es.len(),
{
    if es.len() > 0 {
        lemma_key_index(es.drop_last(), k);
        if key_index(es.drop_last(), k) < 0 {
            assert forall|j: int| 0 <= j < es.len() - 1 implies es[j].0 != k by {
                assert(es.drop_last()[j] == es[j]);
            }
        } else {
            assert(es.drop_last()[key_index(es.drop_last(), k)] == es[key_index(es, k)]);
        }
    }
}

/// The parts of a UniProt header.
pub struct HeaderView {
    pub database: Seq<char>,
    pub accession: Seq<char>,
    pub entry_name: Seq<char>,
    pub protein_name: Seq<char>,
    pub attributes: Seq<(Seq<char>, Seq<char>)>,
}

/// Reads a UniProt header line: `>` then database and accession, each ended by `|`; the rest
/// is split on spaces into the entry name, the words of the protein name (up to the first
/// word with `=`) and the keyword attributes. Without `>` or two `|` it is malformed.
pub open spec fn decode_header(h: Seq<char>) -> Option<HeaderView> {
    let first_bar = find_from(h, '|', 1);
    let second_bar = find_from(h, '|', first_bar + 1);
    if h.len() == 0 || h[0] != '>' || first_bar >= h.len() || second_bar >= h.len() {
        None
    } else {
        let ts = split(h.subrange(second_bar + 1, h.len() as int), is_char(' '));
        let k = first_attr(ts, 1);
        Some(
            HeaderView {
                database: h.subrange(1, first_bar),
                accession: h.subrange(first_bar + 1, second_bar),
                entry_name: ts[0],
                protein_name: join(ts.subrange(1, k), ' '),
                attributes: attributes_of(ts.subrange(k, ts.len() as int)),
            },
        )
    }
}

pub open spec fn attr_text(e: (Seq<char>, Seq<char>)) -> Seq<char> {
    e.0.push('=') + e.1
}

/// `key=value` for each attribute, joined by spaces.
pub open spec fn attributes_text(es: Seq<(Seq<char>, Seq<char>)>) -> Seq<char> {
    join(es.map_values(|e: (Seq<char>, Seq<char>)| attr_text(e)), ' ')
}

/// Writes a header with its attributes in the order given.
pub open spec fn encode_header(v: HeaderView) -> Seq<char> {
    seq!['>'] + v.database + seq!['|'] + v.accession + seq!['|'] + v.entry_name + seq![' ']
        + v.protein_name + if v.attributes.len() == 0 {
        Seq::empty()
    } else {
        seq![' '] + attributes_text(v.attributes)
    }
}

/// Keyword attributes (`OS=...`, `GN=...`): each key once, in the order in which the keys
/// first came.
pub struct KeywordAttributes {
    entries: Vec<(String, String)>,
}

impl View for KeywordAttributes {
    type V = Seq<(Seq<char>, Seq<char>)>;

    closed spec fn view(&self) -> Seq<(Seq<char>, Seq<char>)> {
        self.entries@.map_values(|e: (String, String)| (e.0@, e.1@))
    }
}

impl KeywordAttributes {
    /// No attributes.
    pub fn new() -> (r: KeywordAttributes)
        ensures
            r@ == Seq::<(Seq<char>, Seq<char>)>::empty(),
    {
        let r = KeywordAttributes { entries: Vec::new() };
        assert(r@ =~= Seq::<(Seq<char>, Seq<char>)>::empty());
        r
    }

    pub fn len(&self) -> (r: usize)
        ensures
            r == self@.len(),
    {
        self.entries.len()
    }

    pub fn is_empty(&self) -> (r: bool)
        ensures
            r == (self@.len() == 0),
    {
        self.entries.len() == 0
    }

    /// The key and value of the `i`-th attribute.
    pub fn entry(&self, i: usize) -> (r: (&String, &String))
        requires
            i < self@.len(),
        ensures
            r.0@ == self@[i as int].0,
            r.1@ == self@[i as int].1,
    {
        let e = &self.entries[i];
        (&e.0, &e.1)
    }

    fn position(&self, key: &String) -> (r: Option<usize>)
        ensures
            match r {
                Some(i) => key_index(self@, key@) == i && i < self.entries@.len(),
                None => key_index(self@, key@) < 0,
            },
            self@.len() == self.entries@.len(),
    {
        proof {
            lemma_key_index(self@, key@);
        }
        let mut i: usize = 0;
        while i < self.entries.len()
            invariant
                i <= self@.len(),
                self@.len() == self.entries@.len(),
                forall|j: int| 0 <= j < i ==> self@[j].0 != key@,
                -1 <= key_index(self@, key@) < self@.len(),
                key_index(self@, key@) < 0 <==> forall|j: int|
                    0 <= j < self@.len() ==> self@[j].0 != key@,
                key_index(self@, key@) >= 0 ==> self@[key_index(self@, key@)].0 == key@,
            decreases self@.len() - i,
        {
            if self.entries[i].0 == *key {
                assert(self@[i as int].0 == key@);
                proof {
                    lemma_first_key(self@, key@, i as int);
                }
                return Some(i);
            }
            i = i + 1;
        }
        None
    }

    /// The value of `key`, if the key is there.
    pub fn get(&self, key: &str) -> (r: Option<&String>)
        ensures
            match r {
                Some(v) => key_index(self@, key@) >= 0 && v@ == self@[key_index(self@, key@)].1,
                None => key_index(self@, key@) < 0,
            },
    {
        let k = String::from_str(key);
        match self.position(&k) {
            Some(i) => Some(&self.entries[i].1),
            None => None,
        }
    }

    pub fn contains_key(&self, key: &str) -> (r: bool)
        ensures
            r == (key_index(self@, key@) >= 0),
    {
        let k = String::from_str(key);
        self.position(&k).is_some()
    }

    /// Sets the value of `key`; an earlier value is replaced, in its place.
    pub fn insert(&mut self, key: String, value: String)
        ensures
            final(self)@ == assoc_insert(old(self)@, key@, value@),
    {
        match self.position(&key) {
            Some(i) => {
                let ghost k = key@;
                let ghost v = value@;
                self.entries[i] = (key, value);
                assert(self@ =~= old(self)@.update(i as int, (k, v)));
            },
            None => {
                let ghost k = key@;
                let ghost v = value@;
                self.entries.push((key, value));
                assert(self@ =~= old(self)@.push((k, v)));
            },
        }
    }
}

/// An entry with key `k` before which no entry has it is the first one.
proof fn lemma_first_key(es: Seq<(Seq<char>, Seq<char>)>, k: Seq<char>, i: int)
    requires
        0 <= i < es.len(),
        es[i].0 == k,
        forall|j: int| 0 <= j < i ==> es[j].0 != k,
    ensures
        key_index(es, k) == i,
    decreases es.len(),
{
    lemma_key_index(es, k);
    if i < es.len() - 1 {
        assert(es.drop_last()[i] == es[i]);
        assert forall|j: int| 0 <= j < i implies es.drop_last()[j].0 != k by {
            assert(es.drop_last()[j] == es[j]);
        }
        lemma_first_key(es.drop_last(), k, i);
    } else {
        lemma_key_index(es.drop_last(), k);
        assert forall|j: int| 0 <= j < es.len() - 1 implies es.drop_last()[j].0 != k by {
            assert(es.drop_last()[j] == es[j]);
        }
    }
}

pub proof fn lemma_find_from(s: Seq<char>, c: char, i: int)
    requires
        0 <= i <= s.len(),
    ensures
        i <= find_from(s, c, i) <= s.len(),
        find_from(s, c, i) < s.len() ==> s[find_from(s, c, i)] == c,
        forall|j: int| i <= j < find_from(s, c, i) ==> s[j] != c,
    decreases s.len() - i,
{
    if i < s.len() && s[i] != c {
        lemma_find_from(s, c, i + 1);
    }
}

fn find_char(s: &[char], c: char, i: usize) -> (r: usize)
    requires
        i <= s@.len(),
    ensures
        r == find_from(s@, c, i as int),
        i <= r <= s@.len(),
{
    proof {
        lemma_find_from(s@, c, i as int);
    }
    let mut j: usize = i;
    while j < s.len() && s[j] != c
        invariant
            i <= j <= s@.len(),
            find_from(s@, c, i as int) == find_from(s@, c, j as int),
        decreases s@.len() - j,
    {
        j = j + 1;
    }
    j
}

fn has_equals(t: &[char]) -> (r: bool)
    ensures
        r == has_eq(t@),
{
    let mut i: usize = 0;
    while i < t.len()
        invariant
            i <= t@.len(),
            forall|j: int| 0 <= j < i ==> t@[j] != '=',
        decreases t@.len() - i,
    {
        if t[i] == '=' {
            assert(is_char('=')(t@[i as int]));
            return true;
        }
        i = i + 1;
    }
    false
}

fn extend_chars(v: &mut Vec<char>, s: &[char])
    ensures
        final(v)@ == old(v)@ + s@,
{
    let mut i: usize = 0;
    while i < s.len()
        invariant
            i <= s@.len(),
            v@ == old(v)@ + s@.take(i as int),
        decreases s@.len() - i,
    {
        v.push(s[i]);
        i = i + 1;
        assert(v@ =~= old(v)@ + s@.take(i as int));
    }
    assert(s@.take(i as int) =~= s@);
}

pub open spec fn groups_view(gs: Seq<(Vec<char>, Vec<char>)>) -> Seq<(Seq<char>, Seq<char>)> {
    gs.map_values(|g: (Vec<char>, Vec<char>)| (g.0@, g.1@))
}

/// The attributes that the tokens `ts[from..]` write.
fn parse_attributes(ts: &Vec<Vec<char>>, from: usize) -> (r: KeywordAttributes)
    requires
        from <= ts@.len(),
    ensures
        r@ == attributes_of(ts.deep_view().subrange(from as int, ts@.len() as int)),
{
    let ghost tv = ts.deep_view().subrange(from as int, ts@.len() as int);
    let mut groups: Vec<(Vec<char>, Vec<char>)> = Vec::new();
    let mut i: usize = from;
    assert(tv.take(0) =~= Seq::<Seq<char>>::empty());
    assert(groups_view(groups@) =~= attr_groups(tv.take(0)));
    while i < ts.len()
        invariant
            from <= i <= ts@.len(),
            tv == ts.deep_view().subrange(from as int, ts@.len() as int),
            groups_view(groups@) == attr_groups(tv.take(i - from)),
        decreases ts@.len() - i,
    {
        let t = ts[i].as_slice();
        proof {
            lemma_chars_deep(ts@[i as int]);
        }
        assert(tv.take(i - from + 1).drop_last() =~= tv.take(i - from));
        assert(tv.take(i - from + 1).last() == t@);
        let ghost before = groups_view(groups@);
        if has_equals(t) {
            let p = find_char(t, '=', 0);
            let n = t.len();
            proof {
                lemma_find_from(t@, '=', 0);
                let j = choose|j: int| 0 <= j < t@.len() && is_char('=')(t@[j]);
                assert(p <= j);
                assert(p < t@.len());
            }
            let key = vstd::slice::slice_to_vec(slice_subrange(t, 0, p));
            let value = vstd::slice::slice_to_vec(slice_subrange(t, p + 1, n));
            groups.push((key, value));
            assert(groups_view(groups@) =~= before.push((key_of(t@), value_of(t@))));
        } else if groups.len() > 0 {
            let (key, mut value) = groups.pop().unwrap();
            value.push(' ');
            extend_chars(&mut value, t);
            groups.push((key, value));
            assert(groups_view(groups@) =~= before.update(
                before.len() - 1,
                (before.last().0, before.last().1.push(' ') + t@),
            ));
        }
        i = i + 1;
    }
    assert(tv.take(i - from) =~= tv);
    let ghost gv = groups_view(groups@);
    let mut r = KeywordAttributes::new();
    let mut j: usize = 0;
    assert(gv.take(0) =~= Seq::<(Seq<char>, Seq<char>)>::empty());
    while j < groups.len()
        invariant
            j <= groups@.len(),
            gv == groups_view(groups@),
            r@ == insert_all(Seq::empty(), gv.take(j as int)),
        decreases groups@.len() - j,
    {
        assert(gv.take(j as int + 1).drop_last() =~= gv.take(j as int));
        let key = string_of(groups[j].0.as_slice());
        let value = string_of(groups[j].1.as_slice());
        r.insert(key, value);
        j = j + 1;
    }
    assert(gv.take(j as int) =~= gv);
    r
}

/// The tokens `ts[lo..hi]`, joined by spaces.
fn join_tokens(ts: &Vec<Vec<char>>, lo: usize, hi: usize) -> (r: String)
    requires
        lo <= hi <= ts@.len(),
    ensures
        r@ == join(ts.deep_view().subrange(lo as int, hi as int), ' '),
{
    let ghost tv = ts.deep_view();
    let mut out = String::new();
    let mut i: usize = lo;
    assert(tv.subrange(lo as int, lo as int) =~= Seq::<Seq<char>>::empty());
    while i < hi
        invariant
            lo <= i <= hi <= ts@.len(),
            tv == ts.deep_view(),
            out@ == join(tv.subrange(lo as int, i as int), ' '),
        decreases hi - i,
    {
        proof {
            lemma_chars_deep(ts@[i as int]);
        }
        let ghost before = out@;
        assert(tv.subrange(lo as int, i as int + 1).drop_last() =~= tv.subrange(lo as int, i as int));
        if i > lo {
            push_char(&mut out, ' ');
        } else {
            assert(tv.subrange(lo as int, i as int + 1) =~= seq![tv[i as int]]);
        }
        push_chars(&mut out, ts[i].as_slice());
        i = i + 1;
    }
    out
}

/// A parsed UniProt header.
pub struct UniProt {
    database: String,
    accession: String,
    entry_name: String,
    protein_name: String,
    keyword_attributes: KeywordAttributes,
}

impl View for UniProt {
    type V = HeaderView;

    closed spec fn view(&self) -> HeaderView {
        HeaderView {
            database: self.database@,
            accession: self.accession@,
            entry_name: self.entry_name@,
            protein_name: self.protein_name@,
            attributes: self.keyword_attributes@,
        }
    }
}

impl UniProt {
    /// A header made of its parts.
    pub fn from_parts(
        database: String,
        accession: String,
        entry_name: String,
        protein_name: String,
        keyword_attributes: KeywordAttributes,
    ) -> (r: UniProt)
        ensures
            r@ == (HeaderView {
                database: database@,
                accession: accession@,
                entry_name: entry_name@,
                protein_name: protein_name@,
                attributes: keyword_attributes@,
            }),
    {
        UniProt { database, accession, entry_name, protein_name, keyword_attributes }
    }

    /// Reads a header line (with its `>`).
    pub fn parse(header: &str) -> (r: Result<UniProt, Error>)
        ensures
            match r {
                Ok(u) => decode_header(header@) == Some(u@),
                Err(e) => decode_header(header@) is None && e == Error::MalformedHeader,
            },
    {
        let h = chars_of(header);
        let n = h.len();
        if n == 0 || h[0] != '>' {
            return Err(Error::MalformedHeader);
        }
        let first_bar = find_char(h.as_slice(), '|', 1);
        if first_bar >= n {
            return Err(Error::MalformedHeader);
        }
        let second_bar = find_char(h.as_slice(), '|', first_bar + 1);
        if second_bar >= n {
            return Err(Error::MalformedHeader);
        }
        let rest = slice_subrange(h.as_slice(), second_bar + 1, n);
        let ts = split_on(rest, ' ');
        let ghost tv = ts.deep_view();
        proof {
            crate::text::lemma_split_len(rest@, is_char(' '));
            lemma_chars_deep(ts@[0]);
        }
        let mut k: usize = 1;
        while k < ts.len() && !has_equals(ts[k].as_slice())
            invariant
                1 <= k <= ts@.len(),
                tv == ts.deep_view(),
                first_attr(tv, 1) == first_attr(tv, k as int),
            decreases ts@.len() - k,
        {
            proof {
                lemma_chars_deep(ts@[k as int]);
            }
            k = k + 1;
        }
        proof {
            if k < ts@.len() {
                lemma_chars_deep(ts@[k as int]);
            }
        }
        let u = UniProt {
            database: string_of(slice_subrange(h.as_slice(), 1, first_bar)),
            accession: string_of(slice_subrange(h.as_slice(), first_bar + 1, second_bar)),
            entry_name: string_of(ts[0].as_slice()),
            protein_name: join_tokens(&ts, 1, k),
            keyword_attributes: parse_attributes(&ts, k),
        };
        Ok(u)
    }

    pub fn get_database(&self) -> (r: &str)
        ensures
            r@ == self@.database,
    {
        self.database.as_str()
    }

    pub fn get_accession(&self) -> (r: &str)
        ensures
            r@ == self@.accession,
    {
        self.accession.as_str()
    }

    pub fn get_entry_name(&self) -> (r: &str)
        ensures
            r@ == self@.entry_name,
    {
        self.entry_name.as_str()
    }

    pub fn get_protein_name(&self) -> (r: &str)
        ensures
            r@ == self@.protein_name,
    {
        self.protein_name.as_str()
    }

    /// The keyword attributes, like gene (`GN`) and organism (`OS`).
    pub fn get_keyword_attributes(&self) -> (r: &KeywordAttributes)
        ensures
            r@ == self@.attributes,
    {
        &self.keyword_attributes
    }
}

/// `a` comes before `b`: at the first character where they differ `a`'s is smaller, or `a` is
/// a proper prefix of `b`.
pub open spec fn key_less(a: Seq<char>, b: Seq<char>) -> bool
    decreases a.len(),
{
    if b.len() == 0 {
        false
    } else if a.len() == 0 {
        true
    } else if a[0] != b[0] {
        a[0] < b[0]
    } else {
        key_less(a.drop_first(), b.drop_first())
    }
}

/// The position of the first entry at or after `i` whose key comes after `k`, or the length.
pub open spec fn insert_position(o: Seq<(Seq<char>, Seq<char>)>, k: Seq<char>, i: int) -> int
    decreases o.len() - i,
{
    if i < 0 || i >= o.len() {
        o.len() as int
    } else if key_less(k, o[i].0) {
        i
    } else {
        insert_position(o, k, i + 1)
    }
}

/// The entries ordered by key; entries with equal keys keep their order.
pub open spec fn sort_by_key(es: Seq<(Seq<char>, Seq<char>)>) -> Seq<(Seq<char>, Seq<char>)>
    decreases es.len(),
{
    if es.len() == 0 {
        es
    } else {
        let o = sort_by_key(es.drop_last());
        o.insert(insert_position(o, es.last().0, 0), es.last())
    }
}

fn key_less_exec(a: &[char], b: &[char]) -> (r: bool)
    ensures
        r == key_less(a@, b@),
{
    let mut i: usize = 0;
    assert(a@.skip(0) =~= a@);
    assert(b@.skip(0) =~= b@);
    while i < a.len() && i < b.len() && a[i] == b[i]
        invariant
            i <= a@.len(),
            i <= b@.len(),
            key_less(a@, b@) == key_less(a@.skip(i as int), b@.skip(i as int)),
        decreases a@.len() - i,
    {
        assert(a@.skip(i as int).drop_first() =~= a@.skip(i as int + 1));
        assert(b@.skip(i as int).drop_first() =~= b@.skip(i as int + 1));
        i = i + 1;
    }
    assert(i < a@.len() ==> a@.skip(i as int)[0] == a@[i as int]);
    assert(i < b@.len() ==> b@.skip(i as int)[0] == b@[i as int]);
    if i >= b.len() {
        false
    } else if i >= a.len() {
        true
    } else {
        a[i] < b[i]
    }
}

pub open spec fn entries_view(es: Seq<(String, String)>) -> Seq<(Seq<char>, Seq<char>)> {
    es.map_values(|e: (String, String)| (e.0@, e.1@))
}

/// The entries, ordered by key.
fn sorted_entries(es: &Vec<(String, String)>) -> (r: Vec<(String, String)>)
    ensures
        entries_view(r@) == sort_by_key(entries_view(es@)),
{
    let ghost ev = entries_view(es@);
    let mut out: Vec<(String, String)> = Vec::new();
    let mut i: usize = 0;
    assert(ev.take(0) =~= Seq::<(Seq<char>, Seq<char>)>::empty());
    assert(entries_view(out@) =~= sort_by_key(ev.take(0)));
    while i < es.len()
        invariant
            i <= es@.len(),
            ev == entries_view(es@),
            entries_view(out@) == sort_by_key(ev.take(i as int)),
        decreases es@.len() - i,
    {
        let ghost ov = entries_view(out@);
        assert(ev.take(i as int + 1).drop_last() =~= ev.take(i as int));
        assert(ev.take(i as int + 1).last() == ev[i as int]);
        let k = chars_of(es[i].0.as_str());
        let mut p: usize = 0;
        while p < out.len() && !key_less_exec(k.as_slice(), chars_of(out[p].0.as_str()).as_slice())
            invariant
                p <= out@.len(),
                ov == entries_view(out@),
                k@ == ev[i as int].0,
                insert_position(ov, k@, 0) == insert_position(ov, k@, p as int),
            decreases out@.len() - p,
        {
            p = p + 1;
        }
        let e = (es[i].0.clone(), es[i].1.clone());
        out.insert(p, e);
        assert(entries_view(out@) =~= ov.insert(p as int, ev[i as int]));
        i = i + 1;
    }
    assert(ev.take(i as int) =~= ev);
    out
}

/// Appends `key=value` for each entry, joined by spaces.
fn push_attributes(out: &mut String, es: &Vec<(String, String)>)
    requires
        es@.len() > 0,
    ensures
        final(out)@ == old(out)@ + attributes_text(entries_view(es@)),
{
    let ghost ev = entries_view(es@);
    let ghost texts = ev.map_values(|e: (Seq<char>, Seq<char>)| attr_text(e));
    let ghost start = out@;
    let mut i: usize = 0;
    assert(texts.take(0) =~= Seq::<Seq<char>>::empty());
    assert(out@ =~= start + join(texts.take(0), ' '));
    while i < es.len()
        invariant
            i <= es@.len(),
            ev == entries_view(es@),
            texts == ev.map_values(|e: (Seq<char>, Seq<char>)| attr_text(e)),
            out@ == start + join(texts.take(i as int), ' '),
        decreases es@.len() - i,
    {
        assert(texts.take(i as int + 1).drop_last() =~= texts.take(i as int));
        if i > 0 {
            push_char(out, ' ');
        } else {
            assert(texts.take(1) =~= seq![texts[0]]);
        }
        out.append(es[i].0.as_str());
        push_char(out, '=');
        out.append(es[i].1.as_str());
        i = i + 1;
        assert(out@ =~= start + join(texts.take(i as int), ' '));
    }
    assert(texts.take(i as int) =~= texts);
}

impl UniProt {
    /// Writes the header line: `>database|accession|entry_name protein_name`, then a space and
    /// the `KEY=value` attributes if there are any, in their order or sorted by key.
    pub fn encode(&self, sort_keyword_attributes: bool) -> (r: String)
        ensures
            r@ == encode_header(
                HeaderView {
                    attributes: if sort_keyword_attributes {
                        sort_by_key(self@.attributes)
                    } else {
                        self@.attributes
                    },
                    ..self@
                },
            ),
    {
        let mut out = String::new();
        push_char(&mut out, '>');
        out.append(self.database.as_str());
        push_char(&mut out, '|');
        out.append(self.accession.as_str());
        push_char(&mut out, '|');
        out.append(self.entry_name.as_str());
        push_char(&mut out, ' ');
        out.append(self.protein_name.as_str());
        let ghost head = out@;
        let entries = &self.keyword_attributes.entries;
        assert(self@.attributes == entries_view(entries@));
        if entries.len() > 0 {
            push_char(&mut out, ' ');
            if sort_keyword_attributes {
                let sorted = sorted_entries(entries);
                assert(sorted@.len() == entries@.len()) by {
                    lemma_sort_len(entries_view(entries@));
                }
                push_attributes(&mut out, &sorted);
            } else {
                push_attributes(&mut out, entries);
            }
        } else {
            proof {
                lemma_sort_len(entries_view(entries@));
            }
        }
        assert(out@ =~= encode_header(
            HeaderView {
                attributes: if sort_keyword_attributes {
                    sort_by_key(self@.attributes)
                } else {
                    self@.attributes
                },
                ..self@
            },
        ));
        out
    }

    /// The header line, with the attributes sorted by key.
    pub fn to_string(&self) -> (r: String)
        ensures
            r@ == encode_header(HeaderView { attributes: sort_by_key(self@.attributes), ..self@ }),
    {
        self.encode(true)
    }
}

pub proof fn lemma_sort_len(es: Seq<(Seq<char>, Seq<char>)>)
    ensures
        sort_by_key(es).len() == es.len(),
    decreases es.len(),
{
    if es.len() > 0 {
        lemma_sort_len(es.drop_last());
        lemma_insert_position(sort_by_key(es.drop_last()), es.last().0, 0);
    }
}

pub proof fn lemma_insert_position(o: Seq<(Seq<char>, Seq<char>)>, k: Seq<char>, i: int)
    requires
        0 <= i <= o.len(),
    ensures
        i <= insert_position(o, k, i) <= o.len(),
        insert_position(o, k, i) < o.len() ==> key_less(k, o[insert_position(o, k, i)].0),
        forall|j: int| i <= j < insert_position(o, k, i) ==> !key_less(k, #[trigger] o[j].0),
    decreases o.len() - i,
{
    if i < o.len() && !key_less(k, o[i].0) {
        lemma_insert_position(o, k, i + 1);
    }
}

/// A header in one of two forms, read from its line and written back.
pub trait Header: Sized {
    /// Reads the header from its line (with its `>`).
    fn new(header: &str) -> Result<Self, Error>;

    /// The header line.
    fn to_string(&self) -> String;
}

/// A header kept as its whole line.
pub struct Plain {
    header: String,
}

impl View for Plain {
    type V = Seq<char>;

    closed spec fn view(&self) -> Seq<char> {
        self.header@
    }
}

impl Plain {
    /// Keeps the line as it is.
    pub fn from_line(header: &str) -> (r: Plain)
        ensures
            r@ == header@,
    {
        Plain { header: String::from_str(header) }
    }

    pub fn get_header(&self) -> (r: &str)
        ensures
            r@ == self@,
    {
        self.header.as_str()
    }
}

impl Header for Plain {
    fn new(header: &str) -> Result<Plain, Error> {
        Ok(Plain::from_line(header))
    }

    fn to_string(&self) -> String {
        self.header.clone()
    }
}

impl Header for UniProt {
    fn new(header: &str) -> Result<UniProt, Error> {
        UniProt::parse(header)
    }

    fn to_string(&self) -> String {
        self.encode(true)
    }
}

/// A value whose words after the first hold no `=`: it reads back as one attribute value.
pub open spec fn value_wf(v: Seq<char>) -> bool {
    forall|i: int|
        1 <= i < split(v, is_char(' ')).len() ==> !has_eq(#[trigger] split(v, is_char(' '))[i])
}

pub open spec fn attribute_wf(e: (Seq<char>, Seq<char>)) -> bool {
    has_no(e.0, is_char(' ')) && has_no(e.0, is_char('=')) && value_wf(e.1)
}

pub open spec fn attributes_wf(es: Seq<(Seq<char>, Seq<char>)>) -> bool {
    unique_keys(es) && forall|i: int| 0 <= i < es.len() ==> attribute_wf(#[trigger] es[i])
}

/// A header that reads back from its line: database and accession without `|`, an entry name
/// without spaces, a protein name without `=`, and well-formed attributes with distinct keys.
pub open spec fn header_wf(v: HeaderView) -> bool {
    &&& has_no(v.database, is_char('|'))
    &&& has_no(v.accession, is_char('|'))
    &&& has_no(v.entry_name, is_char(' '))
    &&& has_no(v.protein_name, is_char('='))
    &&& attributes_wf(v.attributes)
}

pub proof fn lemma_find_exact(s: Seq<char>, c: char, i: int, j: int)
    requires
        0 <= i <= j <= s.len(),
        forall|k: int| i <= k < j ==> s[k] != c,
        j == s.len() || s[j] == c,
    ensures
        find_from(s, c, i) == j,
    decreases j - i,
{
    if i < j {
        lemma_find_exact(s, c, i + 1, j);
    }
}

pub proof fn lemma_first_attr_exact(ts: Seq<Seq<char>>, i: int, m: int)
    requires
        0 <= i <= m <= ts.len(),
        forall|k: int| i <= k < m ==> !has_eq(#[trigger] ts[k]),
        m == ts.len() || has_eq(ts[m]),
    ensures
        first_attr(ts, i) == m,
    decreases m - i,
{
    if i < m {
        lemma_first_attr_exact(ts, i + 1, m);
    }
}

/// The tokens of one attribute, after those of others, add that one attribute.
pub proof fn lemma_groups_append(x: Seq<Seq<char>>, g: Seq<Seq<char>>)
    requires
        g.len() >= 1,
        has_eq(g[0]),
        forall|j: int| 1 <= j < g.len() ==> !has_eq(#[trigger] g[j]),
    ensures
        attr_groups(x + g) == attr_groups(x).push(
            (key_of(g[0]), join(seq![value_of(g[0])] + g.skip(1), ' ')),
        ),
    decreases g.len(),
{
    if g.len() == 1 {
        assert((x + g).drop_last() =~= x);
        assert(seq![value_of(g[0])] + g.skip(1) =~= seq![value_of(g[0])]);
    } else {
        let g0 = g.drop_last();
        lemma_groups_append(x, g0);
        assert((x + g).drop_last() =~= x + g0);
        assert(!has_eq(g[g.len() - 1]));
        let q = seq![value_of(g[0])] + g.skip(1);
        let q0 = seq![value_of(g[0])] + g0.skip(1);
        assert(q.drop_last() =~= q0);
        assert(join(q, ' ') == join(q0, ' ').push(' ') + g.last());
    }
}

pub open spec fn attr_texts(es: Seq<(Seq<char>, Seq<char>)>) -> Seq<Seq<char>> {
    es.map_values(|e: (Seq<char>, Seq<char>)| attr_text(e))
}

/// The tokens of one written attribute.
proof fn lemma_attr_tokens(e: (Seq<char>, Seq<char>))
    requires
        attribute_wf(e),
    ensures
        split(attr_text(e), is_char(' ')).len() >= 1,
        has_eq(split(attr_text(e), is_char(' '))[0]),
        forall|j: int|
            1 <= j < split(attr_text(e), is_char(' ')).len() ==> !has_eq(
                #[trigger] split(attr_text(e), is_char(' '))[j],
            ),
        key_of(split(attr_text(e), is_char(' '))[0]) == e.0,
        join(
            seq![value_of(split(attr_text(e), is_char(' '))[0])] + split(
                attr_text(e),
                is_char(' '),
            ).skip(1),
            ' ',
        ) == e.1,
{
    let k = e.0;
    let v = e.1;
    let kp = k.push('=');
    assert(has_no(kp, is_char(' '))) by {
        assert forall|j: int| 0 <= j < kp.len() implies !is_char(' ')(kp[j]) by {
            if j < k.len() {
                assert(kp[j] == k[j]);
            }
        }
    }
    lemma_split_prefix(kp, v, is_char(' '));
    lemma_split_len(v, is_char(' '));
    let sv = split(v, is_char(' '));
    let g = split(attr_text(e), is_char(' '));
    assert(g == sv.update(0, kp + sv[0]));
    let t = kp + sv[0];
    assert(g[0] == t);
    assert(t[k.len() as int] == '=');
    assert(has_eq(t)) by {
        assert(is_char('=')(t[k.len() as int]));
    }
    assert forall|j: int| 0 <= j < k.len() implies t[j] != '=' by {
        assert(t[j] == k[j]);
        assert(!is_char('=')(k[j]));
    }
    lemma_find_exact(t, '=', 0, k.len() as int);
    assert(key_of(t) =~= k);
    assert(value_of(t) =~= sv[0]);
    assert forall|j: int| 1 <= j < g.len() implies !has_eq(#[trigger] g[j]) by {
        assert(g[j] == sv[j]);
    }
    assert(seq![value_of(t)] + g.skip(1) =~= sv);
    lemma_join_split(v, ' ');
}

/// The tokens of written attributes group back into those attributes.
proof fn lemma_groups_of_texts(es: Seq<(Seq<char>, Seq<char>)>)
    requires
        es.len() >= 1,
        forall|i: int| 0 <= i < es.len() ==> attribute_wf(#[trigger] es[i]),
    ensures
        split_each(attr_texts(es), ' ').len() >= 1,
        has_eq(split_each(attr_texts(es), ' ')[0]),
        attr_groups(split_each(attr_texts(es), ' ')) == es,
    decreases es.len(),
{
    let ts = attr_texts(es);
    let last = es[es.len() - 1];
    lemma_attr_tokens(last);
    let g = split(attr_text(last), is_char(' '));
    if es.len() == 1 {
        assert(split_each(ts, ' ') == g);
        assert(Seq::<Seq<char>>::empty() + g =~= g);
        lemma_groups_append(Seq::empty(), g);
        assert(attr_groups(Seq::<Seq<char>>::empty()) =~= Seq::<(Seq<char>, Seq<char>)>::empty());
        assert(es =~= seq![last]);
    } else {
        let init = es.drop_last();
        assert forall|i: int| 0 <= i < init.len() implies attribute_wf(#[trigger] init[i]) by {
            assert(init[i] == es[i]);
        }
        lemma_groups_of_texts(init);
        assert(ts.drop_last() =~= attr_texts(init));
        let x = split_each(attr_texts(init), ' ');
        assert(split_each(ts, ' ') == x + g);
        lemma_groups_append(x, g);
        assert(init.push(last) =~= es);
    }
}

/// With distinct keys, inserting the attributes one after the other keeps them as they are.
pub proof fn lemma_insert_all_unique(es: Seq<(Seq<char>, Seq<char>)>)
    requires
        unique_keys(es),
    ensures
        insert_all(Seq::empty(), es) == es,
    decreases es.len(),
{
    if es.len() > 0 {
        let init = es.drop_last();
        lemma_insert_all_unique(init);
        lemma_key_index(init, es.last().0);
        assert forall|j: int| 0 <= j < init.len() implies init[j].0 != es.last().0 by {
            assert(init[j] == es[j]);
        }
        assert(init.push(es.last()) =~= es);
    }
}

/// A well-formed header reads back from the line that `encode_header` writes.
pub proof fn lemma_encode_decode(w: HeaderView)
    requires
        header_wf(w),
    ensures
        decode_header(encode_header(w)) == Some(w),
{
    let db = w.database;
    let acc = w.accession;
    let a_part = if w.attributes.len() == 0 {
        Seq::<char>::empty()
    } else {
        seq![' '] + attributes_text(w.attributes)
    };
    let tail = w.protein_name + a_part;
    let r = w.entry_name.push(' ') + tail;
    let h = encode_header(w);
    assert(h =~= seq!['>'] + db + seq!['|'] + acc + seq!['|'] + r);
    let first_bar: int = 1 + db.len() as int;
    let second_bar: int = first_bar + 1 + acc.len() as int;
    assert forall|k: int| 1 <= k < first_bar implies h[k] != '|' by {
        assert(h[k] == db[k - 1]);
        assert(!is_char('|')(db[k - 1]));
    }
    assert(h[first_bar] == '|');
    lemma_find_exact(h, '|', 1, first_bar);
    assert forall|k: int| first_bar + 1 <= k < second_bar implies h[k] != '|' by {
        assert(h[k] == acc[k - first_bar - 1]);
        assert(!is_char('|')(acc[k - first_bar - 1]));
    }
    assert(h[second_bar] == '|');
    lemma_find_exact(h, '|', first_bar + 1, second_bar);
    assert(h.subrange(1, first_bar) =~= db);
    assert(h.subrange(first_bar + 1, second_bar) =~= acc);
    assert(h.subrange(second_bar + 1, h.len() as int) =~= r);
    lemma_split_at_sep(w.entry_name, ' ', tail, is_char(' '));
    lemma_split_none(w.entry_name, is_char(' '));
    let ts = split(r, is_char(' '));
    let pt = split(w.protein_name, is_char(' '));
    lemma_split_pieces_avoid(w.protein_name, is_char(' '), is_char('='));
    lemma_join_split(w.protein_name, ' ');
    lemma_split_len(w.protein_name, is_char(' '));
    if w.attributes.len() == 0 {
        assert(tail =~= w.protein_name);
        assert(ts == seq![w.entry_name] + pt);
        assert forall|k: int| 1 <= k < ts.len() implies !has_eq(#[trigger] ts[k]) by {
            assert(ts[k] == pt[k - 1]);
        }
        lemma_first_attr_exact(ts, 1, ts.len() as int);
        assert(ts.subrange(1, ts.len() as int) =~= pt);
        assert(ts.subrange(ts.len() as int, ts.len() as int) =~= Seq::<Seq<char>>::empty());
        assert(attr_groups(Seq::<Seq<char>>::empty()) =~= Seq::<(Seq<char>, Seq<char>)>::empty());
        assert(w.attributes =~= Seq::<(Seq<char>, Seq<char>)>::empty());
    } else {
        let texts = attr_texts(w.attributes);
        assert(tail =~= w.protein_name.push(' ') + attributes_text(w.attributes));
        lemma_split_at_sep(w.protein_name, ' ', attributes_text(w.attributes), is_char(' '));
        lemma_split_join_each(texts, ' ');
        lemma_groups_of_texts(w.attributes);
        let st = split_each(texts, ' ');
        assert(ts == seq![w.entry_name] + (pt + st));
        let m: int = 1 + pt.len() as int;
        assert forall|k: int| 1 <= k < m implies !has_eq(#[trigger] ts[k]) by {
            assert(ts[k] == pt[k - 1]);
        }
        assert(ts[m] == st[0]);
        lemma_first_attr_exact(ts, 1, m);
        assert(ts.subrange(1, m) =~= pt);
        assert(ts.subrange(m, ts.len() as int) =~= st);
        lemma_insert_all_unique(w.attributes);
    }
}

pub proof fn lemma_first_attr(ts: Seq<Seq<char>>, i: int)
    requires
        0 <= i <= ts.len(),
    ensures
        i <= first_attr(ts, i) <= ts.len(),
        forall|j: int| i <= j < first_attr(ts, i) ==> !has_eq(#[trigger] ts[j]),
    decreases ts.len() - i,
{
    if i < ts.len() && !has_eq(ts[i]) {
        lemma_first_attr(ts, i + 1);
    }
}

/// The attributes that tokens without spaces write are well-formed, one by one.
proof fn lemma_groups_wf(ts: Seq<Seq<char>>)
    requires
        forall|i: int| 0 <= i < ts.len() ==> has_no(#[trigger] ts[i], is_char(' ')),
    ensures
        forall|i: int| 0 <= i < attr_groups(ts).len() ==> attribute_wf(#[trigger] attr_groups(ts)[i]),
    decreases ts.len(),
{
    if ts.len() > 0 {
        let init = ts.drop_last();
        assert forall|i: int| 0 <= i < init.len() implies has_no(#[trigger] init[i], is_char(' ')) by {
            assert(init[i] == ts[i]);
        }
        lemma_groups_wf(init);
        let prev = attr_groups(init);
        let t = ts.last();
        assert(has_no(ts[ts.len() - 1], is_char(' ')));
        if has_eq(t) {
            lemma_find_from(t, '=', 0);
            let j = choose|j: int| 0 <= j < t.len() && is_char('=')(t[j]);
            let p = find_from(t, '=', 0);
            assert(p <= j);
            let key = key_of(t);
            let value = value_of(t);
            assert forall|k: int| 0 <= k < key.len() implies !is_char(' ')(key[k]) && !is_char(
                '=',
            )(key[k]) by {
                assert(key[k] == t[k]);
            }
            assert(has_no(value, is_char(' '))) by {
                assert forall|k: int| 0 <= k < value.len() implies !is_char(' ')(value[k]) by {
                    assert(value[k] == t[k + p + 1]);
                }
            }
            lemma_split_none(value, is_char(' '));
            assert(value_wf(value));
            assert forall|i: int| 0 <= i < attr_groups(ts).len() implies attribute_wf(
                #[trigger] attr_groups(ts)[i],
            ) by {
                if i < prev.len() {
                    assert(attr_groups(ts)[i] == prev[i]);
                }
            }
        } else if prev.len() > 0 {
            let last = prev.last();
            let nv = last.1.push(' ') + t;
            assert(attribute_wf(prev[prev.len() - 1]));
            lemma_split_at_sep(last.1, ' ', t, is_char(' '));
            lemma_split_none(t, is_char(' '));
            let sv = split(last.1, is_char(' '));
            assert(split(nv, is_char(' ')) == sv + seq![t]);
            assert(value_wf(nv)) by {
                assert forall|i: int|
                    1 <= i < split(nv, is_char(' ')).len() implies !has_eq(
                    #[trigger] split(nv, is_char(' '))[i],
                ) by {
                    if i < sv.len() {
                        assert(split(nv, is_char(' '))[i] == sv[i]);
                    } else {
                        assert(split(nv, is_char(' '))[i] == t);
                    }
                }
            }
            assert forall|i: int| 0 <= i < attr_groups(ts).len() implies attribute_wf(
                #[trigger] attr_groups(ts)[i],
            ) by {
                if i < prev.len() - 1 {
                    assert(attr_groups(ts)[i] == prev[i]);
                }
            }
        }
    }
}

/// Inserting well-formed attributes keeps a well-formed list well-formed, its keys distinct.
proof fn lemma_insert_all_wf(es: Seq<(Seq<char>, Seq<char>)>, gs: Seq<(Seq<char>, Seq<char>)>)
    requires
        attributes_wf(es),
        forall|i: int| 0 <= i < gs.len() ==> attribute_wf(#[trigger] gs[i]),
    ensures
        attributes_wf(insert_all(es, gs)),
    decreases gs.len(),
{
    if gs.len() > 0 {
        let init = gs.drop_last();
        assert forall|i: int| 0 <= i < init.len() implies attribute_wf(#[trigger] init[i]) by {
            assert(init[i] == gs[i]);
        }
        lemma_insert_all_wf(es, init);
        let prev = insert_all(es, init);
        let g = gs.last();
        assert(attribute_wf(gs[gs.len() - 1]));
        lemma_key_index(prev, g.0);
        let r = insert_all(es, gs);
        if key_index(prev, g.0) >= 0 {
            let i = key_index(prev, g.0);
            assert(r == prev.update(i, (g.0, g.1)));
            assert forall|a: int, b: int| 0 <= a < b < r.len() implies r[a].0 != r[b].0 by {
                assert(r[a].0 == prev[a].0);
                assert(r[b].0 == prev[b].0);
            }
            assert forall|a: int| 0 <= a < r.len() implies attribute_wf(#[trigger] r[a]) by {
                if a != i {
                    assert(r[a] == prev[a]);
                }
            }
        } else {
            assert(r == prev.push((g.0, g.1)));
            assert forall|a: int| 0 <= a < r.len() implies attribute_wf(#[trigger] r[a]) by {
                if a < prev.len() {
                    assert(r[a] == prev[a]);
                }
            }
        }
    }
}

/// Every header that `decode_header` reads is well-formed.
pub proof fn lemma_decode_wf(h: Seq<char>)
    requires
        decode_header(h) is Some,
    ensures
        header_wf(decode_header(h)->0),
{
    let v = decode_header(h)->0;
    let first_bar = find_from(h, '|', 1);
    let second_bar = find_from(h, '|', first_bar + 1);
    lemma_find_from(h, '|', 1);
    lemma_find_from(h, '|', first_bar + 1);
    assert(has_no(v.database, is_char('|'))) by {
        assert forall|k: int| 0 <= k < v.database.len() implies !is_char('|')(v.database[k]) by {
            assert(v.database[k] == h[k + 1]);
        }
    }
    assert(has_no(v.accession, is_char('|'))) by {
        assert forall|k: int| 0 <= k < v.accession.len() implies !is_char('|')(v.accession[k]) by {
            assert(v.accession[k] == h[k + first_bar + 1]);
        }
    }
    let rest = h.subrange(second_bar + 1, h.len() as int);
    let ts = split(rest, is_char(' '));
    lemma_split_pieces(rest, is_char(' '));
    lemma_split_len(rest, is_char(' '));
    let k = first_attr(ts, 1);
    lemma_first_attr(ts, 1);
    let pts = ts.subrange(1, k);
    assert forall|i: int| 0 <= i < pts.len() implies has_no(#[trigger] pts[i], is_char('=')) by {
        assert(pts[i] == ts[i + 1]);
        assert(!has_eq(ts[i + 1]));
    }
    lemma_join_avoids(pts, ' ', is_char('='));
    let ats = ts.subrange(k, ts.len() as int);
    assert forall|i: int| 0 <= i < ats.len() implies has_no(#[trigger] ats[i], is_char(' ')) by {
        assert(ats[i] == ts[i + k]);
    }
    lemma_groups_wf(ats);
    assert(attributes_wf(Seq::<(Seq<char>, Seq<char>)>::empty()));
    lemma_insert_all_wf(Seq::empty(), attr_groups(ats));
}

/// Sorting well-formed attributes keeps them well-formed, and keeps the same entries.
pub proof fn lemma_sort_wf(es: Seq<(Seq<char>, Seq<char>)>)
    requires
        attributes_wf(es),
    ensures
        attributes_wf(sort_by_key(es)),
        sort_by_key(es).to_multiset() == es.to_multiset(),
    decreases es.len(),
{
    broadcast use vstd::seq_lib::to_multiset_insert, vstd::seq_lib::to_multiset_build,
        vstd::seq_lib::to_multiset_contains;

    if es.len() > 0 {
        let init = es.drop_last();
        let e = es.last();
        assert(attributes_wf(init)) by {
            assert forall|i: int| 0 <= i < init.len() implies attribute_wf(#[trigger] init[i]) by {
                assert(init[i] == es[i]);
            }
        }
        lemma_sort_wf(init);
        let o = sort_by_key(init);
        let p = insert_position(o, e.0, 0);
        lemma_insert_position(o, e.0, 0);
        let r = o.insert(p, e);
        assert(r == sort_by_key(es));
        assert(init.push(e) =~= es);
        assert(r.to_multiset() == es.to_multiset());
        assert forall|j: int| 0 <= j < o.len() implies o[j].0 != e.0 by {
            assert(o.contains(o[j]));
            assert(o.to_multiset().count(o[j]) > 0);
            assert(init.contains(o[j]));
            let m = choose|m: int| 0 <= m < init.len() && init[m] == o[j];
            assert(es[m] == init[m]);
        }
        assert forall|a: int, b: int| 0 <= a < b < r.len() implies r[a].0 != r[b].0 by {
            if a < p && b < p {
                assert(r[a] == o[a] && r[b] == o[b]);
            } else if a < p && b == p {
                assert(r[a] == o[a]);
            } else if a < p {
                assert(r[a] == o[a] && r[b] == o[b - 1]);
            } else if a == p {
                assert(r[b] == o[b - 1]);
            } else {
                assert(r[a] == o[a - 1] && r[b] == o[b - 1]);
            }
        }
        assert forall|a: int| 0 <= a < r.len() implies attribute_wf(#[trigger] r[a]) by {
            if a < p {
                assert(r[a] == o[a]);
            } else if a > p {
                assert(r[a] == o[a - 1]);
            } else {
                assert(es[es.len() - 1] == e);
            }
        }
    }
}

/// A header line that reads, written back and read again, gives the same header. With the
/// keyword attributes sorted by key, it gives the same header with the same attributes (as
/// many, the same entries, distinct keys) in key order.
pub proof fn lemma_header_round_trip(h: Seq<char>, sort_keyword_attributes: bool)
    requires
        decode_header(h) is Some,
    ensures
        ({
            let v = decode_header(h)->0;
            let w = HeaderView {
                attributes: if sort_keyword_attributes {
                    sort_by_key(v.attributes)
                } else {
                    v.attributes
                },
                ..v
            };
            &&& decode_header(encode_header(w)) == Some(w)
            &&& w.attributes.to_multiset() == v.attributes.to_multiset()
            &&& unique_keys(w.attributes)
        }),
{
    let v = decode_header(h)->0;
    lemma_decode_wf(h);
    if sort_keyword_attributes {
        lemma_sort_wf(v.attributes);
    }
    let w = HeaderView {
        attributes: if sort_keyword_attributes {
            sort_by_key(v.attributes)
        } else {
            v.attributes
        },
        ..v
    };
    lemma_encode_decode(w);
}

pub proof fn lemma_key_less_irreflexive(a: Seq<char>)
    ensures
        !key_less(a, a),
    decreases a.len(),
{
    if a.len() > 0 {
        lemma_key_less_irreflexive(a.drop_first());
    }
}

pub proof fn lemma_key_less_transitive(a: Seq<char>, b: Seq<char>, c: Seq<char>)
    requires
        key_less(a, b),
        key_less(b, c),
    ensures
        key_less(a, c),
    decreases a.len(),
{
    if a.len() > 0 && a[0] == b[0] && b[0] == c[0] {
        lemma_key_less_transitive(a.drop_first(), b.drop_first(), c.drop_first());
    }
}

/// Entries in key order: no entry's key comes before that of an entry ahead of it.
pub open spec fn sorted_by_key(o: Seq<(Seq<char>, Seq<char>)>) -> bool {
    forall|i: int, j: int| 0 <= i < j < o.len() ==> !key_less(o[j].0, o[i].0)
}

/// `sort_by_key` puts the entries in key order.
pub proof fn lemma_sort_sorted(es: Seq<(Seq<char>, Seq<char>)>)
    ensures
        sorted_by_key(sort_by_key(es)),
    decreases es.len(),
{
    if es.len() > 0 {
        lemma_sort_sorted(es.drop_last());
        let o = sort_by_key(es.drop_last());
        let e = es.last();
        let p = insert_position(o, e.0, 0);
        lemma_insert_position(o, e.0, 0);
        let r = o.insert(p, e);
        assert forall|i: int, j: int| 0 <= i < j < r.len() implies !key_less(r[j].0, r[i].0) by {
            if j < p {
                assert(r[i] == o[i] && r[j] == o[j]);
            } else if j == p {
                assert(r[i] == o[i]);
            } else if i < p {
                assert(r[i] == o[i] && r[j] == o[j - 1]);
            } else if i == p {
                assert(r[j] == o[j - 1]);
                assert(key_less(e.0, o[p].0));
                if key_less(o[j - 1].0, e.0) {
                    lemma_key_less_transitive(o[j - 1].0, e.0, o[p].0);
                    if j - 1 == p {
                        lemma_key_less_irreflexive(o[p].0);
                    }
                }
            } else {
                assert(r[i] == o[i - 1] && r[j] == o[j - 1]);
            }
        }
    }
}

} // verus!
