//! The annotation column of MSP peak lines: which fragment ions or sequence tags explain a
//! peak, and the unmatched-peak statistics that may follow them.
//!
//! A field such as `y4-17^2/-0.02,b3 3/4 0.6` holds, separated by whitespace, the matched
//! part (tags separated by `,`, or `?` for none), then optionally `numerator/denominator`
//! and a value. A tag that holds a digit is a fragment (`{ion}{index}[-{loss}][^{charge}]`),
//! any other is a sequence tag; either may end in `/{m/z error}`.
use vstd::prelude::*;
use vstd::slice::slice_subrange;

use crate::error::Error;
use crate::number::{NumLit, literal_char, literal_shape, valid_literal};
use crate::text::{
    all_digits, decimal, has_no, is_char, is_digit, is_digit_char, is_space, join,
    lemma_chars_deep, lemma_decimal, lemma_non_empty_id, lemma_split_at_sep, lemma_split_join,
    lemma_split_none, number_of, parse_number, push_char, push_decimal, space_sep,
    split, split_on, string_of, words, words_of,
};

verus! {

/// The statistics of a peak that follow its matched part: `numerator/denominator value`.
#[derive(Clone, Debug, PartialEq)]
pub struct MspPeakUnknownData {
    pub numerator: usize,
    pub denominator: usize,
    pub value: NumLit,
}

/// A fragment ion: `y4-17^2/-0.02` is ion type `y`, index 4, neutral loss 17, charge 2 and
/// m/z error -0.02.
#[derive(Clone, Debug, PartialEq)]
pub struct MspFragAnnotation {
    pub ion_type: char,
    pub frag_index: u16,
    /// The neutral loss, in the whole units that the grammar writes.
    pub neutral_loss: Option<u64>,
    pub charge: Option<i8>,
    pub mz_error: Option<NumLit>,
}

/// A sequence tag such as `IKC/0.12`.
#[derive(Clone, Debug, PartialEq)]
pub struct MspSeqAnnotation {
    pub sequence: String,
    pub mz_error: Option<NumLit>,
}

#[derive(Clone, Debug, PartialEq)]
pub enum MspPeakAnnotation {
    Fragment(MspFragAnnotation),
    Sequence(MspSeqAnnotation),
}

pub open spec fn opt_annotation_view(a: Option<MspPeakAnnotation>) -> Option<AnnotationView> {
    match a {
        Some(x) => Some(x@),
        None => None,
    }
}

/// `c` in decimal, with a minus sign when it is negative.
pub open spec fn signed_decimal(c: int) -> Seq<char> {
    if c < 0 {
        seq!['-'] + decimal((-c) as nat)
    } else {
        decimal(c as nat)
    }
}

/// What a fragment annotation holds, with each literal as its text.
pub struct FragmentView {
    pub ion_type: char,
    pub frag_index: u16,
    pub neutral_loss: Option<u64>,
    pub charge: Option<i8>,
    pub mz_error: Option<Seq<char>>,
}

/// What an annotation holds, with each literal as its text.
pub enum AnnotationView {
    Fragment(FragmentView),
    Sequence { sequence: Seq<char>, mz_error: Option<Seq<char>> },
}

pub struct UnknownView {
    pub numerator: usize,
    pub denominator: usize,
    pub value: Seq<char>,
}

/// What a whole annotation field holds.
pub struct NotationView {
    pub annotations: Seq<AnnotationView>,
    pub unknown: Option<UnknownView>,
}

pub open spec fn lit_view(o: Option<NumLit>) -> Option<Seq<char>> {
    match o {
        Some(n) => Some(n@),
        None => None,
    }
}

impl View for MspFragAnnotation {
    type V = FragmentView;

    open spec fn view(&self) -> FragmentView {
        FragmentView {
            ion_type: self.ion_type,
            frag_index: self.frag_index,
            neutral_loss: self.neutral_loss,
            charge: self.charge,
            mz_error: lit_view(self.mz_error),
        }
    }
}

impl View for MspPeakAnnotation {
    type V = AnnotationView;

    open spec fn view(&self) -> AnnotationView {
        match self {
            MspPeakAnnotation::Fragment(f) => AnnotationView::Fragment(f@),
            MspPeakAnnotation::Sequence(s) => AnnotationView::Sequence {
                sequence: s.sequence@,
                mz_error: lit_view(s.mz_error),
            },
        }
    }
}

impl View for MspPeakUnknownData {
    type V = UnknownView;

    open spec fn view(&self) -> UnknownView {
        UnknownView { numerator: self.numerator, denominator: self.denominator, value: self.value@ }
    }
}

pub open spec fn annotations_view(a: Seq<MspPeakAnnotation>) -> Seq<AnnotationView> {
    a.map_values(|x: MspPeakAnnotation| x@)
}

pub open spec fn unknown_view(u: Option<MspPeakUnknownData>) -> Option<UnknownView> {
    match u {
        Some(d) => Some(d@),
        None => None,
    }
}

pub open spec fn digit_sep() -> spec_fn(char) -> bool {
    |c: char| is_digit(c)
}

/// The number of digits in `s` from position `i` on, up to the first character that is not one.
pub open spec fn digit_run(s: Seq<char>, i: int) -> nat
    decreases s.len() - i,
{
    if 0 <= i < s.len() && is_digit(s[i]) {
        1 + digit_run(s, i + 1)
    } else {
        0
    }
}

/// The fragment that tag `t` writes: its first character is the ion type, the digits after it
/// the index; then `-` and digits give the neutral loss, and `^` and digits the charge.
/// Nothing else may follow.
pub open spec fn decode_fragment(t: Seq<char>, mz_error: Option<Seq<char>>) -> Option<
    AnnotationView,
> {
    let index_end: int = 1 + digit_run(t, 1) as int;
    let has_loss = index_end < t.len() && t[index_end] == '-';
    let loss_end: int = if has_loss {
        index_end + 1 + digit_run(t, index_end + 1) as int
    } else {
        index_end
    };
    let has_charge = loss_end < t.len() && t[loss_end] == '^';
    let charge_end: int = if has_charge {
        loss_end + 1 + digit_run(t, loss_end + 1) as int
    } else {
        loss_end
    };
    let index = number_of(t.subrange(1, index_end));
    let loss = number_of(t.subrange(index_end + 1, loss_end));
    let charge = number_of(t.subrange(loss_end + 1, charge_end));
    if index_end == 1 || index > u16::MAX || charge_end != t.len() || (has_loss && (loss_end == index_end + 1 || loss
        > u64::MAX)) || (has_charge && (charge_end == loss_end + 1 || charge > 127)) {
        None
    } else {
        Some(
            AnnotationView::Fragment(
                FragmentView {
                    ion_type: t[0],
                    frag_index: index as u16,
                    neutral_loss: if has_loss {
                        Some(loss as u64)
                    } else {
                        None
                    },
                    charge: if has_charge {
                        Some(charge as i8)
                    } else {
                        None
                    },
                    mz_error,
                },
            ),
        )
    }
}

/// A tag without a digit is a sequence tag; one with a digit is a fragment.
pub open spec fn decode_tag(t: Seq<char>, mz_error: Option<Seq<char>>) -> Option<AnnotationView> {
    if t.len() == 0 {
        None
    } else if has_no(t, digit_sep()) {
        Some(AnnotationView::Sequence { sequence: t, mz_error })
    } else {
        decode_fragment(t, mz_error)
    }
}

/// One of the `,`-separated candidates: a tag, then optionally `/` and an m/z error.
pub open spec fn decode_candidate(c: Seq<char>) -> Option<AnnotationView> {
    let ps = split(c, is_char('/'));
    if ps.len() == 1 {
        decode_tag(c, None)
    } else if ps.len() == 2 && valid_literal(ps[1]) {
        decode_tag(ps[0], Some(ps[1]))
    } else {
        None
    }
}

pub open spec fn decode_candidates(ps: Seq<Seq<char>>) -> Option<Seq<AnnotationView>>
    decreases ps.len(),
{
    if ps.len() == 0 {
        Some(Seq::empty())
    } else {
        match (decode_candidates(ps.drop_last()), decode_candidate(ps.last())) {
            (Some(init), Some(a)) => Some(init.push(a)),
            _ => None,
        }
    }
}

/// The matched part: `?` for no annotation, else `,`-separated candidates.
pub open spec fn decode_matched(m: Seq<char>) -> Option<Seq<AnnotationView>> {
    if m == seq!['?'] {
        Some(Seq::empty())
    } else {
        decode_candidates(split(m, is_char(',')))
    }
}

pub open spec fn usize_digits(s: Seq<char>) -> bool {
    s.len() > 0 && all_digits(s) && number_of(s) <= usize::MAX
}

/// `numerator/denominator` and the value that follows it.
pub open spec fn decode_unknown(nd: Seq<char>, v: Seq<char>) -> Option<UnknownView> {
    let ps = split(nd, is_char('/'));
    if ps.len() == 2 && usize_digits(ps[0]) && usize_digits(ps[1]) && valid_literal(v) {
        Some(
            UnknownView {
                numerator: number_of(ps[0]) as usize,
                denominator: number_of(ps[1]) as usize,
                value: v,
            },
        )
    } else {
        None
    }
}

/// A whole annotation field: one word (the matched part), or three (the matched part,
/// `numerator/denominator` and the value).
pub open spec fn decode_annotation(f: Seq<char>) -> Option<NotationView> {
    let ws = words(f);
    if ws.len() == 1 {
        match decode_matched(ws[0]) {
            Some(a) => Some(NotationView { annotations: a, unknown: None }),
            None => None,
        }
    } else if ws.len() == 3 {
        match (decode_matched(ws[0]), decode_unknown(ws[1], ws[2])) {
            (Some(a), Some(u)) => Some(NotationView { annotations: a, unknown: Some(u) }),
            _ => None,
        }
    } else {
        None
    }
}

pub open spec fn error_suffix(e: Option<Seq<char>>) -> Seq<char> {
    match e {
        Some(t) => seq!['/'] + t,
        None => Seq::empty(),
    }
}

/// The tag of a fragment, before its m/z error.
pub open spec fn fragment_core(f: FragmentView) -> Seq<char> {
    seq![f.ion_type] + decimal(f.frag_index as nat) + match f.neutral_loss {
        Some(l) => seq!['-'] + decimal(l as nat),
        None => Seq::empty(),
    } + match f.charge {
        Some(c) => seq!['^'] + signed_decimal(c as int),
        None => Seq::empty(),
    }
}

pub open spec fn encode_candidate(a: AnnotationView) -> Seq<char> {
    match a {
        AnnotationView::Fragment(f) => fragment_core(f) + error_suffix(f.mz_error),
        AnnotationView::Sequence { sequence, mz_error } => sequence + error_suffix(mz_error),
    }
}

pub open spec fn encode_matched(a: Seq<AnnotationView>) -> Seq<char> {
    if a.len() == 0 {
        seq!['?']
    } else {
        join(a.map_values(|x: AnnotationView| encode_candidate(x)), ',')
    }
}

pub open spec fn encode_unknown(u: UnknownView) -> Seq<char> {
    decimal(u.numerator as nat) + seq!['/'] + decimal(u.denominator as nat)
}

pub open spec fn encode_annotation(x: NotationView) -> Seq<char> {
    encode_matched(x.annotations) + match x.unknown {
        Some(u) => seq![' '] + encode_unknown(u) + seq![' '] + u.value,
        None => Seq::empty(),
    }
}

pub open spec fn error_wf(e: Option<Seq<char>>) -> bool {
    e matches Some(t) ==> valid_literal(t)
}

/// An annotation that the grammar can write: the ion type separates nothing, a charge is not
/// negative, a sequence tag is a non-empty run of characters that are neither digits nor
/// separators, and m/z errors are numeric literals.
pub open spec fn annotation_wf(a: AnnotationView) -> bool {
    match a {
        AnnotationView::Fragment(f) => !is_space(f.ion_type) && f.ion_type != ',' && f.ion_type
            != '/' && (f.charge matches Some(c) ==> c >= 0) && error_wf(f.mz_error),
        AnnotationView::Sequence { sequence, mz_error } => sequence.len() > 0 && has_no(
            sequence,
            digit_sep(),
        ) && has_no(sequence, space_sep()) && has_no(sequence, is_char(',')) && has_no(
            sequence,
            is_char('/'),
        ) && error_wf(mz_error),
    }
}

/// The sequence tag `?` without an m/z error.
pub open spec fn lone_question() -> AnnotationView {
    AnnotationView::Sequence { sequence: seq!['?'], mz_error: None }
}

/// A field that the grammar can write. The one list of annotations that it cannot is a lone
/// sequence tag `?`, which reads as "no annotation".
pub open spec fn notation_wf(x: NotationView) -> bool {
    &&& forall|i: int| 0 <= i < x.annotations.len() ==> annotation_wf(#[trigger] x.annotations[i])
    &&& x.annotations != seq![lone_question()]
    &&& (x.unknown matches Some(u) ==> valid_literal(u.value))
}

/// The digits that `digit_run` counts are digits, and lie within `s`.
pub proof fn lemma_digit_run(s: Seq<char>, i: int)
    requires
        0 <= i <= s.len(),
    ensures
        i + digit_run(s, i) <= s.len(),
        forall|j: int| i <= j < i + digit_run(s, i) ==> is_digit(#[trigger] s[j]),
        all_digits(s.subrange(i, i + digit_run(s, i) as int)),
    decreases s.len() - i,
{
    if i < s.len() && is_digit(s[i]) {
        lemma_digit_run(s, i + 1);
    }
    assert forall|j: int|
        0 <= j < digit_run(s, i) implies is_digit(
        #[trigger] s.subrange(i, i + digit_run(s, i) as int)[j],
    ) by {
        assert(s.subrange(i, i + digit_run(s, i) as int)[j] == s[i + j]);
    }
}

/// A run of `k` digits that ends the string, or ends before a character that is not a digit,
/// is the whole digit run from its start.
pub proof fn lemma_digit_run_exact(s: Seq<char>, i: int, k: int)
    requires
        0 <= i,
        0 <= k,
        i + k <= s.len(),
        forall|j: int| i <= j < i + k ==> is_digit(#[trigger] s[j]),
        i + k == s.len() || !is_digit(s[i + k]),
    ensures
        digit_run(s, i) == k,
    decreases k,
{
    if k > 0 {
        lemma_digit_run_exact(s, i + 1, k - 1);
    }
}

fn digit_run_len(s: &[char], i: usize) -> (n: usize)
    requires
        i <= s@.len(),
    ensures
        n == digit_run(s@, i as int),
        i + n <= s@.len(),
{
    let mut j: usize = i;
    while j < s.len() && is_digit_char(s[j])
        invariant
            i <= j <= s@.len(),
            digit_run(s@, i as int) == (j - i) + digit_run(s@, j as int),
        decreases s@.len() - j,
    {
        j = j + 1;
    }
    j - i
}

fn decode_fragment_exec(t: &[char], mz_error: Option<NumLit>) -> (r: Option<MspPeakAnnotation>)
    ensures
        opt_annotation_view(r) == decode_fragment(t@, lit_view(mz_error)),
{
    let ghost ts = t@;
    let n = t.len();
    if n == 0 {
        return None;
    }
    proof {
        lemma_digit_run(ts, 1);
    }
    let index_end = 1 + digit_run_len(t, 1);
    let has_loss = index_end < n && t[index_end] == '-';
    let loss_end = if has_loss {
        proof {
            lemma_digit_run(ts, index_end + 1);
        }
        index_end + 1 + digit_run_len(t, index_end + 1)
    } else {
        index_end
    };
    let has_charge = loss_end < n && t[loss_end] == '^';
    let charge_end = if has_charge {
        proof {
            lemma_digit_run(ts, loss_end + 1);
        }
        loss_end + 1 + digit_run_len(t, loss_end + 1)
    } else {
        loss_end
    };
    if index_end == 1 || charge_end != n {
        return None;
    }
    let frag_index = match parse_number(slice_subrange(t, 1, index_end), 65535) {
        Some(v) => v as u16,
        None => {
            return None;
        },
    };
    let neutral_loss = if has_loss {
        if loss_end == index_end + 1 {
            return None;
        }
        match parse_number(slice_subrange(t, index_end + 1, loss_end), u64::MAX) {
            Some(v) => Some(v),
            None => {
                return None;
            },
        }
    } else {
        None
    };
    let charge = if has_charge {
        if charge_end == loss_end + 1 {
            return None;
        }
        match parse_number(slice_subrange(t, loss_end + 1, charge_end), 127) {
            Some(v) => Some(v as i8),
            None => {
                return None;
            },
        }
    } else {
        None
    };
    Some(
        MspPeakAnnotation::Fragment(
            MspFragAnnotation { ion_type: t[0], frag_index, neutral_loss, charge, mz_error },
        ),
    )
}

fn has_digit(t: &[char]) -> (r: bool)
    ensures
        r == !has_no(t@, digit_sep()),
{
    let mut i: usize = 0;
    while i < t.len()
        invariant
            i <= t@.len(),
            forall|j: int| 0 <= j < i ==> !is_digit(#[trigger] t@[j]),
        decreases t@.len() - i,
    {
        if is_digit_char(t[i]) {
            return true;
        }
        i = i + 1;
    }
    false
}

fn decode_tag_exec(t: &[char], mz_error: Option<NumLit>) -> (r: Option<MspPeakAnnotation>)
    ensures
        opt_annotation_view(r) == decode_tag(t@, lit_view(mz_error)),
{
    if t.len() == 0 {
        None
    } else if !has_digit(t) {
        Some(MspPeakAnnotation::Sequence(MspSeqAnnotation { sequence: string_of(t), mz_error }))
    } else {
        decode_fragment_exec(t, mz_error)
    }
}

fn decode_candidate_exec(c: &[char]) -> (r: Option<MspPeakAnnotation>)
    ensures
        opt_annotation_view(r) == decode_candidate(c@),
{
    let ps = split_on(c, '/');
    if ps.len() == 1 {
        decode_tag_exec(c, None)
    } else if ps.len() == 2 {
        proof {
            lemma_chars_deep(ps@[0]);
            lemma_chars_deep(ps@[1]);
        }
        match NumLit::from_chars(ps[1].as_slice()) {
            Some(e) => decode_tag_exec(ps[0].as_slice(), Some(e)),
            None => None,
        }
    } else {
        None
    }
}

/// Once a prefix of the candidates fails to read, the whole list does.
proof fn lemma_candidates_fail(ps: Seq<Seq<char>>, k: int)
    requires
        0 <= k <= ps.len(),
        decode_candidates(ps.take(k)) is None,
    ensures
        decode_candidates(ps) is None,
    decreases ps.len() - k,
{
    if k < ps.len() {
        assert(ps.take(k + 1).drop_last() =~= ps.take(k));
        lemma_candidates_fail(ps, k + 1);
    } else {
        assert(ps.take(k) =~= ps);
    }
}

fn decode_matched_exec(m: &[char]) -> (r: Option<Vec<MspPeakAnnotation>>)
    ensures
        match r {
            Some(a) => decode_matched(m@) == Some(annotations_view(a@)),
            None => decode_matched(m@) is None,
        },
{
    if m.len() == 1 && m[0] == '?' {
        assert(m@ =~= seq!['?']);
        let out: Vec<MspPeakAnnotation> = Vec::new();
        assert(annotations_view(out@) =~= Seq::<AnnotationView>::empty());
        return Some(out);
    }
    assert(m@ != seq!['?']) by {
        if m@ == seq!['?'] {
            assert(m@.len() == 1 && m@[0] == '?');
        }
    }
    let ps = split_on(m, ',');
    let ghost pv = ps.deep_view();
    let mut out: Vec<MspPeakAnnotation> = Vec::new();
    let mut k: usize = 0;
    assert(pv.take(0) =~= Seq::<Seq<char>>::empty());
    assert(annotations_view(out@) =~= Seq::<AnnotationView>::empty());
    while k < ps.len()
        invariant
            k <= ps@.len(),
            pv == ps.deep_view(),
            pv == split(m@, is_char(',')),
            m@ != seq!['?'],
            decode_candidates(pv.take(k as int)) == Some(annotations_view(out@)),
        decreases ps@.len() - k,
    {
        proof {
            lemma_chars_deep(ps@[k as int]);
        }
        assert(pv.take(k as int + 1).drop_last() =~= pv.take(k as int));
        assert(pv.take(k as int + 1).last() == ps@[k as int]@);
        match decode_candidate_exec(ps[k].as_slice()) {
            Some(a) => {
                let ghost before = out@;
                out.push(a);
                assert(annotations_view(out@) =~= annotations_view(before).push(a@));
            },
            None => {
                proof {
                    lemma_candidates_fail(pv, k as int + 1);
                }
                return None;
            },
        }
        k = k + 1;
    }
    assert(pv.take(k as int) =~= pv);
    Some(out)
}

fn decode_unknown_exec(nd: &[char], v: &[char]) -> (r: Option<MspPeakUnknownData>)
    ensures
        unknown_view(r) == decode_unknown(nd@, v@),
{
    let ps = split_on(nd, '/');
    if ps.len() != 2 {
        return None;
    }
    proof {
        lemma_chars_deep(ps@[0]);
        lemma_chars_deep(ps@[1]);
    }
    let numerator = match parse_number(ps[0].as_slice(), usize::MAX as u64) {
        Some(x) => x as usize,
        None => {
            return None;
        },
    };
    let denominator = match parse_number(ps[1].as_slice(), usize::MAX as u64) {
        Some(x) => x as usize,
        None => {
            return None;
        },
    };
    match NumLit::from_chars(v) {
        Some(value) => Some(MspPeakUnknownData { numerator, denominator, value }),
        None => None,
    }
}

/// Reads an annotation field (its text between the quotes): the annotations of the peak and
/// its unmatched-peak statistics, if the field has them.
pub fn decode_annotation_field(field: &str) -> (r: Result<
    (Vec<MspPeakAnnotation>, Option<MspPeakUnknownData>),
    Error,
>)
    ensures
        match r {
            Ok((a, u)) => decode_annotation(field@) == Some(
                NotationView { annotations: annotations_view(a@), unknown: unknown_view(u) },
            ),
            Err(e) => decode_annotation(field@) is None && e == Error::InvalidAnnotationSyntax,
        },
{
    let cs = crate::text::chars_of(field);
    let ws = words_of(cs.as_slice());
    if ws.len() != 1 && ws.len() != 3 {
        return Err(Error::InvalidAnnotationSyntax);
    }
    proof {
        lemma_chars_deep(ws@[0]);
    }
    let annotations = match decode_matched_exec(ws[0].as_slice()) {
        Some(a) => a,
        None => {
            return Err(Error::InvalidAnnotationSyntax);
        },
    };
    if ws.len() == 1 {
        return Ok((annotations, None));
    }
    proof {
        lemma_chars_deep(ws@[1]);
        lemma_chars_deep(ws@[2]);
    }
    match decode_unknown_exec(ws[1].as_slice(), ws[2].as_slice()) {
        Some(u) => Ok((annotations, Some(u))),
        None => Err(Error::InvalidAnnotationSyntax),
    }
}

fn push_error_suffix(out: &mut String, e: &Option<NumLit>)
    ensures
        final(out)@ == old(out)@ + error_suffix(lit_view(*e)),
{
    match e {
        Some(n) => {
            push_char(out, '/');
            out.append(n.as_str());
            assert(final(out)@ =~= old(out)@ + error_suffix(lit_view(*e)));
        },
        None => {
            assert(out@ =~= old(out)@ + error_suffix(lit_view(*e)));
        },
    }
}

fn push_candidate(out: &mut String, a: &MspPeakAnnotation)
    ensures
        final(out)@ == old(out)@ + encode_candidate(a@),
{
    match a {
        MspPeakAnnotation::Fragment(f) => {
            push_char(out, f.ion_type);
            push_decimal(out, f.frag_index as u64);
            let ghost after_index = out@;
            match f.neutral_loss {
                Some(l) => {
                    push_char(out, '-');
                    push_decimal(out, l);
                },
                None => {},
            }
            let ghost after_loss = out@;
            match f.charge {
                Some(c) => {
                    push_char(out, '^');
                    if c < 0 {
                        push_char(out, '-');
                        push_decimal(out, (-(c as i64)) as u64);
                    } else {
                        push_decimal(out, c as u64);
                    }
                },
                None => {},
            }
            let ghost after_charge = out@;
            push_error_suffix(out, &f.mz_error);
            assert(final(out)@ =~= old(out)@ + encode_candidate(a@));
        },
        MspPeakAnnotation::Sequence(q) => {
            out.append(q.sequence.as_str());
            push_error_suffix(out, &q.mz_error);
            assert(final(out)@ =~= old(out)@ + encode_candidate(a@));
        },
    }
}

/// Writes an annotation field (without its quotes): the annotations joined by `,`, or `?`
/// when there are none, then ` numerator/denominator value` if the statistics are given.
pub fn encode_annotation_field(
    annotations: &[MspPeakAnnotation],
    unknown: &Option<MspPeakUnknownData>,
) -> (r: String)
    ensures
        r@ == encode_annotation(
            NotationView { annotations: annotations_view(annotations@), unknown: unknown_view(*unknown) },
        ),
{
    let ghost av = annotations_view(annotations@);
    let ghost mapped = av.map_values(|x: AnnotationView| encode_candidate(x));
    let mut out = String::new();
    if annotations.len() == 0 {
        push_char(&mut out, '?');
        assert(out@ =~= encode_matched(av));
    } else {
        push_candidate(&mut out, &annotations[0]);
        assert(out@ =~= join(mapped.take(1), ','));
        let mut k: usize = 1;
        while k < annotations.len()
            invariant
                1 <= k <= annotations@.len(),
                av == annotations_view(annotations@),
                mapped == av.map_values(|x: AnnotationView| encode_candidate(x)),
                out@ == join(mapped.take(k as int), ','),
            decreases annotations@.len() - k,
        {
            let ghost before = out@;
            push_char(&mut out, ',');
            push_candidate(&mut out, &annotations[k]);
            assert(mapped.take(k as int + 1).drop_last() =~= mapped.take(k as int));
            assert(out@ =~= join(mapped.take(k as int + 1), ','));
            k = k + 1;
        }
        assert(mapped.take(k as int) =~= mapped);
    }
    let ghost matched = out@;
    match unknown {
        Some(u) => {
            push_char(&mut out, ' ');
            push_decimal(&mut out, u.numerator as u64);
            push_char(&mut out, '/');
            push_decimal(&mut out, u.denominator as u64);
            push_char(&mut out, ' ');
            out.append(u.value.as_str());
            assert(out@ =~= matched + (seq![' '] + encode_unknown(u@) + seq![' '] + u.value@));
        },
        None => {
            assert(out@ =~= matched + Seq::<char>::empty());
        },
    }
    out
}

/// A string of digits holds no separator of the grammar.
proof fn lemma_digits_separate_nothing(d: Seq<char>)
    requires
        all_digits(d),
    ensures
        has_no(d, is_char('/')),
        has_no(d, is_char(',')),
        has_no(d, is_char('-')),
        has_no(d, is_char('^')),
        has_no(d, space_sep()),
{
    assert forall|i: int| 0 <= i < d.len() implies !(#[trigger] is_char('/')(d[i])) && !is_char(
        ',',
    )(d[i]) && !is_char('-')(d[i]) && !is_char('^')(d[i]) && !space_sep()(d[i]) by {
        assert(is_digit(d[i]));
    }
}

/// A numeric literal holds no separator of the grammar.
proof fn lemma_literal_separates_nothing(t: Seq<char>)
    requires
        literal_shape(t),
    ensures
        has_no(t, is_char('/')),
        has_no(t, is_char(',')),
        has_no(t, space_sep()),
{
    assert forall|i: int| 0 <= i < t.len() implies !(#[trigger] is_char('/')(t[i])) && !is_char(
        ',',
    )(t[i]) && !space_sep()(t[i]) by {
        assert(literal_char(t[i]));
    }
}

/// The tag of a well-formed fragment reads back as that fragment.
proof fn lemma_fragment_round_trip(f: FragmentView)
    requires
        annotation_wf(AnnotationView::Fragment(f)),
    ensures
        decode_tag(fragment_core(f), f.mz_error) == Some(AnnotationView::Fragment(f)),
        has_no(fragment_core(f), is_char('/')),
        has_no(fragment_core(f), is_char(',')),
        has_no(fragment_core(f), space_sep()),
        fragment_core(f).len() >= 2,
{
    let d = decimal(f.frag_index as nat);
    let l = match f.neutral_loss {
        Some(x) => seq!['-'] + decimal(x as nat),
        None => Seq::<char>::empty(),
    };
    let c = match f.charge {
        Some(x) => seq!['^'] + signed_decimal(x as int),
        None => Seq::<char>::empty(),
    };
    let t = fragment_core(f);
    assert(t == seq![f.ion_type] + d + l + c);
    lemma_decimal(f.frag_index as nat);
    lemma_digits_separate_nothing(d);
    let index_end: int = 1 + d.len() as int;
    // The index.
    assert forall|j: int| 1 <= j < index_end implies is_digit(#[trigger] t[j]) by {
        assert(t[j] == d[j - 1]);
    }
    assert(index_end == t.len() || !is_digit(t[index_end])) by {
        if index_end < t.len() {
            if l.len() > 0 {
                assert(t[index_end] == l[0]);
            } else {
                assert(t[index_end] == c[0]);
            }
        }
    }
    lemma_digit_run_exact(t, 1, d.len() as int);
    assert(t.subrange(1, index_end) =~= d);
    // The neutral loss.
    let has_loss = index_end < t.len() && t[index_end] == '-';
    assert(has_loss == (l.len() > 0)) by {
        if l.len() == 0 && index_end < t.len() {
            assert(t[index_end] == c[0]);
        }
        if l.len() > 0 {
            assert(t[index_end] == l[0]);
        }
    }
    let loss_end: int = if has_loss {
        index_end + 1 + digit_run(t, index_end + 1) as int
    } else {
        index_end
    };
    if let Some(x) = f.neutral_loss {
        let dl = decimal(x as nat);
        lemma_decimal(x as nat);
        lemma_digits_separate_nothing(dl);
        assert forall|j: int| index_end + 1 <= j < index_end + 1 + dl.len() implies is_digit(#[trigger] t[j]) by {
            assert(t[j] == dl[j - index_end - 1]);
        }
        assert(index_end + 1 + dl.len() == t.len() || !is_digit(t[index_end + 1 + dl.len()])) by {
            if index_end + 1 + dl.len() < t.len() {
                assert(t[index_end + 1 + dl.len()] == c[0]);
            }
        }
        lemma_digit_run_exact(t, index_end + 1, dl.len() as int);
        assert(loss_end == index_end + 1 + dl.len());
        assert(t.subrange(index_end + 1, loss_end) =~= dl);
    }
    assert(loss_end == index_end + l.len());
    // The charge.
    let has_charge = loss_end < t.len() && t[loss_end] == '^';
    assert(has_charge == (c.len() > 0)) by {
        if c.len() > 0 {
            assert(t[loss_end] == c[0]);
        }
    }
    if let Some(x) = f.charge {
        let dc = decimal(x as nat);
        assert(signed_decimal(x as int) == dc);
        lemma_decimal(x as nat);
        lemma_digits_separate_nothing(dc);
        assert forall|j: int| loss_end + 1 <= j < loss_end + 1 + dc.len() implies is_digit(#[trigger] t[j]) by {
            assert(t[j] == dc[j - loss_end - 1]);
        }
        lemma_digit_run_exact(t, loss_end + 1, dc.len() as int);
        assert(t.subrange(loss_end + 1, loss_end + 1 + dc.len()) =~= dc);
    }
    // What the tag holds.
    assert(!has_no(t, digit_sep())) by {
        assert(t[1] == d[0]);
        assert(is_digit(t[1]));
    }
    assert(has_no(t, is_char('/')) && has_no(t, is_char(',')) && has_no(t, space_sep())) by {
        assert forall|j: int| 0 <= j < t.len() implies !(#[trigger] is_char('/')(t[j]))
            && !is_char(',')(t[j]) && !space_sep()(t[j]) by {
            if j == 0 {
            } else if j < index_end {
                assert(t[j] == d[j - 1]);
            } else if j < loss_end {
                assert(t[j] == l[j - index_end]);
                if j > index_end {
                    let dl = decimal(f.neutral_loss->0 as nat);
                    assert(l[j - index_end] == dl[j - index_end - 1]);
                    assert(is_digit(dl[j - index_end - 1]));
                }
            } else {
                assert(t[j] == c[j - loss_end]);
                if j > loss_end {
                    let dc = decimal(f.charge->0 as nat);
                    assert(c[j - loss_end] == dc[j - loss_end - 1]);
                    assert(is_digit(dc[j - loss_end - 1]));
                }
            }
        }
    }
}

/// A well-formed candidate reads back as itself, and holds neither `,` nor whitespace.
proof fn lemma_candidate_round_trip(a: AnnotationView)
    requires
        annotation_wf(a),
    ensures
        decode_candidate(encode_candidate(a)) == Some(a),
        has_no(encode_candidate(a), is_char(',')),
        has_no(encode_candidate(a), space_sep()),
        encode_candidate(a).len() > 0,
        encode_candidate(a) == seq!['?'] ==> a == lone_question(),
{
    let (core, e) = match a {
        AnnotationView::Fragment(f) => (fragment_core(f), f.mz_error),
        AnnotationView::Sequence { sequence, mz_error } => (sequence, mz_error),
    };
    let cand = encode_candidate(a);
    assert(cand == core + error_suffix(e));
    assert(decode_tag(core, e) == Some(a) && has_no(core, is_char('/')) && has_no(
        core,
        is_char(','),
    ) && has_no(core, space_sep()) && core.len() > 0) by {
        match a {
            AnnotationView::Fragment(f) => {
                lemma_fragment_round_trip(f);
            },
            AnnotationView::Sequence { sequence, mz_error } => {
            },
        }
    }
    match e {
        None => {
            assert(cand =~= core);
            lemma_split_none(core, is_char('/'));
        },
        Some(t) => {
            lemma_literal_separates_nothing(t);
            assert(cand =~= core.push('/') + t);
            lemma_split_at_sep(core, '/', t, is_char('/'));
            lemma_split_none(core, is_char('/'));
            lemma_split_none(t, is_char('/'));
            assert(split(cand, is_char('/')) =~= seq![core, t]);
            assert forall|j: int| 0 <= j < cand.len() implies !(#[trigger] is_char(',')(cand[j]))
                && !space_sep()(cand[j]) by {
                if j < core.len() {
                    assert(cand[j] == core[j]);
                } else if j > core.len() {
                    assert(cand[j] == t[j - core.len() - 1]);
                } else {
                    assert(cand[j] == '/');
                }
            }
        },
    }
    if cand == seq!['?'] {
        match a {
            AnnotationView::Fragment(f) => {
                lemma_fragment_round_trip(f);
            },
            AnnotationView::Sequence { sequence, mz_error } => {
                if let Some(t) = mz_error {
                    assert(cand.len() >= 2);
                }
                assert(cand =~= sequence);
            },
        }
    }
}

/// Well-formed candidates, written and read one after the other, read back as themselves.
proof fn lemma_candidates_round_trip(a: Seq<AnnotationView>)
    requires
        forall|i: int| 0 <= i < a.len() ==> annotation_wf(#[trigger] a[i]),
    ensures
        decode_candidates(a.map_values(|x: AnnotationView| encode_candidate(x))) == Some(a),
    decreases a.len(),
{
    let mapped = a.map_values(|x: AnnotationView| encode_candidate(x));
    if a.len() > 0 {
        let init = a.drop_last();
        assert forall|i: int| 0 <= i < init.len() implies annotation_wf(#[trigger] init[i]) by {
            assert(init[i] == a[i]);
        }
        lemma_candidates_round_trip(init);
        assert(mapped.drop_last() =~= init.map_values(|x: AnnotationView| encode_candidate(x)));
        assert(annotation_wf(a[a.len() - 1]));
        lemma_candidate_round_trip(a.last());
        assert(init.push(a.last()) =~= a);
    } else {
        assert(a =~= Seq::<AnnotationView>::empty());
    }
}

/// The matched part of a well-formed field reads back as its annotations.
proof fn lemma_matched_round_trip(a: Seq<AnnotationView>)
    requires
        forall|i: int| 0 <= i < a.len() ==> annotation_wf(#[trigger] a[i]),
        a != seq![lone_question()],
    ensures
        decode_matched(encode_matched(a)) == Some(a),
        has_no(encode_matched(a), space_sep()),
        encode_matched(a).len() > 0,
{
    let m = encode_matched(a);
    if a.len() == 0 {
        assert(a =~= Seq::<AnnotationView>::empty());
        assert(has_no(m, space_sep()));
    } else {
        let mapped = a.map_values(|x: AnnotationView| encode_candidate(x));
        assert forall|i: int| 0 <= i < mapped.len() implies has_no(#[trigger] mapped[i], is_char(','))
            && has_no(mapped[i], space_sep()) by {
            lemma_candidate_round_trip(a[i]);
        }
        lemma_split_join(mapped, ',', is_char(','));
        lemma_candidates_round_trip(a);
        lemma_join_has_no(mapped, ',');
        lemma_candidate_round_trip(a[0]);
        assert(m.len() > 0) by {
            lemma_join_len(mapped, ',');
        }
        if m == seq!['?'] {
            lemma_split_none(m, is_char(','));
            assert(mapped.len() == 1);
            assert(m == mapped[0]);
            assert(a =~= seq![a[0]]);
        }
    }
}

/// Joining pieces with a non-space leaves no whitespace when no piece holds any.
proof fn lemma_join_has_no(parts: Seq<Seq<char>>, c: char)
    requires
        !is_space(c),
        forall|i: int| 0 <= i < parts.len() ==> has_no(#[trigger] parts[i], space_sep()),
    ensures
        has_no(join(parts, c), space_sep()),
    decreases parts.len(),
{
    if parts.len() > 1 {
        let init = parts.drop_last();
        assert forall|i: int| 0 <= i < init.len() implies has_no(#[trigger] init[i], space_sep()) by {
            assert(init[i] == parts[i]);
        }
        lemma_join_has_no(init, c);
        let j = join(parts, c);
        let ji = join(init, c);
        assert(has_no(parts[parts.len() - 1], space_sep()));
        assert forall|k: int| 0 <= k < j.len() implies !(#[trigger] space_sep()(j[k])) by {
            if k < ji.len() {
                assert(j[k] == ji[k]);
            } else if k > ji.len() {
                assert(j[k] == parts.last()[k - ji.len() - 1]);
            }
        }
    }
}

/// A join is at least as long as its first piece.
proof fn lemma_join_len(parts: Seq<Seq<char>>, c: char)
    requires
        parts.len() >= 1,
    ensures
        join(parts, c).len() >= parts[0].len(),
    decreases parts.len(),
{
    if parts.len() > 1 {
        lemma_join_len(parts.drop_last(), c);
    }
}

/// Writing a well-formed annotation field and reading it back gives the same annotations and
/// statistics: a field that the grammar can write reads back as itself.
pub proof fn lemma_annotation_round_trip(x: NotationView)
    requires
        notation_wf(x),
    ensures
        decode_annotation(encode_annotation(x)) == Some(x),
{
    let m = encode_matched(x.annotations);
    lemma_matched_round_trip(x.annotations);
    let f = encode_annotation(x);
    match x.unknown {
        None => {
            assert(f =~= m);
            lemma_split_none(m, space_sep());
            lemma_non_empty_id(seq![m]);
            assert(words(f) == seq![m]);
        },
        Some(u) => {
            let dn = decimal(u.numerator as nat);
            let dd = decimal(u.denominator as nat);
            let nd = encode_unknown(u);
            lemma_decimal(u.numerator as nat);
            lemma_decimal(u.denominator as nat);
            lemma_digits_separate_nothing(dn);
            lemma_digits_separate_nothing(dd);
            lemma_literal_separates_nothing(u.value);
            assert(nd =~= dn.push('/') + dd);
            lemma_split_at_sep(dn, '/', dd, is_char('/'));
            lemma_split_none(dn, is_char('/'));
            lemma_split_none(dd, is_char('/'));
            assert(split(nd, is_char('/')) =~= seq![dn, dd]);
            assert(has_no(nd, space_sep())) by {
                assert forall|j: int| 0 <= j < nd.len() implies !(#[trigger] space_sep()(nd[j])) by {
                    if j < dn.len() {
                        assert(nd[j] == dn[j]);
                    } else if j > dn.len() {
                        assert(nd[j] == dd[j - dn.len() - 1]);
                    }
                }
            }
            let parts = seq![m, nd, u.value];
            assert(join(parts, ' ') =~= f) by {
                assert(parts.drop_last() =~= seq![m, nd]);
                assert(seq![m, nd].drop_last() =~= seq![m]);
                assert(join(seq![m], ' ') == m);
                assert(join(seq![m, nd], ' ') == m.push(' ') + nd);
                assert(join(parts, ' ') == (m.push(' ') + nd).push(' ') + u.value);
            }
            assert forall|i: int| 0 <= i < parts.len() implies has_no(#[trigger] parts[i], space_sep()) by {
            }
            lemma_split_join(parts, ' ', space_sep());
            assert(nd.len() > 0);
            assert forall|i: int| 0 <= i < parts.len() implies #[trigger] parts[i].len() > 0 by {
            }
            lemma_non_empty_id(parts);
            assert(words(f) == parts);
        },
    }
}

} // verus!
