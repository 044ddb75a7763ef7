//! MSP peptide-spectrum matches: `Key: Value` header lines (`Name`, `MW`, `Comment`,
//! `Num peaks`), then one `m/z<TAB>intensity<TAB>"annotation"` line per peak; a blank line
//! ends a record.
use vstd::prelude::*;
use vstd::slice::slice_subrange;

use crate::annotation::{
    MspPeakAnnotation, MspPeakUnknownData, NotationView, annotations_view, decode_annotation,
    decode_annotation_field, encode_annotation, encode_annotation_field,
    lemma_annotation_round_trip, notation_wf, signed_decimal, unknown_view,
};
use crate::text::{has_no, is_char, lemma_decimal};
use crate::error::Error;
use crate::fasta::{byte_len, bytes_total, lemma_bytes_step, texts_concat};
use crate::mgf::lits_view;
use crate::number::{NumLit, valid_literal};
use crate::text::{
    chars_of, decimal, is_digit, lemma_chars_deep, push_char, push_decimal, split, split_on,
    string_of, trim, trimmed_chars,
};

verus! {

/// What an MSP record holds, with each number as its literal text.
pub struct MspPsmView {
    pub name: Seq<char>,
    pub mw: Seq<char>,
    pub comment: Seq<char>,
    pub num_peaks: usize,
    pub mz_list: Seq<Seq<char>>,
    pub intensity_list: Seq<Seq<char>>,
    pub annotation_list: Seq<Seq<char>>,
}

pub open spec fn strings_view(v: Seq<String>) -> Seq<Seq<char>> {
    v.map_values(|s: String| s@)
}

/// The header of an MSP record.
pub struct MspPsmHeader {
    name: String,
    mw: NumLit,
    comment: String,
    num_peaks: usize,
}

impl MspPsmHeader {
    pub fn new(name: String, mw: NumLit, comment: String, num_peaks: usize) -> (r: MspPsmHeader)
        ensures
            r.name_view() == name@,
            r.mw_view() == mw@,
            r.comment_view() == comment@,
            r.num_peaks_view() == num_peaks,
    {
        MspPsmHeader { name, mw, comment, num_peaks }
    }

    pub closed spec fn name_view(&self) -> Seq<char> {
        self.name@
    }

    pub closed spec fn mw_view(&self) -> Seq<char> {
        self.mw@
    }

    pub closed spec fn comment_view(&self) -> Seq<char> {
        self.comment@
    }

    pub closed spec fn num_peaks_view(&self) -> usize {
        self.num_peaks
    }

    /// The name, `<sequence>/<charge>`.
    pub fn get_name(&self) -> (r: &String)
        ensures
            r@ == self.name_view(),
    {
        &self.name
    }

    /// The precursor mass.
    pub fn get_mw(&self) -> (r: &NumLit)
        ensures
            r@ == self.mw_view(),
    {
        &self.mw
    }

    pub fn get_comment(&self) -> (r: &String)
        ensures
            r@ == self.comment_view(),
    {
        &self.comment
    }

    pub fn get_num_peaks(&self) -> (r: usize)
        ensures
            r == self.num_peaks_view(),
    {
        self.num_peaks
    }
}

/// An MSP record as read: its header and three parallel lists, each as long as the header's
/// peak count.
pub struct MspPsm {
    header: MspPsmHeader,
    mz_list: Vec<NumLit>,
    intensity_list: Vec<NumLit>,
    annotation_list: Vec<String>,
}

impl View for MspPsm {
    type V = MspPsmView;

    closed spec fn view(&self) -> MspPsmView {
        MspPsmView {
            name: self.header.name@,
            mw: self.header.mw@,
            comment: self.header.comment@,
            num_peaks: self.header.num_peaks,
            mz_list: lits_view(self.mz_list@),
            intensity_list: lits_view(self.intensity_list@),
            annotation_list: strings_view(self.annotation_list@),
        }
    }
}

/// The peak count agrees with each list of a record.
pub open spec fn counts_agree(p: MspPsmView) -> bool {
    p.num_peaks == p.mz_list.len() && p.num_peaks == p.intensity_list.len() && p.num_peaks
        == p.annotation_list.len()
}

impl MspPsm {
    #[verifier::type_invariant]
    spec fn counts(&self) -> bool {
        &&& self.header.num_peaks == self.mz_list@.len()
        &&& self.header.num_peaks == self.intensity_list@.len()
        &&& self.header.num_peaks == self.annotation_list@.len()
    }

    /// A record from its header fields and its peaks; the peak count must agree with the length
    /// of each list, else the peak list is incomplete.
    pub fn new(
        name: String,
        mw: NumLit,
        comment: String,
        num_peaks: usize,
        mz_list: Vec<NumLit>,
        intensity_list: Vec<NumLit>,
        annotation_list: Vec<String>,
    ) -> (r: Result<MspPsm, Error>)
        ensures
            ({
                let v = MspPsmView {
                    name: name@,
                    mw: mw@,
                    comment: comment@,
                    num_peaks,
                    mz_list: lits_view(mz_list@),
                    intensity_list: lits_view(intensity_list@),
                    annotation_list: strings_view(annotation_list@),
                };
                match r {
                    Ok(p) => counts_agree(v) && p@ == v,
                    Err(e) => !counts_agree(v) && e == Error::IncompletePeakList,
                }
            }),
    {
        if num_peaks != mz_list.len() || num_peaks != intensity_list.len() || num_peaks
            != annotation_list.len() {
            return Err(Error::IncompletePeakList);
        }
        Ok(
            MspPsm {
                header: MspPsmHeader { name, mw, comment, num_peaks },
                mz_list,
                intensity_list,
                annotation_list,
            },
        )
    }

    /// The number of peaks: the declared count, which every list of the record agrees with.
    pub fn peak_count(&self) -> (r: usize)
        ensures
            r == self@.num_peaks,
            counts_agree(self@),
    {
        proof {
            use_type_invariant(self);
        }
        self.header.num_peaks
    }

    pub fn get_header(&self) -> (r: &MspPsmHeader)
        ensures
            r.name_view() == self@.name,
            r.mw_view() == self@.mw,
            r.comment_view() == self@.comment,
            r.num_peaks_view() == self@.num_peaks,
    {
        &self.header
    }

    pub fn get_mz_list(&self) -> (r: &Vec<NumLit>)
        ensures
            lits_view(r@) == self@.mz_list,
    {
        &self.mz_list
    }

    pub fn get_intensity_list(&self) -> (r: &Vec<NumLit>)
        ensures
            lits_view(r@) == self@.intensity_list,
    {
        &self.intensity_list
    }

    /// The annotation of each peak, without its quotes.
    pub fn get_annotation_list(&self) -> (r: &Vec<String>)
        ensures
            strings_view(r@) == self@.annotation_list,
    {
        &self.annotation_list
    }
}

/// What an MSP reader holds between two lines: whether a header line of the record has been
/// read, and what has been read of the record.
pub struct MspReaderView {
    pub found_header: bool,
    pub name: Option<Seq<char>>,
    pub mw: Option<Seq<char>>,
    pub comment: Seq<char>,
    pub num_peaks: Option<usize>,
    pub mz_list: Seq<Seq<char>>,
    pub intensity_list: Seq<Seq<char>>,
    pub annotation_list: Seq<Seq<char>>,
}

/// A reader between records.
pub open spec fn msp_idle() -> MspReaderView {
    MspReaderView {
        found_header: false,
        name: None,
        mw: None,
        comment: Seq::empty(),
        num_peaks: None,
        mz_list: Seq::empty(),
        intensity_list: Seq::empty(),
        annotation_list: Seq::empty(),
    }
}

/// The position of the first `": "` in `s` at or after `i`, or the length of `s`.
pub open spec fn find_key_sep(s: Seq<char>, i: int) -> int
    decreases s.len() - i,
{
    if i < 0 || i + 1 >= s.len() {
        s.len() as int
    } else if s[i] == ':' && s[i + 1] == ' ' {
        i
    } else {
        find_key_sep(s, i + 1)
    }
}

pub open spec fn name_key() -> Seq<char> {
    seq!['N', 'a', 'm', 'e']
}

pub open spec fn mw_key() -> Seq<char> {
    seq!['M', 'W']
}

pub open spec fn comment_key() -> Seq<char> {
    seq!['C', 'o', 'm', 'm', 'e', 'n', 't']
}

pub open spec fn num_peaks_key() -> Seq<char> {
    seq!['N', 'u', 'm', ' ', 'p', 'e', 'a', 'k', 's']
}

/// A header line `Key: Value`; keys other than the four of the format are left aside.
pub open spec fn msp_header_line(st: MspReaderView, l: Seq<char>) -> Result<MspReaderView, Error> {
    let i = find_key_sep(l, 0);
    let key = l.take(i);
    let value = l.skip(i + 2);
    let st1 = MspReaderView { found_header: true, ..st };
    if i >= l.len() {
        Err(Error::MalformedHeader)
    } else if key == name_key() {
        Ok(MspReaderView { name: Some(value), ..st1 })
    } else if key == mw_key() {
        if valid_literal(value) {
            Ok(MspReaderView { mw: Some(value), ..st1 })
        } else {
            Err(Error::InvalidNumericLiteral)
        }
    } else if key == comment_key() {
        Ok(MspReaderView { comment: value, ..st1 })
    } else if key == num_peaks_key() {
        if crate::annotation::usize_digits(value) {
            Ok(MspReaderView { num_peaks: Some(crate::text::number_of(value) as usize), ..st1 })
        } else {
            Err(Error::InvalidNumericLiteral)
        }
    } else {
        Ok(st1)
    }
}

pub open spec fn quoted(a: Seq<char>) -> bool {
    a.len() >= 2 && a[0] == '"' && a.last() == '"'
}

/// A peak line: m/z, intensity and the annotation in double quotes, separated by tabs.
pub open spec fn msp_peak_line(st: MspReaderView, l: Seq<char>) -> Result<MspReaderView, Error> {
    let fs = split(l, crate::text::is_char('\t'));
    if fs.len() < 2 || !valid_literal(fs[0]) || !valid_literal(fs[1]) {
        Err(Error::InvalidNumericLiteral)
    } else if fs.len() != 3 || !quoted(fs[2]) {
        Err(Error::InvalidAnnotationSyntax)
    } else {
        Ok(
            MspReaderView {
                mz_list: st.mz_list.push(fs[0]),
                intensity_list: st.intensity_list.push(fs[1]),
                annotation_list: st.annotation_list.push(fs[2].subrange(1, fs[2].len() - 1)),
                ..st
            },
        )
    }
}

/// The record that a blank line or the end of the input completes: it needs a name, a mass and
/// a peak count, and the count must be that of the peaks read.
pub open spec fn msp_complete(st: MspReaderView) -> Result<MspPsmView, Error> {
    match (st.name, st.mw, st.num_peaks) {
        (Some(name), Some(mw), Some(n)) => {
            let p = MspPsmView {
                name,
                mw,
                comment: st.comment,
                num_peaks: n,
                mz_list: st.mz_list,
                intensity_list: st.intensity_list,
                annotation_list: st.annotation_list,
            };
            if counts_agree(p) {
                Ok(p)
            } else {
                Err(Error::IncompletePeakList)
            }
        },
        _ => Err(Error::MalformedHeader),
    }
}

/// One line of input, trimmed. A blank line completes the record being read, if any; a line
/// that starts with a digit is a peak of it (there must be a header line before); any other
/// line is a header line.
pub open spec fn msp_step(st: MspReaderView, line: Seq<char>) -> (MspReaderView, Result<
    Option<MspPsmView>,
    Error,
>) {
    let l = trim(line);
    if l.len() == 0 {
        if st.found_header {
            match msp_complete(st) {
                Ok(p) => (msp_idle(), Ok(Some(p))),
                Err(e) => (st, Err(e)),
            }
        } else {
            (st, Ok(None))
        }
    } else {
        let next = if is_digit(l[0]) {
            if st.found_header {
                msp_peak_line(st, l)
            } else {
                Err(Error::MalformedHeader)
            }
        } else {
            msp_header_line(st, l)
        };
        match next {
            Ok(n) => (n, Ok(None)),
            Err(e) => (st, Err(e)),
        }
    }
}

/// The end of the input completes the record being read, if any.
pub open spec fn msp_finish(st: MspReaderView) -> Result<Option<MspPsmView>, Error> {
    if st.found_header {
        match msp_complete(st) {
            Ok(p) => Ok(Some(p)),
            Err(e) => Err(e),
        }
    } else {
        Ok(None)
    }
}

pub open spec fn psm_result(r: Result<Option<MspPsm>, Error>) -> Result<Option<MspPsmView>, Error> {
    match r {
        Ok(Some(p)) => Ok(Some(p@)),
        Ok(None) => Ok(None),
        Err(e) => Err(e),
    }
}

/// Whether `s` is exactly `lit`.
fn chars_are(s: &[char], lit: &str) -> (r: bool)
    ensures
        r == (s@ == lit@),
{
    let l = chars_of(lit);
    if l.len() != s.len() {
        return false;
    }
    let mut i: usize = 0;
    while i < l.len()
        invariant
            l@ == lit@,
            l@.len() == s@.len(),
            i <= l@.len(),
            forall|j: int| 0 <= j < i ==> s@[j] == l@[j],
        decreases l@.len() - i,
    {
        if s[i] != l[i] {
            return false;
        }
        i = i + 1;
    }
    assert(s@ =~= lit@);
    true
}

/// Reads MSP records from lines handed to it one at a time.
pub struct MspReader {
    found_header: bool,
    name: Option<String>,
    mw: Option<NumLit>,
    comment: String,
    num_peaks: Option<usize>,
    mz_list: Vec<NumLit>,
    intensity_list: Vec<NumLit>,
    annotation_list: Vec<String>,
}

impl View for MspReader {
    type V = MspReaderView;

    closed spec fn view(&self) -> MspReaderView {
        MspReaderView {
            found_header: self.found_header,
            name: crate::fasta::opt_string_view(self.name),
            mw: crate::mgf::opt_lit(self.mw),
            comment: self.comment@,
            num_peaks: self.num_peaks,
            mz_list: lits_view(self.mz_list@),
            intensity_list: lits_view(self.intensity_list@),
            annotation_list: strings_view(self.annotation_list@),
        }
    }
}

impl MspReader {
    /// A reader at the start of its input.
    pub fn new() -> (r: MspReader)
        ensures
            r@ == msp_idle(),
    {
        let r = MspReader {
            found_header: false,
            name: None,
            mw: None,
            comment: String::new(),
            num_peaks: None,
            mz_list: Vec::new(),
            intensity_list: Vec::new(),
            annotation_list: Vec::new(),
        };
        assert(r@.mz_list =~= Seq::<Seq<char>>::empty());
        assert(r@.intensity_list =~= Seq::<Seq<char>>::empty());
        assert(r@.annotation_list =~= Seq::<Seq<char>>::empty());
        r
    }

    fn header_line(&mut self, l: &[char]) -> (r: Result<(), Error>)
        ensures
            match msp_header_line(old(self)@, l@) {
                Ok(n) => r is Ok && final(self)@ == n,
                Err(e) => r == Err::<(), Error>(e) && final(self)@ == old(self)@,
            },
    {
        let n = l.len();
        let mut i: usize = 0;
        while i < n && i + 1 < n && !(l[i] == ':' && l[i + 1] == ' ')
            invariant
                i <= n,
                n == l@.len(),
                find_key_sep(l@, 0) == find_key_sep(l@, i as int),
            decreases n - i,
        {
            i = i + 1;
        }
        if i >= n || i + 1 >= n {
            return Err(Error::MalformedHeader);
        }
        let key = slice_subrange(l, 0, i);
        let value = slice_subrange(l, i + 2, n);
        assert(key@ =~= l@.take(i as int));
        assert(value@ =~= l@.skip(i + 2));
        proof {
            reveal_strlit("Name");
            reveal_strlit("MW");
            reveal_strlit("Comment");
            reveal_strlit("Num peaks");
        }
        assert("Name"@ == name_key());
        assert("MW"@ == mw_key());
        assert("Comment"@ == comment_key());
        assert("Num peaks"@ == num_peaks_key());
        if chars_are(key, "Name") {
            self.name = Some(string_of(value));
        } else if chars_are(key, "MW") {
            match NumLit::from_chars(value) {
                Some(m) => {
                    self.mw = Some(m);
                },
                None => {
                    return Err(Error::InvalidNumericLiteral);
                },
            }
        } else if chars_are(key, "Comment") {
            self.comment = string_of(value);
        } else if chars_are(key, "Num peaks") {
            match crate::text::parse_number(value, usize::MAX as u64) {
                Some(k) => {
                    self.num_peaks = Some(k as usize);
                },
                None => {
                    return Err(Error::InvalidNumericLiteral);
                },
            }
        }
        self.found_header = true;
        Ok(())
    }

    fn peak_line(&mut self, l: &[char]) -> (r: Result<(), Error>)
        ensures
            match msp_peak_line(old(self)@, l@) {
                Ok(n) => r is Ok && final(self)@ == n,
                Err(e) => r == Err::<(), Error>(e) && final(self)@ == old(self)@,
            },
    {
        let fs = split_on(l, '\t');
        if fs.len() < 2 {
            return Err(Error::InvalidNumericLiteral);
        }
        proof {
            lemma_chars_deep(fs@[0]);
            lemma_chars_deep(fs@[1]);
        }
        let mz = match NumLit::from_chars(fs[0].as_slice()) {
            Some(x) => x,
            None => {
                return Err(Error::InvalidNumericLiteral);
            },
        };
        let intensity = match NumLit::from_chars(fs[1].as_slice()) {
            Some(x) => x,
            None => {
                return Err(Error::InvalidNumericLiteral);
            },
        };
        if fs.len() != 3 {
            return Err(Error::InvalidAnnotationSyntax);
        }
        proof {
            lemma_chars_deep(fs@[2]);
        }
        let a = fs[2].as_slice();
        let k = a.len();
        if k < 2 || a[0] != '"' || a[k - 1] != '"' {
            return Err(Error::InvalidAnnotationSyntax);
        }
        let annotation = string_of(slice_subrange(a, 1, k - 1));
        let ghost (mv, iv, av) = (mz@, intensity@, annotation@);
        self.mz_list.push(mz);
        self.intensity_list.push(intensity);
        self.annotation_list.push(annotation);
        assert(self@.mz_list =~= old(self)@.mz_list.push(mv));
        assert(self@.intensity_list =~= old(self)@.intensity_list.push(iv));
        assert(self@.annotation_list =~= old(self)@.annotation_list.push(av));
        Ok(())
    }

    fn complete(&mut self) -> (r: Result<MspPsm, Error>)
        ensures
            match msp_complete(old(self)@) {
                Ok(p) => r matches Ok(q) && q@ == p && final(self)@ == msp_idle(),
                Err(e) => r == Err::<MspPsm, Error>(e) && final(self)@ == old(self)@,
            },
    {
        if self.name.is_none() || self.mw.is_none() || self.num_peaks.is_none() {
            return Err(Error::MalformedHeader);
        }
        let k = self.num_peaks.unwrap();
        if k != self.mz_list.len() || k != self.intensity_list.len() || k
            != self.annotation_list.len() {
            return Err(Error::IncompletePeakList);
        }
        let mut done = MspReader::new();
        core::mem::swap(self, &mut done);
        Ok(
            MspPsm {
                header: MspPsmHeader {
                    name: done.name.unwrap(),
                    mw: done.mw.unwrap(),
                    comment: done.comment,
                    num_peaks: k,
                },
                mz_list: done.mz_list,
                intensity_list: done.intensity_list,
                annotation_list: done.annotation_list,
            },
        )
    }

    /// Reads one line; the record that it completes, if any.
    pub fn push_line(&mut self, line: &str) -> (r: Result<Option<MspPsm>, Error>)
        ensures
            final(self)@ == msp_step(old(self)@, line@).0,
            psm_result(r) == msp_step(old(self)@, line@).1,
    {
        let l = trimmed_chars(line);
        if l.len() == 0 {
            if self.found_header {
                return match self.complete() {
                    Ok(p) => Ok(Some(p)),
                    Err(e) => Err(e),
                };
            }
            return Ok(None);
        }
        let r = if crate::text::is_digit_char(l[0]) {
            if self.found_header {
                self.peak_line(l.as_slice())
            } else {
                Err(Error::MalformedHeader)
            }
        } else {
            self.header_line(l.as_slice())
        };
        match r {
            Ok(()) => Ok(None),
            Err(e) => Err(e),
        }
    }

    /// The end of the input: the last record, if there is one.
    pub fn finish(&mut self) -> (r: Result<Option<MspPsm>, Error>)
        ensures
            psm_result(r) == msp_finish(old(self)@),
    {
        if self.found_header {
            match self.complete() {
                Ok(p) => Ok(Some(p)),
                Err(e) => Err(e),
            }
        } else {
            Ok(None)
        }
    }
}

/// The peak lines: `m/z<TAB>intensity<TAB>"annotation"`, each ended by a line break.
pub open spec fn peak_lines(
    mzs: Seq<Seq<char>>,
    intensities: Seq<Seq<char>>,
    annotations: Seq<Seq<char>>,
) -> Seq<char>
    decreases mzs.len(),
{
    if mzs.len() == 0 || intensities.len() == 0 || annotations.len() == 0 {
        Seq::empty()
    } else {
        peak_lines(mzs.drop_last(), intensities.drop_last(), annotations.drop_last())
            + mzs.last().push('\t') + intensities.last() + seq!['\t', '"'] + annotations.last()
            + seq!['"', '\n']
    }
}

/// A record as MSP text; every record but the first is preceded by a blank line.
pub open spec fn psm_text(p: MspPsmView, first: bool) -> Seq<char> {
    (if first {
        Seq::empty()
    } else {
        seq!['\n']
    }) + name_key() + seq![':', ' '] + p.name.push('\n') + mw_key() + seq![':', ' '] + p.mw.push(
        '\n',
    ) + comment_key() + seq![':', ' '] + p.comment.push('\n') + num_peaks_key() + seq![':', ' ']
        + decimal(p.num_peaks as nat).push('\n') + peak_lines(
        p.mz_list,
        p.intensity_list,
        p.annotation_list,
    )
}

/// The texts of records written one after the other; only the first of a fresh writer has no
/// blank line before it.
pub open spec fn psm_texts(v: Seq<MspPsm>, fresh: bool) -> Seq<Seq<char>> {
    Seq::new(v.len(), |i: int| psm_text(v[i]@, fresh && i == 0))
}

/// A record that reading completes has as many peaks of each kind as it declares; a record
/// whose declared count differs from the peaks read is an incomplete peak list.
pub proof fn lemma_msp_counts(st: MspReaderView)
    ensures
        msp_complete(st) matches Ok(p) ==> counts_agree(p) && p.mz_list == st.mz_list
            && p.intensity_list == st.intensity_list && p.annotation_list == st.annotation_list,
        msp_complete(st) == Err::<MspPsmView, Error>(Error::IncompletePeakList) <==> (st.name is Some
            && st.mw is Some && st.num_peaks is Some && !(st.num_peaks->0 == st.mz_list.len()
            && st.num_peaks->0 == st.intensity_list.len() && st.num_peaks->0
            == st.annotation_list.len())),
{
}

/// Writes MSP records; the text stays in the writer until it is flushed.
pub struct MspWriter {
    psm_count: usize,
    output: String,
}

/// A writer that goes on from text already written.
pub trait MspBufferWriter: Sized {
    fn from_buffer(buffer: String) -> Self;
}

impl MspBufferWriter for MspWriter {
    fn from_buffer(buffer: String) -> MspWriter {
        MspWriter { psm_count: 0, output: buffer }
    }
}

impl MspWriter {
    pub closed spec fn pending(&self) -> Seq<char> {
        self.output@
    }

    /// The number of records written (it stops growing at the largest `usize`).
    pub closed spec fn count(&self) -> usize {
        self.psm_count
    }

    pub fn new() -> (r: MspWriter)
        ensures
            r.pending() == Seq::<char>::empty(),
            r.count() == 0,
    {
        MspWriter { psm_count: 0, output: String::new() }
    }

    fn _write_str(&mut self, text: &str) -> (r: usize)
        ensures
            final(self).pending() == old(self).pending() + text@,
            final(self).count() == old(self).count(),
            r == byte_len(text@) as usize,
    {
        self.output.append(text);
        text.len()
    }

    fn _write_string(&mut self, text: String) -> (r: usize)
        ensures
            final(self).pending() == old(self).pending() + text@,
            final(self).count() == old(self).count(),
            r == byte_len(text@) as usize,
    {
        self._write_str(text.as_str())
    }

    /// The text of a record; `first` leaves out the blank line before it.
    pub fn psm_text(psm: &MspPsm, first: bool) -> (r: String)
        ensures
            r@ == psm_text(psm@, first),
    {
        proof {
            use_type_invariant(psm);
            reveal_strlit("Name: ");
            reveal_strlit("MW: ");
            reveal_strlit("Comment: ");
            reveal_strlit("Num peaks: ");
        }
        let ghost pv = psm@;
        let mut out = String::new();
        if !first {
            push_char(&mut out, '\n');
        }
        out.append("Name: ");
        out.append(psm.header.name.as_str());
        push_char(&mut out, '\n');
        out.append("MW: ");
        out.append(psm.header.mw.as_str());
        push_char(&mut out, '\n');
        out.append("Comment: ");
        out.append(psm.header.comment.as_str());
        push_char(&mut out, '\n');
        out.append("Num peaks: ");
        push_decimal(&mut out, psm.header.num_peaks as u64);
        push_char(&mut out, '\n');
        let ghost head = out@;
        let n = psm.header.num_peaks;
        let mut i: usize = 0;
        assert(pv.mz_list.take(0) =~= Seq::<Seq<char>>::empty());
        while i < n
            invariant
                i <= n,
                n == psm.mz_list@.len(),
                n == psm.intensity_list@.len(),
                n == psm.annotation_list@.len(),
                pv == psm@,
                out@ == head + peak_lines(
                    pv.mz_list.take(i as int),
                    pv.intensity_list.take(i as int),
                    pv.annotation_list.take(i as int),
                ),
            decreases n - i,
        {
            out.append(psm.mz_list[i].as_str());
            push_char(&mut out, '\t');
            out.append(psm.intensity_list[i].as_str());
            push_char(&mut out, '\t');
            push_char(&mut out, '"');
            out.append(psm.annotation_list[i].as_str());
            push_char(&mut out, '"');
            push_char(&mut out, '\n');
            assert(pv.mz_list.take(i as int + 1).drop_last() =~= pv.mz_list.take(i as int));
            assert(pv.intensity_list.take(i as int + 1).drop_last() =~= pv.intensity_list.take(i as int));
            assert(pv.annotation_list.take(i as int + 1).drop_last() =~= pv.annotation_list.take(i as int));
            i = i + 1;
            assert(out@ =~= head + peak_lines(
                pv.mz_list.take(i as int),
                pv.intensity_list.take(i as int),
                pv.annotation_list.take(i as int),
            ));
        }
        assert(pv.mz_list.take(i as int) =~= pv.mz_list);
        assert(pv.intensity_list.take(i as int) =~= pv.intensity_list);
        assert(pv.annotation_list.take(i as int) =~= pv.annotation_list);
        assert(out@ =~= psm_text(pv, first));
        out
    }

    /// Writes a record, after a blank line unless it is the first; the number of bytes written.
    pub fn write_psm(&mut self, psm: &MspPsm) -> (r: usize)
        ensures
            final(self).pending() == old(self).pending() + psm_text(psm@, old(self).count() == 0),
            r == byte_len(psm_text(psm@, old(self).count() == 0)) as usize,
            final(self).count() == if old(self).count() < usize::MAX {
                old(self).count() + 1
            } else {
                old(self).count() as int
            },
    {
        let text = MspWriter::psm_text(psm, self.psm_count == 0);
        let written = self._write_string(text);
        if self.psm_count < usize::MAX {
            self.psm_count = self.psm_count + 1;
        }
        written
    }

    /// Writes the records one after the other; the number of bytes written, if it fits.
    pub fn write_all(&mut self, psms: &[MspPsm]) -> (r: Option<usize>)
        ensures
            final(self).pending() == old(self).pending() + texts_concat(
                psm_texts(psms@, old(self).count() == 0),
            ),
            r == bytes_total(psm_texts(psms@, old(self).count() == 0)),
    {
        let ghost fresh = old(self).count() == 0;
        let ghost ts = psm_texts(psms@, fresh);
        let mut total: Option<usize> = Some(0);
        let mut i: usize = 0;
        assert(ts.take(0) =~= Seq::<Seq<char>>::empty());
        assert(old(self).pending() + texts_concat(ts.take(0)) =~= old(self).pending());
        while i < psms.len()
            invariant
                i <= psms@.len(),
                fresh == (old(self).count() == 0),
                ts == psm_texts(psms@, fresh),
                i == 0 ==> self.count() == old(self).count(),
                i > 0 ==> self.count() > 0,
                self.pending() == old(self).pending() + texts_concat(ts.take(i as int)),
                total == bytes_total(ts.take(i as int)),
            decreases psms@.len() - i,
        {
            assert(ts[i as int] == psm_text(psms@[i as int]@, self.count() == 0));
            let n = self.write_psm(&psms[i]);
            proof {
                lemma_bytes_step(ts, i as int, total, n);
            }
            total = match total {
                Some(t) => t.checked_add(n),
                None => None,
            };
            assert(ts.take(i as int + 1).drop_last() =~= ts.take(i as int));
            i = i + 1;
            assert(self.pending() =~= old(self).pending() + texts_concat(ts.take(i as int)));
        }
        assert(ts.take(i as int) =~= ts);
        total
    }

    /// Hands out the text written since the last flush.
    pub fn flush(&mut self) -> (r: String)
        ensures
            r@ == old(self).pending(),
            final(self).pending() == Seq::<char>::empty(),
            final(self).count() == old(self).count(),
    {
        let mut out = String::new();
        core::mem::swap(&mut self.output, &mut out);
        out
    }
}

/// A peak with its annotation read.
pub struct MspPeak {
    pub peak_index: usize,
    pub peak_mz: NumLit,
    pub peak_intensity: NumLit,
    pub unknown: Option<MspPeakUnknownData>,
    pub annotations: Vec<MspPeakAnnotation>,
}

pub struct MspPeakView {
    pub peak_index: usize,
    pub peak_mz: Seq<char>,
    pub peak_intensity: Seq<char>,
    pub unknown: Option<crate::annotation::UnknownView>,
    pub annotations: Seq<crate::annotation::AnnotationView>,
}

impl View for MspPeak {
    type V = MspPeakView;

    open spec fn view(&self) -> MspPeakView {
        MspPeakView {
            peak_index: self.peak_index,
            peak_mz: self.peak_mz@,
            peak_intensity: self.peak_intensity@,
            unknown: unknown_view(self.unknown),
            annotations: annotations_view(self.annotations@),
        }
    }
}

/// A record with its name and annotations read: the peptide sequence and charge that the name
/// gives, and each peak with its annotations. The precursor m/z follows from the mass and the
/// charge, and is not kept.
pub struct MspParsedPsm {
    pub comment: String,
    pub sequence: String,
    pub mass: NumLit,
    pub charge: i8,
    pub peaks: Vec<MspPeak>,
}

pub struct MspParsedPsmView {
    pub comment: Seq<char>,
    pub sequence: Seq<char>,
    pub mass: Seq<char>,
    pub charge: i8,
    pub peaks: Seq<MspPeakView>,
}

impl View for MspParsedPsm {
    type V = MspParsedPsmView;

    open spec fn view(&self) -> MspParsedPsmView {
        MspParsedPsmView {
            comment: self.comment@,
            sequence: self.sequence@,
            mass: self.mass@,
            charge: self.charge,
            peaks: self.peaks@.map_values(|p: MspPeak| p@),
        }
    }
}

/// A signed integer that fits an `i8`: an optional sign, then digits.
pub open spec fn i8_of(s: Seq<char>) -> Option<i8> {
    let signed = s.len() > 0 && (s[0] == '-' || s[0] == '+');
    let negative = s.len() > 0 && s[0] == '-';
    let digits = if signed {
        s.skip(1)
    } else {
        s
    };
    let n = crate::text::number_of(digits);
    if digits.len() == 0 || !crate::text::all_digits(digits) {
        None
    } else if negative {
        if n <= 128 {
            Some((-n) as i8)
        } else {
            None
        }
    } else if n <= 127 {
        Some(n as i8)
    } else {
        None
    }
}

/// The peaks `0..k` of a record with their annotations read, or the error of the first that
/// fails.
pub open spec fn parsed_peaks(p: MspPsmView, k: int) -> Result<Seq<MspPeakView>, Error>
    decreases k,
{
    if k <= 0 {
        Ok(Seq::empty())
    } else {
        match (parsed_peaks(p, k - 1), decode_annotation(p.annotation_list[k - 1])) {
            (Ok(ps), Some(x)) => Ok(
                ps.push(
                    MspPeakView {
                        peak_index: (k - 1) as usize,
                        peak_mz: p.mz_list[k - 1],
                        peak_intensity: p.intensity_list[k - 1],
                        unknown: x.unknown,
                        annotations: x.annotations,
                    },
                ),
            ),
            (Err(e), _) => Err(e),
            (_, None) => Err(Error::InvalidAnnotationSyntax),
        }
    }
}

/// The parsed form of a record: the name must be `<sequence>/<charge>`, and every annotation
/// must follow the annotation grammar.
pub open spec fn parsed_of(p: MspPsmView) -> Result<MspParsedPsmView, Error> {
    let i = crate::header::find_from(p.name, '/', 0);
    if i >= p.name.len() {
        Err(Error::MalformedHeader)
    } else {
        match i8_of(p.name.skip(i + 1)) {
            None => Err(Error::InvalidNumericLiteral),
            Some(charge) => match parsed_peaks(p, p.num_peaks as int) {
                Ok(peaks) => Ok(
                    MspParsedPsmView {
                        comment: p.comment,
                        sequence: p.name.take(i),
                        mass: p.mw,
                        charge,
                        peaks,
                    },
                ),
                Err(e) => Err(e),
            },
        }
    }
}

/// The record that a parsed form writes: the name `<sequence>/<charge>`, and each peak's
/// annotation written by the annotation grammar.
pub open spec fn psm_of(q: MspParsedPsmView) -> MspPsmView {
    MspPsmView {
        name: q.sequence.push('/') + signed_decimal(q.charge as int),
        mw: q.mass,
        comment: q.comment,
        num_peaks: q.peaks.len() as usize,
        mz_list: q.peaks.map_values(|pk: MspPeakView| pk.peak_mz),
        intensity_list: q.peaks.map_values(|pk: MspPeakView| pk.peak_intensity),
        annotation_list: q.peaks.map_values(
            |pk: MspPeakView|
                encode_annotation(NotationView { annotations: pk.annotations, unknown: pk.unknown }),
        ),
    }
}

fn i8_exec(s: &[char]) -> (r: Option<i8>)
    ensures
        r == i8_of(s@),
{
    let n = s.len();
    let signed = n > 0 && (s[0] == '-' || s[0] == '+');
    let negative = n > 0 && s[0] == '-';
    let digits = if signed {
        slice_subrange(s, 1, n)
    } else {
        s
    };
    assert(signed ==> digits@ =~= s@.skip(1));
    let max: u64 = if negative {
        128
    } else {
        127
    };
    match crate::text::parse_number(digits, max) {
        Some(v) => if negative {
            Some((0 - (v as i64)) as i8)
        } else {
            Some(v as i8)
        },
        None => None,
    }
}

impl MspPsm {
    /// Reads the name and the annotations.
    pub fn to_parsed_psm(&self) -> (r: Result<MspParsedPsm, Error>)
        ensures
            match r {
                Ok(q) => parsed_of(self@) == Ok::<MspParsedPsmView, Error>(q@),
                Err(e) => parsed_of(self@) == Err::<MspParsedPsmView, Error>(e),
            },
    {
        proof {
            use_type_invariant(self);
        }
        let ghost pv = self@;
        let name = chars_of(self.header.name.as_str());
        let mut i: usize = 0;
        proof {
            crate::header::lemma_find_from(name@, '/', 0);
        }
        while i < name.len() && name[i] != '/'
            invariant
                i <= name@.len(),
                crate::header::find_from(name@, '/', 0) == crate::header::find_from(name@, '/', i as int),
            decreases name@.len() - i,
        {
            i = i + 1;
        }
        if i >= name.len() {
            return Err(Error::MalformedHeader);
        }
        let nlen = name.len();
        let rest = slice_subrange(name.as_slice(), i + 1, nlen);
        assert(rest@ =~= name@.skip(i + 1));
        let charge = match i8_exec(rest) {
            Some(c) => c,
            None => {
                return Err(Error::InvalidNumericLiteral);
            },
        };
        let sequence = string_of(slice_subrange(name.as_slice(), 0, i));
        assert(sequence@ =~= name@.take(i as int));
        let n = self.header.num_peaks;
        let mut peaks: Vec<MspPeak> = Vec::new();
        let mut k: usize = 0;
        assert(peaks@.map_values(|p: MspPeak| p@) =~= Seq::<MspPeakView>::empty());
        while k < n
            invariant
                k <= n,
                n == self.header.num_peaks,
                n == self.mz_list@.len(),
                n == self.intensity_list@.len(),
                n == self.annotation_list@.len(),
                pv == self@,
                name@ == pv.name,
                crate::header::find_from(pv.name, '/', 0) == i,
                i < pv.name.len(),
                i8_of(pv.name.skip(i + 1)) == Some(charge),
                sequence@ == pv.name.take(i as int),
                parsed_peaks(pv, k as int) == Ok::<Seq<MspPeakView>, Error>(
                    peaks@.map_values(|p: MspPeak| p@),
                ),
            decreases n - k,
        {
            match decode_annotation_field(self.annotation_list[k].as_str()) {
                Ok((annotations, unknown)) => {
                    let peak = MspPeak {
                        peak_index: k,
                        peak_mz: self.mz_list[k].copied(),
                        peak_intensity: self.intensity_list[k].copied(),
                        unknown,
                        annotations,
                    };
                    let ghost before = peaks@.map_values(|p: MspPeak| p@);
                    peaks.push(peak);
                    assert(peaks@.map_values(|p: MspPeak| p@) =~= before.push(peak@));
                },
                Err(e) => {
                    assert(self.annotation_list@[k as int]@ == pv.annotation_list[k as int]);
                    assert(parsed_peaks(pv, k as int + 1) == Err::<Seq<MspPeakView>, Error>(
                        Error::InvalidAnnotationSyntax,
                    ));
                    proof {
                        lemma_parsed_peaks_fail(pv, k as int + 1);
                    }
                    return Err(e);
                },
            }
            k = k + 1;
        }
        Ok(
            MspParsedPsm {
                comment: self.header.comment.clone(),
                sequence,
                mass: self.header.mw.copied(),
                charge,
                peaks,
            },
        )
    }
}

/// Once a peak fails to read, so do all longer prefixes of the peaks.
proof fn lemma_parsed_peaks_fail(p: MspPsmView, k: int)
    requires
        0 <= k <= p.num_peaks,
        parsed_peaks(p, k) is Err,
    ensures
        parsed_peaks(p, p.num_peaks as int) is Err,
        parsed_peaks(p, p.num_peaks as int) == parsed_peaks(p, k),
    decreases p.num_peaks - k,
{
    if k < p.num_peaks {
        lemma_parsed_peaks_fail(p, k + 1);
    }
}

impl MspParsedPsm {
    pub fn new(comment: String, sequence: String, mass: NumLit, charge: i8, peaks: Vec<MspPeak>) -> (r:
        MspParsedPsm)
        ensures
            r.comment@ == comment@,
            r.sequence@ == sequence@,
            r.mass@ == mass@,
            r.charge == charge,
            r.peaks@ == peaks@,
    {
        MspParsedPsm { comment, sequence, mass, charge, peaks }
    }

    /// Writes the name and the annotations back.
    pub fn to_psm(&self) -> (r: MspPsm)
        ensures
            r@ == psm_of(self@),
    {
        let ghost qv = self@;
        let mut name = String::new();
        name.append(self.sequence.as_str());
        push_char(&mut name, '/');
        if self.charge < 0 {
            push_char(&mut name, '-');
            push_decimal(&mut name, (0 - (self.charge as i64)) as u64);
        } else {
            push_decimal(&mut name, self.charge as u64);
        }
        assert(name@ =~= qv.sequence.push('/') + signed_decimal(qv.charge as int));
        let n = self.peaks.len();
        let mut mz_list: Vec<NumLit> = Vec::new();
        let mut intensity_list: Vec<NumLit> = Vec::new();
        let mut annotation_list: Vec<String> = Vec::new();
        let mut i: usize = 0;
        while i < n
            invariant
                i <= n,
                n == self.peaks@.len(),
                qv == self@,
                mz_list@.len() == i,
                intensity_list@.len() == i,
                annotation_list@.len() == i,
                lits_view(mz_list@) == qv.peaks.take(i as int).map_values(
                    |pk: MspPeakView| pk.peak_mz,
                ),
                lits_view(intensity_list@) == qv.peaks.take(i as int).map_values(
                    |pk: MspPeakView| pk.peak_intensity,
                ),
                strings_view(annotation_list@) == qv.peaks.take(i as int).map_values(
                    |pk: MspPeakView|
                        encode_annotation(
                            NotationView { annotations: pk.annotations, unknown: pk.unknown },
                        ),
                ),
            decreases n - i,
        {
            let p = &self.peaks[i];
            let ghost pk = qv.peaks[i as int];
            assert(pk == p@);
            let ghost old_mz = lits_view(mz_list@);
            let ghost old_int = lits_view(intensity_list@);
            let m = p.peak_mz.copied();
            let t = p.peak_intensity.copied();
            mz_list.push(m);
            intensity_list.push(t);
            assert(lits_view(mz_list@) =~= old_mz.push(pk.peak_mz));
            assert(lits_view(intensity_list@) =~= old_int.push(pk.peak_intensity));
            let ghost old_ann = strings_view(annotation_list@);
            let a = encode_annotation_field(p.annotations.as_slice(), &p.unknown);
            assert(a@ == encode_annotation(
                NotationView { annotations: pk.annotations, unknown: pk.unknown },
            ));
            annotation_list.push(a);
            assert(strings_view(annotation_list@) =~= old_ann.push(
                encode_annotation(NotationView { annotations: pk.annotations, unknown: pk.unknown }),
            ));
            assert(qv.peaks.take(i as int + 1) =~= qv.peaks.take(i as int).push(pk));
            i = i + 1;
            assert(lits_view(mz_list@) =~= qv.peaks.take(i as int).map_values(
                |pk: MspPeakView| pk.peak_mz,
            ));
            assert(lits_view(intensity_list@) =~= qv.peaks.take(i as int).map_values(
                |pk: MspPeakView| pk.peak_intensity,
            ));
            assert(strings_view(annotation_list@) =~= qv.peaks.take(i as int).map_values(
                |pk: MspPeakView|
                    encode_annotation(
                        NotationView { annotations: pk.annotations, unknown: pk.unknown },
                    ),
            ));
        }
        assert(qv.peaks.take(i as int) =~= qv.peaks);
        let r = MspPsm {
            header: MspPsmHeader {
                name,
                mw: self.mass.copied(),
                comment: self.comment.clone(),
                num_peaks: n,
            },
            mz_list,
            intensity_list,
            annotation_list,
        };
        r
    }
}

proof fn lemma_i8_text(c: i8)
    ensures
        i8_of(signed_decimal(c as int)) == Some(c),
{
    let m: nat = if c < 0 {
        (-c) as nat
    } else {
        c as nat
    };
    lemma_decimal(m);
    let d = decimal(m);
    let t = signed_decimal(c as int);
    assert(is_digit(d[0]));
    if c < 0 {
        assert(t == seq!['-'] + d);
        assert(t.skip(1) =~= d);
    } else {
        assert(t == d);
    }
}

/// A parsed record that writing gives back: a sequence without `/`, each peak numbered by its
/// position, and annotations that the grammar writes.
pub open spec fn parsed_wf(q: MspParsedPsmView) -> bool {
    &&& has_no(q.sequence, is_char('/'))
    &&& q.peaks.len() <= usize::MAX
    &&& forall|i: int|
        0 <= i < q.peaks.len() ==> (#[trigger] q.peaks[i]).peak_index == i && notation_wf(
            NotationView { annotations: q.peaks[i].annotations, unknown: q.peaks[i].unknown },
        )
}

proof fn lemma_parsed_peaks_round_trip(q: MspParsedPsmView, k: int)
    requires
        parsed_wf(q),
        0 <= k <= q.peaks.len(),
    ensures
        parsed_peaks(psm_of(q), k) == Ok::<Seq<MspPeakView>, Error>(q.peaks.take(k)),
    decreases k,
{
    if k == 0 {
        assert(q.peaks.take(0) =~= Seq::<MspPeakView>::empty());
    } else {
        lemma_parsed_peaks_round_trip(q, k - 1);
        let pk = q.peaks[k - 1];
        let x = NotationView { annotations: pk.annotations, unknown: pk.unknown };
        lemma_annotation_round_trip(x);
        let p = psm_of(q);
        assert(p.annotation_list[k - 1] == encode_annotation(x));
        assert(q.peaks.take(k) =~= q.peaks.take(k - 1).push(pk));
    }
}

/// Writing a well-formed parsed record back into its read form, then parsing it again, gives
/// the same parsed record: the two forms hold the same record.
pub proof fn lemma_parsed_round_trip(q: MspParsedPsmView)
    requires
        parsed_wf(q),
    ensures
        parsed_of(psm_of(q)) == Ok::<MspParsedPsmView, Error>(q),
{
    let p = psm_of(q);
    let name = p.name;
    let i = q.sequence.len() as int;
    assert forall|k: int| 0 <= k < i implies name[k] != '/' by {
        assert(name[k] == q.sequence[k]);
        assert(!is_char('/')(q.sequence[k]));
    }
    assert(name[i] == '/');
    crate::header::lemma_find_exact(name, '/', 0, i);
    assert(name.skip(i + 1) =~= signed_decimal(q.charge as int));
    lemma_i8_text(q.charge);
    assert(name.take(i) =~= q.sequence);
    lemma_parsed_peaks_round_trip(q, q.peaks.len() as int);
    assert(q.peaks.take(q.peaks.len() as int) =~= q.peaks);
}

} // verus!
