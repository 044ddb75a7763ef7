//! MGF spectra: `BEGIN IONS`, header lines (`TITLE=`, `PEPMASS=`, `RTINSECONDS=`, `CHARGE=`),
//! one `m/z intensity` line per peak, then `END IONS`.
use vstd::prelude::*;
use vstd::slice::slice_subrange;

use crate::annotation::{digit_run, lemma_digit_run_exact};
use crate::error::Error;
use crate::fasta::{byte_len, bytes_total, lemma_bytes_step, texts_concat};
use crate::number::{NumLit, literal_char, literal_shape, valid_literal};
use crate::text::{
    decimal, has_no, is_char, is_digit, is_space, join, lemma_chars_deep, lemma_decimal,
    lemma_non_empty_id, lemma_split_at_sep, lemma_split_join, lemma_split_none, number_of,
    parse_number, push_char, push_decimal, space_sep, split, split_on, starts_with,
    starts_with_chars, string_of, trim, trim_start, trimmed_chars, words, words_of,
};

verus! {

/// What an MGF spectrum holds, with each number as its literal text.
pub struct MgfSpectrumView {
    pub title: Seq<char>,
    pub precursor_mz: Seq<char>,
    pub precursor_charge: Option<i8>,
    pub precursor_mass: Option<Seq<char>>,
    pub retention_time: Option<Seq<char>>,
    pub mz_list: Seq<Seq<char>>,
    pub intensity_list: Seq<Seq<char>>,
}

pub open spec fn lits_view(v: Seq<NumLit>) -> Seq<Seq<char>> {
    v.map_values(|n: NumLit| n@)
}

pub open spec fn opt_lit(o: Option<NumLit>) -> Option<Seq<char>> {
    match o {
        Some(n) => Some(n@),
        None => None,
    }
}

/// The header of an MGF spectrum.
pub struct MgfSpectrumHeader {
    title: String,
    precursor_mz: NumLit,
    precursor_charge: Option<i8>,
    precursor_mass: Option<NumLit>,
    retention_time: Option<NumLit>,
}

impl MgfSpectrumHeader {
    pub fn new(
        title: String,
        precursor_mz: NumLit,
        precursor_charge: Option<i8>,
        retention_time: Option<NumLit>,
    ) -> (r: MgfSpectrumHeader)
        ensures
            r.title_view() == title@,
            r.precursor_mz_view() == precursor_mz@,
            r.precursor_charge_view() == precursor_charge,
            r.precursor_mass_view() == None::<Seq<char>>,
            r.retention_time_view() == opt_lit(retention_time),
    {
        MgfSpectrumHeader { title, precursor_mz, precursor_charge, precursor_mass: None, retention_time }
    }

    pub closed spec fn title_view(&self) -> Seq<char> {
        self.title@
    }

    pub closed spec fn precursor_mz_view(&self) -> Seq<char> {
        self.precursor_mz@
    }

    pub closed spec fn precursor_charge_view(&self) -> Option<i8> {
        self.precursor_charge
    }

    pub closed spec fn precursor_mass_view(&self) -> Option<Seq<char>> {
        opt_lit(self.precursor_mass)
    }

    pub closed spec fn retention_time_view(&self) -> Option<Seq<char>> {
        opt_lit(self.retention_time)
    }

    pub fn get_title(&self) -> (r: &String)
        ensures
            r@ == self.title_view(),
    {
        &self.title
    }

    pub fn get_precursor_mz(&self) -> (r: &NumLit)
        ensures
            r@ == self.precursor_mz_view(),
    {
        &self.precursor_mz
    }

    pub fn get_precursor_charge(&self) -> (r: Option<i8>)
        ensures
            r == self.precursor_charge_view(),
    {
        self.precursor_charge
    }

    /// The precursor mass, when one was set (it is not part of the file).
    pub fn get_precursor_mass(&self) -> (r: &Option<NumLit>)
        ensures
            opt_lit(*r) == self.precursor_mass_view(),
    {
        &self.precursor_mass
    }

    pub fn set_precursor_mass(&mut self, precursor_mass: NumLit)
        ensures
            final(self).precursor_mass_view() == Some(precursor_mass@),
            final(self).title_view() == old(self).title_view(),
            final(self).precursor_mz_view() == old(self).precursor_mz_view(),
            final(self).precursor_charge_view() == old(self).precursor_charge_view(),
            final(self).retention_time_view() == old(self).retention_time_view(),
    {
        self.precursor_mass = Some(precursor_mass);
    }

    pub fn get_retention_time(&self) -> (r: &Option<NumLit>)
        ensures
            opt_lit(*r) == self.retention_time_view(),
    {
        &self.retention_time
    }
}

/// An MGF spectrum: its header and its peaks, as many m/z values as intensities, in the order
/// of the file.
pub struct MgfSpectrum {
    header: MgfSpectrumHeader,
    mz_list: Vec<NumLit>,
    intensity_list: Vec<NumLit>,
}

impl View for MgfSpectrum {
    type V = MgfSpectrumView;

    closed spec fn view(&self) -> MgfSpectrumView {
        MgfSpectrumView {
            title: self.header.title@,
            precursor_mz: self.header.precursor_mz@,
            precursor_charge: self.header.precursor_charge,
            precursor_mass: opt_lit(self.header.precursor_mass),
            retention_time: opt_lit(self.header.retention_time),
            mz_list: lits_view(self.mz_list@),
            intensity_list: lits_view(self.intensity_list@),
        }
    }
}

impl MgfSpectrum {
    #[verifier::type_invariant]
    spec fn paired(&self) -> bool {
        self.mz_list@.len() == self.intensity_list@.len()
    }

    /// A spectrum from its header fields and its peaks.
    pub fn new(
        title: String,
        precursor_mz: NumLit,
        precursor_charge: Option<i8>,
        retention_time: Option<NumLit>,
        mz_list: Vec<NumLit>,
        intensity_list: Vec<NumLit>,
    ) -> (r: MgfSpectrum)
        requires
            mz_list@.len() == intensity_list@.len(),
        ensures
            r@ == (MgfSpectrumView {
                title: title@,
                precursor_mz: precursor_mz@,
                precursor_charge,
                precursor_mass: None,
                retention_time: opt_lit(retention_time),
                mz_list: lits_view(mz_list@),
                intensity_list: lits_view(intensity_list@),
            }),
    {
        let header = MgfSpectrumHeader::new(title, precursor_mz, precursor_charge, retention_time);
        MgfSpectrum { header, mz_list, intensity_list }
    }

    pub fn get_header(&self) -> (r: &MgfSpectrumHeader)
        ensures
            r.title_view() == self@.title,
            r.precursor_mz_view() == self@.precursor_mz,
            r.precursor_charge_view() == self@.precursor_charge,
            r.precursor_mass_view() == self@.precursor_mass,
            r.retention_time_view() == self@.retention_time,
    {
        &self.header
    }

    pub fn get_mz_list(&self) -> (r: &Vec<NumLit>)
        ensures
            lits_view(r@) == self@.mz_list,
    {
        &self.mz_list
    }

    pub fn get_intensity_list(&self) -> (r: &Vec<NumLit>)
        ensures
            lits_view(r@) == self@.intensity_list,
    {
        &self.intensity_list
    }

    /// The number of peaks.
    pub fn len(&self) -> (r: usize)
        ensures
            r == self@.mz_list.len(),
            r == self@.intensity_list.len(),
    {
        proof {
            use_type_invariant(self);
        }
        self.mz_list.len()
    }
}

/// What an MGF reader holds between two lines: whether it is inside a spectrum, and what it
/// has read of that spectrum.
pub struct MgfReaderView {
    pub in_spectrum: bool,
    pub title: Seq<char>,
    pub precursor_mz: Option<Seq<char>>,
    pub precursor_charge: Option<i8>,
    pub retention_time: Option<Seq<char>>,
    pub mz_list: Seq<Seq<char>>,
    pub intensity_list: Seq<Seq<char>>,
}

/// A reader outside any spectrum, with nothing read.
pub open spec fn mgf_idle() -> MgfReaderView {
    MgfReaderView {
        in_spectrum: false,
        title: Seq::empty(),
        precursor_mz: None,
        precursor_charge: None,
        retention_time: None,
        mz_list: Seq::empty(),
        intensity_list: Seq::empty(),
    }
}

/// The charge that a `CHARGE=` value writes: digits, then a sign (`+` when there is none or
/// the character after the digits is not `-`).
pub open spec fn charge_of(v: Seq<char>) -> Option<i8> {
    let n = digit_run(v, 0);
    let magnitude = number_of(v.take(n as int));
    let negative = n < v.len() && v[n as int] == '-';
    if n == 0 {
        None
    } else if negative {
        if magnitude <= 128 {
            Some((-magnitude) as i8)
        } else {
            None
        }
    } else if magnitude <= 127 {
        Some(magnitude as i8)
    } else {
        None
    }
}

pub open spec fn begin_ions() -> Seq<char> {
    seq!['B', 'E', 'G', 'I', 'N', ' ', 'I', 'O', 'N', 'S']
}

pub open spec fn end_ions() -> Seq<char> {
    seq!['E', 'N', 'D', ' ', 'I', 'O', 'N', 'S']
}

pub open spec fn title_key() -> Seq<char> {
    seq!['T', 'I', 'T', 'L', 'E', '=']
}

pub open spec fn pepmass_key() -> Seq<char> {
    seq!['P', 'E', 'P', 'M', 'A', 'S', 'S', '=']
}

pub open spec fn rt_key() -> Seq<char> {
    seq!['R', 'T', 'I', 'N', 'S', 'E', 'C', 'O', 'N', 'D', 'S', '=']
}

pub open spec fn charge_key() -> Seq<char> {
    seq!['C', 'H', 'A', 'R', 'G', 'E', '=']
}

/// A header line inside a spectrum; lines with other keys are left aside.
pub open spec fn mgf_header_line(st: MgfReaderView, l: Seq<char>) -> Result<MgfReaderView, Error> {
    if starts_with(l, title_key()) {
        Ok(MgfReaderView { title: l.skip(6), ..st })
    } else if starts_with(l, pepmass_key()) {
        let ws = words(l.skip(8));
        if ws.len() > 0 && valid_literal(ws[0]) {
            Ok(MgfReaderView { precursor_mz: Some(ws[0]), ..st })
        } else {
            Err(Error::InvalidNumericLiteral)
        }
    } else if starts_with(l, rt_key()) {
        if valid_literal(l.skip(12)) {
            Ok(MgfReaderView { retention_time: Some(l.skip(12)), ..st })
        } else {
            Err(Error::InvalidNumericLiteral)
        }
    } else if starts_with(l, charge_key()) {
        match charge_of(l.skip(7)) {
            Some(c) => Ok(MgfReaderView { precursor_charge: Some(c), ..st }),
            None => Err(Error::InvalidNumericLiteral),
        }
    } else {
        Ok(st)
    }
}

/// A peak line: its first two words are the m/z value and the intensity.
pub open spec fn mgf_peak_line(st: MgfReaderView, l: Seq<char>) -> Result<MgfReaderView, Error> {
    let ws = words(l);
    if ws.len() >= 2 && valid_literal(ws[0]) && valid_literal(ws[1]) {
        Ok(
            MgfReaderView {
                mz_list: st.mz_list.push(ws[0]),
                intensity_list: st.intensity_list.push(ws[1]),
                ..st
            },
        )
    } else {
        Err(Error::InvalidNumericLiteral)
    }
}

/// The spectrum that `END IONS` completes.
pub open spec fn mgf_complete(st: MgfReaderView) -> Result<MgfSpectrumView, Error> {
    match st.precursor_mz {
        Some(mz) => Ok(
            MgfSpectrumView {
                title: st.title,
                precursor_mz: mz,
                precursor_charge: st.precursor_charge,
                precursor_mass: None,
                retention_time: st.retention_time,
                mz_list: st.mz_list,
                intensity_list: st.intensity_list,
            },
        ),
        None => Err(Error::MalformedHeader),
    }
}

/// One line of input, trimmed. Blank lines are skipped. Outside a spectrum only `BEGIN IONS`
/// counts; inside, `END IONS` completes the spectrum, a line that starts with a digit is a
/// peak, and other lines are header lines. A spectrum without `PEPMASS` is malformed, and
/// `BEGIN IONS` inside a spectrum leaves that spectrum incomplete.
pub open spec fn mgf_step(st: MgfReaderView, line: Seq<char>) -> (MgfReaderView, Result<
    Option<MgfSpectrumView>,
    Error,
>) {
    let l = trim(line);
    if l.len() == 0 {
        (st, Ok(None))
    } else if starts_with(l, begin_ions()) {
        if st.in_spectrum {
            (st, Err(Error::IncompletePeakList))
        } else {
            (MgfReaderView { in_spectrum: true, ..mgf_idle() }, Ok(None))
        }
    } else if !st.in_spectrum {
        (st, Ok(None))
    } else if starts_with(l, end_ions()) {
        match mgf_complete(st) {
            Ok(s) => (mgf_idle(), Ok(Some(s))),
            Err(e) => (st, Err(e)),
        }
    } else {
        let next = if is_digit(l[0]) {
            mgf_peak_line(st, l)
        } else {
            mgf_header_line(st, l)
        };
        match next {
            Ok(n) => (n, Ok(None)),
            Err(e) => (st, Err(e)),
        }
    }
}

/// The end of the input: inside a spectrum, that spectrum is incomplete.
pub open spec fn mgf_finish(st: MgfReaderView) -> Result<(), Error> {
    if st.in_spectrum {
        Err(Error::IncompletePeakList)
    } else {
        Ok(())
    }
}

pub open spec fn spectrum_result(r: Result<Option<MgfSpectrum>, Error>) -> Result<
    Option<MgfSpectrumView>,
    Error,
> {
    match r {
        Ok(Some(s)) => Ok(Some(s@)),
        Ok(None) => Ok(None),
        Err(e) => Err(e),
    }
}

fn charge_exec(v: &[char]) -> (r: Option<i8>)
    ensures
        r == charge_of(v@),
{
    let mut n: usize = 0;
    while n < v.len() && crate::text::is_digit_char(v[n])
        invariant
            n <= v@.len(),
            digit_run(v@, 0) == n + digit_run(v@, n as int),
            forall|j: int| 0 <= j < n ==> is_digit(#[trigger] v@[j]),
        decreases v@.len() - n,
    {
        n = n + 1;
    }
    if n == 0 {
        return None;
    }
    let negative = n < v.len() && v[n] == '-';
    let max: u64 = if negative {
        128
    } else {
        127
    };
    assert(crate::text::all_digits(v@.take(n as int)));
    match parse_number(slice_subrange(v, 0, n), max) {
        Some(m) => {
            assert(v@.subrange(0, n as int) =~= v@.take(n as int));
            if negative {
                Some((0 - (m as i64)) as i8)
            } else {
                Some(m as i8)
            }
        },
        None => {
            assert(v@.subrange(0, n as int) =~= v@.take(n as int));
            None
        },
    }
}

/// Reads MGF spectra from lines handed to it one at a time.
pub struct MgfReader {
    in_spectrum: bool,
    title: String,
    precursor_mz: Option<NumLit>,
    precursor_charge: Option<i8>,
    retention_time: Option<NumLit>,
    mz_list: Vec<NumLit>,
    intensity_list: Vec<NumLit>,
}

impl View for MgfReader {
    type V = MgfReaderView;

    closed spec fn view(&self) -> MgfReaderView {
        MgfReaderView {
            in_spectrum: self.in_spectrum,
            title: self.title@,
            precursor_mz: opt_lit(self.precursor_mz),
            precursor_charge: self.precursor_charge,
            retention_time: opt_lit(self.retention_time),
            mz_list: lits_view(self.mz_list@),
            intensity_list: lits_view(self.intensity_list@),
        }
    }
}

impl MgfReader {
    /// As many m/z values as intensities have been read.
    pub closed spec fn wf(&self) -> bool {
        self.mz_list@.len() == self.intensity_list@.len()
    }

    /// A reader at the start of its input.
    pub fn new() -> (r: MgfReader)
        ensures
            r@ == mgf_idle(),
            r.wf(),
    {
        let r = MgfReader {
            in_spectrum: false,
            title: String::new(),
            precursor_mz: None,
            precursor_charge: None,
            retention_time: None,
            mz_list: Vec::new(),
            intensity_list: Vec::new(),
        };
        assert(r@.mz_list =~= Seq::<Seq<char>>::empty());
        assert(r@.intensity_list =~= Seq::<Seq<char>>::empty());
        r
    }

    fn reset(&mut self, in_spectrum: bool)
        ensures
            final(self)@ == (MgfReaderView { in_spectrum, ..mgf_idle() }),
            final(self).wf(),
    {
        let mut fresh = MgfReader::new();
        fresh.in_spectrum = in_spectrum;
        *self = fresh;
    }

    /// A header line inside a spectrum.
    fn header_line(&mut self, l: &[char]) -> (r: Result<(), Error>)
        requires
            old(self).wf(),
        ensures
            final(self).wf(),
            match mgf_header_line(old(self)@, l@) {
                Ok(n) => r is Ok && final(self)@ == n,
                Err(e) => r == Err::<(), Error>(e) && final(self)@ == old(self)@,
            },
    {
        let n = l.len();
        if starts_with_chars(l, "TITLE=") {
            proof { reveal_strlit("TITLE="); }
            assert("TITLE="@ == title_key());
            self.title = string_of(slice_subrange(l, 6, n));
            assert(l@.subrange(6, n as int) =~= l@.skip(6));
            Ok(())
        } else if starts_with_chars(l, "PEPMASS=") {
            proof { reveal_strlit("PEPMASS="); reveal_strlit("TITLE="); }
            assert("PEPMASS="@ == pepmass_key());
            assert("TITLE="@ == title_key());
            let rest = slice_subrange(l, 8, n);
            assert(rest@ =~= l@.skip(8));
            let ws = words_of(rest);
            if ws.len() == 0 {
                return Err(Error::InvalidNumericLiteral);
            }
            proof {
                lemma_chars_deep(ws@[0]);
            }
            match NumLit::from_chars(ws[0].as_slice()) {
                Some(mz) => {
                    self.precursor_mz = Some(mz);
                    Ok(())
                },
                None => Err(Error::InvalidNumericLiteral),
            }
        } else if starts_with_chars(l, "RTINSECONDS=") {
            proof { reveal_strlit("PEPMASS="); reveal_strlit("TITLE="); reveal_strlit("RTINSECONDS="); }
            assert("PEPMASS="@ == pepmass_key());
            assert("TITLE="@ == title_key());
            assert("RTINSECONDS="@ == rt_key());
            let rest = slice_subrange(l, 12, n);
            assert(rest@ =~= l@.skip(12));
            match NumLit::from_chars(rest) {
                Some(rt) => {
                    self.retention_time = Some(rt);
                    Ok(())
                },
                None => Err(Error::InvalidNumericLiteral),
            }
        } else if starts_with_chars(l, "CHARGE=") {
            proof {
                reveal_strlit("PEPMASS=");
                reveal_strlit("TITLE=");
                reveal_strlit("RTINSECONDS=");
                reveal_strlit("CHARGE=");
            }
            assert("PEPMASS="@ == pepmass_key());
            assert("TITLE="@ == title_key());
            assert("RTINSECONDS="@ == rt_key());
            assert("CHARGE="@ == charge_key());
            let rest = slice_subrange(l, 7, n);
            assert(rest@ =~= l@.skip(7));
            match charge_exec(rest) {
                Some(c) => {
                    self.precursor_charge = Some(c);
                    Ok(())
                },
                None => Err(Error::InvalidNumericLiteral),
            }
        } else {
            proof {
                reveal_strlit("PEPMASS=");
                reveal_strlit("TITLE=");
                reveal_strlit("RTINSECONDS=");
                reveal_strlit("CHARGE=");
            }
            assert("PEPMASS="@ == pepmass_key());
            assert("TITLE="@ == title_key());
            assert("RTINSECONDS="@ == rt_key());
            assert("CHARGE="@ == charge_key());
            Ok(())
        }
    }

    /// A peak line.
    fn peak_line(&mut self, l: &[char]) -> (r: Result<(), Error>)
        requires
            old(self).wf(),
        ensures
            final(self).wf(),
            match mgf_peak_line(old(self)@, l@) {
                Ok(n) => r is Ok && final(self)@ == n,
                Err(e) => r == Err::<(), Error>(e) && final(self)@ == old(self)@,
            },
    {
        let ws = words_of(l);
        if ws.len() < 2 {
            return Err(Error::InvalidNumericLiteral);
        }
        proof {
            lemma_chars_deep(ws@[0]);
            lemma_chars_deep(ws@[1]);
        }
        let mz = match NumLit::from_chars(ws[0].as_slice()) {
            Some(x) => x,
            None => {
                return Err(Error::InvalidNumericLiteral);
            },
        };
        let intensity = match NumLit::from_chars(ws[1].as_slice()) {
            Some(x) => x,
            None => {
                return Err(Error::InvalidNumericLiteral);
            },
        };
        let ghost mv = mz@;
        let ghost iv = intensity@;
        self.mz_list.push(mz);
        self.intensity_list.push(intensity);
        assert(self@.mz_list =~= old(self)@.mz_list.push(mv));
        assert(self@.intensity_list =~= old(self)@.intensity_list.push(iv));
        Ok(())
    }

    /// Reads one line; the spectrum that it completes, if any.
    pub fn push_line(&mut self, line: &str) -> (r: Result<Option<MgfSpectrum>, Error>)
        requires
            old(self).wf(),
        ensures
            final(self).wf(),
            final(self)@ == mgf_step(old(self)@, line@).0,
            spectrum_result(r) == mgf_step(old(self)@, line@).1,
    {
        let l = trimmed_chars(line);
        if l.len() == 0 {
            return Ok(None);
        }
        proof {
            reveal_strlit("BEGIN IONS");
            reveal_strlit("END IONS");
        }
        assert("BEGIN IONS"@ == begin_ions());
        assert("END IONS"@ == end_ions());
        if starts_with_chars(l.as_slice(), "BEGIN IONS") {
            if self.in_spectrum {
                return Err(Error::IncompletePeakList);
            }
            self.reset(true);
            return Ok(None);
        }
        if !self.in_spectrum {
            return Ok(None);
        }
        if starts_with_chars(l.as_slice(), "END IONS") {
            if self.precursor_mz.is_none() {
                return Err(Error::MalformedHeader);
            }
            let mut done = MgfReader::new();
            core::mem::swap(self, &mut done);
            let header = MgfSpectrumHeader {
                title: done.title,
                precursor_mz: done.precursor_mz.unwrap(),
                precursor_charge: done.precursor_charge,
                precursor_mass: None,
                retention_time: done.retention_time,
            };
            return Ok(
                Some(
                    MgfSpectrum {
                        header,
                        mz_list: done.mz_list,
                        intensity_list: done.intensity_list,
                    },
                ),
            );
        }
        let r = if crate::text::is_digit_char(l[0]) {
            self.peak_line(l.as_slice())
        } else {
            self.header_line(l.as_slice())
        };
        match r {
            Ok(()) => Ok(None),
            Err(e) => Err(e),
        }
    }

    /// The end of the input.
    pub fn finish(&self) -> (r: Result<(), Error>)
        ensures
            r == mgf_finish(self@),
    {
        if self.in_spectrum {
            Err(Error::IncompletePeakList)
        } else {
            Ok(())
        }
    }
}

/// The peak lines, each after a line break: `m/z intensity`.
pub open spec fn peaks_text(mzs: Seq<Seq<char>>, intensities: Seq<Seq<char>>) -> Seq<char>
    decreases mzs.len(),
{
    if mzs.len() == 0 || intensities.len() == 0 {
        Seq::empty()
    } else {
        peaks_text(mzs.drop_last(), intensities.drop_last()).push('\n') + mzs.last().push(' ')
            + intensities.last()
    }
}

/// `CHARGE=` and the charge: its magnitude, then its sign.
pub open spec fn charge_text(c: i8) -> Seq<char> {
    if c < 0 {
        crate::text::decimal((-c) as nat).push('-')
    } else {
        crate::text::decimal(c as nat).push('+')
    }
}

/// The header part of a spectrum's text: `BEGIN IONS`, the title and precursor m/z, then the
/// retention time and the charge when they are given.
pub open spec fn mgf_head(s: MgfSpectrumView) -> Seq<char> {
    begin_ions().push('\n') + title_key() + s.title.push('\n') + pepmass_key() + s.precursor_mz
        + match s.retention_time {
        Some(rt) => seq!['\n'] + rt_key() + rt,
        None => Seq::empty(),
    } + match s.precursor_charge {
        Some(c) => seq!['\n'] + charge_key() + charge_text(c),
        None => Seq::empty(),
    }
}

/// A spectrum as MGF text, ending with a line break.
pub open spec fn mgf_text(s: MgfSpectrumView) -> Seq<char> {
    mgf_head(s) + peaks_text(s.mz_list, s.intensity_list) + seq!['\n'] + end_ions().push('\n')
}

pub open spec fn spectrum_texts(v: Seq<MgfSpectrum>) -> Seq<Seq<char>> {
    v.map_values(|x: MgfSpectrum| mgf_text(x@))
}

/// Writes MGF spectra; the text stays in the writer until it is flushed.
pub struct MgfWriter {
    output: String,
}

impl MgfWriter {
    pub closed spec fn pending(&self) -> Seq<char> {
        self.output@
    }

    pub fn new() -> (r: MgfWriter)
        ensures
            r.pending() == Seq::<char>::empty(),
    {
        MgfWriter { output: String::new() }
    }

    /// The text of one spectrum.
    pub fn spectrum_text(spectrum: &MgfSpectrum) -> (r: String)
        ensures
            r@ == mgf_text(spectrum@),
    {
        proof {
            use_type_invariant(spectrum);
            reveal_strlit("BEGIN IONS");
            reveal_strlit("END IONS");
            reveal_strlit("TITLE=");
            reveal_strlit("PEPMASS=");
            reveal_strlit("RTINSECONDS=");
            reveal_strlit("CHARGE=");
        }
        let ghost sv = spectrum@;
        let h = &spectrum.header;
        let mut out = String::new();
        out.append("BEGIN IONS");
        push_char(&mut out, '\n');
        out.append("TITLE=");
        out.append(h.title.as_str());
        push_char(&mut out, '\n');
        out.append("PEPMASS=");
        out.append(h.precursor_mz.as_str());
        let ghost upto_mz = out@;
        assert(upto_mz =~= begin_ions().push('\n') + title_key() + sv.title.push('\n')
            + pepmass_key() + sv.precursor_mz);
        match &h.retention_time {
            Some(rt) => {
                push_char(&mut out, '\n');
                out.append("RTINSECONDS=");
                out.append(rt.as_str());
            },
            None => {},
        }
        let ghost upto_rt = out@;
        assert(upto_rt =~= upto_mz + match sv.retention_time {
            Some(rt) => seq!['\n'] + rt_key() + rt,
            None => Seq::empty(),
        });
        match h.precursor_charge {
            Some(c) => {
                push_char(&mut out, '\n');
                out.append("CHARGE=");
                if c < 0 {
                    push_decimal(&mut out, (0 - (c as i64)) as u64);
                    push_char(&mut out, '-');
                } else {
                    push_decimal(&mut out, c as u64);
                    push_char(&mut out, '+');
                }
            },
            None => {},
        }
        let ghost upto_charge = out@;
        assert(upto_charge =~= upto_rt + match sv.precursor_charge {
            Some(c) => seq!['\n'] + charge_key() + charge_text(c),
            None => Seq::empty(),
        });
        assert(upto_charge =~= mgf_head(sv));
        let n = spectrum.mz_list.len();
        let mut i: usize = 0;
        assert(sv.mz_list.take(0) =~= Seq::<Seq<char>>::empty());
        while i < n
            invariant
                i <= n,
                n == spectrum.mz_list@.len(),
                n == spectrum.intensity_list@.len(),
                sv == spectrum@,
                out@ == upto_charge + peaks_text(sv.mz_list.take(i as int), sv.intensity_list.take(i as int)),
            decreases n - i,
        {
            push_char(&mut out, '\n');
            out.append(spectrum.mz_list[i].as_str());
            push_char(&mut out, ' ');
            out.append(spectrum.intensity_list[i].as_str());
            assert(sv.mz_list.take(i as int + 1).drop_last() =~= sv.mz_list.take(i as int));
            assert(sv.intensity_list.take(i as int + 1).drop_last() =~= sv.intensity_list.take(i as int));
            i = i + 1;
            assert(out@ =~= upto_charge + peaks_text(sv.mz_list.take(i as int), sv.intensity_list.take(i as int)));
        }
        assert(sv.mz_list.take(i as int) =~= sv.mz_list);
        assert(sv.intensity_list.take(i as int) =~= sv.intensity_list);
        push_char(&mut out, '\n');
        out.append("END IONS");
        push_char(&mut out, '\n');
        assert(out@ =~= mgf_text(sv));
        out
    }

    /// Writes a spectrum; the number of bytes written.
    pub fn write_spectrum(&mut self, spectrum: &MgfSpectrum) -> (r: usize)
        ensures
            final(self).pending() == old(self).pending() + mgf_text(spectrum@),
            r == byte_len(mgf_text(spectrum@)) as usize,
    {
        let text = MgfWriter::spectrum_text(spectrum);
        self.output.append(text.as_str());
        text.as_str().len()
    }

    /// Writes the spectra one after the other; the number of bytes written, if it fits.
    pub fn write_all(&mut self, spectra: &[MgfSpectrum]) -> (r: Option<usize>)
        ensures
            final(self).pending() == old(self).pending() + texts_concat(spectrum_texts(spectra@)),
            r == bytes_total(spectrum_texts(spectra@)),
    {
        let ghost ts = spectrum_texts(spectra@);
        let mut total: Option<usize> = Some(0);
        let mut i: usize = 0;
        assert(ts.take(0) =~= Seq::<Seq<char>>::empty());
        assert(old(self).pending() + texts_concat(ts.take(0)) =~= old(self).pending());
        while i < spectra.len()
            invariant
                i <= spectra@.len(),
                ts == spectrum_texts(spectra@),
                self.pending() == old(self).pending() + texts_concat(ts.take(i as int)),
                total == bytes_total(ts.take(i as int)),
            decreases spectra@.len() - i,
        {
            let n = self.write_spectrum(&spectra[i]);
            proof {
                lemma_bytes_step(ts, i as int, total, n);
            }
            total = match total {
                Some(t) => t.checked_add(n),
                None => None,
            };
            assert(ts.take(i as int + 1).drop_last() =~= ts.take(i as int));
            i = i + 1;
            assert(self.pending() =~= old(self).pending() + texts_concat(ts.take(i as int)));
        }
        assert(ts.take(i as int) =~= ts);
        total
    }

    /// Hands out the text written since the last flush.
    pub fn flush(&mut self) -> (r: String)
        ensures
            r@ == old(self).pending(),
            final(self).pending() == Seq::<char>::empty(),
    {
        let mut out = String::new();
        core::mem::swap(&mut self.output, &mut out);
        out
    }
}

/// Reading `lines` one after the other from `st`: the state after the last line and the
/// spectra completed, or the first error.
pub open spec fn mgf_run(st: MgfReaderView, lines: Seq<Seq<char>>) -> (MgfReaderView, Result<
    Seq<MgfSpectrumView>,
    Error,
>)
    decreases lines.len(),
{
    if lines.len() == 0 {
        (st, Ok(Seq::empty()))
    } else {
        let (after_begin, r) = mgf_step(st, lines[0]);
        match r {
            Err(e) => (after_begin, Err(e)),
            Ok(o) => {
                let (after_title, rest) = mgf_run(after_begin, lines.drop_first());
                (
                    after_title,
                    match rest {
                        Ok(ss) => Ok(
                            match o {
                                Some(x) => seq![x] + ss,
                                None => ss,
                            },
                        ),
                        Err(e) => Err(e),
                    },
                )
            },
        }
    }
}

/// The spectra of an MGF text: its lines read in order from the start, then the end of the
/// input.
pub open spec fn mgf_read(text: Seq<char>) -> Result<Seq<MgfSpectrumView>, Error> {
    let (st, r) = mgf_run(mgf_idle(), split(text, is_char('\n')));
    match r {
        Err(e) => Err(e),
        Ok(ss) => match mgf_finish(st) {
            Ok(_) => Ok(ss),
            Err(e) => Err(e),
        },
    }
}

pub open spec fn spectra_view(v: Seq<MgfSpectrum>) -> Seq<MgfSpectrumView> {
    v.map_values(|x: MgfSpectrum| x@)
}

/// Running the lines after `k` once the first `k` have given `done` and left the reader in
/// `st` gives what running all of them gives.
pub open spec fn mgf_resumes(
    lines: Seq<Seq<char>>,
    k: int,
    st: MgfReaderView,
    done: Seq<MgfSpectrumView>,
) -> bool {
    let (s_all, r_all) = mgf_run(mgf_idle(), lines);
    let (s_rest, r_rest) = mgf_run(st, lines.skip(k));
    &&& s_all == s_rest
    &&& r_all == match r_rest {
        Ok(ss) => Ok(done + ss),
        Err(e) => Err::<Seq<MgfSpectrumView>, Error>(e),
    }
}

proof fn lemma_run_unfold(st: MgfReaderView, lines: Seq<Seq<char>>, k: int)
    requires
        0 <= k < lines.len(),
    ensures
        mgf_run(st, lines.skip(k)) == ({
            let (after_begin, r) = mgf_step(st, lines[k]);
            match r {
                Err(e) => (after_begin, Err(e)),
                Ok(o) => {
                    let (after_title, rest) = mgf_run(after_begin, lines.skip(k + 1));
                    (
                        after_title,
                        match rest {
                            Ok(ss) => Ok(
                                match o {
                                    Some(x) => seq![x] + ss,
                                    None => ss,
                                },
                            ),
                            Err(e) => Err(e),
                        },
                    )
                },
            }
        }),
{
    assert(lines.skip(k).drop_first() =~= lines.skip(k + 1));
    assert(lines.skip(k)[0] == lines[k]);
}

/// Reads a whole MGF text.
pub fn read_spectra(text: &str) -> (r: Result<Vec<MgfSpectrum>, Error>)
    ensures
        match r {
            Ok(v) => mgf_read(text@) == Ok::<Seq<MgfSpectrumView>, Error>(spectra_view(v@)),
            Err(e) => mgf_read(text@) == Err::<Seq<MgfSpectrumView>, Error>(e),
        },
{
    let cs = crate::text::chars_of(text);
    let lines = split_on(cs.as_slice(), '\n');
    let ghost lv = lines.deep_view();
    let mut reader = MgfReader::new();
    let mut out: Vec<MgfSpectrum> = Vec::new();
    let mut k: usize = 0;
    assert(lv.skip(0) =~= lv);
    assert(spectra_view(out@) =~= Seq::<MgfSpectrumView>::empty());
    assert(Seq::<MgfSpectrumView>::empty() + Seq::<MgfSpectrumView>::empty() =~= Seq::<
        MgfSpectrumView,
    >::empty());
    while k < lines.len()
        invariant
            k <= lines@.len(),
            lv == lines.deep_view(),
            lv == split(text@, is_char('\n')),
            reader.wf(),
            mgf_resumes(lv, k as int, reader@, spectra_view(out@)),
        decreases lines@.len() - k,
    {
        proof {
            lemma_chars_deep(lines@[k as int]);
            lemma_run_unfold(reader@, lv, k as int);
        }
        let line = string_of(lines[k].as_slice());
        let ghost before = reader@;
        let ghost done = spectra_view(out@);
        match reader.push_line(line.as_str()) {
            Ok(Some(x)) => {
                let ghost xv = x@;
                out.push(x);
                assert(spectra_view(out@) =~= done.push(xv));
                proof {
                    let (s_rest, r_rest) = mgf_run(reader@, lv.skip(k as int + 1));
                    match r_rest {
                        Ok(ss) => {
                            assert(done + (seq![xv] + ss) =~= done.push(xv) + ss);
                        },
                        Err(_) => {},
                    }
                }
            },
            Ok(None) => {},
            Err(e) => {
                return Err(e);
            },
        }
        k = k + 1;
    }
    assert(lv.skip(k as int) =~= Seq::<Seq<char>>::empty());
    assert(spectra_view(out@) + Seq::<MgfSpectrumView>::empty() =~= spectra_view(out@));
    match reader.finish() {
        Ok(()) => Ok(out),
        Err(e) => Err(e),
    }
}

/// A spectrum that its text gives back: no precursor mass (it is not written), a title on one
/// line that does not end in whitespace, numeric literals, and peaks whose m/z values start
/// with a digit (lines that start otherwise are not peaks).
pub open spec fn mgf_writable(s: MgfSpectrumView) -> bool {
    &&& s.precursor_mass is None
    &&& has_no(s.title, is_char('\n'))
    &&& (s.title.len() == 0 || !is_space(s.title.last()))
    &&& valid_literal(s.precursor_mz)
    &&& (s.retention_time matches Some(rt) ==> valid_literal(rt))
    &&& s.mz_list.len() == s.intensity_list.len()
    &&& forall|i: int|
        0 <= i < s.mz_list.len() ==> valid_literal(#[trigger] s.mz_list[i]) && is_digit(
            s.mz_list[i][0],
        ) && valid_literal(s.intensity_list[i])
}

pub open spec fn header_lines(s: MgfSpectrumView) -> Seq<Seq<char>> {
    seq![begin_ions(), title_key() + s.title, pepmass_key() + s.precursor_mz] + match s.retention_time {
        Some(rt) => seq![rt_key() + rt],
        None => Seq::empty(),
    } + match s.precursor_charge {
        Some(c) => seq![charge_key() + charge_text(c)],
        None => Seq::empty(),
    }
}

pub open spec fn peak_line_seq(mzs: Seq<Seq<char>>, intensities: Seq<Seq<char>>) -> Seq<Seq<char>> {
    Seq::new(mzs.len(), |i: int| mzs[i].push(' ') + intensities[i])
}

/// The lines of a spectrum's text.
pub open spec fn mgf_lines(s: MgfSpectrumView) -> Seq<Seq<char>> {
    header_lines(s) + peak_line_seq(s.mz_list, s.intensity_list) + seq![end_ions(), Seq::empty()]
}

proof fn lemma_join_push(a: Seq<Seq<char>>, b: Seq<char>)
    requires
        a.len() >= 1,
    ensures
        join(a.push(b), '\n') == join(a, '\n').push('\n') + b,
{
    assert(a.push(b).drop_last() =~= a);
}

proof fn lemma_join_peaks(a: Seq<Seq<char>>, mzs: Seq<Seq<char>>, ints: Seq<Seq<char>>, k: int)
    requires
        a.len() >= 1,
        mzs.len() == ints.len(),
        0 <= k <= mzs.len(),
    ensures
        join(a + peak_line_seq(mzs, ints).take(k), '\n') == join(a, '\n') + peaks_text(
            mzs.take(k),
            ints.take(k),
        ),
    decreases k,
{
    let pl = peak_line_seq(mzs, ints);
    if k == 0 {
        assert(a + pl.take(0) =~= a);
        assert(mzs.take(0) =~= Seq::<Seq<char>>::empty());
        assert(join(a, '\n') + Seq::<char>::empty() =~= join(a, '\n'));
    } else {
        lemma_join_peaks(a, mzs, ints, k - 1);
        assert(a + pl.take(k) =~= (a + pl.take(k - 1)).push(pl[k - 1]));
        lemma_join_push(a + pl.take(k - 1), pl[k - 1]);
        assert(mzs.take(k).drop_last() =~= mzs.take(k - 1));
        assert(ints.take(k).drop_last() =~= ints.take(k - 1));
        assert(join(a + pl.take(k), '\n') =~= join(a, '\n') + peaks_text(mzs.take(k), ints.take(k)));
    }
}

proof fn lemma_literal_line(t: Seq<char>)
    requires
        literal_shape(t),
    ensures
        has_no(t, is_char('\n')),
        has_no(t, space_sep()),
        !is_space(t[0]),
        !is_space(t.last()),
{
    assert forall|i: int| 0 <= i < t.len() implies !is_char('\n')(t[i]) && !space_sep()(t[i]) by {
        assert(literal_char(t[i]));
    }
    assert(literal_char(t[0]));
    assert(literal_char(t[t.len() - 1]));
}

#[verifier::rlimit(40)]
proof fn lemma_head_lines(s: MgfSpectrumView)
    ensures
        join(header_lines(s), '\n') == mgf_head(s),
{
    let first_three = seq![begin_ions(), title_key() + s.title, pepmass_key() + s.precursor_mz];
    let first_three_text = begin_ions().push('\n') + title_key() + s.title.push('\n') + pepmass_key()
        + s.precursor_mz;
    assert(join(first_three, '\n') =~= first_three_text) by {
        let first_two = seq![begin_ions(), title_key() + s.title];
        assert(first_three.drop_last() =~= first_two);
        assert(first_two.drop_last() =~= seq![begin_ions()]);
        assert(join(seq![begin_ions()], '\n') == begin_ions());
        assert(join(first_two, '\n') == begin_ions().push('\n') + (title_key() + s.title));
        assert(join(first_three, '\n') == join(first_two, '\n').push('\n') + (pepmass_key() + s.precursor_mz));
    }
    let rt_part = match s.retention_time {
        Some(rt) => seq!['\n'] + rt_key() + rt,
        None => Seq::<char>::empty(),
    };
    let with_rt = first_three + match s.retention_time {
        Some(rt) => seq![rt_key() + rt],
        None => Seq::empty(),
    };
    match s.retention_time {
        Some(rt) => {
            assert(with_rt =~= first_three.push(rt_key() + rt));
            lemma_join_push(first_three, rt_key() + rt);
            assert(join(with_rt, '\n') =~= first_three_text + rt_part);
        },
        None => {
            assert(with_rt =~= first_three);
            assert(join(with_rt, '\n') =~= first_three_text + rt_part);
        },
    }
    let h = header_lines(s);
    match s.precursor_charge {
        Some(c) => {
            assert(h =~= with_rt.push(charge_key() + charge_text(c)));
            lemma_join_push(with_rt, charge_key() + charge_text(c));
            assert(join(h, '\n') =~= mgf_head(s));
        },
        None => {
            assert(h =~= with_rt);
            assert(join(h, '\n') =~= mgf_head(s));
        },
    }
}

/// The text of a spectrum is its lines joined by line breaks.
proof fn lemma_mgf_text_lines(s: MgfSpectrumView)
    requires
        s.mz_list.len() == s.intensity_list.len(),
    ensures
        mgf_text(s) == join(mgf_lines(s), '\n'),
{
    let h = header_lines(s);
    lemma_head_lines(s);
    let n = s.mz_list.len() as int;
    let pl = peak_line_seq(s.mz_list, s.intensity_list);
    lemma_join_peaks(h, s.mz_list, s.intensity_list, n);
    assert(pl.take(n) =~= pl);
    assert(s.mz_list.take(n) =~= s.mz_list);
    assert(s.intensity_list.take(n) =~= s.intensity_list);
    let x = h + pl;
    assert(join(x, '\n') == mgf_head(s) + peaks_text(s.mz_list, s.intensity_list));
    lemma_join_push(x, end_ions());
    lemma_join_push(x.push(end_ions()), Seq::empty());
    assert(mgf_lines(s) =~= x.push(end_ions()).push(Seq::empty()));
    assert(join(mgf_lines(s), '\n') =~= join(x, '\n').push('\n') + end_ions().push('\n'));
}

proof fn lemma_trim_id(l: Seq<char>)
    requires
        l.len() > 0,
        !is_space(l[0]),
        !is_space(l.last()),
    ensures
        trim(l) == l,
{
    assert(trim_start(l) == l);
}

proof fn lemma_starts(key: Seq<char>, x: Seq<char>)
    ensures
        starts_with(key + x, key),
{
    assert((key + x).take(key.len() as int) =~= key);
}

proof fn lemma_not_starts(l: Seq<char>, key: Seq<char>)
    requires
        l.len() > 0,
        key.len() > 0,
        l[0] != key[0],
    ensures
        !starts_with(l, key),
{
    if key.len() <= l.len() {
        assert(l.take(key.len() as int)[0] == l[0]);
    }
}

proof fn lemma_charge_text(c: i8)
    ensures
        charge_of(charge_text(c)) == Some(c),
{
    let m: nat = if c < 0 {
        (-c) as nat
    } else {
        c as nat
    };
    let d = decimal(m);
    lemma_decimal(m);
    let v = charge_text(c);
    assert(v == d.push(if c < 0 {
        '-'
    } else {
        '+'
    }));
    assert forall|j: int| 0 <= j < d.len() implies is_digit(#[trigger] v[j]) by {
        assert(v[j] == d[j]);
    }
    lemma_digit_run_exact(v, 0, d.len() as int);
    assert(v.take(d.len() as int) =~= d);
}

/// After one line that completes nothing, reading goes on from the next.
proof fn lemma_run_quiet(st: MgfReaderView, lines: Seq<Seq<char>>, k: int, after_begin: MgfReaderView)
    requires
        0 <= k < lines.len(),
        mgf_step(st, lines[k]) == (after_begin, Ok::<Option<MgfSpectrumView>, Error>(None)),
    ensures
        mgf_run(st, lines.skip(k)) == mgf_run(after_begin, lines.skip(k + 1)),
{
    lemma_run_unfold(st, lines, k);
    let (s2, rest) = mgf_run(after_begin, lines.skip(k + 1));
    match rest {
        Ok(ss) => {},
        Err(e) => {},
    }
}

pub open spec fn peaks_state(s: MgfSpectrumView, j: int) -> MgfReaderView {
    MgfReaderView {
        in_spectrum: true,
        title: s.title,
        precursor_mz: Some(s.precursor_mz),
        precursor_charge: s.precursor_charge,
        retention_time: s.retention_time,
        mz_list: s.mz_list.take(j),
        intensity_list: s.intensity_list.take(j),
    }
}

/// From the peak lines on, the reading completes the spectrum, and nothing else.
proof fn lemma_run_peaks(s: MgfSpectrumView, j: int)
    requires
        mgf_writable(s),
        0 <= j <= s.mz_list.len(),
    ensures
        mgf_run(peaks_state(s, j), mgf_lines(s).skip(header_lines(s).len() + j)) == (
            mgf_idle(),
            Ok::<Seq<MgfSpectrumView>, Error>(seq![s]),
        ),
    decreases s.mz_list.len() - j,
{
    let lines = mgf_lines(s);
    let b = header_lines(s).len() as int;
    let n = s.mz_list.len() as int;
    let pl = peak_line_seq(s.mz_list, s.intensity_list);
    let st = peaks_state(s, j);
    if j < n {
        let mz = s.mz_list[j];
        let it = s.intensity_list[j];
        assert(valid_literal(mz) && is_digit(mz[0]) && valid_literal(it));
        lemma_literal_line(mz);
        lemma_literal_line(it);
        let l = mz.push(' ') + it;
        assert(lines[b + j] == l);
        assert(l[0] == mz[0]);
        assert(l.last() == it.last());
        lemma_trim_id(l);
        lemma_not_starts(l, begin_ions());
        lemma_not_starts(l, end_ions());
        lemma_split_at_sep(mz, ' ', it, space_sep());
        lemma_split_none(mz, space_sep());
        lemma_split_none(it, space_sep());
        lemma_non_empty_id(seq![mz, it]);
        assert(split(l, space_sep()) =~= seq![mz, it]);
        assert(words(l) == seq![mz, it]);
        let after_begin = peaks_state(s, j + 1);
        assert(s.mz_list.take(j + 1) =~= s.mz_list.take(j).push(mz));
        assert(s.intensity_list.take(j + 1) =~= s.intensity_list.take(j).push(it));
        assert(mgf_step(st, l) == (after_begin, Ok::<Option<MgfSpectrumView>, Error>(None)));
        lemma_run_quiet(st, lines, b + j, after_begin);
        lemma_run_peaks(s, j + 1);
    } else {
        let e = b + n;
        assert(lines[e] == end_ions());
        assert(lines[e + 1] == Seq::<char>::empty());
        lemma_trim_id(end_ions());
        lemma_not_starts(end_ions(), begin_ions());
        lemma_starts(end_ions(), Seq::empty());
        assert(end_ions() + Seq::<char>::empty() =~= end_ions());
        assert(s.mz_list.take(n) =~= s.mz_list);
        assert(s.intensity_list.take(n) =~= s.intensity_list);
        assert(mgf_complete(st) == Ok::<MgfSpectrumView, Error>(s));
        lemma_run_unfold(st, lines, e);
        assert(trim(Seq::<char>::empty()) == Seq::<char>::empty());
        assert(mgf_step(mgf_idle(), lines[e + 1]) == (
            mgf_idle(),
            Ok::<Option<MgfSpectrumView>, Error>(None),
        ));
        lemma_run_quiet(mgf_idle(), lines, e + 1, mgf_idle());
        assert(lines.skip(e + 2) =~= Seq::<Seq<char>>::empty());
        assert(seq![s] + Seq::<MgfSpectrumView>::empty() =~= seq![s]);
    }
}

/// No line of a writable spectrum's text holds a line break.
proof fn lemma_lines_one_line(s: MgfSpectrumView)
    requires
        mgf_writable(s),
    ensures
        forall|i: int|
            0 <= i < mgf_lines(s).len() ==> has_no(#[trigger] mgf_lines(s)[i], is_char('\n')),
{
    let lines = mgf_lines(s);
    lemma_literal_line(s.precursor_mz);
    assert forall|i: int| 0 <= i < lines.len() implies has_no(#[trigger] lines[i], is_char('\n')) by {
        let hl = header_lines(s);
        let b = hl.len() as int;
        let n = s.mz_list.len() as int;
        if i < b {
            let l = lines[i];
            assert(l == hl[i]);
            assert forall|k: int| 0 <= k < l.len() implies !is_char('\n')(l[k]) by {
                if i == 1 && k >= 6 {
                    assert(l[k] == s.title[k - 6]);
                } else if i == 2 && k >= 8 {
                    assert(l[k] == s.precursor_mz[k - 8]);
                } else if i >= 3 && s.retention_time is Some && i == 3 && k >= 12 {
                    let rt = s.retention_time->0;
                    lemma_literal_line(rt);
                    assert(l[k] == rt[k - 12]);
                } else if i >= 3 && s.precursor_charge is Some && i == b - 1 && k >= 7 {
                    let c = s.precursor_charge->0;
                    let m: nat = if c < 0 {
                        (-c) as nat
                    } else {
                        c as nat
                    };
                    lemma_decimal(m);
                    let ct = charge_text(c);
                    assert(l[k] == ct[k - 7]);
                    if k - 7 < decimal(m).len() {
                        assert(ct[k - 7] == decimal(m)[k - 7]);
                        assert(is_digit(decimal(m)[k - 7]));
                    }
                }
            }
        } else if i < b + n {
            let j = i - b;
            let mz = s.mz_list[j];
            let it = s.intensity_list[j];
            assert(valid_literal(mz) && valid_literal(it));
            lemma_literal_line(mz);
            lemma_literal_line(it);
            let l = mz.push(' ') + it;
            assert(lines[i] == l);
            assert forall|k: int| 0 <= k < l.len() implies !is_char('\n')(l[k]) by {
                if k < mz.len() {
                    assert(l[k] == mz[k]);
                } else if k > mz.len() {
                    assert(l[k] == it[k - mz.len() - 1]);
                }
            }
        }
    }
}

/// The first three lines: `BEGIN IONS`, the title and the precursor m/z.
proof fn lemma_run_first_lines(s: MgfSpectrumView)
    requires
        mgf_writable(s),
    ensures
        mgf_run(mgf_idle(), mgf_lines(s)) == mgf_run(
            MgfReaderView {
                in_spectrum: true,
                title: s.title,
                precursor_mz: Some(s.precursor_mz),
                ..mgf_idle()
            },
            mgf_lines(s).skip(3),
        ),
{
    let lines = mgf_lines(s);
    lemma_literal_line(s.precursor_mz);
    let after_begin = MgfReaderView { in_spectrum: true, ..mgf_idle() };
    lemma_trim_id(begin_ions());
    lemma_starts(begin_ions(), Seq::empty());
    assert(begin_ions() + Seq::<char>::empty() =~= begin_ions());
    assert(lines[0] == begin_ions());
    assert(mgf_step(mgf_idle(), lines[0]) == (after_begin, Ok::<Option<MgfSpectrumView>, Error>(None)));
    assert(lines.skip(0) =~= lines);
    lemma_run_quiet(mgf_idle(), lines, 0, after_begin);
    let tl = title_key() + s.title;
    assert(lines[1] == tl);
    assert(tl[0] == 'T');
    assert(tl.last() == if s.title.len() == 0 {
        '='
    } else {
        s.title.last()
    });
    lemma_trim_id(tl);
    lemma_not_starts(tl, begin_ions());
    lemma_not_starts(tl, end_ions());
    lemma_starts(title_key(), s.title);
    assert(tl.skip(6) =~= s.title);
    let after_title = MgfReaderView { title: s.title, ..after_begin };
    assert(mgf_step(after_begin, lines[1]) == (after_title, Ok::<Option<MgfSpectrumView>, Error>(None)));
    lemma_run_quiet(after_begin, lines, 1, after_title);
    let pm = pepmass_key() + s.precursor_mz;
    assert(lines[2] == pm);
    assert(pm.last() == s.precursor_mz.last());
    lemma_trim_id(pm);
    lemma_not_starts(pm, begin_ions());
    lemma_not_starts(pm, end_ions());
    lemma_not_starts(pm, title_key());
    lemma_starts(pepmass_key(), s.precursor_mz);
    assert(pm.skip(8) =~= s.precursor_mz);
    lemma_split_none(s.precursor_mz, space_sep());
    lemma_non_empty_id(seq![s.precursor_mz]);
    assert(words(s.precursor_mz) == seq![s.precursor_mz]);
    let after_pepmass = MgfReaderView { precursor_mz: Some(s.precursor_mz), ..after_title };
    assert(mgf_step(after_title, lines[2]) == (after_pepmass, Ok::<Option<MgfSpectrumView>, Error>(None)));
    lemma_run_quiet(after_title, lines, 2, after_pepmass);
}

/// The optional lines: retention time and charge.
proof fn lemma_run_optional_lines(s: MgfSpectrumView)
    requires
        mgf_writable(s),
    ensures
        mgf_run(
            MgfReaderView {
                in_spectrum: true,
                title: s.title,
                precursor_mz: Some(s.precursor_mz),
                ..mgf_idle()
            },
            mgf_lines(s).skip(3),
        ) == mgf_run(peaks_state(s, 0), mgf_lines(s).skip(header_lines(s).len() as int)),
{
    let lines = mgf_lines(s);
    let after_pepmass = MgfReaderView {
        in_spectrum: true,
        title: s.title,
        precursor_mz: Some(s.precursor_mz),
        ..mgf_idle()
    };
    let after_rt = MgfReaderView { retention_time: s.retention_time, ..after_pepmass };
    let charge_line: int = if s.retention_time is Some {
        4
    } else {
        3
    };
    match s.retention_time {
        Some(rt) => {
            lemma_literal_line(rt);
            let l = rt_key() + rt;
            assert(lines[3] == l);
            assert(l.last() == rt.last());
            lemma_trim_id(l);
            lemma_not_starts(l, begin_ions());
            lemma_not_starts(l, end_ions());
            lemma_not_starts(l, title_key());
            lemma_not_starts(l, pepmass_key());
            lemma_starts(rt_key(), rt);
            assert(l.skip(12) =~= rt);
            assert(mgf_step(after_pepmass, lines[3]) == (after_rt, Ok::<Option<MgfSpectrumView>, Error>(None)));
            lemma_run_quiet(after_pepmass, lines, 3, after_rt);
        },
        None => {
            assert(after_rt == after_pepmass);
        },
    }
    let after_charge = peaks_state(s, 0);
    assert(s.mz_list.take(0) =~= Seq::<Seq<char>>::empty());
    assert(s.intensity_list.take(0) =~= Seq::<Seq<char>>::empty());
    match s.precursor_charge {
        Some(c) => {
            let m: nat = if c < 0 {
                (-c) as nat
            } else {
                c as nat
            };
            lemma_decimal(m);
            let ct = charge_text(c);
            let l = charge_key() + ct;
            assert(lines[charge_line] == l);
            assert(l.last() == ct.last());
            lemma_trim_id(l);
            lemma_not_starts(l, begin_ions());
            lemma_not_starts(l, end_ions());
            lemma_not_starts(l, title_key());
            lemma_not_starts(l, pepmass_key());
            lemma_not_starts(l, rt_key());
            lemma_starts(charge_key(), ct);
            assert(l.skip(7) =~= ct);
            lemma_charge_text(c);
            assert(mgf_step(after_rt, lines[charge_line]) == (after_charge, Ok::<Option<MgfSpectrumView>, Error>(None)));
            lemma_run_quiet(after_rt, lines, charge_line, after_charge);
        },
        None => {
            assert(after_charge == after_rt);
        },
    }
}

/// Writing a spectrum and reading the text back gives that spectrum, and only it: the title,
/// the precursor m/z, charge and retention time, and every peak in its order.
pub proof fn lemma_mgf_round_trip(s: MgfSpectrumView)
    requires
        mgf_writable(s),
    ensures
        mgf_read(mgf_text(s)) == Ok::<Seq<MgfSpectrumView>, Error>(seq![s]),
{
    let lines = mgf_lines(s);
    lemma_mgf_text_lines(s);
    lemma_lines_one_line(s);
    lemma_split_join(lines, '\n', is_char('\n'));
    lemma_run_first_lines(s);
    lemma_run_optional_lines(s);
    lemma_run_peaks(s, 0);
}

} // verus!
