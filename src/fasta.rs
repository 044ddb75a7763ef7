//! FASTA records: a header line, then the sequence over any number of lines.
use vstd::prelude::*;

use crate::error::Error;
use crate::header::{
    HeaderView, KeywordAttributes, UniProt, decode_header, encode_header, sort_by_key,
};
use crate::text::{
    chars_of, has_no, is_char, lemma_split_at_sep, lemma_split_none, push_char, push_chars,
    split, trim, trimmed_chars,
};

verus! {

/// The number of sequence characters per line that writers use unless told otherwise.
pub const DEFAULT_MAX_AMINO_ACIDS_PER_LINE: usize = 60;

/// What a FASTA entry holds.
pub struct EntryView {
    pub header: HeaderView,
    pub sequence: Seq<char>,
    pub plain_header: Option<Seq<char>>,
}

/// A FASTA entry: the parsed header, the sequence without line breaks, and, if the reader was
/// asked to keep it, the header line as it was read.
pub struct Entry {
    header: UniProt,
    sequence: String,
    plain_header: Option<String>,
}

pub open spec fn opt_string_view(o: Option<String>) -> Option<Seq<char>> {
    match o {
        Some(s) => Some(s@),
        None => None,
    }
}

impl View for Entry {
    type V = EntryView;

    closed spec fn view(&self) -> EntryView {
        EntryView {
            header: self.header@,
            sequence: self.sequence@,
            plain_header: opt_string_view(self.plain_header),
        }
    }
}

impl Entry {
    pub fn new(
        database: String,
        accession: String,
        entry_name: String,
        protein_name: String,
        keyword_attributes: KeywordAttributes,
        sequence: String,
        plain_header: Option<String>,
    ) -> (r: Entry)
        ensures
            r@ == (EntryView {
                header: HeaderView {
                    database: database@,
                    accession: accession@,
                    entry_name: entry_name@,
                    protein_name: protein_name@,
                    attributes: keyword_attributes@,
                },
                sequence: sequence@,
                plain_header: opt_string_view(plain_header),
            }),
    {
        let header = UniProt::from_parts(
            database,
            accession,
            entry_name,
            protein_name,
            keyword_attributes,
        );
        Entry { header, sequence, plain_header }
    }

    pub fn get_header(&self) -> (r: &UniProt)
        ensures
            r@ == self@.header,
    {
        &self.header
    }

    pub fn get_database(&self) -> (r: &str)
        ensures
            r@ == self@.header.database,
    {
        self.header.get_database()
    }

    pub fn get_accession(&self) -> (r: &str)
        ensures
            r@ == self@.header.accession,
    {
        self.header.get_accession()
    }

    pub fn get_entry_name(&self) -> (r: &str)
        ensures
            r@ == self@.header.entry_name,
    {
        self.header.get_entry_name()
    }

    pub fn get_protein_name(&self) -> (r: &str)
        ensures
            r@ == self@.header.protein_name,
    {
        self.header.get_protein_name()
    }

    pub fn get_keyword_attributes(&self) -> (r: &KeywordAttributes)
        ensures
            r@ == self@.header.attributes,
    {
        self.header.get_keyword_attributes()
    }

    pub fn get_sequence(&self) -> (r: &str)
        ensures
            r@ == self@.sequence,
    {
        self.sequence.as_str()
    }

    /// The header line as it was read, if the reader kept it.
    pub fn get_plain_header(&self) -> (r: &Option<String>)
        ensures
            opt_string_view(*r) == self@.plain_header,
    {
        &self.plain_header
    }
}

/// `s` without the characters `c`.
pub open spec fn without(s: Seq<char>, c: char) -> Seq<char>
    decreases s.len(),
{
    if s.len() == 0 {
        s
    } else if s.last() == c {
        without(s.drop_last(), c)
    } else {
        without(s.drop_last(), c).push(s.last())
    }
}

/// The entry that a header line and a sequence make; line breaks in the sequence are dropped.
pub open spec fn entry_of(h: Seq<char>, s: Seq<char>, keep_plain_header: bool) -> Result<
    EntryView,
    Error,
> {
    match decode_header(h) {
        Some(v) => Ok(
            EntryView {
                header: v,
                sequence: without(s, '\n'),
                plain_header: if keep_plain_header {
                    Some(h)
                } else {
                    None
                },
            },
        ),
        None => Err(Error::MalformedHeader),
    }
}

fn without_newlines(s: &str) -> (r: String)
    ensures
        r@ == without(s@, '\n'),
{
    let cs = chars_of(s);
    let mut out = String::new();
    let mut i: usize = 0;
    assert(cs@.take(0) =~= Seq::<char>::empty());
    while i < cs.len()
        invariant
            i <= cs@.len(),
            out@ == without(cs@.take(i as int), '\n'),
        decreases cs@.len() - i,
    {
        assert(cs@.take(i as int + 1).drop_last() =~= cs@.take(i as int));
        if cs[i] != '\n' {
            push_char(&mut out, cs[i]);
        }
        i = i + 1;
    }
    assert(cs@.take(i as int) =~= cs@);
    out
}

fn make_entry(header: &str, sequence: &str, keep_plain_header: bool) -> (r: Result<Entry, Error>)
    ensures
        match r {
            Ok(e) => entry_of(header@, sequence@, keep_plain_header) == Ok::<EntryView, Error>(e@),
            Err(e) => entry_of(header@, sequence@, keep_plain_header) == Err::<EntryView, Error>(e),
        },
{
    match UniProt::parse(header) {
        Ok(h) => {
            let plain_header = if keep_plain_header {
                Some(String::from_str(header))
            } else {
                None
            };
            Ok(Entry { header: h, sequence: without_newlines(sequence), plain_header })
        },
        Err(e) => Err(e),
    }
}

/// What a reader holds between two lines: the header line of the record being read, and the
/// sequence read since.
pub struct ReaderView {
    pub keep_plain_header: bool,
    pub header: Option<Seq<char>>,
    pub sequence: Seq<char>,
}

pub open spec fn opt_entry(r: Result<EntryView, Error>) -> Result<Option<EntryView>, Error> {
    match r {
        Ok(e) => Ok(Some(e)),
        Err(e) => Err(e),
    }
}

/// One line of input, trimmed. A line that starts with `>` ends the record being read, if any,
/// and starts the next one; any other non-empty line is sequence. Sequence before the first
/// header has no record to go to and is reported as a malformed header.
pub open spec fn fasta_step(st: ReaderView, line: Seq<char>) -> (ReaderView, Result<
    Option<EntryView>,
    Error,
>) {
    let l = trim(line);
    if l.len() > 0 && l[0] == '>' {
        let next = ReaderView { header: Some(l), sequence: Seq::empty(), ..st };
        match st.header {
            Some(h) => (next, opt_entry(entry_of(h, st.sequence, st.keep_plain_header))),
            None => (next, Ok(None)),
        }
    } else if l.len() == 0 {
        (st, Ok(None))
    } else {
        match st.header {
            Some(_) => (ReaderView { sequence: st.sequence + l, ..st }, Ok(None)),
            None => (st, Err(Error::MalformedHeader)),
        }
    }
}

/// The end of the input: the record being read, if any.
pub open spec fn fasta_finish(st: ReaderView) -> Result<Option<EntryView>, Error> {
    match st.header {
        Some(h) => opt_entry(entry_of(h, st.sequence, st.keep_plain_header)),
        None => Ok(None),
    }
}

pub open spec fn result_view(r: Result<Option<Entry>, Error>) -> Result<Option<EntryView>, Error> {
    match r {
        Ok(Some(e)) => Ok(Some(e@)),
        Ok(None) => Ok(None),
        Err(e) => Err(e),
    }
}

/// Reads FASTA entries from lines handed to it one at a time.
pub struct Reader {
    keep_plain_header: bool,
    header: Option<String>,
    sequence: String,
}

impl View for Reader {
    type V = ReaderView;

    closed spec fn view(&self) -> ReaderView {
        ReaderView {
            keep_plain_header: self.keep_plain_header,
            header: opt_string_view(self.header),
            sequence: self.sequence@,
        }
    }
}

impl Reader {
    /// A reader at the start of its input; `keep_plain_header` keeps each header line in its
    /// entry.
    pub fn new(keep_plain_header: bool) -> (r: Reader)
        ensures
            r@ == (ReaderView { keep_plain_header, header: None, sequence: Seq::empty() }),
    {
        Reader { keep_plain_header, header: None, sequence: String::new() }
    }

    /// An entry made of a header line and a sequence, whose line breaks are dropped.
    pub fn create_entry(header: &str, sequence: &str) -> (r: Result<Entry, Error>)
        ensures
            match r {
                Ok(e) => entry_of(header@, sequence@, false) == Ok::<EntryView, Error>(e@),
                Err(e) => entry_of(header@, sequence@, false) == Err::<EntryView, Error>(e),
            },
    {
        make_entry(header, sequence, false)
    }

    /// Reads one line; the entry that it completes, if any.
    pub fn push_line(&mut self, line: &str) -> (r: Result<Option<Entry>, Error>)
        ensures
            final(self)@ == fasta_step(old(self)@, line@).0,
            result_view(r) == fasta_step(old(self)@, line@).1,
    {
        let l = trimmed_chars(line);
        if l.len() > 0 && l[0] == '>' {
            let new_header = crate::text::string_of(l.as_slice());
            let mut old_sequence = String::new();
            core::mem::swap(&mut self.sequence, &mut old_sequence);
            let mut previous = Some(new_header);
            core::mem::swap(&mut self.header, &mut previous);
            match previous {
                Some(h) => match make_entry(h.as_str(), old_sequence.as_str(), self.keep_plain_header) {
                    Ok(e) => Ok(Some(e)),
                    Err(e) => Err(e),
                },
                None => Ok(None),
            }
        } else if l.len() == 0 {
            Ok(None)
        } else if self.header.is_some() {
            push_chars(&mut self.sequence, l.as_slice());
            Ok(None)
        } else {
            Err(Error::MalformedHeader)
        }
    }

    /// The end of the input: the last entry, if there is one.
    pub fn finish(&mut self) -> (r: Result<Option<Entry>, Error>)
        ensures
            result_view(r) == fasta_finish(old(self)@),
            final(self)@ == (ReaderView {
                keep_plain_header: old(self)@.keep_plain_header,
                header: None,
                sequence: Seq::empty(),
            }),
    {
        let mut old_sequence = String::new();
        core::mem::swap(&mut self.sequence, &mut old_sequence);
        let mut previous = None;
        core::mem::swap(&mut self.header, &mut previous);
        match previous {
            Some(h) => match make_entry(h.as_str(), old_sequence.as_str(), self.keep_plain_header) {
                Ok(e) => Ok(Some(e)),
                Err(e) => Err(e),
            },
            None => Ok(None),
        }
    }
}

/// The sequence in lines of `w` characters, the last one possibly shorter; with `w` zero, on
/// one line.
pub open spec fn wrap(s: Seq<char>, w: nat) -> Seq<char>
    decreases s.len(),
{
    if w == 0 || s.len() <= w {
        s
    } else {
        s.take(w as int).push('\n') + wrap(s.skip(w as int), w)
    }
}

/// The lines one after the other.
pub open spec fn concat(ls: Seq<Seq<char>>) -> Seq<char>
    decreases ls.len(),
{
    if ls.len() == 0 {
        Seq::empty()
    } else {
        ls[0] + concat(ls.drop_first())
    }
}

/// Wrapping a sequence at `w` characters: every line but the last holds exactly `w`
/// characters, none holds more, and the lines one after the other are the sequence.
pub proof fn lemma_wrap_lines(s: Seq<char>, w: nat)
    requires
        w > 0,
        has_no(s, is_char('\n')),
    ensures
        forall|i: int|
            0 <= i < split(wrap(s, w), is_char('\n')).len() - 1 ==> (#[trigger] split(
                wrap(s, w),
                is_char('\n'),
            )[i]).len() == w,
        split(wrap(s, w), is_char('\n')).last().len() <= w,
        concat(split(wrap(s, w), is_char('\n'))) == s,
    decreases s.len(),
{
    let lines = split(wrap(s, w), is_char('\n'));
    if s.len() <= w {
        lemma_split_none(s, is_char('\n'));
        assert(lines == seq![s]);
        assert(seq![s].drop_first() =~= Seq::<Seq<char>>::empty());
        assert(concat(Seq::<Seq<char>>::empty()) == Seq::<char>::empty());
        assert(concat(lines) == s + concat(Seq::<Seq<char>>::empty()));
        assert(concat(lines) =~= s);
    } else {
        let head = s.take(w as int);
        let tail = s.skip(w as int);
        assert(has_no(head, is_char('\n'))) by {
            assert forall|i: int| 0 <= i < head.len() implies !is_char('\n')(head[i]) by {
                assert(head[i] == s[i]);
            }
        }
        assert(has_no(tail, is_char('\n'))) by {
            assert forall|i: int| 0 <= i < tail.len() implies !is_char('\n')(tail[i]) by {
                assert(tail[i] == s[i + w]);
            }
        }
        lemma_wrap_lines(tail, w);
        lemma_split_at_sep(head, '\n', wrap(tail, w), is_char('\n'));
        lemma_split_none(head, is_char('\n'));
        let rest = split(wrap(tail, w), is_char('\n'));
        crate::text::lemma_split_len(wrap(tail, w), is_char('\n'));
        assert(lines == seq![head] + rest);
        assert(lines.drop_first() =~= rest);
        assert forall|i: int| 0 <= i < lines.len() - 1 implies (#[trigger] lines[i]).len() == w by {
            if i > 0 {
                assert(lines[i] == rest[i - 1]);
            }
        }
        assert(lines.last() == rest.last());
        assert(head + tail =~= s);
    }
}

/// The sequence in lines of at most `max_amino_acids_per_line` characters.
pub fn format_sequence(sequence: &str, max_amino_acids_per_line: usize) -> (r: String)
    ensures
        r@ == wrap(sequence@, max_amino_acids_per_line as nat),
{
    let cs = chars_of(sequence);
    let w = max_amino_acids_per_line;
    let mut out = String::new();
    if w == 0 {
        push_chars(&mut out, cs.as_slice());
        return out;
    }
    let mut i: usize = 0;
    assert(cs@.skip(0) =~= cs@);
    while cs.len() - i > w
        invariant
            w > 0,
            i <= cs@.len(),
            out@ + wrap(cs@.skip(i as int), w as nat) == wrap(cs@, w as nat),
        decreases cs@.len() - i,
    {
        let ghost rest = cs@.skip(i as int);
        push_chars(&mut out, vstd::slice::slice_subrange(cs.as_slice(), i, i + w));
        push_char(&mut out, '\n');
        assert(rest.take(w as int) =~= cs@.subrange(i as int, i + w));
        assert(rest.skip(w as int) =~= cs@.skip(i + w));
        i = i + w;
        assert(out@ + wrap(cs@.skip(i as int), w as nat) =~= wrap(cs@, w as nat));
    }
    let ghost rest = cs@.skip(i as int);
    push_chars(&mut out, vstd::slice::slice_subrange(cs.as_slice(), i, cs.len()));
    assert(rest =~= cs@.subrange(i as int, cs@.len() as int));
    out
}

/// The header line of an entry.
pub open spec fn entry_header_text(e: EntryView, sort_keyword_attributes: bool) -> Seq<char> {
    encode_header(
        HeaderView {
            attributes: if sort_keyword_attributes {
                sort_by_key(e.header.attributes)
            } else {
                e.header.attributes
            },
            ..e.header
        },
    )
}

/// An entry as text: its header line, a line break, and the sequence, wrapped if a line width
/// is given.
pub open spec fn entry_text(
    e: EntryView,
    sort_keyword_attributes: bool,
    max_amino_acids_per_line: Option<usize>,
) -> Seq<char> {
    entry_header_text(e, sort_keyword_attributes).push('\n') + match max_amino_acids_per_line {
        Some(w) => wrap(e.sequence, w as nat),
        None => e.sequence,
    }
}

pub open spec fn byte_len(s: Seq<char>) -> nat {
    vstd::utf8::encode_utf8(s).len()
}

/// The texts one after the other.
pub open spec fn texts_concat(ts: Seq<Seq<char>>) -> Seq<char>
    decreases ts.len(),
{
    if ts.len() == 0 {
        Seq::empty()
    } else {
        texts_concat(ts.drop_last()) + ts.last()
    }
}

/// The byte counts that writing the texts one by one reports, added up.
pub open spec fn texts_bytes(ts: Seq<Seq<char>>) -> nat
    decreases ts.len(),
{
    if ts.len() == 0 {
        0
    } else {
        texts_bytes(ts.drop_last()) + (byte_len(ts.last()) as usize) as nat
    }
}

/// The total of the byte counts, if it fits in a `usize`.
pub open spec fn bytes_total(ts: Seq<Seq<char>>) -> Option<usize> {
    if texts_bytes(ts) <= usize::MAX {
        Some(texts_bytes(ts) as usize)
    } else {
        None
    }
}

/// Adding the byte count of one more text to a running total.
pub proof fn lemma_bytes_step(ts: Seq<Seq<char>>, k: int, total: Option<usize>, n: usize)
    requires
        0 <= k < ts.len(),
        total == bytes_total(ts.take(k)),
        n == byte_len(ts[k]) as usize,
    ensures
        match total {
            Some(t) => if t + n <= usize::MAX {
                Some((t + n) as usize)
            } else {
                None::<usize>
            },
            None => None,
        } == bytes_total(ts.take(k + 1)),
{
    assert(ts.take(k + 1).drop_last() =~= ts.take(k));
    assert(ts.take(k + 1).last() == ts[k]);
}

pub open spec fn entry_texts(
    es: Seq<Entry>,
    sort_keyword_attributes: bool,
    max_amino_acids_per_line: Option<usize>,
) -> Seq<Seq<char>> {
    es.map_values(
        |e: Entry| entry_text(e@, sort_keyword_attributes, max_amino_acids_per_line).push('\n'),
    )
}

/// Writes FASTA entries; the text stays in the writer until it is flushed.
pub struct Writer {
    max_amino_acids_per_line: Option<usize>,
    sort_keyword_attributes: bool,
    output: String,
}

impl Writer {
    pub closed spec fn pending(&self) -> Seq<char> {
        self.output@
    }

    pub closed spec fn line_width(&self) -> Option<usize> {
        self.max_amino_acids_per_line
    }

    pub closed spec fn sorts(&self) -> bool {
        self.sort_keyword_attributes
    }

    /// A writer that sorts the keyword attributes if asked, and wraps sequences at the given
    /// line width, if one is given.
    pub fn new(sort_keyword_attributes: bool, max_amino_acids_per_line: Option<usize>) -> (r:
        Writer)
        ensures
            r.pending() == Seq::<char>::empty(),
            r.line_width() == max_amino_acids_per_line,
            r.sorts() == sort_keyword_attributes,
    {
        Writer { max_amino_acids_per_line, sort_keyword_attributes, output: String::new() }
    }

    /// A writer that wraps sequences at the default width.
    pub fn new_with_default_seq_formatting(sort_keyword_attributes: bool) -> (r: Writer)
        ensures
            r.pending() == Seq::<char>::empty(),
            r.line_width() == Some(DEFAULT_MAX_AMINO_ACIDS_PER_LINE),
            r.sorts() == sort_keyword_attributes,
    {
        Writer::new(sort_keyword_attributes, Some(DEFAULT_MAX_AMINO_ACIDS_PER_LINE))
    }

    /// A writer that puts each sequence on one line.
    pub fn new_without_seq_formatting(sort_keyword_attributes: bool) -> (r: Writer)
        ensures
            r.pending() == Seq::<char>::empty(),
            r.line_width() == None::<usize>,
            r.sorts() == sort_keyword_attributes,
    {
        Writer::new(sort_keyword_attributes, None)
    }

    /// The header line of an entry, its keyword attributes sorted by key if asked.
    pub fn create_header(entry: &Entry, sort_keyword_attributes: bool) -> (r: String)
        ensures
            r@ == entry_header_text(entry@, sort_keyword_attributes),
    {
        entry.header.encode(sort_keyword_attributes)
    }

    /// The header line and the sequence of an entry, separated by a line break.
    pub fn stringify_entry(
        entry: &Entry,
        sort_keyword_attributes: bool,
        max_amino_acids_per_line: Option<usize>,
    ) -> (r: String)
        ensures
            r@ == entry_text(entry@, sort_keyword_attributes, max_amino_acids_per_line),
    {
        let mut out = entry.header.encode(sort_keyword_attributes);
        push_char(&mut out, '\n');
        match max_amino_acids_per_line {
            Some(w) => {
                let f = format_sequence(entry.sequence.as_str(), w);
                out.append(f.as_str());
            },
            None => {
                out.append(entry.sequence.as_str());
            },
        }
        out
    }

    /// Writes an entry and a line break; the number of bytes written.
    pub fn write_entry(&mut self, entry: &Entry) -> (r: usize)
        ensures
            final(self).pending() == old(self).pending() + entry_text(
                entry@,
                old(self).sorts(),
                old(self).line_width(),
            ).push('\n'),
            r == byte_len(entry_text(entry@, old(self).sorts(), old(self).line_width()).push('\n'))
                as usize,
            final(self).sorts() == old(self).sorts(),
            final(self).line_width() == old(self).line_width(),
    {
        let mut text = Writer::stringify_entry(
            entry,
            self.sort_keyword_attributes,
            self.max_amino_acids_per_line,
        );
        push_char(&mut text, '\n');
        self.output.append(text.as_str());
        text.as_str().len()
    }

    /// Writes the entries one after the other; the number of bytes written, if it fits.
    pub fn write_all(&mut self, entries: &[Entry]) -> (r: Option<usize>)
        ensures
            final(self).pending() == old(self).pending() + texts_concat(
                entry_texts(entries@, old(self).sorts(), old(self).line_width()),
            ),
            r == bytes_total(entry_texts(entries@, old(self).sorts(), old(self).line_width())),
            final(self).sorts() == old(self).sorts(),
            final(self).line_width() == old(self).line_width(),
    {
        let ghost ts = entry_texts(entries@, self.sorts(), self.line_width());
        let mut total: Option<usize> = Some(0);
        let mut i: usize = 0;
        assert(ts.take(0) =~= Seq::<Seq<char>>::empty());
        assert(old(self).pending() + texts_concat(ts.take(0)) =~= old(self).pending());
        while i < entries.len()
            invariant
                i <= entries@.len(),
                ts == entry_texts(entries@, old(self).sorts(), old(self).line_width()),
                self.sorts() == old(self).sorts(),
                self.line_width() == old(self).line_width(),
                self.pending() == old(self).pending() + texts_concat(ts.take(i as int)),
                total == bytes_total(ts.take(i as int)),
            decreases entries@.len() - i,
        {
            let n = self.write_entry(&entries[i]);
            proof {
                lemma_bytes_step(ts, i as int, total, n);
            }
            total = match total {
                Some(t) => t.checked_add(n),
                None => None,
            };
            assert(ts.take(i as int + 1).drop_last() =~= ts.take(i as int));
            i = i + 1;
            assert(self.pending() =~= old(self).pending() + texts_concat(ts.take(i as int)));
        }
        assert(ts.take(i as int) =~= ts);
        total
    }

    /// Hands out the text written since the last flush.
    pub fn flush(&mut self) -> (r: String)
        ensures
            r@ == old(self).pending(),
            final(self).pending() == Seq::<char>::empty(),
            final(self).sorts() == old(self).sorts(),
            final(self).line_width() == old(self).line_width(),
    {
        let mut out = String::new();
        core::mem::swap(&mut self.output, &mut out);
        out
    }
}

} // verus!
