//! The alignment: records parsed from FASTA text, checked to share one
//! width, queried and written back as FASTA.

use vstd::prelude::*;
use vstd::utf8::{decode_utf8, encode_utf8, valid_utf8};
use crate::fasta::{fasta_reads, id_desc, lossy, lossy_utf8, read_records, read_view, split_at_space};
use vstd::std_specs::iter::IteratorSpec;

verus! {

/// One record of the alignment.
#[derive(Debug)]
pub struct Sequence {
    /// 1-based position among the records that the reader yielded,
    /// counting those whose header could not be decoded.
    pub index: usize,
    pub header: String,
    pub sequence: String,
}

/// A record whose header does not have the expected number of fields.
#[derive(Debug, PartialEq, Eq)]
pub struct ProblemHeader {
    pub index: usize,
    pub header: String,
}

/// Why a text was not taken as an alignment.
#[derive(Debug, PartialEq, Eq)]
pub enum ParseError {
    /// The reader could not read the text as FASTA.
    InvalidFormat,
    /// The record with this header differs in width from the first one.
    LengthMismatch(String),
    /// No record could be kept.
    Empty,
}

/// A query was made before any alignment was loaded.
#[derive(Debug, PartialEq, Eq)]
pub struct NoDataError;

/// What the reader made of one record.
pub enum Entry {
    /// The reader failed.
    Unreadable,
    /// The header line could not be decoded.
    Unnamed,
    /// A record with its identifier, its description if any, and its
    /// sequence.
    Named { id: String, desc: Option<String>, sequence: String },
}

pub ghost struct RecordView {
    pub index: int,
    pub header: Seq<char>,
    pub sequence: Seq<char>,
}

pub ghost struct ProblemView {
    pub index: int,
    pub header: Seq<char>,
}

pub ghost enum ParseErrorView {
    InvalidFormat,
    LengthMismatch(Seq<char>),
    Empty,
}

pub ghost enum EntryView {
    Unreadable,
    Unnamed,
    Named(Seq<char>, Option<Seq<char>>, Seq<char>),
}

impl View for Sequence {
    type V = RecordView;

    open spec fn view(&self) -> RecordView {
        RecordView { index: self.index as int, header: self.header@, sequence: self.sequence@ }
    }
}

impl View for ProblemHeader {
    type V = ProblemView;

    open spec fn view(&self) -> ProblemView {
        ProblemView { index: self.index as int, header: self.header@ }
    }
}

impl View for ParseError {
    type V = ParseErrorView;

    open spec fn view(&self) -> ParseErrorView {
        match self {
            ParseError::InvalidFormat => ParseErrorView::InvalidFormat,
            ParseError::LengthMismatch(h) => ParseErrorView::LengthMismatch(h@),
            ParseError::Empty => ParseErrorView::Empty,
        }
    }
}

impl View for Entry {
    type V = EntryView;

    open spec fn view(&self) -> EntryView {
        match self {
            Entry::Unreadable => EntryView::Unreadable,
            Entry::Unnamed => EntryView::Unnamed,
            Entry::Named { id, desc, sequence } => EntryView::Named(
                id@,
                match desc {
                    Some(d) => Some(d@),
                    None => None,
                },
                sequence@,
            ),
        }
    }
}

/// What the reader's outcome for one record becomes: a failed read, a
/// header that is not UTF-8, or the header split at its first space with
/// the sequence decoded.
pub open spec fn entry_of(read: Option<(Seq<u8>, Seq<u8>)>) -> EntryView {
    match read {
        None => EntryView::Unreadable,
        Some((head, seq)) => if valid_utf8(head) {
            let parts = split_at_space(decode_utf8(head));
            EntryView::Named(parts.0, parts.1, sequence_text(seq))
        } else {
            EntryView::Unnamed
        },
    }
}

/// A sequence's bytes as text: decoded where they are valid UTF-8, with
/// invalid sequences replaced otherwise.
pub open spec fn sequence_text(bytes: Seq<u8>) -> Seq<char> {
    if valid_utf8(bytes) {
        decode_utf8(bytes)
    } else {
        lossy_utf8(bytes)
    }
}

/// The entries that the reader makes of the FASTA text `text`.
pub open spec fn entries_of(text: Seq<u8>) -> Seq<EntryView> {
    fasta_reads(text).map_values(|r: Option<(Seq<u8>, Seq<u8>)>| entry_of(r))
}

/// The header stored for an identifier and its optional description:
/// the two joined with nothing between them.
pub open spec fn joined_header(id: Seq<char>, desc: Option<Seq<char>>) -> Seq<char> {
    match desc {
        Some(d) => id + d,
        None => id,
    }
}

/// The width of a sequence: the length of its UTF-8 encoding.
pub open spec fn width(s: Seq<char>) -> nat {
    encode_utf8(s).len()
}

/// The records kept from `es`: one for each named entry, indexed by the
/// entry's 1-based position.
pub open spec fn kept(es: Seq<EntryView>) -> Seq<RecordView>
    decreases es.len(),
{
    if es.len() == 0 {
        Seq::empty()
    } else {
        let prev = kept(es.drop_last());
        match es.last() {
            EntryView::Named(id, desc, s) => prev.push(
                RecordView { index: es.len() as int, header: joined_header(id, desc), sequence: s },
            ),
            _ => prev,
        }
    }
}

pub open spec fn has_unreadable(es: Seq<EntryView>) -> bool {
    exists|i: int| 0 <= i < es.len() && es[i] is Unreadable
}

/// The header of the first record at or after `i` whose width is not `w`.
pub open spec fn first_mismatch(rs: Seq<RecordView>, w: nat, i: int) -> Option<Seq<char>>
    decreases rs.len() - i,
{
    if i < 0 || i >= rs.len() {
        None
    } else if width(rs[i].sequence) != w {
        Some(rs[i].header)
    } else {
        first_mismatch(rs, w, i + 1)
    }
}

/// The outcome of loading the entries `es`: the kept records, or the
/// reason they do not form an alignment.
pub open spec fn assembled(es: Seq<EntryView>) -> Result<Seq<RecordView>, ParseErrorView> {
    if has_unreadable(es) {
        Err(ParseErrorView::InvalidFormat)
    } else {
        let rs = kept(es);
        if rs.len() == 0 {
            Err(ParseErrorView::Empty)
        } else {
            match first_mismatch(rs, width(rs[0].sequence), 0) {
                Some(h) => Err(ParseErrorView::LengthMismatch(h)),
                None => Ok(rs),
            }
        }
    }
}

/// All records of `rs` share one width.
pub open spec fn aligned(rs: Seq<RecordView>) -> bool {
    forall|i: int, j: int|
        0 <= i < rs.len() && 0 <= j < rs.len() ==> width(#[trigger] rs[i].sequence) == width(
            #[trigger] rs[j].sequence,
        )
}

/// The number of `|` characters in `h`.
pub open spec fn bar_count(h: Seq<char>) -> nat
    decreases h.len(),
{
    if h.len() == 0 {
        0
    } else {
        (if h[0] == '|' { 1nat } else { 0nat }) + bar_count(h.drop_first())
    }
}

/// The number of parts that splitting `h` on `|` gives.
pub open spec fn field_count(h: Seq<char>) -> nat {
    bar_count(h) + 1
}

/// The records of `rs` whose header does not have `k` fields, in order.
pub open spec fn problems(rs: Seq<RecordView>, k: nat) -> Seq<ProblemView>
    decreases rs.len(),
{
    if rs.len() == 0 {
        Seq::empty()
    } else {
        let prev = problems(rs.drop_last(), k);
        let r = rs.last();
        if field_count(r.header) != k {
            prev.push(ProblemView { index: r.index, header: r.header })
        } else {
            prev
        }
    }
}

/// One record written as FASTA: `>`, the header, a line break, the sequence.
pub open spec fn fasta_block(r: RecordView) -> Seq<char> {
    seq!['>'] + r.header + seq!['\n'] + r.sequence
}

/// The records written as FASTA, blocks joined by single line breaks, with
/// no line break after the last.
pub open spec fn fasta_text(rs: Seq<RecordView>) -> Seq<char>
    decreases rs.len(),
{
    if rs.len() == 0 {
        Seq::empty()
    } else if rs.len() == 1 {
        fasta_block(rs[0])
    } else {
        fasta_text(rs.drop_last()) + seq!['\n'] + fasta_block(rs.last())
    }
}

/// Whether splitting `h` on `|` gives exactly `k` parts.
pub fn has_field_count(h: &str, k: usize) -> (r: bool)
    ensures
        r == (field_count(h@) == k),
{
    if k == 0 {
        return false;
    }
    let mut it = h.chars();
    let mut bars: usize = 0;
    loop
        invariant
            bars < k,
            bars + bar_count(it.remaining()) == bar_count(h@),
            it.decrease() is Some,
        decreases it.decrease()->0,
    {
        match it.next() {
            None => {
                return bars == k - 1;
            },
            Some(c) => {
                if c == '|' {
                    if bars == k - 1 {
                        return false;
                    }
                    bars = bars + 1;
                }
            },
        }
    }
}

pub open spec fn parse_error_message(e: ParseErrorView) -> Seq<char> {
    match e {
        ParseErrorView::InvalidFormat => "Not a valid FASTA Multiple Sequence Alignment."@,
        ParseErrorView::LengthMismatch(h) => "Not a valid MSA: "@ + h,
        ParseErrorView::Empty => "Not a valid MSA: no sequences."@,
    }
}

pub open spec fn no_data_message() -> Seq<char> {
    "No sequences set. Please upload a valid MSA."@
}

impl ParseError {
    /// A sentence for the user that says why the text was refused.
    pub fn message(&self) -> (r: String)
        ensures
            r@ == parse_error_message(self@),
    {
        proof {
            reveal_strlit("Not a valid FASTA Multiple Sequence Alignment.");
            reveal_strlit("Not a valid MSA: ");
            reveal_strlit("Not a valid MSA: no sequences.");
        }
        match self {
            ParseError::InvalidFormat => String::from_str("Not a valid FASTA Multiple Sequence Alignment."),
            ParseError::LengthMismatch(h) => {
                let mut m = String::from_str("Not a valid MSA: ");
                m.append(h.as_str());
                m
            },
            ParseError::Empty => String::from_str("Not a valid MSA: no sequences."),
        }
    }
}

impl NoDataError {
    /// A sentence for the user that asks for an alignment.
    pub fn message(&self) -> (r: String)
        ensures
            r@ == no_data_message(),
    {
        proof {
            reveal_strlit("No sequences set. Please upload a valid MSA.");
        }
        String::from_str("No sequences set. Please upload a valid MSA.")
    }
}

/// The alignment. Empty until a text has been loaded; each successful load
/// replaces it whole.
pub struct MSA {
    sequences: Option<Vec<Sequence>>,
}

impl View for MSA {
    type V = Option<Seq<RecordView>>;

    closed spec fn view(&self) -> Option<Seq<RecordView>> {
        match self.sequences {
            Some(v) => Some(v@.map_values(|s: Sequence| s@)),
            None => None,
        }
    }
}

impl MSA {
    pub closed spec fn wf(&self) -> bool {
        self@ matches Some(rs) ==> rs.len() > 0 && aligned(rs)
    }

    pub fn new() -> (r: MSA)
        ensures
            r@ is None,
            r.wf(),
    {
        MSA { sequences: None }
    }

    /// Loads the entries that the reader made of a text. On failure the
    /// alignment is left as it was.
    pub fn set_entries(&mut self, entries: Vec<Entry>) -> (r: Result<(), ParseError>)
        requires
            old(self).wf(),
        ensures
            final(self).wf(),
            match assembled(entries@.map_values(|e: Entry| e@)) {
                Ok(rs) => r is Ok && final(self)@ == Some(rs),
                Err(e) => r matches Err(x) && x@ == e && final(self)@ == old(self)@,
            },
    {
        let ghost es = entries@.map_values(|e: Entry| e@);
        let mut records: Vec<Sequence> = Vec::new();
        let mut i: usize = 0;
        while i < entries.len()
            invariant
                i <= entries.len(),
                self@ == old(self)@,
                self.wf(),
                es == entries@.map_values(|e: Entry| e@),
                forall|j: int| 0 <= j < i ==> !(#[trigger] es[j] is Unreadable),
                records@.map_values(|s: Sequence| s@) == kept(es.subrange(0, i as int)),
            decreases entries.len() - i,
        {
            proof {
                assert(es.subrange(0, i + 1).drop_last() =~= es.subrange(0, i as int));
            }
            match &entries[i] {
                Entry::Unreadable => {
                    proof {
                        assert(es[i as int] is Unreadable);
                    }
                    return Err(ParseError::InvalidFormat);
                },
                Entry::Unnamed => {},
                Entry::Named { id, desc, sequence } => {
                    let mut header = id.clone();
                    if let Some(d) = desc {
                        header.append(d.as_str());
                    }
                    records.push(Sequence { index: i + 1, header, sequence: sequence.clone() });
                },
            }
            i = i + 1;
            proof {
                assert(records@.map_values(|s: Sequence| s@) =~= kept(es.subrange(0, i as int)));
            }
        }
        proof {
            assert(es.subrange(0, entries.len() as int) =~= es);
        }
        let ghost rs = records@.map_values(|s: Sequence| s@);
        if records.len() == 0 {
            return Err(ParseError::Empty);
        }
        let w = records[0].sequence.as_str().as_bytes().len();
        let mut k: usize = 0;
        while k < records.len()
            invariant
                k <= records.len(),
                self@ == old(self)@,
                self.wf(),
                !has_unreadable(es),
                es == entries@.map_values(|e: Entry| e@),
                kept(es) == rs,
                rs == records@.map_values(|s: Sequence| s@),
                rs.len() > 0,
                w == width(rs[0].sequence),
                first_mismatch(rs, w as nat, 0) == first_mismatch(rs, w as nat, k as int),
                forall|j: int| 0 <= j < k ==> width(#[trigger] rs[j].sequence) == w,
            decreases records.len() - k,
        {
            proof {
                assert(rs[k as int] == records@[k as int]@);
            }
            if records[k].sequence.as_str().as_bytes().len() != w {
                proof {
                    assert(first_mismatch(rs, w as nat, k as int) == Some(rs[k as int].header));
                }
                let h = records[k].header.clone();
                proof {
                    assert(first_mismatch(rs, w as nat, 0) == Some(h@));
                }
                return Err(ParseError::LengthMismatch(h));
            }
            k = k + 1;
        }
        self.sequences = Some(records);
        proof {
            assert(self@ == Some(rs));
        }
        Ok(())
    }

    /// The number of records of the loaded alignment.
    pub fn get_seq_count(&self) -> (r: Result<usize, NoDataError>)
        ensures
            match self@ {
                Some(rs) => r == Ok::<usize, NoDataError>(rs.len() as usize),
                None => r is Err,
            },
    {
        match &self.sequences {
            Some(v) => Ok(v.len()),
            None => Err(NoDataError),
        }
    }

    /// The records of the loaded alignment whose header, split on `|`, does
    /// not give `item_count` parts, in order.
    pub fn check_headers(&self, item_count: usize) -> (r: Result<Vec<ProblemHeader>, NoDataError>)
        ensures
            match self@ {
                Some(rs) => r matches Ok(v) && v@.map_values(|p: ProblemHeader| p@) == problems(
                    rs,
                    item_count as nat,
                ),
                None => r is Err,
            },
    {
        let records = match &self.sequences {
            Some(v) => v,
            None => {
                return Err(NoDataError);
            },
        };
        let ghost rs = records@.map_values(|s: Sequence| s@);
        let mut out: Vec<ProblemHeader> = Vec::new();
        let mut i: usize = 0;
        while i < records.len()
            invariant
                i <= records.len(),
                rs == records@.map_values(|s: Sequence| s@),
                out@.map_values(|p: ProblemHeader| p@) == problems(
                    rs.subrange(0, i as int),
                    item_count as nat,
                ),
            decreases records.len() - i,
        {
            let rec = &records[i];
            proof {
                assert(rs.subrange(0, i + 1).drop_last() =~= rs.subrange(0, i as int));
                assert(rs[i as int] == rec@);
            }
            if !has_field_count(rec.header.as_str(), item_count) {
                out.push(ProblemHeader { index: rec.index, header: rec.header.clone() });
            }
            i = i + 1;
            proof {
                assert(out@.map_values(|p: ProblemHeader| p@) =~= problems(
                    rs.subrange(0, i as int),
                    item_count as nat,
                ));
            }
        }
        proof {
            assert(rs.subrange(0, records.len() as int) =~= rs);
        }
        Ok(out)
    }

    /// The loaded alignment written as FASTA, one line per sequence.
    pub fn get_seqs(&self) -> (r: Result<String, NoDataError>)
        ensures
            match self@ {
                Some(rs) => r matches Ok(t) && t@ == fasta_text(rs),
                None => r is Err,
            },
    {
        let records = match &self.sequences {
            Some(v) => v,
            None => {
                return Err(NoDataError);
            },
        };
        let ghost rs = records@.map_values(|s: Sequence| s@);
        let mut out = String::new();
        let mut i: usize = 0;
        proof {
            reveal_strlit(">");
            reveal_strlit("\n");
        }
        while i < records.len()
            invariant
                i <= records.len(),
                rs == records@.map_values(|s: Sequence| s@),
                out@ == fasta_text(rs.subrange(0, i as int)),
                ">"@ == seq!['>'],
                "\n"@ == seq!['\n'],
            decreases records.len() - i,
        {
            let rec = &records[i];
            proof {
                assert(rs.subrange(0, i + 1).drop_last() =~= rs.subrange(0, i as int));
                assert(rs[i as int] == rec@);
            }
            if i > 0 {
                out.append("\n");
            }
            out.append(">");
            out.append(rec.header.as_str());
            out.append("\n");
            out.append(rec.sequence.as_str());
            i = i + 1;
            proof {
                assert(out@ =~= fasta_text(rs.subrange(0, i as int)));
            }
        }
        proof {
            assert(rs.subrange(0, records.len() as int) =~= rs);
        }
        Ok(out)
    }

    /// Reads `sequences` as FASTA and loads the records as the alignment.
    /// On failure the alignment is left as it was.
    pub fn set_seqs(&mut self, sequences: String) -> (r: Result<(), ParseError>)
        requires
            old(self).wf(),
        ensures
            final(self).wf(),
            match assembled(entries_of(encode_utf8(sequences@))) {
                Ok(rs) => r is Ok && final(self)@ == Some(rs),
                Err(e) => r matches Err(x) && x@ == e && final(self)@ == old(self)@,
            },
    {
        let reads = read_records(sequences.as_str().as_bytes());
        let ghost text = encode_utf8(sequences@);
        let mut entries: Vec<Entry> = Vec::new();
        let mut i: usize = 0;
        while i < reads.len()
            invariant
                i <= reads.len(),
                reads.len() == fasta_reads(text).len(),
                forall|j: int| 0 <= j < reads.len() ==> #[trigger] read_view(reads[j]) == fasta_reads(text)[j],
                entries@.map_values(|e: Entry| e@) == entries_of(text).subrange(0, i as int),
            decreases reads.len() - i,
        {
            let entry = match &reads[i] {
                None => Entry::Unreadable,
                Some(rec) => match id_desc(&rec.head) {
                    None => Entry::Unnamed,
                    Some((id, desc)) => Entry::Named { id, desc, sequence: lossy(&rec.seq) },
                },
            };
            proof {
                assert(read_view(reads[i as int]) == fasta_reads(text)[i as int]);
                assert(entry@ == entries_of(text)[i as int]);
            }
            let ghost before = entries@;
            let ghost ev = entry@;
            entries.push(entry);
            proof {
                assert(entries@.map_values(|e: Entry| e@) =~= before.map_values(|e: Entry| e@).push(ev));
            }
            i = i + 1;
            proof {
                assert(entries@.map_values(|e: Entry| e@) =~= entries_of(text).subrange(0, i as int));
            }
        }
        proof {
            assert(entries_of(text).subrange(0, i as int) =~= entries_of(text));
        }
        self.set_entries(entries)
    }
}

} // verus!
