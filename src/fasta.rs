//! The FASTA record reader of `seq_io`, and the text decodings applied to
//! what it hands out.

use vstd::prelude::*;
use vstd::utf8::{decode_utf8, valid_utf8};

verus! {

/// One record as the reader hands it out: the header line without its `>`
/// and the sequence with its line breaks removed.
pub struct FastaRead {
    pub head: Vec<u8>,
    pub seq: Vec<u8>,
}

impl View for FastaRead {
    type V = (Seq<u8>, Seq<u8>);

    open spec fn view(&self) -> (Seq<u8>, Seq<u8>) {
        (self.head@, self.seq@)
    }
}

/// The records that `seq_io`'s FASTA reader yields for `text`, in order;
/// `None` stands for a read that failed. The reader stops after a failure.
pub uninterp spec fn fasta_reads(text: Seq<u8>) -> Seq<Option<(Seq<u8>, Seq<u8>)>>;

/// The text that `String::from_utf8_lossy` makes of `bytes`.
pub uninterp spec fn lossy_utf8(bytes: Seq<u8>) -> Seq<char>;

/// A header split at its first space: the identifier before it and, when
/// there is a space, the description after it.
pub open spec fn split_at_space(t: Seq<char>) -> (Seq<char>, Option<Seq<char>>)
    decreases t.len(),
{
    if t.len() == 0 {
        (Seq::empty(), None)
    } else if t[0] == ' ' {
        (Seq::empty(), Some(t.drop_first()))
    } else {
        let rest = split_at_space(t.drop_first());
        (seq![t[0]] + rest.0, rest.1)
    }
}

pub open spec fn read_view(r: Option<FastaRead>) -> Option<(Seq<u8>, Seq<u8>)> {
    match r {
        Some(x) => Some(x@),
        None => None,
    }
}

pub open spec fn opt_text(d: Option<String>) -> Option<Seq<char>> {
    match d {
        Some(s) => Some(s@),
        None => None,
    }
}

/// Relies on `seq_io::fasta::Reader::into_records`: reads every record of
/// `text` and hands each out owned. A slice never fails to read, and after
/// a parse error the reader reports the end, so the collection terminates.
#[verifier::external_body]
pub(crate) fn read_records(text: &[u8]) -> (r: Vec<Option<FastaRead>>)
    ensures
        r.len() == fasta_reads(text@).len(),
        forall|i: int| 0 <= i < r.len() ==> #[trigger] read_view(r[i]) == fasta_reads(text@)[i],
{
    seq_io::fasta::Reader::new(text)
        .into_records()
        .map(|res| res.ok().map(|rec| FastaRead { head: rec.head, seq: rec.seq }))
        .collect()
}

/// Relies on `seq_io::fasta::Record::id_desc`: decodes the header line as
/// UTF-8, failing where it is not valid, and splits it at its first space.
#[verifier::external_body]
pub(crate) fn id_desc(head: &Vec<u8>) -> (r: Option<(String, Option<String>)>)
    ensures
        r is Some <==> valid_utf8(head@),
        r matches Some((id, d)) ==> split_at_space(decode_utf8(head@)) == (id@, opt_text(d)),
{
    let rec = seq_io::fasta::OwnedRecord { head: head.clone(), seq: Vec::new() };
    match seq_io::fasta::Record::id_desc(&rec) {
        Ok((id, d)) => Some((id.to_string(), d.map(|s| s.to_string()))),
        Err(_) => None,
    }
}

/// Relies on `String::from_utf8_lossy`: decodes `bytes`, replacing each
/// invalid sequence; it never fails, and valid UTF-8 comes out unchanged.
#[verifier::external_body]
pub(crate) fn lossy(bytes: &Vec<u8>) -> (r: String)
    ensures
        r@ == lossy_utf8(bytes@),
        valid_utf8(bytes@) ==> r@ == decode_utf8(bytes@),
{
    String::from_utf8_lossy(bytes).into_owned()
}

} // verus!
