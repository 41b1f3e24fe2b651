//! Laws that relate the alignment's operations.

use vstd::prelude::*;
use vstd::utf8::{decode_utf8, encode_utf8, encode_utf8_decode_utf8, encode_utf8_valid_utf8};
use crate::fasta::{fasta_reads, split_at_space};
use crate::msa::{
    aligned, assembled, entries_of, entry_of, fasta_block, fasta_text, field_count, first_mismatch,
    joined_header, kept, problems, width, EntryView, ProblemView, RecordView,
};

verus! {

proof fn lemma_kept_all_named(es: Seq<EntryView>)
    requires
        forall|i: int| 0 <= i < es.len() ==> #[trigger] es[i] is Named,
    ensures
        kept(es).len() == es.len(),
        forall|i: int|
            0 <= i < es.len() ==> (#[trigger] es[i] matches EntryView::Named(id, d, sq) ==> kept(es)[i]
                == (RecordView { index: i + 1, header: joined_header(id, d), sequence: sq })),
    decreases es.len(),
{
    if es.len() > 0 {
        let prev = es.drop_last();
        assert forall|i: int| 0 <= i < prev.len() implies #[trigger] prev[i] is Named by {
            assert(prev[i] == es[i]);
        }
        lemma_kept_all_named(prev);
        assert(es.last() is Named);
        assert forall|i: int|
            0 <= i < es.len() implies (#[trigger] es[i] matches EntryView::Named(id, d, sq) ==> kept(es)[i]
                == (RecordView { index: i + 1, header: joined_header(id, d), sequence: sq })) by {
            if i < prev.len() {
                assert(prev[i] == es[i]);
            }
        }
    }
}

/// When every record that the reader yields has a readable header and the
/// records load as an alignment, the alignment holds one record for each.
pub proof fn law_count_after_load(es: Seq<EntryView>)
    requires
        forall|i: int| 0 <= i < es.len() ==> #[trigger] es[i] is Named,
        assembled(es) is Ok,
    ensures
        assembled(es)->Ok_0.len() == es.len(),
{
    lemma_kept_all_named(es);
}

/// The header check reports exactly the records whose header does not split
/// on `|` into `k` parts, and nothing when every header does.
pub proof fn law_check_headers_exact(rs: Seq<RecordView>, k: nat)
    ensures
        forall|p: ProblemView|
            problems(rs, k).contains(p) <==> exists|i: int|
                0 <= i < rs.len() && field_count(#[trigger] rs[i].header) != k && p == (
                ProblemView { index: rs[i].index, header: rs[i].header }),
        problems(rs, k).len() == 0 <==> forall|i: int|
            0 <= i < rs.len() ==> field_count(#[trigger] rs[i].header) == k,
    decreases rs.len(),
{
    if rs.len() > 0 {
        let prev = rs.drop_last();
        law_check_headers_exact(prev, k);
        let r = rs.last();
        let ps = problems(rs, k);
        let pp = problems(prev, k);
        assert forall|p: ProblemView|
            ps.contains(p) <==> exists|i: int|
                0 <= i < rs.len() && field_count(#[trigger] rs[i].header) != k && p == (
                ProblemView { index: rs[i].index, header: rs[i].header }) by {
            if ps.contains(p) {
                if pp.contains(p) {
                    let i = choose|i: int|
                        0 <= i < prev.len() && field_count(#[trigger] prev[i].header) != k && p == (
                        ProblemView { index: prev[i].index, header: prev[i].header });
                    assert(rs[i] == prev[i]);
                } else {
                    let j = choose|j: int| 0 <= j < ps.len() && ps[j] == p;
                    assert(j == pp.len());
                    assert(rs[rs.len() - 1] == r);
                }
            }
            if exists|i: int|
                0 <= i < rs.len() && field_count(#[trigger] rs[i].header) != k && p == (
                ProblemView { index: rs[i].index, header: rs[i].header }) {
                let i = choose|i: int|
                    0 <= i < rs.len() && field_count(#[trigger] rs[i].header) != k && p == (
                    ProblemView { index: rs[i].index, header: rs[i].header });
                if i < prev.len() {
                    assert(prev[i] == rs[i]);
                    assert(pp.contains(p));
                    let j = choose|j: int| 0 <= j < pp.len() && pp[j] == p;
                    assert(ps[j] == p);
                } else {
                    assert(ps[pp.len() as int] == p);
                }
            }
        }
        if ps.len() == 0 {
            assert(field_count(r.header) == k);
            assert forall|i: int| 0 <= i < rs.len() implies field_count(#[trigger] rs[i].header) == k by {
                if i < prev.len() {
                    assert(prev[i] == rs[i]);
                }
            }
        }
        if forall|i: int| 0 <= i < rs.len() ==> field_count(#[trigger] rs[i].header) == k {
            assert(field_count(rs[rs.len() - 1].header) == k);
            assert forall|i: int| 0 <= i < prev.len() implies field_count(#[trigger] prev[i].header) == k by {
                assert(prev[i] == rs[i]);
            }
        }
    }
}

proof fn lemma_split_without_space(h: Seq<char>)
    requires
        !h.contains(' '),
    ensures
        split_at_space(h) == (h, None::<Seq<char>>),
    decreases h.len(),
{
    if h.len() > 0 {
        assert(h[0] != ' ');
        let t = h.drop_first();
        assert(!t.contains(' ')) by {
            if t.contains(' ') {
                let j = choose|j: int| 0 <= j < t.len() && t[j] == ' ';
                assert(h[j + 1] == ' ');
            }
        }
        lemma_split_without_space(t);
        assert(seq![h[0]] + t =~= h);
    }
}

proof fn lemma_no_mismatch(rs: Seq<RecordView>, w: nat, i: int)
    requires
        0 <= i,
        forall|j: int| 0 <= j < rs.len() ==> width(#[trigger] rs[j].sequence) == w,
    ensures
        first_mismatch(rs, w, i) is None,
    decreases rs.len() - i,
{
    if i < rs.len() {
        lemma_no_mismatch(rs, w, i + 1);
    }
}

proof fn lemma_same_text(a: Seq<RecordView>, b: Seq<RecordView>)
    requires
        a.len() == b.len(),
        forall|i: int|
            0 <= i < a.len() ==> (#[trigger] a[i]).header == b[i].header && a[i].sequence
                == b[i].sequence,
    ensures
        fasta_text(a) == fasta_text(b),
    decreases a.len(),
{
    if a.len() > 1 {
        let (pa, pb) = (a.drop_last(), b.drop_last());
        assert forall|i: int| 0 <= i < pa.len() implies (#[trigger] pa[i]).header == pb[i].header
            && pa[i].sequence == pb[i].sequence by {
            assert(pa[i] == a[i] && pb[i] == b[i]);
        }
        lemma_same_text(pa, pb);
        assert(fasta_block(a.last()) == fasta_block(b.last()));
    } else if a.len() == 1 {
        assert(fasta_block(a[0]) == fasta_block(b[0]));
    }
}

/// What a FASTA reader that reads single-line records back faithfully hands
/// out for the text written from `rs`: each header and sequence, encoded.
pub open spec fn faithful_reads(rs: Seq<RecordView>) -> Seq<Option<(Seq<u8>, Seq<u8>)>> {
    rs.map_values(|r: RecordView| Some((encode_utf8(r.header), encode_utf8(r.sequence))))
}

/// Loading the text that the alignment is written as gives back the same
/// headers and sequences, and so the same text, provided the reader hands
/// each written record back as it was written and no header holds a space
/// (the reader would take the space as the start of a description, and the
/// joined header would lose it).
pub proof fn law_written_text_reloads(rs: Seq<RecordView>)
    requires
        rs.len() > 0,
        aligned(rs),
        forall|i: int| 0 <= i < rs.len() ==> !(#[trigger] rs[i]).header.contains(' '),
        fasta_reads(encode_utf8(fasta_text(rs))) == faithful_reads(rs),
    ensures
        assembled(entries_of(encode_utf8(fasta_text(rs)))) matches Ok(back) && back.len() == rs.len()
            && (forall|i: int|
            0 <= i < rs.len() ==> (#[trigger] back[i]).header == rs[i].header && back[i].sequence
                == rs[i].sequence) && fasta_text(back) == fasta_text(rs),
{
    broadcast use encode_utf8_decode_utf8, encode_utf8_valid_utf8;

    let es = entries_of(encode_utf8(fasta_text(rs)));
    assert forall|i: int| 0 <= i < es.len() implies #[trigger] es[i] == EntryView::Named(
        rs[i].header,
        None,
        rs[i].sequence,
    ) by {
        lemma_split_without_space(rs[i].header);
        assert(es.len() == rs.len());
        assert(faithful_reads(rs)[i] == Some((encode_utf8(rs[i].header), encode_utf8(rs[i].sequence))));
        assert(es[i] == entry_of(faithful_reads(rs)[i]));
    }
    lemma_kept_all_named(es);
    let back = kept(es);
    assert(!(exists|i: int| 0 <= i < es.len() && es[i] is Unreadable));
    assert forall|i: int|
        0 <= i < rs.len() implies (#[trigger] back[i]).header == rs[i].header && back[i].sequence
        == rs[i].sequence by {
        assert(es[i] == EntryView::Named(rs[i].header, None, rs[i].sequence));
    }
    let w = width(back[0].sequence);
    assert forall|j: int| 0 <= j < back.len() implies width(#[trigger] back[j].sequence) == w by {
        assert(back[j].sequence == rs[j].sequence);
        assert(back[0].sequence == rs[0].sequence);
        assert(width(rs[j].sequence) == width(rs[0].sequence));
    }
    lemma_no_mismatch(back, w, 0);
    lemma_same_text(back, rs);
}

} // verus!
