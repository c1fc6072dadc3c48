//! Specific pieces of information found in FASTA files: single entries,
//! accession lists and sequence-length maps.

use vstd::prelude::*;

use crate::errors::{ErrorKind, ParseError};
use crate::helpers::{
    kv_find, kv_has_key, kv_map, kv_unique, kv_views, lemma_kv_map_push, lemma_kv_unique_push,
    lemma_kv_update, push_all, seq_id_from_description, seq_id_of, strip_lead, sub_bytes, views,
};
use crate::json::{
    lemma_ser_entries_snoc, lemma_ser_strings_snoc, push_decimal, push_escaped, ser_entries,
    ser_strings, COLON, COMMA, LBRACE, LBRACKET, QUOTE, RBRACE, RBRACKET,
};
use crate::read::{
    content_lines, decode_all, first_desc_from, is_desc, is_description, records_of,
    split_content_lines, FastaHandle, NEWLINE,
};

verus! {

/// A single FASTA entry with description and sequence fields.
///
/// The streaming decoder yields entries whose description is the full
/// description line, marker included; random-access retrieval strips the
/// marker. The sequence is the record's data lines joined without breaks.
#[derive(Debug, Eq, PartialEq)]
pub struct FastaEntry {
    pub description: Vec<u8>,
    pub sequence: Vec<u8>,
}

impl View for FastaEntry {
    type V = (Seq<u8>, Seq<u8>);

    open spec fn view(&self) -> (Seq<u8>, Seq<u8>) {
        (self.description@, self.sequence@)
    }
}

/// The views of a sequence of entries, element by element.
pub open spec fn entry_views(v: Seq<FastaEntry>) -> Seq<(Seq<u8>, Seq<u8>)> {
    Seq::new(v.len(), |i: int| v[i]@)
}

/// Where the record that begins before line `j` ends: the first line at
/// or after `j` that is blank or opens the next record, or the end of
/// input.
pub open spec fn record_end(ls: Seq<Seq<u8>>, j: int) -> int
    decreases ls.len() - j,
{
    if !(0 <= j < ls.len()) {
        j
    } else if ls[j].len() == 0 || is_desc(ls[j]) {
        j
    } else {
        record_end(ls, j + 1)
    }
}

/// `record_end` stops within bounds, right after the sequence lines.
pub proof fn lemma_record_end(ls: Seq<Seq<u8>>, j: int)
    requires
        0 <= j <= ls.len(),
    ensures
        j <= record_end(ls, j) <= ls.len(),
        forall|t: int|
            j <= t < record_end(ls, j) ==> #[trigger] ls[t].len() != 0 && !is_desc(ls[t]),
        record_end(ls, j) < ls.len() ==> (ls[record_end(ls, j)].len() == 0 || is_desc(
            ls[record_end(ls, j)],
        )),
    decreases ls.len() - j,
{
    if j < ls.len() && !(ls[j].len() == 0 || is_desc(ls[j])) {
        lemma_record_end(ls, j + 1);
    }
}

/// The line contents of `[from, to)` joined without breaks.
pub open spec fn concat_lines(ls: Seq<Seq<u8>>, from: int, to: int) -> Seq<u8>
    decreases to - from,
{
    if from >= to {
        seq![]
    } else {
        ls[from] + concat_lines(ls, from + 1, to)
    }
}

/// Joining one more line appends it.
pub proof fn lemma_concat_lines_snoc(ls: Seq<Seq<u8>>, from: int, to: int)
    requires
        from <= to,
    ensures
        concat_lines(ls, from, to + 1) == concat_lines(ls, from, to) + ls[to],
    decreases to - from,
{
    if from == to {
        assert(concat_lines(ls, from, to) =~= Seq::<u8>::empty());
        assert(concat_lines(ls, to + 1, to + 1) =~= Seq::<u8>::empty());
        assert(concat_lines(ls, from, to + 1) =~= concat_lines(ls, from, to) + ls[to]);
    } else {
        lemma_concat_lines_snoc(ls, from + 1, to);
        assert(concat_lines(ls, from, to + 1) =~= concat_lines(ls, from, to) + ls[to]);
    }
}

/// The record read by seeking to byte `off` of `data`: the first line
/// there must open a record; its description (marker stripped) and the
/// sequence lines up to the next blank line, description line or end of
/// input. `None` when no description line stands at `off`.
pub open spec fn record_at(data: Seq<u8>, off: int) -> Option<(Seq<u8>, Seq<u8>)> {
    if !(0 <= off <= data.len()) {
        None
    } else {
        let ls = content_lines(data.skip(off));
        if ls.len() > 0 && is_desc(ls[0]) {
            Some((strip_lead(ls[0]), concat_lines(ls, 1, record_end(ls, 1))))
        } else {
            None
        }
    }
}

/// The index of the first record at or after `i` whose description line
/// the extraction convention cannot split, if any.
pub open spec fn first_bad_from(
    rs: Seq<(Seq<u8>, Seq<u8>)>,
    sep: Seq<u8>,
    id_index: int,
    i: int,
) -> Option<int>
    decreases rs.len() - i,
{
    if !(0 <= i < rs.len()) {
        None
    } else if seq_id_of(rs[i].0, sep, id_index) is None {
        Some(i)
    } else {
        first_bad_from(rs, sep, id_index, i + 1)
    }
}

/// The accession of each record, in order; meaningful when every
/// description splits.
pub open spec fn ids_of(rs: Seq<(Seq<u8>, Seq<u8>)>, sep: Seq<u8>, id_index: int) -> Seq<Seq<u8>> {
    Seq::new(rs.len(), |i: int| seq_id_of(rs[i].0, sep, id_index)->Some_0)
}

/// The mapping from each record's accession to its sequence length,
/// later records winning; meaningful when every description splits.
pub open spec fn lengths_map(rs: Seq<(Seq<u8>, Seq<u8>)>, sep: Seq<u8>, id_index: int) -> Map<
    Seq<u8>,
    nat,
>
    decreases rs.len(),
{
    if rs.len() == 0 {
        Map::empty()
    } else {
        lengths_map(rs.drop_last(), sep, id_index).insert(
            seq_id_of(rs.last().0, sep, id_index)->Some_0,
            rs.last().1.len(),
        )
    }
}

/// The views of length pairs, element by element.
pub open spec fn len_entries(v: Seq<(Vec<u8>, usize)>) -> Seq<(Seq<u8>, nat)> {
    Seq::new(v.len(), |i: int| (v[i].0@, v[i].1 as nat))
}

/// Each accession on a line of its own.
pub open spec fn tsv_bytes(xs: Seq<Seq<u8>>) -> Seq<u8>
    decreases xs.len(),
{
    if xs.len() == 0 {
        seq![]
    } else {
        tsv_bytes(xs.drop_last()) + xs.last() + seq![NEWLINE]
    }
}

/// A convenience struct holding the accessions of a FASTA source, in
/// record order, duplicates kept.
#[derive(Debug, Eq, PartialEq)]
pub struct FastaAccessions {
    pub accessions: Vec<Vec<u8>>,
}

impl FastaAccessions {
    /// Decodes the source and extracts each record's accession, in
    /// order. Fails with `MalformedInput` if and only if the source holds
    /// no description line, and with `FieldIndexOutOfRange` on the first
    /// description the convention cannot split.
    pub fn from_fasta(handle: &FastaHandle, separator: &Vec<u8>, id_index: usize) -> (r: Result<
        FastaAccessions,
        ParseError,
    >)
        ensures
            ({
                let lines = content_lines(handle.bytes());
                let rs = records_of(lines);
                if first_desc_from(lines, 0) is None {
                    r matches Err(e) && e.kind == ErrorKind::MalformedInput
                } else {
                    match first_bad_from(rs, separator@, id_index as int, 0) {
                        Some(i) => r matches Err(e) && e.kind == ErrorKind::FieldIndexOutOfRange
                            && e.message@ == rs[i].0,
                        None => r matches Ok(a) && views(a.accessions@) == ids_of(
                            rs,
                            separator@,
                            id_index as int,
                        ),
                    }
                }
            }),
    {
        let records = match decode_all(handle) {
            Ok(records) => records,
            Err(e) => {
                return Err(e);
            },
        };
        let ghost rs = records_of(content_lines(handle.bytes()));
        let n = records.len();
        let mut accessions: Vec<Vec<u8>> = Vec::new();
        let mut i: usize = 0;
        while i < n
            invariant
                n == records@.len() == rs.len(),
                entry_views(records@) == rs,
                rs == records_of(content_lines(handle.bytes())),
                first_desc_from(content_lines(handle.bytes()), 0) is Some,
                0 <= i <= n,
                first_bad_from(rs, separator@, id_index as int, 0) == first_bad_from(
                    rs,
                    separator@,
                    id_index as int,
                    i as int,
                ),
                views(accessions@).len() == i,
                forall|j: int|
                    0 <= j < i ==> seq_id_of(rs[j].0, separator@, id_index as int) is Some && views(
                        accessions@,
                    )[j] == seq_id_of(#[trigger] rs[j].0, separator@, id_index as int)->Some_0,
            decreases n - i,
        {
            let rec = &records[i];
            assert(rec@ == entry_views(records@)[i as int]);
            match seq_id_from_description(&rec.description, separator, id_index) {
                Ok(id) => {
                    accessions.push(id);
                },
                Err(e) => {
                    return Err(e);
                },
            }
            i = i + 1;
        }
        assert(views(accessions@) =~= ids_of(rs, separator@, id_index as int));
        Ok(FastaAccessions { accessions })
    }

    /// The accessions as a JSON array of strings.
    pub fn to_json(&self) -> (out: Vec<u8>)
        ensures
            out@ == seq![LBRACKET] + ser_strings(views(self.accessions@)) + seq![RBRACKET],
    {
        let ghost xs = views(self.accessions@);
        let n = self.accessions.len();
        let mut out: Vec<u8> = Vec::new();
        out.push(LBRACKET);
        let mut i: usize = 0;
        proof {
            assert(out@ =~= seq![LBRACKET] + ser_strings(xs.take(0)));
        }
        while i < n
            invariant
                n == self.accessions@.len(),
                xs == views(self.accessions@),
                0 <= i <= n,
                out@ == seq![LBRACKET] + ser_strings(xs.take(i as int)),
            decreases n - i,
        {
            proof {
                assert(xs.take(i + 1 as int) =~= xs.take(i as int).push(xs[i as int]));
            }
            if i > 0 {
                out.push(COMMA);
                proof {
                    lemma_ser_strings_snoc(xs.take(i as int), xs[i as int]);
                }
            } else {
                assert(xs.take(1) =~= seq![xs[0]]);
            }
            out.push(QUOTE);
            push_escaped(&mut out, &self.accessions[i]);
            out.push(QUOTE);
            proof {
                assert(out@ =~= seq![LBRACKET] + ser_strings(xs.take(i + 1 as int)));
            }
            i = i + 1;
        }
        out.push(RBRACKET);
        proof {
            assert(xs.take(n as int) =~= xs);
            assert(out@ =~= seq![LBRACKET] + ser_strings(xs) + seq![RBRACKET]);
        }
        out
    }

    /// The accessions as text, one per line.
    pub fn to_tsv(&self) -> (out: Vec<u8>)
        ensures
            out@ == tsv_bytes(views(self.accessions@)),
    {
        let ghost xs = views(self.accessions@);
        let n = self.accessions.len();
        let mut out: Vec<u8> = Vec::new();
        let mut i: usize = 0;
        proof {
            assert(out@ =~= tsv_bytes(xs.take(0)));
        }
        while i < n
            invariant
                n == self.accessions@.len(),
                xs == views(self.accessions@),
                0 <= i <= n,
                out@ == tsv_bytes(xs.take(i as int)),
            decreases n - i,
        {
            proof {
                assert(xs.take(i + 1 as int).drop_last() =~= xs.take(i as int));
                assert(xs.take(i + 1 as int).last() == xs[i as int]);
            }
            push_all(&mut out, &self.accessions[i]);
            out.push(NEWLINE);
            assert(out@ =~= tsv_bytes(xs.take(i + 1 as int)));
            i = i + 1;
        }
        assert(xs.take(n as int) =~= xs);
        out
    }
}

/// A struct that wraps an accession -> sequence length association.
#[derive(Debug, Eq, PartialEq)]
pub struct FastaLengths {
    pub sequence_lengths: Vec<(Vec<u8>, usize)>,
}

impl View for FastaLengths {
    type V = Map<Seq<u8>, nat>;

    open spec fn view(&self) -> Map<Seq<u8>, nat> {
        kv_map(len_entries(self.sequence_lengths@))
    }
}

/// Inserts `k -> v` into the length pairs, replacing the value of an
/// existing pair with the same key.
fn len_set(es: &mut Vec<(Vec<u8>, usize)>, k: Vec<u8>, v: usize)
    requires
        kv_unique(len_entries(old(es)@)),
    ensures
        kv_unique(len_entries(final(es)@)),
        kv_map(len_entries(final(es)@)) == kv_map(len_entries(old(es)@)).insert(k@, v as nat),
{
    match kv_find(es, &k) {
        Some(i) => {
            proof {
                assert(len_entries(es@)[i as int].0 == k@);
                lemma_kv_update(len_entries(es@), i as int, k@, v as nat);
            }
            es.set(i, (k, v));
            assert(len_entries(es@) =~= len_entries(old(es)@).update(
                i as int,
                (len_entries(es@)[i as int].0, len_entries(es@)[i as int].1),
            ));
        },
        None => {
            proof {
                assert(!kv_has_key(len_entries(es@), k@)) by {
                    if kv_has_key(len_entries(es@), k@) {
                        let i = choose|i: int|
                            0 <= i < len_entries(es@).len() && len_entries(es@)[i].0 == k@;
                        assert(kv_views(es@)[i].0 == k@);
                    }
                }
                lemma_kv_unique_push(len_entries(es@), k@, v as nat);
                lemma_kv_map_push(len_entries(es@), k@, v as nat);
            }
            es.push((k, v));
            assert(len_entries(es@) =~= len_entries(old(es)@).push(
                (len_entries(es@).last().0, len_entries(es@).last().1),
            ));
        },
    }
}

impl FastaLengths {
    /// Decodes the source into a mapping from each record's accession to
    /// its sequence length in bytes, a later record overwriting an
    /// earlier one with the same accession. Fails with `MalformedInput`
    /// if and only if the source holds no description line, and with
    /// `FieldIndexOutOfRange` on the first description the convention
    /// cannot split.
    pub fn from_fasta(handle: &FastaHandle, separator: &Vec<u8>, id_index: usize) -> (r: Result<
        FastaLengths,
        ParseError,
    >)
        ensures
            ({
                let lines = content_lines(handle.bytes());
                let rs = records_of(lines);
                if first_desc_from(lines, 0) is None {
                    r matches Err(e) && e.kind == ErrorKind::MalformedInput
                } else {
                    match first_bad_from(rs, separator@, id_index as int, 0) {
                        Some(i) => r matches Err(e) && e.kind == ErrorKind::FieldIndexOutOfRange
                            && e.message@ == rs[i].0,
                        None => r matches Ok(l) && l@ == lengths_map(
                            rs,
                            separator@,
                            id_index as int,
                        ) && kv_unique(len_entries(l.sequence_lengths@)),
                    }
                }
            }),
    {
        let records = match decode_all(handle) {
            Ok(records) => records,
            Err(e) => {
                return Err(e);
            },
        };
        let ghost rs = records_of(content_lines(handle.bytes()));
        let n = records.len();
        let mut entries: Vec<(Vec<u8>, usize)> = Vec::new();
        let mut i: usize = 0;
        proof {
            assert(len_entries(entries@) =~= Seq::<(Seq<u8>, nat)>::empty());
            assert(kv_map(len_entries(entries@)) =~= lengths_map(
                rs.take(0),
                separator@,
                id_index as int,
            ));
        }
        while i < n
            invariant
                n == records@.len() == rs.len(),
                entry_views(records@) == rs,
                rs == records_of(content_lines(handle.bytes())),
                first_desc_from(content_lines(handle.bytes()), 0) is Some,
                0 <= i <= n,
                first_bad_from(rs, separator@, id_index as int, 0) == first_bad_from(
                    rs,
                    separator@,
                    id_index as int,
                    i as int,
                ),
                forall|j: int|
                    0 <= j < i ==> seq_id_of(#[trigger] rs[j].0, separator@, id_index as int)
                        is Some,
                kv_unique(len_entries(entries@)),
                kv_map(len_entries(entries@)) == lengths_map(
                    rs.take(i as int),
                    separator@,
                    id_index as int,
                ),
            decreases n - i,
        {
            let rec = &records[i];
            assert(rec@ == entry_views(records@)[i as int]);
            let id = match seq_id_from_description(&rec.description, separator, id_index) {
                Ok(id) => id,
                Err(e) => {
                    return Err(e);
                },
            };
            let len = rec.sequence.len();
            proof {
                assert(rs.take(i + 1 as int).drop_last() =~= rs.take(i as int));
                assert(rs.take(i + 1 as int).last() == rs[i as int]);
            }
            len_set(&mut entries, id, len);
            i = i + 1;
        }
        assert(rs.take(n as int) =~= rs);
        Ok(FastaLengths { sequence_lengths: entries })
    }

    /// The mapping as a JSON object from accession to length.
    pub fn to_json(&self) -> (out: Vec<u8>)
        ensures
            out@ == seq![LBRACE] + ser_entries(
                Seq::new(
                    self.sequence_lengths@.len(),
                    |i: int| (self.sequence_lengths@[i].0@, self.sequence_lengths@[i].1 as u64),
                ),
            ) + seq![RBRACE],
    {
        let ghost es = Seq::new(
            self.sequence_lengths@.len(),
            |i: int| (self.sequence_lengths@[i].0@, self.sequence_lengths@[i].1 as u64),
        );
        let n = self.sequence_lengths.len();
        let mut out: Vec<u8> = Vec::new();
        out.push(LBRACE);
        let mut i: usize = 0;
        proof {
            assert(out@ =~= seq![LBRACE] + ser_entries(es.take(0)));
        }
        while i < n
            invariant
                n == self.sequence_lengths@.len(),
                es == Seq::new(
                    self.sequence_lengths@.len(),
                    |i: int| (self.sequence_lengths@[i].0@, self.sequence_lengths@[i].1 as u64),
                ),
                0 <= i <= n,
                out@ == seq![LBRACE] + ser_entries(es.take(i as int)),
            decreases n - i,
        {
            proof {
                assert(es.take(i + 1 as int) =~= es.take(i as int).push(es[i as int]));
            }
            if i > 0 {
                out.push(COMMA);
                proof {
                    lemma_ser_entries_snoc(es.take(i as int), es[i as int]);
                }
            } else {
                assert(es.take(1) =~= seq![es[0]]);
            }
            out.push(QUOTE);
            push_escaped(&mut out, &self.sequence_lengths[i].0);
            out.push(QUOTE);
            out.push(COLON);
            push_decimal(&mut out, self.sequence_lengths[i].1 as u64);
            proof {
                assert(out@ =~= seq![LBRACE] + ser_entries(es.take(i + 1 as int)));
            }
            i = i + 1;
        }
        out.push(RBRACE);
        proof {
            assert(es.take(n as int) =~= es);
            assert(out@ =~= seq![LBRACE] + ser_entries(es) + seq![RBRACE]);
        }
        out
    }
}

impl FastaEntry {
    /// Reads the single record at byte offset `offset` of a seekable
    /// source, as [`record_at`] describes. Fails with `UnseekableSource`
    /// on a compressed source, and with `IndexNotAtDescription` when the
    /// offset does not point at a description line.
    pub fn from_index(handle: &FastaHandle, offset: u64) -> (r: Result<FastaEntry, ParseError>)
        ensures
            !handle.is_seekable() ==> (r matches Err(e) && e.kind == ErrorKind::UnseekableSource),
            handle.is_seekable() ==> match record_at(handle.bytes(), offset as int) {
                Some(rec) => r matches Ok(entry) && entry@ == rec,
                None => r matches Err(e) && e.kind == ErrorKind::IndexNotAtDescription,
            },
    {
        if !handle.supports_seek() {
            return Err(ParseError::new(ErrorKind::UnseekableSource, Vec::new()));
        }
        let data = handle.content();
        let n = data.len();
        if offset > n as u64 {
            return Err(ParseError::new(ErrorKind::IndexNotAtDescription, Vec::new()));
        }
        let off = offset as usize;
        let suffix = sub_bytes(data, off, n);
        assert(suffix@ =~= data@.skip(off as int));
        let cls = split_content_lines(&suffix);
        let ghost ls = content_lines(handle.bytes().skip(offset as int));
        assert(views(cls@) == ls);
        let m = cls.len();
        if m == 0 {
            return Err(ParseError::new(ErrorKind::IndexNotAtDescription, Vec::new()));
        }
        assert(views(cls@)[0] == cls@[0]@);
        if !is_description(&cls[0]) {
            return Err(ParseError::new(ErrorKind::IndexNotAtDescription, Vec::new()));
        }
        let head = &cls[0];
        let description = sub_bytes(head, 1, head.len());
        assert(description@ =~= strip_lead(ls[0]));
        let mut sequence: Vec<u8> = Vec::new();
        let mut t: usize = 1;
        proof {
            assert(sequence@ =~= concat_lines(ls, 1, 1));
        }
        while t < m && cls[t].len() > 0 && !is_description(&cls[t])
            invariant
                m == cls@.len() == ls.len(),
                views(cls@) == ls,
                1 <= t <= m,
                record_end(ls, 1) == record_end(ls, t as int),
                sequence@ == concat_lines(ls, 1, t as int),
            decreases m - t,
        {
            assert(views(cls@)[t as int] == cls@[t as int]@);
            proof {
                lemma_concat_lines_snoc(ls, 1, t as int);
            }
            push_all(&mut sequence, &cls[t]);
            t = t + 1;
        }
        proof {
            assert(views(cls@)[t as int] == cls@[t as int]@ || t == m);
            assert(record_end(ls, t as int) == t);
        }
        Ok(FastaEntry { description, sequence })
    }
}

} // verus!
