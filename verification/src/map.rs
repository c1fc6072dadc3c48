//! A map representation of a FASTA source.
//!
//! [`FastaMap`] associates keys with sequences: the full description line
//! when built by a streaming decode, or the requested accession when
//! populated on demand from an offset index.

use vstd::prelude::*;

use crate::errors::{ErrorKind, ParseError};
use crate::helpers::{
    clone_bytes, kv_find, kv_has_key, kv_map, kv_unique, kv_views, lemma_kv_map_push,
    lemma_kv_unique_push, lemma_kv_update, push_all, views,
};
use crate::index::FastaIndex;
use crate::pieces::{entry_views, record_at, FastaEntry};
use crate::read::{
    content_lines, decode_all, first_desc_from, records_of, FastaHandle, MARKER, NEWLINE,
};

verus! {

/// The views of a sequence of key-sequence pairs, element by element.
pub open spec fn map_entries(v: Seq<(Vec<u8>, Vec<u8>)>) -> Seq<(Seq<u8>, Seq<u8>)> {
    Seq::new(v.len(), |i: int| (v[i].0@, v[i].1@))
}

/// A map representation of a FASTA source.
#[derive(Debug, Eq, PartialEq)]
pub struct FastaMap {
    pub id_to_seq: Vec<(Vec<u8>, Vec<u8>)>,
}

impl View for FastaMap {
    type V = Map<Seq<u8>, Seq<u8>>;

    open spec fn view(&self) -> Map<Seq<u8>, Seq<u8>> {
        kv_map(self.entries())
    }
}

/// Inserts `k -> v`, replacing the value of an existing pair with the
/// same key, as `Map::insert` does on the denoted mapping.
fn map_set(es: &mut Vec<(Vec<u8>, Vec<u8>)>, k: Vec<u8>, v: Vec<u8>)
    requires
        kv_unique(map_entries(old(es)@)),
    ensures
        kv_unique(map_entries(final(es)@)),
        kv_map(map_entries(final(es)@)) == kv_map(map_entries(old(es)@)).insert(k@, v@),
{
    match kv_find(es, &k) {
        Some(i) => {
            proof {
                assert(map_entries(es@)[i as int].0 == k@);
                lemma_kv_update(map_entries(es@), i as int, k@, v@);
            }
            es.set(i, (k, v));
            assert(map_entries(es@) =~= map_entries(old(es)@).update(
                i as int,
                (map_entries(es@)[i as int].0, map_entries(es@)[i as int].1),
            ));
        },
        None => {
            proof {
                assert(!kv_has_key(map_entries(es@), k@)) by {
                    if kv_has_key(map_entries(es@), k@) {
                        let i = choose|i: int|
                            0 <= i < map_entries(es@).len() && map_entries(es@)[i].0 == k@;
                        assert(kv_views(es@)[i].0 == k@);
                    }
                }
                lemma_kv_unique_push(map_entries(es@), k@, v@);
                lemma_kv_map_push(map_entries(es@), k@, v@);
            }
            es.push((k, v));
            assert(map_entries(es@) =~= map_entries(old(es)@).push(
                (map_entries(es@).last().0, map_entries(es@).last().1),
            ));
        },
    }
}

/// What retrieving one accession through an index yields: its record's
/// sequence, or why it cannot be had.
pub open spec fn retrieval_of(data: Seq<u8>, index: Map<Seq<u8>, u64>, id: Seq<u8>) -> Result<
    Seq<u8>,
    ErrorKind,
> {
    if !index.contains_key(id) {
        Err(ErrorKind::MissingAccession)
    } else {
        match record_at(data, index[id] as int) {
            Some(rec) => Ok(rec.1),
            None => Err(ErrorKind::IndexNotAtDescription),
        }
    }
}

/// The mapping a batch retrieval builds: each requested accession that
/// retrieves, mapped to its sequence, later requests winning.
pub open spec fn batch_map(data: Seq<u8>, index: Map<Seq<u8>, u64>, ids: Seq<Seq<u8>>) -> Map<
    Seq<u8>,
    Seq<u8>,
>
    decreases ids.len(),
{
    if ids.len() == 0 {
        Map::empty()
    } else {
        let m = batch_map(data, index, ids.drop_last());
        match retrieval_of(data, index, ids.last()) {
            Ok(s) => m.insert(ids.last(), s),
            Err(_) => m,
        }
    }
}

/// The failures of a batch retrieval: each failing accession with why it
/// failed, in request order.
pub open spec fn batch_failures(data: Seq<u8>, index: Map<Seq<u8>, u64>, ids: Seq<Seq<u8>>) -> Seq<
    (Seq<u8>, ErrorKind),
>
    decreases ids.len(),
{
    if ids.len() == 0 {
        seq![]
    } else {
        let f = batch_failures(data, index, ids.drop_last());
        match retrieval_of(data, index, ids.last()) {
            Ok(_) => f,
            Err(kind) => f.push((ids.last(), kind)),
        }
    }
}

/// The views of reported errors: each failure's subject and kind.
pub open spec fn error_views(es: Seq<ParseError>) -> Seq<(Seq<u8>, ErrorKind)> {
    Seq::new(es.len(), |i: int| (es[i].message@, es[i].kind))
}

/// What one FASTA record serializes back to: marker, description,
/// sequence, and a blank separator line.
pub open spec fn fasta_bytes(es: Seq<(Seq<u8>, Seq<u8>)>) -> Seq<u8>
    decreases es.len(),
{
    if es.len() == 0 {
        seq![]
    } else {
        fasta_bytes(es.drop_last()) + (seq![MARKER] + es.last().0 + seq![NEWLINE] + es.last().1
            + seq![NEWLINE, NEWLINE])
    }
}

impl FastaMap {
    /// The key-sequence pairs, in insertion order.
    pub open spec fn entries(&self) -> Seq<(Seq<u8>, Seq<u8>)> {
        map_entries(self.id_to_seq@)
    }

    /// Every key appears once.
    pub open spec fn wf(&self) -> bool {
        kv_unique(self.entries())
    }

    /// Decodes the whole source into a map from full description line to
    /// sequence, a later record overwriting an earlier one with the same
    /// description. Fails with `MalformedInput` if and only if the source
    /// holds no description line.
    pub fn from_fasta(handle: &FastaHandle) -> (r: Result<FastaMap, ParseError>)
        ensures
            match r {
                Ok(m) => first_desc_from(content_lines(handle.bytes()), 0) is Some && m@ == kv_map(
                    records_of(content_lines(handle.bytes())),
                ) && m.wf(),
                Err(e) => first_desc_from(content_lines(handle.bytes()), 0) is None && e.kind
                    == ErrorKind::MalformedInput,
            },
    {
        let records = match decode_all(handle) {
            Ok(records) => records,
            Err(e) => {
                return Err(e);
            },
        };
        let ghost rs = records_of(content_lines(handle.bytes()));
        let n = records.len();
        let mut entries: Vec<(Vec<u8>, Vec<u8>)> = Vec::new();
        let mut i: usize = 0;
        proof {
            assert(map_entries(entries@) =~= Seq::<(Seq<u8>, Seq<u8>)>::empty());
            assert(kv_map(map_entries(entries@)) =~= kv_map(rs.take(0)));
        }
        while i < n
            invariant
                n == records@.len() == rs.len(),
                entry_views(records@) == rs,
                0 <= i <= n,
                kv_unique(map_entries(entries@)),
                kv_map(map_entries(entries@)) == kv_map(rs.take(i as int)),
            decreases n - i,
        {
            let rec = &records[i];
            assert(rec@ == entry_views(records@)[i as int]);
            let k = clone_bytes(&rec.description);
            let v = clone_bytes(&rec.sequence);
            map_set(&mut entries, k, v);
            proof {
                assert(rs.take(i + 1 as int).drop_last() =~= rs.take(i as int));
                assert(rs.take(i + 1 as int).last() == rs[i as int]);
            }
            i = i + 1;
        }
        assert(rs.take(n as int) =~= rs);
        Ok(FastaMap { id_to_seq: entries })
    }

    /// Retrieves the requested accessions through the index, seeking to
    /// each recorded offset of a seekable source: the successes populate
    /// the map, keyed by the requested accession; the failures are
    /// reported per accession, as [`batch_failures`] describes, without
    /// discarding the batch. Fails as a whole only with
    /// `UnseekableSource` on a compressed source.
    pub fn from_index_with_ids(handle: &FastaHandle, index: &FastaIndex, ids: &Vec<Vec<u8>>) -> (r:
        Result<(FastaMap, Vec<ParseError>), ParseError>)
        requires
            index.wf(),
        ensures
            !handle.is_seekable() ==> (r matches Err(e) && e.kind == ErrorKind::UnseekableSource),
            handle.is_seekable() ==> (r matches Ok(out) && out.0@ == batch_map(
                handle.bytes(),
                index@,
                views(ids@),
            ) && out.0.wf() && error_views(out.1@) == batch_failures(
                handle.bytes(),
                index@,
                views(ids@),
            )),
    {
        if !handle.supports_seek() {
            return Err(ParseError::new(ErrorKind::UnseekableSource, Vec::new()));
        }
        let n = ids.len();
        let mut entries: Vec<(Vec<u8>, Vec<u8>)> = Vec::new();
        let mut failures: Vec<ParseError> = Vec::new();
        let mut i: usize = 0;
        proof {
            assert(map_entries(entries@) =~= Seq::<(Seq<u8>, Seq<u8>)>::empty());
            assert(kv_map(map_entries(entries@)) =~= batch_map(
                handle.bytes(),
                index@,
                views(ids@).take(0),
            ));
            assert(error_views(failures@) =~= batch_failures(
                handle.bytes(),
                index@,
                views(ids@).take(0),
            ));
        }
        while i < n
            invariant
                handle.is_seekable(),
                index.wf(),
                n == ids@.len(),
                0 <= i <= n,
                kv_unique(map_entries(entries@)),
                kv_map(map_entries(entries@)) == batch_map(
                    handle.bytes(),
                    index@,
                    views(ids@).take(i as int),
                ),
                error_views(failures@) == batch_failures(
                    handle.bytes(),
                    index@,
                    views(ids@).take(i as int),
                ),
            decreases n - i,
        {
            let ghost idsv = views(ids@);
            proof {
                assert(idsv.take(i + 1 as int).drop_last() =~= idsv.take(i as int));
                assert(idsv.take(i + 1 as int).last() == idsv[i as int]);
            }
            let id = &ids[i];
            assert(id@ == idsv[i as int]);
            match index.get(id) {
                None => {
                    let ghost pre = error_views(failures@);
                    failures.push(
                        ParseError::new(ErrorKind::MissingAccession, clone_bytes(id)),
                    );
                    assert(error_views(failures@) =~= pre.push((id@, ErrorKind::MissingAccession)));
                },
                Some(offset) => {
                    match FastaEntry::from_index(handle, offset) {
                        Ok(entry) => {
                            map_set(&mut entries, clone_bytes(id), entry.sequence);
                        },
                        Err(_) => {
                            let ghost pre = error_views(failures@);
                            failures.push(
                                ParseError::new(
                                    ErrorKind::IndexNotAtDescription,
                                    clone_bytes(id),
                                ),
                            );
                            assert(error_views(failures@) =~= pre.push(
                                (id@, ErrorKind::IndexNotAtDescription),
                            ));
                        },
                    }
                },
            }
            i = i + 1;
        }
        assert(views(ids@).take(n as int) =~= views(ids@));
        Ok((FastaMap { id_to_seq: entries }, failures))
    }

    /// Serializes the map back to FASTA text: for each pair, a `>` then
    /// the key on one line, the sequence on the next, and a blank line.
    pub fn to_fasta(&self) -> (out: Vec<u8>)
        ensures
            out@ == fasta_bytes(self.entries()),
    {
        let ghost es = self.entries();
        let n = self.id_to_seq.len();
        let mut out: Vec<u8> = Vec::new();
        let mut i: usize = 0;
        proof {
            assert(out@ =~= fasta_bytes(es.take(0)));
        }
        while i < n
            invariant
                n == self.id_to_seq@.len(),
                es == self.entries(),
                0 <= i <= n,
                out@ == fasta_bytes(es.take(i as int)),
            decreases n - i,
        {
            proof {
                assert(es.take(i + 1 as int).drop_last() =~= es.take(i as int));
                assert(es.take(i + 1 as int).last() == es[i as int]);
            }
            let pair = &self.id_to_seq[i];
            assert(pair.0@ == es[i as int].0 && pair.1@ == es[i as int].1);
            out.push(MARKER);
            push_all(&mut out, &pair.0);
            out.push(NEWLINE);
            push_all(&mut out, &pair.1);
            out.push(NEWLINE);
            out.push(NEWLINE);
            assert(out@ =~= fasta_bytes(es.take(i + 1 as int)));
            i = i + 1;
        }
        assert(es.take(n as int) =~= es);
        out
    }

    /// The sequence stored for `id`, if the map holds that key.
    pub fn get(&self, id: &Vec<u8>) -> (r: Option<&Vec<u8>>)
        requires
            self.wf(),
        ensures
            match r {
                Some(s) => self@.contains_key(id@) && self@[id@] == s@,
                None => !self@.contains_key(id@),
            },
    {
        proof {
            crate::helpers::lemma_kv_map_contains(self.entries(), id@);
            assert(kv_has_key(self.entries(), id@) == kv_has_key(kv_views(self.id_to_seq@), id@))
                by {
                if kv_has_key(self.entries(), id@) {
                    let i = choose|i: int|
                        0 <= i < self.entries().len() && self.entries()[i].0 == id@;
                    assert(kv_views(self.id_to_seq@)[i].0 == id@);
                }
                if kv_has_key(kv_views(self.id_to_seq@), id@) {
                    let i = choose|i: int|
                        0 <= i < kv_views(self.id_to_seq@).len() && kv_views(self.id_to_seq@)[i].0
                            == id@;
                    assert(self.entries()[i].0 == id@);
                }
            }
        }
        match kv_find(&self.id_to_seq, id) {
            Some(i) => {
                proof {
                    crate::helpers::lemma_kv_map_value(self.entries(), i as int);
                    assert(self.entries()[i as int].0 == id@);
                }
                Some(&self.id_to_seq[i].1)
            },
            None => None,
        }
    }
}

} // verus!
