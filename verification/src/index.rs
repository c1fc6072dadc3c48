//! An index that stores byte offsets of individual entries in FASTA
//! sources.
//!
//! The index maps each accession (derived from a description line by the
//! separator / field-index convention of [`crate::helpers`]) to the byte
//! offset of the first byte of that record's description line in the
//! uncompressed stream. Keys are unique: building fails on a duplicate
//! rather than overwrite. Only a seekable source can be indexed, since the
//! offsets are useless on a source that cannot seek.

use vstd::prelude::*;

use crate::errors::{ErrorKind, ParseError};
use crate::helpers::{
    kv_find, kv_has_key, kv_map, kv_unique, kv_views, seq_id_from_description, seq_id_of, views,
};
use crate::json::{lemma_index_round_trip, parse_index, parse_index_bytes, ser_index,
    ser_index_bytes};
use crate::read::{
    content_of, is_desc, is_description, lemma_line_in_bounds, lemma_line_offset_mono,
    lemma_lines_skip, line_content, line_offset, lines_of, split_lines, FastaHandle,
};

verus! {

/// The outcome of scanning `rlines` (raw lines, terminators kept) from
/// line `i` at byte offset `off`, with the pairs gathered so far in `acc`:
/// each description line contributes its accession mapped to the offset
/// of its first byte. Fails on an accession already gathered, or on a
/// description line the extraction convention cannot split.
pub open spec fn build_from(
    rlines: Seq<Seq<u8>>,
    sep: Seq<u8>,
    id_index: int,
    i: int,
    off: int,
    acc: Seq<(Seq<u8>, u64)>,
) -> Result<Seq<(Seq<u8>, u64)>, (ErrorKind, Seq<u8>)>
    decreases rlines.len() - i,
{
    if !(0 <= i < rlines.len()) {
        Ok(acc)
    } else {
        let c = content_of(rlines[i]);
        let next = off + rlines[i].len();
        if is_desc(c) {
            match seq_id_of(c, sep, id_index) {
                None => Err((ErrorKind::FieldIndexOutOfRange, c)),
                Some(k) => if kv_has_key(acc, k) {
                    Err((ErrorKind::DuplicateAccession, k))
                } else {
                    build_from(rlines, sep, id_index, i + 1, next, acc.push((k, off as u64)))
                },
            }
        } else {
            build_from(rlines, sep, id_index, i + 1, next, acc)
        }
    }
}

/// The accession-to-offset pairs of `data`, in file order, or the first
/// failure of the scan.
pub open spec fn index_of(data: Seq<u8>, sep: Seq<u8>, id_index: int) -> Result<
    Seq<(Seq<u8>, u64)>,
    (ErrorKind, Seq<u8>),
> {
    build_from(lines_of(data), sep, id_index, 0, 0, seq![])
}

/// An index into FASTA sources.
///
/// Wraps an accession -> byte offset association with unique keys. The
/// description line format is specified when creating an index by the
/// field separator and the index (0-based) of the field which stores the
/// accession: the standard UniProt format uses `|` and field 1.
#[derive(Debug, Eq, PartialEq)]
pub struct FastaIndex {
    pub id_to_offset: Vec<(Vec<u8>, u64)>,
}

impl View for FastaIndex {
    type V = Map<Seq<u8>, u64>;

    open spec fn view(&self) -> Map<Seq<u8>, u64> {
        kv_map(self.entries())
    }
}

impl FastaIndex {
    /// The accession-offset pairs, in file order.
    pub open spec fn entries(&self) -> Seq<(Seq<u8>, u64)> {
        kv_views(self.id_to_offset@)
    }

    /// Every accession appears once.
    pub open spec fn wf(&self) -> bool {
        kv_unique(self.entries())
    }

    /// Builds the index by one forward scan of a seekable source, as
    /// [`index_of`] describes; refuses a compressed source outright.
    pub fn new(handle: &FastaHandle, separator: &Vec<u8>, id_index: usize) -> (r: Result<
        FastaIndex,
        ParseError,
    >)
        ensures
            !handle.is_seekable() ==> (r matches Err(e) && e.kind == ErrorKind::UnseekableSource),
            handle.is_seekable() ==> match index_of(handle.bytes(), separator@, id_index as int) {
                Ok(es) => r matches Ok(idx) && idx.entries() == es && idx.wf(),
                Err((kind, subject)) => r matches Err(e) && e.kind == kind && e.message@
                    == subject,
            },
    {
        if !handle.supports_seek() {
            return Err(ParseError::new(ErrorKind::UnseekableSource, Vec::new()));
        }
        let data = handle.content();
        let raw = split_lines(data);
        let ghost rl = lines_of(handle.bytes());
        let n = raw.len();
        let dlen = data.len();
        let mut entries: Vec<(Vec<u8>, u64)> = Vec::new();
        let mut off: u64 = 0;
        let mut i: usize = 0;
        proof {
            assert(kv_views(entries@) =~= Seq::<(Seq<u8>, u64)>::empty());
        }
        while i < n
            invariant
                handle.is_seekable(),
                n == raw@.len(),
                views(raw@) == rl,
                data@ == handle.bytes(),
                rl == lines_of(handle.bytes()),
                dlen == data@.len(),
                0 <= i <= n,
                off as int == line_offset(rl, i as int),
                off <= dlen,
                kv_unique(kv_views(entries@)),
                index_of(handle.bytes(), separator@, id_index as int) == build_from(
                    rl,
                    separator@,
                    id_index as int,
                    i as int,
                    off as int,
                    kv_views(entries@),
                ),
            decreases n - i,
        {
            proof {
                lemma_line_in_bounds(data@, i as int);
            }
            let rawline = &raw[i];
            assert(rawline@ == rl[i as int]);
            let c = line_content(rawline);
            if is_description(&c) {
                let key = match seq_id_from_description(&c, separator, id_index) {
                    Ok(k) => k,
                    Err(e) => {
                        return Err(e);
                    },
                };
                match kv_find(&entries, &key) {
                    Some(_) => {
                        return Err(ParseError::new(ErrorKind::DuplicateAccession, key));
                    },
                    None => {
                        let ghost pre = kv_views(entries@);
                        entries.push((key, off));
                        proof {
                            assert(kv_views(entries@) =~= pre.push((entries@.last().0@, off)));
                            assert(kv_unique(kv_views(entries@))) by {
                                let ws = kv_views(entries@);
                                assert forall|a: int, b: int|
                                    0 <= a < b < ws.len() implies ws[a].0 != ws[b].0 by {
                                    if b + 1 == ws.len() {
                                        assert(pre[a].0 != ws[b].0);
                                    }
                                }
                            }
                        }
                    },
                }
            }
            let rawlen = rawline.len();
            assert(off + rawlen <= data@.len());
            off = off + rawlen as u64;
            i = i + 1;
        }
        let idx = FastaIndex { id_to_offset: entries };
        Ok(idx)
    }

    /// The byte offset recorded for `id`, if the index holds that
    /// accession.
    pub fn get(&self, id: &Vec<u8>) -> (r: Option<u64>)
        requires
            self.wf(),
        ensures
            match r {
                Some(off) => self@.contains_key(id@) && self@[id@] == off,
                None => !self@.contains_key(id@),
            },
    {
        proof {
            crate::helpers::lemma_kv_map_contains(self.entries(), id@);
        }
        match kv_find(&self.id_to_offset, id) {
            Some(i) => {
                proof {
                    crate::helpers::lemma_kv_map_value(self.entries(), i as int);
                    assert(self.entries()[i as int].0 == id@);
                }
                Some(self.id_to_offset[i].1)
            },
            None => None,
        }
    }

    /// The durable form of the index: the single JSON object
    /// [`ser_index`] describes, ready to be written out.
    pub fn to_json(&self) -> (out: Vec<u8>)
        ensures
            out@ == ser_index(self.entries()),
    {
        ser_index_bytes(&self.id_to_offset)
    }

    /// Reads an index back from its durable form, as [`parse_index`]
    /// describes; anything else fails with `MalformedIndexFile`.
    pub fn from_json(data: &Vec<u8>) -> (r: Result<FastaIndex, ParseError>)
        ensures
            match parse_index(data@) {
                Some(es) => r matches Ok(idx) && idx.entries() == es && idx.wf(),
                None => r matches Err(e) && e.kind == ErrorKind::MalformedIndexFile,
            },
    {
        match parse_index_bytes(data) {
            Some(entries) => Ok(FastaIndex { id_to_offset: entries }),
            None => Err(ParseError::new(ErrorKind::MalformedIndexFile, Vec::new())),
        }
    }
}

/// Round trip: the durable form of any index parses back to exactly the
/// index it was written from, pair for pair.
pub proof fn lemma_durable_round_trip(index: FastaIndex)
    requires
        index.wf(),
    ensures
        parse_index(ser_index(index.entries())) == Some(index.entries()),
{
    lemma_index_round_trip(index.entries());
}

/// Holds of an index pair when some description line of the source stands
/// at exactly the pair's byte offset and derives the pair's accession.
pub open spec fn entry_located(
    rlines: Seq<Seq<u8>>,
    sep: Seq<u8>,
    id_index: int,
    e: (Seq<u8>, u64),
) -> bool {
    exists|li: int|
        0 <= li < rlines.len() && is_desc(content_of(rlines[li])) && e.1 as int == line_offset(
            rlines,
            li,
        ) && seq_id_of(content_of(rlines[li]), sep, id_index) == Some(e.0)
}

/// Every pair a successful scan gathers is located at a description line.
proof fn lemma_build_located(
    rlines: Seq<Seq<u8>>,
    sep: Seq<u8>,
    id_index: int,
    i: int,
    acc: Seq<(Seq<u8>, u64)>,
    j: int,
)
    requires
        0 <= i <= rlines.len(),
        line_offset(rlines, rlines.len() as int) <= u64::MAX,
        build_from(rlines, sep, id_index, i, line_offset(rlines, i), acc) matches Ok(es),
        forall|a: int| 0 <= a < acc.len() ==> entry_located(rlines, sep, id_index, #[trigger] acc[a]),
        0 <= j < build_from(rlines, sep, id_index, i, line_offset(rlines, i), acc)->Ok_0.len(),
    ensures
        entry_located(
            rlines,
            sep,
            id_index,
            build_from(rlines, sep, id_index, i, line_offset(rlines, i), acc)->Ok_0[j],
        ),
    decreases rlines.len() - i,
{
    if i < rlines.len() {
        let c = content_of(rlines[i]);
        let off = line_offset(rlines, i);
        assert(off + rlines[i].len() == line_offset(rlines, i + 1));
        if is_desc(c) {
            let k = seq_id_of(c, sep, id_index)->Some_0;
            let acc2 = acc.push((k, off as u64));
            assert(0 <= off <= u64::MAX) by {
                lemma_line_offset_mono(rlines, 0, i);
                lemma_line_offset_mono(rlines, i, rlines.len() as int);
            }
            assert(entry_located(rlines, sep, id_index, (k, off as u64)));
            assert(forall|a: int|
                0 <= a < acc2.len() ==> entry_located(rlines, sep, id_index, #[trigger] acc2[a]));
            lemma_build_located(rlines, sep, id_index, i + 1, acc2, j);
        } else {
            lemma_build_located(rlines, sep, id_index, i + 1, acc, j);
        }
    }
}

/// A scan that has already gathered the accession of line `a` (or has
/// line `a` still ahead) runs into line `b`'s equal accession and fails
/// with `DuplicateAccession`.
proof fn lemma_build_dup(
    rlines: Seq<Seq<u8>>,
    sep: Seq<u8>,
    id_index: int,
    i: int,
    off: int,
    acc: Seq<(Seq<u8>, u64)>,
    a: int,
    b: int,
)
    requires
        0 <= i <= rlines.len(),
        0 <= a < b < rlines.len(),
        i <= b,
        is_desc(content_of(rlines[a])),
        is_desc(content_of(rlines[b])),
        seq_id_of(content_of(rlines[a]), sep, id_index) == seq_id_of(
            content_of(rlines[b]),
            sep,
            id_index,
        ),
        forall|j: int|
            i <= j <= b && is_desc(content_of(#[trigger] rlines[j])) ==> seq_id_of(
                content_of(rlines[j]),
                sep,
                id_index,
            ) is Some,
        i > a ==> kv_has_key(acc, seq_id_of(content_of(rlines[a]), sep, id_index)->Some_0),
    ensures
        build_from(rlines, sep, id_index, i, off, acc) matches Err(e) && e.0
            == ErrorKind::DuplicateAccession,
    decreases rlines.len() - i,
{
    let c = content_of(rlines[i]);
    let next = off + rlines[i].len();
    if is_desc(c) {
        let k = seq_id_of(c, sep, id_index)->Some_0;
        if kv_has_key(acc, k) {
        } else {
            assert(i < b);
            let acc2 = acc.push((k, off as u64));
            assert forall|m: int| 0 <= m < acc.len() implies acc2[m] == acc[m] by {}
            if i > a {
                let ka = seq_id_of(content_of(rlines[a]), sep, id_index)->Some_0;
                let m = choose|m: int| 0 <= m < acc.len() && acc[m].0 == ka;
                assert(acc2[m].0 == ka);
            }
            if i == a {
                assert(acc2[acc.len() as int].0 == k);
            }
            lemma_build_dup(rlines, sep, id_index, i + 1, next, acc2, a, b);
        }
    } else {
        assert(i < b);
        lemma_build_dup(rlines, sep, id_index, i + 1, next, acc, a, b);
    }
}

/// Two description lines deriving the same accession make the index
/// build fail with `DuplicateAccession` (when every description line up
/// to the second one splits): a duplicate is never silently overwritten.
pub proof fn lemma_duplicate_accession_fails(
    data: Seq<u8>,
    sep: Seq<u8>,
    id_index: int,
    a: int,
    b: int,
)
    requires
        0 <= a < b < lines_of(data).len(),
        is_desc(content_of(lines_of(data)[a])),
        is_desc(content_of(lines_of(data)[b])),
        seq_id_of(content_of(lines_of(data)[a]), sep, id_index) == seq_id_of(
            content_of(lines_of(data)[b]),
            sep,
            id_index,
        ),
        forall|j: int|
            0 <= j <= b && is_desc(content_of(#[trigger] lines_of(data)[j])) ==> seq_id_of(
                content_of(lines_of(data)[j]),
                sep,
                id_index,
            ) is Some,
    ensures
        index_of(data, sep, id_index) matches Err(e) && e.0 == ErrorKind::DuplicateAccession,
{
    lemma_build_dup(lines_of(data), sep, id_index, 0, 0, seq![], a, b);
}

/// Seeking to any offset a built index records and reading the first line
/// there returns exactly a description line of the original source, and
/// that line derives exactly the accession the offset is recorded under.
pub proof fn lemma_seek_reads_description(data: Seq<u8>, sep: Seq<u8>, id_index: int, j: int)
    requires
        data.len() <= u64::MAX,
        index_of(data, sep, id_index) matches Ok(es),
        0 <= j < index_of(data, sep, id_index)->Ok_0.len(),
    ensures
        ({
            let e = index_of(data, sep, id_index)->Ok_0[j];
            let suffix_lines = lines_of(data.skip(e.1 as int));
            &&& e.1 <= data.len()
            &&& suffix_lines.len() > 0
            &&& exists|li: int|
                0 <= li < lines_of(data).len() && suffix_lines[0] == lines_of(data)[li]
            &&& is_desc(content_of(suffix_lines[0]))
            &&& seq_id_of(content_of(suffix_lines[0]), sep, id_index) == Some(e.0)
            &&& crate::pieces::record_at(data, e.1 as int) is Some
            &&& crate::pieces::record_at(data, e.1 as int)->Some_0.0 == crate::helpers::strip_lead(
                content_of(suffix_lines[0]),
            )
        }),
{
    let rl = lines_of(data);
    let es = index_of(data, sep, id_index)->Ok_0;
    let e = es[j];
    assert(line_offset(rl, rl.len() as int) <= data.len()) by {
        lemma_lines_skip(data, rl.len() as int);
    }
    assert(line_offset(rl, 0) == 0);
    lemma_build_located(rl, sep, id_index, 0, seq![], j);
    let li = choose|li: int|
        0 <= li < rl.len() && is_desc(content_of(rl[li])) && e.1 as int == line_offset(rl, li)
            && seq_id_of(content_of(rl[li]), sep, id_index) == Some(e.0);
    lemma_lines_skip(data, li);
    assert(lines_of(data.skip(e.1 as int)) == rl.skip(li));
    assert(rl.skip(li)[0] == rl[li]);
    let ls = crate::read::content_lines(data.skip(e.1 as int));
    assert(ls[0] == content_of(lines_of(data.skip(e.1 as int))[0]));
    assert(ls.len() > 0 && is_desc(ls[0]));
}

} // verus!
