//! Sources, lines and the streaming record decoder.
//!
//! A [`FastaHandle`] holds the uncompressed bytes of a source together with
//! the one capability that matters here: whether the source supports
//! seeking. Plain sources do; gzip-compressed sources do not, and every
//! seek-dependent operation on them fails rather than degrade silently.
//!
//! The byte stream is cut into raw lines (each keeping its terminator, so
//! byte offsets stay exact), and the decoder walks the line contents as a
//! two-state machine: skip until the first description line, then gather
//! sequence lines until the next description line or the end of input.

use vstd::prelude::*;

use crate::errors::{ErrorKind, ParseError};
use crate::helpers::{clone_bytes, push_all, sub_bytes, views};
use crate::pieces::{entry_views, FastaEntry};

verus! {

/// The record marker: a description line's first byte, `>`.
pub const MARKER: u8 = 62;

/// The line terminator, `\n`.
pub const NEWLINE: u8 = 10;

/// The carriage return stripped before a terminator, `\r`.
pub const CARRIAGE: u8 = 13;

/// What a multi-member gzip stream decodes to, if it decodes at all.
/// Decoding is a function of the compressed bytes alone.
pub uninterp spec fn gunzip_of(data: Seq<u8>) -> Option<Seq<u8>>;

/// Relies on `flate2::bufread::MultiGzDecoder`: reading it to the end
/// decodes every member of a gzip stream taken from a byte slice, and both
/// the decoded bytes and a decoding failure are determined by the input
/// bytes alone.
#[verifier::external_body]
fn gunzip_all(data: &Vec<u8>) -> (r: Option<Vec<u8>>)
    ensures
        match r {
            Some(out) => gunzip_of(data@) == Some(out@),
            None => gunzip_of(data@) is None,
        },
{
    let mut decoder = flate2::bufread::MultiGzDecoder::new(&data[..]);
    let mut out: Vec<u8> = Vec::new();
    match std::io::Read::read_to_end(&mut decoder, &mut out) {
        Ok(_) => Some(out),
        Err(_) => None,
    }
}

/// A source of FASTA bytes: either a plain (seekable) source or the
/// decoded form of a gzip-compressed (unseekable) one.
#[derive(Debug)]
pub enum FastaHandle {
    /// The decoded bytes of a gzip-compressed source; not seekable.
    Compressed(Vec<u8>),
    /// The bytes of a plain source; seekable.
    Uncompressed(Vec<u8>),
}

impl FastaHandle {
    /// The uncompressed byte stream this handle reads.
    pub open spec fn bytes(&self) -> Seq<u8> {
        match self {
            FastaHandle::Compressed(b) => b@,
            FastaHandle::Uncompressed(b) => b@,
        }
    }

    /// Whether the source supports jumping to a byte position.
    pub open spec fn is_seekable(&self) -> bool {
        match self {
            FastaHandle::Compressed(_) => false,
            FastaHandle::Uncompressed(_) => true,
        }
    }

    /// Capability check: only a plain source can honor a seek.
    pub fn supports_seek(&self) -> (r: bool)
        ensures
            r == self.is_seekable(),
    {
        match self {
            FastaHandle::Compressed(_) => false,
            FastaHandle::Uncompressed(_) => true,
        }
    }

    /// The uncompressed bytes of the source.
    pub fn content(&self) -> (r: &Vec<u8>)
        ensures
            r@ == self.bytes(),
    {
        match self {
            FastaHandle::Compressed(b) => b,
            FastaHandle::Uncompressed(b) => b,
        }
    }

    /// Wraps raw source bytes in a handle. Compressed bytes are decoded
    /// here, once, into the unseekable variant; a stream that does not
    /// decode is reported as an I/O failure.
    pub fn open_fasta(raw: Vec<u8>, compressed: bool) -> (r: Result<FastaHandle, ParseError>)
        ensures
            !compressed ==> (r matches Ok(h) && h is Uncompressed && h.bytes() == raw@),
            compressed ==> match gunzip_of(raw@) {
                Some(decoded) => r matches Ok(h) && h is Compressed && h.bytes() == decoded,
                None => r matches Err(e) && e.kind == ErrorKind::IOFailure,
            },
    {
        if compressed {
            match gunzip_all(&raw) {
                Some(decoded) => Ok(FastaHandle::Compressed(decoded)),
                None => Err(ParseError::new(ErrorKind::IOFailure, Vec::new())),
            }
        } else {
            Ok(FastaHandle::Uncompressed(raw))
        }
    }
}

/// Is `ext` the path extension that marks gzip framing (`gz`)?
pub fn gzip_extension(ext: &Vec<u8>) -> (r: bool)
    ensures
        r == (ext@ == seq![103u8, 122u8]),
{
    if ext.len() == 2 && ext[0] == 103 && ext[1] == 122 {
        assert(ext@ =~= seq![103u8, 122u8]);
        true
    } else {
        assert(ext@ != seq![103u8, 122u8]);
        false
    }
}

/// The byte length of the first raw line of `data`: up to and including
/// the first `\n`, or all of `data` when it has none.
pub open spec fn first_line_len(data: Seq<u8>) -> int
    decreases data.len(),
{
    if data.len() == 0 {
        0
    } else if data[0] == NEWLINE {
        1
    } else {
        1 + first_line_len(data.skip(1))
    }
}

/// The first raw line is non-empty, lies within `data`, contains no `\n`
/// before its final byte, and ends with `\n` unless it runs to the end.
pub proof fn lemma_first_line_len(data: Seq<u8>)
    requires
        data.len() > 0,
    ensures
        1 <= first_line_len(data) <= data.len(),
        forall|j: int| 0 <= j < first_line_len(data) - 1 ==> data[j] != NEWLINE,
        data[first_line_len(data) - 1] == NEWLINE || first_line_len(data) == data.len(),
    decreases data.len(),
{
    if data[0] == NEWLINE {
    } else if data.len() > 1 {
        lemma_first_line_len(data.skip(1));
        assert forall|j: int| 0 <= j < first_line_len(data) - 1 implies data[j] != NEWLINE by {
            if j > 0 {
                assert(data.skip(1)[j - 1] == data[j]);
            }
        }
        assert(data[first_line_len(data) - 1] == data.skip(1)[first_line_len(data.skip(1)) - 1]);
    } else {
        assert(data.skip(1).len() == 0);
    }
}

/// The raw lines of `data`, in order, each keeping its `\n` terminator;
/// only the last line may lack one. Empty input has no lines.
pub open spec fn lines_of(data: Seq<u8>) -> Seq<Seq<u8>>
    decreases data.len(),
{
    if data.len() == 0 {
        seq![]
    } else {
        let r = first_line_len(data);
        if 1 <= r <= data.len() {
            seq![data.take(r)] + lines_of(data.skip(r))
        } else {
            seq![data]
        }
    }
}

/// A raw line with its terminator removed: a trailing `\n` goes, then a
/// trailing `\r` before it.
pub open spec fn content_of(raw: Seq<u8>) -> Seq<u8> {
    let t = if raw.len() > 0 && raw.last() == NEWLINE {
        raw.drop_last()
    } else {
        raw
    };
    if t.len() > 0 && t.last() == CARRIAGE {
        t.drop_last()
    } else {
        t
    }
}

/// The contents of every line of `data`, in order.
pub open spec fn content_lines(data: Seq<u8>) -> Seq<Seq<u8>> {
    Seq::new(lines_of(data).len(), |i: int| content_of(lines_of(data)[i]))
}

/// Does this line content open a record? Description lines start with the
/// record marker.
pub open spec fn is_desc(line: Seq<u8>) -> bool {
    line.len() > 0 && line[0] == MARKER
}

/// Cuts `data` into its raw lines, terminators kept.
pub fn split_lines(data: &Vec<u8>) -> (lines: Vec<Vec<u8>>)
    ensures
        views(lines@) == lines_of(data@),
{
    let mut lines: Vec<Vec<u8>> = Vec::new();
    let n = data.len();
    let mut pos: usize = 0;
    proof {
        assert(data@.skip(0) =~= data@);
        assert(views(lines@) + lines_of(data@) =~= lines_of(data@));
    }
    while pos < n
        invariant
            n == data@.len(),
            0 <= pos <= n,
            lines_of(data@) == views(lines@) + lines_of(data@.skip(pos as int)),
        decreases n - pos,
    {
        let ghost suffix = data@.skip(pos as int);
        let mut i: usize = pos;
        while i < n && data[i] != NEWLINE
            invariant
                n == data@.len(),
                pos <= i <= n,
                forall|j: int| pos <= j < i ==> data@[j] != NEWLINE,
            decreases n - i,
        {
            i = i + 1;
        }
        let end = if i < n {
            i + 1
        } else {
            n
        };
        proof {
            lemma_first_line_len(suffix);
            assert forall|j: int| 0 <= j < end - pos - 1 implies suffix[j] != NEWLINE by {
                assert(suffix[j] == data@[pos + j]);
            }
            if i < n {
                assert(suffix[i - pos] == data@[i as int]);
            }
            let r = first_line_len(suffix);
            assert(r == end - pos) by {
                if r < end - pos {
                    assert(suffix[r - 1] != NEWLINE || r == suffix.len());
                    assert(data@[pos + r - 1] == suffix[r - 1]);
                } else if r > end - pos {
                    assert(suffix[end - pos - 1] != NEWLINE);
                    if i < n {
                        assert(suffix[i - pos] == data@[i as int]);
                    }
                }
            }
        }
        let ghost pre = views(lines@);
        let line = sub_bytes(data, pos, end);
        lines.push(line);
        proof {
            let r = first_line_len(suffix);
            assert(line@ =~= suffix.take(r));
            assert(suffix.skip(r) =~= data@.skip(end as int));
            assert(views(lines@) =~= pre.push(line@));
            assert(pre + (seq![suffix.take(r)] + lines_of(suffix.skip(r))) =~= views(lines@)
                + lines_of(data@.skip(end as int)));
        }
        pos = end;
    }
    proof {
        assert(lines_of(data@.skip(pos as int)) =~= Seq::<Seq<u8>>::empty());
        assert(views(lines@) + Seq::<Seq<u8>>::empty() =~= views(lines@));
    }
    lines
}

/// The byte offset at which raw line `i` starts: the summed byte lengths
/// (terminators included) of all lines before it.
pub open spec fn line_offset(lines: Seq<Seq<u8>>, i: int) -> int
    decreases i,
{
    if i <= 0 {
        0
    } else {
        line_offset(lines, i - 1) + lines[i - 1].len()
    }
}

/// Line offsets grow with the line number.
pub proof fn lemma_line_offset_mono(lines: Seq<Seq<u8>>, i: int, j: int)
    requires
        0 <= i <= j,
    ensures
        line_offset(lines, i) <= line_offset(lines, j),
    decreases j - i,
{
    if i < j {
        lemma_line_offset_mono(lines, i, j - 1);
    }
}

/// Seeking to the byte offset of line `i` and reading lines from there
/// yields exactly the lines from `i` on: the seam that keeps the index
/// builder and random-access retrieval in agreement.
pub proof fn lemma_lines_skip(data: Seq<u8>, i: int)
    requires
        0 <= i <= lines_of(data).len(),
    ensures
        0 <= line_offset(lines_of(data), i) <= data.len(),
        lines_of(data.skip(line_offset(lines_of(data), i))) == lines_of(data).skip(i),
    decreases i,
{
    let rl = lines_of(data);
    if i == 0 {
        assert(data.skip(0) =~= data);
        assert(rl.skip(0) =~= rl);
    } else {
        lemma_lines_skip(data, i - 1);
        let off = line_offset(rl, i - 1);
        let s = data.skip(off);
        assert(lines_of(s) == rl.skip(i - 1));
        assert(rl.skip(i - 1).len() > 0);
        assert(s.len() > 0);
        lemma_first_line_len(s);
        let r = first_line_len(s);
        assert(lines_of(s) == seq![s.take(r)] + lines_of(s.skip(r)));
        assert(s.take(r) == lines_of(s)[0]);
        assert(lines_of(s)[0] == rl[i - 1]);
        assert(r == rl[i - 1].len());
        assert(lines_of(s.skip(r)) =~= lines_of(s).skip(1));
        assert(lines_of(s).skip(1) =~= rl.skip(i));
        assert(s.skip(r) =~= data.skip(off + r));
    }
}

/// Raw line `i` lies entirely within `data`, and the next line starts
/// right after it.
pub proof fn lemma_line_in_bounds(data: Seq<u8>, i: int)
    requires
        0 <= i < lines_of(data).len(),
    ensures
        0 <= line_offset(lines_of(data), i),
        line_offset(lines_of(data), i) + lines_of(data)[i].len() <= data.len(),
        line_offset(lines_of(data), i) + lines_of(data)[i].len() == line_offset(
            lines_of(data),
            i + 1,
        ),
{
    let rl = lines_of(data);
    lemma_lines_skip(data, i);
    let off = line_offset(rl, i);
    let s = data.skip(off);
    assert(lines_of(s) == rl.skip(i));
    assert(rl.skip(i).len() > 0);
    assert(s.len() > 0);
    lemma_first_line_len(s);
    let r = first_line_len(s);
    assert(lines_of(s) == seq![s.take(r)] + lines_of(s.skip(r)));
    assert(s.take(r) == lines_of(s)[0]);
    assert(lines_of(s)[0] == rl[i]);
    assert(r == rl[i].len());
}

/// Does this line content open a record?
pub fn is_description(line: &Vec<u8>) -> (r: bool)
    ensures
        r == is_desc(line@),
{
    line.len() > 0 && line[0] == MARKER
}

/// The index of the first description line at or after `i`, if any.
pub open spec fn first_desc_from(lines: Seq<Seq<u8>>, i: int) -> Option<int>
    decreases lines.len() - i,
{
    if !(0 <= i < lines.len()) {
        None
    } else if is_desc(lines[i]) {
        Some(i)
    } else {
        first_desc_from(lines, i + 1)
    }
}

/// How many description lines stand at or after `i`.
pub open spec fn count_desc_from(lines: Seq<Seq<u8>>, i: int) -> int
    decreases lines.len() - i,
{
    if !(0 <= i < lines.len()) {
        0
    } else if is_desc(lines[i]) {
        1 + count_desc_from(lines, i + 1)
    } else {
        count_desc_from(lines, i + 1)
    }
}

/// How many description lines `lines` has in all.
pub open spec fn count_desc(lines: Seq<Seq<u8>>) -> int {
    count_desc_from(lines, 0)
}

/// The records decoded from `lines` starting at line `i`, in the state
/// where `pending` is the description already read and `acc` the sequence
/// bytes gathered so far. A new description line emits the pending record;
/// the end of input emits it too, even with an empty sequence.
pub open spec fn records_from(
    lines: Seq<Seq<u8>>,
    i: int,
    pending: Seq<u8>,
    acc: Seq<u8>,
) -> Seq<(Seq<u8>, Seq<u8>)>
    decreases lines.len() - i,
{
    if !(0 <= i < lines.len()) {
        seq![(pending, acc)]
    } else if is_desc(lines[i]) {
        seq![(pending, acc)] + records_from(lines, i + 1, lines[i], seq![])
    } else {
        records_from(lines, i + 1, pending, acc + lines[i])
    }
}

/// All records of `lines`: decoding starts at the first description line
/// and discards everything before it. Empty when there is none.
pub open spec fn records_of(lines: Seq<Seq<u8>>) -> Seq<(Seq<u8>, Seq<u8>)> {
    match first_desc_from(lines, 0) {
        Some(fd) => records_from(lines, fd + 1, lines[fd], seq![]),
        None => seq![],
    }
}

/// What `first_desc_from` finds: a description line with none before it
/// (at or after `i`), or the promise that none exists at all.
pub proof fn lemma_first_desc_from(lines: Seq<Seq<u8>>, i: int)
    requires
        0 <= i <= lines.len(),
    ensures
        match first_desc_from(lines, i) {
            Some(fd) => i <= fd < lines.len() && is_desc(lines[fd]) && forall|j: int|
                i <= j < fd ==> !is_desc(lines[j]),
            None => forall|j: int| i <= j < lines.len() ==> !is_desc(lines[j]),
        },
    decreases lines.len() - i,
{
    if i < lines.len() && !is_desc(lines[i]) {
        lemma_first_desc_from(lines, i + 1);
    }
}

/// A decode in progress emits exactly one record per description line
/// still ahead, plus the one pending record.
pub proof fn lemma_records_from_len(lines: Seq<Seq<u8>>, i: int, pending: Seq<u8>, acc: Seq<u8>)
    ensures
        records_from(lines, i, pending, acc).len() == 1 + count_desc_from(lines, i),
    decreases lines.len() - i,
{
    if 0 <= i < lines.len() {
        if is_desc(lines[i]) {
            lemma_records_from_len(lines, i + 1, lines[i], seq![]);
        } else {
            lemma_records_from_len(lines, i + 1, pending, acc + lines[i]);
        }
    }
}

/// Skipping lines that are not description lines does not change the
/// description count.
pub proof fn lemma_count_desc_skip(lines: Seq<Seq<u8>>, i: int, k: int)
    requires
        0 <= i <= k <= lines.len(),
        forall|j: int| i <= j < k ==> !is_desc(lines[j]),
    ensures
        count_desc_from(lines, i) == count_desc_from(lines, k),
    decreases k - i,
{
    if i < k {
        lemma_count_desc_skip(lines, i + 1, k);
    }
}

/// Streaming decode yields exactly one record per description line: the
/// record count of any decodable input equals its description-line count.
pub proof fn lemma_streaming_decode_count(lines: Seq<Seq<u8>>)
    requires
        first_desc_from(lines, 0) is Some,
    ensures
        records_of(lines).len() == count_desc(lines),
{
    let fd = first_desc_from(lines, 0)->Some_0;
    lemma_first_desc_from(lines, 0);
    lemma_records_from_len(lines, fd + 1, lines[fd], seq![]);
    lemma_count_desc_skip(lines, 0, fd);
}

/// Cuts `data` into the contents of its lines, terminators stripped.
pub fn split_content_lines(data: &Vec<u8>) -> (cls: Vec<Vec<u8>>)
    ensures
        views(cls@) == content_lines(data@),
{
    let raw = split_lines(data);
    let n = raw.len();
    let mut cls: Vec<Vec<u8>> = Vec::new();
    let mut k: usize = 0;
    while k < n
        invariant
            n == raw@.len(),
            views(raw@) == lines_of(data@),
            0 <= k <= n,
            cls@.len() == k,
            forall|j: int| 0 <= j < k ==> cls@[j]@ == content_lines(data@)[j],
        decreases n - k,
    {
        let c = line_content(&raw[k]);
        assert(c@ == content_of(views(raw@)[k as int]));
        cls.push(c);
        k = k + 1;
    }
    assert(views(cls@) =~= content_lines(data@));
    cls
}

/// Decodes every record of the source, in order, as [`records_of`]
/// describes; fails with `MalformedInput` if and only if the source holds
/// no description line at all.
pub fn decode_all(handle: &FastaHandle) -> (r: Result<Vec<FastaEntry>, ParseError>)
    ensures
        match r {
            Ok(recs) => first_desc_from(content_lines(handle.bytes()), 0) is Some && entry_views(
                recs@,
            ) == records_of(content_lines(handle.bytes())),
            Err(e) => first_desc_from(content_lines(handle.bytes()), 0) is None && e.kind
                == ErrorKind::MalformedInput,
        },
{
    let data = handle.content();
    let ghost ls = content_lines(handle.bytes());
    let cls = split_content_lines(data);
    assert(views(cls@) == ls);
    let n = cls.len();
    let mut fd: usize = 0;
    while fd < n && !is_description(&cls[fd])
        invariant
            n == cls@.len() == ls.len(),
            views(cls@) == ls,
            0 <= fd <= n,
            forall|j: int| 0 <= j < fd ==> !is_desc(ls[j]),
            first_desc_from(ls, 0) == first_desc_from(ls, fd as int),
        decreases n - fd,
    {
        assert(views(cls@)[fd as int] == cls@[fd as int]@);
        fd = fd + 1;
    }
    if fd == n {
        return Err(ParseError::new(ErrorKind::MalformedInput, Vec::new()));
    }
    assert(views(cls@)[fd as int] == cls@[fd as int]@);
    assert(first_desc_from(ls, 0) == Some(fd as int));
    let ghost full = records_from(ls, fd + 1, ls[fd as int], seq![]);
    let mut out: Vec<FastaEntry> = Vec::new();
    let mut pending = clone_bytes(&cls[fd]);
    let mut acc: Vec<u8> = Vec::new();
    let mut i: usize = fd + 1;
    proof {
        assert(entry_views(out@) + records_from(ls, i as int, pending@, acc@) =~= full);
    }
    while i < n
        invariant
            n == cls@.len() == ls.len(),
            views(cls@) == ls,
            fd < i <= n,
            full == entry_views(out@) + records_from(ls, i as int, pending@, acc@),
        decreases n - i,
    {
        assert(views(cls@)[i as int] == cls@[i as int]@);
        let ghost pre = entry_views(out@);
        if is_description(&cls[i]) {
            out.push(FastaEntry { description: pending, sequence: acc });
            proof {
                assert(entry_views(out@) =~= pre.push(out@.last()@));
                assert(pre + (seq![out@.last()@] + records_from(ls, i + 1, ls[i as int], seq![]))
                    =~= entry_views(out@) + records_from(ls, i + 1, ls[i as int], seq![]));
            }
            pending = clone_bytes(&cls[i]);
            acc = Vec::new();
            proof {
                assert(acc@ =~= Seq::<u8>::empty());
            }
        } else {
            push_all(&mut acc, &cls[i]);
        }
        i = i + 1;
    }
    let ghost pre = entry_views(out@);
    out.push(FastaEntry { description: pending, sequence: acc });
    proof {
        assert(records_from(ls, n as int, out@.last()@.0, out@.last()@.1) =~= seq![
            out@.last()@,
        ]);
        assert(entry_views(out@) =~= pre + seq![out@.last()@]);
        assert(entry_views(out@) =~= full);
        assert(records_of(ls) == full);
    }
    Ok(out)
}

/// A reader that visits the entries of a FASTA source one by one, in
/// decode order. Obtained from [`FastaReader::new`]; each call of
/// [`FastaReader::next`] yields an owned entry.
#[derive(Debug)]
pub struct FastaReader {
    records: Vec<FastaEntry>,
    pos: usize,
}

impl View for FastaReader {
    type V = Seq<(Seq<u8>, Seq<u8>)>;

    closed spec fn view(&self) -> Seq<(Seq<u8>, Seq<u8>)> {
        if self.pos <= self.records.len() {
            entry_views(self.records@).skip(self.pos as int)
        } else {
            seq![]
        }
    }
}

impl FastaReader {
    /// Decodes the source and positions the reader before its first
    /// record. Fails with `MalformedInput` if and only if the source
    /// holds no description line.
    pub fn new(handle: &FastaHandle) -> (r: Result<FastaReader, ParseError>)
        ensures
            match r {
                Ok(reader) => first_desc_from(content_lines(handle.bytes()), 0) is Some && reader@
                    == records_of(content_lines(handle.bytes())),
                Err(e) => first_desc_from(content_lines(handle.bytes()), 0) is None && e.kind
                    == ErrorKind::MalformedInput,
            },
    {
        match decode_all(handle) {
            Ok(records) => {
                let reader = FastaReader { records, pos: 0 };
                proof {
                    assert(reader@ =~= entry_views(reader.records@));
                }
                Ok(reader)
            },
            Err(e) => Err(e),
        }
    }

    /// The next record, or `None` once every record has been yielded.
    pub fn next(&mut self) -> (r: Option<FastaEntry>)
        ensures
            old(self)@.len() > 0 ==> (r matches Some(e) && e@ == old(self)@[0] && final(self)@
                == old(self)@.skip(1)),
            old(self)@.len() == 0 ==> r is None && final(self)@ == old(self)@,
    {
        if self.pos < self.records.len() {
            let e = FastaEntry {
                description: clone_bytes(&self.records[self.pos].description),
                sequence: clone_bytes(&self.records[self.pos].sequence),
            };
            assert(e@ == entry_views(self.records@)[self.pos as int]);
            self.pos = self.pos + 1;
            proof {
                assert(self@ =~= old(self)@.skip(1));
            }
            Some(e)
        } else {
            None
        }
    }
}

/// The content of a raw line: the line with its terminator stripped.
pub fn line_content(raw: &Vec<u8>) -> (out: Vec<u8>)
    ensures
        out@ == content_of(raw@),
{
    let mut end = raw.len();
    if end > 0 && raw[end - 1] == NEWLINE {
        end = end - 1;
        assert(raw@.take(end as int) =~= raw@.drop_last());
    }
    if end > 0 && raw[end - 1] == CARRIAGE {
        end = end - 1;
    }
    let out = sub_bytes(raw, 0, end);
    proof {
        let t = if raw@.len() > 0 && raw@.last() == NEWLINE {
            raw@.drop_last()
        } else {
            raw@
        };
        assert(out@ =~= content_of(raw@));
    }
    out
}

} // verus!
