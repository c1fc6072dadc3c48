//! Byte-level helpers and the accession-extraction convention.
//!
//! A description line is split on a configured separator; the accession is
//! the field at a configured index. When the line does not contain the
//! separator, the whole line with the leading record marker stripped is the
//! accession. All functions here are pure: no I/O, no panics.

use vstd::prelude::*;

use crate::errors::{ErrorKind, ParseError};

verus! {

/// Splits `line` into fields on the (non-empty) separator `sep`,
/// scanning left to right without overlap. `start` is where the current
/// field began and `cur` is the scan position; callers use
/// [`fields_of`] with both at zero.
pub open spec fn split_from(line: Seq<u8>, sep: Seq<u8>, start: int, cur: int) -> Seq<Seq<u8>>
    recommends
        sep.len() > 0,
        0 <= start <= cur <= line.len(),
    decreases line.len() - cur,
{
    if sep.len() == 0 || !(0 <= start <= cur) {
        seq![line]
    } else if cur + sep.len() > line.len() {
        seq![line.subrange(start, line.len() as int)]
    } else if line.subrange(cur, cur + sep.len()) == sep {
        seq![line.subrange(start, cur)] + split_from(
            line,
            sep,
            cur + sep.len(),
            cur + sep.len(),
        )
    } else {
        split_from(line, sep, start, cur + 1)
    }
}

/// The fields of `line` under separator `sep`. An empty separator never
/// splits: the whole line is the single field.
pub open spec fn fields_of(line: Seq<u8>, sep: Seq<u8>) -> Seq<Seq<u8>> {
    if sep.len() == 0 {
        seq![line]
    } else {
        split_from(line, sep, 0, 0)
    }
}

/// `s` with its first byte (the record marker on a description line)
/// removed; an empty sequence stays empty.
pub open spec fn strip_lead(s: Seq<u8>) -> Seq<u8> {
    if s.len() > 0 {
        s.skip(1)
    } else {
        s
    }
}

/// The accession derived from a description line: the field at `id_index`
/// when the line contains the separator (with the marker stripped from
/// field zero), otherwise the whole line with the marker stripped.
/// `None` when the line splits but `id_index` is out of range.
pub open spec fn seq_id_of(line: Seq<u8>, sep: Seq<u8>, id_index: int) -> Option<Seq<u8>> {
    let fields = fields_of(line, sep);
    if fields.len() >= 2 {
        if 0 <= id_index < fields.len() {
            if id_index == 0 {
                Some(strip_lead(fields[0]))
            } else {
                Some(fields[id_index])
            }
        } else {
            None
        }
    } else {
        Some(strip_lead(line))
    }
}

/// The views of a sequence of byte vectors, element by element.
pub open spec fn views(v: Seq<Vec<u8>>) -> Seq<Seq<u8>> {
    Seq::new(v.len(), |i: int| v[i]@)
}

/// Compares two byte vectors for equality of contents.
pub fn bytes_eq(a: &Vec<u8>, b: &Vec<u8>) -> (r: bool)
    ensures
        r == (a@ == b@),
{
    if a.len() != b.len() {
        assert(a@ != b@) by {
            assert(a@.len() != b@.len());
        }
        return false;
    }
    let n = a.len();
    let mut i: usize = 0;
    while i < n
        invariant
            n == a@.len() == b@.len(),
            0 <= i <= n,
            forall|j: int| 0 <= j < i ==> a@[j] == b@[j],
        decreases n - i,
    {
        if a[i] != b[i] {
            return false;
        }
        i = i + 1;
    }
    assert(a@ =~= b@);
    true
}

/// Copies the byte range `[from, to)` of `v` into a fresh vector.
pub fn sub_bytes(v: &Vec<u8>, from: usize, to: usize) -> (out: Vec<u8>)
    requires
        from <= to <= v@.len(),
    ensures
        out@ == v@.subrange(from as int, to as int),
{
    let mut out: Vec<u8> = Vec::new();
    let mut i: usize = from;
    while i < to
        invariant
            from <= i <= to <= v@.len(),
            out@ == v@.subrange(from as int, i as int),
        decreases to - i,
    {
        out.push(v[i]);
        assert(out@ =~= v@.subrange(from as int, i + 1 as int));
        i = i + 1;
    }
    out
}

/// Copies a byte vector.
pub fn clone_bytes(v: &Vec<u8>) -> (out: Vec<u8>)
    ensures
        out@ == v@,
{
    let out = sub_bytes(v, 0, v.len());
    assert(out@ =~= v@);
    out
}

/// Appends all of `src` to `dst`.
pub fn push_all(dst: &mut Vec<u8>, src: &Vec<u8>)
    ensures
        final(dst)@ == old(dst)@ + src@,
{
    let ghost dst0 = dst@;
    let n = src.len();
    let mut i: usize = 0;
    proof {
        assert(dst@ =~= dst0 + src@.subrange(0, 0));
    }
    while i < n
        invariant
            n == src@.len(),
            0 <= i <= n,
            dst@ == dst0 + src@.subrange(0, i as int),
        decreases n - i,
    {
        dst.push(src[i]);
        assert(dst@ =~= dst0 + src@.subrange(0, i + 1 as int));
        i = i + 1;
    }
    assert(dst@ =~= dst0 + src@);
}

/// Does `sep` occur in `line` starting at position `cur`?
fn matches_at(line: &Vec<u8>, sep: &Vec<u8>, cur: usize) -> (r: bool)
    requires
        cur + sep@.len() <= line@.len(),
    ensures
        r == (line@.subrange(cur as int, cur + sep@.len()) == sep@),
{
    let n = sep.len();
    let llen = line.len();
    let mut j: usize = 0;
    while j < n
        invariant
            n == sep@.len(),
            llen == line@.len(),
            cur + n <= llen,
            0 <= j <= n,
            forall|k: int| 0 <= k < j ==> line@[cur + k] == sep@[k],
        decreases n - j,
    {
        if line[cur + j] != sep[j] {
            assert(line@.subrange(cur as int, cur + sep@.len())[j as int] != sep@[j as int]);
            return false;
        }
        j = j + 1;
    }
    assert(line@.subrange(cur as int, cur + sep@.len()) =~= sep@);
    true
}

/// Splits `line` into its fields on `sep`, as [`fields_of`] describes.
pub fn split_fields(line: &Vec<u8>, sep: &Vec<u8>) -> (fields: Vec<Vec<u8>>)
    ensures
        views(fields@) == fields_of(line@, sep@),
{
    let mut fields: Vec<Vec<u8>> = Vec::new();
    if sep.len() == 0 {
        let whole = sub_bytes(line, 0, line.len());
        assert(whole@ =~= line@);
        fields.push(whole);
        assert(views(fields@) =~= fields_of(line@, sep@));
        return fields;
    }
    let n = line.len();
    let m = sep.len();
    let mut start: usize = 0;
    let mut cur: usize = 0;
    if m <= n {
        while cur <= n - m
            invariant
                n == line@.len(),
                m == sep@.len(),
                0 < m <= n,
                0 <= start <= cur <= n,
                fields_of(line@, sep@) == views(fields@) + split_from(
                    line@,
                    sep@,
                    start as int,
                    cur as int,
                ),
            decreases n - cur,
        {
            if matches_at(line, sep, cur) {
                let ghost pre = views(fields@);
                let field = sub_bytes(line, start, cur);
                fields.push(field);
                proof {
                    assert(views(fields@) =~= pre.push(line@.subrange(start as int, cur as int)));
                    assert(pre + (seq![line@.subrange(start as int, cur as int)] + split_from(
                        line@,
                        sep@,
                        cur + m,
                        cur + m,
                    )) =~= views(fields@) + split_from(line@, sep@, cur + m, cur + m));
                }
                start = cur + m;
                cur = cur + m;
            } else {
                cur = cur + 1;
            }
        }
    }
    assert(cur + m > n);
    let ghost pre = views(fields@);
    let last = sub_bytes(line, start, n);
    fields.push(last);
    proof {
        assert(split_from(line@, sep@, start as int, cur as int) == seq![
            line@.subrange(start as int, n as int),
        ]);
        assert(views(fields@) =~= pre + seq![line@.subrange(start as int, n as int)]);
    }
    fields
}

/// The views of a sequence of key-value pairs with byte-vector keys.
pub open spec fn kv_views<V>(es: Seq<(Vec<u8>, V)>) -> Seq<(Seq<u8>, V)> {
    Seq::new(es.len(), |i: int| (es[i].0@, es[i].1))
}

/// The mapping an association list denotes: later pairs win.
pub open spec fn kv_map<V>(es: Seq<(Seq<u8>, V)>) -> Map<Seq<u8>, V>
    decreases es.len(),
{
    if es.len() == 0 {
        Map::empty()
    } else {
        kv_map(es.drop_last()).insert(es.last().0, es.last().1)
    }
}

/// Does some pair of `es` carry the key `k`?
pub open spec fn kv_has_key<V>(es: Seq<(Seq<u8>, V)>, k: Seq<u8>) -> bool {
    exists|i: int| 0 <= i < es.len() && es[i].0 == k
}

/// No two pairs of `es` carry the same key.
pub open spec fn kv_unique<V>(es: Seq<(Seq<u8>, V)>) -> bool {
    forall|i: int, j: int| 0 <= i < j < es.len() ==> es[i].0 != es[j].0
}

/// The denoted mapping contains exactly the keys the list carries.
pub proof fn lemma_kv_map_contains<V>(es: Seq<(Seq<u8>, V)>, k: Seq<u8>)
    ensures
        kv_map(es).contains_key(k) == kv_has_key(es, k),
    decreases es.len(),
{
    if es.len() > 0 {
        lemma_kv_map_contains(es.drop_last(), k);
        if kv_has_key(es, k) && es.last().0 != k {
            let i = choose|i: int| 0 <= i < es.len() && es[i].0 == k;
            assert(es.drop_last()[i] == es[i]);
        }
    }
}

/// With unique keys, the denoted mapping sends each listed key to the
/// value its pair carries.
pub proof fn lemma_kv_map_value<V>(es: Seq<(Seq<u8>, V)>, i: int)
    requires
        kv_unique(es),
        0 <= i < es.len(),
    ensures
        kv_map(es).contains_key(es[i].0),
        kv_map(es)[es[i].0] == es[i].1,
    decreases es.len(),
{
    if i + 1 < es.len() {
        assert(es.drop_last()[i] == es[i]);
        lemma_kv_map_value(es.drop_last(), i);
    }
}

/// Appending a fresh key keeps the keys unique.
pub proof fn lemma_kv_unique_push<V>(es: Seq<(Seq<u8>, V)>, k: Seq<u8>, v: V)
    requires
        kv_unique(es),
        !kv_has_key(es, k),
    ensures
        kv_unique(es.push((k, v))),
{
    let full = es.push((k, v));
    assert forall|a: int, b: int| 0 <= a < b < full.len() implies full[a].0 != full[b].0 by {
        if b == es.len() {
            assert(es[a].0 != k);
        } else {
            assert(es[a].0 != es[b].0);
        }
    }
}

/// Appending a pair denotes inserting it into the mapping.
pub proof fn lemma_kv_map_push<V>(es: Seq<(Seq<u8>, V)>, k: Seq<u8>, v: V)
    ensures
        kv_map(es.push((k, v))) == kv_map(es).insert(k, v),
{
    assert(es.push((k, v)).drop_last() =~= es);
}

/// Finds the position of the first pair of `es` whose key equals `k`.
pub fn kv_find<V>(es: &Vec<(Vec<u8>, V)>, k: &Vec<u8>) -> (r: Option<usize>)
    ensures
        match r {
            Some(i) => i < es@.len() && es@[i as int].0@ == k@ && kv_has_key(kv_views(es@), k@)
                && forall|j: int| 0 <= j < i ==> es@[j].0@ != k@,
            None => !kv_has_key(kv_views(es@), k@),
        },
{
    let n = es.len();
    let mut i: usize = 0;
    while i < n
        invariant
            n == es@.len(),
            0 <= i <= n,
            forall|j: int| 0 <= j < i ==> es@[j].0@ != k@,
        decreases n - i,
    {
        if bytes_eq(&es[i].0, k) {
            assert(kv_views(es@)[i as int].0 == k@);
            return Some(i);
        }
        i = i + 1;
    }
    assert(!kv_has_key(kv_views(es@), k@)) by {
        assert forall|j: int| 0 <= j < es@.len() implies kv_views(es@)[j].0 != k@ by {
            assert(kv_views(es@)[j].0 == es@[j].0@);
        }
    }
    None
}

/// Updating the pair at `i` (whose key is `k`) to carry `v` denotes
/// inserting `k -> v` into the mapping.
pub proof fn lemma_kv_update<V>(es: Seq<(Seq<u8>, V)>, i: int, k: Seq<u8>, v: V)
    requires
        kv_unique(es),
        0 <= i < es.len(),
        es[i].0 == k,
    ensures
        kv_unique(es.update(i, (k, v))),
        kv_map(es.update(i, (k, v))) == kv_map(es).insert(k, v),
    decreases es.len(),
{
    let up = es.update(i, (k, v));
    assert forall|a: int, b: int| 0 <= a < b < up.len() implies up[a].0 != up[b].0 by {
        assert(es[a].0 != es[b].0);
    }
    if i + 1 == es.len() {
        assert(up.drop_last() =~= es.drop_last());
        assert(kv_map(up) =~= kv_map(es).insert(k, v));
    } else {
        assert(up.drop_last() =~= es.drop_last().update(i, (k, v)));
        assert(es.drop_last()[i] == es[i]);
        lemma_kv_update(es.drop_last(), i, k, v);
        assert(es.last().0 != k);
        assert(kv_map(up) =~= kv_map(es).insert(k, v));
    }
}

/// Extracts the accession from the description line `line`, splitting on
/// `separator` and taking the field at `id_index`, as [`seq_id_of`]
/// describes. An out-of-range `id_index` is a caller configuration error
/// and is reported, never a panic.
pub fn seq_id_from_description(line: &Vec<u8>, separator: &Vec<u8>, id_index: usize) -> (r: Result<
    Vec<u8>,
    ParseError,
>)
    ensures
        match seq_id_of(line@, separator@, id_index as int) {
            Some(id) => r matches Ok(v) && v@ == id,
            None => r matches Err(e) && e.kind == ErrorKind::FieldIndexOutOfRange && e.message@
                == line@,
        },
{
    let fields = split_fields(line, separator);
    assert(fields@.len() == views(fields@).len());
    if fields.len() >= 2 {
        if id_index >= fields.len() {
            let whole = sub_bytes(line, 0, line.len());
            assert(whole@ =~= line@);
            return Err(ParseError::new(ErrorKind::FieldIndexOutOfRange, whole));
        }
        assert(views(fields@)[id_index as int] == fields@[id_index as int]@);
        if id_index == 0 {
            let f = &fields[0];
            if f.len() == 0 {
                Ok(Vec::new())
            } else {
                let out = sub_bytes(f, 1, f.len());
                assert(out@ =~= strip_lead(views(fields@)[0]));
                Ok(out)
            }
        } else {
            let f = &fields[id_index];
            let out = sub_bytes(f, 0, f.len());
            assert(out@ =~= views(fields@)[id_index as int]);
            Ok(out)
        }
    } else {
        if line.len() == 0 {
            assert(strip_lead(line@) =~= line@);
            Ok(Vec::new())
        } else {
            let out = sub_bytes(line, 1, line.len());
            assert(out@ =~= strip_lead(line@));
            Ok(out)
        }
    }
}

} // verus!
