//! The durable form of an offset index: a single JSON object with one
//! mapping field, `{"id_to_offset":{"<accession>":<offset>,...}}`.
//!
//! Both directions are implemented here, over bytes: [`ser_index`] says
//! exactly which bytes an index serializes to, [`parse_index`] exactly
//! which byte strings parse back and to what. Keys are written with `"`
//! and `\` escaped and anything else verbatim; offsets in decimal.
//! Parsing is strict: the exact frame, no whitespace, unique keys.

use vstd::prelude::*;

use crate::helpers::{kv_find, kv_has_key, kv_unique, kv_views, lemma_kv_unique_push};

verus! {

/// The byte `"`.
pub const QUOTE: u8 = 34;

/// The byte `\`.
pub const BACKSLASH: u8 = 92;

/// The byte `:`.
pub const COLON: u8 = 58;

/// The byte `,`.
pub const COMMA: u8 = 44;

/// The byte `}`.
pub const RBRACE: u8 = 125;

/// The byte `{`.
pub const LBRACE: u8 = 123;

/// The byte `[`.
pub const LBRACKET: u8 = 91;

/// The byte `]`.
pub const RBRACKET: u8 = 93;

/// The frame opening the durable form: `{"id_to_offset":{`.
pub open spec fn json_prefix() -> Seq<u8> {
    seq![123u8, 34, 105, 100, 95, 116, 111, 95, 111, 102, 102, 115, 101, 116, 34, 58, 123]
}

/// A key with `"` and `\` escaped by `\`, all other bytes verbatim.
pub open spec fn esc(s: Seq<u8>) -> Seq<u8>
    decreases s.len(),
{
    if s.len() == 0 {
        seq![]
    } else {
        let head = if s[0] == QUOTE || s[0] == BACKSLASH {
            seq![BACKSLASH, s[0]]
        } else {
            seq![s[0]]
        };
        head + esc(s.skip(1))
    }
}

/// The decimal digits of `v`, most significant first, no leading zeros.
pub open spec fn dec_rep(v: nat) -> Seq<u8>
    decreases v,
{
    if v < 10 {
        seq![(48 + v) as u8]
    } else {
        dec_rep(v / 10) + seq![(48 + v % 10) as u8]
    }
}

/// One serialized pair: `"<escaped key>":<decimal offset>`.
pub open spec fn ser_entry(e: (Seq<u8>, u64)) -> Seq<u8> {
    seq![QUOTE] + esc(e.0) + seq![QUOTE, COLON] + dec_rep(e.1 as nat)
}

/// The serialized pairs joined with commas.
pub open spec fn ser_entries(es: Seq<(Seq<u8>, u64)>) -> Seq<u8>
    decreases es.len(),
{
    if es.len() == 0 {
        seq![]
    } else if es.len() == 1 {
        ser_entry(es[0])
    } else {
        ser_entry(es[0]) + seq![COMMA] + ser_entries(es.skip(1))
    }
}

/// One serialized string: `"<escaped bytes>"`.
pub open spec fn ser_string(x: Seq<u8>) -> Seq<u8> {
    seq![QUOTE] + esc(x) + seq![QUOTE]
}

/// Serialized strings joined with commas.
pub open spec fn ser_strings(xs: Seq<Seq<u8>>) -> Seq<u8>
    decreases xs.len(),
{
    if xs.len() == 0 {
        seq![]
    } else if xs.len() == 1 {
        ser_string(xs[0])
    } else {
        ser_string(xs[0]) + seq![COMMA] + ser_strings(xs.skip(1))
    }
}

/// Serializing one more string appends a comma and the string.
pub proof fn lemma_ser_strings_snoc(xs: Seq<Seq<u8>>, x: Seq<u8>)
    requires
        xs.len() >= 1,
    ensures
        ser_strings(xs.push(x)) == ser_strings(xs) + seq![COMMA] + ser_string(x),
    decreases xs.len(),
{
    let full = xs.push(x);
    assert(full[0] == xs[0]);
    if xs.len() == 1 {
        assert(full.skip(1) =~= seq![x]);
        assert(ser_strings(full) =~= ser_strings(xs) + seq![COMMA] + ser_string(x));
    } else {
        assert(full.skip(1) =~= xs.skip(1).push(x));
        lemma_ser_strings_snoc(xs.skip(1), x);
        assert(ser_strings(full) == ser_string(xs[0]) + seq![COMMA] + ser_strings(full.skip(1)));
        assert(ser_strings(full.skip(1)) == ser_strings(xs.skip(1)) + seq![COMMA] + ser_string(x));
        assert(ser_strings(xs) == ser_string(xs[0]) + seq![COMMA] + ser_strings(xs.skip(1)));
        assert(ser_string(xs[0]) + seq![COMMA] + (ser_strings(xs.skip(1)) + seq![COMMA]
            + ser_string(x)) =~= ser_strings(xs) + seq![COMMA] + ser_string(x));
    }
}

/// The full durable form of an index with the given pairs.
pub open spec fn ser_index(es: Seq<(Seq<u8>, u64)>) -> Seq<u8> {
    json_prefix() + ser_entries(es) + seq![RBRACE, RBRACE]
}

/// Escaping distributes over concatenation.
pub proof fn lemma_esc_append(a: Seq<u8>, b: Seq<u8>)
    ensures
        esc(a + b) == esc(a) + esc(b),
    decreases a.len(),
{
    if a.len() == 0 {
        assert(a + b =~= b);
        assert(esc(a) + esc(b) =~= esc(b));
    } else {
        assert((a + b).skip(1) =~= a.skip(1) + b);
        lemma_esc_append(a.skip(1), b);
        let head = if a[0] == QUOTE || a[0] == BACKSLASH {
            seq![BACKSLASH, a[0]]
        } else {
            seq![a[0]]
        };
        assert(esc(a + b) =~= (head + esc(a.skip(1))) + esc(b));
    }
}

/// Serializing one more pair appends a comma and the pair.
pub proof fn lemma_ser_entries_snoc(es: Seq<(Seq<u8>, u64)>, e: (Seq<u8>, u64))
    requires
        es.len() >= 1,
    ensures
        ser_entries(es.push(e)) == ser_entries(es) + seq![COMMA] + ser_entry(e),
    decreases es.len(),
{
    let full = es.push(e);
    assert(full[0] == es[0]);
    if es.len() == 1 {
        assert(full.skip(1) =~= seq![e]);
        assert(ser_entries(full) =~= ser_entries(es) + seq![COMMA] + ser_entry(e));
    } else {
        assert(full.skip(1) =~= es.skip(1).push(e));
        lemma_ser_entries_snoc(es.skip(1), e);
        assert(ser_entries(full) == ser_entry(es[0]) + seq![COMMA] + ser_entries(full.skip(1)));
        assert(ser_entries(full.skip(1)) == ser_entries(es.skip(1)) + seq![COMMA] + ser_entry(e));
        assert(ser_entries(es) == ser_entry(es[0]) + seq![COMMA] + ser_entries(es.skip(1)));
        assert(ser_entry(es[0]) + seq![COMMA] + (ser_entries(es.skip(1)) + seq![COMMA] + ser_entry(
            e,
        )) =~= ser_entries(es) + seq![COMMA] + ser_entry(e));
    }
}

/// Is `b` a decimal digit?
pub open spec fn is_digit(b: u8) -> bool {
    48 <= b <= 57
}

/// Parses a string body (the opening quote already consumed): bytes up to
/// the next unescaped `"`, with `\"` and `\\` unescaped; yields the key
/// and the remaining input. Any other use of `\` fails.
pub open spec fn parse_string(s: Seq<u8>) -> Option<(Seq<u8>, Seq<u8>)>
    decreases s.len(),
{
    if s.len() == 0 {
        None
    } else if s[0] == QUOTE {
        Some((seq![], s.skip(1)))
    } else if s[0] == BACKSLASH {
        if s.len() >= 2 && (s[1] == QUOTE || s[1] == BACKSLASH) {
            match parse_string(s.skip(2)) {
                Some((k, r)) => Some((seq![s[1]] + k, r)),
                None => None,
            }
        } else {
            None
        }
    } else {
        match parse_string(s.skip(1)) {
            Some((k, r)) => Some((seq![s[0]] + k, r)),
            None => None,
        }
    }
}

/// Accumulates decimal digits onto `val`; stops at the first non-digit;
/// fails on a value beyond `u64`.
pub open spec fn parse_num_loop(s: Seq<u8>, val: nat) -> Option<(u64, Seq<u8>)>
    decreases s.len(),
{
    if s.len() > 0 && is_digit(s[0]) {
        let next = val * 10 + (s[0] - 48);
        if next > u64::MAX {
            None
        } else {
            parse_num_loop(s.skip(1), next as nat)
        }
    } else {
        if val <= u64::MAX {
            Some((val as u64, s))
        } else {
            None
        }
    }
}

/// Parses a decimal number: at least one digit, value within `u64`.
pub open spec fn parse_num(s: Seq<u8>) -> Option<(u64, Seq<u8>)> {
    if s.len() > 0 && is_digit(s[0]) {
        parse_num_loop(s, 0)
    } else {
        None
    }
}

/// Parses one or more comma-separated `"key":offset` pairs; yields them
/// in input order and the remaining input.
pub open spec fn parse_entries(s: Seq<u8>) -> Option<(Seq<(Seq<u8>, u64)>, Seq<u8>)>
    decreases s.len(),
{
    if s.len() == 0 || s[0] != QUOTE {
        None
    } else {
        match parse_string(s.skip(1)) {
            None => None,
            Some((k, r1)) => {
                if r1.len() == 0 || r1[0] != COLON {
                    None
                } else {
                    match parse_num(r1.skip(1)) {
                        None => None,
                        Some((v, r2)) => {
                            if r2.len() > 0 && r2[0] == COMMA {
                                if r2.skip(1).len() < s.len() {
                                    match parse_entries(r2.skip(1)) {
                                        None => None,
                                        Some((es, r3)) => Some((seq![(k, v)] + es, r3)),
                                    }
                                } else {
                                    None
                                }
                            } else {
                                Some((seq![(k, v)], r2))
                            }
                        },
                    }
                }
            },
        }
    }
}

/// Which byte strings are a durable index, and the pairs they carry: the
/// exact frame around zero or more pairs, nothing after it, and no key
/// twice.
pub open spec fn parse_index(s: Seq<u8>) -> Option<Seq<(Seq<u8>, u64)>> {
    if s.len() < 19 {
        None
    } else if s.take(17) != json_prefix() {
        None
    } else {
        let r = s.skip(17);
        if r[0] == RBRACE {
            if r.len() == 2 && r[1] == RBRACE {
                Some(seq![])
            } else {
                None
            }
        } else {
            match parse_entries(r) {
                None => None,
                Some((es, rest)) => {
                    if rest.len() == 2 && rest[0] == RBRACE && rest[1] == RBRACE && kv_unique(es) {
                        Some(es)
                    } else {
                        None
                    }
                },
            }
        }
    }
}

/// Parses a string body of `data` starting at `pos` (just past the
/// opening quote); yields the key and the position just past the closing
/// quote.
pub fn parse_string_at(data: &Vec<u8>, pos: usize) -> (r: Option<(Vec<u8>, usize)>)
    requires
        pos <= data@.len(),
    ensures
        match r {
            Some((k, end)) => pos < end <= data@.len() && parse_string(data@.skip(pos as int))
                == Some((k@, data@.skip(end as int))),
            None => parse_string(data@.skip(pos as int)) is None,
        },
{
    let n = data.len();
    let mut key: Vec<u8> = Vec::new();
    let mut cur: usize = pos;
    proof {
        if parse_string(data@.skip(pos as int)) is Some {
            let (k2, _r2) = parse_string(data@.skip(pos as int))->Some_0;
            assert(key@ + k2 =~= k2);
        }
    }
    loop
        invariant
            n == data@.len(),
            pos <= cur <= n,
            match parse_string(data@.skip(cur as int)) {
                Some((k2, r2)) => parse_string(data@.skip(pos as int)) == Some((key@ + k2, r2)),
                None => parse_string(data@.skip(pos as int)) is None,
            },
        decreases n - cur,
    {
        if cur == n {
            assert(data@.skip(cur as int).len() == 0);
            return None;
        }
        let b = data[cur];
        assert(data@.skip(cur as int)[0] == b);
        if b == QUOTE {
            assert(data@.skip(cur as int).skip(1) =~= data@.skip(cur + 1 as int));
            assert(key@ + Seq::<u8>::empty() =~= key@);
            return Some((key, cur + 1));
        } else if b == BACKSLASH {
            if cur + 1 == n {
                assert(data@.skip(cur as int).len() == 1);
                return None;
            }
            let b2 = data[cur + 1];
            assert(data@.skip(cur as int)[1] == b2);
            if b2 == QUOTE || b2 == BACKSLASH {
                let ghost pre = key@;
                key.push(b2);
                proof {
                    assert(data@.skip(cur as int).skip(2) =~= data@.skip(cur + 2 as int));
                    assert(key@ =~= pre.push(b2));
                    if parse_string(data@.skip(cur + 2 as int)) is Some {
                        let (k3, _r3) = parse_string(data@.skip(cur + 2 as int))->Some_0;
                        assert(pre + (seq![b2] + k3) =~= key@ + k3);
                    }
                }
                cur = cur + 2;
            } else {
                return None;
            }
        } else {
            let ghost pre = key@;
            key.push(b);
            proof {
                assert(data@.skip(cur as int).skip(1) =~= data@.skip(cur + 1 as int));
                assert(key@ =~= pre.push(b));
                if parse_string(data@.skip(cur + 1 as int)) is Some {
                    let (k3, _r3) = parse_string(data@.skip(cur + 1 as int))->Some_0;
                    assert(pre + (seq![b] + k3) =~= key@ + k3);
                }
            }
            cur = cur + 1;
        }
    }
}

/// Parses a decimal number of `data` starting at `pos`; yields the value
/// and the position just past its digits.
pub fn parse_num_at(data: &Vec<u8>, pos: usize) -> (r: Option<(u64, usize)>)
    requires
        pos <= data@.len(),
    ensures
        match r {
            Some((v, end)) => pos < end <= data@.len() && parse_num(data@.skip(pos as int)) == Some(
                (v, data@.skip(end as int)),
            ),
            None => parse_num(data@.skip(pos as int)) is None,
        },
{
    let n = data.len();
    if pos == n {
        assert(data@.skip(pos as int).len() == 0);
        return None;
    }
    let b0 = data[pos];
    assert(data@.skip(pos as int)[0] == b0);
    if !(48 <= b0 && b0 <= 57) {
        return None;
    }
    let mut val: u64 = 0;
    let mut cur: usize = pos;
    loop
        invariant
            n == data@.len(),
            pos <= cur <= n,
            pos < n,
            48 <= data@[pos as int] <= 57,
            parse_num(data@.skip(pos as int)) == parse_num_loop(data@.skip(cur as int), val as nat),
        decreases n - cur,
    {
        if cur == n {
            assert(data@.skip(cur as int).len() == 0);
            return Some((val, cur));
        }
        let b = data[cur];
        assert(data@.skip(cur as int)[0] == b);
        if 48 <= b && b <= 57 {
            let d = b - 48;
            let wide: u128 = (val as u128) * 10 + (d as u128);
            if wide > u64::MAX as u128 {
                return None;
            }
            proof {
                assert(data@.skip(cur as int).skip(1) =~= data@.skip(cur + 1 as int));
            }
            val = (wide) as u64;
            cur = cur + 1;
        } else {
            return Some((val, cur));
        }
    }
}

/// Parses the durable form back into accession-offset pairs, exactly as
/// [`parse_index`] describes: the strict frame, pairs in input order,
/// every key unique.
pub fn parse_index_bytes(data: &Vec<u8>) -> (r: Option<Vec<(Vec<u8>, u64)>>)
    ensures
        match parse_index(data@) {
            Some(es) => r matches Some(v) && kv_views(v@) == es && kv_unique(es),
            None => r is None,
        },
{
    let n = data.len();
    if n < 19 {
        return None;
    }
    let mut expected: Vec<u8> = Vec::new();
    push_json_prefix(&mut expected);
    let mut j: usize = 0;
    while j < 17
        invariant
            n == data@.len(),
            n >= 19,
            expected@ == json_prefix(),
            0 <= j <= 17,
            forall|a: int| 0 <= a < j ==> data@[a] == json_prefix()[a],
        decreases 17 - j,
    {
        if data[j] != expected[j] {
            assert(data@.take(17)[j as int] != json_prefix()[j as int]);
            return None;
        }
        j = j + 1;
    }
    assert(data@.take(17) =~= json_prefix());
    let b17 = data[17];
    assert(data@.skip(17)[0] == data@[17]);
    if b17 == RBRACE {
        if n == 19 && data[18] == RBRACE {
            let v: Vec<(Vec<u8>, u64)> = Vec::new();
            proof {
                assert(data@.skip(17).len() == 2);
                assert(data@.skip(17)[1] == data@[18]);
                assert(kv_views(v@) =~= Seq::<(Seq<u8>, u64)>::empty());
            }
            return Some(v);
        } else {
            proof {
                assert(data@.skip(17).len() == n - 17);
                if n == 19 {
                    assert(data@.skip(17)[1] == data@[18]);
                }
            }
            return None;
        }
    }
    let mut entries: Vec<(Vec<u8>, u64)> = Vec::new();
    let mut pos: usize = 17;
    proof {
        if parse_entries(data@.skip(17)) is Some {
            let parsed = parse_entries(data@.skip(17))->Some_0;
            assert(kv_views(entries@) + parsed.0 =~= parsed.0);
        }
    }
    loop
        invariant
            n == data@.len(),
            n >= 19,
            17 <= pos <= n,
            data@.take(17) == json_prefix(),
            data@[17] != RBRACE,
            kv_unique(kv_views(entries@)),
            match parse_entries(data@.skip(pos as int)) {
                Some(parsed) => parse_entries(data@.skip(17)) == Some(
                    (kv_views(entries@) + parsed.0, parsed.1),
                ),
                None => parse_entries(data@.skip(17)) is None,
            },
        decreases n - pos,
    {
        if pos == n {
            assert(data@.skip(pos as int).len() == 0);
            return None;
        }
        let b = data[pos];
        assert(data@.skip(pos as int)[0] == b);
        if b != QUOTE {
            return None;
        }
        assert(data@.skip(pos as int).skip(1) =~= data@.skip(pos + 1 as int));
        let (key, p1) = match parse_string_at(data, pos + 1) {
            None => {
                return None;
            },
            Some(kp) => kp,
        };
        if p1 == n {
            assert(data@.skip(p1 as int).len() == 0);
            return None;
        }
        let c = data[p1];
        assert(data@.skip(p1 as int)[0] == c);
        if c != COLON {
            return None;
        }
        assert(data@.skip(p1 as int).skip(1) =~= data@.skip(p1 + 1 as int));
        let (val, p2) = match parse_num_at(data, p1 + 1) {
            None => {
                return None;
            },
            Some(vp) => vp,
        };
        let ghost r2 = data@.skip(p2 as int);
        let has_comma = if p2 < n {
            let b2 = data[p2];
            assert(r2[0] == b2);
            b2 == COMMA
        } else {
            assert(r2.len() == 0);
            false
        };
        let dup = kv_find(&entries, &key);
        if dup.is_some() {
            proof {
                let pre = kv_views(entries@);
                let di = choose|di: int| 0 <= di < pre.len() && pre[di].0 == key@;
                if has_comma {
                    assert(r2.skip(1).len() < data@.skip(pos as int).len());
                    assert(r2.skip(1) =~= data@.skip(p2 + 1 as int));
                }
                if parse_entries(data@.skip(17)) is Some {
                    let full = parse_entries(data@.skip(17))->Some_0.0;
                    assert(full[pre.len() as int].0 == key@);
                    assert(full[di].0 == key@);
                    assert(!kv_unique(full));
                }
            }
            return None;
        }
        if has_comma {
            proof {
                assert(r2.skip(1).len() < data@.skip(pos as int).len());
                assert(r2.skip(1) =~= data@.skip(p2 + 1 as int));
                lemma_kv_unique_push(kv_views(entries@), key@, val);
            }
            let ghost pre = kv_views(entries@);
            entries.push((key, val));
            proof {
                assert(kv_views(entries@) =~= pre.push((entries@.last().0@, val)));
                if parse_entries(data@.skip(p2 + 1 as int)) is Some {
                    let tail = parse_entries(data@.skip(p2 + 1 as int))->Some_0;
                    assert(pre + (seq![(entries@.last().0@, val)] + tail.0) =~= kv_views(entries@)
                        + tail.0);
                }
            }
            pos = p2 + 1;
        } else {
            proof {
                assert(parse_entries(data@.skip(pos as int)) == Some(
                    (seq![(key@, val)], data@.skip(p2 as int)),
                ));
            }
            if n - p2 == 2 {
                let e0 = data[p2];
                let e1 = data[p2 + 1];
                proof {
                    assert(r2.len() == 2);
                    assert(r2[0] == e0);
                    assert(r2[1] == e1);
                }
                if e0 == RBRACE && e1 == RBRACE {
                    proof {
                        lemma_kv_unique_push(kv_views(entries@), key@, val);
                    }
                    let ghost pre = kv_views(entries@);
                    entries.push((key, val));
                    proof {
                        assert(kv_views(entries@) =~= pre.push((entries@.last().0@, val)));
                        assert(pre + seq![(entries@.last().0@, val)] =~= kv_views(entries@));
                    }
                    return Some(entries);
                } else {
                    return None;
                }
            } else {
                proof {
                    assert(r2.len() == n - p2);
                }
                return None;
            }
        }
    }
}

/// Parsing an escaped key followed by its closing quote recovers the key
/// and leaves the rest untouched.
proof fn lemma_parse_string_of_esc(k: Seq<u8>, rest: Seq<u8>)
    ensures
        parse_string(esc(k) + seq![QUOTE] + rest) == Some((k, rest)),
    decreases k.len(),
{
    let s = esc(k) + seq![QUOTE] + rest;
    if k.len() == 0 {
        assert(s =~= seq![QUOTE] + rest);
        assert(s[0] == QUOTE);
        assert(s.skip(1) =~= rest);
    } else {
        let t = k.skip(1);
        lemma_parse_string_of_esc(t, rest);
        if k[0] == QUOTE || k[0] == BACKSLASH {
            assert(esc(k) =~= seq![BACKSLASH, k[0]] + esc(t));
            assert(s[0] == BACKSLASH);
            assert(s[1] == k[0]);
            assert(s.len() >= 2);
            assert(s.skip(2) =~= esc(t) + seq![QUOTE] + rest);
            assert(seq![k[0]] + t =~= k);
        } else {
            assert(esc(k) =~= seq![k[0]] + esc(t));
            assert(s[0] == k[0]);
            assert(s.skip(1) =~= esc(t) + seq![QUOTE] + rest);
            assert(seq![k[0]] + t =~= k);
        }
    }
}

/// The value of a digit run read most significant first onto `acc`.
spec fn digits_val(ds: Seq<u8>, acc: nat) -> nat
    decreases ds.len(),
{
    if ds.len() == 0 {
        acc
    } else {
        digits_val(ds.skip(1), acc * 10 + (ds[0] - 48) as nat)
    }
}

/// Reading digits never shrinks the accumulator.
proof fn lemma_digits_val_lower(ds: Seq<u8>, acc: nat)
    ensures
        digits_val(ds, acc) >= acc,
    decreases ds.len(),
{
    if ds.len() > 0 {
        let next = acc * 10 + (ds[0] - 48) as nat;
        assert(acc * 10 + (ds[0] - 48) as nat >= acc);
        lemma_digits_val_lower(ds.skip(1), next);
    }
}

/// Reading a concatenation reads the first part, then the second.
proof fn lemma_digits_val_append(a: Seq<u8>, b: Seq<u8>, acc: nat)
    ensures
        digits_val(a + b, acc) == digits_val(b, digits_val(a, acc)),
    decreases a.len(),
{
    if a.len() == 0 {
        assert(a + b =~= b);
    } else {
        assert((a + b).skip(1) =~= a.skip(1) + b);
        lemma_digits_val_append(a.skip(1), b, acc * 10 + ((a + b)[0] - 48) as nat);
    }
}

/// The decimal digits of `v` are digits and read back as `v`.
proof fn lemma_dec_rep_val(v: nat)
    ensures
        dec_rep(v).len() >= 1,
        forall|i: int| 0 <= i < dec_rep(v).len() ==> is_digit(#[trigger] dec_rep(v)[i]),
        digits_val(dec_rep(v), 0) == v,
    decreases v,
{
    if v < 10 {
        assert(dec_rep(v) =~= seq![(48 + v) as u8]);
        assert(dec_rep(v).skip(1) =~= Seq::<u8>::empty());
        assert((48 + v) as u8 == 48 + v);
        assert(digits_val(dec_rep(v), 0) == digits_val(dec_rep(v).skip(1), v));
    } else {
        lemma_dec_rep_val(v / 10);
        let d = (48 + v % 10) as u8;
        assert(d == 48 + v % 10);
        assert(dec_rep(v) == dec_rep(v / 10) + seq![d]);
        assert forall|i: int| 0 <= i < dec_rep(v).len() implies is_digit(
            #[trigger] dec_rep(v)[i],
        ) by {
            if i < dec_rep(v / 10).len() {
                assert(dec_rep(v)[i] == dec_rep(v / 10)[i]);
            } else {
                assert(dec_rep(v)[i] == d);
            }
        }
        lemma_digits_val_append(dec_rep(v / 10), seq![d], 0);
        assert(seq![d].skip(1) =~= Seq::<u8>::empty());
        assert(seq![d][0] == d);
        assert(digits_val(seq![d], v / 10) == digits_val(
            seq![d].skip(1),
            (v / 10) * 10 + (d - 48) as nat,
        ));
        assert(digits_val(seq![d], v / 10) == (v / 10) * 10 + v % 10);
        vstd::arithmetic::div_mod::lemma_fundamental_div_mod(v as int, 10);
    }
}

/// Parsing a digit run followed by a non-digit accumulates its value.
proof fn lemma_parse_num_loop_digits(ds: Seq<u8>, acc: nat, rest: Seq<u8>)
    requires
        forall|i: int| 0 <= i < ds.len() ==> is_digit(#[trigger] ds[i]),
        rest.len() == 0 || !is_digit(rest[0]),
        digits_val(ds, acc) <= u64::MAX,
    ensures
        parse_num_loop(ds + rest, acc) == Some(((digits_val(ds, acc)) as u64, rest)),
    decreases ds.len(),
{
    let s = ds + rest;
    if ds.len() == 0 {
        assert(s =~= rest);
    } else {
        assert(s[0] == ds[0]);
        let next = acc * 10 + (ds[0] - 48) as nat;
        assert(digits_val(ds, acc) == digits_val(ds.skip(1), next));
        lemma_digits_val_lower(ds.skip(1), next);
        assert(next <= u64::MAX);
        assert(s.skip(1) =~= ds.skip(1) + rest);
        lemma_parse_num_loop_digits(ds.skip(1), next, rest);
    }
}

/// Parsing the decimal form of `v` followed by a non-digit yields `v`.
proof fn lemma_parse_num_of_dec(v: u64, rest: Seq<u8>)
    requires
        rest.len() == 0 || !is_digit(rest[0]),
    ensures
        parse_num(dec_rep(v as nat) + rest) == Some((v, rest)),
{
    lemma_dec_rep_val(v as nat);
    let s = dec_rep(v as nat) + rest;
    assert(s[0] == dec_rep(v as nat)[0]);
    lemma_parse_num_loop_digits(dec_rep(v as nat), 0, rest);
}

/// Parsing serialized pairs followed by a closing brace recovers the
/// pairs and leaves the rest untouched.
proof fn lemma_parse_entries_of_ser(es: Seq<(Seq<u8>, u64)>, rest: Seq<u8>)
    requires
        es.len() >= 1,
        rest.len() >= 1,
        rest[0] == RBRACE,
    ensures
        parse_entries(ser_entries(es) + rest) == Some((es, rest)),
    decreases es.len(),
{
    let s = ser_entries(es) + rest;
    let k = es[0].0;
    let v = es[0].1;
    assert(es[0] == (k, v));
    if es.len() == 1 {
        assert(ser_entries(es) == ser_entry(es[0]));
        let rest2 = seq![COLON] + (dec_rep(v as nat) + rest);
        assert(s =~= seq![QUOTE] + (esc(k) + seq![QUOTE] + rest2));
        assert(s[0] == QUOTE);
        assert(s.skip(1) =~= esc(k) + seq![QUOTE] + rest2);
        lemma_parse_string_of_esc(k, rest2);
        assert(rest2[0] == COLON);
        assert(rest2.skip(1) =~= dec_rep(v as nat) + rest);
        lemma_parse_num_of_dec(v, rest);
        assert(seq![(k, v)] =~= es);
    } else {
        assert(ser_entries(es) == ser_entry(es[0]) + seq![COMMA] + ser_entries(es.skip(1)));
        let tail = ser_entries(es.skip(1)) + rest;
        let rest2 = seq![COLON] + (dec_rep(v as nat) + (seq![COMMA] + tail));
        assert(s =~= seq![QUOTE] + (esc(k) + seq![QUOTE] + rest2));
        assert(s[0] == QUOTE);
        assert(s.skip(1) =~= esc(k) + seq![QUOTE] + rest2);
        lemma_parse_string_of_esc(k, rest2);
        assert(rest2[0] == COLON);
        assert(rest2.skip(1) =~= dec_rep(v as nat) + (seq![COMMA] + tail));
        lemma_parse_num_of_dec(v, seq![COMMA] + tail);
        let r2 = seq![COMMA] + tail;
        assert(r2[0] == COMMA);
        assert(r2.skip(1) =~= tail);
        assert(r2.skip(1).len() < s.len());
        lemma_parse_entries_of_ser(es.skip(1), rest);
        assert(seq![(k, v)] + es.skip(1) =~= es);
    }
}

/// Round trip: parsing the durable form of any offset index with unique
/// keys yields exactly its pairs, in order.
pub proof fn lemma_index_round_trip(es: Seq<(Seq<u8>, u64)>)
    requires
        kv_unique(es),
    ensures
        parse_index(ser_index(es)) == Some(es),
{
    let s = ser_index(es);
    assert(s.len() >= 19);
    assert(s.take(17) =~= json_prefix());
    let r = s.skip(17);
    assert(r =~= ser_entries(es) + seq![RBRACE, RBRACE]);
    if es.len() == 0 {
        assert(r =~= seq![RBRACE, RBRACE]);
        assert(parse_index(s) == Some(Seq::<(Seq<u8>, u64)>::empty()));
        assert(Seq::<(Seq<u8>, u64)>::empty() =~= es);
    } else {
        assert(ser_entries(es)[0] == QUOTE) by {
            if es.len() == 1 {
                assert(ser_entries(es) == ser_entry(es[0]));
            }
            assert(ser_entry(es[0])[0] == QUOTE);
        }
        assert(r[0] == QUOTE);
        lemma_parse_entries_of_ser(es, seq![RBRACE, RBRACE]);
        assert(parse_entries(r) == Some((es, seq![RBRACE, RBRACE])));
    }
}

/// Writes the opening frame.
pub fn push_json_prefix(out: &mut Vec<u8>)
    ensures
        final(out)@ == old(out)@ + json_prefix(),
{
    out.push(123);
    out.push(34);
    out.push(105);
    out.push(100);
    out.push(95);
    out.push(116);
    out.push(111);
    out.push(95);
    out.push(111);
    out.push(102);
    out.push(102);
    out.push(115);
    out.push(101);
    out.push(116);
    out.push(34);
    out.push(58);
    out.push(123);
    assert(out@ =~= old(out)@ + json_prefix());
}

/// Writes `k` with `"` and `\` escaped.
pub fn push_escaped(out: &mut Vec<u8>, k: &Vec<u8>)
    ensures
        final(out)@ == old(out)@ + esc(k@),
{
    let ghost out0 = out@;
    let n = k.len();
    let mut i: usize = 0;
    proof {
        assert(k@.take(0) =~= Seq::<u8>::empty());
        assert(out@ =~= out0 + esc(k@.take(0)));
    }
    while i < n
        invariant
            n == k@.len(),
            0 <= i <= n,
            out@ == out0 + esc(k@.take(i as int)),
        decreases n - i,
    {
        let b = k[i];
        proof {
            assert(k@.take(i + 1 as int) =~= k@.take(i as int) + seq![k@[i as int]]);
            lemma_esc_append(k@.take(i as int), seq![k@[i as int]]);
            assert(seq![k@[i as int]].skip(1) =~= Seq::<u8>::empty());
            assert(esc(Seq::<u8>::empty()) == Seq::<u8>::empty());
        }
        if b == QUOTE || b == BACKSLASH {
            assert(esc(seq![k@[i as int]]) =~= seq![BACKSLASH, k@[i as int]]);
            out.push(BACKSLASH);
            out.push(b);
            assert(out@ =~= out0 + esc(k@.take(i + 1 as int)));
        } else {
            assert(esc(seq![k@[i as int]]) =~= seq![k@[i as int]]);
            out.push(b);
            assert(out@ =~= out0 + esc(k@.take(i + 1 as int)));
        }
        i = i + 1;
    }
    assert(k@.take(n as int) =~= k@);
}

/// Writes `v` in decimal.
pub fn push_decimal(out: &mut Vec<u8>, v: u64)
    ensures
        final(out)@ == old(out)@ + dec_rep(v as nat),
    decreases v,
{
    if v < 10 {
        out.push(48 + v as u8);
        assert(out@ =~= old(out)@ + dec_rep(v as nat));
    } else {
        push_decimal(out, v / 10);
        out.push((48 + v % 10) as u8);
        assert(out@ =~= old(out)@ + dec_rep(v as nat));
    }
}

/// Serializes the pairs of an index, in order, into the durable form.
pub fn ser_index_bytes(entries: &Vec<(Vec<u8>, u64)>) -> (out: Vec<u8>)
    ensures
        out@ == ser_index(kv_views(entries@)),
{
    let ghost es = kv_views(entries@);
    let mut out: Vec<u8> = Vec::new();
    push_json_prefix(&mut out);
    assert(out@ =~= json_prefix());
    let n = entries.len();
    let mut i: usize = 0;
    while i < n
        invariant
            n == entries@.len(),
            es == kv_views(entries@),
            0 <= i <= n,
            out@ == json_prefix() + ser_entries(es.take(i as int)),
        decreases n - i,
    {
        proof {
            assert(es.take(i + 1 as int) =~= es.take(i as int).push(es[i as int]));
        }
        if i > 0 {
            out.push(COMMA);
            proof {
                lemma_ser_entries_snoc(es.take(i as int), es[i as int]);
            }
        } else {
            assert(es.take(1) =~= seq![es[0]]);
        }
        out.push(QUOTE);
        push_escaped(&mut out, &entries[i].0);
        out.push(QUOTE);
        out.push(COLON);
        push_decimal(&mut out, entries[i].1);
        proof {
            assert(es[i as int] == (entries@[i as int].0@, entries@[i as int].1));
            assert(out@ =~= json_prefix() + ser_entries(es.take(i + 1 as int)));
        }
        i = i + 1;
    }
    out.push(RBRACE);
    out.push(RBRACE);
    proof {
        assert(es.take(n as int) =~= es);
        assert(out@ =~= ser_index(es));
    }
    out
}

} // verus!
