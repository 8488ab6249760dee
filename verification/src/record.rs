//! The record codec: a flat byte buffer holding `key=value` entries
//! separated by `;`.
//!
//! The mathematical model treats a record as the sequence of its nonempty
//! `;`-separated segments ([`record_entries`]); an entry's key is what
//! precedes its first `=`.  Every mutation splits the record into entries,
//! transforms the entry list, and joins it back, so each mutation's
//! contract is stated as an exact entry-list transformation together with
//! the key lookups it implies.  Keys and values must not contain the
//! delimiter bytes; this is an accepted format limitation.

use vstd::prelude::*;

verus! {

/// The entry delimiter `;`.
pub const SEP_BYTE: u8 = 59;

/// The key/value separator `=`.
pub const EQ_BYTE: u8 = 61;

/// Index of the first occurrence of `b` in `s`, or `s.len()` if absent.
pub open spec fn first_at(s: Seq<u8>, b: u8) -> int
    decreases s.len(),
{
    if s.len() == 0 {
        0
    } else if s[0] == b {
        0
    } else {
        1 + first_at(s.skip(1), b)
    }
}

/// [`first_at`] is in bounds, lands on `b`, and nothing before it is `b`.
pub proof fn lemma_first_at(s: Seq<u8>, b: u8)
    ensures
        0 <= first_at(s, b) <= s.len(),
        first_at(s, b) < s.len() ==> s[first_at(s, b)] == b,
        forall|j: int| 0 <= j < first_at(s, b) ==> s[j] != b,
    decreases s.len(),
{
    if s.len() > 0 && s[0] != b {
        lemma_first_at(s.skip(1), b);
        let f = first_at(s, b);
        assert forall|j: int| 0 <= j < f implies s[j] != b by {
            if j > 0 {
                assert(s.skip(1)[j - 1] == s[j]);
            }
        }
        if f < s.len() {
            assert(s.skip(1)[f - 1] == s[f]);
        }
    }
}

/// A position that is `b` (or the end) with no `b` before it is where
/// [`first_at`] points.
pub proof fn lemma_first_at_is(s: Seq<u8>, b: u8, k: int)
    requires
        0 <= k <= s.len(),
        k < s.len() ==> s[k] == b,
        forall|j: int| 0 <= j < k ==> s[j] != b,
    ensures
        first_at(s, b) == k,
{
    lemma_first_at(s, b);
}

/// The entries of a record: its `;`-separated segments, empty segments
/// dropped, in order.
pub open spec fn record_entries(data: Seq<u8>) -> Seq<Seq<u8>>
    decreases data.len(),
{
    if data.len() == 0 {
        Seq::empty()
    } else {
        let f = first_at(data, SEP_BYTE);
        let i = if 0 <= f <= data.len() {
            f
        } else {
            data.len() as int
        };
        if i == data.len() {
            seq![data]
        } else {
            let rest = record_entries(data.skip(i + 1));
            if i == 0 {
                rest
            } else {
                seq![data.take(i)] + rest
            }
        }
    }
}

/// One unfolding of [`record_entries`], with the delimiter position named.
pub proof fn lemma_record_entries_step(data: Seq<u8>)
    requires
        data.len() > 0,
    ensures
        ({
            let i = first_at(data, SEP_BYTE);
            &&& 0 <= i <= data.len()
            &&& (i == data.len() ==> record_entries(data) == seq![data])
            &&& (i < data.len() && i == 0 ==> record_entries(data) == record_entries(
                data.skip(1),
            ))
            &&& (0 < i < data.len() ==> record_entries(data) == seq![data.take(i)]
                + record_entries(data.skip(i + 1)))
        }),
{
    lemma_first_at(data, SEP_BYTE);
}

/// A well-formed entry: nonempty, and free of the entry delimiter.
pub open spec fn wf_entry(e: Seq<u8>) -> bool {
    e.len() > 0 && forall|i: int| 0 <= i < e.len() ==> #[trigger] e[i] != SEP_BYTE
}

/// Every entry of the list is well formed.
pub open spec fn all_wf(es: Seq<Seq<u8>>) -> bool {
    forall|k: int| 0 <= k < es.len() ==> wf_entry(#[trigger] es[k])
}

/// The entries parsed out of any record are well formed.
pub proof fn lemma_record_entries_wf(data: Seq<u8>)
    ensures
        all_wf(record_entries(data)),
    decreases data.len(),
{
    if data.len() > 0 {
        lemma_record_entries_step(data);
        lemma_first_at(data, SEP_BYTE);
        let i = first_at(data, SEP_BYTE);
        if i == data.len() {
            assert(wf_entry(data));
        } else {
            lemma_record_entries_wf(data.skip(i + 1));
            if i > 0 {
                assert(wf_entry(data.take(i)));
                assert forall|k: int|
                    0 <= k < record_entries(data).len() implies wf_entry(
                    #[trigger] record_entries(data)[k],
                ) by {
                    if k > 0 {
                        assert(record_entries(data)[k] == record_entries(data.skip(i + 1))[k - 1]);
                    }
                }
            }
        }
    }
}

/// The key of an entry: the bytes before its first `=`, or `None` if the
/// entry has no `=` at all.
pub open spec fn entry_key(e: Seq<u8>) -> Option<Seq<u8>> {
    if 0 <= first_at(e, EQ_BYTE) < e.len() {
        Some(e.take(first_at(e, EQ_BYTE)))
    } else {
        None
    }
}

/// The value of an entry: the bytes after its first `=`.  Meaningful only
/// when [`entry_key`] is `Some`.
pub open spec fn entry_val(e: Seq<u8>) -> Seq<u8> {
    e.skip(first_at(e, EQ_BYTE) + 1)
}

/// Serialized form of a `key=value` entry.
pub open spec fn entry_of(key: Seq<u8>, value: Seq<u8>) -> Seq<u8> {
    key + seq![EQ_BYTE] + value
}

/// A usable key: free of both delimiter bytes.
pub open spec fn clean_key(key: Seq<u8>) -> bool {
    forall|i: int|
        0 <= i < key.len() ==> #[trigger] key[i] != SEP_BYTE && #[trigger] key[i] != EQ_BYTE
}

/// A usable value: free of the entry delimiter.
pub open spec fn clean_value(v: Seq<u8>) -> bool {
    forall|i: int| 0 <= i < v.len() ==> #[trigger] v[i] != SEP_BYTE
}

/// A serialized entry parses back into its key and value.
pub proof fn lemma_entry_of(key: Seq<u8>, value: Seq<u8>)
    requires
        forall|i: int| 0 <= i < key.len() ==> #[trigger] key[i] != EQ_BYTE,
    ensures
        entry_key(entry_of(key, value)) == Some(key),
        entry_val(entry_of(key, value)) == value,
        clean_key(key) && clean_value(value) ==> wf_entry(entry_of(key, value)),
{
    let e = entry_of(key, value);
    assert(e[key.len() as int] == EQ_BYTE);
    lemma_first_at_is(e, EQ_BYTE, key.len() as int);
    assert(e.take(key.len() as int) =~= key);
    assert(e.skip(key.len() as int + 1) =~= value);
}

/// First value stored under `key` in the entry list, front to back.
pub open spec fn lookup_in(es: Seq<Seq<u8>>, key: Seq<u8>) -> Option<Seq<u8>>
    decreases es.len(),
{
    if es.len() == 0 {
        None
    } else if entry_key(es[0]) == Some(key) {
        Some(entry_val(es[0]))
    } else {
        lookup_in(es.skip(1), key)
    }
}

/// Some entry of the list carries `key`.
pub open spec fn has_key(es: Seq<Seq<u8>>, key: Seq<u8>) -> bool {
    lookup_in(es, key) is Some
}

/// The value stored under `key` in a record, or `None`.
pub open spec fn lookup(data: Seq<u8>, key: Seq<u8>) -> Option<Seq<u8>> {
    lookup_in(record_entries(data), key)
}

/// Lookup over concatenated entry lists: the front list wins.
pub proof fn lemma_lookup_in_append(a: Seq<Seq<u8>>, b: Seq<Seq<u8>>, key: Seq<u8>)
    ensures
        lookup_in(a + b, key) == if lookup_in(a, key) is Some {
            lookup_in(a, key)
        } else {
            lookup_in(b, key)
        },
    decreases a.len(),
{
    if a.len() == 0 {
        assert(a + b =~= b);
    } else {
        assert((a + b)[0] == a[0]);
        assert((a + b).skip(1) =~= a.skip(1) + b);
        lemma_lookup_in_append(a.skip(1), b, key);
    }
}

/// The serialized record: the entries joined with the delimiter.
pub open spec fn joined(es: Seq<Seq<u8>>) -> Seq<u8>
    decreases es.len(),
{
    if es.len() == 0 {
        Seq::empty()
    } else if es.len() == 1 {
        es[0]
    } else {
        es[0] + seq![SEP_BYTE] + joined(es.skip(1))
    }
}

/// Appending an entry appends a delimiter and the entry's bytes.
pub proof fn lemma_joined_push(es: Seq<Seq<u8>>, e: Seq<u8>)
    ensures
        joined(es.push(e)) == if es.len() == 0 {
            e
        } else {
            joined(es) + seq![SEP_BYTE] + e
        },
    decreases es.len(),
{
    if es.len() == 0 {
        assert(es.push(e) =~= seq![e]);
        assert(joined(seq![e]) == e);
    } else if es.len() == 1 {
        assert(es.push(e)[0] == es[0]);
        assert(es.push(e).skip(1) =~= seq![e]);
        assert(joined(seq![e]) == e);
    } else {
        assert(es.push(e)[0] == es[0]);
        assert(es.push(e).skip(1) =~= es.skip(1).push(e));
        lemma_joined_push(es.skip(1), e);
    }
}

/// Round trip: parsing a join of well-formed entries gives them back.
pub proof fn lemma_entries_of_joined(es: Seq<Seq<u8>>)
    requires
        all_wf(es),
    ensures
        record_entries(joined(es)) =~= es,
    decreases es.len(),
{
    if es.len() == 0 {
    } else if es.len() == 1 {
        let d = joined(es);
        assert(d == es[0]);
        lemma_first_at_is(d, SEP_BYTE, d.len() as int);
        lemma_record_entries_step(d);
    } else {
        let d = joined(es);
        let e0 = es[0];
        let rest = joined(es.skip(1));
        assert(d == e0 + seq![SEP_BYTE] + rest);
        assert(d[e0.len() as int] == SEP_BYTE);
        assert forall|j: int| 0 <= j < e0.len() implies d[j] != SEP_BYTE by {
            assert(d[j] == e0[j]);
        }
        lemma_first_at_is(d, SEP_BYTE, e0.len() as int);
        lemma_record_entries_step(d);
        assert(d.take(e0.len() as int) =~= e0);
        assert(d.skip(e0.len() as int + 1) =~= rest);
        assert(all_wf(es.skip(1))) by {
            assert(forall|k: int|
                0 <= k < es.skip(1).len() ==> es.skip(1)[k] == es[k + 1]);
        }
        lemma_entries_of_joined(es.skip(1));
        assert(es.skip(1).len() >= 1);
        assert(rest.len() >= 1) by {
            if es.skip(1).len() == 1 {
                assert(rest == es.skip(1)[0]);
            }
        }
        assert(record_entries(d) =~= seq![e0] + es.skip(1));
        assert(seq![e0] + es.skip(1) =~= es);
    }
}

/// Rewrite every entry carrying `key` to hold `value`; all else unchanged.
pub open spec fn rewrite_all(es: Seq<Seq<u8>>, key: Seq<u8>, value: Seq<u8>) -> Seq<Seq<u8>> {
    Seq::new(
        es.len(),
        |k: int|
            if entry_key(es[k]) == Some(key) {
                entry_of(key, value)
            } else {
                es[k]
            },
    )
}

/// Remove every entry carrying `key`, keeping the rest in order.
pub open spec fn drop_key(es: Seq<Seq<u8>>, key: Seq<u8>) -> Seq<Seq<u8>>
    decreases es.len(),
{
    if es.len() == 0 {
        Seq::empty()
    } else if entry_key(es[0]) == Some(key) {
        drop_key(es.skip(1), key)
    } else {
        seq![es[0]] + drop_key(es.skip(1), key)
    }
}

/// Rewrite if the key is present, append a fresh entry otherwise.
pub open spec fn upsert(es: Seq<Seq<u8>>, key: Seq<u8>, value: Seq<u8>) -> Seq<Seq<u8>> {
    if has_key(es, key) {
        rewrite_all(es, key, value)
    } else {
        es.push(entry_of(key, value))
    }
}

/// What [`rewrite_all`] does to lookups: the rewritten key now maps to
/// `value` (where present before), every other key is untouched.
pub proof fn lemma_lookup_rewrite(es: Seq<Seq<u8>>, key: Seq<u8>, value: Seq<u8>, q: Seq<u8>)
    requires
        forall|i: int| 0 <= i < key.len() ==> #[trigger] key[i] != EQ_BYTE,
    ensures
        lookup_in(rewrite_all(es, key, value), q) == if q == key {
            if has_key(es, key) {
                Some(value)
            } else {
                None
            }
        } else {
            lookup_in(es, q)
        },
    decreases es.len(),
{
    lemma_entry_of(key, value);
    if es.len() > 0 {
        let r = rewrite_all(es, key, value);
        assert(r.skip(1) =~= rewrite_all(es.skip(1), key, value));
        lemma_lookup_rewrite(es.skip(1), key, value, q);
    }
}

/// What [`drop_key`] does to lookups: the dropped key is gone, every
/// other key is untouched.
pub proof fn lemma_lookup_drop(es: Seq<Seq<u8>>, key: Seq<u8>, q: Seq<u8>)
    ensures
        lookup_in(drop_key(es, key), key) is None,
        q != key ==> lookup_in(drop_key(es, key), q) == lookup_in(es, q),
    decreases es.len(),
{
    if es.len() > 0 {
        lemma_lookup_drop(es.skip(1), key, q);
        if entry_key(es[0]) != Some(key) {
            let d = drop_key(es, key);
            assert(d[0] == es[0]);
            assert(d.skip(1) =~= drop_key(es.skip(1), key));
        }
    }
}

/// [`rewrite_all`] preserves entry well-formedness.
pub proof fn lemma_rewrite_wf(es: Seq<Seq<u8>>, key: Seq<u8>, value: Seq<u8>)
    requires
        all_wf(es),
        clean_key(key),
        clean_value(value),
    ensures
        all_wf(rewrite_all(es, key, value)),
{
    lemma_entry_of(key, value);
    assert forall|k: int|
        0 <= k < rewrite_all(es, key, value).len() implies wf_entry(
        #[trigger] rewrite_all(es, key, value)[k],
    ) by {
        assert(wf_entry(es[k]));
    }
}

/// [`drop_key`] preserves entry well-formedness.
pub proof fn lemma_drop_wf(es: Seq<Seq<u8>>, key: Seq<u8>)
    requires
        all_wf(es),
    ensures
        all_wf(drop_key(es, key)),
    decreases es.len(),
{
    if es.len() > 0 {
        assert(all_wf(es.skip(1))) by {
            assert(forall|k: int|
                0 <= k < es.skip(1).len() ==> es.skip(1)[k] == es[k + 1]);
        }
        lemma_drop_wf(es.skip(1), key);
        if entry_key(es[0]) != Some(key) {
            let d = drop_key(es, key);
            assert forall|k: int| 0 <= k < d.len() implies wf_entry(#[trigger] d[k]) by {
                if k == 0 {
                    assert(d[0] == es[0]);
                } else {
                    assert(d[k] == drop_key(es.skip(1), key)[k - 1]);
                }
            }
        }
    }
}

/// Appending a well-formed entry preserves well-formedness.
pub proof fn lemma_push_wf(es: Seq<Seq<u8>>, e: Seq<u8>)
    requires
        all_wf(es),
        wf_entry(e),
    ensures
        all_wf(es.push(e)),
{
    assert forall|k: int| 0 <= k < es.push(e).len() implies wf_entry(#[trigger] es.push(e)[k]) by {
        if k < es.len() {
            assert(es.push(e)[k] == es[k]);
        }
    }
}


/// Views of a list of byte vectors, as a list of byte sequences.
pub open spec fn views(s: Seq<Vec<u8>>) -> Seq<Seq<u8>> {
    Seq::new(s.len(), |i: int| s[i]@)
}

/// A key is present exactly when some entry carries it.
pub proof fn lemma_has_key_exists(es: Seq<Seq<u8>>, key: Seq<u8>)
    ensures
        has_key(es, key) <==> exists|j: int|
            0 <= j < es.len() && entry_key(#[trigger] es[j]) == Some(key),
    decreases es.len(),
{
    if es.len() > 0 {
        lemma_has_key_exists(es.skip(1), key);
        if entry_key(es[0]) == Some(key) {
        } else if has_key(es, key) {
            let j0 = choose|j: int|
                0 <= j < es.skip(1).len() && entry_key(#[trigger] es.skip(1)[j]) == Some(key);
            assert(entry_key(es[j0 + 1]) == Some(key));
        } else {
            assert forall|j: int|
                0 <= j < es.len() implies entry_key(#[trigger] es[j]) != Some(key) by {
                if j > 0 {
                    assert(es[j] == es.skip(1)[j - 1]);
                }
            }
        }
    }
}

/// [`drop_key`] over an extension by one entry.
pub proof fn lemma_drop_key_push(es: Seq<Seq<u8>>, e: Seq<u8>, key: Seq<u8>)
    ensures
        drop_key(es.push(e), key) == if entry_key(e) == Some(key) {
            drop_key(es, key)
        } else {
            drop_key(es, key) + seq![e]
        },
    decreases es.len(),
{
    if es.len() == 0 {
        assert(es.push(e) =~= seq![e]);
        assert(seq![e].skip(1) =~= Seq::<Seq<u8>>::empty());
        assert(drop_key(Seq::<Seq<u8>>::empty(), key) =~= Seq::<Seq<u8>>::empty());
        if entry_key(e) == Some(key) {
            assert(drop_key(es, key) =~= Seq::<Seq<u8>>::empty());
        } else {
            assert(drop_key(es, key) + seq![e] =~= seq![e]);
        }
    } else {
        assert(es.push(e)[0] == es[0]);
        assert(es.push(e).skip(1) =~= es.skip(1).push(e));
        lemma_drop_key_push(es.skip(1), e, key);
        if entry_key(es[0]) != Some(key) && entry_key(e) != Some(key) {
            assert(seq![es[0]] + (drop_key(es.skip(1), key) + seq![e]) =~= (seq![es[0]]
                + drop_key(es.skip(1), key)) + seq![e]);
        }
    }
}

/// Scan `data[from..to]` for the first occurrence of `b`.
/// Returns its index, or `to` if absent.
pub fn scan_byte_to(data: &[u8], from: usize, to: usize, b: u8) -> (r: usize)
    requires
        from <= to <= data@.len(),
    ensures
        from <= r <= to,
        forall|j: int| from <= j < r ==> data@[j] != b,
        r < to ==> data@[r as int] == b,
    decreases to - from,
{
    let mut i = from;
    while i < to
        invariant
            from <= i <= to <= data@.len(),
            forall|j: int| from <= j < i ==> data@[j] != b,
        decreases to - i,
    {
        if data[i] == b {
            return i;
        }
        i = i + 1;
    }
    i
}

/// Compare `data[from..to]` with `other` byte for byte.
pub fn range_eq(data: &[u8], from: usize, to: usize, other: &[u8]) -> (r: bool)
    requires
        from <= to <= data@.len(),
    ensures
        r <==> data@.subrange(from as int, to as int) == other@,
{
    if to - from != other.len() {
        proof {
            assert(data@.subrange(from as int, to as int).len() != other@.len());
        }
        return false;
    }
    let mut i: usize = 0;
    while i < other.len()
        invariant
            from <= to <= data@.len(),
            to - from == other@.len(),
            0 <= i <= other@.len(),
            forall|j: int| 0 <= j < i ==> data@[from + j] == other@[j],
        decreases other@.len() - i,
    {
        if data[from + i] != other[i] {
            proof {
                assert(data@.subrange(from as int, to as int)[i as int] == data@[from + i]);
            }
            return false;
        }
        i = i + 1;
    }
    proof {
        assert(data@.subrange(from as int, to as int) =~= other@);
    }
    true
}

/// Find the value for `key` in the record, scanning front to back.
/// Returns the byte slice of the value, or `None` if the key is absent.
pub fn find_value<'a>(data: &'a [u8], key: &[u8]) -> (r: Option<&'a [u8]>)
    ensures
        r is Some <==> lookup(data@, key@) is Some,
        r is Some ==> r->0@ == lookup(data@, key@)->0,
{
    let mut pos: usize = 0;
    proof {
        assert(data@.skip(0) =~= data@);
    }
    while pos < data.len()
        invariant
            0 <= pos <= data@.len(),
            lookup(data@, key@) == lookup_in(record_entries(data@.skip(pos as int)), key@),
        decreases data@.len() - pos,
    {
        let ghost s = data@.skip(pos as int);
        let end = scan_byte_to(data, pos, data.len(), SEP_BYTE);
        proof {
            assert forall|j: int| 0 <= j < end - pos implies s[j] != SEP_BYTE by {
                assert(s[j] == data@[pos + j]);
            }
            if (end as int) < data@.len() {
                assert(s[end - pos] == data@[end as int]);
            }
            lemma_first_at_is(s, SEP_BYTE, end - pos);
            lemma_record_entries_step(s);
        }
        if end > pos {
            let ghost e = data@.subrange(pos as int, end as int);
            let ghost rest = if end < data@.len() {
                record_entries(data@.skip(end + 1))
            } else {
                Seq::<Seq<u8>>::empty()
            };
            proof {
                assert(s.take(end - pos) =~= e);
                if (end as int) < data@.len() {
                    assert(s.skip(end - pos + 1) =~= data@.skip(end + 1));
                    assert(record_entries(s) == seq![e] + rest);
                } else {
                    assert(record_entries(s) == seq![e]);
                    assert(seq![e] + rest =~= seq![e]);
                    assert(record_entries(s) == seq![e] + rest);
                }
                assert((seq![e] + rest)[0] == e);
                assert((seq![e] + rest).skip(1) =~= rest);
            }
            let q = scan_byte_to(data, pos, end, EQ_BYTE);
            proof {
                assert forall|j: int| 0 <= j < q - pos implies e[j] != EQ_BYTE by {
                    assert(e[j] == data@[pos + j]);
                }
                if q < end {
                    assert(e[q - pos] == data@[q as int]);
                }
                lemma_first_at_is(e, EQ_BYTE, q - pos);
            }
            if q < end {
                if range_eq(data, pos, q, key) {
                    proof {
                        assert(e.take(q - pos) =~= data@.subrange(pos as int, q as int));
                        assert(entry_key(e) == Some(key@));
                        assert(entry_val(e) =~= data@.subrange(q + 1, end as int));
                    }
                    return Some(vstd::slice::slice_subrange(data, q + 1, end));
                }
                proof {
                    assert(e.take(q - pos) =~= data@.subrange(pos as int, q as int));
                    assert(entry_key(e) != Some(key@));
                }
            } else {
                proof {
                    assert(entry_key(e) is None);
                }
            }
            proof {
                assert(lookup_in(record_entries(s), key@) == lookup_in(rest, key@));
            }
        } else {
            proof {
                assert(record_entries(s) == record_entries(s.skip(1)));
                if (end as int) < data@.len() {
                    assert(s.skip(1) =~= data@.skip(end + 1));
                }
            }
        }
        if end == data.len() {
            pos = end;
            proof {
                assert(data@.skip(pos as int).len() == 0);
                assert(lookup_in(record_entries(data@.skip(pos as int)), key@) is None);
            }
        } else {
            pos = end + 1;
        }
    }
    proof {
        assert(data@.skip(pos as int).len() == 0);
    }
    None
}

/// Split a record into its entries, each as a fresh byte vector.
pub fn split_record(data: &[u8]) -> (r: Vec<Vec<u8>>)
    ensures
        views(r@) == record_entries(data@),
        all_wf(views(r@)),
{
    let mut entries: Vec<Vec<u8>> = Vec::new();
    let mut pos: usize = 0;
    proof {
        assert(data@.skip(0) =~= data@);
        assert(views(entries@) + record_entries(data@) =~= record_entries(data@));
    }
    while pos < data.len()
        invariant
            0 <= pos <= data@.len(),
            views(entries@) + record_entries(data@.skip(pos as int)) =~= record_entries(data@),
        decreases data@.len() - pos,
    {
        let ghost s = data@.skip(pos as int);
        let end = scan_byte_to(data, pos, data.len(), SEP_BYTE);
        proof {
            assert forall|j: int| 0 <= j < end - pos implies s[j] != SEP_BYTE by {
                assert(s[j] == data@[pos + j]);
            }
            if (end as int) < data@.len() {
                assert(s[end - pos] == data@[end as int]);
            }
            lemma_first_at_is(s, SEP_BYTE, end - pos);
            lemma_record_entries_step(s);
        }
        if end > pos {
            let piece = vstd::slice::slice_to_vec(vstd::slice::slice_subrange(data, pos, end));
            let ghost e = data@.subrange(pos as int, end as int);
            let ghost rest = if end < data@.len() {
                record_entries(data@.skip(end + 1))
            } else {
                Seq::<Seq<u8>>::empty()
            };
            proof {
                assert(s.take(end - pos) =~= e);
                if (end as int) < data@.len() {
                    assert(s.skip(end - pos + 1) =~= data@.skip(end + 1));
                    assert(record_entries(s) == seq![e] + rest);
                } else {
                    assert(record_entries(s) == seq![e]);
                    assert(seq![e] + rest =~= seq![e]);
                }
                assert(views(entries@.push(piece)) =~= views(entries@).push(e));
                assert((views(entries@).push(e)) + rest =~= views(entries@) + (seq![e] + rest));
            }
            entries.push(piece);
        } else {
            proof {
                assert(record_entries(s) == record_entries(s.skip(1)));
                if (end as int) < data@.len() {
                    assert(s.skip(1) =~= data@.skip(end + 1));
                }
            }
        }
        if end == data.len() {
            pos = end;
            proof {
                assert(data@.skip(pos as int).len() == 0);
                assert(record_entries(data@.skip(pos as int)) =~= Seq::<Seq<u8>>::empty());
                assert(views(entries@) + Seq::<Seq<u8>>::empty() =~= views(entries@));
            }
        } else {
            pos = end + 1;
        }
    }
    proof {
        assert(data@.skip(pos as int).len() == 0);
        assert(record_entries(data@.skip(pos as int)) =~= Seq::<Seq<u8>>::empty());
        assert(views(entries@) =~= views(entries@) + record_entries(data@.skip(pos as int)));
        lemma_record_entries_wf(data@);
    }
    entries
}

/// Join entries back into one record, separated by the delimiter.
pub fn join_record(entries: &Vec<Vec<u8>>) -> (r: Vec<u8>)
    ensures
        r@ == joined(views(entries@)),
{
    let mut out: Vec<u8> = Vec::new();
    let mut k: usize = 0;
    while k < entries.len()
        invariant
            0 <= k <= entries@.len(),
            out@ == joined(views(entries@).take(k as int)),
            k == 0 ==> out@.len() == 0,
        decreases entries@.len() - k,
    {
        proof {
            assert(views(entries@).take(k + 1) =~= views(entries@).take(k as int).push(
                entries@[k as int]@,
            ));
            lemma_joined_push(views(entries@).take(k as int), entries@[k as int]@);
        }
        if k > 0 {
            out.push(SEP_BYTE);
            out.extend_from_slice(entries[k].as_slice());
            proof {
                assert(out@ =~= joined(views(entries@).take(k + 1)));
            }
        } else {
            out.extend_from_slice(entries[k].as_slice());
            proof {
                assert(views(entries@).take(1)[0] == entries@[0]@);
                assert(out@ =~= joined(views(entries@).take(k + 1)));
            }
        }
        k = k + 1;
    }
    proof {
        assert(views(entries@).take(entries@.len() as int) =~= views(entries@));
    }
    out
}

/// Serialize a `key=value` entry.
pub fn make_entry(key: &[u8], value: &[u8]) -> (e: Vec<u8>)
    ensures
        e@ == entry_of(key@, value@),
{
    let mut e: Vec<u8> = Vec::new();
    e.extend_from_slice(key);
    e.push(EQ_BYTE);
    e.extend_from_slice(value);
    proof {
        assert(e@ =~= entry_of(key@, value@));
    }
    e
}

/// Does this entry carry `key`?
pub fn entry_matches(e: &Vec<u8>, key: &[u8]) -> (r: bool)
    ensures
        r <==> entry_key(e@) == Some(key@),
{
    let q = scan_byte_to(e.as_slice(), 0, e.len(), EQ_BYTE);
    proof {
        lemma_first_at_is(e@, EQ_BYTE, q as int);
    }
    if q == e.len() {
        false
    } else {
        let r = range_eq(e.as_slice(), 0, q, key);
        proof {
            assert(e@.take(q as int) =~= e@.subrange(0, q as int));
        }
        r
    }
}

/// Rewrite every entry carrying `key` to hold `value`, in place.
/// Returns whether any entry carried `key`.
pub fn rewrite_entries(entries: &mut Vec<Vec<u8>>, key: &[u8], value: &[u8]) -> (found: bool)
    ensures
        views(final(entries)@) == rewrite_all(views(old(entries)@), key@, value@),
        found == has_key(views(old(entries)@), key@),
{
    let ghost orig_list = entries@;
    let ghost orig = views(entries@);
    let mut found = false;
    let mut k: usize = 0;
    let n = entries.len();
    while k < n
        invariant
            0 <= k <= n,
            n == entries@.len(),
            entries@.len() == orig_list.len(),
            orig == views(orig_list),
            forall|j: int| 0 <= j < k ==> entries@[j]@ == rewrite_all(orig, key@, value@)[j],
            forall|j: int| k <= j < n ==> entries@[j] == orig_list[j],
            found <==> exists|j: int| 0 <= j < k && entry_key(#[trigger] orig[j]) == Some(key@),
        decreases n - k,
    {
        let m = entry_matches(&entries[k], key);
        proof {
            assert(entries@[k as int] == orig_list[k as int]);
            assert(orig[k as int] == entries@[k as int]@);
        }
        if m {
            let repl = make_entry(key, value);
            proof {
                assert(entry_key(orig[k as int]) == Some(key@));
            }
            entries[k] = repl;
            found = true;
        } else {
            proof {
                assert(entry_key(orig[k as int]) != Some(key@));
            }
        }
        k = k + 1;
    }
    proof {
        assert(views(entries@) =~= rewrite_all(orig, key@, value@));
        lemma_has_key_exists(orig, key@);
    }
    found
}

/// Copy the entry list, leaving out every entry that carries `key`.
pub fn drop_entries(entries: &Vec<Vec<u8>>, key: &[u8]) -> (r: Vec<Vec<u8>>)
    ensures
        views(r@) == drop_key(views(entries@), key@),
{
    let mut out: Vec<Vec<u8>> = Vec::new();
    let mut k: usize = 0;
    let n = entries.len();
    while k < n
        invariant
            0 <= k <= n,
            n == entries@.len(),
            views(out@) =~= drop_key(views(entries@).take(k as int), key@),
        decreases n - k,
    {
        proof {
            assert(views(entries@).take(k + 1) =~= views(entries@).take(k as int).push(
                entries@[k as int]@,
            ));
            lemma_drop_key_push(views(entries@).take(k as int), entries@[k as int]@, key@);
        }
        if !entry_matches(&entries[k], key) {
            let piece = vstd::slice::slice_to_vec(entries[k].as_slice());
            proof {
                assert(views(out@.push(piece)) =~= views(out@).push(entries@[k as int]@));
            }
            out.push(piece);
        }
        k = k + 1;
    }
    proof {
        assert(views(entries@).take(n as int) =~= views(entries@));
    }
    out
}

/// Join the entries and enforce the record capacity: a record longer than
/// [`crate::config::MAX_RECORD_SIZE`] is refused whole.
pub fn seal_record(entries: &Vec<Vec<u8>>) -> (r: Result<Vec<u8>, i32>)
    ensures
        r is Ok ==> r->Ok_0@ == joined(views(entries@)) && joined(views(entries@)).len()
            <= crate::config::MAX_RECORD_SIZE,
        r is Err ==> r->Err_0 == crate::config::ERR_BAD_CONFIG && joined(views(entries@)).len()
            > crate::config::MAX_RECORD_SIZE,
{
    let out = join_record(entries);
    if out.len() > crate::config::MAX_RECORD_SIZE {
        Err(crate::config::ERR_BAD_CONFIG)
    } else {
        Ok(out)
    }
}


/// A `u32` field: the parsed value under `key`, or `default` when the key
/// is absent or its value is not a decimal number in range.
pub open spec fn field_u32(data: Seq<u8>, key: Seq<u8>, default: u32) -> u32 {
    match lookup(data, key) {
        Some(v) => match crate::num::parse_u32_spec(v) {
            Some(x) => x,
            None => default,
        },
        None => default,
    }
}

/// A `u64` field, defaulting to zero.
pub open spec fn field_u64(data: Seq<u8>, key: Seq<u8>) -> u64 {
    match lookup(data, key) {
        Some(v) => match crate::num::parse_u64_spec(v) {
            Some(x) => x,
            None => 0,
        },
        None => 0,
    }
}

/// A single-digit field, or `default` when absent or not one digit.
pub open spec fn field_digit(data: Seq<u8>, key: Seq<u8>, default: u8) -> u8 {
    match lookup(data, key) {
        Some(v) => match crate::num::parse_digit_spec(v) {
            Some(x) => x,
            None => default,
        },
        None => default,
    }
}

/// A count field: a decimal value up to 255, or zero otherwise.
pub open spec fn field_count(data: Seq<u8>, key: Seq<u8>) -> u8 {
    match lookup(data, key) {
        Some(v) => if v.len() > 0 && crate::num::all_digits(v) && crate::num::dec_value(v) <= 255 {
            crate::num::dec_value(v) as u8
        } else {
            0
        },
        None => 0,
    }
}

/// Read a `u32` field with a default.
pub fn read_u32_field(data: &[u8], key: &[u8], default: u32) -> (r: u32)
    ensures
        r == field_u32(data@, key@, default),
{
    match find_value(data, key) {
        Some(v) => match crate::num::parse_u32(v) {
            Some(x) => x,
            None => default,
        },
        None => default,
    }
}

/// Read a `u64` field, defaulting to zero.
pub fn read_u64_field(data: &[u8], key: &[u8]) -> (r: u64)
    ensures
        r == field_u64(data@, key@),
{
    match find_value(data, key) {
        Some(v) => match crate::num::parse_u64(v) {
            Some(x) => x,
            None => 0,
        },
        None => 0,
    }
}

/// Read a single-digit field with a default.
pub fn read_digit_field(data: &[u8], key: &[u8], default: u8) -> (r: u8)
    ensures
        r == field_digit(data@, key@, default),
{
    match find_value(data, key) {
        Some(v) => match crate::num::parse_u8_digit(v) {
            Some(x) => x,
            None => default,
        },
        None => default,
    }
}

/// Read a count field: a decimal value up to 255, or zero otherwise.
pub fn read_count(data: &[u8], key: &[u8]) -> (r: u8)
    ensures
        r == field_count(data@, key@),
{
    match find_value(data, key) {
        Some(v) => {
            proof {
                if crate::num::all_digits(v@) {
                    crate::num::lemma_dec_value_nonneg(v@);
                }
            }
            match crate::num::parse_u32(v) {
                Some(x) => if x <= 255 {
                    x as u8
                } else {
                    0
                },
                None => 0,
            }
        },
        None => 0,
    }
}

/// Replace the value stored under `key`, rebuilding the whole record.
/// Fails with `missing_err` when the key is absent, and with
/// [`crate::config::ERR_BAD_CONFIG`] when the rebuilt record would
/// exceed the capacity; on failure nothing is written.
pub fn update_record(data: &[u8], key: &[u8], value: &[u8], missing_err: i32) -> (r: Result<
    Vec<u8>,
    i32,
>)
    requires
        clean_key(key@),
        clean_value(value@),
    ensures
        ({
            let es0 = record_entries(data@);
            let es1 = rewrite_all(es0, key@, value@);
            &&& (r is Ok <==> has_key(es0, key@) && joined(es1).len()
                <= crate::config::MAX_RECORD_SIZE)
            &&& r is Ok ==> r->Ok_0@ == joined(es1) && lookup(r->Ok_0@, key@) == Some(value@) && (
            forall|q: Seq<u8>|
                q != key@ ==> #[trigger] lookup(r->Ok_0@, q) == lookup(data@, q))
            &&& (!has_key(es0, key@) ==> r == Err::<Vec<u8>, i32>(missing_err))
            &&& (has_key(es0, key@) && joined(es1).len() > crate::config::MAX_RECORD_SIZE ==> r
                == Err::<Vec<u8>, i32>(crate::config::ERR_BAD_CONFIG))
        }),
{
    let ghost es0 = record_entries(data@);
    let ghost es1 = rewrite_all(es0, key@, value@);
    let mut entries = split_record(data);
    let found = rewrite_entries(&mut entries, key, value);
    if !found {
        return Err(missing_err);
    }
    proof {
        lemma_rewrite_wf(es0, key@, value@);
    }
    match seal_record(&entries) {
        Ok(out) => {
            proof {
                lemma_entries_of_joined(es1);
                assert forall|q: Seq<u8>| true implies #[trigger] lookup(out@, q) == (if q == key@ {
                    Some(value@)
                } else {
                    lookup(data@, q)
                }) by {
                    lemma_lookup_rewrite(es0, key@, value@, q);
                }
            }
            Ok(out)
        },
        Err(e) => Err(e),
    }
}

/// Store `value` under `key`: replace it where present, append a fresh
/// entry otherwise.  Fails only when the rebuilt record would exceed the
/// capacity; on failure nothing is written.
pub fn upsert_record(data: &[u8], key: &[u8], value: &[u8]) -> (r: Result<Vec<u8>, i32>)
    requires
        clean_key(key@),
        clean_value(value@),
    ensures
        ({
            let es0 = record_entries(data@);
            let es1 = upsert(es0, key@, value@);
            &&& (r is Ok <==> joined(es1).len() <= crate::config::MAX_RECORD_SIZE)
            &&& r is Ok ==> r->Ok_0@ == joined(es1) && lookup(r->Ok_0@, key@) == Some(value@) && (
            forall|q: Seq<u8>|
                q != key@ ==> #[trigger] lookup(r->Ok_0@, q) == lookup(data@, q))
            &&& r is Err ==> r->Err_0 == crate::config::ERR_BAD_CONFIG
        }),
{
    let ghost es0 = record_entries(data@);
    let ghost es1 = upsert(es0, key@, value@);
    let mut entries = split_record(data);
    let found = rewrite_entries(&mut entries, key, value);
    if !found {
        let e = make_entry(key, value);
        proof {
            assert(rewrite_all(es0, key@, value@) =~= es0) by {
                lemma_has_key_exists(es0, key@);
            }
        }
        entries.push(e);
        proof {
            assert(views(entries@) =~= es0.push(entry_of(key@, value@)));
        }
    }
    proof {
        if found {
            lemma_rewrite_wf(es0, key@, value@);
        } else {
            lemma_record_entries_wf(data@);
            lemma_entry_of(key@, value@);
            lemma_push_wf(es0, entry_of(key@, value@));
        }
        assert(views(entries@) == es1);
    }
    match seal_record(&entries) {
        Ok(out) => {
            proof {
                if found {
                    lemma_rewrite_wf(es0, key@, value@);
                } else {
                    lemma_record_entries_wf(data@);
                    lemma_entry_of(key@, value@);
                    lemma_push_wf(es0, entry_of(key@, value@));
                }
                lemma_entries_of_joined(es1);
                assert forall|q: Seq<u8>| true implies #[trigger] lookup(out@, q) == (if q == key@ {
                    Some(value@)
                } else {
                    lookup(data@, q)
                }) by {
                    assert(record_entries(out@) == es1);
                    if found {
                        lemma_lookup_rewrite(es0, key@, value@, q);
                    } else {
                        let e = entry_of(key@, value@);
                        lemma_entry_of(key@, value@);
                        assert(es0.push(e) =~= es0 + seq![e]);
                        lemma_lookup_in_append(es0, seq![e], q);
                        assert(seq![e].skip(1) =~= Seq::<Seq<u8>>::empty());
                        assert(lookup_in(Seq::<Seq<u8>>::empty(), q) is None);
                        assert((seq![e])[0] == e);
                        if q == key@ {
                            assert(lookup_in(seq![e], q) == Some(value@));
                        } else {
                            assert(lookup_in(seq![e], q) is None);
                        }
                    }
                }
            }
            Ok(out)
        },
        Err(e) => Err(e),
    }
}

/// Write `key=value` into `data` at `pos`, in place.  Returns the
/// position after the entry, or `pos` unchanged (writing nothing) when
/// the entry does not fit.
pub fn write_entry(data: &mut Vec<u8>, pos: usize, key: &[u8], value: &[u8]) -> (r: usize)
    ensures
        final(data)@.len() == old(data)@.len(),
        pos + key@.len() + 1 + value@.len() <= old(data)@.len() ==> r == pos + key@.len() + 1
            + value@.len() && final(data)@ == old(data)@.take(pos as int) + entry_of(key@, value@)
            + old(data)@.skip(r as int),
        pos + key@.len() + 1 + value@.len() > old(data)@.len() ==> r == pos && final(data)@ == old(
            data,
        )@,
{
    let n = data.len();
    if pos >= n || key.len() > n - pos || n - pos - key.len() < 1 || value.len() > n - pos
        - key.len() - 1 {
        return pos;
    }
    let mut i: usize = 0;
    while i < key.len()
        invariant
            pos + key@.len() + 1 + value@.len() <= old(data)@.len(),
            old(data)@.len() <= usize::MAX,
            data@.len() == old(data)@.len(),
            0 <= i <= key@.len(),
            forall|j: int| 0 <= j < i ==> data@[pos + j] == key@[j],
            forall|j: int| 0 <= j < data@.len() && !(pos <= j < pos + i) ==> data@[j] == old(
                data,
            )@[j],
        decreases key@.len() - i,
    {
        data[pos + i] = key[i];
        i = i + 1;
    }
    data[pos + key.len()] = EQ_BYTE;
    let base = pos + key.len() + 1;
    let mut i: usize = 0;
    while i < value.len()
        invariant
            base == pos + key@.len() + 1,
            pos + key@.len() + 1 + value@.len() <= old(data)@.len(),
            old(data)@.len() <= usize::MAX,
            data@.len() == old(data)@.len(),
            0 <= i <= value@.len(),
            forall|j: int| 0 <= j < key@.len() ==> data@[pos + j] == key@[j],
            data@[pos + key@.len()] == EQ_BYTE,
            forall|j: int| 0 <= j < i ==> data@[base + j] == value@[j],
            forall|j: int|
                0 <= j < data@.len() && !(pos <= j < base + i) ==> data@[j] == old(data)@[j],
        decreases value@.len() - i,
    {
        data[base + i] = value[i];
        i = i + 1;
    }
    proof {
        assert(data@ =~= old(data)@.take(pos as int) + entry_of(key@, value@) + old(data)@.skip(
            pos + key@.len() + 1 + value@.len(),
        ));
    }
    base + value.len()
}

/// Write the entry delimiter at `pos`, in place.  Returns the position
/// after it, or `pos` unchanged when out of range.
pub fn write_separator(data: &mut Vec<u8>, pos: usize) -> (r: usize)
    ensures
        final(data)@.len() == old(data)@.len(),
        pos < old(data)@.len() ==> r == pos + 1 && final(data)@ == old(data)@.update(
            pos as int,
            SEP_BYTE,
        ),
        pos >= old(data)@.len() ==> r == pos && final(data)@ == old(data)@,
{
    if pos < data.len() {
        data[pos] = SEP_BYTE;
        pos + 1
    } else {
        pos
    }
}


/// Lookup lands on position `k` when the key first appears there.
pub proof fn lemma_lookup_in_at(es: Seq<Seq<u8>>, q: Seq<u8>, k: int)
    requires
        0 <= k < es.len(),
        entry_key(es[k]) == Some(q),
        forall|j: int| 0 <= j < k ==> entry_key(#[trigger] es[j]) != Some(q),
    ensures
        lookup_in(es, q) == Some(entry_val(es[k])),
    decreases k,
{
    if k > 0 {
        assert(es.skip(1)[k - 1] == es[k]);
        assert forall|j: int| 0 <= j < k - 1 implies entry_key(#[trigger] es.skip(1)[j])
            != Some(q) by {
            assert(es.skip(1)[j] == es[j + 1]);
        }
        lemma_lookup_in_at(es.skip(1), q, k - 1);
    }
}

/// Lookup misses when no entry carries the key.
pub proof fn lemma_lookup_in_none(es: Seq<Seq<u8>>, q: Seq<u8>)
    requires
        forall|j: int| 0 <= j < es.len() ==> entry_key(#[trigger] es[j]) != Some(q),
    ensures
        lookup_in(es, q) is None,
    decreases es.len(),
{
    if es.len() > 0 {
        assert forall|j: int| 0 <= j < es.skip(1).len() implies entry_key(#[trigger] es.skip(1)[j])
            != Some(q) by {
            assert(es.skip(1)[j] == es[j + 1]);
        }
        lemma_lookup_in_none(es.skip(1), q);
    }
}

} // verus!
