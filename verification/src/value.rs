use vstd::prelude::*;
use crate::iomap::InsertOrderMap;

verus! {

/// The mathematical model of a bencode value. Dictionaries are modelled in
/// canonical form: entries sorted strictly by the UTF-8 bytes of the key,
/// so each key occurs at most once. Every model that [`model`] extracts is
/// canonical, so two dictionaries with the same contents have the same
/// model whatever order their entries were inserted in.
pub enum Bval {
    /// A wire integer, `i<digits>e`.
    Int(i64),
    /// Decoded string contents that were valid UTF-8.
    Str(Seq<char>),
    /// Raw string contents that were not valid UTF-8.
    Bytes(Seq<u8>),
    /// An ordered sequence of values.
    List(Seq<Bval>),
    /// Key/value entries, sorted by key bytes, keys unique.
    Dict(Seq<(Seq<char>, Bval)>),
}

/// A bencode value: the five wire shapes of the format.
#[derive(Debug)]
pub enum BencodeValue {
    /// Any integer that fits in an `i64`.
    Integer(i64),
    /// A decoded string whose raw bytes were valid UTF-8.
    String(String),
    /// A decoded string whose raw bytes were not valid UTF-8, kept unchanged.
    ByteString(Vec<u8>),
    /// An ordered list of values, order significant.
    List(Vec<BencodeValue>),
    /// A dictionary from text keys to values; duplicate inserts overwrite.
    Dictionary(InsertOrderMap<BencodeValue>),
}

/// Strict lexicographic order on byte sequences.
pub open spec fn bytes_lt(a: Seq<u8>, b: Seq<u8>) -> bool
    decreases a.len(),
{
    if b.len() == 0 {
        false
    } else if a.len() == 0 {
        true
    } else if a[0] < b[0] {
        true
    } else if a[0] > b[0] {
        false
    } else {
        bytes_lt(a.subrange(1, a.len() as int), b.subrange(1, b.len() as int))
    }
}

/// Order on dictionary keys: the lexicographic order of their UTF-8 bytes.
pub open spec fn key_lt(a: Seq<char>, b: Seq<char>) -> bool {
    bytes_lt(vstd::utf8::encode_utf8(a), vstd::utf8::encode_utf8(b))
}

/// Entries sorted strictly by [`key_lt`]; strictness makes keys unique.
pub open spec fn entries_sorted(entries: Seq<(Seq<char>, Bval)>) -> bool {
    forall|i: int, j: int|
        0 <= i < j < entries.len() ==> key_lt(
            (#[trigger] entries[i]).0,
            (#[trigger] entries[j]).0,
        )
}

/// No two entries hold the same key.
pub open spec fn entries_unique(entries: Seq<(Seq<char>, Bval)>) -> bool {
    forall|i: int, j: int|
        0 <= i < j < entries.len() ==> (#[trigger] entries[i]).0 != (#[trigger] entries[j]).0
}

/// Inserts one entry into a canonically sorted entry sequence, replacing
/// the entry that already holds the same key.
pub open spec fn sorted_insert(
    entries: Seq<(Seq<char>, Bval)>,
    key: Seq<char>,
    value: Bval,
) -> Seq<(Seq<char>, Bval)>
    decreases entries.len(),
{
    if entries.len() == 0 {
        seq![(key, value)]
    } else if key_lt(key, entries[0].0) {
        seq![(key, value)] + entries
    } else if entries[0].0 == key {
        seq![(key, value)] + entries.subrange(1, entries.len() as int)
    } else {
        seq![entries[0]] + sorted_insert(entries.subrange(1, entries.len() as int), key, value)
    }
}

/// The canonical form of an entry sequence: each entry inserted in order
/// into a sorted sequence, later entries overwriting earlier ones.
pub open spec fn canon(entries: Seq<(Seq<char>, Bval)>) -> Seq<(Seq<char>, Bval)>
    decreases entries.len(),
{
    if entries.len() == 0 {
        Seq::empty()
    } else {
        sorted_insert(
            canon(entries.subrange(0, entries.len() - 1)),
            entries.last().0,
            entries.last().1,
        )
    }
}

/// The entries as a map; when a key occurs twice, the later entry wins,
/// mirroring insertion with overwrite.
pub open spec fn entries_map(entries: Seq<(Seq<char>, Bval)>) -> Map<Seq<char>, Bval>
    decreases entries.len(),
{
    if entries.len() == 0 {
        Map::empty()
    } else {
        entries_map(entries.subrange(0, entries.len() - 1)).insert(
            entries.last().0,
            entries.last().1,
        )
    }
}

/// The model of a bencode value.
pub open spec fn model(v: BencodeValue) -> Bval
    decreases v, 1int,
    via model_dec
{
    match v {
        BencodeValue::Integer(n) => Bval::Int(n),
        BencodeValue::String(s) => Bval::Str(s@),
        BencodeValue::ByteString(b) => Bval::Bytes(b@),
        BencodeValue::List(items) => Bval::List(model_seq(items@)),
        BencodeValue::Dictionary(m) => Bval::Dict(canon(entry_models(m@))),
    }
}

/// The models of a sequence of values, in order.
pub open spec fn model_seq(items: Seq<BencodeValue>) -> Seq<Bval>
    decreases items, 0int,
    via model_seq_dec
{
    if items.len() == 0 {
        Seq::empty()
    } else {
        seq![model(items[0])] + model_seq(items.subrange(1, items.len() as int))
    }
}

/// The models of dictionary entries, in insertion order.
pub open spec fn entry_models(entries: Seq<(String, BencodeValue)>) -> Seq<(Seq<char>, Bval)>
    decreases entries, 0int,
    via entry_models_dec
{
    if entries.len() == 0 {
        Seq::empty()
    } else {
        entry_models(entries.subrange(0, entries.len() - 1)).push(
            (entries.last().0@, model(entries.last().1)),
        )
    }
}

#[via_fn]
proof fn model_dec(v: BencodeValue) {
    match v {
        BencodeValue::List(items) => {
            assert(decreases_to!(v => items));
            assert(decreases_to!(items => items@));
        }
        BencodeValue::Dictionary(m) => {
            assert(decreases_to!(v => m));
            InsertOrderMap::<BencodeValue>::lemma_view_decreases(m);
        }
        _ => {}
    }
}

#[via_fn]
proof fn model_seq_dec(items: Seq<BencodeValue>) {
    if items.len() > 0 {
        assert(decreases_to!(items => items[0]));
        vstd::seq::axiom_seq_len_decreases(items, items.subrange(1, items.len() as int));
    }
}

#[via_fn]
proof fn entry_models_dec(entries: Seq<(String, BencodeValue)>) {
    if entries.len() > 0 {
        let n = entries.len() as int;
        assert(decreases_to!(entries => entries[n - 1]));
        assert(decreases_to!(entries[n - 1] => entries[n - 1].1));
        vstd::seq::axiom_seq_len_decreases(entries, entries.subrange(0, n - 1));
    }
}

/// Looks a key up in an entry sequence by its map: the value the entries
/// bind the key to, or `None`.
pub open spec fn dict_get(entries: Seq<(Seq<char>, Bval)>, key: Seq<char>) -> Option<Bval> {
    if entries_map(entries).contains_key(key) {
        Some(entries_map(entries)[key])
    } else {
        None
    }
}

/// A well-formed value: every dictionary in it has pairwise distinct keys.
/// The parser only produces well-formed values, and inserting through
/// [`InsertOrderMap`] keeps them so.
pub open spec fn value_wf(v: BencodeValue) -> bool
    decreases v, 1int,
    via value_wf_dec
{
    match v {
        BencodeValue::Integer(_) => true,
        BencodeValue::String(_) => true,
        BencodeValue::ByteString(_) => true,
        BencodeValue::List(items) => wf_seq(items@),
        BencodeValue::Dictionary(m) => m.wf() && wf_entries(m@),
    }
}

/// Every value of the sequence is well formed.
pub open spec fn wf_seq(items: Seq<BencodeValue>) -> bool
    decreases items, 0int,
    via wf_seq_dec
{
    if items.len() == 0 {
        true
    } else {
        value_wf(items[0]) && wf_seq(items.subrange(1, items.len() as int))
    }
}

/// Every value of the entry sequence is well formed.
pub open spec fn wf_entries(entries: Seq<(String, BencodeValue)>) -> bool
    decreases entries, 0int,
    via wf_entries_dec
{
    if entries.len() == 0 {
        true
    } else {
        value_wf(entries[0].1) && wf_entries(entries.subrange(1, entries.len() as int))
    }
}

#[via_fn]
proof fn value_wf_dec(v: BencodeValue) {
    match v {
        BencodeValue::List(items) => {
            assert(decreases_to!(v => items));
            assert(decreases_to!(items => items@));
        }
        BencodeValue::Dictionary(m) => {
            assert(decreases_to!(v => m));
            InsertOrderMap::<BencodeValue>::lemma_view_decreases(m);
        }
        _ => {}
    }
}

#[via_fn]
proof fn wf_seq_dec(items: Seq<BencodeValue>) {
    if items.len() > 0 {
        assert(decreases_to!(items => items[0]));
        vstd::seq::axiom_seq_len_decreases(items, items.subrange(1, items.len() as int));
    }
}

#[via_fn]
proof fn wf_entries_dec(entries: Seq<(String, BencodeValue)>) {
    if entries.len() > 0 {
        assert(decreases_to!(entries => entries[0]));
        assert(decreases_to!(entries[0] => entries[0].1));
        vstd::seq::axiom_seq_len_decreases(entries, entries.subrange(1, entries.len() as int));
    }
}

/// [`wf_seq`], element by element.
pub proof fn lemma_wf_seq_index(items: Seq<BencodeValue>)
    ensures
        wf_seq(items) <==> (forall|i: int| 0 <= i < items.len() ==> value_wf(#[trigger] items[i])),
    decreases items.len(),
{
    if items.len() > 0 {
        let tail = items.subrange(1, items.len() as int);
        lemma_wf_seq_index(tail);
        assert forall|i: int| 0 <= i < tail.len() implies tail[i] == items[i + 1] by {}
        if wf_seq(items) {
            assert forall|i: int| 0 <= i < items.len() implies value_wf(#[trigger] items[i]) by {
                if i > 0 {
                    assert(value_wf(tail[i - 1]));
                }
            }
        }
        if forall|i: int| 0 <= i < items.len() ==> value_wf(#[trigger] items[i]) {
            assert forall|i: int| 0 <= i < tail.len() implies value_wf(#[trigger] tail[i]) by {
                assert(value_wf(items[i + 1]));
            }
        }
    }
}

/// [`wf_entries`], element by element.
pub proof fn lemma_wf_entries_index(entries: Seq<(String, BencodeValue)>)
    ensures
        wf_entries(entries) <==> (forall|i: int|
            0 <= i < entries.len() ==> value_wf((#[trigger] entries[i]).1)),
    decreases entries.len(),
{
    if entries.len() > 0 {
        let tail = entries.subrange(1, entries.len() as int);
        lemma_wf_entries_index(tail);
        assert forall|i: int| 0 <= i < tail.len() implies tail[i] == entries[i + 1] by {}
        if wf_entries(entries) {
            assert forall|i: int| 0 <= i < entries.len() implies value_wf(
                (#[trigger] entries[i]).1,
            ) by {
                if i > 0 {
                    assert(value_wf(tail[i - 1].1));
                }
            }
        }
        if forall|i: int| 0 <= i < entries.len() ==> value_wf((#[trigger] entries[i]).1) {
            assert forall|i: int| 0 <= i < tail.len() implies value_wf((#[trigger] tail[i]).1) by {
                assert(value_wf(entries[i + 1].1));
            }
        }
    }
}

/// The length and members of [`entry_models`], element by element.
pub proof fn lemma_entry_models_index(entries: Seq<(String, BencodeValue)>)
    ensures
        entry_models(entries).len() == entries.len(),
        forall|i: int|
            0 <= i < entries.len() ==> #[trigger] entry_models(entries)[i] == (
                entries[i].0@,
                model(entries[i].1),
            ),
    decreases entries.len(),
{
    if entries.len() > 0 {
        let n = entries.len() as int;
        let head = entries.subrange(0, n - 1);
        lemma_entry_models_index(head);
        assert forall|i: int| 0 <= i < n implies #[trigger] entry_models(entries)[i] == (
            entries[i].0@,
            model(entries[i].1),
        ) by {
            if i < n - 1 {
                assert(head[i] == entries[i]);
            }
        }
    }
}

/// [`model_seq`], element by element.
pub proof fn lemma_model_seq_index(items: Seq<BencodeValue>)
    ensures
        model_seq(items).len() == items.len(),
        forall|i: int|
            0 <= i < items.len() ==> #[trigger] model_seq(items)[i] == model(items[i]),
    decreases items.len(),
{
    if items.len() > 0 {
        let tail = items.subrange(1, items.len() as int);
        lemma_model_seq_index(tail);
        assert forall|i: int| 0 <= i < items.len() implies #[trigger] model_seq(items)[i]
            == model(items[i]) by {
            if i > 0 {
                assert(tail[i - 1] == items[i]);
            }
        }
    }
}

/// Appending a value appends its model.
pub proof fn lemma_model_seq_push(items: Seq<BencodeValue>, v: BencodeValue)
    ensures
        model_seq(items.push(v)) == model_seq(items).push(model(v)),
{
    lemma_model_seq_index(items);
    lemma_model_seq_index(items.push(v));
    assert forall|i: int| 0 <= i < items.len() implies items.push(v)[i] == items[i] by {}
    assert(model_seq(items.push(v)) =~= model_seq(items).push(model(v)));
}

/// Appending an entry appends its model.
pub proof fn lemma_entry_models_push(
    entries: Seq<(String, BencodeValue)>,
    k: String,
    v: BencodeValue,
)
    ensures
        entry_models(entries.push((k, v))) == entry_models(entries).push((k@, model(v))),
{
    let e = entries.push((k, v));
    assert(e.subrange(0, e.len() - 1) =~= entries);
    assert(e.last() == (k, v));
}

/// Updating an entry in place updates its model in place.
pub proof fn lemma_entry_models_update(
    entries: Seq<(String, BencodeValue)>,
    i: int,
    k: String,
    v: BencodeValue,
)
    requires
        0 <= i < entries.len(),
    ensures
        entry_models(entries.update(i, (k, v))) == entry_models(entries).update(
            i,
            (k@, model(v)),
        ),
{
    lemma_entry_models_index(entries);
    lemma_entry_models_index(entries.update(i, (k, v)));
    assert(entry_models(entries.update(i, (k, v))) =~= entry_models(entries).update(
        i,
        (k@, model(v)),
    ));
}

} // verus!
