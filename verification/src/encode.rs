use vstd::prelude::*;
use vstd::string::StrSliceExecFns;
use crate::iomap::InsertOrderMap;
use crate::value::BencodeValue;
use crate::value::Bval;
use crate::value::model;
use crate::value::model_seq;
use crate::value::entry_models;
use crate::value::entries_map;
use crate::value::entries_sorted;
use crate::value::canon;
use crate::value::sorted_insert;
use crate::value::key_lt;
use crate::value::bytes_lt;
use crate::value::lemma_model_seq_index;
use crate::value::lemma_entry_models_index;
use crate::canon::lemma_canon_same_map;
use crate::canon::lemma_canon_sorted;
use crate::canon::lemma_key_gt;
use crate::numtext::dec_digits;
use crate::numtext::int_decimal;
use crate::numtext::push_u64_decimal;
use crate::numtext::push_i64_decimal;

verus! {

/// A byte string on the wire: its byte length in decimal, a colon, then
/// the bytes themselves.
pub open spec fn len_prefixed(b: Seq<u8>) -> Seq<u8> {
    dec_digits(b.len()) + seq![58u8] + b
}

/// The canonical wire encoding of a value model. Dictionary entries are
/// emitted in the order the model holds them; every model the library
/// extracts holds them sorted by key bytes, which makes the encoding
/// deterministic.
pub open spec fn encoded(m: Bval) -> Seq<u8>
    decreases m, 1int,
    via encoded_dec
{
    match m {
        Bval::Int(n) => seq![105u8] + int_decimal(n) + seq![101u8],
        Bval::Str(t) => len_prefixed(vstd::utf8::encode_utf8(t)),
        Bval::Bytes(b) => len_prefixed(b),
        Bval::List(items) => seq![108u8] + encoded_items(items) + seq![101u8],
        Bval::Dict(entries) => seq![100u8] + encoded_entries(entries) + seq![101u8],
    }
}

/// The concatenated encodings of list items, in order.
pub open spec fn encoded_items(items: Seq<Bval>) -> Seq<u8>
    decreases items, 0int,
    via encoded_items_dec
{
    if items.len() == 0 {
        Seq::empty()
    } else {
        encoded(items[0]) + encoded_items(items.subrange(1, items.len() as int))
    }
}

/// The concatenated encodings of dictionary entries, each a key string
/// followed by its value, in order.
pub open spec fn encoded_entries(entries: Seq<(Seq<char>, Bval)>) -> Seq<u8>
    decreases entries, 0int,
    via encoded_entries_dec
{
    if entries.len() == 0 {
        Seq::empty()
    } else {
        len_prefixed(vstd::utf8::encode_utf8(entries[0].0)) + encoded(entries[0].1)
            + encoded_entries(entries.subrange(1, entries.len() as int))
    }
}

#[via_fn]
proof fn encoded_dec(m: Bval) {
    match m {
        Bval::List(items) => {
            assert(decreases_to!(m => items));
        }
        Bval::Dict(entries) => {
            assert(decreases_to!(m => entries));
        }
        _ => {}
    }
}

#[via_fn]
proof fn encoded_items_dec(items: Seq<Bval>) {
    if items.len() > 0 {
        assert(decreases_to!(items => items[0]));
        vstd::seq::axiom_seq_len_decreases(items, items.subrange(1, items.len() as int));
    }
}

#[via_fn]
proof fn encoded_entries_dec(entries: Seq<(Seq<char>, Bval)>) {
    if entries.len() > 0 {
        assert(decreases_to!(entries => entries[0]));
        assert(decreases_to!(entries[0] => entries[0].1));
        vstd::seq::axiom_seq_len_decreases(entries, entries.subrange(1, entries.len() as int));
    }
}

/// Canonical determinism: two dictionaries with the same contents have
/// byte-identical encodings, whatever order their entries were inserted
/// in. Contents are compared as maps, the later entry winning, which is
/// what repeated insertion leaves behind.
pub proof fn lemma_dictionary_encoding_deterministic(
    m1: InsertOrderMap<BencodeValue>,
    m2: InsertOrderMap<BencodeValue>,
)
    requires
        entries_map(entry_models(m1@)) == entries_map(entry_models(m2@)),
    ensures
        encoded(model(BencodeValue::Dictionary(m1))) == encoded(model(BencodeValue::Dictionary(m2))),
{
    lemma_canon_same_map(entry_models(m1@), entry_models(m2@));
}

/// Appends all of `src` to `out`.
fn push_all(out: &mut Vec<u8>, src: &Vec<u8>)
    ensures
        final(out)@ == old(out)@ + src@,
{
    let n = src.len();
    for k in 0..n
        invariant
            n == src@.len(),
            out@ == old(out)@ + src@.subrange(0, k as int),
    {
        out.push(src[k]);
        proof {
            assert(out@ =~= old(out)@ + src@.subrange(0, k + 1));
        }
    }
    proof {
        assert(old(out)@ + src@.subrange(0, n as int) =~= old(out)@ + src@);
    }
}

/// Encodes any value to its canonical wire bytes. Encoding never fails.
pub fn encode(value: &BencodeValue) -> (r: Vec<u8>)
    ensures
        r@ == encoded(model(*value)),
    decreases *value, 1int,
{
    match value {
        BencodeValue::Integer(n) => encode_integer(*n),
        BencodeValue::String(s) => {
            let bytes = s.as_str().as_bytes_vec();
            encode_byte_string(&bytes)
        }
        BencodeValue::ByteString(b) => encode_byte_string(b),
        BencodeValue::List(list) => {
            proof {
                assert(decreases_to!(*value => *list));
            }
            encode_list(list)
        }
        BencodeValue::Dictionary(map) => {
            proof {
                assert(decreases_to!(*value => *map));
            }
            encode_map(map)
        }
    }
}

/// Encodes raw bytes as a length-prefixed string.
fn encode_byte_string(value: &Vec<u8>) -> (r: Vec<u8>)
    ensures
        r@ == len_prefixed(value@),
{
    let mut out: Vec<u8> = Vec::new();
    push_u64_decimal(&mut out, value.len() as u64);
    out.push(58);
    push_all(&mut out, value);
    proof {
        assert(out@ =~= len_prefixed(value@));
    }
    out
}

/// Encodes an integer as `i<decimal>e`.
fn encode_integer(value: i64) -> (r: Vec<u8>)
    ensures
        r@ == seq![105u8] + int_decimal(value) + seq![101u8],
{
    let mut out: Vec<u8> = Vec::new();
    out.push(105);
    push_i64_decimal(&mut out, value);
    out.push(101);
    proof {
        assert(out@ =~= seq![105u8] + int_decimal(value) + seq![101u8]);
    }
    out
}

/// Encodes a list as `l`, each element in order, then `e`.
fn encode_list(list: &Vec<BencodeValue>) -> (r: Vec<u8>)
    ensures
        r@ == seq![108u8] + encoded_items(model_seq(list@)) + seq![101u8],
    decreases *list, 0int,
{
    let ghost ms = model_seq(list@);
    proof {
        lemma_model_seq_index(list@);
    }
    let mut out: Vec<u8> = Vec::new();
    out.push(108);
    let n = list.len();
    proof {
        assert(out@ =~= seq![108u8]);
        assert(ms.subrange(0, ms.len() as int) =~= ms);
    }
    for i in 0..n
        invariant
            n == list@.len(),
            ms == model_seq(list@),
            ms.len() == n,
            forall|j: int| 0 <= j < n ==> #[trigger] ms[j] == model(list@[j]),
            out@ + encoded_items(ms.subrange(i as int, n as int)) == seq![108u8] + encoded_items(
                ms,
            ),
        decreases n - i,
    {
        proof {
            assert(decreases_to!(*list => list@));
            assert(decreases_to!(list@ => list@[i as int]));
        }
        let piece = encode(&list[i]);
        push_all(&mut out, &piece);
        proof {
            let rest = ms.subrange(i as int, n as int);
            assert(rest[0] == ms[i as int]);
            assert(rest.subrange(1, rest.len() as int) =~= ms.subrange(i + 1, n as int));
            assert(out@ + encoded_items(ms.subrange(i + 1, n as int)) =~= seq![108u8]
                + encoded_items(ms));
        }
    }
    out.push(101);
    proof {
        assert(ms.subrange(n as int, n as int) =~= Seq::<Bval>::empty());
        assert(out@ =~= seq![108u8] + encoded_items(ms) + seq![101u8]);
    }
    out
}

/// Three-way outcome of a byte-wise comparison.
enum Cmp {
    Lt,
    Eq,
    Gt,
}

/// When two byte sequences agree on a prefix, their order is the order
/// of what remains.
proof fn lemma_bytes_lt_suffix(a: Seq<u8>, b: Seq<u8>, i: int)
    requires
        0 <= i <= a.len(),
        i <= b.len(),
        forall|j: int| 0 <= j < i ==> a[j] == b[j],
    ensures
        bytes_lt(a, b) == bytes_lt(a.subrange(i, a.len() as int), b.subrange(i, b.len() as int)),
    decreases i,
{
    if i == 0 {
        assert(a.subrange(0, a.len() as int) =~= a);
        assert(b.subrange(0, b.len() as int) =~= b);
    } else {
        let ta = a.subrange(1, a.len() as int);
        let tb = b.subrange(1, b.len() as int);
        assert forall|j: int| 0 <= j < i - 1 implies ta[j] == tb[j] by {
            assert(ta[j] == a[j + 1]);
            assert(tb[j] == b[j + 1]);
        }
        lemma_bytes_lt_suffix(ta, tb, i - 1);
        assert(ta.subrange(i - 1, ta.len() as int) =~= a.subrange(i, a.len() as int));
        assert(tb.subrange(i - 1, tb.len() as int) =~= b.subrange(i, b.len() as int));
    }
}

/// Compares two byte vectors lexicographically.
fn compare_bytes(a: &Vec<u8>, b: &Vec<u8>) -> (r: Cmp)
    ensures
        match r {
            Cmp::Lt => bytes_lt(a@, b@),
            Cmp::Eq => a@ == b@,
            Cmp::Gt => bytes_lt(b@, a@),
        },
{
    let an = a.len();
    let bn = b.len();
    let mut i: usize = 0;
    loop
        invariant
            an == a@.len(),
            bn == b@.len(),
            i <= an,
            i <= bn,
            forall|j: int| 0 <= j < i ==> a@[j] == b@[j],
        ensures
            i <= an,
            i <= bn,
            i >= an || i >= bn,
            forall|j: int| 0 <= j < i ==> a@[j] == b@[j],
        decreases an - i,
    {
        if i >= an || i >= bn {
            break;
        }
        if a[i] < b[i] {
            proof {
                lemma_bytes_lt_suffix(a@, b@, i as int);
            }
            return Cmp::Lt;
        }
        if a[i] > b[i] {
            proof {
                lemma_bytes_lt_suffix(b@, a@, i as int);
            }
            return Cmp::Gt;
        }
        i = i + 1;
    }
    proof {
        lemma_bytes_lt_suffix(a@, b@, i as int);
        lemma_bytes_lt_suffix(b@, a@, i as int);
    }
    if an < bn {
        Cmp::Lt
    } else if an > bn {
        Cmp::Gt
    } else {
        proof {
            assert(a@ =~= b@);
        }
        Cmp::Eq
    }
}

/// Inserting at the position found by a linear scan is what
/// [`sorted_insert`] computes.
proof fn lemma_sorted_insert_position(
    s: Seq<(Seq<char>, Bval)>,
    k: Seq<char>,
    v: Bval,
    p: int,
)
    requires
        entries_sorted(s),
        0 <= p <= s.len(),
        forall|j: int| 0 <= j < p ==> key_lt((#[trigger] s[j]).0, k),
        p < s.len() ==> !key_lt(s[p].0, k),
    ensures
        p < s.len() && s[p].0 == k ==> sorted_insert(s, k, v) == s.update(p, (k, v)),
        !(p < s.len() && s[p].0 == k) ==> sorted_insert(s, k, v) == s.insert(p, (k, v)),
    decreases p,
{
    if s.len() == 0 {
        assert(sorted_insert(s, k, v) =~= s.insert(0, (k, v)));
    } else if p == 0 {
        if s[0].0 == k {
            crate::canon::lemma_key_lt_irrefl(k);
            assert(sorted_insert(s, k, v) =~= s.update(0, (k, v)));
        } else {
            lemma_key_gt(s[0].0, k);
            assert(sorted_insert(s, k, v) =~= s.insert(0, (k, v)));
        }
    } else {
        let t = s.subrange(1, s.len() as int);
        assert(key_lt(s[0].0, k));
        crate::canon::lemma_key_lt_asym(s[0].0, k);
        assert(s[0].0 != k) by {
            crate::canon::lemma_key_lt_irrefl(k);
        }
        assert(entries_sorted(t)) by {
            assert forall|x: int, y: int| 0 <= x < y < t.len() implies key_lt(
                (#[trigger] t[x]).0,
                (#[trigger] t[y]).0,
            ) by {
                assert(t[x] == s[x + 1]);
                assert(t[y] == s[y + 1]);
            }
        }
        assert forall|j: int| 0 <= j < p - 1 implies key_lt((#[trigger] t[j]).0, k) by {
            assert(t[j] == s[j + 1]);
        }
        assert(p - 1 < t.len() ==> !key_lt(t[p - 1].0, k)) by {
            if p - 1 < t.len() {
                assert(t[p - 1] == s[p as int]);
            }
        }
        lemma_sorted_insert_position(t, k, v, p - 1);
        if p < s.len() && s[p].0 == k {
            assert(t[p - 1] == s[p as int]);
            assert(sorted_insert(s, k, v) =~= s.update(p, (k, v)));
        } else {
            assert(sorted_insert(s, k, v) =~= s.insert(p, (k, v)));
        }
    }
}

/// The entries the sorted index list selects out of the entry models.
spec fn selected(me: Seq<(Seq<char>, Bval)>, sorted: Seq<(Vec<u8>, usize)>) -> Seq<
    (Seq<char>, Bval),
> {
    Seq::new(sorted.len(), |j: int| me[sorted[j].1 as int])
}

/// Encodes a dictionary as `d`, each key/value pair with keys in
/// byte-wise sorted order whatever order the map holds them in, then `e`.
fn encode_map(map: &InsertOrderMap<BencodeValue>) -> (r: Vec<u8>)
    ensures
        r@ == seq![100u8] + encoded_entries(canon(entry_models(map@))) + seq![101u8],
    decreases *map, 0int,
{
    let ghost me = entry_models(map@);
    proof {
        lemma_entry_models_index(map@);
    }
    let n = map.len();
    let mut sorted: Vec<(Vec<u8>, usize)> = Vec::new();
    proof {
        assert(selected(me, sorted@) =~= canon(me.subrange(0, 0)));
    }
    for i in 0..n
        invariant
            n == map@.len(),
            me == entry_models(map@),
            me.len() == n,
            forall|j: int|
                0 <= j < n ==> #[trigger] me[j] == (map@[j].0@, model(map@[j].1)),
            forall|j: int|
                0 <= j < sorted@.len() ==> (#[trigger] sorted@[j]).1 < i,
            forall|j: int|
                0 <= j < sorted@.len() ==> (#[trigger] sorted@[j]).0@ == vstd::utf8::encode_utf8(
                    me[sorted@[j].1 as int].0,
                ),
            selected(me, sorted@) == canon(me.subrange(0, i as int)),
    {
        let entry = map.entry_at(i);
        let kb = entry.0.as_str().as_bytes_vec();
        let ghost key = me[i as int].0;
        let ghost val = me[i as int].1;
        let ghost pres = canon(me.subrange(0, i as int));
        proof {
            assert(kb@ == vstd::utf8::encode_utf8(key));
            lemma_canon_sorted(me.subrange(0, i as int));
        }
        let mut p: usize = 0;
        let mut eq_found: bool = false;
        loop
            invariant_except_break
                !eq_found,
            invariant
                p <= sorted@.len(),
                sorted@.len() == pres.len(),
                selected(me, sorted@) == pres,
                forall|j: int|
                    0 <= j < sorted@.len() ==> (#[trigger] sorted@[j]).0@
                        == vstd::utf8::encode_utf8(me[sorted@[j].1 as int].0),
                forall|j: int| 0 <= j < p ==> key_lt((#[trigger] pres[j]).0, key),
                kb@ == vstd::utf8::encode_utf8(key),
                entries_sorted(pres),
            ensures
                p <= pres.len(),
                forall|j: int| 0 <= j < p ==> key_lt((#[trigger] pres[j]).0, key),
                eq_found ==> p < pres.len() && pres[p as int].0 == key,
                !eq_found && p < pres.len() ==> !key_lt(pres[p as int].0, key) && pres[
                    p as int
                ].0 != key,
            decreases sorted@.len() - p + 1,
        {
            if p >= sorted.len() {
                break;
            }
            let c = compare_bytes(&sorted[p].0, &kb);
            proof {
                assert(selected(me, sorted@)[p as int] == pres[p as int]);
                assert(sorted@[p as int].0@ == vstd::utf8::encode_utf8(pres[p as int].0));
            }
            match c {
                Cmp::Lt => {
                    p = p + 1;
                }
                Cmp::Eq => {
                    proof {
                        broadcast use vstd::utf8::encode_utf8_decode_utf8;

                        assert(vstd::utf8::decode_utf8(vstd::utf8::encode_utf8(pres[p as int].0))
                            == vstd::utf8::decode_utf8(vstd::utf8::encode_utf8(key)));
                        assert(pres[p as int].0 == key);
                    }
                    eq_found = true;
                    break;
                }
                Cmp::Gt => {
                    proof {
                        if key_lt(pres[p as int].0, key) {
                            crate::canon::lemma_bytes_lt_asym(kb@, sorted@[p as int].0@);
                        }
                        if pres[p as int].0 == key {
                            crate::canon::lemma_bytes_lt_irrefl(kb@);
                        }
                    }
                    break;
                }
            }
        }
        proof {
            if eq_found {
                crate::canon::lemma_key_lt_irrefl(key);
            }
            lemma_sorted_insert_position(pres, key, val, p as int);
            assert(me.subrange(0, i + 1).subrange(0, i as int) =~= me.subrange(0, i as int));
            assert(me.subrange(0, i + 1).last() == me[i as int]);
        }
        if eq_found {
            sorted.set(p, (kb, i));
            proof {
                assert(selected(me, sorted@) =~= pres.update(p as int, (key, val)));
                assert(canon(me.subrange(0, i + 1)) == sorted_insert(pres, key, val));
            }
        } else {
            proof {
                if p < pres.len() && pres[p as int].0 == key {
                    assert(false);
                }
            }
            sorted.insert(p, (kb, i));
            proof {
                assert(selected(me, sorted@) =~= pres.insert(p as int, (key, val)));
                assert(canon(me.subrange(0, i + 1)) == sorted_insert(pres, key, val));
            }
        }
    }
    let ghost cs = canon(me);
    proof {
        assert(me.subrange(0, n as int) =~= me);
    }
    let mut out: Vec<u8> = Vec::new();
    out.push(100);
    proof {
        assert(out@ =~= seq![100u8]);
        assert(cs.subrange(0, cs.len() as int) =~= cs);
    }
    let sn = sorted.len();
    for j in 0..sn
        invariant
            sn == sorted@.len(),
            cs == canon(entry_models(map@)),
            me == entry_models(map@),
            me.len() == map@.len(),
            selected(me, sorted@) == cs,
            forall|x: int|
                0 <= x < sn ==> (#[trigger] sorted@[x]).1 < map@.len(),
            forall|x: int|
                0 <= x < sn ==> (#[trigger] sorted@[x]).0@ == vstd::utf8::encode_utf8(
                    me[sorted@[x].1 as int].0,
                ),
            forall|x: int|
                0 <= x < me.len() ==> #[trigger] me[x] == (map@[x].0@, model(map@[x].1)),
            out@ + encoded_entries(cs.subrange(j as int, sn as int)) == seq![100u8]
                + encoded_entries(cs),
        decreases sn - j,
    {
        let idx = sorted[j].1;
        proof {
            assert(selected(me, sorted@)[j as int] == cs[j as int]);
            assert(cs[j as int] == me[idx as int]);
        }
        push_u64_decimal(&mut out, sorted[j].0.len() as u64);
        out.push(58);
        let kb = &sorted[j].0;
        push_all(&mut out, kb);
        let entry = map.entry_at(idx);
        proof {
            InsertOrderMap::<BencodeValue>::lemma_entry_decreases(*map, idx as int);
        }
        let piece = encode(entry.1);
        push_all(&mut out, &piece);
        proof {
            let rest = cs.subrange(j as int, sn as int);
            assert(rest[0] == cs[j as int]);
            assert(rest.subrange(1, rest.len() as int) =~= cs.subrange(j + 1, sn as int));
            assert(out@ + encoded_entries(cs.subrange(j + 1, sn as int)) =~= seq![100u8]
                + encoded_entries(cs));
        }
    }
    out.push(101);
    proof {
        assert(cs.subrange(sn as int, sn as int) =~= Seq::<(Seq<char>, Bval)>::empty());
        assert(out@ =~= seq![100u8] + encoded_entries(cs) + seq![101u8]);
    }
    out
}

/// The capability to encode a value into the dynamic tree; `None` from
/// [`Encodable::to_bencode`] means "omit this value".
pub trait Encodable {
    /// The model of the value this encodes to, or `None` when it is
    /// omitted from the wire form.
    spec fn spec_encoded(&self) -> Option<Bval>;

    /// Builds the dynamic value for `self`, or `None` to omit it.
    fn to_bencode(&self) -> (r: Option<BencodeValue>)
        ensures
            match r {
                Some(v) => self.spec_encoded() == Some(model(v)),
                None => self.spec_encoded() is None,
            },
    ;

    /// Encodes `self` straight to canonical wire bytes, or `None` when
    /// the value is omitted.
    fn encode(&self) -> (r: Option<Vec<u8>>)
        ensures
            match r {
                Some(b) => self.spec_encoded() matches Some(m) && b@ == encoded(m),
                None => self.spec_encoded() is None,
            },
    {
        match self.to_bencode() {
            Some(v) => Some(crate::encode::encode(&v)),
            None => None,
        }
    }
}

impl Encodable for u8 {
    open spec fn spec_encoded(&self) -> Option<Bval> {
        Some(Bval::Int(*self as i64))
    }

    /// Encodes to an integer value; encoding an integer never fails.
    fn to_bencode(&self) -> (r: Option<BencodeValue>) {
        Some(BencodeValue::Integer(*self as i64))
    }
}

impl Encodable for i8 {
    open spec fn spec_encoded(&self) -> Option<Bval> {
        Some(Bval::Int(*self as i64))
    }

    /// Encodes to an integer value; encoding an integer never fails.
    fn to_bencode(&self) -> (r: Option<BencodeValue>) {
        Some(BencodeValue::Integer(*self as i64))
    }
}

impl Encodable for u16 {
    open spec fn spec_encoded(&self) -> Option<Bval> {
        Some(Bval::Int(*self as i64))
    }

    /// Encodes to an integer value; encoding an integer never fails.
    fn to_bencode(&self) -> (r: Option<BencodeValue>) {
        Some(BencodeValue::Integer(*self as i64))
    }
}

impl Encodable for i16 {
    open spec fn spec_encoded(&self) -> Option<Bval> {
        Some(Bval::Int(*self as i64))
    }

    /// Encodes to an integer value; encoding an integer never fails.
    fn to_bencode(&self) -> (r: Option<BencodeValue>) {
        Some(BencodeValue::Integer(*self as i64))
    }
}

impl Encodable for u32 {
    open spec fn spec_encoded(&self) -> Option<Bval> {
        Some(Bval::Int(*self as i64))
    }

    /// Encodes to an integer value; encoding an integer never fails.
    fn to_bencode(&self) -> (r: Option<BencodeValue>) {
        Some(BencodeValue::Integer(*self as i64))
    }
}

impl Encodable for i32 {
    open spec fn spec_encoded(&self) -> Option<Bval> {
        Some(Bval::Int(*self as i64))
    }

    /// Encodes to an integer value; encoding an integer never fails.
    fn to_bencode(&self) -> (r: Option<BencodeValue>) {
        Some(BencodeValue::Integer(*self as i64))
    }
}

impl Encodable for u64 {
    open spec fn spec_encoded(&self) -> Option<Bval> {
        Some(Bval::Int(*self as i64))
    }

    /// Encodes to an integer value; encoding an integer never fails.
    fn to_bencode(&self) -> (r: Option<BencodeValue>) {
        Some(BencodeValue::Integer(*self as i64))
    }
}

impl Encodable for i64 {
    open spec fn spec_encoded(&self) -> Option<Bval> {
        Some(Bval::Int(*self as i64))
    }

    /// Encodes to an integer value; encoding an integer never fails.
    fn to_bencode(&self) -> (r: Option<BencodeValue>) {
        Some(BencodeValue::Integer(*self as i64))
    }
}

impl Encodable for usize {
    open spec fn spec_encoded(&self) -> Option<Bval> {
        Some(Bval::Int(*self as i64))
    }

    /// Encodes to an integer value; encoding an integer never fails.
    fn to_bencode(&self) -> (r: Option<BencodeValue>) {
        Some(BencodeValue::Integer(*self as i64))
    }
}

impl Encodable for isize {
    open spec fn spec_encoded(&self) -> Option<Bval> {
        Some(Bval::Int(*self as i64))
    }

    /// Encodes to an integer value; encoding an integer never fails.
    fn to_bencode(&self) -> (r: Option<BencodeValue>) {
        Some(BencodeValue::Integer(*self as i64))
    }
}

impl Encodable for String {
    open spec fn spec_encoded(&self) -> Option<Bval> {
        Some(Bval::Str(self@))
    }

    /// Encodes to a text value; encoding a string never fails.
    fn to_bencode(&self) -> (r: Option<BencodeValue>) {
        Some(BencodeValue::String(self.clone()))
    }
}

impl<T: Encodable> Encodable for Option<T> {
    open spec fn spec_encoded(&self) -> Option<Bval> {
        match self {
            Some(x) => x.spec_encoded(),
            None => None,
        }
    }

    /// An absent value encodes to nothing at all: it is omitted from the
    /// wire form rather than emitted as a null marker.
    fn to_bencode(&self) -> (r: Option<BencodeValue>) {
        match self {
            Some(x) => x.to_bencode(),
            None => None,
        }
    }
}

/// The models of the items a sequence encodes to, items that encode to
/// nothing left out.
pub open spec fn seq_encoded<T: Encodable>(items: Seq<T>) -> Seq<Bval>
    decreases items.len(),
{
    if items.len() == 0 {
        Seq::empty()
    } else {
        match items[0].spec_encoded() {
            Some(m) => seq![m] + seq_encoded::<T>(items.subrange(1, items.len() as int)),
            None => seq_encoded::<T>(items.subrange(1, items.len() as int)),
        }
    }
}

/// Extending the items extends what they encode to.
pub proof fn lemma_seq_encoded_push<T: Encodable>(items: Seq<T>, x: T)
    ensures
        seq_encoded::<T>(items.push(x)) == match x.spec_encoded() {
            Some(m) => seq_encoded::<T>(items).push(m),
            None => seq_encoded::<T>(items),
        },
    decreases items.len(),
{
    reveal_with_fuel(seq_encoded, 3);
    let p = items.push(x);
    if items.len() == 0 {
        assert(p.subrange(1, p.len() as int) =~= Seq::<T>::empty());
        match x.spec_encoded() {
            Some(m) => {
                assert(seq_encoded::<T>(p) =~= seq_encoded::<T>(items).push(m));
            }
            None => {}
        }
    } else {
        assert(p.subrange(1, p.len() as int) =~= items.subrange(1, items.len() as int).push(x));
        lemma_seq_encoded_push::<T>(items.subrange(1, items.len() as int), x);
        match items[0].spec_encoded() {
            Some(m0) => {
                match x.spec_encoded() {
                    Some(m) => {
                        assert(seq_encoded::<T>(p) =~= seq_encoded::<T>(items).push(m));
                    }
                    None => {}
                }
            }
            None => {}
        }
    }
}

impl<T: Encodable> Encodable for Vec<T> {
    open spec fn spec_encoded(&self) -> Option<Bval> {
        Some(Bval::List(seq_encoded::<T>(self@)))
    }

    /// Encodes each item in order, dropping the items that encode to
    /// nothing.
    fn to_bencode(&self) -> (r: Option<BencodeValue>) {
        let mut out: Vec<BencodeValue> = Vec::new();
        let n = self.len();
        proof {
            assert(self@.subrange(0, 0) =~= Seq::<T>::empty());
        }
        for i in 0..n
            invariant
                n == self@.len(),
                model_seq(out@) == seq_encoded::<T>(self@.subrange(0, i as int)),
        {
            proof {
                assert(self@.subrange(0, i as int).push(self@[i as int]) =~= self@.subrange(
                    0,
                    i + 1,
                ));
                lemma_seq_encoded_push::<T>(self@.subrange(0, i as int), self@[i as int]);
            }
            match self[i].to_bencode() {
                Some(v) => {
                    proof {
                        crate::value::lemma_model_seq_push(out@, v);
                    }
                    out.push(v);
                }
                None => {}
            }
        }
        proof {
            assert(self@.subrange(0, n as int) =~= self@);
        }
        Some(BencodeValue::List(out))
    }
}


/// What each string of a sequence encodes to: its own text, in order.
pub proof fn lemma_seq_encoded_strings(items: Seq<String>)
    ensures
        seq_encoded::<String>(items).len() == items.len(),
        forall|i: int|
            0 <= i < items.len() ==> #[trigger] seq_encoded::<String>(items)[i] == Bval::Str(
                items[i]@,
            ),
    decreases items.len(),
{
    if items.len() > 0 {
        let t = items.subrange(1, items.len() as int);
        lemma_seq_encoded_strings(t);
        assert forall|i: int| 0 <= i < items.len() implies #[trigger] seq_encoded::<String>(
            items,
        )[i] == Bval::Str(items[i]@) by {
            if i > 0 {
                assert(t[i - 1] == items[i]);
            }
        }
    }
}

} // verus!
