use vstd::prelude::*;
use crate::value::Bval;
use crate::value::key_lt;
use crate::value::entries_sorted;
use crate::value::entries_unique;
use crate::value::entries_map;
use crate::value::dict_get;
use crate::value::sorted_insert;
use crate::numtext::is_digit;
use crate::numtext::all_digits;
use crate::numtext::digits_nat;
use crate::numtext::dec_digits;
use crate::numtext::int_decimal;
use crate::numtext::int_digits_ok;
use crate::numtext::int_digits_value;
use crate::numtext::len_digits_ok;
use crate::numtext::lemma_dec_digits;
use crate::encode::encoded;
use crate::encode::encoded_items;
use crate::encode::encoded_entries;
use crate::encode::len_prefixed;
use crate::parse::Parsed;
use crate::parse::parse_value;
use crate::parse::parse_int_scan;
use crate::parse::parse_str_scan;
use crate::parse::parse_list_items;
use crate::parse::parse_dict_items;
use crate::parse::str_content;

verus! {

/// What the parser makes of a canonically encoded value: everything
/// comes back as it was, except that raw bytes which happen to be valid
/// UTF-8 come back as the text they spell.
pub open spec fn norm(m: Bval) -> Bval
    decreases m, 1int,
    via norm_dec
{
    match m {
        Bval::Int(n) => Bval::Int(n),
        Bval::Str(t) => Bval::Str(t),
        Bval::Bytes(b) => {
            if vstd::utf8::valid_utf8(b) {
                Bval::Str(vstd::utf8::decode_utf8(b))
            } else {
                Bval::Bytes(b)
            }
        },
        Bval::List(items) => Bval::List(norm_items(items)),
        Bval::Dict(entries) => Bval::Dict(norm_entries(entries)),
    }
}

/// [`norm`] applied to each item.
pub open spec fn norm_items(items: Seq<Bval>) -> Seq<Bval>
    decreases items, 0int,
    via norm_items_dec
{
    if items.len() == 0 {
        Seq::empty()
    } else {
        seq![norm(items[0])] + norm_items(items.subrange(1, items.len() as int))
    }
}

/// [`norm`] applied to each entry's value; keys are already text and
/// stay untouched.
pub open spec fn norm_entries(entries: Seq<(Seq<char>, Bval)>) -> Seq<(Seq<char>, Bval)>
    decreases entries, 0int,
    via norm_entries_dec
{
    if entries.len() == 0 {
        Seq::empty()
    } else {
        seq![(entries[0].0, norm(entries[0].1))] + norm_entries(
            entries.subrange(1, entries.len() as int),
        )
    }
}

#[via_fn]
proof fn norm_dec(m: Bval) {
    match m {
        Bval::List(items) => {
            assert(decreases_to!(m => items));
        }
        Bval::Dict(entries) => {
            assert(decreases_to!(m => entries));
        }
        _ => {}
    }
}

#[via_fn]
proof fn norm_items_dec(items: Seq<Bval>) {
    if items.len() > 0 {
        assert(decreases_to!(items => items[0]));
        vstd::seq::axiom_seq_len_decreases(items, items.subrange(1, items.len() as int));
    }
}

#[via_fn]
proof fn norm_entries_dec(entries: Seq<(Seq<char>, Bval)>) {
    if entries.len() > 0 {
        assert(decreases_to!(entries => entries[0]));
        assert(decreases_to!(entries[0] => entries[0].1));
        vstd::seq::axiom_seq_len_decreases(entries, entries.subrange(1, entries.len() as int));
    }
}

/// A canonical value: every dictionary in it, at every depth, holds its
/// entries strictly sorted by key. Every model the library extracts is
/// canonical.
pub open spec fn canonical_wf(m: Bval) -> bool
    decreases m, 1int,
    via canonical_wf_dec
{
    match m {
        Bval::Int(_) => true,
        Bval::Str(_) => true,
        Bval::Bytes(_) => true,
        Bval::List(items) => cwf_items(items),
        Bval::Dict(entries) => entries_sorted(entries) && cwf_entries(entries),
    }
}

/// Every item is canonical.
pub open spec fn cwf_items(items: Seq<Bval>) -> bool
    decreases items, 0int,
    via cwf_items_dec
{
    if items.len() == 0 {
        true
    } else {
        canonical_wf(items[0]) && cwf_items(items.subrange(1, items.len() as int))
    }
}

/// Every entry's value is canonical.
pub open spec fn cwf_entries(entries: Seq<(Seq<char>, Bval)>) -> bool
    decreases entries, 0int,
    via cwf_entries_dec
{
    if entries.len() == 0 {
        true
    } else {
        canonical_wf(entries[0].1) && cwf_entries(entries.subrange(1, entries.len() as int))
    }
}

#[via_fn]
proof fn canonical_wf_dec(m: Bval) {
    match m {
        Bval::List(items) => {
            assert(decreases_to!(m => items));
        }
        Bval::Dict(entries) => {
            assert(decreases_to!(m => entries));
        }
        _ => {}
    }
}

#[via_fn]
proof fn cwf_items_dec(items: Seq<Bval>) {
    if items.len() > 0 {
        assert(decreases_to!(items => items[0]));
        vstd::seq::axiom_seq_len_decreases(items, items.subrange(1, items.len() as int));
    }
}

#[via_fn]
proof fn cwf_entries_dec(entries: Seq<(Seq<char>, Bval)>) {
    if entries.len() > 0 {
        assert(decreases_to!(entries => entries[0]));
        assert(decreases_to!(entries[0] => entries[0].1));
        vstd::seq::axiom_seq_len_decreases(entries, entries.subrange(1, entries.len() as int));
    }
}

/// [`norm_items`], element by element.
proof fn lemma_norm_items_index(items: Seq<Bval>)
    ensures
        norm_items(items).len() == items.len(),
        forall|i: int| 0 <= i < items.len() ==> #[trigger] norm_items(items)[i] == norm(items[i]),
    decreases items.len(),
{
    if items.len() > 0 {
        let t = items.subrange(1, items.len() as int);
        lemma_norm_items_index(t);
        assert forall|i: int| 0 <= i < items.len() implies #[trigger] norm_items(items)[i]
            == norm(items[i]) by {
            if i > 0 {
                assert(t[i - 1] == items[i]);
            }
        }
    }
}

/// [`norm_entries`], element by element: keys stay, values normalize.
proof fn lemma_norm_entries_index(entries: Seq<(Seq<char>, Bval)>)
    ensures
        norm_entries(entries).len() == entries.len(),
        forall|i: int|
            0 <= i < entries.len() ==> #[trigger] norm_entries(entries)[i] == (
                entries[i].0,
                norm(entries[i].1),
            ),
    decreases entries.len(),
{
    if entries.len() > 0 {
        let t = entries.subrange(1, entries.len() as int);
        lemma_norm_entries_index(t);
        assert forall|i: int| 0 <= i < entries.len() implies #[trigger] norm_entries(entries)[i]
            == (entries[i].0, norm(entries[i].1)) by {
            if i > 0 {
                assert(t[i - 1] == entries[i]);
            }
        }
    }
}

/// Scanning a run of plain digits accumulates exactly those digits.
proof fn lemma_int_scan_run(s: Seq<u8>, pos: int, acc: Seq<u8>, ds: Seq<u8>)
    requires
        all_digits(ds),
        0 <= pos,
        pos + ds.len() <= s.len(),
        s.subrange(pos, pos + ds.len()) == ds,
    ensures
        parse_int_scan(s, pos, acc) == parse_int_scan(s, pos + ds.len(), acc + ds),
    decreases ds.len(),
{
    if ds.len() == 0 {
        assert(acc + ds =~= acc);
    } else {
        assert(s[pos] == ds[0]);
        assert(is_digit(ds[0]));
        let t = ds.subrange(1, ds.len() as int);
        assert(s.subrange(pos + 1, pos + 1 + t.len()) =~= t);
        assert(all_digits(t)) by {
            assert forall|j: int| 0 <= j < t.len() implies is_digit(t[j]) by {
                assert(t[j] == ds[j + 1]);
            }
        }
        lemma_int_scan_run(s, pos + 1, acc.push(ds[0]), t);
        assert(acc.push(ds[0]) + t =~= acc + ds);
    }
}

/// The string-length scanner over a run of plain digits.
proof fn lemma_str_scan_run(s: Seq<u8>, pos: int, acc: Seq<u8>, ds: Seq<u8>)
    requires
        all_digits(ds),
        0 <= pos,
        pos + ds.len() <= s.len(),
        s.subrange(pos, pos + ds.len()) == ds,
    ensures
        parse_str_scan(s, pos, acc) == parse_str_scan(s, pos + ds.len(), acc + ds),
    decreases ds.len(),
{
    if ds.len() == 0 {
        assert(acc + ds =~= acc);
    } else {
        assert(s[pos] == ds[0]);
        assert(is_digit(ds[0]));
        assert(ds[0] != 58);
        let t = ds.subrange(1, ds.len() as int);
        assert(s.subrange(pos + 1, pos + 1 + t.len()) =~= t);
        assert(all_digits(t)) by {
            assert forall|j: int| 0 <= j < t.len() implies is_digit(t[j]) by {
                assert(t[j] == ds[j + 1]);
            }
        }
        lemma_str_scan_run(s, pos + 1, acc.push(ds[0]), t);
        assert(acc.push(ds[0]) + t =~= acc + ds);
    }
}

/// Parsing `i<decimal>e` yields exactly the encoded integer.
proof fn lemma_parse_int(n: i64, s: Seq<u8>, pos: int)
    requires
        0 <= pos,
        pos + encoded(Bval::Int(n)).len() <= s.len(),
        s.subrange(pos, pos + encoded(Bval::Int(n)).len()) == encoded(Bval::Int(n)),
    ensures
        parse_value(s, pos) == Parsed::Found(Bval::Int(n), pos + encoded(Bval::Int(n)).len()),
{
    let enc = encoded(Bval::Int(n));
    let body = int_decimal(n);
    assert(enc == seq![105u8] + body + seq![101u8]);
    assert(s[pos] == 105) by {
        assert(s.subrange(pos, pos + enc.len())[0] == enc[0]);
    }
    if n < 0 {
        let mag = (-(n as int)) as nat;
        lemma_dec_digits(mag);
        let ds = dec_digits(mag);
        assert(body == seq![45u8] + ds);
        assert(s[pos + 1] == 45) by {
            assert(s.subrange(pos, pos + enc.len())[1] == enc[1]);
        }
        assert(parse_int_scan(s, pos + 1, Seq::empty()) == parse_int_scan(
            s,
            pos + 2,
            seq![45u8],
        )) by {
            assert(Seq::<u8>::empty().push(45u8) =~= seq![45u8]);
        }
        assert(s.subrange(pos + 2, pos + 2 + ds.len()) =~= ds) by {
            assert forall|j: int| 0 <= j < ds.len() implies s.subrange(
                pos + 2,
                pos + 2 + ds.len(),
            )[j] == ds[j] by {
                assert(s.subrange(pos, pos + enc.len())[j + 2] == enc[j + 2]);
                assert(enc[j + 2] == ds[j]);
            }
        }
        lemma_int_scan_run(s, pos + 2, seq![45u8], ds);
        let acc = seq![45u8] + ds;
        assert(s[pos + 2 + ds.len()] == 101) by {
            assert(s.subrange(pos, pos + enc.len())[enc.len() - 1] == enc[enc.len() - 1]);
        }
        assert(int_digits_ok(acc)) by {
            assert(acc[0] == 45);
            assert(acc.subrange(1, acc.len() as int) =~= ds);
        }
        assert(int_digits_value(acc) == n) by {
            assert(acc.subrange(1, acc.len() as int) =~= ds);
        }
    } else {
        let mag = n as nat;
        lemma_dec_digits(mag);
        let ds = dec_digits(mag);
        assert(body == ds);
        assert(s.subrange(pos + 1, pos + 1 + ds.len()) =~= ds) by {
            assert forall|j: int| 0 <= j < ds.len() implies s.subrange(
                pos + 1,
                pos + 1 + ds.len(),
            )[j] == ds[j] by {
                assert(s.subrange(pos, pos + enc.len())[j + 1] == enc[j + 1]);
                assert(enc[j + 1] == ds[j]);
            }
        }
        lemma_int_scan_run(s, pos + 1, Seq::empty(), ds);
        assert(Seq::<u8>::empty() + ds =~= ds);
        assert(s[pos + 1 + ds.len()] == 101) by {
            assert(s.subrange(pos, pos + enc.len())[enc.len() - 1] == enc[enc.len() - 1]);
        }
        assert(int_digits_ok(ds)) by {
            assert(ds[0] != 45);
        }
        assert(int_digits_value(ds) == n) by {
            assert(ds[0] != 45);
        }
    }
}

/// Parsing a length-prefixed string yields text when the content is
/// valid UTF-8 and the raw bytes otherwise.
proof fn lemma_parse_string_bytes(content: Seq<u8>, s: Seq<u8>, pos: int)
    requires
        0 <= pos,
        s.len() <= usize::MAX,
        pos + len_prefixed(content).len() <= s.len(),
        s.subrange(pos, pos + len_prefixed(content).len()) == len_prefixed(content),
    ensures
        parse_value(s, pos) == Parsed::Found(
            if vstd::utf8::valid_utf8(content) {
                Bval::Str(vstd::utf8::decode_utf8(content))
            } else {
                Bval::Bytes(content)
            },
            pos + len_prefixed(content).len(),
        ),
{
    let enc = len_prefixed(content);
    lemma_dec_digits(content.len());
    let ds = dec_digits(content.len());
    assert(enc == ds + seq![58u8] + content);
    assert(s[pos] == ds[0]) by {
        assert(s.subrange(pos, pos + enc.len())[0] == enc[0]);
        assert(enc[0] == ds[0]);
    }
    assert(is_digit(s[pos]));
    assert(s[pos] != 105 && s[pos] != 108 && s[pos] != 100);
    let t = ds.subrange(1, ds.len() as int);
    assert(all_digits(t)) by {
        assert forall|j: int| 0 <= j < t.len() implies is_digit(t[j]) by {
            assert(t[j] == ds[j + 1]);
        }
    }
    assert(s.subrange(pos + 1, pos + 1 + t.len()) =~= t) by {
        assert forall|j: int| 0 <= j < t.len() implies s.subrange(pos + 1, pos + 1 + t.len())[j]
            == t[j] by {
            assert(s.subrange(pos, pos + enc.len())[j + 1] == enc[j + 1]);
            assert(enc[j + 1] == ds[j + 1]);
        }
    }
    lemma_str_scan_run(s, pos + 1, seq![ds[0]], t);
    assert(seq![ds[0]] + t =~= ds);
    let after = pos + ds.len();
    assert(s[after] == 58) by {
        assert(s.subrange(pos, pos + enc.len())[ds.len() as int] == enc[ds.len() as int]);
    }
    assert(len_digits_ok(ds)) by {
        assert(digits_nat(ds) == content.len());
    }
    assert(s.subrange(after + 1, after + 1 + content.len()) =~= content) by {
        assert forall|j: int| 0 <= j < content.len() implies s.subrange(
            after + 1,
            after + 1 + content.len(),
        )[j] == content[j] by {
            assert(s.subrange(pos, pos + enc.len())[ds.len() + 1 + j] == enc[ds.len() + 1 + j]);
            assert(enc[ds.len() + 1 + j] == content[j]);
        }
    }
    assert(str_content(s, after + 1, digits_nat(ds)) == Parsed::Found(
        if vstd::utf8::valid_utf8(content) {
            Bval::Str(vstd::utf8::decode_utf8(content))
        } else {
            Bval::Bytes(content)
        },
        pos + enc.len(),
    ));
}

/// Inserting a key above every key of a sorted sequence appends it.
proof fn lemma_sorted_insert_append(sorted: Seq<(Seq<char>, Bval)>, k: Seq<char>, v: Bval)
    requires
        forall|j: int| 0 <= j < sorted.len() ==> key_lt((#[trigger] sorted[j]).0, k),
    ensures
        sorted_insert(sorted, k, v) == sorted.push((k, v)),
    decreases sorted.len(),
{
    if sorted.len() == 0 {
        assert(sorted_insert(sorted, k, v) =~= sorted.push((k, v)));
    } else {
        crate::canon::lemma_key_lt_asym(sorted[0].0, k);
        assert(sorted[0].0 != k) by {
            if sorted[0].0 == k {
                crate::canon::lemma_key_lt_irrefl(k);
            }
        }
        let t = sorted.subrange(1, sorted.len() as int);
        assert forall|j: int| 0 <= j < t.len() implies key_lt((#[trigger] t[j]).0, k) by {
            assert(t[j] == sorted[j + 1]);
        }
        lemma_sorted_insert_append(t, k, v);
        assert(sorted_insert(sorted, k, v) =~= sorted.push((k, v)));
    }
}

/// The first byte of any encoding selects the right reader and is never
/// the terminator.
proof fn lemma_encoded_first_byte(m: Bval)
    ensures
        encoded(m).len() >= 2,
        encoded(m)[0] != 101,
    decreases m,
{
    match m {
        Bval::Int(_) => {}
        Bval::Str(t) => {
            lemma_dec_digits(vstd::utf8::encode_utf8(t).len());
            assert(encoded(m)[0] == dec_digits(vstd::utf8::encode_utf8(t).len())[0]);
        }
        Bval::Bytes(b) => {
            lemma_dec_digits(b.len());
            assert(encoded(m)[0] == dec_digits(b.len())[0]);
        }
        Bval::List(_) => {}
        Bval::Dict(_) => {}
    }
}

/// Parsing the canonical encoding of a canonical value yields the value
/// back, normalized, and consumes exactly the encoding.
pub proof fn lemma_parse_canonical(m: Bval, s: Seq<u8>, pos: int)
    requires
        canonical_wf(m),
        0 <= pos,
        s.len() <= usize::MAX,
        pos + encoded(m).len() <= s.len(),
        s.subrange(pos, pos + encoded(m).len()) == encoded(m),
    ensures
        parse_value(s, pos) == Parsed::Found(norm(m), pos + encoded(m).len()),
    decreases m, 1int,
{
    let enc = encoded(m);
    match m {
        Bval::Int(n) => {
            lemma_parse_int(n, s, pos);
        }
        Bval::Str(t) => {
            broadcast use vstd::utf8::encode_utf8_valid_utf8;
            broadcast use vstd::utf8::encode_utf8_decode_utf8;

            lemma_parse_string_bytes(vstd::utf8::encode_utf8(t), s, pos);
        }
        Bval::Bytes(b) => {
            lemma_parse_string_bytes(b, s, pos);
        }
        Bval::List(items) => {
            assert(decreases_to!(m => items));
            assert(enc == seq![108u8] + encoded_items(items) + seq![101u8]);
            assert(s[pos] == 108) by {
                assert(s.subrange(pos, pos + enc.len())[0] == enc[0]);
            }
            let il = encoded_items(items).len() as int;
            assert(s.subrange(pos + 1, pos + 1 + il) =~= encoded_items(items)) by {
                assert forall|j: int| 0 <= j < il implies s.subrange(pos + 1, pos + 1 + il)[j]
                    == encoded_items(items)[j] by {
                    assert(s.subrange(pos, pos + enc.len())[j + 1] == enc[j + 1]);
                }
            }
            assert(s[pos + 1 + il] == 101) by {
                assert(s.subrange(pos, pos + enc.len())[enc.len() - 1] == enc[enc.len() - 1]);
            }
            lemma_parse_items(items, s, pos + 1, Seq::empty());
            assert(Seq::<Bval>::empty() + norm_items(items) =~= norm_items(items));
        }
        Bval::Dict(entries) => {
            assert(decreases_to!(m => entries));
            assert(enc == seq![100u8] + encoded_entries(entries) + seq![101u8]);
            assert(s[pos] == 100) by {
                assert(s.subrange(pos, pos + enc.len())[0] == enc[0]);
            }
            let el = encoded_entries(entries).len() as int;
            assert(s.subrange(pos + 1, pos + 1 + el) =~= encoded_entries(entries)) by {
                assert forall|j: int| 0 <= j < el implies s.subrange(pos + 1, pos + 1 + el)[j]
                    == encoded_entries(entries)[j] by {
                    assert(s.subrange(pos, pos + enc.len())[j + 1] == enc[j + 1]);
                }
            }
            assert(s[pos + 1 + el] == 101) by {
                assert(s.subrange(pos, pos + enc.len())[enc.len() - 1] == enc[enc.len() - 1]);
            }
            lemma_norm_entries_index(entries);
            lemma_parse_entries(entries, s, pos + 1, Seq::empty());
            assert(Seq::<(Seq<char>, Bval)>::empty() + norm_entries(entries) =~= norm_entries(
                entries,
            ));
        }
    }
}

/// Parsing consecutive item encodings up to a terminator accumulates
/// the normalized items in order.
proof fn lemma_parse_items(items: Seq<Bval>, s: Seq<u8>, pos: int, acc: Seq<Bval>)
    requires
        cwf_items(items),
        0 <= pos,
        s.len() <= usize::MAX,
        pos + encoded_items(items).len() < s.len(),
        s.subrange(pos, pos + encoded_items(items).len()) == encoded_items(items),
        s[pos + encoded_items(items).len()] == 101,
    ensures
        parse_list_items(s, pos, acc) == Parsed::Found(
            Bval::List(acc + norm_items(items)),
            pos + encoded_items(items).len() + 1,
        ),
    decreases items, 0int,
{
    if items.len() == 0 {
        assert(acc + norm_items(items) =~= acc);
    } else {
        assert(decreases_to!(items => items[0]));
        let head = items[0];
        let tail = items.subrange(1, items.len() as int);
        let hl = encoded(head).len() as int;
        let tl = encoded_items(tail).len() as int;
        assert(encoded_items(items) == encoded(head) + encoded_items(tail));
        assert(s.subrange(pos, pos + hl) =~= encoded(head)) by {
            assert forall|j: int| 0 <= j < hl implies s.subrange(pos, pos + hl)[j] == encoded(
                head,
            )[j] by {
                assert(s.subrange(pos, pos + hl + tl)[j] == encoded_items(items)[j]);
            }
        }
        lemma_encoded_first_byte(head);
        assert(s[pos] != 101) by {
            assert(s.subrange(pos, pos + hl)[0] == encoded(head)[0]);
        }
        lemma_parse_canonical(head, s, pos);
        assert(s.subrange(pos + hl, pos + hl + tl) =~= encoded_items(tail)) by {
            assert forall|j: int| 0 <= j < tl implies s.subrange(pos + hl, pos + hl + tl)[j]
                == encoded_items(tail)[j] by {
                assert(s.subrange(pos, pos + hl + tl)[hl + j] == encoded_items(items)[hl + j]);
            }
        }
        lemma_parse_items(tail, s, pos + hl, acc.push(norm(head)));
        lemma_norm_items_index(items);
        lemma_norm_items_index(tail);
        assert(acc.push(norm(head)) + norm_items(tail) =~= acc + norm_items(items));
    }
}

/// Parsing consecutive entry encodings up to a terminator accumulates
/// the normalized entries; since keys arrive in strictly increasing
/// order, each sorted insertion is an append.
proof fn lemma_parse_entries(
    entries: Seq<(Seq<char>, Bval)>,
    s: Seq<u8>,
    pos: int,
    acc: Seq<(Seq<char>, Bval)>,
)
    requires
        cwf_entries(entries),
        entries_sorted(entries),
        forall|a: int, b: int|
            0 <= a < acc.len() && 0 <= b < entries.len() ==> key_lt(
                (#[trigger] acc[a]).0,
                (#[trigger] entries[b]).0,
            ),
        0 <= pos,
        s.len() <= usize::MAX,
        pos + encoded_entries(entries).len() < s.len(),
        s.subrange(pos, pos + encoded_entries(entries).len()) == encoded_entries(entries),
        s[pos + encoded_entries(entries).len()] == 101,
    ensures
        parse_dict_items(s, pos, acc) == Parsed::Found(
            Bval::Dict(acc + norm_entries(entries)),
            pos + encoded_entries(entries).len() + 1,
        ),
    decreases entries, 0int,
{
    if entries.len() == 0 {
        assert(acc + norm_entries(entries) =~= acc);
    } else {
        assert(decreases_to!(entries => entries[0]));
        assert(decreases_to!(entries[0] => entries[0].1));
        let key = entries[0].0;
        let val = entries[0].1;
        let tail = entries.subrange(1, entries.len() as int);
        let kenc = len_prefixed(vstd::utf8::encode_utf8(key));
        let kl = kenc.len() as int;
        let vl = encoded(val).len() as int;
        let tl = encoded_entries(tail).len() as int;
        assert(encoded_entries(entries) == kenc + encoded(val) + encoded_entries(tail));
        assert(s.subrange(pos, pos + kl) =~= kenc) by {
            assert forall|j: int| 0 <= j < kl implies s.subrange(pos, pos + kl)[j] == kenc[j] by {
                assert(s.subrange(pos, pos + kl + vl + tl)[j] == encoded_entries(entries)[j]);
            }
        }
        lemma_dec_digits(vstd::utf8::encode_utf8(key).len());
        assert(s[pos] != 101) by {
            assert(s.subrange(pos, pos + kl)[0] == kenc[0]);
            assert(kenc[0] == dec_digits(vstd::utf8::encode_utf8(key).len())[0]);
        }
        broadcast use vstd::utf8::encode_utf8_valid_utf8;
        broadcast use vstd::utf8::encode_utf8_decode_utf8;

        lemma_parse_string_bytes(vstd::utf8::encode_utf8(key), s, pos);
        assert(parse_value(s, pos) == Parsed::Found(Bval::Str(key), pos + kl));
        assert(s.subrange(pos + kl, pos + kl + vl) =~= encoded(val)) by {
            assert forall|j: int| 0 <= j < vl implies s.subrange(pos + kl, pos + kl + vl)[j]
                == encoded(val)[j] by {
                assert(s.subrange(pos, pos + kl + vl + tl)[kl + j] == encoded_entries(
                    entries,
                )[kl + j]);
            }
        }
        lemma_parse_canonical(val, s, pos + kl);
        assert(s.subrange(pos + kl + vl, pos + kl + vl + tl) =~= encoded_entries(tail)) by {
            assert forall|j: int| 0 <= j < tl implies s.subrange(
                pos + kl + vl,
                pos + kl + vl + tl,
            )[j] == encoded_entries(tail)[j] by {
                assert(s.subrange(pos, pos + kl + vl + tl)[kl + vl + j] == encoded_entries(
                    entries,
                )[kl + vl + j]);
            }
        }
        assert forall|a: int| 0 <= a < acc.len() implies key_lt((#[trigger] acc[a]).0, key) by {
            assert(entries[0].0 == key);
        }
        lemma_sorted_insert_append(acc, key, norm(val));
        let acc2 = acc.push((key, norm(val)));
        assert(entries_sorted(tail)) by {
            assert forall|a: int, b: int| 0 <= a < b < tail.len() implies key_lt(
                (#[trigger] tail[a]).0,
                (#[trigger] tail[b]).0,
            ) by {
                assert(tail[a] == entries[a + 1]);
                assert(tail[b] == entries[b + 1]);
            }
        }
        assert forall|a: int, b: int|
            0 <= a < acc2.len() && 0 <= b < tail.len() implies key_lt(
            (#[trigger] acc2[a]).0,
            (#[trigger] tail[b]).0,
        ) by {
            assert(tail[b] == entries[b + 1]);
            if a < acc.len() {
                assert(key_lt(acc[a].0, entries[b + 1].0));
            } else {
                assert(acc2[a].0 == key);
                assert(key_lt(entries[0].0, entries[b + 1].0));
            }
        }
        lemma_parse_entries(tail, s, pos + kl + vl, acc2);
        lemma_norm_entries_index(entries);
        lemma_norm_entries_index(tail);
        assert(acc2 + norm_entries(tail) =~= acc + norm_entries(entries));
    }
}


/// [`cwf_items`], element by element.
proof fn lemma_cwf_items_index(items: Seq<Bval>)
    ensures
        cwf_items(items) <==> (forall|i: int|
            0 <= i < items.len() ==> canonical_wf(#[trigger] items[i])),
    decreases items.len(),
{
    if items.len() > 0 {
        let t = items.subrange(1, items.len() as int);
        lemma_cwf_items_index(t);
        assert forall|i: int| 0 <= i < t.len() implies t[i] == items[i + 1] by {}
        if cwf_items(items) {
            assert forall|i: int| 0 <= i < items.len() implies canonical_wf(
                #[trigger] items[i],
            ) by {
                if i > 0 {
                    assert(canonical_wf(t[i - 1]));
                }
            }
        }
        if forall|i: int| 0 <= i < items.len() ==> canonical_wf(#[trigger] items[i]) {
            assert forall|i: int| 0 <= i < t.len() implies canonical_wf(#[trigger] t[i]) by {
                assert(canonical_wf(items[i + 1]));
            }
        }
    }
}

/// [`cwf_entries`], element by element.
proof fn lemma_cwf_entries_index(entries: Seq<(Seq<char>, Bval)>)
    ensures
        cwf_entries(entries) <==> (forall|i: int|
            0 <= i < entries.len() ==> canonical_wf((#[trigger] entries[i]).1)),
    decreases entries.len(),
{
    if entries.len() > 0 {
        let t = entries.subrange(1, entries.len() as int);
        lemma_cwf_entries_index(t);
        assert forall|i: int| 0 <= i < t.len() implies t[i] == entries[i + 1] by {}
        if cwf_entries(entries) {
            assert forall|i: int| 0 <= i < entries.len() implies canonical_wf(
                (#[trigger] entries[i]).1,
            ) by {
                if i > 0 {
                    assert(canonical_wf(t[i - 1].1));
                }
            }
        }
        if forall|i: int| 0 <= i < entries.len() ==> canonical_wf((#[trigger] entries[i]).1) {
            assert forall|i: int| 0 <= i < t.len() implies canonical_wf((#[trigger] t[i]).1) by {
                assert(canonical_wf(entries[i + 1].1));
            }
        }
    }
}

/// The model of every value is canonical: its dictionaries are sorted at
/// every depth, because the model extraction sorts them.
pub proof fn lemma_model_canonical(v: crate::value::BencodeValue)
    ensures
        canonical_wf(crate::value::model(v)),
    decreases v, 1int,
{
    match v {
        crate::value::BencodeValue::List(items) => {
            assert(decreases_to!(v => items));
            assert(decreases_to!(items => items@));
            lemma_model_canonical_seq(items@);
        }
        crate::value::BencodeValue::Dictionary(m) => {
            assert(decreases_to!(v => m));
            crate::iomap::InsertOrderMap::<crate::value::BencodeValue>::lemma_view_decreases(m);
            lemma_model_canonical_entries(m@);
            let me = crate::value::entry_models(m@);
            crate::canon::lemma_canon_sorted(me);
            crate::canon::lemma_canon_contains(me);
            lemma_cwf_entries_index(crate::value::canon(me));
            assert forall|i: int| 0 <= i < crate::value::canon(me).len() implies canonical_wf(
                (#[trigger] crate::value::canon(me)[i]).1,
            ) by {
                let w = choose|w: int|
                    0 <= w < me.len() && me[w] == crate::value::canon(me)[i];
                assert(canonical_wf(me[w].1));
            }
        }
        _ => {}
    }
}

/// Every item model in a sequence is canonical.
proof fn lemma_model_canonical_seq(items: Seq<crate::value::BencodeValue>)
    ensures
        cwf_items(crate::value::model_seq(items)),
    decreases items, 0int,
{
    if items.len() > 0 {
        assert(decreases_to!(items => items[0]));
        lemma_model_canonical(items[0]);
        vstd::seq::axiom_seq_len_decreases(items, items.subrange(1, items.len() as int));
        lemma_model_canonical_seq(items.subrange(1, items.len() as int));
        let ms = crate::value::model_seq(items);
        assert(ms.subrange(1, ms.len() as int) =~= crate::value::model_seq(
            items.subrange(1, items.len() as int),
        ));
    }
}

/// Every entry-value model in a map view is canonical.
proof fn lemma_model_canonical_entries(entries: Seq<(String, crate::value::BencodeValue)>)
    ensures
        forall|i: int|
            0 <= i < crate::value::entry_models(entries).len() ==> canonical_wf(
                (#[trigger] crate::value::entry_models(entries)[i]).1,
            ),
    decreases entries, 0int,
{
    if entries.len() > 0 {
        let n = entries.len() as int;
        assert(decreases_to!(entries => entries[n - 1]));
        assert(decreases_to!(entries[n - 1] => entries[n - 1].1));
        lemma_model_canonical(entries.last().1);
        vstd::seq::axiom_seq_len_decreases(entries, entries.subrange(0, n - 1));
        lemma_model_canonical_entries(entries.subrange(0, n - 1));
        let me = crate::value::entry_models(entries);
        let head = crate::value::entry_models(entries.subrange(0, n - 1));
        assert forall|i: int| 0 <= i < me.len() implies canonical_wf((#[trigger] me[i]).1) by {
            if i < me.len() - 1 {
                assert(me[i] == head[i]);
            }
        }
    }
}

/// Round trip at the wire level: the canonical encoding of any value
/// parses back to that value, normalized, consuming the whole encoding.
pub proof fn lemma_read_of_encode(v: crate::value::BencodeValue)
    requires
        encoded(crate::value::model(v)).len() <= usize::MAX,
    ensures
        parse_value(encoded(crate::value::model(v)), 0) == Parsed::Found(
            norm(crate::value::model(v)),
            encoded(crate::value::model(v)).len() as int,
        ),
{
    let m = crate::value::model(v);
    lemma_model_canonical(v);
    assert(encoded(m).subrange(0, encoded(m).len() as int) =~= encoded(m));
    lemma_parse_canonical(m, encoded(m), 0);
}


/// [`norm_entries`], element by element, for callers outside this module.
pub proof fn lemma_norm_entries_public(entries: Seq<(Seq<char>, Bval)>)
    ensures
        norm_entries(entries).len() == entries.len(),
        forall|i: int|
            0 <= i < entries.len() ==> #[trigger] norm_entries(entries)[i] == (
                entries[i].0,
                norm(entries[i].1),
            ),
{
    lemma_norm_entries_index(entries);
}

/// [`norm_items`], element by element, for callers outside this module.
pub proof fn lemma_norm_items_public(items: Seq<Bval>)
    ensures
        norm_items(items).len() == items.len(),
        forall|i: int| 0 <= i < items.len() ==> #[trigger] norm_items(items)[i] == norm(items[i]),
{
    lemma_norm_items_index(items);
}

/// Looking a key up among normalized entries finds the normalized value
/// of what the key was bound to, when the keys are pairwise distinct.
pub proof fn lemma_dict_get_norm(e: Seq<(Seq<char>, Bval)>, k: Seq<char>)
    requires
        entries_unique(e),
    ensures
        dict_get(norm_entries(e), k) == match dict_get(e, k) {
            Some(v) => Some(norm(v)),
            None => None::<Bval>,
        },
{
    let ne = norm_entries(e);
    lemma_norm_entries_index(e);
    assert(entries_unique(ne)) by {
        assert forall|p: int, q: int| 0 <= p < q < ne.len() implies (#[trigger] ne[p]).0 != (
        #[trigger] ne[q]).0 by {
            assert(ne[p].0 == e[p].0);
            assert(ne[q].0 == e[q].0);
        }
    }
    crate::canon::lemma_entries_map_dom(e);
    crate::canon::lemma_entries_map_dom(ne);
    if entries_map(e).contains_key(k) {
        let i = choose|i: int| 0 <= i < e.len() && (#[trigger] e[i]).0 == k;
        crate::canon::lemma_entries_map_unique_val(e, i);
        assert(ne[i].0 == k);
        crate::canon::lemma_entries_map_unique_val(ne, i);
    } else {
        if entries_map(ne).contains_key(k) {
            let i = choose|i: int| 0 <= i < ne.len() && (#[trigger] ne[i]).0 == k;
            assert(e[i].0 == k);
        }
    }
}

/// A list of text values is untouched by normalization.
pub proof fn lemma_norm_all_str(items: Seq<Bval>)
    requires
        forall|i: int| 0 <= i < items.len() ==> (#[trigger] items[i]) matches Bval::Str(t),
    ensures
        norm(Bval::List(items)) == Bval::List(items),
{
    lemma_norm_items_index(items);
    assert forall|i: int| 0 <= i < items.len() implies #[trigger] norm_items(items)[i]
        == items[i] by {
        assert(items[i] matches Bval::Str(t));
    }
    assert(norm_items(items) =~= items);
}

} // verus!
