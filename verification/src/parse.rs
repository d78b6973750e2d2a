use vstd::prelude::*;
use crate::error::BencodeError;
use crate::error::ErrorKind;
use crate::iomap::InsertOrderMap;
use crate::iomap::lemma_first_key_index_bounds;
use crate::value::BencodeValue;
use crate::value::Bval;
use crate::value::model;
use crate::value::model_seq;
use crate::value::entry_models;
use crate::value::entries_unique;
use crate::value::value_wf;
use crate::value::wf_seq;
use crate::value::wf_entries;
use crate::value::lemma_wf_seq_index;
use crate::value::lemma_wf_entries_index;
use crate::value::canon;
use crate::value::sorted_insert;
use crate::value::lemma_model_seq_push;
use crate::value::lemma_entry_models_index;
use crate::value::lemma_entry_models_push;
use crate::value::lemma_entry_models_update;
use crate::canon::lemma_canon_push;
use crate::canon::lemma_canon_update;
use crate::numtext::is_digit;
use crate::numtext::int_digits_ok;
use crate::numtext::int_digits_value;
use crate::numtext::len_digits_ok;
use crate::numtext::digits_nat;
use crate::numtext::digits_to_i64;
use crate::numtext::digits_to_usize;

verus! {

/// What parsing one item of the grammar at a given position yields: a
/// value and the position just past it, or a truncated input, or input
/// that does not match the grammar.
pub enum Parsed {
    /// The parsed value and the position of the first byte after it.
    Found(Bval, int),
    /// The input ended before the item was complete.
    Truncated,
    /// A byte did not match the grammar, or a literal was out of range.
    Malformed,
}

/// Parses one value at `pos`: dispatches on the byte there, exactly as
/// the reader does.
pub open spec fn parse_value(s: Seq<u8>, pos: int) -> Parsed
    decreases s.len() - pos, 0int,
{
    if pos < 0 || pos >= s.len() {
        Parsed::Truncated
    } else if s[pos] == 105 {
        parse_int_scan(s, pos + 1, Seq::empty())
    } else if is_digit(s[pos]) {
        parse_str_scan(s, pos + 1, seq![s[pos]])
    } else if s[pos] == 108 {
        parse_list_items(s, pos + 1, Seq::empty())
    } else if s[pos] == 100 {
        parse_dict_items(s, pos + 1, Seq::empty())
    } else {
        Parsed::Malformed
    }
}

/// Scans an integer literal after `i`, having read `digits` so far: a
/// minus sign is allowed first, digits follow, `e` ends the literal, and
/// the accumulated text must denote an `i64`.
pub open spec fn parse_int_scan(s: Seq<u8>, pos: int, digits: Seq<u8>) -> Parsed
    decreases s.len() - pos, 1int,
{
    if pos < 0 || pos >= s.len() {
        Parsed::Truncated
    } else if s[pos] == 101 {
        if int_digits_ok(digits) {
            Parsed::Found(Bval::Int(int_digits_value(digits) as i64), pos + 1)
        } else {
            Parsed::Malformed
        }
    } else if s[pos] == 45 && digits.len() == 0 {
        parse_int_scan(s, pos + 1, digits.push(45))
    } else if is_digit(s[pos]) {
        parse_int_scan(s, pos + 1, digits.push(s[pos]))
    } else {
        Parsed::Malformed
    }
}

/// The tail of a string item once its length is known: `len` content
/// bytes must remain; they decode to text when they are valid UTF-8 and
/// stay raw bytes otherwise.
pub open spec fn str_content(s: Seq<u8>, pos: int, len: nat) -> Parsed {
    if pos < 0 || pos + len > s.len() {
        Parsed::Truncated
    } else {
        let content = s.subrange(pos, pos + len);
        if vstd::utf8::valid_utf8(content) {
            Parsed::Found(Bval::Str(vstd::utf8::decode_utf8(content)), pos + len)
        } else {
            Parsed::Found(Bval::Bytes(content), pos + len)
        }
    }
}

/// Scans a string length prefix, having read `digits` so far: digits run
/// up to a colon and must denote a `usize`; the content follows.
pub open spec fn parse_str_scan(s: Seq<u8>, pos: int, digits: Seq<u8>) -> Parsed
    decreases s.len() - pos, 1int,
{
    if pos < 0 || pos >= s.len() {
        Parsed::Truncated
    } else if s[pos] == 58 {
        if len_digits_ok(digits) {
            str_content(s, pos + 1, digits_nat(digits))
        } else {
            Parsed::Malformed
        }
    } else if is_digit(s[pos]) {
        parse_str_scan(s, pos + 1, digits.push(s[pos]))
    } else {
        Parsed::Malformed
    }
}

/// Parses list items until `e`, keeping their order in `acc`.
pub open spec fn parse_list_items(s: Seq<u8>, pos: int, acc: Seq<Bval>) -> Parsed
    decreases s.len() - pos, 1int,
{
    if pos < 0 || pos >= s.len() {
        Parsed::Truncated
    } else if s[pos] == 101 {
        Parsed::Found(Bval::List(acc), pos + 1)
    } else {
        match parse_value(s, pos) {
            Parsed::Found(v, end) => {
                if end <= pos || end > s.len() {
                    Parsed::Malformed
                } else {
                    parse_list_items(s, end, acc.push(v))
                }
            }
            Parsed::Truncated => Parsed::Truncated,
            Parsed::Malformed => Parsed::Malformed,
        }
    }
}

/// Parses dictionary entries until `e`: each key must parse as text, its
/// value follows, and repeated keys overwrite. The accumulator is kept in
/// canonical sorted form.
pub open spec fn parse_dict_items(s: Seq<u8>, pos: int, acc: Seq<(Seq<char>, Bval)>) -> Parsed
    decreases s.len() - pos, 1int,
{
    if pos < 0 || pos >= s.len() {
        Parsed::Truncated
    } else if s[pos] == 101 {
        Parsed::Found(Bval::Dict(acc), pos + 1)
    } else {
        match parse_value(s, pos) {
            Parsed::Found(k, kend) => match k {
                Bval::Str(t) => {
                    if kend <= pos || kend > s.len() {
                        Parsed::Malformed
                    } else {
                        match parse_value(s, kend) {
                            Parsed::Found(v, vend) => {
                                if vend <= kend || vend > s.len() {
                                    Parsed::Malformed
                                } else {
                                    parse_dict_items(s, vend, sorted_insert(acc, t, v))
                                }
                            }
                            Parsed::Truncated => Parsed::Truncated,
                            Parsed::Malformed => Parsed::Malformed,
                        }
                    }
                }
                _ => Parsed::Malformed,
            },
            Parsed::Truncated => Parsed::Truncated,
            Parsed::Malformed => Parsed::Malformed,
        }
    }
}

/// The reader's result agrees with the given parse outcome: the same
/// value model and end position on success, and the matching error kind
/// otherwise.
pub open spec fn parse_matches(o: Parsed, r: Result<(BencodeValue, usize), BencodeError>) -> bool {
    match o {
        Parsed::Found(m, end) => match r {
            Ok(p) => model(p.0) == m && p.1 as int == end && value_wf(p.0),
            Err(_) => false,
        },
        Parsed::Truncated => r matches Err(e) && e.kind == ErrorKind::EndOfStream,
        Parsed::Malformed => r matches Err(e) && e.kind == ErrorKind::Format,
    }
}

/// Relies on String::from_utf8: it returns a string exactly when the
/// bytes are valid UTF-8, and that string decodes those bytes.
#[verifier::external_body]
fn utf8_to_string(bytes: &Vec<u8>) -> (r: Option<String>)
    ensures
        match r {
            Some(s) => vstd::utf8::valid_utf8(bytes@) && s@ == vstd::utf8::decode_utf8(bytes@),
            None => !vstd::utf8::valid_utf8(bytes@),
        },
{
    match String::from_utf8(bytes.clone()) {
        Ok(s) => Some(s),
        Err(_) => None,
    }
}

/// Reads one bencode value from the start of `input`; bytes after the
/// first complete value are ignored, as a stream reader would leave them
/// unread.
pub fn read(input: &Vec<u8>) -> (r: Result<BencodeValue, BencodeError>)
    ensures
        match parse_value(input@, 0) {
            Parsed::Found(m, end) => r matches Ok(v) && model(v) == m && value_wf(v),
            Parsed::Truncated => r matches Err(e) && e.kind == ErrorKind::EndOfStream,
            Parsed::Malformed => r matches Err(e) && e.kind == ErrorKind::Format,
        },
{
    if input.len() == 0 {
        return Err(BencodeError::new(ErrorKind::EndOfStream, "input ended before a value"));
    }
    let token = input[0];
    match select_next_type(input, 1, token) {
        Ok(p) => Ok(p.0),
        Err(e) => Err(e),
    }
}

/// Selects the reader for the next value from its first byte, already
/// consumed and passed as `type_token`.
fn select_next_type(input: &Vec<u8>, pos: usize, type_token: u8) -> (r: Result<
    (BencodeValue, usize),
    BencodeError,
>)
    requires
        1 <= pos <= input@.len(),
        input@[pos - 1] == type_token,
    ensures
        parse_matches(parse_value(input@, pos - 1), r),
        r matches Ok(p) ==> pos - 1 < p.1 <= input@.len(),
    decreases input@.len() - pos, 1int,
{
    if type_token == 105 {
        read_integer(input, pos)
    } else if 48 <= type_token && type_token <= 57 {
        read_string(input, pos, type_token)
    } else if type_token == 108 {
        read_list(input, pos)
    } else if type_token == 100 {
        read_dictionary(input, pos)
    } else {
        Err(BencodeError::new(ErrorKind::Format, "unknown type token"))
    }
}

/// Reads an integer literal, the leading `i` already consumed: an
/// optional minus sign, digits, then `e`; the text must denote an `i64`.
pub fn read_integer(input: &Vec<u8>, pos: usize) -> (r: Result<(BencodeValue, usize), BencodeError>)
    requires
        pos <= input@.len(),
    ensures
        parse_matches(parse_int_scan(input@, pos as int, Seq::empty()), r),
        r matches Ok(p) ==> pos < p.1 <= input@.len(),
{
    let mut pending: Vec<u8> = Vec::new();
    let mut cur = pos;
    loop
        invariant
            pos <= cur <= input@.len(),
            parse_int_scan(input@, pos as int, Seq::empty()) == parse_int_scan(
                input@,
                cur as int,
                pending@,
            ),
        decreases input@.len() - cur,
    {
        if cur >= input.len() {
            return Err(BencodeError::new(ErrorKind::EndOfStream, "input ended inside an integer"));
        }
        let b = input[cur];
        if b == 101 {
            match digits_to_i64(&pending) {
                Some(v) => {
                    return Ok((BencodeValue::Integer(v), cur + 1));
                }
                None => {
                    return Err(BencodeError::new(ErrorKind::Format, "malformed integer literal"));
                }
            }
        } else if b == 45 && pending.len() == 0 {
            pending.push(45);
            cur = cur + 1;
        } else if 48 <= b && b <= 57 {
            pending.push(b);
            cur = cur + 1;
        } else {
            return Err(BencodeError::new(ErrorKind::Format, "expected an integer digit"));
        }
    }
}

/// Reads the digits of a string length up to the colon; `first` is the
/// byte that selected the string reader.
fn read_string_length(input: &Vec<u8>, pos: usize, first: u8) -> (r: Result<
    (usize, usize),
    BencodeError,
>)
    requires
        pos <= input@.len(),
    ensures
        match r {
            Ok(p) => pos < p.1 <= input@.len() && parse_str_scan(input@, pos as int, seq![first])
                == str_content(input@, p.1 as int, p.0 as nat),
            Err(e) => parse_str_scan(input@, pos as int, seq![first]) == (if e.kind
                == ErrorKind::EndOfStream {
                Parsed::Truncated
            } else {
                Parsed::Malformed
            }) && (e.kind == ErrorKind::EndOfStream || e.kind == ErrorKind::Format),
        },
{
    let mut pending: Vec<u8> = Vec::new();
    pending.push(first);
    let mut cur = pos;
    proof {
        assert(pending@ =~= seq![first]);
    }
    loop
        invariant
            pos <= cur <= input@.len(),
            parse_str_scan(input@, pos as int, seq![first]) == parse_str_scan(
                input@,
                cur as int,
                pending@,
            ),
        decreases input@.len() - cur,
    {
        if cur >= input.len() {
            return Err(
                BencodeError::new(ErrorKind::EndOfStream, "input ended inside a string length"),
            );
        }
        let b = input[cur];
        if b == 58 {
            match digits_to_usize(&pending) {
                Some(len) => {
                    return Ok((len, cur + 1));
                }
                None => {
                    return Err(BencodeError::new(ErrorKind::Format, "malformed string length"));
                }
            }
        } else if 48 <= b && b <= 57 {
            pending.push(b);
            cur = cur + 1;
        } else {
            return Err(
                BencodeError::new(ErrorKind::Format, "invalid character in string length"),
            );
        }
    }
}

/// Reads a length-prefixed string, `first` being its first length digit:
/// the content becomes text when it is valid UTF-8 and raw bytes
/// otherwise, preserved exactly.
pub fn read_string(input: &Vec<u8>, pos: usize, first: u8) -> (r: Result<
    (BencodeValue, usize),
    BencodeError,
>)
    requires
        pos <= input@.len(),
    ensures
        parse_matches(parse_str_scan(input@, pos as int, seq![first]), r),
        r matches Ok(p) ==> pos < p.1 <= input@.len(),
{
    let (len, start) = match read_string_length(input, pos, first) {
        Ok(p) => p,
        Err(e) => {
            return Err(e);
        }
    };
    if len > input.len() - start {
        return Err(BencodeError::new(ErrorKind::EndOfStream, "input ended inside a string"));
    }
    let stop = start + len;
    let mut content: Vec<u8> = Vec::new();
    for k in start..stop
        invariant
            stop == start + len,
            stop <= input@.len(),
            content@ == input@.subrange(start as int, k as int),
    {
        content.push(input[k]);
        proof {
            assert(content@ =~= input@.subrange(start as int, k + 1));
        }
    }
    proof {
        assert(content@ =~= input@.subrange(start as int, start + len));
    }
    match utf8_to_string(&content) {
        Some(text) => Ok((BencodeValue::String(text), start + len)),
        None => Ok((BencodeValue::ByteString(content), start + len)),
    }
}

/// Reads list items until `e`, the leading `l` already consumed,
/// preserving their order.
pub fn read_list(input: &Vec<u8>, pos: usize) -> (r: Result<(BencodeValue, usize), BencodeError>)
    requires
        pos <= input@.len(),
    ensures
        parse_matches(parse_list_items(input@, pos as int, Seq::empty()), r),
        r matches Ok(p) ==> pos < p.1 <= input@.len(),
    decreases input@.len() - pos, 0int,
{
    let mut items: Vec<BencodeValue> = Vec::new();
    let mut cur = pos;
    loop
        invariant
            pos <= cur <= input@.len(),
            wf_seq(items@),
            parse_list_items(input@, pos as int, Seq::empty()) == parse_list_items(
                input@,
                cur as int,
                model_seq(items@),
            ),
        decreases input@.len() - cur,
    {
        if cur >= input.len() {
            return Err(BencodeError::new(ErrorKind::EndOfStream, "input ended inside a list"));
        }
        let b = input[cur];
        if b == 101 {
            return Ok((BencodeValue::List(items), cur + 1));
        }
        match select_next_type(input, cur + 1, b) {
            Ok(p) => {
                let (v, end) = p;
                proof {
                    lemma_model_seq_push(items@, v);
                    lemma_wf_seq_index(items@);
                    lemma_wf_seq_index(items@.push(v));
                    assert forall|j: int| 0 <= j < items@.push(v).len() implies value_wf(
                        #[trigger] items@.push(v)[j],
                    ) by {
                        if j < items@.len() {
                            assert(items@.push(v)[j] == items@[j]);
                        }
                    }
                }
                items.push(v);
                cur = end;
            }
            Err(e) => {
                return Err(e);
            }
        }
    }
}

/// Reads dictionary entries until `e`, the leading `d` already consumed:
/// keys must be text, and a repeated key overwrites the earlier value.
pub fn read_dictionary(input: &Vec<u8>, pos: usize) -> (r: Result<
    (BencodeValue, usize),
    BencodeError,
>)
    requires
        pos <= input@.len(),
    ensures
        parse_matches(parse_dict_items(input@, pos as int, Seq::empty()), r),
        r matches Ok(p) ==> pos < p.1 <= input@.len(),
    decreases input@.len() - pos, 0int,
{
    let mut map: InsertOrderMap<BencodeValue> = InsertOrderMap::new();
    let mut cur = pos;
    proof {
        assert(entry_models(map@) =~= Seq::<(Seq<char>, Bval)>::empty());
    }
    loop
        invariant
            pos <= cur <= input@.len(),
            map.wf(),
            wf_entries(map@),
            parse_dict_items(input@, pos as int, Seq::empty()) == parse_dict_items(
                input@,
                cur as int,
                canon(entry_models(map@)),
            ),
        decreases input@.len() - cur,
    {
        if cur >= input.len() {
            return Err(
                BencodeError::new(ErrorKind::EndOfStream, "input ended inside a dictionary"),
            );
        }
        let b = input[cur];
        if b == 101 {
            return Ok((BencodeValue::Dictionary(map), cur + 1));
        }
        let (key, kend) = match read_key(input, cur + 1, b) {
            Ok(p) => p,
            Err(e) => {
                return Err(e);
            }
        };
        if kend >= input.len() {
            proof {
                assert(parse_value(input@, kend as int) == Parsed::Truncated);
            }
            return Err(
                BencodeError::new(ErrorKind::EndOfStream, "input ended before a dictionary value"),
            );
        }
        let vtoken = input[kend];
        match select_next_type(input, kend + 1, vtoken) {
            Ok(p) => {
                let (v, vend) = p;
                proof {
                    lemma_insert_canon(&map, &key, &v);
                    lemma_wf_entries_index(map@);
                    lemma_first_key_index_bounds(map@, key@);
                    if map.spec_contains(key@) {
                        let i = map.spec_index_of(key@);
                        lemma_wf_entries_index(map@.update(i, (key, v)));
                    } else {
                        lemma_wf_entries_index(map@.push((key, v)));
                    }
                }
                map.insert(key, v);
                cur = vend;
            }
            Err(e) => {
                return Err(e);
            }
        }
    }
}

/// After inserting into a well-formed map, the canonical model of its
/// entries is the sorted insertion into the previous canonical model.
proof fn lemma_insert_canon(map: &InsertOrderMap<BencodeValue>, key: &String, v: &BencodeValue)
    requires
        map.wf(),
    ensures
        map.spec_contains(key@) ==> canon(
            entry_models(map@.update(map.spec_index_of(key@), (*key, *v))),
        ) == sorted_insert(canon(entry_models(map@)), key@, model(*v)),
        !map.spec_contains(key@) ==> canon(entry_models(map@.push((*key, *v)))) == sorted_insert(
            canon(entry_models(map@)),
            key@,
            model(*v),
        ),
{
    lemma_first_key_index_bounds(map@, key@);
    lemma_entry_models_index(map@);
    if map.spec_contains(key@) {
        let i = map.spec_index_of(key@);
        lemma_entry_models_update(map@, i, *key, *v);
        assert(entries_unique(entry_models(map@))) by {
            assert forall|p: int, q: int|
                0 <= p < q < entry_models(map@).len() implies (#[trigger] entry_models(
                map@,
            )[p]).0 != (#[trigger] entry_models(map@)[q]).0 by {
                assert(map@[p].0@ != map@[q].0@);
            }
        }
        lemma_canon_update(entry_models(map@), i, key@, model(*v));
    } else {
        lemma_entry_models_push(map@, *key, *v);
        lemma_canon_push(entry_models(map@), key@, model(*v));
    }
}

/// Reads a dictionary key: the next value, which must be text.
fn read_key(input: &Vec<u8>, pos: usize, type_token: u8) -> (r: Result<(String, usize), BencodeError>)
    requires
        1 <= pos <= input@.len(),
        input@[pos - 1] == type_token,
    ensures
        match parse_value(input@, pos - 1) {
            Parsed::Found(m, end) => match m {
                Bval::Str(t) => r matches Ok(p) && p.0@ == t && p.1 as int == end && pos - 1 < end
                    <= input@.len(),
                _ => r matches Err(e) && e.kind == ErrorKind::Format,
            },
            Parsed::Truncated => r matches Err(e) && e.kind == ErrorKind::EndOfStream,
            Parsed::Malformed => r matches Err(e) && e.kind == ErrorKind::Format,
        },
        r matches Ok(p) ==> parse_value(input@, pos - 1) == Parsed::Found(
            Bval::Str(p.0@),
            p.1 as int,
        ) && pos - 1 < p.1 <= input@.len(),
    decreases input@.len() - pos, 2int,
{
    match select_next_type(input, pos, type_token) {
        Ok(p) => {
            let (v, end) = p;
            match v {
                BencodeValue::String(text) => Ok((text, end)),
                _ => Err(
                    BencodeError::new(
                        ErrorKind::Format,
                        "the key of the dictionary was not a string",
                    ),
                ),
            }
        }
        Err(e) => Err(e),
    }
}

} // verus!
