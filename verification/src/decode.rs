use vstd::prelude::*;
use vstd::string::StrSliceExecFns;
use crate::error::BencodeError;
use crate::error::ErrorKind;
use crate::iomap::InsertOrderMap;
use crate::iomap::lemma_first_key_index_bounds;
use crate::value::BencodeValue;
use crate::value::Bval;
use crate::value::model;
use crate::value::value_wf;
use crate::value::wf_seq;
use crate::value::wf_entries;
use crate::value::lemma_wf_seq_index;
use crate::value::lemma_wf_entries_index;
use crate::value::lemma_model_seq_index;
use crate::value::lemma_entry_models_index;
use crate::value::entry_models;
use crate::value::entries_unique;
use crate::value::entries_map;
use crate::value::canon;
use crate::value::dict_get;
use crate::canon::lemma_canon_map;
use crate::canon::lemma_entries_map_dom;
use crate::canon::lemma_entries_map_unique_val;
use crate::parse::parse_value;
use crate::parse::Parsed;

verus! {

/// The capability to interpret a dynamic value as `Self::Output`.
///
/// `dec_err` names the error kind decoding a value must fail with, or
/// `None` when it must succeed; `dec_ok` pins the successful result. The
/// `opt` pair does the same for an optional input, as record fields use
/// it: by default an absent input is a not-found failure, and a target
/// type may override that.
pub trait Decodable {
    type Output;

    /// The kind decoding the modelled value fails with, if any.
    spec fn dec_err(m: Bval) -> Option<ErrorKind>;

    /// Whether `out` is the correct result of decoding the modelled value.
    spec fn dec_ok(m: Bval, out: &Self::Output) -> bool;

    /// The kind decoding an optional modelled value fails with, if any.
    spec fn dec_opt_err(m: Option<Bval>) -> Option<ErrorKind>;

    /// Whether `out` is the correct result for an optional input.
    spec fn dec_opt_ok(m: Option<Bval>, out: &Self::Output) -> bool;

    /// Interprets a single value as `Self::Output`.
    fn decode(value: &BencodeValue) -> (r: Result<Self::Output, BencodeError>)
        requires
            value_wf(*value),
        ensures
            match r {
                Ok(out) => Self::dec_err(model(*value)) is None && Self::dec_ok(
                    model(*value),
                    &out,
                ),
                Err(e) => Self::dec_err(model(*value)) == Some(e.kind),
            },
    ;

    /// Interprets an optional value, as a record field lookup hands it over.
    fn decode_option(value: Option<&BencodeValue>) -> (r: Result<Self::Output, BencodeError>)
        requires
            value matches Some(v) ==> value_wf(*v),
        ensures
            ({
                let m = match value {
                    Some(v) => Some(model(*v)),
                    None => None,
                };
                match r {
                    Ok(out) => Self::dec_opt_err(m) is None && Self::dec_opt_ok(m, &out),
                    Err(e) => Self::dec_opt_err(m) == Some(e.kind),
                }
            }),
    ;

    /// Parses a byte buffer and decodes the value it holds.
    fn read_bytes(bytes: &Vec<u8>) -> (r: Result<Self::Output, BencodeError>)
        ensures
            match parse_value(bytes@, 0) {
                Parsed::Found(m, end) => match r {
                    Ok(out) => Self::dec_err(m) is None && Self::dec_ok(m, &out),
                    Err(e) => Self::dec_err(m) == Some(e.kind),
                },
                Parsed::Truncated => r matches Err(e) && e.kind == ErrorKind::EndOfStream,
                Parsed::Malformed => r matches Err(e) && e.kind == ErrorKind::Format,
            },
    {
        match crate::parse::read(bytes) {
            Ok(v) => Self::decode(&v),
            Err(e) => Err(e),
        }
    }

    /// Reads one value from the byte source and decodes it.
    fn read(input: &Vec<u8>) -> (r: Result<Self::Output, BencodeError>)
        ensures
            match parse_value(input@, 0) {
                Parsed::Found(m, end) => match r {
                    Ok(out) => Self::dec_err(m) is None && Self::dec_ok(m, &out),
                    Err(e) => Self::dec_err(m) == Some(e.kind),
                },
                Parsed::Truncated => r matches Err(e) && e.kind == ErrorKind::EndOfStream,
                Parsed::Malformed => r matches Err(e) && e.kind == ErrorKind::Format,
            },
    {
        match crate::parse::read(input) {
            Ok(v) => Self::decode(&v),
            Err(e) => Err(e),
        }
    }
}

/// Looking a key up in the model of a well-formed dictionary map gives
/// the model of what the map itself returns.
pub proof fn lemma_model_dict_get(m: InsertOrderMap<BencodeValue>, k: Seq<char>)
    requires
        m.wf(),
    ensures
        dict_get(canon(entry_models(m@)), k) == match m.spec_get(k) {
            Some(v) => Some(model(v)),
            None => None,
        },
{
    let me = entry_models(m@);
    lemma_entry_models_index(m@);
    lemma_canon_map(me);
    lemma_entries_map_dom(me);
    lemma_first_key_index_bounds(m@, k);
    assert(entries_unique(me)) by {
        assert forall|p: int, q: int| 0 <= p < q < me.len() implies (#[trigger] me[p]).0 != (
        #[trigger] me[q]).0 by {
            assert(m@[p].0@ != m@[q].0@);
        }
    }
    if m.spec_contains(k) {
        let i = m.spec_index_of(k);
        assert(me[i].0 == k);
        lemma_entries_map_unique_val(me, i);
    } else {
        if entries_map(me).contains_key(k) {
            let i = choose|i: int| 0 <= i < me.len() && (#[trigger] me[i]).0 == k;
            assert(m@[i].0@ == k);
        }
    }
}

/// Decodes the field stored under `name` in a dictionary value, through
/// `T`'s optional-input capability; a value of any other shape is a
/// type-mismatch failure.
pub fn decode<T: Decodable>(value: &BencodeValue, name: &str) -> (r: Result<
    T::Output,
    BencodeError,
>)
    requires
        value_wf(*value),
    ensures
        match value {
            BencodeValue::Dictionary(m) => ({
                let mi = match m.spec_get(name@) {
                    Some(v) => Some(model(v)),
                    None => None,
                };
                match r {
                    Ok(out) => T::dec_opt_err(mi) is None && T::dec_opt_ok(mi, &out),
                    Err(e) => T::dec_opt_err(mi) == Some(e.kind),
                }
            }),
            _ => r matches Err(e) && e.kind == ErrorKind::TypeMismatch,
        },
{
    match value {
        BencodeValue::Dictionary(map) => {
            let key = name.to_owned();
            proof {
                lemma_first_key_index_bounds(map@, key@);
                lemma_wf_entries_index(map@);
            }
            let got = map.get(&key);
            T::decode_option(got)
        }
        _ => Err(BencodeError::new(ErrorKind::TypeMismatch, "the structure did not match")),
    }
}

/// The default treatment of an optional input for a required target,
/// stated and proved once for every decodable type: an absent input is
/// a not-found failure, and a present input behaves exactly as
/// `T::decode`. Each provider that does not override the optional
/// behaviour carries this same body in its own `decode_option`.
pub fn decode_required<T: Decodable>(value: Option<&BencodeValue>) -> (r: Result<
    T::Output,
    BencodeError,
>)
    requires
        value matches Some(v) ==> value_wf(*v),
    ensures
        value is None ==> (r matches Err(e) && e.kind == ErrorKind::NotFound),
        value matches Some(v) ==> match r {
            Ok(out) => T::dec_err(model(*v)) is None && T::dec_ok(model(*v), &out),
            Err(e) => T::dec_err(model(*v)) == Some(e.kind),
        },
{
    match value {
        Some(v) => T::decode(v),
        None => Err(BencodeError::new(ErrorKind::NotFound, "value was not present")),
    }
}

/// The error kind of decoding each item in turn, fail-fast, or `None`
/// when every item decodes.
pub open spec fn seq_dec_err<T: Decodable>(items: Seq<Bval>) -> Option<ErrorKind>
    decreases items.len(),
{
    if items.len() == 0 {
        None
    } else {
        match T::dec_err(items[0]) {
            Some(k) => Some(k),
            None => seq_dec_err::<T>(items.subrange(1, items.len() as int)),
        }
    }
}

/// When every item before `i` decodes and item `i` fails, the fail-fast
/// error is item `i`'s.
pub proof fn lemma_seq_dec_err_at<T: Decodable>(items: Seq<Bval>, i: int)
    requires
        0 <= i < items.len(),
        forall|j: int| 0 <= j < i ==> T::dec_err(#[trigger] items[j]) is None,
        T::dec_err(items[i]) is Some,
    ensures
        seq_dec_err::<T>(items) == T::dec_err(items[i]),
    decreases i,
{
    let t = items.subrange(1, items.len() as int);
    if i == 0 {
    } else {
        assert(T::dec_err(items[0]) is None);
        assert forall|j: int| 0 <= j < i - 1 implies T::dec_err(#[trigger] t[j]) is None by {
            assert(t[j] == items[j + 1]);
        }
        assert(t[i - 1] == items[i]);
        lemma_seq_dec_err_at::<T>(t, i - 1);
    }
}

/// When every item decodes, the fail-fast error is `None`.
pub proof fn lemma_seq_dec_err_none<T: Decodable>(items: Seq<Bval>)
    requires
        forall|j: int| 0 <= j < items.len() ==> T::dec_err(#[trigger] items[j]) is None,
    ensures
        seq_dec_err::<T>(items) is None,
    decreases items.len(),
{
    if items.len() > 0 {
        let t = items.subrange(1, items.len() as int);
        assert forall|j: int| 0 <= j < t.len() implies T::dec_err(#[trigger] t[j]) is None by {
            assert(t[j] == items[j + 1]);
        }
        lemma_seq_dec_err_none::<T>(t);
    }
}

impl<T: Decodable> Decodable for Vec<T> {
    type Output = Vec<T::Output>;

    open spec fn dec_err(m: Bval) -> Option<ErrorKind> {
        match m {
            Bval::List(items) => seq_dec_err::<T>(items),
            _ => Some(ErrorKind::TypeMismatch),
        }
    }

    open spec fn dec_ok(m: Bval, out: &Vec<T::Output>) -> bool {
        m matches Bval::List(items) && out@.len() == items.len() && (forall|i: int|
            0 <= i < items.len() ==> T::dec_ok(#[trigger] items[i], &out@[i]))
    }

    open spec fn dec_opt_err(m: Option<Bval>) -> Option<ErrorKind> {
        match m {
            Some(mm) => Self::dec_err(mm),
            None => Some(ErrorKind::NotFound),
        }
    }

    open spec fn dec_opt_ok(m: Option<Bval>, out: &Vec<T::Output>) -> bool {
        m matches Some(mm) && Self::dec_ok(mm, out)
    }

    /// Decodes a list element by element; the whole operation fails on
    /// the first element that fails.
    fn decode(value: &BencodeValue) -> (r: Result<Vec<T::Output>, BencodeError>) {
        match value {
            BencodeValue::List(list) => {
                let ghost items = crate::value::model_seq(list@);
                proof {
                    lemma_model_seq_index(list@);
                    lemma_wf_seq_index(list@);
                }
                let mut out: Vec<T::Output> = Vec::new();
                let n = list.len();
                for i in 0..n
                    invariant
                        n == list@.len(),
                        model(*value) == Bval::List(items),
                        items == crate::value::model_seq(list@),
                        items.len() == n,
                        wf_seq(list@),
                        forall|j: int| 0 <= j < n ==> value_wf(#[trigger] list@[j]),
                        forall|j: int| 0 <= j < n ==> #[trigger] items[j] == model(list@[j]),
                        out@.len() == i,
                        forall|j: int| 0 <= j < i ==> T::dec_err(#[trigger] items[j]) is None,
                        forall|j: int| 0 <= j < i ==> T::dec_ok(#[trigger] items[j], &out@[j]),
                {
                    match T::decode(&list[i]) {
                        Ok(x) => {
                            out.push(x);
                        }
                        Err(e) => {
                            proof {
                                lemma_seq_dec_err_at::<T>(items, i as int);
                            }
                            return Err(e);
                        }
                    }
                }
                proof {
                    lemma_seq_dec_err_none::<T>(items);
                }
                Ok(out)
            }
            _ => Err(BencodeError::new(ErrorKind::TypeMismatch, "value was not a list")),
        }
    }

    fn decode_option(value: Option<&BencodeValue>) -> (r: Result<Vec<T::Output>, BencodeError>) {
        match value {
            Some(v) => Self::decode(v),
            None => Err(BencodeError::new(ErrorKind::NotFound, "value was not present")),
        }
    }
}

impl<T: Decodable> Decodable for Option<T> {
    type Output = Option<T::Output>;

    open spec fn dec_err(m: Bval) -> Option<ErrorKind> {
        None
    }

    open spec fn dec_ok(m: Bval, out: &Option<T::Output>) -> bool {
        match T::dec_err(m) {
            None => *out matches Some(x) && T::dec_ok(m, &x),
            Some(_) => *out is None,
        }
    }

    open spec fn dec_opt_err(m: Option<Bval>) -> Option<ErrorKind> {
        None
    }

    open spec fn dec_opt_ok(m: Option<Bval>, out: &Option<T::Output>) -> bool {
        match m {
            Some(mm) => Self::dec_ok(mm, out),
            None => *out is None,
        }
    }

    /// A failed inner decode collapses to an absent result instead of
    /// propagating the failure; this is the one place failures are
    /// deliberately swallowed.
    fn decode(value: &BencodeValue) -> (r: Result<Option<T::Output>, BencodeError>) {
        match T::decode(value) {
            Ok(x) => Ok(Some(x)),
            Err(_) => Ok(None),
        }
    }

    /// An absent input is an absent result, not a failure.
    fn decode_option(value: Option<&BencodeValue>) -> (r: Result<Option<T::Output>, BencodeError>) {
        match value {
            Some(v) => Self::decode(v),
            None => Ok(None),
        }
    }
}

impl Decodable for String {
    type Output = String;

    open spec fn dec_err(m: Bval) -> Option<ErrorKind> {
        match m {
            Bval::Str(_) => None,
            _ => Some(ErrorKind::TypeMismatch),
        }
    }

    open spec fn dec_ok(m: Bval, out: &String) -> bool {
        m matches Bval::Str(t) && out@ == t
    }

    open spec fn dec_opt_err(m: Option<Bval>) -> Option<ErrorKind> {
        match m {
            Some(mm) => Self::dec_err(mm),
            None => Some(ErrorKind::NotFound),
        }
    }

    open spec fn dec_opt_ok(m: Option<Bval>, out: &String) -> bool {
        m matches Some(mm) && Self::dec_ok(mm, out)
    }

    /// Requires a text value; raw bytes or any other shape fail.
    fn decode(value: &BencodeValue) -> (r: Result<String, BencodeError>) {
        match value {
            BencodeValue::String(s) => Ok(s.clone()),
            _ => Err(BencodeError::new(ErrorKind::TypeMismatch, "not a valid string")),
        }
    }

    fn decode_option(value: Option<&BencodeValue>) -> (r: Result<String, BencodeError>) {
        match value {
            Some(v) => Self::decode(v),
            None => Err(BencodeError::new(ErrorKind::NotFound, "value was not present")),
        }
    }
}

impl Decodable for u8 {
    type Output = u8;

    open spec fn dec_err(m: Bval) -> Option<ErrorKind> {
        match m {
            Bval::Int(_) => None,
            _ => Some(ErrorKind::TypeMismatch),
        }
    }

    open spec fn dec_ok(m: Bval, out: &u8) -> bool {
        m matches Bval::Int(n) && *out == n as u8
    }

    open spec fn dec_opt_err(m: Option<Bval>) -> Option<ErrorKind> {
        match m {
            Some(mm) => Self::dec_err(mm),
            None => Some(ErrorKind::NotFound),
        }
    }

    open spec fn dec_opt_ok(m: Option<Bval>, out: &u8) -> bool {
        m matches Some(mm) && Self::dec_ok(mm, out)
    }

    /// Requires an integer value; the stored 64-bit value is narrowed
    /// with a plain cast, so an out-of-range value silently truncates.
    fn decode(value: &BencodeValue) -> (r: Result<u8, BencodeError>) {
        match value {
            BencodeValue::Integer(n) => Ok(*n as u8),
            _ => Err(BencodeError::new(ErrorKind::TypeMismatch, "value was not an integer")),
        }
    }

    fn decode_option(value: Option<&BencodeValue>) -> (r: Result<u8, BencodeError>) {
        match value {
            Some(v) => Self::decode(v),
            None => Err(BencodeError::new(ErrorKind::NotFound, "value was not present")),
        }
    }
}

impl Decodable for i8 {
    type Output = i8;

    open spec fn dec_err(m: Bval) -> Option<ErrorKind> {
        match m {
            Bval::Int(_) => None,
            _ => Some(ErrorKind::TypeMismatch),
        }
    }

    open spec fn dec_ok(m: Bval, out: &i8) -> bool {
        m matches Bval::Int(n) && *out == n as i8
    }

    open spec fn dec_opt_err(m: Option<Bval>) -> Option<ErrorKind> {
        match m {
            Some(mm) => Self::dec_err(mm),
            None => Some(ErrorKind::NotFound),
        }
    }

    open spec fn dec_opt_ok(m: Option<Bval>, out: &i8) -> bool {
        m matches Some(mm) && Self::dec_ok(mm, out)
    }

    /// Requires an integer value; the stored 64-bit value is narrowed
    /// with a plain cast, so an out-of-range value silently truncates.
    fn decode(value: &BencodeValue) -> (r: Result<i8, BencodeError>) {
        match value {
            BencodeValue::Integer(n) => Ok(*n as i8),
            _ => Err(BencodeError::new(ErrorKind::TypeMismatch, "value was not an integer")),
        }
    }

    fn decode_option(value: Option<&BencodeValue>) -> (r: Result<i8, BencodeError>) {
        match value {
            Some(v) => Self::decode(v),
            None => Err(BencodeError::new(ErrorKind::NotFound, "value was not present")),
        }
    }
}

impl Decodable for u16 {
    type Output = u16;

    open spec fn dec_err(m: Bval) -> Option<ErrorKind> {
        match m {
            Bval::Int(_) => None,
            _ => Some(ErrorKind::TypeMismatch),
        }
    }

    open spec fn dec_ok(m: Bval, out: &u16) -> bool {
        m matches Bval::Int(n) && *out == n as u16
    }

    open spec fn dec_opt_err(m: Option<Bval>) -> Option<ErrorKind> {
        match m {
            Some(mm) => Self::dec_err(mm),
            None => Some(ErrorKind::NotFound),
        }
    }

    open spec fn dec_opt_ok(m: Option<Bval>, out: &u16) -> bool {
        m matches Some(mm) && Self::dec_ok(mm, out)
    }

    /// Requires an integer value; the stored 64-bit value is narrowed
    /// with a plain cast, so an out-of-range value silently truncates.
    fn decode(value: &BencodeValue) -> (r: Result<u16, BencodeError>) {
        match value {
            BencodeValue::Integer(n) => Ok(*n as u16),
            _ => Err(BencodeError::new(ErrorKind::TypeMismatch, "value was not an integer")),
        }
    }

    fn decode_option(value: Option<&BencodeValue>) -> (r: Result<u16, BencodeError>) {
        match value {
            Some(v) => Self::decode(v),
            None => Err(BencodeError::new(ErrorKind::NotFound, "value was not present")),
        }
    }
}

impl Decodable for i16 {
    type Output = i16;

    open spec fn dec_err(m: Bval) -> Option<ErrorKind> {
        match m {
            Bval::Int(_) => None,
            _ => Some(ErrorKind::TypeMismatch),
        }
    }

    open spec fn dec_ok(m: Bval, out: &i16) -> bool {
        m matches Bval::Int(n) && *out == n as i16
    }

    open spec fn dec_opt_err(m: Option<Bval>) -> Option<ErrorKind> {
        match m {
            Some(mm) => Self::dec_err(mm),
            None => Some(ErrorKind::NotFound),
        }
    }

    open spec fn dec_opt_ok(m: Option<Bval>, out: &i16) -> bool {
        m matches Some(mm) && Self::dec_ok(mm, out)
    }

    /// Requires an integer value; the stored 64-bit value is narrowed
    /// with a plain cast, so an out-of-range value silently truncates.
    fn decode(value: &BencodeValue) -> (r: Result<i16, BencodeError>) {
        match value {
            BencodeValue::Integer(n) => Ok(*n as i16),
            _ => Err(BencodeError::new(ErrorKind::TypeMismatch, "value was not an integer")),
        }
    }

    fn decode_option(value: Option<&BencodeValue>) -> (r: Result<i16, BencodeError>) {
        match value {
            Some(v) => Self::decode(v),
            None => Err(BencodeError::new(ErrorKind::NotFound, "value was not present")),
        }
    }
}

impl Decodable for u32 {
    type Output = u32;

    open spec fn dec_err(m: Bval) -> Option<ErrorKind> {
        match m {
            Bval::Int(_) => None,
            _ => Some(ErrorKind::TypeMismatch),
        }
    }

    open spec fn dec_ok(m: Bval, out: &u32) -> bool {
        m matches Bval::Int(n) && *out == n as u32
    }

    open spec fn dec_opt_err(m: Option<Bval>) -> Option<ErrorKind> {
        match m {
            Some(mm) => Self::dec_err(mm),
            None => Some(ErrorKind::NotFound),
        }
    }

    open spec fn dec_opt_ok(m: Option<Bval>, out: &u32) -> bool {
        m matches Some(mm) && Self::dec_ok(mm, out)
    }

    /// Requires an integer value; the stored 64-bit value is narrowed
    /// with a plain cast, so an out-of-range value silently truncates.
    fn decode(value: &BencodeValue) -> (r: Result<u32, BencodeError>) {
        match value {
            BencodeValue::Integer(n) => Ok(*n as u32),
            _ => Err(BencodeError::new(ErrorKind::TypeMismatch, "value was not an integer")),
        }
    }

    fn decode_option(value: Option<&BencodeValue>) -> (r: Result<u32, BencodeError>) {
        match value {
            Some(v) => Self::decode(v),
            None => Err(BencodeError::new(ErrorKind::NotFound, "value was not present")),
        }
    }
}

impl Decodable for i32 {
    type Output = i32;

    open spec fn dec_err(m: Bval) -> Option<ErrorKind> {
        match m {
            Bval::Int(_) => None,
            _ => Some(ErrorKind::TypeMismatch),
        }
    }

    open spec fn dec_ok(m: Bval, out: &i32) -> bool {
        m matches Bval::Int(n) && *out == n as i32
    }

    open spec fn dec_opt_err(m: Option<Bval>) -> Option<ErrorKind> {
        match m {
            Some(mm) => Self::dec_err(mm),
            None => Some(ErrorKind::NotFound),
        }
    }

    open spec fn dec_opt_ok(m: Option<Bval>, out: &i32) -> bool {
        m matches Some(mm) && Self::dec_ok(mm, out)
    }

    /// Requires an integer value; the stored 64-bit value is narrowed
    /// with a plain cast, so an out-of-range value silently truncates.
    fn decode(value: &BencodeValue) -> (r: Result<i32, BencodeError>) {
        match value {
            BencodeValue::Integer(n) => Ok(*n as i32),
            _ => Err(BencodeError::new(ErrorKind::TypeMismatch, "value was not an integer")),
        }
    }

    fn decode_option(value: Option<&BencodeValue>) -> (r: Result<i32, BencodeError>) {
        match value {
            Some(v) => Self::decode(v),
            None => Err(BencodeError::new(ErrorKind::NotFound, "value was not present")),
        }
    }
}

impl Decodable for u64 {
    type Output = u64;

    open spec fn dec_err(m: Bval) -> Option<ErrorKind> {
        match m {
            Bval::Int(_) => None,
            _ => Some(ErrorKind::TypeMismatch),
        }
    }

    open spec fn dec_ok(m: Bval, out: &u64) -> bool {
        m matches Bval::Int(n) && *out == n as u64
    }

    open spec fn dec_opt_err(m: Option<Bval>) -> Option<ErrorKind> {
        match m {
            Some(mm) => Self::dec_err(mm),
            None => Some(ErrorKind::NotFound),
        }
    }

    open spec fn dec_opt_ok(m: Option<Bval>, out: &u64) -> bool {
        m matches Some(mm) && Self::dec_ok(mm, out)
    }

    /// Requires an integer value; the stored 64-bit value is narrowed
    /// with a plain cast, so an out-of-range value silently truncates.
    fn decode(value: &BencodeValue) -> (r: Result<u64, BencodeError>) {
        match value {
            BencodeValue::Integer(n) => Ok(*n as u64),
            _ => Err(BencodeError::new(ErrorKind::TypeMismatch, "value was not an integer")),
        }
    }

    fn decode_option(value: Option<&BencodeValue>) -> (r: Result<u64, BencodeError>) {
        match value {
            Some(v) => Self::decode(v),
            None => Err(BencodeError::new(ErrorKind::NotFound, "value was not present")),
        }
    }
}

impl Decodable for i64 {
    type Output = i64;

    open spec fn dec_err(m: Bval) -> Option<ErrorKind> {
        match m {
            Bval::Int(_) => None,
            _ => Some(ErrorKind::TypeMismatch),
        }
    }

    open spec fn dec_ok(m: Bval, out: &i64) -> bool {
        m matches Bval::Int(n) && *out == n as i64
    }

    open spec fn dec_opt_err(m: Option<Bval>) -> Option<ErrorKind> {
        match m {
            Some(mm) => Self::dec_err(mm),
            None => Some(ErrorKind::NotFound),
        }
    }

    open spec fn dec_opt_ok(m: Option<Bval>, out: &i64) -> bool {
        m matches Some(mm) && Self::dec_ok(mm, out)
    }

    /// Requires an integer value; the stored 64-bit value is narrowed
    /// with a plain cast, so an out-of-range value silently truncates.
    fn decode(value: &BencodeValue) -> (r: Result<i64, BencodeError>) {
        match value {
            BencodeValue::Integer(n) => Ok(*n as i64),
            _ => Err(BencodeError::new(ErrorKind::TypeMismatch, "value was not an integer")),
        }
    }

    fn decode_option(value: Option<&BencodeValue>) -> (r: Result<i64, BencodeError>) {
        match value {
            Some(v) => Self::decode(v),
            None => Err(BencodeError::new(ErrorKind::NotFound, "value was not present")),
        }
    }
}

impl Decodable for usize {
    type Output = usize;

    open spec fn dec_err(m: Bval) -> Option<ErrorKind> {
        match m {
            Bval::Int(_) => None,
            _ => Some(ErrorKind::TypeMismatch),
        }
    }

    open spec fn dec_ok(m: Bval, out: &usize) -> bool {
        m matches Bval::Int(n) && *out == n as usize
    }

    open spec fn dec_opt_err(m: Option<Bval>) -> Option<ErrorKind> {
        match m {
            Some(mm) => Self::dec_err(mm),
            None => Some(ErrorKind::NotFound),
        }
    }

    open spec fn dec_opt_ok(m: Option<Bval>, out: &usize) -> bool {
        m matches Some(mm) && Self::dec_ok(mm, out)
    }

    /// Requires an integer value; the stored 64-bit value is narrowed
    /// with a plain cast, so an out-of-range value silently truncates.
    fn decode(value: &BencodeValue) -> (r: Result<usize, BencodeError>) {
        match value {
            BencodeValue::Integer(n) => Ok(*n as usize),
            _ => Err(BencodeError::new(ErrorKind::TypeMismatch, "value was not an integer")),
        }
    }

    fn decode_option(value: Option<&BencodeValue>) -> (r: Result<usize, BencodeError>) {
        match value {
            Some(v) => Self::decode(v),
            None => Err(BencodeError::new(ErrorKind::NotFound, "value was not present")),
        }
    }
}

impl Decodable for isize {
    type Output = isize;

    open spec fn dec_err(m: Bval) -> Option<ErrorKind> {
        match m {
            Bval::Int(_) => None,
            _ => Some(ErrorKind::TypeMismatch),
        }
    }

    open spec fn dec_ok(m: Bval, out: &isize) -> bool {
        m matches Bval::Int(n) && *out == n as isize
    }

    open spec fn dec_opt_err(m: Option<Bval>) -> Option<ErrorKind> {
        match m {
            Some(mm) => Self::dec_err(mm),
            None => Some(ErrorKind::NotFound),
        }
    }

    open spec fn dec_opt_ok(m: Option<Bval>, out: &isize) -> bool {
        m matches Some(mm) && Self::dec_ok(mm, out)
    }

    /// Requires an integer value; the stored 64-bit value is narrowed
    /// with a plain cast, so an out-of-range value silently truncates.
    fn decode(value: &BencodeValue) -> (r: Result<isize, BencodeError>) {
        match value {
            BencodeValue::Integer(n) => Ok(*n as isize),
            _ => Err(BencodeError::new(ErrorKind::TypeMismatch, "value was not an integer")),
        }
    }

    fn decode_option(value: Option<&BencodeValue>) -> (r: Result<isize, BencodeError>) {
        match value {
            Some(v) => Self::decode(v),
            None => Err(BencodeError::new(ErrorKind::NotFound, "value was not present")),
        }
    }
}

} // verus!
