use vstd::prelude::*;
use vstd::string::StrSliceExecFns;
use crate::error::BencodeError;
use crate::error::ErrorKind;
use crate::value::BencodeValue;
use crate::value::Bval;
use crate::decode::Decodable;
use crate::encode::Encodable;

verus! {

/// A byte string: string contents that need not be valid UTF-8, backed
/// by a byte vector.
#[derive(Debug)]
pub struct ByteString(Vec<u8>);

/// Copies a byte vector.
pub(crate) fn copy_bytes(v: &Vec<u8>) -> (r: Vec<u8>)
    ensures
        r@ == v@,
{
    let mut out: Vec<u8> = Vec::new();
    let n = v.len();
    for k in 0..n
        invariant
            n == v@.len(),
            out@ == v@.subrange(0, k as int),
    {
        out.push(v[k]);
        proof {
            assert(out@ =~= v@.subrange(0, k + 1));
        }
    }
    proof {
        assert(v@.subrange(0, n as int) =~= v@);
    }
    out
}

impl ByteString {
    /// The bytes this value holds.
    pub closed spec fn view(&self) -> Seq<u8> {
        self.0@
    }

    /// Wraps the given bytes in a `ByteString`.
    pub fn new(value: Vec<u8>) -> (r: ByteString)
        ensures
            r@ == value@,
    {
        ByteString(value)
    }

    /// The length of the backing bytes.
    pub fn len(&self) -> (r: usize)
        ensures
            r == self@.len(),
    {
        self.0.len()
    }

    /// True when the backing bytes are empty.
    pub fn is_empty(&self) -> (r: bool)
        ensures
            r == (self@.len() == 0),
    {
        self.0.is_empty()
    }
}

impl PartialEq for ByteString {
    fn eq(&self, other: &ByteString) -> (r: bool) {
        let n = self.0.len();
        if n != other.0.len() {
            return false;
        }
        for i in 0..n
            invariant
                n == self@.len(),
                n == other@.len(),
                forall|j: int| 0 <= j < i ==> self@[j] == other@[j],
        {
            if self.0[i] != other.0[i] {
                return false;
            }
        }
        proof {
            assert(self@ =~= other@);
        }
        true
    }
}

impl vstd::std_specs::cmp::PartialEqSpecImpl for ByteString {
    open spec fn obeys_eq_spec() -> bool {
        true
    }

    open spec fn eq_spec(&self, other: &ByteString) -> bool {
        self@ == other@
    }
}

/// Copies the input bytes into a fresh `ByteString`. Reading never fails;
/// the `Result` is for convenience while decoding.
fn read_byte_string(value: &Vec<u8>) -> (r: Result<ByteString, BencodeError>)
    ensures
        r matches Ok(b) && b@ == value@,
{
    Ok(ByteString(copy_bytes(value)))
}

impl Decodable for ByteString {
    type Output = ByteString;

    open spec fn dec_err(m: Bval) -> Option<ErrorKind> {
        match m {
            Bval::Str(_) => None,
            Bval::Bytes(_) => None,
            _ => Some(ErrorKind::TypeMismatch),
        }
    }

    open spec fn dec_ok(m: Bval, out: &ByteString) -> bool {
        match m {
            Bval::Str(t) => out@ == vstd::utf8::encode_utf8(t),
            Bval::Bytes(b) => out@ == b,
            _ => false,
        }
    }

    open spec fn dec_opt_err(m: Option<Bval>) -> Option<ErrorKind> {
        match m {
            Some(mm) => Self::dec_err(mm),
            None => Some(ErrorKind::NotFound),
        }
    }

    open spec fn dec_opt_ok(m: Option<Bval>, out: &ByteString) -> bool {
        m matches Some(mm) && Self::dec_ok(mm, out)
    }

    /// Accepts either text or raw-byte string values, copying the
    /// underlying bytes in both cases.
    fn decode(value: &BencodeValue) -> (r: Result<ByteString, BencodeError>) {
        match value {
            BencodeValue::ByteString(b) => read_byte_string(b),
            BencodeValue::String(s) => {
                let bytes = s.as_str().as_bytes_vec();
                read_byte_string(&bytes)
            }
            _ => Err(BencodeError::new(ErrorKind::TypeMismatch, "expected string")),
        }
    }

    fn decode_option(value: Option<&BencodeValue>) -> (r: Result<ByteString, BencodeError>) {
        match value {
            Some(v) => Self::decode(v),
            None => Err(BencodeError::new(ErrorKind::NotFound, "value was not present")),
        }
    }
}

impl Encodable for ByteString {
    open spec fn spec_encoded(&self) -> Option<Bval> {
        Some(Bval::Bytes(self@))
    }

    /// Encodes to a raw-byte string value; encoding never fails.
    fn to_bencode(&self) -> (r: Option<BencodeValue>) {
        Some(BencodeValue::ByteString(copy_bytes(&self.0)))
    }
}

} // verus!
