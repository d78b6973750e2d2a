use vstd::prelude::*;
use crate::error::BencodeError;
use crate::error::ErrorKind;
use vstd::string::StringExecFns;
use crate::value::Bval;
use crate::torrent::Info;
use crate::value::BencodeValue;
use crate::value::dict_get;
use crate::decode::Decodable;
use crate::decode::decode;
use crate::encode::Encodable;
use crate::decode::lemma_model_dict_get;
use crate::parse::parse_value;
use crate::parse::Parsed;
use crate::text::push_char;

verus! {

/// Whether a byte passes through URL encoding unchanged.
pub open spec fn url_plain(b: u8) -> bool {
    ||| 97 <= b <= 122
    ||| 65 <= b <= 90
    ||| 48 <= b <= 57
    ||| b == 46
    ||| b == 45
    ||| b == 95
    ||| b == 126
}

/// The uppercase hexadecimal digit for a value below 16.
pub open spec fn hex_upper(n: u8) -> char {
    if n < 10 {
        ((48 + n) as u8) as char
    } else {
        ((55 + n) as u8) as char
    }
}

/// The URL encoding of one byte: the byte itself when unreserved, a
/// percent escape otherwise.
pub open spec fn url_byte(b: u8) -> Seq<char> {
    if url_plain(b) {
        seq![b as char]
    } else {
        seq!['%', hex_upper(b / 16), hex_upper(b % 16)]
    }
}

/// The URL encoding of a byte sequence.
pub open spec fn url_encoded(bs: Seq<u8>) -> Seq<char>
    decreases bs.len(),
{
    if bs.len() == 0 {
        Seq::empty()
    } else {
        url_encoded(bs.subrange(0, bs.len() - 1)) + url_byte(bs.last())
    }
}

/// Percent-encodes bytes for use in a tracker query string: unreserved
/// bytes pass through, everything else becomes an uppercase escape.
pub fn url_encode(data: &Vec<u8>) -> (r: String)
    ensures
        r@ == url_encoded(data@),
{
    let mut out = String::new();
    let n = data.len();
    for i in 0..n
        invariant
            n == data@.len(),
            out@ == url_encoded(data@.subrange(0, i as int)),
    {
        let b = data[i];
        if (97 <= b && b <= 122) || (65 <= b && b <= 90) || (48 <= b && b <= 57) || b == 46 || b
            == 45 || b == 95 || b == 126 {
            push_char(&mut out, b as char);
        } else {
            let hi = b / 16;
            let lo = b % 16;
            push_char(&mut out, '%');
            push_char(&mut out, if hi < 10 { (48 + hi) as char } else { (55 + hi) as char });
            push_char(&mut out, if lo < 10 { (48 + lo) as char } else { (55 + lo) as char });
        }
        proof {
            let cur = data@.subrange(0, i + 1);
            assert(cur.subrange(0, cur.len() - 1) =~= data@.subrange(0, i as int));
            assert(cur.last() == data@[i as int]);
            assert(out@ =~= url_encoded(cur));
        }
    }
    proof {
        assert(data@.subrange(0, n as int) =~= data@);
    }
    out
}

/// One peer as a tracker reports it.
#[derive(Debug)]
pub struct Peer {
    /// The peer's address.
    pub ip: String,
    /// The peer's port.
    pub port: u16,
}

/// What a successful tracker request yields: the reporting interval and
/// the peers to connect to.
#[derive(Debug)]
pub struct TrackerInfo {
    /// Seconds to wait between reports.
    pub interval: u32,
    /// The peers the tracker returned.
    pub peers: Vec<Peer>,
}

/// The raw shape of a tracker response before its fields are checked.
#[derive(Debug)]
pub struct GetTrackers {
    /// A failure message, present when the tracker rejected the request;
    /// its wire key is `failure reason`.
    pub failure_reason: Option<String>,
    /// Seconds to wait between reports.
    pub interval: Option<u32>,
    /// The peers returned.
    pub peers: Option<Vec<Peer>>,
}

impl Decodable for Peer {
    type Output = Peer;

    open spec fn dec_err(m: Bval) -> Option<ErrorKind> {
        match m {
            Bval::Dict(entries) => match <String as Decodable>::dec_opt_err(
                dict_get(entries, "ip"@),
            ) {
                Some(k) => Some(k),
                None => <u16 as Decodable>::dec_opt_err(dict_get(entries, "port"@)),
            },
            _ => Some(ErrorKind::TypeMismatch),
        }
    }

    open spec fn dec_ok(m: Bval, out: &Peer) -> bool {
        m matches Bval::Dict(entries) && <String as Decodable>::dec_opt_ok(
            dict_get(entries, "ip"@),
            &out.ip,
        ) && <u16 as Decodable>::dec_opt_ok(dict_get(entries, "port"@), &out.port)
    }

    open spec fn dec_opt_err(m: Option<Bval>) -> Option<ErrorKind> {
        match m {
            Some(mm) => Self::dec_err(mm),
            None => Some(ErrorKind::NotFound),
        }
    }

    open spec fn dec_opt_ok(m: Option<Bval>, out: &Peer) -> bool {
        m matches Some(mm) && Self::dec_ok(mm, out)
    }

    /// Resolves the address and port by their wire keys.
    fn decode(value: &BencodeValue) -> (r: Result<Peer, BencodeError>) {
        proof {
            if let BencodeValue::Dictionary(m) = value {
                lemma_model_dict_get(*m, "ip"@);
                lemma_model_dict_get(*m, "port"@);
            }
        }
        let ip = match decode::<String>(value, "ip") {
            Ok(v) => v,
            Err(e) => {
                return Err(e);
            }
        };
        let port = match decode::<u16>(value, "port") {
            Ok(v) => v,
            Err(e) => {
                return Err(e);
            }
        };
        Ok(Peer { ip, port })
    }

    fn decode_option(value: Option<&BencodeValue>) -> (r: Result<Peer, BencodeError>) {
        match value {
            Some(v) => Self::decode(v),
            None => Err(BencodeError::new(ErrorKind::NotFound, "value was not present")),
        }
    }
}

impl Decodable for GetTrackers {
    type Output = GetTrackers;

    open spec fn dec_err(m: Bval) -> Option<ErrorKind> {
        match m {
            Bval::Dict(_) => None,
            _ => Some(ErrorKind::TypeMismatch),
        }
    }

    open spec fn dec_ok(m: Bval, out: &GetTrackers) -> bool {
        m matches Bval::Dict(entries) && <Option<String> as Decodable>::dec_opt_ok(
            dict_get(entries, "failure reason"@),
            &out.failure_reason,
        ) && <Option<u32> as Decodable>::dec_opt_ok(dict_get(entries, "interval"@), &out.interval)
            && <Option<Vec<Peer>> as Decodable>::dec_opt_ok(
            dict_get(entries, "peers"@),
            &out.peers,
        )
    }

    open spec fn dec_opt_err(m: Option<Bval>) -> Option<ErrorKind> {
        match m {
            Some(mm) => Self::dec_err(mm),
            None => Some(ErrorKind::NotFound),
        }
    }

    open spec fn dec_opt_ok(m: Option<Bval>, out: &GetTrackers) -> bool {
        m matches Some(mm) && Self::dec_ok(mm, out)
    }

    /// Every field is optional, so decoding only requires a dictionary.
    fn decode(value: &BencodeValue) -> (r: Result<GetTrackers, BencodeError>) {
        proof {
            if let BencodeValue::Dictionary(m) = value {
                lemma_model_dict_get(*m, "failure reason"@);
                lemma_model_dict_get(*m, "interval"@);
                lemma_model_dict_get(*m, "peers"@);
            }
        }
        let failure_reason = match decode::<Option<String>>(value, "failure reason") {
            Ok(v) => v,
            Err(e) => {
                return Err(e);
            }
        };
        let interval = match decode::<Option<u32>>(value, "interval") {
            Ok(v) => v,
            Err(e) => {
                return Err(e);
            }
        };
        let peers = match decode::<Option<Vec<Peer>>>(value, "peers") {
            Ok(v) => v,
            Err(e) => {
                return Err(e);
            }
        };
        match value {
            BencodeValue::Dictionary(_) => Ok(GetTrackers { failure_reason, interval, peers }),
            _ => Err(BencodeError::new(ErrorKind::TypeMismatch, "the structure did not match")),
        }
    }

    fn decode_option(value: Option<&BencodeValue>) -> (r: Result<GetTrackers, BencodeError>) {
        match value {
            Some(v) => Self::decode(v),
            None => Err(BencodeError::new(ErrorKind::NotFound, "value was not present")),
        }
    }
}

/// Interprets a raw tracker response body: a reported failure reason is
/// surfaced as a format error carrying its text, a missing interval or
/// peer list as a not-found error, and otherwise the typed info is
/// returned. Success is owed exactly when the response is a dictionary
/// with no failure reason whose interval and peer list decode.
pub fn process_response(response: &Vec<u8>) -> (r: Result<TrackerInfo, BencodeError>)
    ensures
        match parse_value(response@, 0) {
            Parsed::Found(m, end) => match <GetTrackers as Decodable>::dec_err(m) {
                Some(k) => r matches Err(e) && e.kind == k,
                None => match m {
                    Bval::Dict(entries) => ({
                        let fr = dict_get(entries, "failure reason"@);
                        let iv = dict_get(entries, "interval"@);
                        let ps = dict_get(entries, "peers"@);
                        if !<Option<String> as Decodable>::dec_opt_ok(fr, &None::<String>) {
                            r matches Err(e) && e.kind == ErrorKind::Format
                                && <Option<String> as Decodable>::dec_opt_ok(
                                fr,
                                &Some(e.message),
                            )
                        } else if <Option<u32> as Decodable>::dec_opt_ok(iv, &None::<u32>) {
                            r matches Err(e) && e.kind == ErrorKind::NotFound
                        } else if <Option<Vec<Peer>> as Decodable>::dec_opt_ok(
                            ps,
                            &None::<Vec<Peer>>,
                        ) {
                            r matches Err(e) && e.kind == ErrorKind::NotFound
                        } else {
                            r matches Ok(ti) && <Option<u32> as Decodable>::dec_opt_ok(
                                iv,
                                &Some(ti.interval),
                            ) && <Option<Vec<Peer>> as Decodable>::dec_opt_ok(
                                ps,
                                &Some(ti.peers),
                            )
                        }
                    }),
                    _ => false,
                },
            },
            Parsed::Truncated => r matches Err(e) && e.kind == ErrorKind::EndOfStream,
            Parsed::Malformed => r matches Err(e) && e.kind == ErrorKind::Format,
        },
{
    let parsed = match GetTrackers::read_bytes(response) {
        Ok(v) => v,
        Err(e) => {
            return Err(e);
        }
    };
    match parsed.failure_reason {
        Some(failure) => {
            return Err(BencodeError { kind: ErrorKind::Format, message: failure });
        }
        None => {}
    }
    let interval = match parsed.interval {
        Some(v) => v,
        None => {
            return Err(BencodeError::new(ErrorKind::NotFound, "interval missing"));
        }
    };
    let peers = match parsed.peers {
        Some(v) => v,
        None => {
            return Err(BencodeError::new(ErrorKind::NotFound, "peers missing"));
        }
    };
    Ok(TrackerInfo { interval, peers })
}


/// The query string a tracker request carries: fixed transfer counters,
/// the info hash, the remaining length, the peer id and the port.
pub fn create_parameters(peer_id: &Vec<u8>, port: u16, info: &Info) -> (r: String)
    requires
        info.length is Some,
        crate::encode::encoded(
            Bval::Dict(crate::value::canon(crate::torrent::info_entries(*info))),
        ).len() <= crate::sha1::sha1_max_len(),
    ensures
        r@ == "?downloaded=0&info_hash="@ + url_encoded(
            crate::sha1::spec_sha1(
                crate::encode::encoded(
                    Bval::Dict(crate::value::canon(crate::torrent::info_entries(*info))),
                ),
            ),
        ) + "&left="@ + crate::text::dec_chars(info.length->0 as nat) + "&peer_id="@
            + url_encoded(peer_id@) + "&port="@ + crate::text::dec_chars(port as nat)
            + "&uploaded=0"@,
{
    let mut result = String::new();
    result.append("?downloaded=0&info_hash=");
    let encoded_info = match info.encode() {
        Some(b) => b,
        None => {
            proof {
                assert(false);
            }
            Vec::new()
        }
    };
    let hashed = crate::sha1::sha1_bytes_as_bytes(&encoded_info);
    let hash_text = url_encode(&hashed);
    result.append(hash_text.as_str());
    result.append("&left=");
    let left = match info.length {
        Some(v) => v,
        None => {
            proof {
                assert(false);
            }
            0
        }
    };
    crate::text::push_usize_decimal(&mut result, left);
    result.append("&peer_id=");
    let peer_text = url_encode(peer_id);
    result.append(peer_text.as_str());
    result.append("&port=");
    crate::text::push_usize_decimal(&mut result, port as usize);
    result.append("&uploaded=0");
    result
}

} // verus!
