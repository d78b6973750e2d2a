use vstd::prelude::*;
use vstd::string::StrSliceExecFns;
use crate::error::BencodeError;
use crate::error::ErrorKind;
use crate::iomap::InsertOrderMap;
use crate::iomap::lemma_first_key_index_bounds;
use crate::value::BencodeValue;
use crate::value::Bval;
use crate::value::model;
use crate::value::value_wf;
use crate::value::canon;
use crate::value::entry_models;
use crate::value::dict_get;
use crate::value::lemma_entry_models_push;
use crate::bytestring::ByteString;
use crate::decode::Decodable;
use crate::decode::decode;
use crate::decode::lemma_model_dict_get;
use crate::encode::Encodable;
use crate::encode::seq_encoded;

verus! {

/// A transfer client: its peer identity, its port, and what the tracker
/// last reported. The caller performs the tracker request and hands the
/// pieces here.
pub struct Client {
    /// The twenty-byte peer id used in requests.
    pub peer_id: Vec<u8>,
    /// The port reported to the tracker.
    pub port: u16,
    /// The interval and peers the tracker returned.
    pub tracker_info: crate::trackers::TrackerInfo,
}

impl Client {
    /// Assembles a client from its identity and the tracker's answer.
    pub fn new(peer_id: Vec<u8>, port: u16, tracker_info: crate::trackers::TrackerInfo) -> (r:
        Client)
        ensures
            r.peer_id@ == peer_id@,
            r.port == port,
            r.tracker_info == tracker_info,
    {
        Client { peer_id, port, tracker_info }
    }
}

/// A torrent file: the announce URL and the info block.
#[derive(Debug)]
pub struct Torrent {
    /// The announce URL on which to report the status.
    pub announce: String,
    /// The info block describing the content.
    pub info: Info,
}

/// The info block of a torrent: name, piece layout and file layout.
#[derive(Debug)]
pub struct Info {
    /// The name of the torrent.
    pub name: String,
    /// Piece length of contained data; its wire key is `piece length`.
    pub piece_length: usize,
    /// Hashes of the pieces.
    pub pieces: ByteString,
    /// Length of the file, when there is only one.
    pub length: Option<usize>,
    /// The files present, omitted when there is only one file.
    pub files: Option<Vec<File>>,
    /// Whether the torrent sits on a private tracker.
    pub private: Option<u16>,
    /// Private tracker source.
    pub source: Option<String>,
}

/// One file a torrent carries.
#[derive(Debug)]
pub struct File {
    /// The length of the file.
    pub length: usize,
    /// The path components of the file.
    pub path: Vec<String>,
}

impl Decodable for File {
    type Output = File;

    open spec fn dec_err(m: Bval) -> Option<ErrorKind> {
        match m {
            Bval::Dict(entries) => match <usize as Decodable>::dec_opt_err(
                dict_get(entries, "length"@),
            ) {
                Some(k) => Some(k),
                None => <Vec<String> as Decodable>::dec_opt_err(dict_get(entries, "path"@)),
            },
            _ => Some(ErrorKind::TypeMismatch),
        }
    }

    open spec fn dec_ok(m: Bval, out: &File) -> bool {
        m matches Bval::Dict(entries) && <usize as Decodable>::dec_opt_ok(
            dict_get(entries, "length"@),
            &out.length,
        ) && <Vec<String> as Decodable>::dec_opt_ok(dict_get(entries, "path"@), &out.path)
    }

    open spec fn dec_opt_err(m: Option<Bval>) -> Option<ErrorKind> {
        match m {
            Some(mm) => Self::dec_err(mm),
            None => Some(ErrorKind::NotFound),
        }
    }

    open spec fn dec_opt_ok(m: Option<Bval>, out: &File) -> bool {
        m matches Some(mm) && Self::dec_ok(mm, out)
    }

    /// Resolves each field by its wire key in the dictionary.
    fn decode(value: &BencodeValue) -> (r: Result<File, BencodeError>) {
        proof {
            if let BencodeValue::Dictionary(m) = value {
                lemma_model_dict_get(*m, "length"@);
                lemma_model_dict_get(*m, "path"@);
            }
        }
        let length = match decode::<usize>(value, "length") {
            Ok(v) => v,
            Err(e) => {
                return Err(e);
            }
        };
        let path = match decode::<Vec<String>>(value, "path") {
            Ok(v) => v,
            Err(e) => {
                return Err(e);
            }
        };
        Ok(File { length, path })
    }

    fn decode_option(value: Option<&BencodeValue>) -> (r: Result<File, BencodeError>) {
        match value {
            Some(v) => Self::decode(v),
            None => Err(BencodeError::new(ErrorKind::NotFound, "value was not present")),
        }
    }
}

/// The entries a `File` encodes to, in field order.
pub open spec fn file_entries(f: File) -> Seq<(Seq<char>, Bval)> {
    seq![
        ("length"@, Bval::Int(f.length as i64)),
        ("path"@, Bval::List(seq_encoded::<String>(f.path@))),
    ]
}

impl Encodable for File {
    open spec fn spec_encoded(&self) -> Option<Bval> {
        Some(Bval::Dict(canon(file_entries(*self))))
    }

    /// Builds a fresh dictionary holding each field under its wire key.
    fn to_bencode(&self) -> (r: Option<BencodeValue>) {
        let mut map: InsertOrderMap<BencodeValue> = InsertOrderMap::new();
        proof {
            reveal_strlit("length");
            reveal_strlit("path");
            assert(entry_models(map@) =~= Seq::<(Seq<char>, Bval)>::empty());
        }
        let k_length: String = "length".to_owned();
        let v_length = BencodeValue::Integer(self.length as i64);
        proof {
            lemma_first_key_index_bounds(map@, k_length@);
            lemma_entry_models_push(map@, k_length, v_length);
        }
        map.insert(k_length, v_length);
        let k_path: String = "path".to_owned();
        let v_path = match self.path.to_bencode() {
            Some(v) => v,
            None => {
                proof {
                    assert(false);
                }
                BencodeValue::Integer(0)
            }
        };
        proof {
            lemma_first_key_index_bounds(map@, k_path@);
            if map.spec_contains(k_path@) {
                let i = map.spec_index_of(k_path@);
                assert(map@[i].0@ == "length"@);
                assert(false);
            }
            lemma_entry_models_push(map@, k_path, v_path);
        }
        map.insert(k_path, v_path);
        proof {
            assert(entry_models(map@) =~= file_entries(*self));
        }
        Some(BencodeValue::Dictionary(map))
    }
}


impl Decodable for Info {
    type Output = Info;

    open spec fn dec_err(m: Bval) -> Option<ErrorKind> {
        match m {
            Bval::Dict(entries) => match <String as Decodable>::dec_opt_err(
                dict_get(entries, "name"@),
            ) {
                Some(k) => Some(k),
                None => match <usize as Decodable>::dec_opt_err(
                    dict_get(entries, "piece length"@),
                ) {
                    Some(k) => Some(k),
                    None => match <ByteString as Decodable>::dec_opt_err(
                        dict_get(entries, "pieces"@),
                    ) {
                        Some(k) => Some(k),
                        None => None,
                    },
                },
            },
            _ => Some(ErrorKind::TypeMismatch),
        }
    }

    open spec fn dec_ok(m: Bval, out: &Info) -> bool {
        m matches Bval::Dict(entries) && <String as Decodable>::dec_opt_ok(
            dict_get(entries, "name"@),
            &out.name,
        ) && <usize as Decodable>::dec_opt_ok(
            dict_get(entries, "piece length"@),
            &out.piece_length,
        ) && <ByteString as Decodable>::dec_opt_ok(dict_get(entries, "pieces"@), &out.pieces)
            && <Option<usize> as Decodable>::dec_opt_ok(dict_get(entries, "length"@), &out.length)
            && <Option<Vec<File>> as Decodable>::dec_opt_ok(
            dict_get(entries, "files"@),
            &out.files,
        ) && <Option<u16> as Decodable>::dec_opt_ok(dict_get(entries, "private"@), &out.private)
            && <Option<String> as Decodable>::dec_opt_ok(
            dict_get(entries, "source"@),
            &out.source,
        )
    }

    open spec fn dec_opt_err(m: Option<Bval>) -> Option<ErrorKind> {
        match m {
            Some(mm) => Self::dec_err(mm),
            None => Some(ErrorKind::NotFound),
        }
    }

    open spec fn dec_opt_ok(m: Option<Bval>, out: &Info) -> bool {
        m matches Some(mm) && Self::dec_ok(mm, out)
    }

    /// Resolves each field by its wire key; `piece_length` reads the
    /// override key `piece length`, not the field's own name.
    fn decode(value: &BencodeValue) -> (r: Result<Info, BencodeError>) {
        proof {
            if let BencodeValue::Dictionary(m) = value {
                lemma_model_dict_get(*m, "name"@);
                lemma_model_dict_get(*m, "piece length"@);
                lemma_model_dict_get(*m, "pieces"@);
                lemma_model_dict_get(*m, "length"@);
                lemma_model_dict_get(*m, "files"@);
                lemma_model_dict_get(*m, "private"@);
                lemma_model_dict_get(*m, "source"@);
            }
        }
        let name = match decode::<String>(value, "name") {
            Ok(v) => v,
            Err(e) => {
                return Err(e);
            }
        };
        let piece_length = match decode::<usize>(value, "piece length") {
            Ok(v) => v,
            Err(e) => {
                return Err(e);
            }
        };
        let pieces = match decode::<ByteString>(value, "pieces") {
            Ok(v) => v,
            Err(e) => {
                return Err(e);
            }
        };
        let length = match decode::<Option<usize>>(value, "length") {
            Ok(v) => v,
            Err(e) => {
                return Err(e);
            }
        };
        let files = match decode::<Option<Vec<File>>>(value, "files") {
            Ok(v) => v,
            Err(e) => {
                return Err(e);
            }
        };
        let private = match decode::<Option<u16>>(value, "private") {
            Ok(v) => v,
            Err(e) => {
                return Err(e);
            }
        };
        let source = match decode::<Option<String>>(value, "source") {
            Ok(v) => v,
            Err(e) => {
                return Err(e);
            }
        };
        Ok(Info { name, piece_length, pieces, length, files, private, source })
    }

    fn decode_option(value: Option<&BencodeValue>) -> (r: Result<Info, BencodeError>) {
        match value {
            Some(v) => Self::decode(v),
            None => Err(BencodeError::new(ErrorKind::NotFound, "value was not present")),
        }
    }
}

/// The three entries every `Info` encodes.
pub open spec fn info_entries_base(i: Info) -> Seq<(Seq<char>, Bval)> {
    seq![
        ("name"@, Bval::Str(i.name@)),
        ("piece length"@, Bval::Int(i.piece_length as i64)),
        ("pieces"@, Bval::Bytes(i.pieces@)),
    ]
}

/// The entries after the optional single-file length.
pub open spec fn info_entries_len(i: Info) -> Seq<(Seq<char>, Bval)> {
    match i.length {
        Some(n) => info_entries_base(i).push(("length"@, Bval::Int(n as i64))),
        None => info_entries_base(i),
    }
}

/// The entries after the optional file list.
pub open spec fn info_entries_files(i: Info) -> Seq<(Seq<char>, Bval)> {
    match i.files {
        Some(fs) => info_entries_len(i).push(("files"@, Bval::List(seq_encoded::<File>(fs@)))),
        None => info_entries_len(i),
    }
}

/// The entries after the optional private flag.
pub open spec fn info_entries_private(i: Info) -> Seq<(Seq<char>, Bval)> {
    match i.private {
        Some(p) => info_entries_files(i).push(("private"@, Bval::Int(p as i64))),
        None => info_entries_files(i),
    }
}

/// The entries an `Info` encodes to, in field order; unset optional
/// fields disappear from the wire form entirely.
pub open spec fn info_entries(i: Info) -> Seq<(Seq<char>, Bval)> {
    match i.source {
        Some(s) => info_entries_private(i).push(("source"@, Bval::Str(s@))),
        None => info_entries_private(i),
    }
}

impl Encodable for Info {
    open spec fn spec_encoded(&self) -> Option<Bval> {
        Some(Bval::Dict(canon(info_entries(*self))))
    }

    /// Builds a fresh dictionary from the fields in turn; a field whose
    /// value is absent is omitted, not emitted as a null marker.
    #[verifier::rlimit(100)]
    fn to_bencode(&self) -> (r: Option<BencodeValue>) {
        let mut map: InsertOrderMap<BencodeValue> = InsertOrderMap::new();
        proof {
            reveal_strlit("name");
            reveal_strlit("piece length");
            reveal_strlit("pieces");
            reveal_strlit("length");
            reveal_strlit("files");
            reveal_strlit("private");
            reveal_strlit("source");
            assert(entry_models(map@) =~= Seq::<(Seq<char>, Bval)>::empty());
        }
        let k_name: String = "name".to_owned();
        let v_name = BencodeValue::String(self.name.clone());
        proof {
            lemma_first_key_index_bounds(map@, k_name@);
            lemma_entry_models_push(map@, k_name, v_name);
        }
        map.insert(k_name, v_name);
        let ghost st1 = map@;
        let k_plen: String = "piece length".to_owned();
        let v_plen = BencodeValue::Integer(self.piece_length as i64);
        proof {
            reveal_strlit("name");
            reveal_strlit("piece length");
            lemma_first_key_index_bounds(map@, k_plen@);
            if map.spec_contains(k_plen@) {
                let i = map.spec_index_of(k_plen@);
                assert(map@.len() == 1);
                assert(i == 0);
                assert(map@[i].0@ == k_plen@);
                assert(k_plen@ == "piece length"@);
                assert(map@[0].0@ == "name"@);
                assert("name"@.len() == 4);
                assert("piece length"@.len() == 12);
                assert("name"@ != "piece length"@);
                assert(false);
            }
            lemma_entry_models_push(map@, k_plen, v_plen);
        }
        map.insert(k_plen, v_plen);
        let k_pieces: String = "pieces".to_owned();
        let v_pieces = match self.pieces.to_bencode() {
            Some(v) => v,
            None => {
                proof {
                    assert(false);
                }
                BencodeValue::Integer(0)
            }
        };
        proof {
            reveal_strlit("name");
            reveal_strlit("piece length");
            reveal_strlit("pieces");
            lemma_first_key_index_bounds(map@, k_pieces@);
            if map.spec_contains(k_pieces@) {
                let i = map.spec_index_of(k_pieces@);
                assert(map@[0].0@ == "name"@);
                assert(map@[1].0@ == "piece length"@);
                assert(false);
            }
            lemma_entry_models_push(map@, k_pieces, v_pieces);
        }
        map.insert(k_pieces, v_pieces);
        proof {
            assert(entry_models(map@) =~= info_entries_base(*self));
        }
        match &self.length {
            Some(n) => {
                let k: String = "length".to_owned();
                let v = BencodeValue::Integer(*n as i64);
                proof {
                    reveal_strlit("name");
                    reveal_strlit("piece length");
                    reveal_strlit("pieces");
                    reveal_strlit("length");
                    reveal_strlit("files");
                    reveal_strlit("private");
                    reveal_strlit("source");
                    crate::value::lemma_entry_models_index(map@);
                    lemma_first_key_index_bounds(map@, k@);
                    if map.spec_contains(k@) {
                        let i = map.spec_index_of(k@);
                        let me = entry_models(map@);
                        assert(me[i].0 == map@[i].0@);
                        assert(me == info_entries_base(*self));
                        assert(i == 0 || i == 1 || i == 2);
                        assert(me[0].0 == "name"@);
                        assert(me[1].0 == "piece length"@);
                        assert(me[2].0 == "pieces"@);
                        assert("length"@.len() == 6);
                        assert("name"@.len() == 4);
                        assert("piece length"@.len() == 12);
                        assert("pieces"@[0] == 'p');
                        assert("length"@[0] == 'l');
                        assert(false);
                    }
                    lemma_entry_models_push(map@, k, v);
                }
                map.insert(k, v);
            }
            None => {}
        }
        proof {
            assert(entry_models(map@) =~= info_entries_len(*self));
        }
        match &self.files {
            Some(fs) => {
                let k: String = "files".to_owned();
                let v = match fs.to_bencode() {
                    Some(v) => v,
                    None => {
                        proof {
                            assert(false);
                        }
                        BencodeValue::Integer(0)
                    }
                };
                proof {
                    reveal_strlit("name");
                    reveal_strlit("piece length");
                    reveal_strlit("pieces");
                    reveal_strlit("length");
                    reveal_strlit("files");
                    reveal_strlit("private");
                    reveal_strlit("source");
                    crate::value::lemma_entry_models_index(map@);
                    lemma_first_key_index_bounds(map@, k@);
                    if map.spec_contains(k@) {
                        let i = map.spec_index_of(k@);
                        let me = entry_models(map@);
                        assert(me[i].0 == map@[i].0@);
                        assert(me[i].0 == "name"@ || me[i].0 == "piece length"@ || me[i].0
                            == "pieces"@ || me[i].0 == "length"@ || me[i].0 == "files"@ || me[i].0
                            == "private"@);
                        assert(false);
                    }
                    lemma_entry_models_push(map@, k, v);
                }
                map.insert(k, v);
            }
            None => {}
        }
        proof {
            assert(entry_models(map@) =~= info_entries_files(*self));
        }
        match &self.private {
            Some(p) => {
                let k: String = "private".to_owned();
                let v = BencodeValue::Integer(*p as i64);
                proof {
                    reveal_strlit("name");
                    reveal_strlit("piece length");
                    reveal_strlit("pieces");
                    reveal_strlit("length");
                    reveal_strlit("files");
                    reveal_strlit("private");
                    reveal_strlit("source");
                    crate::value::lemma_entry_models_index(map@);
                    lemma_first_key_index_bounds(map@, k@);
                    if map.spec_contains(k@) {
                        let i = map.spec_index_of(k@);
                        let me = entry_models(map@);
                        assert(me[i].0 == map@[i].0@);
                        assert(me[i].0 == "name"@ || me[i].0 == "piece length"@ || me[i].0
                            == "pieces"@ || me[i].0 == "length"@ || me[i].0 == "files"@ || me[i].0
                            == "private"@);
                        assert(false);
                    }
                    lemma_entry_models_push(map@, k, v);
                }
                map.insert(k, v);
            }
            None => {}
        }
        proof {
            assert(entry_models(map@) =~= info_entries_private(*self));
        }
        match &self.source {
            Some(src) => {
                let k: String = "source".to_owned();
                let v = BencodeValue::String(src.clone());
                proof {
                    reveal_strlit("name");
                    reveal_strlit("piece length");
                    reveal_strlit("pieces");
                    reveal_strlit("length");
                    reveal_strlit("files");
                    reveal_strlit("private");
                    reveal_strlit("source");
                    crate::value::lemma_entry_models_index(map@);
                    lemma_first_key_index_bounds(map@, k@);
                    if map.spec_contains(k@) {
                        let i = map.spec_index_of(k@);
                        let me = entry_models(map@);
                        assert(me[i].0 == map@[i].0@);
                        assert(me[i].0 == "name"@ || me[i].0 == "piece length"@ || me[i].0
                            == "pieces"@ || me[i].0 == "length"@ || me[i].0 == "files"@ || me[i].0
                            == "private"@);
                        assert(false);
                    }
                    lemma_entry_models_push(map@, k, v);
                }
                map.insert(k, v);
            }
            None => {}
        }
        proof {
            assert(entry_models(map@) =~= info_entries(*self));
        }
        Some(BencodeValue::Dictionary(map))
    }
}

impl Decodable for Torrent {
    type Output = Torrent;

    open spec fn dec_err(m: Bval) -> Option<ErrorKind> {
        match m {
            Bval::Dict(entries) => match <String as Decodable>::dec_opt_err(
                dict_get(entries, "announce"@),
            ) {
                Some(k) => Some(k),
                None => <Info as Decodable>::dec_opt_err(dict_get(entries, "info"@)),
            },
            _ => Some(ErrorKind::TypeMismatch),
        }
    }

    open spec fn dec_ok(m: Bval, out: &Torrent) -> bool {
        m matches Bval::Dict(entries) && <String as Decodable>::dec_opt_ok(
            dict_get(entries, "announce"@),
            &out.announce,
        ) && <Info as Decodable>::dec_opt_ok(dict_get(entries, "info"@), &out.info)
    }

    open spec fn dec_opt_err(m: Option<Bval>) -> Option<ErrorKind> {
        match m {
            Some(mm) => Self::dec_err(mm),
            None => Some(ErrorKind::NotFound),
        }
    }

    open spec fn dec_opt_ok(m: Option<Bval>, out: &Torrent) -> bool {
        m matches Some(mm) && Self::dec_ok(mm, out)
    }

    /// Resolves the announce URL and the info block by their wire keys.
    fn decode(value: &BencodeValue) -> (r: Result<Torrent, BencodeError>) {
        proof {
            if let BencodeValue::Dictionary(m) = value {
                lemma_model_dict_get(*m, "announce"@);
                lemma_model_dict_get(*m, "info"@);
            }
        }
        let announce = match decode::<String>(value, "announce") {
            Ok(v) => v,
            Err(e) => {
                return Err(e);
            }
        };
        let info = match decode::<Info>(value, "info") {
            Ok(v) => v,
            Err(e) => {
                return Err(e);
            }
        };
        Ok(Torrent { announce, info })
    }

    fn decode_option(value: Option<&BencodeValue>) -> (r: Result<Torrent, BencodeError>) {
        match value {
            Some(v) => Self::decode(v),
            None => Err(BencodeError::new(ErrorKind::NotFound, "value was not present")),
        }
    }
}


impl Torrent {
    /// The URL-encoded SHA-1 hash of the canonical encoding of the info
    /// block, the torrent's content identifier.
    pub fn get_info_hash(&self) -> (r: String)
        requires
            crate::encode::encoded(
                Bval::Dict(canon(info_entries(self.info))),
            ).len() <= crate::sha1::sha1_max_len(),
        ensures
            r@ == crate::trackers::url_encoded(
                crate::sha1::spec_sha1(
                    crate::encode::encoded(Bval::Dict(canon(info_entries(self.info)))),
                ),
            ),
    {
        let bencoded = match self.info.encode() {
            Some(b) => b,
            None => {
                proof {
                    assert(false);
                }
                Vec::new()
            }
        };
        let hash = crate::sha1::sha1_bytes_as_bytes(&bencoded);
        crate::trackers::url_encode(&hash)
    }
}


/// Round trip at the record level: a file record encoded to the value
/// tree and decoded back comes back with the same fields. The file
/// length must fit the signed 64-bit wire range, since integer fields
/// are narrowed with a plain cast.
pub proof fn lemma_file_round_trip(f: File, v: BencodeValue, out: File)
    requires
        f.length <= i64::MAX,
        <File as Encodable>::spec_encoded(&f) == Some(model(v)),
        <File as Decodable>::dec_ok(model(v), &out),
    ensures
        out.length == f.length,
        out.path@.len() == f.path@.len(),
        forall|i: int| 0 <= i < f.path@.len() ==> #[trigger] out.path@[i]@ == f.path@[i]@,
{
    lemma_file_decode_core(f, out);
}

/// Round trip at the wire level: the canonical wire bytes of a file
/// record, parsed and decoded back, give the same fields. The parser's
/// normalization changes nothing here, since a file record carries no
/// raw-byte field.
pub proof fn lemma_file_wire_round_trip(f: File, out: File)
    requires
        f.length <= i64::MAX,
        <File as Decodable>::dec_ok(
            crate::roundtrip::norm(Bval::Dict(canon(file_entries(f)))),
            &out,
        ),
    ensures
        out.length == f.length,
        out.path@.len() == f.path@.len(),
        forall|i: int| 0 <= i < f.path@.len() ==> #[trigger] out.path@[i]@ == f.path@[i]@,
{
    lemma_file_norm_identity(f);
    lemma_file_decode_core(f, out);
}

/// A file record's model is untouched by the parser's normalization: it
/// holds only integers and text.
proof fn lemma_file_norm_identity(f: File)
    ensures
        crate::roundtrip::norm(Bval::Dict(canon(file_entries(f)))) == Bval::Dict(
            canon(file_entries(f)),
        ),
{
    let fe = file_entries(f);
    let cs = canon(fe);
    crate::canon::lemma_canon_contains(fe);
    crate::roundtrip::lemma_norm_entries_public(cs);
    crate::encode::lemma_seq_encoded_strings(f.path@);
    assert forall|i: int| 0 <= i < cs.len() implies crate::roundtrip::norm_entries(cs)[i]
        == cs[i] by {
        let w = choose|w: int| 0 <= w < fe.len() && fe[w] == cs[i];
        match fe[w].1 {
            Bval::List(items) => {
                assert(items == crate::encode::seq_encoded::<String>(f.path@));
                crate::roundtrip::lemma_norm_all_str(items);
            }
            _ => {}
        }
    }
    assert(crate::roundtrip::norm_entries(cs) =~= cs);
}

/// The shared decoding argument: from the decode relation on the file
/// record's canonical dictionary model, the fields come back unchanged.
proof fn lemma_file_decode_core(f: File, out: File)
    requires
        f.length <= i64::MAX,
        <File as Decodable>::dec_ok(Bval::Dict(canon(file_entries(f))), &out),
    ensures
        out.length == f.length,
        out.path@.len() == f.path@.len(),
        forall|i: int| 0 <= i < f.path@.len() ==> #[trigger] out.path@[i]@ == f.path@[i]@,
{
    let fe = file_entries(f);
    crate::canon::lemma_canon_map(fe);
    proof_file_entries_map(f);
    crate::encode::lemma_seq_encoded_strings(f.path@);
    assert(dict_get(canon(fe), "length"@) == Some(Bval::Int(f.length as i64)));
    assert(dict_get(canon(fe), "path"@) == Some(
        Bval::List(crate::encode::seq_encoded::<String>(f.path@)),
    ));
    assert(out.length == (f.length as i64) as usize);
    let items = crate::encode::seq_encoded::<String>(f.path@);
    assert forall|i: int| 0 <= i < f.path@.len() implies #[trigger] out.path@[i]@
        == f.path@[i]@ by {
        assert(items[i] == Bval::Str(f.path@[i]@));
        assert(<String as Decodable>::dec_ok(items[i], &out.path@[i]));
    }
}

/// The entry map of a file record's two entries.
proof fn proof_file_entries_map(f: File)
    ensures
        crate::value::entries_map(file_entries(f)).contains_key("length"@),
        crate::value::entries_map(file_entries(f))["length"@] == Bval::Int(f.length as i64),
        crate::value::entries_map(file_entries(f)).contains_key("path"@),
        crate::value::entries_map(file_entries(f))["path"@] == Bval::List(
            crate::encode::seq_encoded::<String>(f.path@),
        ),
{
    reveal_strlit("length");
    reveal_strlit("path");
    let fe = file_entries(f);
    reveal_with_fuel(crate::value::entries_map, 4);
    assert(fe.subrange(0, 1).subrange(0, 0) =~= Seq::<(Seq<char>, Bval)>::empty());
    assert(fe.subrange(0, 1).last() == fe[0]);
    assert(fe.subrange(0, fe.len() - 1) =~= fe.subrange(0, 1));
    assert("length"@.len() == 6);
    assert("path"@.len() == 4);
}


/// Distinct wire keys of the info block, pairwise.
proof fn lemma_info_keys_distinct()
    ensures
        "name"@ != "piece length"@ && "name"@ != "pieces"@ && "name"@ != "length"@ && "name"@
            != "files"@ && "name"@ != "private"@ && "name"@ != "source"@,
        "piece length"@ != "pieces"@ && "piece length"@ != "length"@ && "piece length"@
            != "files"@ && "piece length"@ != "private"@ && "piece length"@ != "source"@,
        "pieces"@ != "length"@ && "pieces"@ != "files"@ && "pieces"@ != "private"@ && "pieces"@
            != "source"@,
        "length"@ != "files"@ && "length"@ != "private"@ && "length"@ != "source"@,
        "files"@ != "private"@ && "files"@ != "source"@,
        "private"@ != "source"@,
{
    reveal_strlit("name");
    reveal_strlit("piece length");
    reveal_strlit("pieces");
    reveal_strlit("length");
    reveal_strlit("files");
    reveal_strlit("private");
    reveal_strlit("source");
    assert("name"@.len() == 4);
    assert("piece length"@.len() == 12);
    assert("pieces"@.len() == 6);
    assert("length"@.len() == 6);
    assert("files"@.len() == 5);
    assert("private"@.len() == 7);
    assert("source"@.len() == 6);
    assert("pieces"@[0] == 'p');
    assert("length"@[0] == 'l');
    assert("source"@[0] == 's');
}

/// The members of the info block's entry sequence: what stands at each
/// position, depending on which optional fields are present.
proof fn lemma_info_entries_shape(i: Info)
    ensures
        info_entries(i).len() <= 7,
        forall|j: int|
            0 <= j < info_entries(i).len() ==> ({
                let p = #[trigger] info_entries(i)[j];
                ||| p == ("name"@, Bval::Str(i.name@))
                ||| p == ("piece length"@, Bval::Int(i.piece_length as i64))
                ||| p == ("pieces"@, Bval::Bytes(i.pieces@))
                ||| (i.length matches Some(n) && p == ("length"@, Bval::Int(n as i64)))
                ||| (i.files matches Some(fs) && p == (
                    "files"@,
                    Bval::List(seq_encoded::<File>(fs@)),
                ))
                ||| (i.private matches Some(pv) && p == ("private"@, Bval::Int(pv as i64)))
                ||| (i.source matches Some(sv) && p == ("source"@, Bval::Str(sv@)))
            }),
{
}

/// The info block's entries have pairwise distinct keys.
proof fn lemma_info_entries_unique(i: Info)
    ensures
        crate::value::entries_unique(info_entries(i)),
        info_entries(i).contains(("name"@, Bval::Str(i.name@))),
        info_entries(i).contains(("piece length"@, Bval::Int(i.piece_length as i64))),
        info_entries(i).contains(("pieces"@, Bval::Bytes(i.pieces@))),
        i.length matches Some(n) ==> info_entries(i).contains(("length"@, Bval::Int(n as i64))),
        i.length is None ==> forall|j: int|
            0 <= j < info_entries(i).len() ==> (#[trigger] info_entries(i)[j]).0 != "length"@,
        i.files matches Some(fs) ==> info_entries(i).contains(
            ("files"@, Bval::List(seq_encoded::<File>(fs@))),
        ),
        i.files is None ==> forall|j: int|
            0 <= j < info_entries(i).len() ==> (#[trigger] info_entries(i)[j]).0 != "files"@,
        i.private matches Some(pv) ==> info_entries(i).contains(
            ("private"@, Bval::Int(pv as i64)),
        ),
        i.private is None ==> forall|j: int|
            0 <= j < info_entries(i).len() ==> (#[trigger] info_entries(i)[j]).0 != "private"@,
        i.source matches Some(sv) ==> info_entries(i).contains(("source"@, Bval::Str(sv@))),
        i.source is None ==> forall|j: int|
            0 <= j < info_entries(i).len() ==> (#[trigger] info_entries(i)[j]).0 != "source"@,
{
    lemma_info_keys_distinct();
    lemma_info_entries_shape(i);
    let e0 = info_entries_base(i);
    let e1 = info_entries_len(i);
    let e2 = info_entries_files(i);
    let e3 = info_entries_private(i);
    let e4 = info_entries(i);
    assert(e0.len() == 3);
    assert(e1[0] == e0[0] && e1[1] == e0[1] && e1[2] == e0[2]);
    assert(e2[0] == e1[0] && e2[1] == e1[1] && e2[2] == e1[2]);
    assert(e3[0] == e2[0] && e3[1] == e2[1] && e3[2] == e2[2]);
    assert(e4[0] == e3[0] && e4[1] == e3[1] && e4[2] == e3[2]);
    assert(e4[0] == ("name"@, Bval::Str(i.name@)));
    assert(e4[1] == ("piece length"@, Bval::Int(i.piece_length as i64)));
    assert(e4[2] == ("pieces"@, Bval::Bytes(i.pieces@)));
    assert(e4.contains(e4[0]));
    assert(e4.contains(e4[1]));
    assert(e4.contains(e4[2]));
    match i.length {
        Some(n) => {
            assert(e1[3] == ("length"@, Bval::Int(n as i64)));
            assert(e2[3] == e1[3] && e3[3] == e2[3] && e4[3] == e3[3]);
            assert(e4.contains(e4[3]));
        }
        None => {}
    }
    match i.files {
        Some(fs) => {
            let fi = e1.len() as int;
            assert(e2[fi] == ("files"@, Bval::List(seq_encoded::<File>(fs@))));
            assert(e3[fi] == e2[fi] && e4[fi] == e3[fi]);
            assert(e4.contains(e4[fi]));
        }
        None => {}
    }
    match i.private {
        Some(pv) => {
            let pi = e2.len() as int;
            assert(e3[pi] == ("private"@, Bval::Int(pv as i64)));
            assert(e4[pi] == e3[pi]);
            assert(e4.contains(e4[pi]));
        }
        None => {}
    }
    match i.source {
        Some(sv) => {
            let si = e3.len() as int;
            assert(e4[si] == ("source"@, Bval::Str(sv@)));
            assert(e4.contains(e4[si]));
        }
        None => {}
    }
}

/// What looking each wire key up in the info block's canonical model
/// yields.
proof fn lemma_info_lookup(i: Info)
    ensures
        dict_get(canon(info_entries(i)), "name"@) == Some(Bval::Str(i.name@)),
        dict_get(canon(info_entries(i)), "piece length"@) == Some(
            Bval::Int(i.piece_length as i64),
        ),
        dict_get(canon(info_entries(i)), "pieces"@) == Some(Bval::Bytes(i.pieces@)),
        dict_get(canon(info_entries(i)), "length"@) == match i.length {
            Some(n) => Some(Bval::Int(n as i64)),
            None => None,
        },
        dict_get(canon(info_entries(i)), "files"@) == match i.files {
            Some(fs) => Some(Bval::List(seq_encoded::<File>(fs@))),
            None => None,
        },
        dict_get(canon(info_entries(i)), "private"@) == match i.private {
            Some(pv) => Some(Bval::Int(pv as i64)),
            None => None,
        },
        dict_get(canon(info_entries(i)), "source"@) == match i.source {
            Some(sv) => Some(Bval::Str(sv@)),
            None => None,
        },
{
    let fe = info_entries(i);
    lemma_info_entries_unique(i);
    lemma_info_keys_distinct();
    crate::canon::lemma_canon_map(fe);
    crate::canon::lemma_entries_map_dom(fe);
    assert forall|idx: int| 0 <= idx < fe.len() implies crate::value::entries_map(
        fe,
    ).contains_key((#[trigger] fe[idx]).0) && crate::value::entries_map(fe)[fe[idx].0]
        == fe[idx].1 by {
        crate::canon::lemma_entries_map_unique_val(fe, idx);
    }
}


/// What each file of a sequence encodes to: its own dictionary, in order.
proof fn lemma_seq_encoded_files(files: Seq<File>)
    ensures
        seq_encoded::<File>(files).len() == files.len(),
        forall|j: int|
            0 <= j < files.len() ==> #[trigger] seq_encoded::<File>(files)[j] == Bval::Dict(
                canon(file_entries(files[j])),
            ),
    decreases files.len(),
{
    if files.len() > 0 {
        let t = files.subrange(1, files.len() as int);
        lemma_seq_encoded_files(t);
        assert forall|j: int| 0 <= j < files.len() implies #[trigger] seq_encoded::<File>(
            files,
        )[j] == Bval::Dict(canon(file_entries(files[j]))) by {
            if j > 0 {
                assert(t[j - 1] == files[j]);
            }
        }
    }
}

/// Whether two file records carry the same length and the same path.
pub open spec fn file_fields_eq(a: File, b: File) -> bool {
    &&& a.length == b.length
    &&& a.path@.len() == b.path@.len()
    &&& forall|i: int| 0 <= i < a.path@.len() ==> (#[trigger] a.path@[i])@ == b.path@[i]@
}

/// Round trip for the info block: encoded to the value tree and decoded
/// back, every field returns unchanged, present or absent alike. Integer
/// fields must fit the signed 64-bit wire range, since they are narrowed
/// with a plain cast.
pub proof fn lemma_info_round_trip(i: Info, out: Info)
    requires
        i.piece_length <= i64::MAX,
        i.length matches Some(n) ==> n <= i64::MAX,
        i.files matches Some(fs) ==> forall|j: int|
            0 <= j < fs@.len() ==> (#[trigger] fs@[j]).length <= i64::MAX,
        <Info as Decodable>::dec_ok(Bval::Dict(canon(info_entries(i))), &out),
    ensures
        out.name@ == i.name@,
        out.piece_length == i.piece_length,
        out.pieces@ == i.pieces@,
        out.length == i.length,
        out.private == i.private,
        out.source is Some <==> i.source is Some,
        i.source matches Some(sv) ==> out.source matches Some(ov) && ov@ == sv@,
        out.files is Some <==> i.files is Some,
        i.files matches Some(fs) ==> out.files matches Some(ofs) && ofs@.len() == fs@.len() && (
        forall|j: int| 0 <= j < fs@.len() ==> file_fields_eq(#[trigger] fs@[j], ofs@[j])),
{
    lemma_info_lookup(i);
    let cs = canon(info_entries(i));
    assert(out.piece_length == (i.piece_length as i64) as usize);
    match i.length {
        Some(n) => {
            assert(out.length == Some((n as i64) as usize));
        }
        None => {}
    }
    match i.files {
        Some(fs) => {
            lemma_seq_encoded_files(fs@);
            let items = seq_encoded::<File>(fs@);
            assert(<Option<Vec<File>> as Decodable>::dec_opt_ok(
                Some(Bval::List(items)),
                &out.files,
            ));
            assert forall|j: int| 0 <= j < items.len() implies <File as Decodable>::dec_err(
                #[trigger] items[j],
            ) is None by {
                let fj = fs@[j];
                crate::canon::lemma_canon_map(file_entries(fj));
                proof_file_entries_map(fj);
                crate::encode::lemma_seq_encoded_strings(fj.path@);
                let strs = crate::encode::seq_encoded::<String>(fj.path@);
                assert forall|k: int| 0 <= k < strs.len() implies <String as Decodable>::dec_err(
                    #[trigger] strs[k],
                ) is None by {
                    assert(strs[k] == Bval::Str(fj.path@[k]@));
                }
                crate::decode::lemma_seq_dec_err_none::<String>(strs);
                assert(dict_get(canon(file_entries(fj)), "length"@) == Some(
                    Bval::Int(fj.length as i64),
                ));
                assert(dict_get(canon(file_entries(fj)), "path"@) == Some(Bval::List(strs)));
            }
            crate::decode::lemma_seq_dec_err_none::<File>(items);
            assert(<Vec<File> as Decodable>::dec_err(Bval::List(items)) is None);
            match out.files {
                Some(ofs) => {
                    assert forall|j: int| 0 <= j < fs@.len() implies file_fields_eq(
                        #[trigger] fs@[j],
                        ofs@[j],
                    ) by {
                        assert(items[j] == Bval::Dict(canon(file_entries(fs@[j]))));
                        assert(<File as Decodable>::dec_ok(items[j], &ofs@[j]));
                        lemma_file_decode_core(fs@[j], ofs@[j]);
                    }
                }
                None => {
                    assert(false);
                }
            }
        }
        None => {}
    }
}


/// Round trip for the info block at the wire level: its canonical wire
/// bytes, parsed and decoded back, give every field unchanged. The
/// parser's normalization only turns raw piece bytes that happen to be
/// valid UTF-8 into text, which the byte-string provider reads back to
/// the same bytes.
pub proof fn lemma_info_wire_round_trip(i: Info, out: Info)
    requires
        i.piece_length <= i64::MAX,
        i.length matches Some(n) ==> n <= i64::MAX,
        i.files matches Some(fs) ==> forall|j: int|
            0 <= j < fs@.len() ==> (#[trigger] fs@[j]).length <= i64::MAX,
        <Info as Decodable>::dec_ok(
            crate::roundtrip::norm(Bval::Dict(canon(info_entries(i)))),
            &out,
        ),
    ensures
        out.name@ == i.name@,
        out.piece_length == i.piece_length,
        out.pieces@ == i.pieces@,
        out.length == i.length,
        out.private == i.private,
        out.source is Some <==> i.source is Some,
        i.source matches Some(sv) ==> out.source matches Some(ov) && ov@ == sv@,
        out.files is Some <==> i.files is Some,
        i.files matches Some(fs) ==> out.files matches Some(ofs) && ofs@.len() == fs@.len() && (
        forall|j: int| 0 <= j < fs@.len() ==> file_fields_eq(#[trigger] fs@[j], ofs@[j])),
{
    broadcast use vstd::utf8::decode_utf8_encode_utf8;

    let cs = canon(info_entries(i));
    let ncs = crate::roundtrip::norm_entries(cs);
    assert(crate::roundtrip::norm(Bval::Dict(cs)) == Bval::Dict(ncs));
    lemma_info_lookup(i);
    crate::canon::lemma_canon_sorted(info_entries(i));
    assert(crate::value::entries_unique(cs)) by {
        assert forall|p: int, q: int| 0 <= p < q < cs.len() implies (#[trigger] cs[p]).0 != (
        #[trigger] cs[q]).0 by {
            assert(crate::value::key_lt(cs[p].0, cs[q].0));
            if cs[p].0 == cs[q].0 {
                crate::canon::lemma_key_lt_irrefl(cs[p].0);
            }
        }
    }
    crate::roundtrip::lemma_dict_get_norm(cs, "name"@);
    crate::roundtrip::lemma_dict_get_norm(cs, "piece length"@);
    crate::roundtrip::lemma_dict_get_norm(cs, "pieces"@);
    crate::roundtrip::lemma_dict_get_norm(cs, "length"@);
    crate::roundtrip::lemma_dict_get_norm(cs, "files"@);
    crate::roundtrip::lemma_dict_get_norm(cs, "private"@);
    crate::roundtrip::lemma_dict_get_norm(cs, "source"@);
    assert(out.piece_length == (i.piece_length as i64) as usize);
    match i.length {
        Some(n) => {
            assert(out.length == Some((n as i64) as usize));
        }
        None => {}
    }
    match i.files {
        Some(fs) => {
            lemma_seq_encoded_files(fs@);
            let items = seq_encoded::<File>(fs@);
            assert(dict_get(ncs, "files"@) == Some(
                crate::roundtrip::norm(Bval::List(items)),
            ));
            crate::roundtrip::lemma_norm_items_public(items);
            assert forall|j: int| 0 <= j < items.len() implies #[trigger] crate::roundtrip
                ::norm_items(items)[j] == items[j] by {
                assert(items[j] == Bval::Dict(canon(file_entries(fs@[j]))));
                lemma_file_norm_identity(fs@[j]);
            }
            assert(crate::roundtrip::norm_items(items) =~= items);
            assert(crate::roundtrip::norm(Bval::List(items)) == Bval::List(items));
            assert forall|j: int| 0 <= j < items.len() implies <File as Decodable>::dec_err(
                #[trigger] items[j],
            ) is None by {
                let fj = fs@[j];
                crate::canon::lemma_canon_map(file_entries(fj));
                proof_file_entries_map(fj);
                crate::encode::lemma_seq_encoded_strings(fj.path@);
                let strs = crate::encode::seq_encoded::<String>(fj.path@);
                assert forall|k: int| 0 <= k < strs.len() implies <String as Decodable>::dec_err(
                    #[trigger] strs[k],
                ) is None by {
                    assert(strs[k] == Bval::Str(fj.path@[k]@));
                }
                crate::decode::lemma_seq_dec_err_none::<String>(strs);
                assert(dict_get(canon(file_entries(fj)), "length"@) == Some(
                    Bval::Int(fj.length as i64),
                ));
                assert(dict_get(canon(file_entries(fj)), "path"@) == Some(Bval::List(strs)));
            }
            crate::decode::lemma_seq_dec_err_none::<File>(items);
            assert(<Vec<File> as Decodable>::dec_err(Bval::List(items)) is None);
            match out.files {
                Some(ofs) => {
                    assert forall|j: int| 0 <= j < fs@.len() implies file_fields_eq(
                        #[trigger] fs@[j],
                        ofs@[j],
                    ) by {
                        assert(items[j] == Bval::Dict(canon(file_entries(fs@[j]))));
                        assert(<File as Decodable>::dec_ok(items[j], &ofs@[j]));
                        lemma_file_decode_core(fs@[j], ofs@[j]);
                    }
                }
                None => {
                    assert(false);
                }
            }
        }
        None => {}
    }
}

} // verus!
