use vstd::prelude::*;
use vstd::string::StrSliceExecFns;
use vstd::string::StringExecFns;
use crate::error::BencodeError;
use crate::error::ErrorKind;
use crate::value::Bval;
use crate::value::BencodeValue;
use crate::value::dict_get;
use crate::value::canon;
use crate::bytestring::ByteString;
use crate::decode::Decodable;
use crate::decode::decode;
use crate::decode::lemma_model_dict_get;
use crate::parse::parse_value;
use crate::parse::Parsed;
use crate::torrent::Torrent;
use crate::torrent::info_entries;
use crate::trackers::url_encoded;
use crate::text::push_char;
use crate::text::push_usize_decimal;
use crate::text::push_u32_hex;
use crate::text::hex_chars;
use crate::text::dec_chars;

verus! {

/// The kind of announce a client sends.
#[derive(Debug, PartialEq, Eq, Structural)]
pub enum Event {
    /// The client has started seeding.
    STARTED,
    /// The client stopped seeding.
    STOPPED,
    /// The client is sending a plain update.
    EMPTY,
}

/// A reporting client: its key, peer id and the port it claims to use.
#[derive(Debug)]
pub struct Client {
    /// A unique key for this client, in case its address changes.
    pub key: String,
    /// The unique peer id of this client.
    pub peer_id: String,
    /// The port supposedly used for transfers.
    pub port: u16,
}

impl Client {
    /// Assembles a client from a generated key, a generated peer id and
    /// a chosen port.
    pub fn new(key: String, peer_id: String, port: u16) -> (r: Client)
        ensures
            r.key == key,
            r.peer_id == peer_id,
            r.port == port,
    {
        Client { key, peer_id, port }
    }

    /// The parameter string of an announce, laid out the way
    /// Transmission 2.94 lays it out.
    pub fn create_parameters(&self, info_hash: &str, uploaded: usize, peer_num: u32) -> (r:
        String)
        ensures
            r@ == "?info_hash="@ + info_hash@ + "&peer_id="@ + self.peer_id@ + "&port="@
                + dec_chars(self.port as nat) + "&uploaded="@ + dec_chars(uploaded as nat)
                + "&downloaded=0&left=0&numwant="@ + dec_chars(peer_num as nat) + "&key="@
                + self.key@ + "&compact=1&supportcrypto=1"@,
    {
        let mut r = String::new();
        r.append("?info_hash=");
        r.append(info_hash);
        r.append("&peer_id=");
        r.append(self.peer_id.as_str());
        r.append("&port=");
        push_usize_decimal(&mut r, self.port as usize);
        r.append("&uploaded=");
        push_usize_decimal(&mut r, uploaded);
        r.append("&downloaded=0&left=0&numwant=");
        push_usize_decimal(&mut r, peer_num as usize);
        r.append("&key=");
        r.append(self.key.as_str());
        r.append("&compact=1&supportcrypto=1");
        r
    }

    /// The full parameter string of one event: a stopped client asks for
    /// no peers, and start and stop announce themselves in the query.
    pub fn event_parameters(&self, event: Event, info_hash: &str, uploaded: usize) -> (r: String)
        ensures
            ({
                let peer_num: u32 = if event == Event::STOPPED {
                    0
                } else {
                    80
                };
                let base = "?info_hash="@ + info_hash@ + "&peer_id="@ + self.peer_id@ + "&port="@
                    + dec_chars(self.port as nat) + "&uploaded="@ + dec_chars(uploaded as nat)
                    + "&downloaded=0&left=0&numwant="@ + dec_chars(peer_num as nat) + "&key="@
                    + self.key@ + "&compact=1&supportcrypto=1"@;
                r@ == base + (match event {
                    Event::STARTED => "&event=started"@,
                    Event::STOPPED => "&event=stopped"@,
                    Event::EMPTY => Seq::<char>::empty(),
                })
            }),
    {
        let peer_count: u32 = match event {
            Event::STOPPED => 0,
            _ => 80,
        };
        let mut parameters = self.create_parameters(info_hash, uploaded, peer_count);
        match event {
            Event::STARTED => {
                parameters.append("&event=started");
            }
            Event::STOPPED => {
                parameters.append("&event=stopped");
            }
            Event::EMPTY => {}
        }
        proof {
            if event == Event::EMPTY {
                assert(parameters@ =~= parameters@ + Seq::<char>::empty());
            }
        }
        parameters
    }
}

/// The running checksum the id generator keeps: each suffix byte reduced
/// to the pool size, summed with eight-bit wraparound.
pub open spec fn id_sum(s: Seq<u8>, i: int) -> u8
    decreases i,
{
    if i <= 0 {
        0
    } else {
        (((id_sum(s, i - 1) as int) + ((s[i - 1] % 36) as int)) % 256) as u8
    }
}

/// The character the id generator's pool holds at `i`.
pub open spec fn pool_char(i: int) -> char {
    "0123456789abcdefghijklmnopqrstuvwxyz"@[i]
}

/// Builds a peer id the way Transmission 2.94 does: a fixed prefix,
/// eleven pool characters picked by the given entropy bytes, and one
/// checksum character.
pub fn generate_transmission_294_id(random: &Vec<u8>) -> (r: String)
    requires
        random@.len() == 11,
    ensures
        r@ == "-TR2940-"@ + Seq::new(11, |i: int| pool_char((random@[i] % 36) as int)) + seq![
            pool_char(((36 - (id_sum(random@, 11) % 36)) % 36) as int),
        ],
{
    let pool = "0123456789abcdefghijklmnopqrstuvwxyz";
    proof {
        reveal_strlit("0123456789abcdefghijklmnopqrstuvwxyz");
    }
    let mut result: String = String::new();
    result.append("-TR2940-");
    let mut sum: u8 = 0;
    for i in 0..11usize
        invariant
            random@.len() == 11,
            pool@ == "0123456789abcdefghijklmnopqrstuvwxyz"@,
            pool@.len() == 36,
            sum == id_sum(random@, i as int),
            result@ == "-TR2940-"@ + Seq::new(
                i as nat,
                |j: int| pool_char((random@[j] % 36) as int),
            ),
    {
        let d = random[i] % 36;
        sum = (((sum as u16) + (d as u16)) % 256) as u8;
        let c = pool.get_char(d as usize);
        push_char(&mut result, c);
        proof {
            assert(result@ =~= "-TR2940-"@ + Seq::new(
                (i + 1) as nat,
                |j: int| pool_char((random@[j] % 36) as int),
            ));
        }
    }
    let checksum = (36 - (sum % 36)) % 36;
    let c = pool.get_char(checksum as usize);
    push_char(&mut result, c);
    proof {
        assert(result@ =~= "-TR2940-"@ + Seq::new(
            11,
            |j: int| pool_char((random@[j] % 36) as int),
        ) + seq![pool_char(((36 - (id_sum(random@, 11) % 36)) % 36) as int)]);
    }
    result
}

/// The non-negative 31-bit value the key generator derives from four
/// entropy bytes.
pub open spec fn key_value(s: Seq<u8>) -> u32 {
    (((s[0] as u32) << 24 | (s[1] as u32) << 16 | (s[2] as u32) << 8 | (s[3] as u32))
        & 0x7FFF_FFFF) as u32
}

/// Builds a client key from four entropy bytes: their value with the
/// sign bit cleared, in minimal lowercase hexadecimal.
pub fn generate_i32_hex_key(random: &Vec<u8>) -> (r: String)
    requires
        random@.len() == 4,
    ensures
        r@ == hex_chars(key_value(random@) as nat),
{
    let value: u32 = (((random[0] as u32) << 24u32) | ((random[1] as u32) << 16u32) | ((
    random[2] as u32) << 8u32) | (random[3] as u32)) & 0x7FFF_FFFF;
    let mut r = String::new();
    push_u32_hex(&mut r, value);
    proof {
        assert(r@ =~= hex_chars(key_value(random@) as nat));
    }
    r
}

/// Compact information about one tracker's answer.
#[derive(Debug)]
pub struct CompactTrackers {
    /// Completed transfers: seeders.
    pub complete: usize,
    /// The reporting interval.
    pub interval: u64,
    /// Incomplete transfers: leechers.
    pub incomplete: usize,
    /// The minimal announce interval; its wire key is `min interval`.
    pub min_interval: usize,
    /// Peers packed four address bytes and two port bytes each.
    pub peers: ByteString,
}

impl Decodable for CompactTrackers {
    type Output = CompactTrackers;

    open spec fn dec_err(m: Bval) -> Option<ErrorKind> {
        match m {
            Bval::Dict(entries) => match <usize as Decodable>::dec_opt_err(
                dict_get(entries, "complete"@),
            ) {
                Some(k) => Some(k),
                None => match <u64 as Decodable>::dec_opt_err(dict_get(entries, "interval"@)) {
                    Some(k) => Some(k),
                    None => match <usize as Decodable>::dec_opt_err(
                        dict_get(entries, "incomplete"@),
                    ) {
                        Some(k) => Some(k),
                        None => match <usize as Decodable>::dec_opt_err(
                            dict_get(entries, "min interval"@),
                        ) {
                            Some(k) => Some(k),
                            None => <ByteString as Decodable>::dec_opt_err(
                                dict_get(entries, "peers"@),
                            ),
                        },
                    },
                },
            },
            _ => Some(ErrorKind::TypeMismatch),
        }
    }

    open spec fn dec_ok(m: Bval, out: &CompactTrackers) -> bool {
        m matches Bval::Dict(entries) && <usize as Decodable>::dec_opt_ok(
            dict_get(entries, "complete"@),
            &out.complete,
        ) && <u64 as Decodable>::dec_opt_ok(dict_get(entries, "interval"@), &out.interval)
            && <usize as Decodable>::dec_opt_ok(
            dict_get(entries, "incomplete"@),
            &out.incomplete,
        ) && <usize as Decodable>::dec_opt_ok(
            dict_get(entries, "min interval"@),
            &out.min_interval,
        ) && <ByteString as Decodable>::dec_opt_ok(dict_get(entries, "peers"@), &out.peers)
    }

    open spec fn dec_opt_err(m: Option<Bval>) -> Option<ErrorKind> {
        match m {
            Some(mm) => Self::dec_err(mm),
            None => Some(ErrorKind::NotFound),
        }
    }

    open spec fn dec_opt_ok(m: Option<Bval>, out: &CompactTrackers) -> bool {
        m matches Some(mm) && Self::dec_ok(mm, out)
    }

    /// Resolves each field by its wire key; `min_interval` reads the
    /// override key `min interval`, not the field's own name.
    fn decode(value: &BencodeValue) -> (r: Result<CompactTrackers, BencodeError>) {
        proof {
            if let BencodeValue::Dictionary(m) = value {
                lemma_model_dict_get(*m, "complete"@);
                lemma_model_dict_get(*m, "interval"@);
                lemma_model_dict_get(*m, "incomplete"@);
                lemma_model_dict_get(*m, "min interval"@);
                lemma_model_dict_get(*m, "peers"@);
            }
        }
        let complete = match decode::<usize>(value, "complete") {
            Ok(v) => v,
            Err(e) => {
                return Err(e);
            }
        };
        let interval = match decode::<u64>(value, "interval") {
            Ok(v) => v,
            Err(e) => {
                return Err(e);
            }
        };
        let incomplete = match decode::<usize>(value, "incomplete") {
            Ok(v) => v,
            Err(e) => {
                return Err(e);
            }
        };
        let min_interval = match decode::<usize>(value, "min interval") {
            Ok(v) => v,
            Err(e) => {
                return Err(e);
            }
        };
        let peers = match decode::<ByteString>(value, "peers") {
            Ok(v) => v,
            Err(e) => {
                return Err(e);
            }
        };
        Ok(CompactTrackers { complete, interval, incomplete, min_interval, peers })
    }

    fn decode_option(value: Option<&BencodeValue>) -> (r: Result<CompactTrackers, BencodeError>) {
        match value {
            Some(v) => Self::decode(v),
            None => Err(BencodeError::new(ErrorKind::NotFound, "value was not present")),
        }
    }
}

/// The update data an announce brings back.
#[derive(Clone, Copy, Debug)]
pub struct TrackerUpdates {
    /// The interval to use for the next report.
    pub interval: u64,
    /// The number of seeders.
    pub seeders: usize,
    /// The number of leechers.
    pub leechers: usize,
}

impl TrackerUpdates {
    /// Decodes a compact tracker response, abstracting it to the update
    /// data; any parse or decode failure yields `None`.
    pub fn decode(data: &Vec<u8>) -> (r: Option<TrackerUpdates>)
        ensures
            match parse_value(data@, 0) {
                Parsed::Found(m, end) => match <CompactTrackers as Decodable>::dec_err(m) {
                    Some(_) => r is None,
                    None => r matches Some(tu) && m matches Bval::Dict(entries)
                        && <u64 as Decodable>::dec_opt_ok(
                        dict_get(entries, "interval"@),
                        &tu.interval,
                    ) && <usize as Decodable>::dec_opt_ok(
                        dict_get(entries, "complete"@),
                        &tu.seeders,
                    ) && <usize as Decodable>::dec_opt_ok(
                        dict_get(entries, "incomplete"@),
                        &tu.leechers,
                    ),
                },
                Parsed::Truncated => r is None,
                Parsed::Malformed => r is None,
            },
    {
        let trackers = match CompactTrackers::read_bytes(data) {
            Ok(value) => value,
            Err(_) => {
                return None;
            }
        };
        Some(
            TrackerUpdates {
                interval: trackers.interval,
                seeders: trackers.complete,
                leechers: trackers.incomplete,
            },
        )
    }
}

/// The announce bookkeeping of one torrent: who to report to, what was
/// reported, and how the last attempts went. The network call itself is
/// made by the caller; these methods decide and record.
#[derive(Debug)]
pub struct Announcer {
    /// The client whose identity the reports carry.
    pub client: Client,
    /// The announce URL the torrent names.
    pub announce_url: String,
    /// The URL-encoded info hash identifying the torrent.
    pub info_hash: String,
    /// Bytes reported as uploaded so far.
    pub uploaded: usize,
    /// The torrent's name.
    pub name: String,
    /// The last update a tracker returned, `None` before the first.
    pub tracker_info: Option<TrackerUpdates>,
    /// When the last successful announce happened, seconds since epoch.
    pub last_announce: u64,
    /// Consecutive failed announce attempts.
    pub failed: u8,
}

impl Announcer {
    /// Creates the bookkeeping for one torrent.
    pub fn new(torrent: Torrent, client: Client) -> (r: Announcer)
        requires
            crate::encode::encoded(
                Bval::Dict(canon(info_entries(torrent.info))),
            ).len() <= crate::sha1::sha1_max_len(),
        ensures
            r.client == client,
            r.announce_url == torrent.announce,
            r.info_hash@ == url_encoded(
                crate::sha1::spec_sha1(
                    crate::encode::encoded(Bval::Dict(canon(info_entries(torrent.info)))),
                ),
            ),
            r.uploaded == 0,
            r.name == torrent.info.name,
            r.tracker_info is None,
            r.last_announce == 0,
            r.failed == 0,
    {
        let hash = torrent.get_info_hash();
        Announcer {
            client,
            announce_url: torrent.announce,
            info_hash: hash,
            uploaded: 0,
            name: torrent.info.name,
            tracker_info: None,
            last_announce: 0,
            failed: 0,
        }
    }

    /// Whether an announce is due: always before the first success, and
    /// afterwards once the reported interval has passed.
    pub fn should_announce(&self, now: u64) -> (r: bool)
        requires
            now >= self.last_announce,
        ensures
            r == match self.tracker_info {
                Some(info) => now - self.last_announce >= info.interval,
                None => true,
            },
    {
        match &self.tracker_info {
            Some(info) => now - self.last_announce >= info.interval,
            None => true,
        }
    }

    /// Which event the next announce should carry: a start before any
    /// tracker has answered, a plain update afterwards.
    pub fn next_event(&self) -> (r: Event)
        ensures
            r == (if self.tracker_info is None {
                Event::STARTED
            } else {
                Event::EMPTY
            }),
    {
        match &self.tracker_info {
            None => Event::STARTED,
            Some(_) => Event::EMPTY,
        }
    }

    /// Whether upload should be generated before this announce: only
    /// once a tracker has answered, and only while anyone is leeching.
    pub fn should_generate_upload(&self) -> (r: bool)
        ensures
            r == (self.tracker_info matches Some(info) && info.leechers > 0),
    {
        match &self.tracker_info {
            Some(info) => info.leechers > 0,
            None => false,
        }
    }

    /// Records a successful announce: keeps the update and the time.
    pub fn record_success(&mut self, info: TrackerUpdates, now: u64)
        ensures
            final(self).tracker_info == Some(info),
            final(self).last_announce == now,
            final(self).failed == 0,
            final(self).uploaded == old(self).uploaded,
            final(self).client == old(self).client,
            final(self).announce_url == old(self).announce_url,
            final(self).info_hash == old(self).info_hash,
            final(self).name == old(self).name,
    {
        self.failed = 0;
        self.last_announce = now;
        self.tracker_info = Some(info);
    }

    /// Records a failed announce attempt.
    pub fn record_failure(&mut self)
        requires
            old(self).failed < 255,
        ensures
            final(self).failed == old(self).failed + 1,
            final(self).tracker_info == old(self).tracker_info,
            final(self).uploaded == old(self).uploaded,
            final(self).last_announce == old(self).last_announce,
            final(self).client == old(self).client,
            final(self).announce_url == old(self).announce_url,
            final(self).info_hash == old(self).info_hash,
            final(self).name == old(self).name,
    {
        self.failed = self.failed + 1;
    }

    /// Adds generated upload to the running total.
    pub fn add_upload(&mut self, amount: usize)
        requires
            old(self).uploaded + amount <= usize::MAX,
        ensures
            final(self).uploaded == old(self).uploaded + amount,
            final(self).tracker_info == old(self).tracker_info,
            final(self).failed == old(self).failed,
            final(self).last_announce == old(self).last_announce,
            final(self).client == old(self).client,
            final(self).announce_url == old(self).announce_url,
            final(self).info_hash == old(self).info_hash,
            final(self).name == old(self).name,
    {
        self.uploaded = self.uploaded + amount;
    }

    /// Consecutive failed attempts so far.
    pub fn fail_count(&self) -> (r: u8)
        ensures
            r == self.failed,
    {
        self.failed
    }
}

} // verus!
