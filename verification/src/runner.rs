use vstd::prelude::*;
use vstd::string::StrSliceExecFns;
use vstd::string::StringExecFns;
use crate::iomap::InsertOrderMap;
use crate::iomap::first_key_index;
use crate::iomap::lemma_first_key_index_bounds;
use crate::iomap::map_after_insert;
use crate::iomap::insert_slot;
use crate::http_headers::header_entries;
use crate::http_headers::entries_update;
use crate::mock::Announcer;
use crate::mock::Client;
use crate::numtext::len_digits_ok;
use crate::numtext::digits_nat;
use crate::numtext::digits_to_usize;
use crate::text::push_char;
use crate::torrent::Torrent;
use crate::torrent::info_entries;
use crate::value::Bval;
use crate::value::canon;

verus! {

/// The first position at or after `i`, before `stop`, holding character
/// `c`, or `stop` when there is none.
pub open spec fn find_char_to(s: Seq<char>, i: int, stop: int, c: char) -> int
    decreases stop - i,
{
    if i < 0 || i >= stop || stop > s.len() {
        stop
    } else if s[i] == c {
        i
    } else {
        find_char_to(s, i + 1, stop, c)
    }
}

/// One configuration line folded into the entries: the text before the
/// first equals sign is the key, the text between the first and second
/// equals signs the value; a line without an equals sign is skipped.
pub open spec fn config_line_entry(
    acc: Seq<(Seq<char>, Seq<char>)>,
    s: Seq<char>,
    start: int,
    stop: int,
) -> Seq<(Seq<char>, Seq<char>)> {
    let pe = find_char_to(s, start, stop, '=');
    if pe >= stop {
        acc
    } else {
        let pe2 = find_char_to(s, pe + 1, stop, '=');
        entries_update(acc, s.subrange(start, pe), s.subrange(pe + 1, pe2))
    }
}

/// The whole configuration text folded into entries, line by line; a
/// carriage return before the line feed is dropped.
pub open spec fn config_run(
    s: Seq<char>,
    i: int,
    acc: Seq<(Seq<char>, Seq<char>)>,
) -> Seq<(Seq<char>, Seq<char>)>
    decreases s.len() - i,
{
    if i < 0 || i >= s.len() {
        acc
    } else {
        let p = find_char_to(s, i, s.len() as int, '\n');
        let stop = if p > i && s[p - 1] == '\r' {
            p - 1
        } else {
            p
        };
        let acc2 = config_line_entry(acc, s, i, stop);
        if p >= s.len() || p < i {
            acc2
        } else {
            config_run(s, p + 1, acc2)
        }
    }
}

/// The application configuration: the bounds of the generated upload.
#[derive(Debug)]
pub struct Config {
    /// The smallest upload rate to report.
    pub min: usize,
    /// The largest upload rate to report.
    pub max: usize,
}

/// The digits of a value text with underscores removed; any other
/// non-digit character turns into an out-of-range marker.
pub open spec fn value_digits(s: Seq<char>) -> Seq<u8>
    decreases s.len(),
{
    if s.len() == 0 {
        Seq::empty()
    } else {
        let rest = value_digits(s.subrange(0, s.len() - 1));
        if s.last() == '_' {
            rest
        } else if '0' <= s.last() && s.last() <= '9' {
            rest.push(s.last() as u8)
        } else {
            rest.push(255u8)
        }
    }
}

/// Looks a key up in a parsed configuration map and parses its value as
/// an unsigned number, allowing underscores as digit separators.
pub fn load_and_parse(map: &InsertOrderMap<String>, key: &str) -> (r: Result<usize, String>)
    ensures
        match map.spec_get(key@) {
            Some(v) => match r {
                Ok(n) => len_digits_ok(value_digits(v@)) && n as nat == digits_nat(
                    value_digits(v@),
                ),
                Err(_) => !len_digits_ok(value_digits(v@)),
            },
            None => r is Err,
        },
{
    let owned = key.to_owned();
    match map.get(&owned) {
        Some(value) => {
            let text = value.as_str();
            let n = text.unicode_len();
            let mut digits: Vec<u8> = Vec::new();
            for i in 0..n
                invariant
                    n == value@.len(),
                    text@ == value@,
                    digits@ == value_digits(value@.subrange(0, i as int)),
            {
                let c = text.get_char(i);
                if c == '_' {
                } else if '0' <= c && c <= '9' {
                    digits.push(c as u8);
                } else {
                    digits.push(255);
                }
                proof {
                    let cur = value@.subrange(0, i + 1);
                    assert(cur.subrange(0, cur.len() - 1) =~= value@.subrange(0, i as int));
                    assert(cur.last() == value@[i as int]);
                    assert(digits@ =~= value_digits(cur));
                }
            }
            proof {
                assert(value@.subrange(0, n as int) =~= value@);
            }
            match digits_to_usize(&digits) {
                Some(v) => Ok(v),
                None => {
                    let mut msg: String = "value for ".to_owned();
                    msg.append(key);
                    msg.append(" must be a positive integer");
                    Err(msg)
                }
            }
        }
        None => {
            let mut msg: String = "value for ".to_owned();
            msg.append(key);
            msg.append(" was not present");
            Err(msg)
        }
    }
}

/// Parses configuration text into a map: one `key=value` entry per line,
/// later lines overwriting earlier ones.
pub fn parse_to_map(value: String) -> (r: InsertOrderMap<String>)
    ensures
        header_entries(r@) == config_run(value@, 0, Seq::empty()),
        r.wf(),
{
    let text = value.as_str();
    let n = text.unicode_len();
    let mut map: InsertOrderMap<String> = InsertOrderMap::new();
    let mut cur: usize = 0;
    proof {
        assert(header_entries(map@) =~= Seq::<(Seq<char>, Seq<char>)>::empty());
    }
    loop
        invariant_except_break
            config_run(value@, 0, Seq::empty()) == config_run(
                value@,
                cur as int,
                header_entries(map@),
            ),
        invariant
            n == value@.len(),
            text@ == value@,
            cur <= n,
            map.wf(),
        ensures
            header_entries(map@) == config_run(value@, 0, Seq::empty()),
            map.wf(),
        decreases n - cur,
    {
        if cur >= n {
            break;
        }
        let mut p: usize = cur;
        loop
            invariant
                n == value@.len(),
                text@ == value@,
                cur <= p <= n,
                find_char_to(value@, cur as int, n as int, '\n') == find_char_to(
                    value@,
                    p as int,
                    n as int,
                    '\n',
                ),
            ensures
                cur <= p <= n,
                p as int == find_char_to(value@, cur as int, n as int, '\n'),
            decreases n - p,
        {
            if p >= n {
                break;
            }
            if text.get_char(p) == '\n' {
                break;
            }
            p = p + 1;
        }
        let mut stop = p;
        if p > cur {
            if text.get_char(p - 1) == '\r' {
                stop = p - 1;
            }
        }
        let mut pe: usize = cur;
        loop
            invariant
                n == value@.len(),
                text@ == value@,
                cur <= pe <= stop,
                stop <= n,
                find_char_to(value@, cur as int, stop as int, '=') == find_char_to(
                    value@,
                    pe as int,
                    stop as int,
                    '=',
                ),
            ensures
                cur <= pe <= stop,
                pe as int == find_char_to(value@, cur as int, stop as int, '='),
            decreases stop - pe,
        {
            if pe >= stop {
                break;
            }
            if text.get_char(pe) == '=' {
                break;
            }
            pe = pe + 1;
        }
        if pe < stop {
            let mut pe2: usize = pe + 1;
            loop
                invariant
                    n == value@.len(),
                    text@ == value@,
                    pe + 1 <= pe2 <= stop,
                    stop <= n,
                    find_char_to(value@, pe + 1, stop as int, '=') == find_char_to(
                        value@,
                        pe2 as int,
                        stop as int,
                        '=',
                    ),
                ensures
                    pe + 1 <= pe2 <= stop,
                    pe2 as int == find_char_to(value@, pe + 1, stop as int, '='),
                decreases stop - pe2,
            {
                if pe2 >= stop {
                    break;
                }
                if text.get_char(pe2) == '=' {
                    break;
                }
                pe2 = pe2 + 1;
            }
            let mut key = String::new();
            for i in cur..pe
                invariant
                    cur <= pe <= n,
                    n == value@.len(),
                    text@ == value@,
                    key@ == value@.subrange(cur as int, i as int),
            {
                push_char(&mut key, text.get_char(i));
                proof {
                    assert(key@ =~= value@.subrange(cur as int, i + 1));
                }
            }
            proof {
                assert(key@ =~= value@.subrange(cur as int, pe as int));
            }
            let mut val = String::new();
            for i in (pe + 1)..pe2
                invariant
                    pe + 1 <= pe2 <= n,
                    n == value@.len(),
                    text@ == value@,
                    val@ == value@.subrange(pe + 1, i as int),
            {
                push_char(&mut val, text.get_char(i));
                proof {
                    assert(val@ =~= value@.subrange(pe + 1, i + 1));
                }
            }
            proof {
                assert(val@ =~= value@.subrange(pe + 1, pe2 as int));
            }
            let ghost pre = map@;
            proof {
                lemma_first_key_index_bounds(pre, key@);
                let k = first_key_index(pre, key@);
                assert forall|j: int| 0 <= j < k implies (#[trigger] header_entries(pre)[j]).0
                    != key@ by {
                    assert(header_entries(pre)[j].0 == pre[j].0@);
                }
                assert(k < pre.len() ==> header_entries(pre)[k].0 == key@);
                crate::http_headers::lemma_entries_update_at(header_entries(pre), key@, val@, k);
            }
            map.insert(key, val);
            proof {
                let he_pre = header_entries(pre);
                let k = first_key_index(pre, key@);
                if k < pre.len() {
                    assert(header_entries(map@) =~= he_pre.update(k, (key@, val@)));
                } else {
                    assert(header_entries(map@) =~= he_pre.push((key@, val@)));
                }
            }
        }
        if p >= n {
            cur = n;
        } else {
            cur = p + 1;
        }
    }
    map
}

impl Config {
    /// Parses configuration text into the upload bounds; both keys must
    /// be present and hold unsigned numbers.
    pub fn new(content: &str) -> (r: Result<Config, String>)
        ensures
            ({
                let entries = config_run(content@, 0, Seq::empty());
                let minv = crate::http_headers::entries_get(entries, "MIN_UPLOAD"@);
                let maxv = crate::http_headers::entries_get(entries, "MAX_UPLOAD"@);
                match r {
                    Ok(c) => {
                        &&& minv matches Some(mv) && len_digits_ok(value_digits(mv)) && c.min
                            as nat == digits_nat(value_digits(mv))
                        &&& maxv matches Some(xv) && len_digits_ok(value_digits(xv)) && c.max
                            as nat == digits_nat(value_digits(xv))
                    },
                    Err(_) => {
                        ||| minv is None
                        ||| (minv matches Some(mv) && !len_digits_ok(value_digits(mv)))
                        ||| maxv is None
                        ||| (maxv matches Some(xv) && !len_digits_ok(value_digits(xv)))
                    },
                }
            }),
    {
        let owned: String = content.to_owned();
        let map = parse_to_map(owned);
        proof {
            crate::http_headers::lemma_entries_get(map@, "MIN_UPLOAD"@);
            crate::http_headers::lemma_entries_get(map@, "MAX_UPLOAD"@);
            lemma_first_key_index_bounds(map@, "MIN_UPLOAD"@);
            lemma_first_key_index_bounds(map@, "MAX_UPLOAD"@);
        }
        let min = match load_and_parse(&map, "MIN_UPLOAD") {
            Ok(v) => v,
            Err(e) => {
                return Err(e);
            }
        };
        let max = match load_and_parse(&map, "MAX_UPLOAD") {
            Ok(v) => v,
            Err(e) => {
                return Err(e);
            }
        };
        Ok(Config { min, max })
    }
}

/// The entries whose announcers have not failed too often.
pub open spec fn retain_live(entries: Seq<(String, Announcer)>) -> Seq<(String, Announcer)>
    decreases entries.len(),
{
    if entries.len() == 0 {
        Seq::empty()
    } else {
        let rest = retain_live(entries.subrange(1, entries.len() as int));
        if entries[0].1.failed < 5 {
            seq![entries[0]] + rest
        } else {
            rest
        }
    }
}

/// The announcers dropped for failing too often, in order.
pub open spec fn dropped_failed(entries: Seq<(String, Announcer)>) -> Seq<Announcer>
    decreases entries.len(),
{
    if entries.len() == 0 {
        Seq::empty()
    } else {
        let rest = dropped_failed(entries.subrange(1, entries.len() as int));
        if entries[0].1.failed < 5 {
            rest
        } else {
            seq![entries[0].1] + rest
        }
    }
}

/// The fields a freshly created announcer for `torrent` carries under
/// `client`'s identity and the given info hash.
pub open spec fn fresh_announcer(
    a: Announcer,
    torrent: Torrent,
    client: Client,
    hash: Seq<char>,
) -> bool {
    &&& a.announce_url == torrent.announce
    &&& a.info_hash@ == hash
    &&& a.uploaded == 0
    &&& a.name == torrent.info.name
    &&& a.tracker_info is None
    &&& a.last_announce == 0
    &&& a.failed == 0
    &&& a.client.key@ == client.key@
    &&& a.client.peer_id@ == client.peer_id@
    &&& a.client.port == client.port
}

/// The state of the announce loop: the upload bounds, which file maps to
/// which torrent hash, and the announcer of each hash.
pub struct State {
    /// The smallest upload rate to report.
    pub min_speed: usize,
    /// The largest upload rate to report.
    pub max_speed: usize,
    /// The hash of the torrent each watched file holds.
    pub hashes: InsertOrderMap<String>,
    /// The announcer of each torrent hash.
    pub announcers: InsertOrderMap<Announcer>,
    /// The client identity all announcers report with.
    pub client: Client,
}

impl State {
    /// A fresh state with no torrents loaded.
    pub fn new(client: Client, min_speed: usize, max_speed: usize) -> (r: State)
        ensures
            r.min_speed == min_speed,
            r.max_speed == max_speed,
            r.hashes@ == Seq::<(String, String)>::empty(),
            r.announcers@ == Seq::<(String, Announcer)>::empty(),
            r.client == client,
    {
        State {
            min_speed,
            max_speed,
            hashes: InsertOrderMap::new(),
            announcers: InsertOrderMap::new(),
            client,
        }
    }

    /// Every hash a file points to keys an announcer.
    pub open spec fn linked(&self) -> bool {
        forall|j: int|
            0 <= j < self.hashes@.len() ==> self.announcers.spec_contains(
                (#[trigger] self.hashes@[j]).1@,
            )
    }

    /// Registers a torrent under the file it came from: its hash joins
    /// the hash map (replacing the file's old hash in place, or appended)
    /// and a fresh announcer is stored under the hash the same way; no
    /// other entry of either map moves, and every file that pointed to an
    /// announcer still does.
    pub fn add_announcer(&mut self, key: String, torrent: Torrent)
        requires
            crate::encode::encoded(
                Bval::Dict(canon(info_entries(torrent.info))),
            ).len() <= crate::sha1::sha1_max_len(),
        ensures
            ({
                let hash = crate::trackers::url_encoded(
                    crate::sha1::spec_sha1(
                        crate::encode::encoded(Bval::Dict(canon(info_entries(torrent.info)))),
                    ),
                );
                &&& map_after_insert(old(self).announcers@, final(self).announcers@, hash)
                &&& fresh_announcer(
                    final(self).announcers@[insert_slot(old(self).announcers@, hash)].1,
                    torrent,
                    old(self).client,
                    hash,
                )
                &&& map_after_insert(old(self).hashes@, final(self).hashes@, key@)
                &&& final(self).hashes@[insert_slot(old(self).hashes@, key@)].0 == key
                &&& final(self).hashes@[insert_slot(old(self).hashes@, key@)].1@ == hash
                &&& final(self).announcers.spec_get(hash) matches Some(a) && a.announce_url
                    == torrent.announce && a.uploaded == 0 && a.failed == 0
                &&& final(self).hashes.spec_get(key@) matches Some(h) && h@ == hash
            }),
            old(self).linked() ==> final(self).linked(),
            final(self).min_speed == old(self).min_speed,
            final(self).max_speed == old(self).max_speed,
            final(self).client == old(self).client,
    {
        let ghost pre = *self;
        let info_hash = torrent.get_info_hash();
        let announcer = Announcer::new(torrent, self.client.duplicate());
        let hash_key = info_hash.clone();
        self.announcers.insert(hash_key, announcer);
        self.hashes.insert(key, info_hash);
        proof {
            let hash = info_hash@;
            lemma_first_key_index_bounds(pre.announcers@, hash);
            lemma_first_key_index_bounds(pre.hashes@, key@);
            assert(map_after_insert(pre.announcers@, self.announcers@, hash));
            assert(self.announcers@[insert_slot(pre.announcers@, hash)].1 == announcer);
            assert(fresh_announcer(announcer, torrent, pre.client, hash));
            assert(map_after_insert(pre.hashes@, self.hashes@, key@));
            assert(self.hashes@[insert_slot(pre.hashes@, key@)].0 == key);
            assert(self.hashes@[insert_slot(pre.hashes@, key@)].1@ == hash);
            assert(self.announcers.spec_get(hash) == Some(announcer));
            assert(self.hashes.spec_get(key@) == Some(info_hash));
            if pre.linked() {
                assert forall|j: int| 0 <= j < self.hashes@.len() implies self.announcers
                    .spec_contains((#[trigger] self.hashes@[j]).1@) by {
                    let slot = insert_slot(pre.hashes@, key@);
                    if j == slot || j >= pre.hashes@.len() {
                        assert(self.hashes@[j].1@ == hash);
                        assert(self.announcers.spec_get(hash) is Some);
                    } else {
                        assert(self.hashes@[j] == pre.hashes@[j]);
                        assert(pre.announcers.spec_contains(pre.hashes@[j].1@));
                        assert(self.announcers.spec_contains(pre.hashes@[j].1@));
                    }
                }
            }
        }
    }

    /// Forgets the torrent a file held: its hash leaves the hash map,
    /// the announcer stored under that hash leaves the announcer map, and
    /// nothing else moves. The removed announcer is handed back so the
    /// caller can send its stop announce before dropping it.
    pub fn remove(&mut self, file: String) -> (r: Option<Announcer>)
        ensures
            final(self).min_speed == old(self).min_speed,
            final(self).max_speed == old(self).max_speed,
            final(self).client == old(self).client,
            !old(self).hashes.spec_contains(file@) ==> final(self).hashes@ == old(self).hashes@
                && final(self).announcers@ == old(self).announcers@ && r is None,
            old(self).hashes.spec_contains(file@) ==> ({
                let h = old(self).hashes@[old(self).hashes.spec_index_of(file@)].1;
                &&& final(self).hashes@ == old(self).hashes@.remove(
                    old(self).hashes.spec_index_of(file@),
                )
                &&& old(self).announcers.spec_contains(h@) ==> final(self).announcers@ == old(
                    self,
                ).announcers@.remove(old(self).announcers.spec_index_of(h@)) && r == Some(
                    old(self).announcers@[old(self).announcers.spec_index_of(h@)].1,
                )
                &&& !old(self).announcers.spec_contains(h@) ==> final(self).announcers@ == old(
                    self,
                ).announcers@ && r is None
            }),
    {
        match self.hashes.remove(&file) {
            Some(hash) => self.announcers.remove(&hash),
            None => None,
        }
    }

    /// Renames the file a hash is filed under, keeping the hash: the
    /// source entry leaves, and its hash is stored under the destination,
    /// replacing in place or appended; nothing else moves.
    pub fn move_file(&mut self, from: String, to: String)
        ensures
            final(self).min_speed == old(self).min_speed,
            final(self).max_speed == old(self).max_speed,
            final(self).client == old(self).client,
            final(self).announcers@ == old(self).announcers@,
            !old(self).hashes.spec_contains(from@) ==> final(self).hashes@ == old(self).hashes@,
            old(self).hashes.spec_contains(from@) ==> ({
                let i = old(self).hashes.spec_index_of(from@);
                let v = old(self).hashes@[i].1;
                let mid = old(self).hashes@.remove(i);
                &&& map_after_insert(mid, final(self).hashes@, to@)
                &&& final(self).hashes@[insert_slot(mid, to@)] == (to, v)
                &&& final(self).hashes.spec_get(to@) matches Some(h) && h@ == v@
            }),
    {
        let ghost pre = *self;
        match self.hashes.remove(&from) {
            Some(value) => {
                let ghost mid = self.hashes@;
                proof {
                    assert(mid == pre.hashes@.remove(pre.hashes.spec_index_of(from@)));
                }
                self.hashes.insert(to, value);
                proof {
                    lemma_first_key_index_bounds(mid, to@);
                    assert(map_after_insert(mid, self.hashes@, to@));
                    assert(self.hashes@[insert_slot(mid, to@)] == (to, value));
                    assert(self.hashes.spec_get(to@) == Some(value));
                }
            }
            None => {}
        }
    }

    /// Drops every announcer that has failed five times in a row, as the
    /// announce loop does after a round of announcing, and hands the
    /// dropped announcers back so the caller can send their stop
    /// announces before letting them go.
    pub fn remove_failed(&mut self) -> (r: Vec<Announcer>)
        requires
            old(self).announcers.wf(),
        ensures
            final(self).announcers@ == retain_live(old(self).announcers@),
            r@ == dropped_failed(old(self).announcers@),
            final(self).announcers.wf(),
            final(self).hashes == old(self).hashes,
            final(self).min_speed == old(self).min_speed,
            final(self).max_speed == old(self).max_speed,
            final(self).client == old(self).client,
    {
        let ghost orig = self.announcers@;
        let mut dropped: Vec<Announcer> = Vec::new();
        let mut i: usize = 0;
        let ghost mut consumed: int = 0;
        proof {
            lemma_retain_live_split(orig, 0);
            assert(dropped_failed(orig.subrange(0, 0)) =~= Seq::<Announcer>::empty());
        }
        loop
            invariant_except_break
                0 <= consumed <= orig.len(),
                i as int == retain_live(orig.subrange(0, consumed)).len(),
                dropped@ == dropped_failed(orig.subrange(0, consumed)),
                self.announcers@ =~= retain_live(orig.subrange(0, consumed)) + orig.subrange(
                    consumed,
                    orig.len() as int,
                ),
            invariant
                self.announcers.wf(),
                self.hashes == old(self).hashes,
                self.min_speed == old(self).min_speed,
                self.max_speed == old(self).max_speed,
                self.client == old(self).client,
                i <= self.announcers@.len(),
            ensures
                self.announcers@ == retain_live(orig),
                dropped@ == dropped_failed(orig),
            decreases orig.len() - consumed,
        {
            if i >= self.announcers.len() {
                proof {
                    assert(consumed == orig.len());
                    assert(orig.subrange(0, orig.len() as int) =~= orig);
                    assert(self.announcers@ =~= retain_live(orig));
                }
                break;
            }
            proof {
                assert(consumed < orig.len());
            }
            let keep = {
                let entry = self.announcers.entry_at(i);
                entry.1.fail_count() < 5
            };
            proof {
                assert(self.announcers@[i as int] == orig[consumed as int]);
                lemma_retain_live_snoc(orig, consumed);
                lemma_dropped_failed_snoc(orig, consumed);
            }
            if keep {
                i = i + 1;
            } else {
                let gone = self.announcers.remove_at(i);
                dropped.push(gone);
            }
            proof {
                consumed = consumed + 1;
                assert(self.announcers@ =~= retain_live(orig.subrange(0, consumed))
                    + orig.subrange(consumed, orig.len() as int));
                assert(dropped@ =~= dropped_failed(orig.subrange(0, consumed)));
            }
        }
        dropped
    }
}

/// Extending the consumed prefix by one entry extends its kept part by
/// that entry exactly when the entry is live.
proof fn lemma_retain_live_snoc(orig: Seq<(String, Announcer)>, consumed: int)
    requires
        0 <= consumed < orig.len(),
    ensures
        retain_live(orig.subrange(0, consumed + 1)) == if orig[consumed].1.failed < 5 {
            retain_live(orig.subrange(0, consumed)).push(orig[consumed])
        } else {
            retain_live(orig.subrange(0, consumed))
        },
    decreases consumed,
{
    reveal_with_fuel(retain_live, 3);
    if consumed == 0 {
        assert(orig.subrange(0, 1).subrange(1, 1) =~= Seq::<(String, Announcer)>::empty());
        assert(retain_live(orig.subrange(0, 0)) =~= Seq::<(String, Announcer)>::empty());
        if orig[0].1.failed < 5 {
            assert(retain_live(orig.subrange(0, 1)) =~= retain_live(
                orig.subrange(0, 0),
            ).push(orig[0]));
        }
    } else {
        let a = orig.subrange(0, consumed + 1);
        let b = orig.subrange(0, consumed);
        assert(a[0] == orig[0]);
        assert(b[0] == orig[0]);
        let orig_t = orig.subrange(1, orig.len() as int);
        assert(a.subrange(1, a.len() as int) =~= orig_t.subrange(0, consumed));
        assert(b.subrange(1, b.len() as int) =~= orig_t.subrange(0, consumed - 1));
        assert(orig_t[consumed - 1] == orig[consumed as int]);
        lemma_retain_live_snoc(orig_t, consumed - 1);
    }
}

/// Extending the consumed prefix by one entry extends its dropped part
/// by that entry's announcer exactly when the entry is not live.
proof fn lemma_dropped_failed_snoc(orig: Seq<(String, Announcer)>, consumed: int)
    requires
        0 <= consumed < orig.len(),
    ensures
        dropped_failed(orig.subrange(0, consumed + 1)) == if orig[consumed].1.failed < 5 {
            dropped_failed(orig.subrange(0, consumed))
        } else {
            dropped_failed(orig.subrange(0, consumed)).push(orig[consumed].1)
        },
    decreases consumed,
{
    reveal_with_fuel(dropped_failed, 3);
    if consumed == 0 {
        assert(orig.subrange(0, 1).subrange(1, 1) =~= Seq::<(String, Announcer)>::empty());
        assert(dropped_failed(orig.subrange(0, 0)) =~= Seq::<Announcer>::empty());
        if orig[0].1.failed >= 5 {
            assert(dropped_failed(orig.subrange(0, 1)) =~= dropped_failed(
                orig.subrange(0, 0),
            ).push(orig[0].1));
        }
    } else {
        let a = orig.subrange(0, consumed + 1);
        let b = orig.subrange(0, consumed);
        assert(a[0] == orig[0]);
        assert(b[0] == orig[0]);
        let orig_t = orig.subrange(1, orig.len() as int);
        assert(a.subrange(1, a.len() as int) =~= orig_t.subrange(0, consumed));
        assert(b.subrange(1, b.len() as int) =~= orig_t.subrange(0, consumed - 1));
        assert(orig_t[consumed - 1] == orig[consumed as int]);
        lemma_dropped_failed_snoc(orig_t, consumed - 1);
        if orig[consumed].1.failed >= 5 {
            if orig[0].1.failed >= 5 {
                assert(dropped_failed(a) =~= dropped_failed(b).push(orig[consumed].1));
            }
        }
    }
}

/// The kept part of an empty prefix is empty.
proof fn lemma_retain_live_split(orig: Seq<(String, Announcer)>, consumed: int)
    ensures
        retain_live(orig.subrange(0, 0)) == Seq::<(String, Announcer)>::empty(),
{
    assert(orig.subrange(0, 0) =~= Seq::<(String, Announcer)>::empty());
}

impl Client {
    /// A copy of this client's identity.
    pub fn duplicate(&self) -> (r: Client)
        ensures
            r.key@ == self.key@,
            r.peer_id@ == self.peer_id@,
            r.port == self.port,
    {
        Client { key: self.key.clone(), peer_id: self.peer_id.clone(), port: self.port }
    }
}

} // verus!
