use vstd::prelude::*;
use crate::iomap::InsertOrderMap;
use crate::iomap::first_key_index;
use crate::iomap::lemma_first_key_index_bounds;
use crate::text::push_char;

verus! {

/// Where the header reader stands in the response.
pub enum State {
    /// Reading the status line.
    Status,
    /// Expecting the next header to begin.
    HeaderNext,
    /// Reading a header line.
    Header,
    /// The header block ended; the body starts here.
    Body,
}

/// Header information gathered from a response: the protocol line and
/// the header fields, names lowercased.
pub struct HttpHeaders {
    /// Where the reader stands.
    pub state: State,
    /// Whether the last byte was a carriage return.
    pub carriage_return: bool,
    /// The protocol line, e.g. `HTTP/1.1 200 OK`.
    pub protocol: String,
    /// The headers read so far; repeated names overwrite.
    pub headers: InsertOrderMap<String>,
}

/// One step of the byte-level header machine: what the state, the
/// carriage-return flag and the line buffer become on the next byte.
pub open spec fn next_http_spec(state: State, cr: bool, buffer: Seq<char>, byte: u8) -> (
    State,
    bool,
    Seq<char>,
) {
    if cr && byte == 10 {
        match state {
            State::Status => (State::HeaderNext, false, buffer),
            State::Header => (State::HeaderNext, false, buffer),
            State::HeaderNext => (State::Body, false, buffer),
            State::Body => (State::Body, false, buffer),
        }
    } else if byte == 13 {
        (state, true, buffer)
    } else {
        let st = match state {
            State::HeaderNext => State::Header,
            _ => state,
        };
        (st, false, buffer.push(byte as char))
    }
}

/// An uppercase ASCII letter lowered; any other character unchanged.
pub open spec fn lower_char(c: char) -> char {
    if 'A' <= c && c <= 'Z' {
        ((c as u8) + 32) as char
    } else {
        c
    }
}

/// Every character lowered by [`lower_char`].
pub open spec fn lower_seq(s: Seq<char>) -> Seq<char> {
    Seq::new(s.len(), |i: int| lower_char(s[i]))
}

/// The first position at or after `i` where a colon is followed by a
/// space, or the length when there is none.
pub open spec fn find_colon_space(s: Seq<char>, i: int) -> int
    decreases s.len() - i,
{
    if i < 0 || i + 1 >= s.len() {
        s.len() as int
    } else if s[i] == ':' && s[i + 1] == ' ' {
        i
    } else {
        find_colon_space(s, i + 1)
    }
}

/// The header entries as character sequences.
pub open spec fn header_entries(m: Seq<(String, String)>) -> Seq<(Seq<char>, Seq<char>)> {
    Seq::new(m.len(), |i: int| (m[i].0@, m[i].1@))
}

/// First-match update of name/value entries: replaces the value of the
/// first entry holding the name, or appends a new entry.
pub open spec fn entries_update(
    entries: Seq<(Seq<char>, Seq<char>)>,
    name: Seq<char>,
    value: Seq<char>,
) -> Seq<(Seq<char>, Seq<char>)>
    decreases entries.len(),
{
    if entries.len() == 0 {
        seq![(name, value)]
    } else if entries[0].0 == name {
        seq![(name, value)] + entries.subrange(1, entries.len() as int)
    } else {
        seq![entries[0]] + entries_update(
            entries.subrange(1, entries.len() as int),
            name,
            value,
        )
    }
}

/// What storing a header line does to the entries: split at the first
/// colon-space into a lowercased name and the value after it, or store
/// the whole line under an empty value when there is no separator.
pub open spec fn add_header_spec(
    entries: Seq<(Seq<char>, Seq<char>)>,
    line: Seq<char>,
) -> Seq<(Seq<char>, Seq<char>)> {
    let p = find_colon_space(line, 0);
    if p < line.len() {
        entries_update(
            entries,
            lower_seq(line.subrange(0, p)),
            line.subrange(p + 2, line.len() as int),
        )
    } else {
        entries_update(entries, line, Seq::empty())
    }
}

/// The reader's whole trace condensed: state, flag, protocol line,
/// entries and line buffer after consuming input from `i` until the body
/// starts or the input ends. The last component is where reading stopped.
pub open spec fn headers_run(
    s: Seq<u8>,
    i: int,
    state: State,
    cr: bool,
    protocol: Seq<char>,
    entries: Seq<(Seq<char>, Seq<char>)>,
    buffer: Seq<char>,
) -> (State, bool, Seq<char>, Seq<(Seq<char>, Seq<char>)>, int)
    decreases s.len() - i,
{
    if i < 0 || i >= s.len() {
        (state, cr, protocol, entries, i)
    } else {
        let step = next_http_spec(state, cr, buffer, s[i]);
        let st2 = step.0;
        let cr2 = step.1;
        let buf2 = step.2;
        match st2 {
            State::HeaderNext => {
                if !cr2 {
                    if protocol.len() == 0 {
                        headers_run(s, i + 1, st2, cr2, buf2, entries, Seq::empty())
                    } else {
                        headers_run(
                            s,
                            i + 1,
                            st2,
                            cr2,
                            protocol,
                            add_header_spec(entries, buf2),
                            Seq::empty(),
                        )
                    }
                } else {
                    headers_run(s, i + 1, st2, cr2, protocol, entries, buf2)
                }
            }
            State::Body => (st2, cr2, protocol, entries, i + 1),
            _ => headers_run(s, i + 1, st2, cr2, protocol, entries, buf2),
        }
    }
}

impl HttpHeaders {
    /// Creates a reader at the start of the status line.
    pub fn new() -> (r: HttpHeaders)
        ensures
            r.state == State::Status,
            !r.carriage_return,
            r.protocol@ == Seq::<char>::empty(),
            r.headers@ == Seq::<(String, String)>::empty(),
    {
        HttpHeaders {
            state: State::Status,
            carriage_return: false,
            protocol: String::new(),
            headers: InsertOrderMap::new(),
        }
    }

    /// Consumes one byte: line feeds after a carriage return advance the
    /// state, carriage returns set the flag, and everything else lands in
    /// the line buffer.
    pub fn handle_next_http(&mut self, buffer: &mut String, byte: u8)
        ensures
            ({
                let (st, cr, buf) = next_http_spec(
                    old(self).state,
                    old(self).carriage_return,
                    old(buffer)@,
                    byte,
                );
                &&& final(self).state == st
                &&& final(self).carriage_return == cr
                &&& final(buffer)@ == buf
                &&& final(self).protocol == old(self).protocol
                &&& final(self).headers == old(self).headers
            }),
    {
        if self.carriage_return && byte == 10 {
            self.carriage_return = false;
            match self.state {
                State::Status => {
                    self.state = State::HeaderNext;
                }
                State::Header => {
                    self.state = State::HeaderNext;
                }
                State::HeaderNext => {
                    self.state = State::Body;
                }
                State::Body => {}
            }
            return;
        }
        if byte == 13 {
            self.carriage_return = true;
            return;
        }
        push_char(buffer, byte as char);
        match self.state {
            State::HeaderNext => {
                self.state = State::Header;
            }
            _ => {}
        }
        self.carriage_return = false;
    }

    /// Stores a header line: the part before the first colon-space is the
    /// name, lowercased; the rest is the value. A line without the
    /// separator is stored whole with an empty value.
    pub fn add_header(&mut self, header_line: String)
        ensures
            final(self).state == old(self).state,
            final(self).carriage_return == old(self).carriage_return,
            final(self).protocol == old(self).protocol,
            header_entries(final(self).headers@) == add_header_spec(
                header_entries(old(self).headers@),
                header_line@,
            ),
    {
        let line = header_line.as_str();
        let n = line.unicode_len();
        let mut p: usize = 0;
        loop
            invariant
                n == header_line@.len(),
                line@ == header_line@,
                p <= n,
                find_colon_space(header_line@, 0) == find_colon_space(header_line@, p as int),
            ensures
                p as int == find_colon_space(header_line@, 0),
            decreases n - p,
        {
            if n - p <= 1 {
                proof {
                    assert(find_colon_space(header_line@, p as int) == n);
                }
                p = n;
                break;
            }
            let c0 = line.get_char(p);
            let c1 = line.get_char(p + 1);
            if c0 == ':' && c1 == ' ' {
                break;
            }
            p = p + 1;
        }
        if p < n {
            let mut name = String::new();
            for i in 0..p
                invariant
                    p < n,
                    n == header_line@.len(),
                    line@ == header_line@,
                    name@ == lower_seq(header_line@.subrange(0, p as int)).subrange(0, i as int),
            {
                let c = line.get_char(i);
                let lowered: char = if 'A' <= c && c <= 'Z' {
                    ((c as u8) + 32) as char
                } else {
                    c
                };
                push_char(&mut name, lowered);
                proof {
                    assert(name@ =~= lower_seq(header_line@.subrange(0, p as int)).subrange(
                        0,
                        i + 1,
                    ));
                }
            }
            proof {
                assert(name@ =~= lower_seq(header_line@.subrange(0, p as int)));
            }
            let mut value = String::new();
            for i in (p + 2)..n
                invariant
                    p + 2 <= n,
                    n == header_line@.len(),
                    line@ == header_line@,
                    value@ == header_line@.subrange(p + 2, i as int),
            {
                let c = line.get_char(i);
                push_char(&mut value, c);
                proof {
                    assert(value@ =~= header_line@.subrange(p + 2, i + 1));
                }
            }
            proof {
                assert(value@ =~= header_line@.subrange(p + 2, n as int));
            }
            self.insert_header(name, value);
        } else {
            let empty = String::new();
            self.insert_header(header_line, empty);
        }
    }

    /// Inserts one header entry, first match replaced in place.
    fn insert_header(&mut self, name: String, value: String)
        ensures
            final(self).state == old(self).state,
            final(self).carriage_return == old(self).carriage_return,
            final(self).protocol == old(self).protocol,
            header_entries(final(self).headers@) == entries_update(
                header_entries(old(self).headers@),
                name@,
                value@,
            ),
    {
        let ghost pre = self.headers@;
        proof {
            lemma_first_key_index_bounds(pre, name@);
            let k = first_key_index(pre, name@);
            assert forall|j: int| 0 <= j < k implies (#[trigger] header_entries(pre)[j]).0
                != name@ by {
                assert(header_entries(pre)[j].0 == pre[j].0@);
            }
            assert(k < pre.len() ==> header_entries(pre)[k].0 == name@);
            lemma_entries_update_at(header_entries(pre), name@, value@, k);
        }
        self.headers.insert(name, value);
        proof {
            let he_pre = header_entries(pre);
            let k = first_key_index(pre, name@);
            if k < pre.len() {
                assert(header_entries(self.headers@) =~= he_pre.update(k, (name@, value@)));
            } else {
                assert(header_entries(self.headers@) =~= he_pre.push((name@, value@)));
            }
        }
    }
}

/// [`entries_update`] replaces in place at the first matching position
/// `k`, or appends when no entry matches (`k` is the length then).
pub proof fn lemma_entries_update_at(
    entries: Seq<(Seq<char>, Seq<char>)>,
    name: Seq<char>,
    value: Seq<char>,
    k: int,
)
    requires
        0 <= k <= entries.len(),
        k < entries.len() ==> entries[k].0 == name,
        forall|j: int| 0 <= j < k ==> (#[trigger] entries[j]).0 != name,
    ensures
        k < entries.len() ==> entries_update(entries, name, value) == entries.update(
            k,
            (name, value),
        ),
        k == entries.len() ==> entries_update(entries, name, value) == entries.push(
            (name, value),
        ),
    decreases entries.len(),
{
    if entries.len() == 0 {
        assert(entries_update(entries, name, value) =~= entries.push((name, value)));
    } else if k == 0 {
        assert(entries_update(entries, name, value) =~= entries.update(0, (name, value)));
    } else {
        let t = entries.subrange(1, entries.len() as int);
        assert forall|j: int| 0 <= j < k - 1 implies (#[trigger] t[j]).0 != name by {
            assert(t[j] == entries[j + 1]);
        }
        assert(k - 1 < t.len() ==> t[k - 1].0 == name);
        lemma_entries_update_at(t, name, value, k - 1);
        if k < entries.len() {
            assert(entries_update(entries, name, value) =~= entries.update(k, (name, value)));
        } else {
            assert(entries_update(entries, name, value) =~= entries.push((name, value)));
        }
    }
}

/// Looks a name up among entries, first match winning.
pub open spec fn entries_get(entries: Seq<(Seq<char>, Seq<char>)>, name: Seq<char>) -> Option<
    Seq<char>,
>
    decreases entries.len(),
{
    if entries.len() == 0 {
        None
    } else if entries[0].0 == name {
        Some(entries[0].1)
    } else {
        entries_get(entries.subrange(1, entries.len() as int), name)
    }
}

/// Looking a key up through the entry view agrees with the map's own
/// lookup.
pub proof fn lemma_entries_get(s: Seq<(String, String)>, name: Seq<char>)
    ensures
        entries_get(header_entries(s), name) == ({
            let k = first_key_index(s, name);
            if k < s.len() {
                Some(s[k].1@)
            } else {
                None::<Seq<char>>
            }
        }),
    decreases s.len(),
{
    if s.len() > 0 {
        let t = s.subrange(1, s.len() as int);
        lemma_entries_get(t, name);
        lemma_first_key_index_bounds(t, name);
        assert(header_entries(s)[0] == (s[0].0@, s[0].1@));
        if s[0].0@ != name {
            assert(header_entries(s).subrange(1, header_entries(s).len() as int) =~= header_entries(
                t,
            ));
            let kt = first_key_index(t, name);
            if kt < t.len() {
                assert(t[kt] == s[kt + 1]);
            }
        }
    }
}

/// Reads the header block from the front of a response: every byte up to
/// the blank line that starts the body. Returns the headers and the
/// position of the first body byte (or the input length when the block
/// never ends).
pub fn handle_http_headers(input: &Vec<u8>) -> (r: (HttpHeaders, usize))
    ensures
        ({
            let (st, cr, protocol, entries, end) = headers_run(
                input@,
                0,
                State::Status,
                false,
                Seq::empty(),
                Seq::empty(),
                Seq::empty(),
            );
            &&& r.0.state == st
            &&& r.0.carriage_return == cr
            &&& r.0.protocol@ == protocol
            &&& header_entries(r.0.headers@) == entries
            &&& r.1 as int == end
        }),
{
    let mut headers = HttpHeaders::new();
    let mut buffer = String::new();
    let mut cur: usize = 0;
    let n = input.len();
    proof {
        assert(header_entries(headers.headers@) =~= Seq::<(Seq<char>, Seq<char>)>::empty());
    }
    loop
        invariant_except_break
            headers_run(
                input@,
                0,
                State::Status,
                false,
                Seq::empty(),
                Seq::empty(),
                Seq::empty(),
            ) == headers_run(
                input@,
                cur as int,
                headers.state,
                headers.carriage_return,
                headers.protocol@,
                header_entries(headers.headers@),
                buffer@,
            ),
        invariant
            n == input@.len(),
            cur <= n,
        ensures
            ({
                let (st, cr, protocol, entries, end) = headers_run(
                    input@,
                    0,
                    State::Status,
                    false,
                    Seq::empty(),
                    Seq::empty(),
                    Seq::empty(),
                );
                &&& headers.state == st
                &&& headers.carriage_return == cr
                &&& headers.protocol@ == protocol
                &&& header_entries(headers.headers@) == entries
                &&& cur as int == end
            }),
        decreases n - cur,
    {
        if cur >= n {
            break;
        }
        let byte = input[cur];
        headers.handle_next_http(&mut buffer, byte);
        cur = cur + 1;
        let mut dispatch = false;
        match headers.state {
            State::HeaderNext => {
                if !headers.carriage_return {
                    dispatch = true;
                }
            }
            _ => {}
        }
        if dispatch {
            if headers.protocol.as_str().is_empty() {
                headers.protocol = buffer;
                buffer = String::new();
            } else {
                headers.add_header(buffer);
                buffer = String::new();
            }
        }
        match headers.state {
            State::Body => {
                break;
            }
            _ => {}
        }
    }
    (headers, cur)
}

} // verus!
