use vstd::prelude::*;
use vstd::string::StrSliceExecFns;
use crate::error::BencodeError;
use crate::error::ErrorKind;
use crate::iomap::InsertOrderMap;
use crate::numtext::hex_digits_ok;
use crate::numtext::hex_digits_nat;
use crate::numtext::hex_to_usize;
use crate::numtext::len_digits_ok;
use crate::numtext::digits_nat;
use crate::numtext::digits_to_usize;

verus! {

/// The running state of the chunked body reader.
pub struct State {
    /// The body read so far.
    pub result: Vec<u8>,
    /// The digits of the current chunk length.
    pub count: Vec<u8>,
    /// Whether the last byte was a carriage return.
    pub carriage_return: bool,
    /// Whether the next newline starts chunk content.
    pub reading_body: bool,
}

/// The outcome of running the chunked reader over the input.
pub enum ChunkedRun {
    /// The final zero-length chunk was read; the body and the position
    /// after its marker.
    Done(Seq<u8>, int),
    /// A byte did not fit the chunked grammar, or a length was malformed.
    Fail,
    /// The input ended before the final chunk.
    Eof,
}

/// The smaller of two lengths.
pub open spec fn min_len(a: nat, b: int) -> int {
    if a <= b {
        a as int
    } else {
        b
    }
}

/// The chunked-transfer reader, byte by byte: hexadecimal digits grow
/// the length, a carriage return flips the content flag, a newline either
/// reads one chunk of content or ends on the zero chunk.
pub open spec fn chunked_run(
    s: Seq<u8>,
    i: int,
    result: Seq<u8>,
    count: Seq<u8>,
    cr: bool,
    rb: bool,
) -> ChunkedRun
    decreases s.len() - i,
{
    if i < 0 || i >= s.len() {
        ChunkedRun::Eof
    } else {
        let b = s[i];
        if (48 <= b && b <= 57) || (65 <= b && b <= 70) {
            chunked_run(s, i + 1, result, count.push(b), cr, rb)
        } else if b == 13 {
            chunked_run(s, i + 1, result, count, true, !rb)
        } else if b == 10 {
            if !cr {
                ChunkedRun::Fail
            } else if !rb {
                chunked_run(s, i + 1, result, count, cr, rb)
            } else if !hex_digits_ok(count) {
                ChunkedRun::Fail
            } else if hex_digits_nat(count) == 0 {
                ChunkedRun::Done(result, i + 1)
            } else {
                let n = min_len(hex_digits_nat(count), s.len() - (i + 1));
                chunked_run(
                    s,
                    i + 1 + n,
                    result + s.subrange(i + 1, i + 1 + n),
                    Seq::empty(),
                    false,
                    rb,
                )
            }
        } else {
            ChunkedRun::Fail
        }
    }
}

impl State {
    /// A fresh reader.
    pub fn new() -> (r: State)
        ensures
            r.result@ == Seq::<u8>::empty(),
            r.count@ == Seq::<u8>::empty(),
            !r.carriage_return,
            !r.reading_body,
    {
        State { result: Vec::new(), count: Vec::new(), carriage_return: false, reading_body: false }
    }

    /// Notes a carriage return: the next newline flips between length
    /// lines and content.
    pub fn read_carriage_return(&mut self)
        ensures
            final(self).carriage_return,
            final(self).reading_body == !old(self).reading_body,
            final(self).result == old(self).result,
            final(self).count == old(self).count,
    {
        self.carriage_return = true;
        self.reading_body = !self.reading_body;
    }

    /// Handles a newline: checks the preceding carriage return, and when
    /// content follows, reads one chunk from `input` at `pos`. Returns
    /// whether the final chunk was seen, and the new position.
    pub fn read_newline(&mut self, input: &Vec<u8>, pos: usize) -> (r: Result<
        (bool, usize),
        BencodeError,
    >)
        requires
            pos <= input@.len(),
        ensures
            ({
                let pre = old(self);
                if !pre.carriage_return {
                    r matches Err(e) && e.kind == ErrorKind::Format && *final(self) == *old(self)
                } else if !pre.reading_body {
                    r matches Ok(p) && p == (false, pos) && *final(self) == *old(self)
                } else if !hex_digits_ok(pre.count@) {
                    r matches Err(e) && e.kind == ErrorKind::Format && *final(self) == *old(self)
                } else if hex_digits_nat(pre.count@) == 0 {
                    r matches Ok(p) && p == (true, pos) && *final(self) == *old(self)
                } else {
                    let n = min_len(hex_digits_nat(pre.count@), input@.len() - pos);
                    &&& r matches Ok(p) && !p.0 && p.1 == pos + n
                    &&& final(self).result@ == pre.result@ + input@.subrange(
                        pos as int,
                        pos + n,
                    )
                    &&& final(self).count@ == Seq::<u8>::empty()
                    &&& !final(self).carriage_return
                    &&& final(self).reading_body == pre.reading_body
                }
            }),
    {
        if !self.carriage_return {
            return Err(
                BencodeError::new(ErrorKind::Format, "invalid format: no carriage return"),
            );
        }
        if !self.reading_body {
            return Ok((false, pos));
        }
        let value = match hex_to_usize(&self.count) {
            Some(v) => v,
            None => {
                return Err(BencodeError::new(ErrorKind::Format, "malformed chunk length"));
            }
        };
        if value == 0 {
            return Ok((true, pos));
        }
        let remaining = input.len() - pos;
        let n = if value <= remaining {
            value
        } else {
            remaining
        };
        let stop = pos + n;
        let mut k: usize = pos;
        while k < stop
            invariant
                stop <= input@.len(),
                pos <= k <= stop,
                stop == pos + n,
                self.result@ == old(self).result@ + input@.subrange(pos as int, k as int),
                self.count == old(self).count,
                self.carriage_return == old(self).carriage_return,
                self.reading_body == old(self).reading_body,
            decreases stop - k,
        {
            self.result.push(input[k]);
            k = k + 1;
            proof {
                assert(self.result@ =~= old(self).result@ + input@.subrange(
                    pos as int,
                    k as int,
                ));
            }
        }
        self.count = Vec::new();
        self.carriage_return = false;
        Ok((false, pos + n))
    }
}

/// Reads a chunked-transfer body from `input` starting at `pos`.
pub fn handle_http_chunked_body(input: &Vec<u8>, pos: usize) -> (r: Result<Vec<u8>, BencodeError>)
    requires
        pos <= input@.len(),
    ensures
        match chunked_run(input@, pos as int, Seq::empty(), Seq::empty(), false, false) {
            ChunkedRun::Done(body, end) => r matches Ok(out) && out@ == body,
            ChunkedRun::Fail => r matches Err(e) && e.kind == ErrorKind::Format,
            ChunkedRun::Eof => r matches Err(e) && e.kind == ErrorKind::EndOfStream,
        },
{
    let mut state = State::new();
    let mut cur = pos;
    loop
        invariant_except_break
            chunked_run(input@, pos as int, Seq::empty(), Seq::empty(), false, false)
                == chunked_run(
                input@,
                cur as int,
                state.result@,
                state.count@,
                state.carriage_return,
                state.reading_body,
            ),
        invariant
            pos <= cur <= input@.len(),
        ensures
            chunked_run(input@, pos as int, Seq::empty(), Seq::empty(), false, false) matches
                ChunkedRun::Done(body, end) && state.result@ == body,
        decreases input@.len() - cur,
    {
        if cur >= input.len() {
            return Err(
                BencodeError::new(ErrorKind::EndOfStream, "stream finished before fully read"),
            );
        }
        let byte = input[cur];
        if (48 <= byte && byte <= 57) || (65 <= byte && byte <= 70) {
            state.count.push(byte);
            cur = cur + 1;
        } else if byte == 13 {
            state.read_carriage_return();
            cur = cur + 1;
        } else if byte == 10 {
            match state.read_newline(input, cur + 1) {
                Ok(p) => {
                    if p.0 {
                        break;
                    }
                    cur = p.1;
                }
                Err(e) => {
                    return Err(e);
                }
            }
        } else {
            return Err(BencodeError::new(ErrorKind::Format, "unexpected value"));
        }
    }
    Ok(state.result)
}

/// The digit byte a character denotes, or an out-of-range marker.
pub open spec fn char_digit_byte(c: char) -> u8 {
    if '0' <= c && c <= '9' {
        c as u8
    } else {
        255
    }
}

/// The characters of a length header as digit bytes.
pub open spec fn digit_bytes(s: Seq<char>) -> Seq<u8> {
    Seq::new(s.len(), |i: int| char_digit_byte(s[i]))
}

/// Reads a response body from `input` at `pos`: a `content-length`
/// header bounds a plain read, a chunked `transfer-encoding` selects the
/// chunked reader, and otherwise the whole rest of the input is the body.
pub fn handle_http_body(headers: &InsertOrderMap<String>, input: &Vec<u8>, pos: usize) -> (r:
    Result<Vec<u8>, BencodeError>)
    requires
        pos <= input@.len(),
    ensures
        match headers.spec_get("content-length"@) {
            Some(v) => ({
                let ds = digit_bytes(v@);
                match r {
                    Ok(out) => len_digits_ok(ds) && out@ == input@.subrange(
                        pos as int,
                        pos + min_len(digits_nat(ds), input@.len() - pos),
                    ),
                    Err(e) => !len_digits_ok(ds) && e.kind == ErrorKind::Format,
                }
            }),
            None => match headers.spec_get("transfer-encoding"@) {
                Some(t) => {
                    if t@ == "chunked"@ {
                        match chunked_run(
                            input@,
                            pos as int,
                            Seq::empty(),
                            Seq::empty(),
                            false,
                            false,
                        ) {
                            ChunkedRun::Done(body, end) => r matches Ok(out) && out@ == body,
                            ChunkedRun::Fail => r matches Err(e) && e.kind == ErrorKind::Format,
                            ChunkedRun::Eof => r matches Err(e) && e.kind
                                == ErrorKind::EndOfStream,
                        }
                    } else {
                        r matches Ok(out) && out@ == input@.subrange(
                            pos as int,
                            input@.len() as int,
                        )
                    }
                },
                None => r matches Ok(out) && out@ == input@.subrange(
                    pos as int,
                    input@.len() as int,
                ),
            },
        },
{
    let cl_key: String = "content-length".to_owned();
    match headers.get(&cl_key) {
        Some(value) => {
            let text = value.as_str();
            let n = text.unicode_len();
            let mut digits: Vec<u8> = Vec::new();
            for i in 0..n
                invariant
                    n == value@.len(),
                    text@ == value@,
                    digits@ == digit_bytes(value@).subrange(0, i as int),
            {
                let c = text.get_char(i);
                if '0' <= c && c <= '9' {
                    digits.push(c as u8);
                } else {
                    digits.push(255);
                }
                proof {
                    assert(digits@ =~= digit_bytes(value@).subrange(0, i + 1));
                }
            }
            proof {
                assert(digits@ =~= digit_bytes(value@));
            }
            let max = match digits_to_usize(&digits) {
                Some(v) => v,
                None => {
                    return Err(BencodeError::new(ErrorKind::Format, "bad content length"));
                }
            };
            let remaining = input.len() - pos;
            let take = if max <= remaining {
                max
            } else {
                remaining
            };
            let mut out: Vec<u8> = Vec::new();
            let stop = pos + take;
            let mut k: usize = pos;
            while k < stop
                invariant
                    stop <= input@.len(),
                    pos <= k <= stop,
                    stop == pos + take,
                    out@ == input@.subrange(pos as int, k as int),
                decreases stop - k,
            {
                out.push(input[k]);
                k = k + 1;
                proof {
                    assert(out@ =~= input@.subrange(pos as int, k as int));
                }
            }
            Ok(out)
        }
        None => {
            let te_key: String = "transfer-encoding".to_owned();
            match headers.get(&te_key) {
                Some(value) => {
                    let chunked: String = "chunked".to_owned();
                    if *value == chunked {
                        handle_http_chunked_body(input, pos)
                    } else {
                        let mut out: Vec<u8> = Vec::new();
                        let n = input.len();
                        let mut k = pos;
                        while k < n
                            invariant
                                pos <= k <= n,
                                n == input@.len(),
                                out@ == input@.subrange(pos as int, k as int),
                            decreases n - k,
                        {
                            out.push(input[k]);
                            k = k + 1;
                            proof {
                                assert(out@ =~= input@.subrange(pos as int, k as int));
                            }
                        }
                        Ok(out)
                    }
                }
                None => {
                    let mut out: Vec<u8> = Vec::new();
                    let n = input.len();
                    let mut k = pos;
                    while k < n
                        invariant
                            pos <= k <= n,
                            n == input@.len(),
                            out@ == input@.subrange(pos as int, k as int),
                        decreases n - k,
                    {
                        out.push(input[k]);
                        k = k + 1;
                        proof {
                            assert(out@ =~= input@.subrange(pos as int, k as int));
                        }
                    }
                    Ok(out)
                }
            }
        }
    }
}

} // verus!
