use vstd::prelude::*;
use vstd::string::StrSliceExecFns;
use crate::error::BencodeError;
use crate::error::ErrorKind;
use crate::text::push_char;

verus! {

/// The first slash at or after `i`, or the length when there is none.
pub open spec fn find_slash(s: Seq<char>, i: int) -> int
    decreases s.len() - i,
{
    if i < 0 || i >= s.len() {
        s.len() as int
    } else if s[i] == '/' {
        i
    } else {
        find_slash(s, i + 1)
    }
}

/// Splits a URL into its host and path parts: the scheme must be plain
/// `http://`, the host runs to the first slash after it, and the path is
/// the rest (empty when there is no slash).
pub fn get_host_and_path(url: &str) -> (r: Result<(String, String), BencodeError>)
    ensures
        ({
            let u = url@;
            if u.len() >= 7 && u.subrange(0, 7) == "http://"@ {
                let p = find_slash(u, 7);
                r matches Ok(hp) && hp.0@ == u.subrange(7, p) && hp.1@ == u.subrange(
                    p,
                    u.len() as int,
                )
            } else {
                r matches Err(e) && e.kind == ErrorKind::Format
            }
        }),
{
    let n = url.unicode_len();
    let prefix = "http://";
    proof {
        reveal_strlit("http://");
    }
    let mut ok = n >= 7;
    if n >= 7 {
        for i in 0..7usize
            invariant
                n >= 7,
                n == url@.len(),
                prefix@ == "http://"@,
                prefix@.len() == 7,
                ok == (forall|j: int| 0 <= j < i ==> url@[j] == "http://"@[j]),
        {
            let c = url.get_char(i);
            let p = prefix.get_char(i);
            if c != p {
                ok = false;
            }
            proof {
                if ok {
                    assert forall|j: int| 0 <= j < i + 1 implies url@[j] == "http://"@[j] by {}
                } else {
                    assert(!(forall|j: int| 0 <= j < i + 1 ==> url@[j] == "http://"@[j])) by {
                        if forall|j: int| 0 <= j < i + 1 ==> url@[j] == "http://"@[j] {
                            assert(url@[i as int] == "http://"@[i as int]);
                        }
                    }
                }
            }
        }
    }
    if !ok {
        proof {
            if url@.len() >= 7 && url@.subrange(0, 7) == "http://"@ {
                assert forall|j: int| 0 <= j < 7 implies url@[j] == "http://"@[j] by {
                    assert(url@.subrange(0, 7)[j] == url@[j]);
                }
                assert(false);
            }
        }
        return Err(BencodeError::new(ErrorKind::Format, "schema is not supported"));
    }
    proof {
        assert(url@.subrange(0, 7) =~= "http://"@);
    }
    let mut p: usize = 7;
    loop
        invariant
            n == url@.len(),
            7 <= p <= n,
            find_slash(url@, 7) == find_slash(url@, p as int),
        ensures
            p as int == find_slash(url@, 7),
        decreases n - p,
    {
        if p >= n {
            break;
        }
        let c = url.get_char(p);
        if c == '/' {
            break;
        }
        p = p + 1;
    }
    let mut host = String::new();
    for i in 7..p
        invariant
            7 <= p <= n,
            n == url@.len(),
            host@ == url@.subrange(7, i as int),
    {
        let c = url.get_char(i);
        push_char(&mut host, c);
        proof {
            assert(host@ =~= url@.subrange(7, i + 1));
        }
    }
    proof {
        assert(host@ =~= url@.subrange(7, p as int));
    }
    let mut path = String::new();
    for i in p..n
        invariant
            p <= n,
            n == url@.len(),
            path@ == url@.subrange(p as int, i as int),
    {
        let c = url.get_char(i);
        push_char(&mut path, c);
        proof {
            assert(path@ =~= url@.subrange(p as int, i + 1));
        }
    }
    proof {
        assert(path@ =~= url@.subrange(p as int, n as int));
    }
    Ok((host, path))
}

/// The first position at or after `i` where the blank line separating
/// headers from content begins, or the length when there is none.
pub open spec fn find_blank_line(s: Seq<u8>, i: int) -> int
    decreases s.len() - i,
{
    if i < 0 || i + 4 > s.len() {
        s.len() as int
    } else if s[i] == 13 && s[i + 1] == 10 && s[i + 2] == 13 && s[i + 3] == 10 {
        i
    } else {
        find_blank_line(s, i + 1)
    }
}

/// The content of a raw response: everything after the first blank line,
/// or nothing when the response has none.
pub fn get_content(input: &Vec<u8>) -> (r: Vec<u8>)
    ensures
        ({
            let p = find_blank_line(input@, 0);
            if p < input@.len() {
                r@ == input@.subrange(p + 4, input@.len() as int)
            } else {
                r@ == Seq::<u8>::empty()
            }
        }),
{
    let n = input.len();
    let mut p: usize = 0;
    loop
        invariant
            n == input@.len(),
            p <= n,
            find_blank_line(input@, 0) == find_blank_line(input@, p as int),
        ensures
            p as int == find_blank_line(input@, 0),
        decreases n - p,
    {
        if n - p < 4 {
            proof {
                assert(find_blank_line(input@, p as int) == n);
            }
            p = n;
            break;
        }
        if input[p] == 13 && input[p + 1] == 10 && input[p + 2] == 13 && input[p + 3] == 10 {
            break;
        }
        p = p + 1;
    }
    let mut out: Vec<u8> = Vec::new();
    if p < n {
        let mut k = p + 4;
        while k < n
            invariant
                p + 4 <= k <= n,
                n == input@.len(),
                out@ == input@.subrange(p + 4, k as int),
            decreases n - k,
        {
            out.push(input[k]);
            k = k + 1;
            proof {
                assert(out@ =~= input@.subrange(p + 4, k as int));
            }
        }
        proof {
            assert(out@ =~= input@.subrange(p + 4, n as int));
        }
    }
    out
}

} // verus!
