//! The address of the server's socket, as the client dials it.

use vstd::prelude::*;
use vstd::string::*;

verus! {

/// Where the page that runs the client was loaded from: the scheme with its
/// colon (`https:`), the host with its port, and the path.
pub struct Location {
    pub protocol: String,
    pub host: String,
    pub pathname: String,
}

/// Whether `s` begins with `prefix`.
pub open spec fn starts_with(s: Seq<char>, prefix: Seq<char>) -> bool {
    prefix.len() <= s.len() && s.take(prefix.len() as int) == prefix
}

/// `s` with every occurrence of `from` replaced by `to`, the occurrences
/// taken from the left and not overlapping. With an empty `from` it is `s`.
pub open spec fn replaced(s: Seq<char>, from: Seq<char>, to: Seq<char>) -> Seq<char>
    decreases s.len(),
{
    if from.len() == 0 || s.len() < from.len() {
        s
    } else if starts_with(s, from) {
        to + replaced(s.skip(from.len() as int), from, to)
    } else {
        seq![s[0]] + replaced(s.skip(1), from, to)
    }
}

/// `path` with a slash at its end.
pub open spec fn with_slash(path: Seq<char>) -> Seq<char> {
    if path.len() > 0 && path.last() == '/' {
        path
    } else {
        path.push('/')
    }
}

/// The scheme of the socket that belongs to a page's scheme: `ws` for
/// `http`.
pub open spec fn socket_scheme(protocol: Seq<char>) -> Seq<char> {
    replaced(protocol, "http"@, "ws"@)
}

/// The address of the socket that `url` means on a page at `protocol`,
/// `host` and `pathname`. A full address stands as it is; `//host/path`
/// gets the socket's scheme; `/path` gets scheme and host; anything else is
/// taken relative to the page's path.
pub open spec fn normalized(url: Seq<char>, protocol: Seq<char>, host: Seq<char>, pathname: Seq<char>) -> Seq<char> {
    if starts_with(url, "ws://"@) || starts_with(url, "wss://"@) {
        url
    } else if starts_with(url, "//"@) {
        socket_scheme(protocol) + url
    } else if starts_with(url, "/"@) {
        socket_scheme(protocol) + "//"@ + host + url
    } else {
        socket_scheme(protocol) + "//"@ + host + with_slash(pathname) + url
    }
}

/// Whether `s` reads `word` from place `at` on.
fn reads_at(s: &str, at: usize, word: &str) -> (reads: bool)
    requires
        at <= s@.len(),
    ensures
        reads == starts_with(s@.skip(at as int), word@),
{
    let n: usize = s.unicode_len();
    let m: usize = word.unicode_len();
    if m > n - at {
        return false;
    }
    let mut k: usize = 0;
    while k < m
        invariant
            k <= m,
            m == word@.len(),
            n == s@.len(),
            at + m <= n,
            forall|j: int| 0 <= j < k ==> s@[at + j] == word@[j],
        decreases m - k,
    {
        if s.get_char(at + k) != word.get_char(k) {
            proof {
                let tail = s@.skip(at as int);
                assert(tail.take(m as int)[k as int] == s@[at + k]);
            }
            return false;
        }
        k = k + 1;
    }
    assert(s@.skip(at as int).take(m as int) =~= word@);
    true
}

/// `s` with every occurrence of `from` replaced by `to`.
pub fn replace_all(s: &str, from: &str, to: &str) -> (out: String)
    ensures
        out@ == replaced(s@, from@, to@),
{
    let n: usize = s.unicode_len();
    let m: usize = from.unicode_len();
    if m == 0 {
        return String::from_str(s);
    }
    let mut out = String::new();
    let mut i: usize = 0;
    assert(s@.skip(0) =~= s@);
    assert(out@ + replaced(s@.skip(0), from@, to@) =~= replaced(s@, from@, to@));
    while i < n
        invariant
            i <= n,
            n == s@.len(),
            m == from@.len(),
            m > 0,
            out@ + replaced(s@.skip(i as int), from@, to@) == replaced(s@, from@, to@),
        decreases n - i,
    {
        let ghost rest = s@.skip(i as int);
        let ghost before = out@;
        if reads_at(s, i, from) {
            out.append(to);
            proof {
                assert(rest.skip(m as int) =~= s@.skip(i + m));
                assert(before + (to@ + replaced(rest.skip(m as int), from@, to@)) =~= (before + to@) + replaced(
                    s@.skip(i + m),
                    from@,
                    to@,
                ));
            }
            i = i + m;
        } else {
            let one = s.substring_char(i, i + 1);
            out.append(one);
            proof {
                assert(one@ =~= seq![s@[i as int]]);
                assert(rest[0] == s@[i as int]);
                assert(rest.skip(1) =~= s@.skip(i + 1));
                if rest.len() < m {
                    // the rest is too short to hold `from`: it stands as it is
                    assert(replaced(rest, from@, to@) == rest);
                    short_stays(rest.skip(1), from@, to@);
                    assert(seq![rest[0]] + rest.skip(1) =~= rest);
                }
                assert(before + (seq![rest[0]] + replaced(rest.skip(1), from@, to@)) =~= (before + one@) + replaced(
                    s@.skip(i + 1),
                    from@,
                    to@,
                ));
            }
            i = i + 1;
        }
    }
    proof {
        assert(s@.skip(n as int) =~= Seq::<char>::empty());
        assert(out@ + Seq::<char>::empty() =~= out@);
    }
    out
}

/// What is shorter than `from` holds no occurrence of it.
proof fn short_stays(s: Seq<char>, from: Seq<char>, to: Seq<char>)
    requires
        s.len() < from.len(),
    ensures
        replaced(s, from, to) == s,
{
}

/// The address of the socket that `url` means on a page at `location`.
pub fn normalize_url(url: &str, location: &Location) -> (address: String)
    ensures
        address@ == normalized(url@, location.protocol@, location.host@, location.pathname@),
{
    assert(url@.skip(0) =~= url@);
    if reads_at(url, 0, "ws://") || reads_at(url, 0, "wss://") {
        return String::from_str(url);
    }
    let mut address = replace_all(location.protocol.as_str(), "http", "ws");
    if reads_at(url, 0, "//") {
        address.append(url);
        return address;
    }
    address.append("//");
    address.append(location.host.as_str());
    if reads_at(url, 0, "/") {
        address.append(url);
        return address;
    }
    let path = location.pathname.as_str();
    let n: usize = path.unicode_len();
    address.append(path);
    if n == 0 || path.get_char(n - 1) != '/' {
        address.append("/");
        proof {
            reveal_strlit("/");
            assert(with_slash(path@) =~= path@ + "/"@);
        }
    }
    address.append(url);
    address
}

} // verus!
