//! A remote target: a host, a port and the number of threads it offers,
//! written `host:port/threads`.

use vstd::prelude::*;
use vstd::string::StringExecFns;
use crate::text::{
    chars_of, decimal, decimal_string, lemma_decimal_round_trip, numeral_value, parse_numeral,
    string_of,
};

verus! {

/// A remote machine and the number of slots it contributes to the pool.
#[derive(Clone, Debug, PartialEq, Eq)]
pub struct RemoteHost {
    /// Name or address of the machine.
    pub addr: String,
    /// Port on which the machine is reached.
    pub port: u16,
    /// Number of threads declared for the machine.
    pub threads: u32,
}

/// What a remote target holds, as plain values.
pub struct HostView {
    pub addr: Seq<char>,
    pub port: u16,
    pub threads: u32,
}

impl View for RemoteHost {
    type V = HostView;

    open spec fn view(&self) -> HostView {
        HostView { addr: self.addr@, port: self.port, threads: self.threads }
    }
}

/// Why a text is no remote target.
#[derive(Clone, Copy, Debug, PartialEq, Eq, Structural)]
pub enum ParseHostError {
    /// Nothing follows the host.
    MissingPort,
    /// The port is no numeral, or does not fit in 16 bits.
    InvalidPort,
    /// Nothing follows the port.
    MissingThreads,
    /// The thread count is no numeral, or does not fit in 32 bits.
    InvalidThreads,
}

/// The two characters that part the fields of a remote target.
pub open spec fn is_field_break(c: char) -> bool {
    c == ':' || c == '/'
}

/// Where the field that begins at `from` ends: at the first `:` or `/` at or
/// after `from`, or at the end of the text where there is none.
pub open spec fn field_end(s: Seq<char>, from: int) -> int
    decreases s.len() - from,
{
    if from >= s.len() {
        s.len() as int
    } else if is_field_break(s[from]) {
        from
    } else {
        field_end(s, from + 1)
    }
}

/// The remote target that the text `s` spells, or why it spells none.
///
/// The host is the text before the first break, the port the field after
/// it and the thread count the field after that; what follows a third
/// break is not read.
pub open spec fn parse_host(s: Seq<char>) -> Result<HostView, ParseHostError> {
    let host_end = field_end(s, 0);
    let port_end = field_end(s, host_end + 1);
    let threads_end = field_end(s, port_end + 1);
    if host_end >= s.len() {
        Err(ParseHostError::MissingPort)
    } else {
        match numeral_value(s.subrange(host_end + 1, port_end)) {
            Some(port) if port <= u16::MAX => if port_end >= s.len() {
                Err(ParseHostError::MissingThreads)
            } else {
                match numeral_value(s.subrange(port_end + 1, threads_end)) {
                    Some(threads) if threads <= u32::MAX => Ok(
                        HostView {
                            addr: s.subrange(0, host_end),
                            port: port as u16,
                            threads: threads as u32,
                        },
                    ),
                    _ => Err(ParseHostError::InvalidThreads),
                }
            },
            _ => Err(ParseHostError::InvalidPort),
        }
    }
}

/// The text of a remote target: host, `:`, port, `/`, thread count.
pub open spec fn host_text(h: HostView) -> Seq<char> {
    h.addr + seq![':'] + decimal(h.port as nat) + seq!['/'] + decimal(h.threads as nat)
}

/// A field ends where the first break stands, and within the text.
pub proof fn lemma_field_end(s: Seq<char>, from: int)
    requires
        0 <= from <= s.len(),
    ensures
        from <= field_end(s, from) <= s.len(),
        forall|i: int| from <= i < field_end(s, from) ==> !is_field_break(#[trigger] s[i]),
        field_end(s, from) < s.len() ==> is_field_break(s[field_end(s, from)]),
    decreases s.len() - from,
{
    if from < s.len() && !is_field_break(s[from]) {
        lemma_field_end(s, from + 1);
    }
}

/// A field that holds no break and is followed by one, or by the end of the
/// text, ends exactly there.
pub proof fn lemma_field_end_at(s: Seq<char>, from: int, end: int)
    requires
        0 <= from <= end <= s.len(),
        forall|i: int| from <= i < end ==> !is_field_break(#[trigger] s[i]),
        end < s.len() ==> is_field_break(s[end]),
    ensures
        field_end(s, from) == end,
    decreases end - from,
{
    if from < end {
        lemma_field_end_at(s, from + 1, end);
    }
}

/// Where the field of `chars` that begins at `from` ends.
fn find_field_end(chars: &Vec<char>, from: usize) -> (end: usize)
    requires
        from <= chars.len(),
    ensures
        end == field_end(chars@, from as int),
        from <= end <= chars.len(),
{
    let mut i: usize = from;
    while i < chars.len() && chars[i] != ':' && chars[i] != '/'
        invariant
            from <= i <= chars.len(),
            field_end(chars@, from as int) == field_end(chars@, i as int),
        decreases chars.len() - i,
    {
        i += 1;
    }
    i
}

impl RemoteHost {
    /// A remote target from its three parts.
    pub fn new(host: String, port: u16, threads: u32) -> (out: RemoteHost)
        ensures
            out.addr == host,
            out.port == port,
            out.threads == threads,
    {
        RemoteHost { addr: host, port, threads }
    }

    /// Reads a remote target written as `host:port/threads`.
    pub fn from_str(s: &str) -> (out: Result<RemoteHost, ParseHostError>)
        ensures
            match parse_host(s@) {
                Ok(h) => out matches Ok(host) && host@ == h,
                Err(e) => out == Err::<RemoteHost, ParseHostError>(e),
            },
    {
        let chars = chars_of(s);
        let host_end: usize = find_field_end(&chars, 0);
        if host_end >= chars.len() {
            return Err(ParseHostError::MissingPort);
        }
        let port_end: usize = find_field_end(&chars, host_end + 1);
        let port: u16 = match parse_numeral(&chars, host_end + 1, port_end, 65535) {
            Some(p) => p as u16,
            None => {
                return Err(ParseHostError::InvalidPort);
            },
        };
        if port_end >= chars.len() {
            return Err(ParseHostError::MissingThreads);
        }
        let threads_end: usize = find_field_end(&chars, port_end + 1);
        let threads: u32 = match parse_numeral(&chars, port_end + 1, threads_end, u32::MAX) {
            Some(t) => t,
            None => {
                return Err(ParseHostError::InvalidThreads);
            },
        };
        Ok(RemoteHost { addr: string_of(&chars, 0, host_end), port, threads })
    }

    /// Writes the remote target as `host:port/threads`.
    pub fn to_string(&self) -> (out: String)
        ensures
            out@ == host_text(self@),
    {
        let mut out = self.addr.clone();
        out.push(':');
        out.append(decimal_string(self.port as u32).as_str());
        out.push('/');
        out.append(decimal_string(self.threads).as_str());
        out
    }
}

/// A remote target whose host holds neither `:` nor `/` is read back from
/// its own text.
pub proof fn lemma_host_round_trip(h: HostView)
    requires
        forall|i: int| 0 <= i < h.addr.len() ==> !is_field_break(#[trigger] h.addr[i]),
    ensures
        parse_host(host_text(h)) == Ok::<HostView, ParseHostError>(h),
{
    let port = decimal(h.port as nat);
    let threads = decimal(h.threads as nat);
    let s = host_text(h);
    let a = h.addr.len() as int;
    let b = a + 1 + port.len();
    let c = b + 1 + threads.len();
    lemma_decimal_round_trip(h.port as nat);
    lemma_decimal_round_trip(h.threads as nat);
    assert(s.len() == c);
    assert(s[a] == ':');
    assert(s[b] == '/');
    assert forall|i: int| 0 <= i < a implies !is_field_break(#[trigger] s[i]) by {
        assert(s[i] == h.addr[i]);
    }
    assert forall|i: int| a + 1 <= i < b implies !is_field_break(#[trigger] s[i]) by {
        assert(s[i] == port[i - a - 1]);
    }
    assert forall|i: int| b + 1 <= i < c implies !is_field_break(#[trigger] s[i]) by {
        assert(s[i] == threads[i - b - 1]);
    }
    lemma_field_end_at(s, 0, a);
    lemma_field_end_at(s, a + 1, b);
    lemma_field_end_at(s, b + 1, c);
    assert(s.subrange(0, a) == h.addr);
    assert(s.subrange(a + 1, b) == port);
    assert(s.subrange(b + 1, c) == threads);
}

} // verus!
