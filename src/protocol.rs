//! The wire format of requests and responses.
use vstd::prelude::*;
use crate::codec::{be32, lemma_be32_round_trip, push_bytes, push_u32_be, read_be32, read_u32_be};
use crate::entries::{copy_range, opt_bytes};

verus! {

/// What a client asks for.
#[derive(PartialEq, Eq, Structural, Clone, Copy, Debug)]
pub enum Command {
    Get,
    Put,
    Delete,
}

/// The command an indicator byte names: `1` Get, `2` Put, `3` Delete.
pub open spec fn command_of(b: u8) -> Option<Command> {
    if b == 1 {
        Some(Command::Get)
    } else if b == 2 {
        Some(Command::Put)
    } else if b == 3 {
        Some(Command::Delete)
    } else {
        None
    }
}

pub open spec fn indicator_of(c: Command) -> u8 {
    match c {
        Command::Get => 1,
        Command::Put => 2,
        Command::Delete => 3,
    }
}

impl Command {
    pub fn from_u8_opt(indicator: u8) -> (r: Option<Command>)
        ensures
            r == command_of(indicator),
    {
        match indicator {
            1 => Some(Command::Get),
            2 => Some(Command::Put),
            3 => Some(Command::Delete),
            _ => None,
        }
    }

    pub fn indicator(&self) -> (r: u8)
        ensures
            r == indicator_of(*self),
            command_of(r) == Some(*self),
    {
        match self {
            Command::Get => 1,
            Command::Put => 2,
            Command::Delete => 3,
        }
    }
}

/// A decoded request: a key, and a value for Put.
pub struct Request {
    pub command: Command,
    pub key: Vec<u8>,
    pub value: Option<Vec<u8>>,
}

/// Why a request could not be decoded.
#[derive(PartialEq, Eq, Structural, Clone, Copy, Debug)]
pub enum ProtocolError {
    /// The indicator byte names no command; nothing after it was read.
    UnknownCommand(u8),
    /// The buffer ends before the request does.
    Incomplete,
}

/// A length-prefixed payload element.
pub open spec fn frame(b: Seq<u8>) -> Seq<u8> {
    be32(b.len() as u32) + b
}

/// The payload element at `p`, with the position just past it.
pub open spec fn frame_at(d: Seq<u8>, p: int) -> Option<(Seq<u8>, int)> {
    if 0 <= p && p + 4 <= d.len() && p + 4 + read_be32(d, p) <= d.len() {
        Some((d.subrange(p + 4, p + 4 + read_be32(d, p)), p + 4 + read_be32(d, p)))
    } else {
        None
    }
}

/// The bytes of a request.
pub open spec fn request_bytes(c: Command, key: Seq<u8>, value: Seq<u8>) -> Seq<u8> {
    if c == Command::Put {
        seq![indicator_of(c)] + frame(key) + frame(value)
    } else {
        seq![indicator_of(c)] + frame(key)
    }
}

/// The request at the start of `d`: its command, key, value, and length.
pub open spec fn parse_request(d: Seq<u8>) -> Option<(Command, Seq<u8>, Option<Seq<u8>>, int)> {
    if d.len() == 0 {
        None
    } else {
        match command_of(d[0]) {
            None => None,
            Some(c) => match frame_at(d, 1) {
                None => None,
                Some((k, n)) => if c == Command::Put {
                    match frame_at(d, n) {
                        None => None,
                        Some((v, m)) => Some((c, k, Some(v), m)),
                    }
                } else {
                    Some((c, k, None, n))
                },
            },
        }
    }
}

proof fn lemma_frame_at(pre: Seq<u8>, b: Seq<u8>, post: Seq<u8>)
    requires
        b.len() <= u32::MAX,
    ensures
        frame_at(pre + frame(b) + post, pre.len() as int) == Some((b, pre.len() + 4 + b.len() as int)),
{
    let d = pre + frame(b) + post;
    let p = pre.len() as int;
    let n = b.len() as u32;
    lemma_be32_round_trip(n);
    assert(d[p] == be32(n)[0] && d[p + 1] == be32(n)[1] && d[p + 2] == be32(n)[2] && d[p + 3]
        == be32(n)[3]);
    assert(d.subrange(p + 4, p + 4 + n) =~= b);
}

proof fn lemma_parse_put(d: Seq<u8>, key: Seq<u8>, value: Seq<u8>, n: int, m: int)
    requires
        d.len() > 0,
        command_of(d[0]) == Some(Command::Put),
        frame_at(d, 1) == Some((key, n)),
        frame_at(d, n) == Some((value, m)),
    ensures
        parse_request(d) == Some((Command::Put, key, Some(value), m)),
{
}

proof fn lemma_parse_plain(d: Seq<u8>, c: Command, key: Seq<u8>, n: int)
    requires
        d.len() > 0,
        c != Command::Put,
        command_of(d[0]) == Some(c),
        frame_at(d, 1) == Some((key, n)),
    ensures
        parse_request(d) == Some((c, key, None::<Seq<u8>>, n)),
{
}

/// A request reads back as what was encoded, whatever follows it.
#[verifier::rlimit(100)]
pub proof fn lemma_request_round_trip(c: Command, key: Seq<u8>, value: Seq<u8>, rest: Seq<u8>)
    requires
        key.len() <= u32::MAX,
        value.len() <= u32::MAX,
    ensures
        parse_request(request_bytes(c, key, value) + rest) == Some(
            (
                c,
                key,
                if c == Command::Put { Some(value) } else { None },
                request_bytes(c, key, value).len() as int,
            ),
        ),
{
    let head = seq![indicator_of(c)];
    let d = request_bytes(c, key, value) + rest;
    let n = 5 + key.len() as int;
    if c == Command::Put {
        let tail = frame(value) + rest;
        let fk = frame(key);
        let fv = frame(value);
        assert(d == head + fk + fv + rest);
        assert(head + fk + fv + rest =~= head + fk + tail);
        lemma_frame_at(head, key, tail);
        lemma_frame_at(head + fk, value, rest);
        assert(d[0] == indicator_of(c));
        lemma_parse_put(d, key, value, n, n + 4 + value.len() as int);
    } else {
        lemma_frame_at(head, key, rest);
        assert(d[0] == indicator_of(c));
        lemma_parse_plain(d, c, key, n);
    }
}

/// Reads the payload element at `p`.
pub fn read_frame(d: &[u8], p: usize) -> (r: Option<(Vec<u8>, usize)>)
    ensures
        match r {
            Some(x) => frame_at(d@, p as int) == Some((x.0@, x.1 as int)),
            None => frame_at(d@, p as int) is None,
        },
{
    if p > d.len() || d.len() - p < 4 {
        return None;
    }
    let n = read_u32_be(d, p) as usize;
    if d.len() - p - 4 < n {
        return None;
    }
    let b = copy_range(d, p + 4, p + 4 + n);
    Some((b, p + 4 + n))
}

/// Decodes the request at the start of `d`, with its length in bytes.
pub fn decode_request(d: &[u8]) -> (r: Result<(Request, usize), ProtocolError>)
    ensures
        match r {
            Ok((req, n)) => parse_request(d@) == Some(
                (req.command, req.key@, opt_bytes(req.value), n as int),
            ),
            Err(ProtocolError::UnknownCommand(b)) => d@.len() > 0 && b == d@[0] && command_of(d@[0]) is None,
            Err(ProtocolError::Incomplete) => parse_request(d@) is None && (d@.len() == 0 || command_of(d@[0]) is Some),
        },
{
    if d.len() == 0 {
        return Err(ProtocolError::Incomplete);
    }
    let command = match Command::from_u8_opt(d[0]) {
        Some(c) => c,
        None => {
            return Err(ProtocolError::UnknownCommand(d[0]));
        },
    };
    let (key, n) = match read_frame(d, 1) {
        Some(x) => x,
        None => {
            return Err(ProtocolError::Incomplete);
        },
    };
    if command == Command::Put {
        match read_frame(d, n) {
            Some((value, m)) => Ok((Request { command, key, value: Some(value) }, m)),
            None => Err(ProtocolError::Incomplete),
        }
    } else {
        Ok((Request { command, key, value: None }, n))
    }
}

/// Appends a length-prefixed payload element.
pub fn push_frame(out: &mut Vec<u8>, b: &[u8])
    requires
        b@.len() <= u32::MAX,
    ensures
        final(out)@ == old(out)@ + frame(b@),
{
    push_u32_be(out, b.len() as u32);
    push_bytes(out, b);
    proof {
        assert(final(out)@ =~= old(out)@ + frame(b@));
    }
}

/// The bytes of a request; a value is sent for Put only.
pub fn encode_request(command: Command, key: &[u8], value: &[u8]) -> (r: Vec<u8>)
    requires
        key@.len() <= u32::MAX,
        value@.len() <= u32::MAX,
    ensures
        r@ == request_bytes(command, key@, value@),
{
    let mut out: Vec<u8> = Vec::new();
    out.push(command.indicator());
    push_frame(&mut out, key);
    if command == Command::Put {
        push_frame(&mut out, value);
    }
    proof {
        assert(out@ =~= request_bytes(command, key@, value@));
    }
    out
}

/// The bytes of a response: `1` on success or `0` on failure, then the
/// value, if one is returned.
pub fn encode_response(success: bool, data: Option<&[u8]>) -> (r: Vec<u8>)
    requires
        data matches Some(b) ==> b@.len() <= u32::MAX,
    ensures
        r@ == seq![if success { 1u8 } else { 0u8 }] + match data {
            Some(b) => frame(b@),
            None => Seq::empty(),
        },
{
    let mut out: Vec<u8> = Vec::new();
    if success {
        out.push(1);
    } else {
        out.push(0);
    }
    match data {
        Some(b) => push_frame(&mut out, b),
        None => {},
    }
    proof {
        match data {
            Some(b) => {},
            None => {
                assert(out@ =~= seq![if success { 1u8 } else { 0u8 }] + Seq::<u8>::empty());
            },
        }
    }
    out
}

} // verus!
