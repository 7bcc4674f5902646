//! The one-byte commands that clients and the swap server exchange, and the
//! frames `[command] ++ utf8(id)` that carry them.
use vstd::prelude::*;
use vstd::utf8::*;

verus! {

/// A command byte. The first byte of every datagram names one of these.
#[derive(PartialEq, Eq, Structural, Copy, Clone, Debug)]
pub enum SwapCmd {
    Unknown,
    Save,
    Ask,
    Open,
    Req,
    ServerErr,
    Got,
    PeerErr,
    P2P,
    Hello,
    Finish,
    Resend,
    Resp,
}

/// The byte that stands for a command on the wire.
pub open spec fn cmd_byte(c: SwapCmd) -> u8 {
    match c {
        SwapCmd::Unknown => 0,
        SwapCmd::Save => 1,
        SwapCmd::Ask => 2,
        SwapCmd::Open => 3,
        SwapCmd::Req => 4,
        SwapCmd::ServerErr => 5,
        SwapCmd::Got => 6,
        SwapCmd::PeerErr => 7,
        SwapCmd::P2P => 8,
        SwapCmd::Hello => 9,
        SwapCmd::Finish => 10,
        SwapCmd::Resend => 11,
        SwapCmd::Resp => 12,
    }
}

/// The command that the swap server reads from a byte: one of its own
/// commands (bytes 1 to 7); every other byte reads as `Unknown`.
pub open spec fn server_cmd_of_byte(i: u8) -> SwapCmd {
    if 1 <= i <= 7 {
        cmd_of_byte(i)
    } else {
        SwapCmd::Unknown
    }
}

/// The command that a client reads from a byte: the swap server's commands
/// (bytes 1 to 7) and the commands peers exchange (bytes 8 to 12); every other
/// byte reads as `Unknown`.
pub open spec fn cmd_of_byte(i: u8) -> SwapCmd {
    if i == 1 {
        SwapCmd::Save
    } else if i == 2 {
        SwapCmd::Ask
    } else if i == 3 {
        SwapCmd::Open
    } else if i == 4 {
        SwapCmd::Req
    } else if i == 5 {
        SwapCmd::ServerErr
    } else if i == 6 {
        SwapCmd::Got
    } else if i == 7 {
        SwapCmd::PeerErr
    } else if i == 8 {
        SwapCmd::P2P
    } else if i == 9 {
        SwapCmd::Hello
    } else if i == 10 {
        SwapCmd::Finish
    } else if i == 11 {
        SwapCmd::Resend
    } else if i == 12 {
        SwapCmd::Resp
    } else {
        SwapCmd::Unknown
    }
}

/// Whether a command byte is one that only the swap server sends.
pub open spec fn byte_from_server(i: u8) -> bool {
    let c = server_cmd_of_byte(i);
    c == SwapCmd::Save || c == SwapCmd::Ask || c == SwapCmd::Open || c == SwapCmd::ServerErr
}

/// The frame of a command with an id: the command byte, then the UTF-8 bytes of the id.
pub open spec fn cmd_frame(id: Seq<char>, c: SwapCmd) -> Seq<u8> {
    seq![cmd_byte(c)] + encode_utf8(id)
}

/// Builds the frame of `cmd` carrying `id`.
fn gen_cmd(id: &str, cmd: SwapCmd) -> (v: Vec<u8>)
    ensures
        v@ == cmd_frame(id@, cmd),
{
    let mut v: Vec<u8> = Vec::new();
    v.push(cmd.enum2int());
    let b = id.as_bytes();
    let mut i: usize = 0;
    while i < b.len()
        invariant
            i <= b@.len(),
            b@ == encode_utf8(id@),
            v@ == seq![cmd_byte(cmd)] + b@.subrange(0, i as int),
        decreases b@.len() - i,
    {
        v.push(b[i]);
        assert(b@.subrange(0, i as int + 1) == b@.subrange(0, i as int).push(b@[i as int]));
        i = i + 1;
    }
    assert(b@.subrange(0, b@.len() as int) == b@);
    v
}

impl SwapCmd {
    /// Reads a command byte as the swap server does: bytes 1 to 7 are its
    /// commands, every other byte reads as `Unknown`.
    pub fn int2enum(i: u8) -> (c: SwapCmd)
        ensures
            c == server_cmd_of_byte(i),
    {
        match i {
            1 => SwapCmd::Save,
            2 => SwapCmd::Ask,
            3 => SwapCmd::Open,
            4 => SwapCmd::Req,
            5 => SwapCmd::ServerErr,
            6 => SwapCmd::Got,
            7 => SwapCmd::PeerErr,
            _ => SwapCmd::Unknown,
        }
    }

    /// Reads a command byte as a client does: the swap server's commands and
    /// the peer commands (`P2P`, `Hello`, `Finish`, `Resend`, `Resp` as bytes
    /// 8 to 12); every other byte reads as `Unknown`.
    pub fn client_int2enum(i: u8) -> (c: SwapCmd)
        ensures
            c == cmd_of_byte(i),
    {
        match i {
            8 => SwapCmd::P2P,
            9 => SwapCmd::Hello,
            10 => SwapCmd::Finish,
            11 => SwapCmd::Resend,
            12 => SwapCmd::Resp,
            _ => SwapCmd::int2enum(i),
        }
    }

    /// The byte that stands for this command.
    pub fn enum2int(&self) -> (i: u8)
        ensures
            i == cmd_byte(*self),
    {
        match self {
            SwapCmd::Unknown => 0,
            SwapCmd::Save => 1,
            SwapCmd::Ask => 2,
            SwapCmd::Open => 3,
            SwapCmd::Req => 4,
            SwapCmd::ServerErr => 5,
            SwapCmd::Got => 6,
            SwapCmd::PeerErr => 7,
            SwapCmd::P2P => 8,
            SwapCmd::Hello => 9,
            SwapCmd::Finish => 10,
            SwapCmd::Resend => 11,
            SwapCmd::Resp => 12,
        }
    }

    /// The frame a caller sends to ask the server for the address of peer `id`.
    pub fn ask(id: &str) -> (v: Vec<u8>)
        ensures
            v@ == cmd_frame(id@, SwapCmd::Ask),
    {
        gen_cmd(id, SwapCmd::Ask)
    }

    /// The frame (heart beat) a callee sends to register itself as `id`.
    pub fn save(id: &str) -> (v: Vec<u8>)
        ensures
            v@ == cmd_frame(id@, SwapCmd::Save),
    {
        gen_cmd(id, SwapCmd::Save)
    }

    /// The frame the server sends to tell a peer to open the way to `id`.
    pub fn open(id: &str) -> (v: Vec<u8>)
        ensures
            v@ == cmd_frame(id@, SwapCmd::Open),
    {
        gen_cmd(id, SwapCmd::Open)
    }

    /// Whether a datagram whose first byte is `i` comes from the swap server.
    pub fn from_server(i: u8) -> (b: bool)
        ensures
            b == byte_from_server(i),
    {
        let c = SwapCmd::int2enum(i);
        match c {
            SwapCmd::Save => true,
            SwapCmd::Ask => true,
            SwapCmd::Open => true,
            SwapCmd::ServerErr => true,
            _ => false,
        }
    }
}

/// Reading back the byte of any command gives the command; the swap server
/// reads back each of its own commands (bytes 1 to 7) and nothing else.
pub proof fn lemma_cmd_byte_roundtrip(c: SwapCmd)
    ensures
        cmd_of_byte(cmd_byte(c)) == c,
        cmd_byte(c) <= 7 ==> server_cmd_of_byte(cmd_byte(c)) == c,
        cmd_byte(c) > 7 ==> server_cmd_of_byte(cmd_byte(c)) == SwapCmd::Unknown,
{
}

/// Every byte that reads as a command other than `Unknown` is that command's byte.
pub proof fn lemma_cmd_of_byte_known(i: u8)
    ensures
        cmd_of_byte(i) != SwapCmd::Unknown ==> cmd_byte(cmd_of_byte(i)) == i,
        cmd_of_byte(i) == SwapCmd::Unknown ==> (i == 0 || i > 12),
{
}

} // verus!
