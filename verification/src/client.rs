use vstd::prelude::*;

use crate::message::NodeId;
use crate::net::random_bytes;
use crate::text::{split_words, string_views, words};

verus! {

/// A command typed at the client's prompt.
pub enum Command {
    /// A blank line.
    Empty,
    /// `send-image <path>`
    SendImage { path: String },
    /// `send-image` without a path.
    SendImageWithoutPath,
    /// `discover`
    Discover,
    /// `status`
    Status,
    /// `help`
    Help,
    /// Any other first word.
    Unknown { name: String },
}

/// What a line reads as: its first whitespace-separated word names the command,
/// and `send-image` takes the second word as its path.
pub open spec fn command_of(line: Seq<char>, cmd: Command) -> bool {
    let w = words(line);
    if w.len() == 0 {
        cmd is Empty
    } else if w[0] == "send-image"@ {
        if w.len() >= 2 {
            cmd matches Command::SendImage { path } && path@ == w[1]
        } else {
            cmd is SendImageWithoutPath
        }
    } else if w[0] == "discover"@ {
        cmd is Discover
    } else if w[0] == "status"@ {
        cmd is Status
    } else if w[0] == "help"@ {
        cmd is Help
    } else {
        cmd matches Command::Unknown { name } && name@ == w[0]
    }
}

impl Command {
    /// Reads a line typed at the prompt.
    pub fn parse(line: &str) -> (cmd: Command)
        ensures
            command_of(line@, cmd),
    {
        let w = split_words(line);
        proof {
            assert(string_views(w@).len() == w@.len());
        }
        if w.len() == 0 {
            return Command::Empty;
        }
        proof {
            assert(string_views(w@)[0] == w@[0]@);
        }
        if w[0] == "send-image".to_owned() {
            if w.len() >= 2 {
                proof {
                    assert(string_views(w@)[1] == w@[1]@);
                }
                Command::SendImage { path: w[1].clone() }
            } else {
                Command::SendImageWithoutPath
            }
        } else if w[0] == "discover".to_owned() {
            Command::Discover
        } else if w[0] == "status".to_owned() {
            Command::Status
        } else if w[0] == "help".to_owned() {
            Command::Help
        } else {
            Command::Unknown { name: w[0].clone() }
        }
    }
}

/// The node taken for the leader: under the Bully algorithm the highest
/// identifier among the nodes that answered; `None` when none answered.
pub fn choose_leader(responding: &Vec<NodeId>) -> (res: Option<NodeId>)
    ensures
        res is None <==> responding@.len() == 0,
        res matches Some(l) ==> responding@.contains(l) && forall|i: int|
            0 <= i < responding@.len() ==> responding@[i] <= l,
{
    if responding.len() == 0 {
        return None;
    }
    let mut best = responding[0];
    let mut i: usize = 1;
    while i < responding.len()
        invariant
            1 <= i <= responding@.len(),
            responding@.contains(best),
            forall|k: int| 0 <= k < i ==> responding@[k] <= best,
        decreases responding.len() - i,
    {
        if responding[i] > best {
            best = responding[i];
        }
        i = i + 1;
    }
    Some(best)
}

/// The lower-case hexadecimal digit of `v`, for `v < 16`.
pub open spec fn hex_digit(v: u8) -> char {
    if v < 10 {
        (0x30 + v) as char
    } else {
        (0x61 + v - 10) as char
    }
}

/// `bytes` in lower-case hexadecimal, two digits per byte, high half first.
pub open spec fn hex_lower(bytes: Seq<u8>) -> Seq<char>
    decreases bytes.len(),
{
    if bytes.len() == 0 {
        Seq::empty()
    } else {
        hex_lower(bytes.drop_last()) + seq![hex_digit(bytes.last() / 16), hex_digit(bytes.last() % 16)]
    }
}

/// Calls `hex::encode`.
///
/// Claims what the crate's documentation and source show: two lower-case hex
/// digits per byte, the high half first.
#[verifier::external_body]
fn hex_encode(bytes: &[u8]) -> (s: String)
    ensures
        s@ == hex_lower(bytes@),
{
    hex::encode(bytes)
}

/// The request identifier for the given random bytes: their hexadecimal text.
pub fn request_id(random: &[u8]) -> (id: String)
    ensures
        id@ == hex_lower(random@),
{
    hex_encode(random)
}

/// A fresh request identifier: 16 random bytes in hexadecimal.
pub fn new_request_id() -> (id: String)
    ensures
        exists|r: Seq<u8>| r.len() == 16 && id@ == hex_lower(r),
{
    let random = random_bytes(16);
    request_id(random.as_slice())
}

} // verus!
