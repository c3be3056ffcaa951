use vstd::prelude::*;
use crate::resp::{Frame, RespValue};
use crate::store::{bytes_of, lookup, Store};

verus! {

/// What a frame asks of the store, in terms of the model.
pub enum Request {
    Get(Seq<u8>),
    Put(Seq<u8>, Seq<u8>),
    Del(Seq<u8>),
    /// Not a well-formed command: answered with this error text.
    Reject(Seq<char>),
}

/// A decoded command, ready to run against a store.
#[derive(Debug, Clone, PartialEq)]
pub enum Command {
    Get(Vec<u8>),
    Put(Vec<u8>, Vec<u8>),
    Del(Vec<u8>),
    Reject(String),
}

impl View for Command {
    type V = Request;

    open spec fn view(&self) -> Request {
        match self {
            Command::Get(k) => Request::Get(k@),
            Command::Put(k, v) => Request::Put(k@, v@),
            Command::Del(k) => Request::Del(k@),
            Command::Reject(msg) => Request::Reject(msg@),
        }
    }
}

/// `b` with ASCII lower-case letters made upper-case.
pub open spec fn upper(b: u8) -> u8 {
    if 97u8 <= b <= 122u8 {
        (b - 32) as u8
    } else {
        b
    }
}

/// `verb` spells `name` (given in upper case), ignoring ASCII case.
pub open spec fn verb_is(verb: Seq<u8>, name: Seq<u8>) -> bool {
    verb.len() == name.len() && forall|i: int| 0 <= i < verb.len() ==> upper(#[trigger] verb[i]) == name[i]
}

pub open spec fn get_name() -> Seq<u8> {
    seq![71u8, 69u8, 84u8]
}

pub open spec fn set_name() -> Seq<u8> {
    seq![83u8, 69u8, 84u8]
}

pub open spec fn del_name() -> Seq<u8> {
    seq![68u8, 69u8, 76u8]
}

pub open spec fn bulk_arg(f: Frame) -> bool {
    f matches Frame::Bulk(Some(_))
}

pub open spec fn bulk_bytes(f: Frame) -> Seq<u8> {
    f->Bulk_0->0
}

/// What the frame `f` asks for.
pub open spec fn request_of(f: Frame) -> Request {
    match f {
        Frame::Array(parts) => if parts.len() >= 1 && bulk_arg(parts[0]) {
            let verb = bulk_bytes(parts[0]);
            if verb_is(verb, get_name()) {
                if parts.len() == 2 && bulk_arg(parts[1]) {
                    Request::Get(bulk_bytes(parts[1]))
                } else {
                    Request::Reject("Invalid GET command"@)
                }
            } else if verb_is(verb, set_name()) {
                if parts.len() == 3 && bulk_arg(parts[1]) && bulk_arg(parts[2]) {
                    Request::Put(bulk_bytes(parts[1]), bulk_bytes(parts[2]))
                } else {
                    Request::Reject("Invalid SET command"@)
                }
            } else if verb_is(verb, del_name()) {
                if parts.len() == 2 && bulk_arg(parts[1]) {
                    Request::Del(bulk_bytes(parts[1]))
                } else {
                    Request::Reject("Invalid DEL command"@)
                }
            } else {
                Request::Reject("unknown command"@)
            }
        } else {
            Request::Reject("invalid command"@)
        },
        _ => Request::Reject("invalid command"@),
    }
}

/// The reply to `req` on a store holding `m`, and what the store holds after.
pub open spec fn respond(req: Request, m: Map<Seq<u8>, Seq<u8>>) -> (Frame, Map<Seq<u8>, Seq<u8>>) {
    match req {
        Request::Get(k) => (Frame::Bulk(lookup(m, k)), m),
        Request::Put(k, v) => (Frame::Simple("OK"@), m.insert(k, v)),
        Request::Del(k) => (Frame::Simple("OK"@), m.remove(k)),
        Request::Reject(msg) => (Frame::Error(msg), m),
    }
}

/// Whether `req` changes the store.
pub open spec fn writes(req: Request) -> bool {
    req is Put || req is Del
}

/// Whether `verb` spells `name`, ignoring ASCII case.
fn verb_matches(verb: &Vec<u8>, name: &[u8]) -> (r: bool)
    ensures
        r == verb_is(verb@, name@),
{
    if verb.len() != name.len() {
        return false;
    }
    let mut i: usize = 0;
    while i < verb.len()
        invariant
            i <= verb@.len(),
            verb@.len() == name@.len(),
            forall|j: int| 0 <= j < i ==> upper(#[trigger] verb@[j]) == name@[j],
        decreases verb@.len() - i,
    {
        let b = verb[i];
        let u = if 97u8 <= b && b <= 122u8 {
            b - 32
        } else {
            b
        };
        if u != name[i] {
            return false;
        }
        i = i + 1;
    }
    true
}

/// The bytes of `v` if it is a non-null bulk string.
fn bulk_of(v: &RespValue) -> (r: Option<Vec<u8>>)
    ensures
        r is Some <==> bulk_arg(v@),
        r matches Some(b) ==> b@ == bulk_bytes(v@),
{
    match v {
        RespValue::BulkString(Some(b)) => Some(b.clone()),
        _ => None,
    }
}

fn reject(msg: &str) -> (r: Command)
    ensures
        r@ == Request::Reject(msg@),
{
    Command::Reject(msg.to_string())
}

impl Command {
    /// Reads the command that a decoded frame carries. The verb is matched
    /// without regard to ASCII case; keys and values are taken as they are.
    pub fn from_frame(frame: &RespValue) -> (r: Command)
        ensures
            r@ == request_of(frame@),
    {
        let parts = match frame {
            RespValue::Array(parts) => parts,
            _ => {
                return reject("invalid command");
            },
        };
        let ghost m = frame@->Array_0;
        assert(m.len() == parts@.len());
        if parts.len() < 1 {
            return reject("invalid command");
        }
        let verb = match bulk_of(&parts[0]) {
            Some(verb) => verb,
            None => {
                return reject("invalid command");
            },
        };
        let get: [u8; 3] = [71u8, 69u8, 84u8];
        let set: [u8; 3] = [83u8, 69u8, 84u8];
        let del: [u8; 3] = [68u8, 69u8, 76u8];
        proof {
            assert(get@ =~= get_name());
            assert(set@ =~= set_name());
            assert(del@ =~= del_name());
        }
        if verb_matches(&verb, get.as_slice()) {
            if parts.len() == 2 {
                if let Some(key) = bulk_of(&parts[1]) {
                    return Command::Get(key);
                }
            }
            reject("Invalid GET command")
        } else if verb_matches(&verb, set.as_slice()) {
            if parts.len() == 3 {
                if let Some(key) = bulk_of(&parts[1]) {
                    if let Some(value) = bulk_of(&parts[2]) {
                        return Command::Put(key, value);
                    }
                }
            }
            reject("Invalid SET command")
        } else if verb_matches(&verb, del.as_slice()) {
            if parts.len() == 2 {
                if let Some(key) = bulk_of(&parts[1]) {
                    return Command::Del(key);
                }
            }
            reject("Invalid DEL command")
        } else {
            reject("unknown command")
        }
    }

    /// Whether running this command changes the store.
    pub fn needs_write(&self) -> (r: bool)
        ensures
            r == writes(self@),
    {
        match self {
            Command::Put(_, _) | Command::Del(_) => true,
            _ => false,
        }
    }

    /// Runs the command against `store` and gives the reply.
    pub fn apply(self, store: &mut Store) -> (r: RespValue)
        ensures
            (r@, final(store)@) == respond(self@, old(store)@),
    {
        match self {
            Command::Get(key) => match store.get(key.as_slice()) {
                Some(v) => RespValue::BulkString(Some(v)),
                None => RespValue::BulkString(None),
            },
            Command::Put(key, value) => {
                store.set(key, value);
                RespValue::SimpleString("OK".to_string())
            },
            Command::Del(key) => {
                store.delete(key.as_slice());
                RespValue::SimpleString("OK".to_string())
            },
            Command::Reject(msg) => RespValue::Error(msg),
        }
    }

    /// The reply to a command that only reads; the store is left alone.
    pub fn answer(&self, store: &Store) -> (r: RespValue)
        requires
            !writes(self@),
        ensures
            r@ == respond(self@, store@).0,
    {
        match self {
            Command::Get(key) => match store.get(key.as_slice()) {
                Some(v) => RespValue::BulkString(Some(v)),
                None => RespValue::BulkString(None),
            },
            Command::Reject(msg) => RespValue::Error(msg.clone()),
            _ => RespValue::Error("invalid command".to_string()),
        }
    }
}

/// Runs the command that `command` carries against `store` and gives the
/// reply. A malformed command changes nothing and is answered with an error.
pub fn handle_command(command: RespValue, store: &mut Store) -> (r: RespValue)
    ensures
        (r@, final(store)@) == respond(request_of(command@), old(store)@),
{
    let cmd = Command::from_frame(&command);
    cmd.apply(store)
}

/// The reply sent to a connection that waited too long for a free slot.
pub fn busy_reply() -> (r: RespValue)
    ensures
        r@ == Frame::Error("Server is busy. Try again later."@),
{
    RespValue::Error("Server is busy. Try again later.".to_string())
}

} // verus!
