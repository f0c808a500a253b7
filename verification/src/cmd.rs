//! The command layer: mapping a decoded array of bulk strings onto the
//! small command set and executing it against the in-memory store.
use vstd::prelude::*;

verus! {

use crate::backend::assoc;
use crate::backend::fold_from_empty_fields;
use crate::backend::Backend;
use crate::frame::arr_view;
use crate::frame::frame_view;
use crate::frame::lemma_arr_view;
use crate::frame::RespArray;
use crate::frame::RespError;
use crate::frame::RespFrame;
use crate::model::lower;
use crate::model::FrameVal;
use crate::scan::lower_exec;
use vstd::string::StringExecFns;
use vstd::utf8::decode_utf8;
use vstd::utf8::encode_utf8;
use vstd::utf8::valid_utf8;

/// A command-layer failure: a frame that is not a command, a bad argument
/// shape, a decode failure passed through, or argument bytes that are not
/// text.
#[derive(Debug)]
pub enum CommandError {
    InvalidCommand(String),
    InvalidArgument(String),
    RespError(RespError),
    Utf8Error(String),
}

/// Relies on `String::from_utf8`: it succeeds exactly on valid UTF-8 and
/// yields exactly those bytes' characters.
#[verifier::external_body]
fn string_from_utf8(b: Vec<u8>) -> (r: Option<String>)
    ensures
        match r {
            Some(s) => valid_utf8(b@) && s@ == decode_utf8(b@),
            None => !valid_utf8(b@),
        },
{
    match String::from_utf8(b) {
        Ok(s) => Some(s),
        Err(_) => None,
    }
}

/// Each byte mapped through ASCII lowercasing.
pub open spec fn bytes_lower(s: Seq<u8>) -> Seq<u8> {
    Seq::new(s.len(), |i: int| lower(s[i]))
}

/// Whether the lowercased bytes equal the UTF-8 of `name`.
fn lower_eq(b: &[u8], name: &str) -> (r: bool)
    ensures
        r == (bytes_lower(b@) == encode_utf8(name@)),
{
    let nb = name.as_bytes();
    if b.len() != nb.len() {
        proof {
            assert(bytes_lower(b@).len() == b@.len());
        }
        return false;
    }
    let mut i: usize = 0;
    #[verifier::loop_isolation(false)]
    while i < b.len()
        invariant
            i <= b@.len(),
            forall|j: int| 0 <= j < i ==> lower(b@[j]) == nb@[j],
        decreases b@.len() - i,
    {
        if lower_exec(b[i]) != nb[i] {
            proof {
                assert(bytes_lower(b@)[i as int] == lower(b@[i as int]));
            }
            return false;
        }
        i = i + 1;
    }
    proof {
        assert(bytes_lower(b@) =~= nb@);
    }
    true
}

/// Token `i` of a command array names `name` case-insensitively.
pub open spec fn name_token(fs: Seq<FrameVal>, i: int, name: Seq<char>) -> bool {
    fs[i] is BulkString && bytes_lower(fs[i]->BulkString_0) == encode_utf8(name)
}

/// A frame usable as a text argument: a bulk string holding valid UTF-8.
pub open spec fn is_text_arg(fv: FrameVal) -> bool {
    fv is BulkString && valid_utf8(fv->BulkString_0)
}

/// Whether the leading token names one of the five recognized commands,
/// case-insensitively.
pub open spec fn known_name(fs: Seq<FrameVal>) -> bool {
    ||| name_token(fs, 0, "get"@)
    ||| name_token(fs, 0, "set"@)
    ||| name_token(fs, 0, "hget"@)
    ||| name_token(fs, 0, "hset"@)
    ||| name_token(fs, 0, "hgetall"@)
}

/// The command arrays that interpretation accepts: a bulk-string head, and
/// where its lowercased name is recognized, that command's exact argument
/// count with text where text is required. An unrecognized name needs no
/// arguments at all: it is the permissive no-op.
pub open spec fn cmd_ok(fs: Seq<FrameVal>) -> bool {
    &&& fs.len() >= 1
    &&& fs[0] is BulkString
    &&& (name_token(fs, 0, "get"@) ==> fs.len() == 2 && is_text_arg(fs[1]))
    &&& (name_token(fs, 0, "set"@) ==> fs.len() == 3 && is_text_arg(fs[1]))
    &&& (name_token(fs, 0, "hget"@) ==> fs.len() == 3 && is_text_arg(fs[1]) && is_text_arg(
        fs[2],
    ))
    &&& (name_token(fs, 0, "hset"@) ==> fs.len() == 4 && is_text_arg(fs[1]) && is_text_arg(
        fs[2],
    ))
    &&& (name_token(fs, 0, "hgetall"@) ==> fs.len() == 2 && is_text_arg(fs[1]))
}

/// Which command an array interprets to: the command of its lowercased
/// leading name, carrying the decoded key, field and value arguments, or
/// the permissive no-op exactly when the name is none of the five.
pub open spec fn cmd_matches(fs: Seq<FrameVal>, c: Command) -> bool {
    match c {
        Command::Get(g) => name_token(fs, 0, "get"@) && fs.len() == 2 && is_text_arg(fs[1])
            && g.key@ == decode_utf8(fs[1]->BulkString_0),
        Command::SetCmd(g) => name_token(fs, 0, "set"@) && fs.len() == 3 && is_text_arg(fs[1])
            && g.key@ == decode_utf8(fs[1]->BulkString_0) && frame_view(g.value) == fs[2],
        Command::HGet(g) => name_token(fs, 0, "hget"@) && fs.len() == 3 && is_text_arg(fs[1])
            && is_text_arg(fs[2]) && g.key@ == decode_utf8(fs[1]->BulkString_0) && g.field@
            == decode_utf8(fs[2]->BulkString_0),
        Command::HSet(g) => name_token(fs, 0, "hset"@) && fs.len() == 4 && is_text_arg(fs[1])
            && is_text_arg(fs[2]) && g.key@ == decode_utf8(fs[1]->BulkString_0) && g.field@
            == decode_utf8(fs[2]->BulkString_0) && frame_view(g.value) == fs[3],
        Command::HGetAll(g) => name_token(fs, 0, "hgetall"@) && fs.len() == 2 && is_text_arg(
            fs[1],
        ) && g.key@ == decode_utf8(fs[1]->BulkString_0),
        Command::Unrecognized(_) => fs.len() >= 1 && fs[0] is BulkString && !known_name(fs),
    }
}

/// A leading token matches at most one name.
proof fn lemma_one_name(fs: Seq<FrameVal>, a: Seq<char>, b: Seq<char>)
    requires
        name_token(fs, 0, a),
        a != b,
    ensures
        !name_token(fs, 0, b),
{
    if name_token(fs, 0, b) {
        crate::model::lemma_key_eq(a, b);
    }
}

/// The five command names are pairwise distinct.
proof fn lemma_names_distinct()
    ensures
        "get"@ != "set"@,
        "get"@ != "hget"@,
        "get"@ != "hset"@,
        "get"@ != "hgetall"@,
        "set"@ != "hget"@,
        "set"@ != "hset"@,
        "set"@ != "hgetall"@,
        "hget"@ != "hset"@,
        "hget"@ != "hgetall"@,
        "hset"@ != "hgetall"@,
{
    reveal_strlit("get");
    reveal_strlit("set");
    reveal_strlit("hget");
    reveal_strlit("hset");
    reveal_strlit("hgetall");
    assert("get"@[0] != "set"@[0]);
    assert("get"@.len() != "hget"@.len());
    assert("get"@.len() != "hset"@.len());
    assert("get"@.len() != "hgetall"@.len());
    assert("set"@.len() != "hget"@.len());
    assert("set"@.len() != "hset"@.len());
    assert("set"@.len() != "hgetall"@.len());
    assert("hget"@[1] != "hset"@[1]);
    assert("hget"@.len() != "hgetall"@.len());
    assert("hset"@.len() != "hgetall"@.len());
}

/// The leading tokens of a command array: exactly `names.len() + n_args`
/// frames, each of the first `names.len()` a bulk string whose lowercased
/// bytes spell the corresponding name.
pub open spec fn heads_match(fs: Seq<FrameVal>, names: Seq<&str>, n_args: int) -> bool {
    &&& fs.len() == names.len() + n_args
    &&& forall|i: int|
        0 <= i < names.len() ==> (#[trigger] fs[i]) is BulkString && bytes_lower(
            fs[i]->BulkString_0,
        ) == encode_utf8(names[i]@)
}

/// Check that `value` has exactly `n_args` arguments after its command-name
/// tokens and that each token matches its expected name case-insensitively.
/// The argument count is checked first and a mismatch is an argument error;
/// a name token of the wrong kind or spelling is a command error.
#[verifier::loop_isolation(false)]
pub fn validate_command(value: &RespArray, names: &[&str], n_args: usize) -> (r: Result<
    (),
    CommandError,
>)
    ensures
        r is Ok <==> heads_match(value@, names@, n_args as int),
        r matches Err(e) ==> if value@.len() != names@.len() + n_args {
            e is InvalidArgument
        } else {
            e is InvalidCommand
        },
{
    proof {
        lemma_arr_view(value.0@);
    }
    let total = value.0.len();
    if n_args > total || names.len() != total - n_args {
        proof {
            assert(value@.len() != names@.len() + n_args);
        }
        return Err(
            CommandError::InvalidArgument(
                String::from_str("command must have exactly the declared arguments"),
            ),
        );
    }
    let mut i: usize = 0;
    while i < names.len()
        invariant
            i <= names@.len(),
            forall|j: int|
                0 <= j < i ==> (#[trigger] value@[j]) is BulkString && bytes_lower(
                    value@[j]->BulkString_0,
                ) == encode_utf8(names@[j]@),
        decreases names@.len() - i,
    {
        match &value.0[i] {
            RespFrame::BulkString(b) => {
                if !lower_eq(b.as_slice(), names[i]) {
                    return Err(
                        CommandError::InvalidCommand(
                            String::from_str("unexpected command name token"),
                        ),
                    );
                }
            },
            _ => {
                return Err(
                    CommandError::InvalidCommand(
                        String::from_str("command tokens must be bulk strings"),
                    ),
                );
            },
        }
        i = i + 1;
    }
    Ok(())
}

/// The frames of `value` from `start` on, in order.
pub fn extract_args(value: RespArray, start: usize) -> (r: Result<Vec<RespFrame>, CommandError>)
    ensures
        start <= value@.len() ==> (r matches Ok(v) && arr_view(v@) == value@.skip(start as int)),
        start > value@.len() ==> r is Err,
{
    proof {
        lemma_arr_view(value.0@);
    }
    if start > value.0.len() {
        return Err(CommandError::InvalidArgument(String::from_str("missing arguments")));
    }
    let mut v = value.0;
    let args = v.split_off(start);
    proof {
        lemma_arr_view(args@);
        crate::frame::lemma_arr_view(value.0@);
        assert forall|j: int| 0 <= j < args@.len() implies arr_view(args@)[j] == value@.skip(
            start as int,
        )[j] by {
            assert(args@[j] == value.0@[start + j]);
        }
        assert(arr_view(args@) =~= value@.skip(start as int));
    }
    Ok(args)
}

/// A read of one key.
#[derive(Debug)]
pub struct Get {
    pub key: String,
}

/// A write of one key.
#[derive(Debug)]
pub struct SetCmd {
    pub key: String,
    pub value: RespFrame,
}

/// A read of one field of a hash key.
#[derive(Debug)]
pub struct HGet {
    pub key: String,
    pub field: String,
}

/// A write of one field of a hash key.
#[derive(Debug)]
pub struct HSet {
    pub key: String,
    pub field: String,
    pub value: RespFrame,
}

/// A read of all fields of a hash key. The entries come back in key order,
/// so the reply is deterministic whether or not a caller asks for sorting.
#[derive(Debug)]
pub struct HGetAll {
    pub key: String,
    pub sort: bool,
}

/// A syntactically valid command array whose name is not recognized; it
/// executes as a no-op returning the canonical OK reply.
#[derive(Debug)]
pub struct Unrecognized;

/// One recognized command, or the permissive no-op.
#[derive(Debug)]
pub enum Command {
    Get(Get),
    SetCmd(SetCmd),
    HGet(HGet),
    HSet(HSet),
    HGetAll(HGetAll),
    Unrecognized(Unrecognized),
}

/// What a command may do to the store and reply with: each command type
/// states its exact effect through this trait's specification method.
pub trait CommandExecutor: Sized {
    /// The command's contract: how the store after the call and the reply
    /// relate to the store before it.
    spec fn exec_post(self, before: Backend, after: Backend, r: RespFrame) -> bool;

    fn execute(self, backend: &mut Backend) -> (r: RespFrame)
        ensures
            self.exec_post(*old(backend), *final(backend), r),
    ;
}

/// The canonical OK reply: a simple string `OK`.
pub fn resp_ok() -> (r: RespFrame)
    ensures
        frame_view(r) == FrameVal::SimpleString("OK"@),
{
    RespFrame::SimpleString(String::from_str("OK"))
}

impl CommandExecutor for Get {
    open spec fn exec_post(self, before: Backend, after: Backend, r: RespFrame) -> bool {
        &&& after.kv_entries() == before.kv_entries()
        &&& after.h_entries() == before.h_entries()
        &&& frame_view(r) == match assoc(before.kv_entries(), self.key@) {
            Some(v) => v,
            None => FrameVal::Null,
        }
    }

    fn execute(self, backend: &mut Backend) -> (r: RespFrame) {
        match backend.get(&self.key) {
            Some(f) => f,
            None => RespFrame::Null,
        }
    }
}

impl CommandExecutor for SetCmd {
    open spec fn exec_post(self, before: Backend, after: Backend, r: RespFrame) -> bool {
        &&& frame_view(r) == FrameVal::SimpleString("OK"@)
        &&& after.h_entries() == before.h_entries()
        &&& forall|q: Seq<char>| #[trigger]
            assoc(after.kv_entries(), q) == if q == self.key@ {
                Some(frame_view(self.value))
            } else {
                assoc(before.kv_entries(), q)
            }
    }

    fn execute(self, backend: &mut Backend) -> (r: RespFrame) {
        backend.set(self.key, self.value);
        resp_ok()
    }
}

impl CommandExecutor for HGet {
    open spec fn exec_post(self, before: Backend, after: Backend, r: RespFrame) -> bool {
        &&& after.kv_entries() == before.kv_entries()
        &&& after.h_entries() == before.h_entries()
        &&& frame_view(r) == match assoc(before.h_entries(), (self.key@, self.field@)) {
            Some(v) => v,
            None => FrameVal::Null,
        }
    }

    fn execute(self, backend: &mut Backend) -> (r: RespFrame) {
        match backend.hget(&self.key, &self.field) {
            Some(f) => f,
            None => RespFrame::Null,
        }
    }
}

impl CommandExecutor for HSet {
    open spec fn exec_post(self, before: Backend, after: Backend, r: RespFrame) -> bool {
        &&& frame_view(r) == FrameVal::SimpleString("OK"@)
        &&& after.kv_entries() == before.kv_entries()
        &&& forall|q: (Seq<char>, Seq<char>)| #[trigger]
            assoc(after.h_entries(), q) == if q == (self.key@, self.field@) {
                Some(frame_view(self.value))
            } else {
                assoc(before.h_entries(), q)
            }
    }

    fn execute(self, backend: &mut Backend) -> (r: RespFrame) {
        backend.hset(self.key, self.field, self.value);
        resp_ok()
    }
}

impl CommandExecutor for HGetAll {
    open spec fn exec_post(self, before: Backend, after: Backend, r: RespFrame) -> bool {
        &&& after.kv_entries() == before.kv_entries()
        &&& after.h_entries() == before.h_entries()
        &&& frame_view(r) == FrameVal::MapData(
            fold_from_empty_fields(before.h_entries(), self.key@),
        )
    }

    fn execute(self, backend: &mut Backend) -> (r: RespFrame) {
        let entries = backend.hgetall(&self.key);
        RespFrame::MapData(entries)
    }
}

impl CommandExecutor for Unrecognized {
    open spec fn exec_post(self, before: Backend, after: Backend, r: RespFrame) -> bool {
        &&& after.kv_entries() == before.kv_entries()
        &&& after.h_entries() == before.h_entries()
        &&& frame_view(r) == FrameVal::SimpleString("OK"@)
    }

    fn execute(self, backend: &mut Backend) -> (r: RespFrame) {
        resp_ok()
    }
}

impl CommandExecutor for Command {
    open spec fn exec_post(self, before: Backend, after: Backend, r: RespFrame) -> bool {
        match self {
            Command::Get(c) => c.exec_post(before, after, r),
            Command::SetCmd(c) => c.exec_post(before, after, r),
            Command::HGet(c) => c.exec_post(before, after, r),
            Command::HSet(c) => c.exec_post(before, after, r),
            Command::HGetAll(c) => c.exec_post(before, after, r),
            Command::Unrecognized(c) => c.exec_post(before, after, r),
        }
    }

    /// Execute this command against the store, returning the reply frame
    /// the caller encodes back to the transport.
    fn execute(self, backend: &mut Backend) -> (r: RespFrame) {
        match self {
            Command::Get(c) => c.execute(backend),
            Command::SetCmd(c) => c.execute(backend),
            Command::HGet(c) => c.execute(backend),
            Command::HSet(c) => c.execute(backend),
            Command::HGetAll(c) => c.execute(backend),
            Command::Unrecognized(c) => c.execute(backend),
        }
    }
}

impl Command {
    /// Interpret a decoded frame as a command: it must be an array whose
    /// first element is a bulk string naming the command; an unrecognized
    /// name is the permissive no-op command.
    pub fn try_from(v: RespFrame) -> (r: Result<Command, CommandError>)
        ensures
            !(frame_view(v) is Array) ==> (r matches Err(e) && e is InvalidCommand),
            frame_view(v) is Array ==> (r is Ok <==> cmd_ok(frame_view(v)->Array_0)),
            r matches Ok(c) ==> frame_view(v) is Array && cmd_matches(
                frame_view(v)->Array_0,
                c,
            ),
    {
        match v {
            RespFrame::Array(array) => Command::try_from_array(array),
            _ => Err(
                CommandError::InvalidCommand(String::from_str("Command must be an Array")),
            ),
        }
    }

    /// Interpret a decoded array as a command by its leading bulk string,
    /// matched case-insensitively: it succeeds exactly on the arrays
    /// `cmd_ok` describes, yields the command `cmd_matches` names, and
    /// rejects an empty array or a non-bulk-string head as an invalid
    /// command.
    pub fn try_from_array(v: RespArray) -> (r: Result<Command, CommandError>)
        ensures
            r is Ok <==> cmd_ok(v@),
            r matches Ok(c) ==> cmd_matches(v@, c),
            (v@.len() == 0 || !(v@[0] is BulkString)) ==> (r matches Err(e) && e
                is InvalidCommand),
    {
        proof {
            lemma_arr_view(v.0@);
            lemma_names_distinct();
        }
        if v.0.len() == 0 {
            return Err(
                CommandError::InvalidCommand(
                    String::from_str("Command must have a BulkString as the first argument"),
                ),
            );
        }
        match &v.0[0] {
            RespFrame::BulkString(b) => {
                if lower_eq(b.as_slice(), "get") {
                    proof {
                        assert(name_token(v@, 0, "get"@));
                        lemma_one_name(v@, "get"@, "set"@);
                        lemma_one_name(v@, "get"@, "hget"@);
                        lemma_one_name(v@, "get"@, "hset"@);
                        lemma_one_name(v@, "get"@, "hgetall"@);
                    }
                    Get::try_from_array(v)
                } else if lower_eq(b.as_slice(), "set") {
                    proof {
                        assert(name_token(v@, 0, "set"@));
                        lemma_one_name(v@, "set"@, "get"@);
                        lemma_one_name(v@, "set"@, "hget"@);
                        lemma_one_name(v@, "set"@, "hset"@);
                        lemma_one_name(v@, "set"@, "hgetall"@);
                    }
                    SetCmd::try_from_array(v)
                } else if lower_eq(b.as_slice(), "hget") {
                    proof {
                        assert(name_token(v@, 0, "hget"@));
                        lemma_one_name(v@, "hget"@, "get"@);
                        lemma_one_name(v@, "hget"@, "set"@);
                        lemma_one_name(v@, "hget"@, "hset"@);
                        lemma_one_name(v@, "hget"@, "hgetall"@);
                    }
                    HGet::try_from_array(v)
                } else if lower_eq(b.as_slice(), "hset") {
                    proof {
                        assert(name_token(v@, 0, "hset"@));
                        lemma_one_name(v@, "hset"@, "get"@);
                        lemma_one_name(v@, "hset"@, "set"@);
                        lemma_one_name(v@, "hset"@, "hget"@);
                        lemma_one_name(v@, "hset"@, "hgetall"@);
                    }
                    HSet::try_from_array(v)
                } else if lower_eq(b.as_slice(), "hgetall") {
                    proof {
                        assert(name_token(v@, 0, "hgetall"@));
                        lemma_one_name(v@, "hgetall"@, "get"@);
                        lemma_one_name(v@, "hgetall"@, "set"@);
                        lemma_one_name(v@, "hgetall"@, "hget"@);
                        lemma_one_name(v@, "hgetall"@, "hset"@);
                    }
                    HGetAll::try_from_array(v)
                } else {
                    proof {
                        assert(v@[0] == frame_view(v.0@[0]));
                        assert(!known_name(v@));
                    }
                    Ok(Command::Unrecognized(Unrecognized))
                }
            },
            _ => Err(
                CommandError::InvalidCommand(
                    String::from_str("Command must have a BulkString as the first argument"),
                ),
            ),
        }
    }
}

/// Take one bulk-string argument as text.
fn text_arg(f: RespFrame) -> (r: Result<String, CommandError>)
    ensures
        r matches Ok(s) ==> is_text_arg(frame_view(f)) && s@ == decode_utf8(
            frame_view(f)->BulkString_0,
        ),
        r is Err ==> !is_text_arg(frame_view(f)),
{
    match f {
        RespFrame::BulkString(b) => match string_from_utf8(b) {
            Some(s) => Ok(s),
            None => Err(CommandError::Utf8Error(String::from_str("argument is not text"))),
        },
        _ => Err(CommandError::InvalidArgument(String::from_str("argument must be a bulk string"))),
    }
}

impl Get {
    fn try_from_array(v: RespArray) -> (r: Result<Command, CommandError>)
        ensures
            r is Ok <==> v@.len() == 2 && name_token(v@, 0, "get"@) && is_text_arg(v@[1]),
            r matches Ok(c) ==> (c matches Command::Get(g) && g.key@ == decode_utf8(
                v@[1]->BulkString_0,
            )),
    {
        let names: &[&str] = &["get"];
        proof {
            assert(names@.len() == 1);
            assert(names@[0]@ == "get"@);
        }
        if let Err(e) = validate_command(&v, names, 1) {
            return Err(e);
        }
        let mut args = match extract_args(v, 1) {
            Ok(a) => a,
            Err(e) => {
                return Err(e);
            },
        };
        proof {
            lemma_arr_view(args@);
            assert(args@.len() == 1);
            assert(frame_view(args@[0]) == v@.skip(1)[0]);
        }
        let a0 = args.remove(0);
        let key = match text_arg(a0) {
            Ok(s) => s,
            Err(e) => {
                return Err(e);
            },
        };
        Ok(Command::Get(Get { key }))
    }
}

impl SetCmd {
    fn try_from_array(v: RespArray) -> (r: Result<Command, CommandError>)
        ensures
            r is Ok <==> v@.len() == 3 && name_token(v@, 0, "set"@) && is_text_arg(v@[1]),
            r matches Ok(c) ==> (c matches Command::SetCmd(g) && g.key@ == decode_utf8(
                v@[1]->BulkString_0,
            ) && frame_view(g.value) == v@[2]),
    {
        let names: &[&str] = &["set"];
        proof {
            assert(names@.len() == 1);
            assert(names@[0]@ == "set"@);
        }
        if let Err(e) = validate_command(&v, names, 2) {
            return Err(e);
        }
        let mut args = match extract_args(v, 1) {
            Ok(a) => a,
            Err(e) => {
                return Err(e);
            },
        };
        let ghost args0 = args@;
        proof {
            lemma_arr_view(args0);
            assert(args0.len() == 2);
            assert(frame_view(args0[0]) == v@.skip(1)[0]);
            assert(frame_view(args0[1]) == v@.skip(1)[1]);
            assert(args0.remove(0)[0] == args0[1]);
        }
        let a0 = args.remove(0);
        let value = args.remove(0);
        let key = match text_arg(a0) {
            Ok(s) => s,
            Err(e) => {
                return Err(e);
            },
        };
        Ok(Command::SetCmd(SetCmd { key, value }))
    }
}

impl HGet {
    fn try_from_array(v: RespArray) -> (r: Result<Command, CommandError>)
        ensures
            r is Ok <==> v@.len() == 3 && name_token(v@, 0, "hget"@) && is_text_arg(v@[1])
                && is_text_arg(v@[2]),
            r matches Ok(c) ==> (c matches Command::HGet(g) && g.key@ == decode_utf8(
                v@[1]->BulkString_0,
            ) && g.field@ == decode_utf8(v@[2]->BulkString_0)),
    {
        let names: &[&str] = &["hget"];
        proof {
            assert(names@.len() == 1);
            assert(names@[0]@ == "hget"@);
        }
        if let Err(e) = validate_command(&v, names, 2) {
            return Err(e);
        }
        let mut args = match extract_args(v, 1) {
            Ok(a) => a,
            Err(e) => {
                return Err(e);
            },
        };
        let ghost args0 = args@;
        proof {
            lemma_arr_view(args0);
            assert(args0.len() == 2);
            assert(frame_view(args0[0]) == v@.skip(1)[0]);
            assert(frame_view(args0[1]) == v@.skip(1)[1]);
            assert(args0.remove(0)[0] == args0[1]);
        }
        let a0 = args.remove(0);
        let a1 = args.remove(0);
        let key = match text_arg(a0) {
            Ok(s) => s,
            Err(e) => {
                return Err(e);
            },
        };
        let field = match text_arg(a1) {
            Ok(s) => s,
            Err(e) => {
                return Err(e);
            },
        };
        Ok(Command::HGet(HGet { key, field }))
    }
}

impl HSet {
    fn try_from_array(v: RespArray) -> (r: Result<Command, CommandError>)
        ensures
            r is Ok <==> v@.len() == 4 && name_token(v@, 0, "hset"@) && is_text_arg(v@[1])
                && is_text_arg(v@[2]),
            r matches Ok(c) ==> (c matches Command::HSet(g) && g.key@ == decode_utf8(
                v@[1]->BulkString_0,
            ) && g.field@ == decode_utf8(v@[2]->BulkString_0) && frame_view(g.value) == v@[3]),
    {
        let names: &[&str] = &["hset"];
        proof {
            assert(names@.len() == 1);
            assert(names@[0]@ == "hset"@);
        }
        if let Err(e) = validate_command(&v, names, 3) {
            return Err(e);
        }
        let mut args = match extract_args(v, 1) {
            Ok(a) => a,
            Err(e) => {
                return Err(e);
            },
        };
        let ghost args0 = args@;
        proof {
            lemma_arr_view(args0);
            assert(args0.len() == 3);
            assert(frame_view(args0[0]) == v@.skip(1)[0]);
            assert(frame_view(args0[1]) == v@.skip(1)[1]);
            assert(frame_view(args0[2]) == v@.skip(1)[2]);
            assert(args0.remove(0)[0] == args0[1]);
            assert(args0.remove(0).remove(0)[0] == args0[2]);
        }
        let a0 = args.remove(0);
        let a1 = args.remove(0);
        let value = args.remove(0);
        let key = match text_arg(a0) {
            Ok(s) => s,
            Err(e) => {
                return Err(e);
            },
        };
        let field = match text_arg(a1) {
            Ok(s) => s,
            Err(e) => {
                return Err(e);
            },
        };
        Ok(Command::HSet(HSet { key, field, value }))
    }
}

impl HGetAll {
    fn try_from_array(v: RespArray) -> (r: Result<Command, CommandError>)
        ensures
            r is Ok <==> v@.len() == 2 && name_token(v@, 0, "hgetall"@) && is_text_arg(v@[1]),
            r matches Ok(c) ==> (c matches Command::HGetAll(g) && g.key@ == decode_utf8(
                v@[1]->BulkString_0,
            )),
    {
        let names: &[&str] = &["hgetall"];
        proof {
            assert(names@.len() == 1);
            assert(names@[0]@ == "hgetall"@);
        }
        if let Err(e) = validate_command(&v, names, 1) {
            return Err(e);
        }
        let mut args = match extract_args(v, 1) {
            Ok(a) => a,
            Err(e) => {
                return Err(e);
            },
        };
        proof {
            lemma_arr_view(args@);
            assert(args@.len() == 1);
            assert(frame_view(args@[0]) == v@.skip(1)[0]);
        }
        let a0 = args.remove(0);
        let key = match text_arg(a0) {
            Ok(s) => s,
            Err(e) => {
                return Err(e);
            },
        };
        Ok(Command::HGetAll(HGetAll { key, sort: true }))
    }
}

} // verus!
