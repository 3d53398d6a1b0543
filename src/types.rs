use vstd::prelude::*;
use vstd::string::StringSliceAdditionalSpecFns;
use vstd::utf8::encode_utf8;

use crate::parser::is_utf8;
use vstd::utf8::decode_utf8;

verus! {

/// A binary-safe string: keys and values of the store are byte strings.
#[derive(Clone, Debug, PartialEq, Eq, Hash)]
pub struct BulkString(pub Vec<u8>);

impl View for BulkString {
    type V = Seq<u8>;

    open spec fn view(&self) -> Seq<u8> {
        self.0@
    }
}

impl BulkString {
    /// Moves the bytes of `other` onto the end of `self`, leaving `other` empty.
    pub fn append(&mut self, other: &mut BulkString)
        ensures
            final(self)@ == old(self)@ + old(other)@,
            final(other)@ == Seq::<u8>::empty(),
    {
        self.0.append(&mut other.0);
    }
}

/// The mathematical form of a wire value.
pub enum Wire {
    Status(Seq<char>),
    Error(Seq<char>, Option<Seq<char>>),
    Integer(int),
    Bulk(Seq<u8>),
    Array(Seq<Wire>),
    Null,
}

/// A value of the wire protocol, used both for requests and responses.
#[derive(Debug)]
pub enum RespValue {
    SimpleString(String),
    Error(String, Option<String>),
    Integer(i64),
    BulkString(BulkString),
    Array(Vec<RespValue>),
    Null,
}

/// The model of a wire value.
pub open spec fn wire_of(v: RespValue) -> Wire
    decreases v,
{
    match v {
        RespValue::SimpleString(s) => Wire::Status(s@),
        RespValue::Error(code, detail) => Wire::Error(
            code@,
            match detail {
                Some(d) => Some(d@),
                None => None,
            },
        ),
        RespValue::Integer(n) => Wire::Integer(n as int),
        RespValue::BulkString(b) => Wire::Bulk(b@),
        RespValue::Array(items) => Wire::Array(
            Seq::new(
                items@.len(),
                |i: int|
                    if 0 <= i < items@.len() {
                        wire_of(items@[i])
                    } else {
                        Wire::Null
                    },
            ),
        ),
        RespValue::Null => Wire::Null,
    }
}

/// Relies on `std::str::from_utf8`: it succeeds exactly on well-formed UTF-8, and the text
/// it gives is made of those bytes.
#[verifier::external_body]
fn utf8_str(b: &[u8]) -> (r: Option<&str>)
    ensures
        r is Some <==> is_utf8(b@),
        r matches Some(s) ==> s.spec_bytes() == b@,
{
    std::str::from_utf8(b).ok()
}

impl RespValue {
    /// The text of a status string, or of a bulk string that is well-formed UTF-8.
    pub fn as_str(&self) -> (r: Option<&str>)
        ensures
            match self {
                RespValue::SimpleString(v) => r matches Some(s) && s@ == v@,
                RespValue::BulkString(b) => (r is Some <==> is_utf8(b@)) && (r matches Some(s)
                    ==> s.spec_bytes() == b@),
                _ => r is None,
            },
    {
        match self {
            RespValue::SimpleString(value) => Some(value.as_str()),
            RespValue::BulkString(value) => utf8_str(value.0.as_slice()),
            _ => None,
        }
    }

    /// An owned copy of the text that `as_str` gives.
    pub fn to_string(&self) -> (r: Option<String>)
        ensures
            match self {
                RespValue::SimpleString(v) => r matches Some(s) && s@ == v@,
                RespValue::BulkString(b) => (r is Some <==> is_utf8(b@)) && (r matches Some(s)
                    ==> encode_utf8(s@) == b@),
                _ => r is None,
            },
    {
        match self.as_str() {
            Some(text) => Some(text.to_owned()),
            None => None,
        }
    }
}

impl View for RespValue {
    type V = Wire;

    open spec fn view(&self) -> Wire {
        wire_of(*self)
    }
}

/// A request that the store understands, with its arguments.
#[derive(Debug)]
pub enum RedisCmd {
    Ping(Option<BulkString>),
    Get(BulkString),
    Delete(Vec<BulkString>),
    SetKey(BulkString, BulkString),
    Append(BulkString, BulkString),
    Keys(BulkString),
    Exists(BulkString),
    FlushAll,
    Command,
}

/// The model of a request.
pub enum Op {
    Ping(Option<Seq<u8>>),
    Get(Seq<u8>),
    Delete(Seq<Seq<u8>>),
    SetKey(Seq<u8>, Seq<u8>),
    Append(Seq<u8>, Seq<u8>),
    Keys(Seq<u8>),
    Exists(Seq<u8>),
    FlushAll,
    Command,
}

impl View for RedisCmd {
    type V = Op;

    open spec fn view(&self) -> Op {
        match self {
            RedisCmd::Ping(p) => Op::Ping(
                match p {
                    Some(b) => Some(b@),
                    None => None,
                },
            ),
            RedisCmd::Get(k) => Op::Get(k@),
            RedisCmd::Delete(ks) => Op::Delete(ks@.map_values(|k: BulkString| k@)),
            RedisCmd::SetKey(k, v) => Op::SetKey(k@, v@),
            RedisCmd::Append(k, v) => Op::Append(k@, v@),
            RedisCmd::Keys(p) => Op::Keys(p@),
            RedisCmd::Exists(k) => Op::Exists(k@),
            RedisCmd::FlushAll => Op::FlushAll,
            RedisCmd::Command => Op::Command,
        }
    }
}

/// Why a request is not one that the store understands.
#[derive(Debug, PartialEq, Eq)]
pub enum CmdError {
    NotAnArray,
    NoCommand,
    NotEnoughArguments,
    InvalidArgument,
    UnknownCommand,
}

/// What `str::to_uppercase` gives for a text.
pub uninterp spec fn upper_of(s: Seq<char>) -> Seq<char>;

/// Relies on `str::to_uppercase`: the upper-case form depends on the characters alone.
#[verifier::external_body]
fn to_upper(s: &str) -> (r: String)
    ensures
        r@ == upper_of(s@),
{
    s.to_uppercase()
}

/// The UTF-8 bytes of a command word's text in upper case; nothing where the word is not
/// text.
pub open spec fn command_name(word: Seq<u8>) -> Seq<u8> {
    if is_utf8(word) {
        encode_utf8(upper_of(decode_utf8(word)))
    } else {
        Seq::empty()
    }
}

/// The argument at `i`, which must be a bulk string.
pub open spec fn arg_at(args: Seq<Wire>, i: int) -> Result<Seq<u8>, CmdError> {
    if i >= args.len() {
        Err(CmdError::NotEnoughArguments)
    } else {
        match args[i] {
            Wire::Bulk(b) => Ok(b),
            _ => Err(CmdError::InvalidArgument),
        }
    }
}

pub open spec fn one_arg(args: Seq<Wire>) -> Result<Seq<u8>, CmdError> {
    arg_at(args, 0)
}

pub open spec fn two_args(args: Seq<Wire>) -> Result<(Seq<u8>, Seq<u8>), CmdError> {
    match arg_at(args, 0) {
        Err(e) => Err(e),
        Ok(a) => match arg_at(args, 1) {
            Err(e) => Err(e),
            Ok(b) => Ok((a, b)),
        },
    }
}

pub open spec fn is_bulk(w: Wire) -> bool {
    w is Bulk
}

/// What the command `name` asks of the store, given its arguments.
pub open spec fn interpret_named(name: Seq<u8>, args: Seq<Wire>) -> Result<Op, CmdError> {
    if name.len() == 0 {
        Err(CmdError::NoCommand)
    } else if name == seq![71u8, 69, 84] {
        match one_arg(args) {
            Ok(k) => Ok(Op::Get(k)),
            Err(e) => Err(e),
        }
    } else if name == seq![83u8, 69, 84] {
        match two_args(args) {
            Ok((k, v)) => Ok(Op::SetKey(k, v)),
            Err(e) => Err(e),
        }
    } else if name == seq![68u8, 69, 76] {
        if args.len() == 0 {
            Err(CmdError::NotEnoughArguments)
        } else if forall|i: int| 0 <= i < args.len() ==> is_bulk(#[trigger] args[i]) {
            Ok(Op::Delete(args.map_values(|a: Wire| a->Bulk_0)))
        } else {
            Err(CmdError::InvalidArgument)
        }
    } else if name == seq![65u8, 80, 80, 69, 78, 68] {
        match two_args(args) {
            Ok((k, v)) => Ok(Op::Append(k, v)),
            Err(e) => Err(e),
        }
    } else if name == seq![80u8, 73, 78, 71] {
        if args.len() == 0 {
            Ok(Op::Ping(None))
        } else {
            match one_arg(args) {
                Ok(m) => Ok(Op::Ping(Some(m))),
                Err(e) => Err(e),
            }
        }
    } else if name == seq![75u8, 69, 89, 83] {
        match one_arg(args) {
            Ok(p) => Ok(Op::Keys(p)),
            Err(e) => Err(e),
        }
    } else if name == seq![69u8, 88, 73, 83, 84, 83] {
        match one_arg(args) {
            Ok(k) => Ok(Op::Exists(k)),
            Err(e) => Err(e),
        }
    } else if name == seq![70u8, 76, 85, 83, 72, 65, 76, 76] {
        Ok(Op::FlushAll)
    } else if name == seq![67u8, 79, 77, 77, 65, 78, 68] {
        Ok(Op::Command)
    } else {
        Err(CmdError::UnknownCommand)
    }
}

/// What a request asks of the store: an array whose first element names the command and
/// whose next elements are its arguments. Arguments past those a command takes are
/// ignored.
pub open spec fn interpret(w: Wire) -> Result<Op, CmdError> {
    match w {
        Wire::Array(items) => if items.len() == 0 {
            Err(CmdError::NoCommand)
        } else {
            match items[0] {
                Wire::Bulk(word) => interpret_named(command_name(word), items.drop_first()),
                _ => Err(CmdError::InvalidArgument),
            }
        },
        _ => Err(CmdError::NotAnArray),
    }
}

/// Whether two byte strings are equal.
fn same_bytes(a: &[u8], b: &[u8]) -> (r: bool)
    ensures
        r == (a@ == b@),
{
    if a.len() != b.len() {
        return false;
    }
    let mut i: usize = 0;
    while i < a.len()
        invariant
            i <= a@.len() == b@.len(),
            forall|j: int| 0 <= j < i ==> a@[j] == b@[j],
        decreases a@.len() - i,
    {
        if a[i] != b[i] {
            return false;
        }
        i = i + 1;
    }
    assert(a@ =~= b@);
    true
}

proof fn lemma_wires_drop_first(vs: Seq<RespValue>)
    requires
        vs.len() > 0,
    ensures
        wires(vs.drop_first()) == wires(vs).drop_first(),
{
    assert(wires(vs.drop_first()) =~= wires(vs).drop_first());
}

/// Takes the front argument off `args`; it must be a bulk string.
pub fn get_next_value(args: &mut Vec<RespValue>) -> (r: Result<BulkString, CmdError>)
    ensures
        old(args)@.len() > 0 ==> final(args)@ == old(args)@.drop_first(),
        old(args)@.len() == 0 ==> final(args)@ == old(args)@,
        match r {
            Ok(b) => arg_at(wires(old(args)@), 0) == Ok::<Seq<u8>, CmdError>(b@),
            Err(e) => arg_at(wires(old(args)@), 0) == Err::<Seq<u8>, CmdError>(e),
        },
{
    if args.len() == 0 {
        return Err(CmdError::NotEnoughArguments);
    }
    let first = args.remove(0);
    assert(args@ =~= old(args)@.drop_first());
    match first {
        RespValue::BulkString(b) => Ok(b),
        _ => Err(CmdError::InvalidArgument),
    }
}

/// Takes the argument at `i` out of `args`, leaving a null value in its place.
fn take_at(args: &mut Vec<RespValue>, i: usize) -> (r: Result<BulkString, CmdError>)
    requires
        i < old(args)@.len(),
    ensures
        final(args)@.len() == old(args)@.len(),
        forall|j: int| 0 <= j < old(args)@.len() && j != i ==> final(args)@[j] == old(args)@[j],
        match r {
            Ok(b) => arg_at(wires(old(args)@), i as int) == Ok::<Seq<u8>, CmdError>(b@),
            Err(e) => arg_at(wires(old(args)@), i as int) == Err::<Seq<u8>, CmdError>(e),
        },
{
    let mut taken = RespValue::Null;
    std::mem::swap(&mut taken, &mut args[i]);
    match taken {
        RespValue::BulkString(b) => Ok(b),
        _ => Err(CmdError::InvalidArgument),
    }
}

/// Takes every argument as a key.
fn take_keys(args: &mut Vec<RespValue>) -> (r: Result<Vec<BulkString>, CmdError>)
    ensures
        ({
            let w = wires(old(args)@);
            match r {
                Ok(keys) => (forall|i: int| 0 <= i < w.len() ==> is_bulk(#[trigger] w[i]))
                    && keys@.map_values(|k: BulkString| k@) == w.map_values(|a: Wire| a->Bulk_0),
                Err(e) => e == CmdError::InvalidArgument && !(forall|i: int|
                    0 <= i < w.len() ==> is_bulk(#[trigger] w[i])),
            }
        }),
{
    let ghost orig = wires(args@);
    let mut keys: Vec<BulkString> = Vec::new();
    let mut i: usize = 0;
    while i < args.len()
        invariant
            i <= args@.len() == orig.len(),
            orig == wires(old(args)@),
            forall|j: int| i <= j < orig.len() ==> wires(args@)[j] == orig[j],
            keys@.len() == i,
            forall|j: int| 0 <= j < i ==> #[trigger] orig[j] == Wire::Bulk(keys@[j]@),
        decreases args@.len() - i,
    {
        match take_at(args, i) {
            Ok(k) => {
                keys.push(k);
            },
            Err(e) => {
                assert(!is_bulk(orig[i as int]));
                return Err(CmdError::InvalidArgument);
            },
        }
        assert forall|j: int| i + 1 <= j < orig.len() implies wires(args@)[j] == orig[j] by {}
        i = i + 1;
    }
    assert(forall|j: int| 0 <= j < orig.len() ==> is_bulk(#[trigger] orig[j]));
    assert(keys@.map_values(|k: BulkString| k@) =~= orig.map_values(|a: Wire| a->Bulk_0));
    Ok(keys)
}

/// Takes the two front arguments.
fn take_two(args: &mut Vec<RespValue>) -> (r: Result<(BulkString, BulkString), CmdError>)
    ensures
        match r {
            Ok((a, b)) => two_args(wires(old(args)@)) == Ok::<(Seq<u8>, Seq<u8>), CmdError>((a@, b@)),
            Err(e) => two_args(wires(old(args)@)) == Err::<(Seq<u8>, Seq<u8>), CmdError>(e),
        },
{
    let ghost orig = args@;
    match get_next_value(args) {
        Ok(a) => {
            proof {
                lemma_wires_drop_first(orig);
            }
            assert(arg_at(wires(args@), 0) == arg_at(wires(orig), 1));
            match get_next_value(args) {
                Ok(b) => Ok((a, b)),
                Err(e) => Err(e),
            }
        },
        Err(e) => Err(e),
    }
}

/// The command whose upper-case name is `name`, with its arguments taken from `args`.
pub fn command_from_name(name: &str, args: Vec<RespValue>) -> (r: Result<RedisCmd, CmdError>)
    ensures
        match r {
            Ok(c) => interpret_named(name.spec_bytes(), wires(args@)) == Ok::<Op, CmdError>(c@),
            Err(e) => interpret_named(name.spec_bytes(), wires(args@)) == Err::<Op, CmdError>(e),
        },
{
    let mut args = args;
    let ghost w = wires(args@);
    let word = name.as_bytes();
    assert([71u8, 69, 84]@ == seq![71u8, 69, 84]);
    assert([83u8, 69, 84]@ == seq![83u8, 69, 84]);
    assert([68u8, 69, 76]@ == seq![68u8, 69, 76]);
    assert([65u8, 80, 80, 69, 78, 68]@ == seq![65u8, 80, 80, 69, 78, 68]);
    assert([80u8, 73, 78, 71]@ == seq![80u8, 73, 78, 71]);
    assert([75u8, 69, 89, 83]@ == seq![75u8, 69, 89, 83]);
    assert([69u8, 88, 73, 83, 84, 83]@ == seq![69u8, 88, 73, 83, 84, 83]);
    assert([70u8, 76, 85, 83, 72, 65, 76, 76]@ == seq![70u8, 76, 85, 83, 72, 65, 76, 76]);
    assert([67u8, 79, 77, 77, 65, 78, 68]@ == seq![67u8, 79, 77, 77, 65, 78, 68]);
    if word.len() == 0 {
        Err(CmdError::NoCommand)
    } else if same_bytes(word, &[71, 69, 84]) {
        match get_next_value(&mut args) {
            Ok(k) => Ok(RedisCmd::Get(k)),
            Err(e) => Err(e),
        }
    } else if same_bytes(word, &[83, 69, 84]) {
        match take_two(&mut args) {
            Ok((k, v)) => Ok(RedisCmd::SetKey(k, v)),
            Err(e) => Err(e),
        }
    } else if same_bytes(word, &[68, 69, 76]) {
        if args.len() == 0 {
            Err(CmdError::NotEnoughArguments)
        } else {
            match take_keys(&mut args) {
                Ok(keys) => Ok(RedisCmd::Delete(keys)),
                Err(e) => Err(e),
            }
        }
    } else if same_bytes(word, &[65, 80, 80, 69, 78, 68]) {
        match take_two(&mut args) {
            Ok((k, v)) => Ok(RedisCmd::Append(k, v)),
            Err(e) => Err(e),
        }
    } else if same_bytes(word, &[80, 73, 78, 71]) {
        if args.len() == 0 {
            Ok(RedisCmd::Ping(None))
        } else {
            match get_next_value(&mut args) {
                Ok(m) => Ok(RedisCmd::Ping(Some(m))),
                Err(e) => Err(e),
            }
        }
    } else if same_bytes(word, &[75, 69, 89, 83]) {
        match get_next_value(&mut args) {
            Ok(p) => Ok(RedisCmd::Keys(p)),
            Err(e) => Err(e),
        }
    } else if same_bytes(word, &[69, 88, 73, 83, 84, 83]) {
        match get_next_value(&mut args) {
            Ok(k) => Ok(RedisCmd::Exists(k)),
            Err(e) => Err(e),
        }
    } else if same_bytes(word, &[70, 76, 85, 83, 72, 65, 76, 76]) {
        Ok(RedisCmd::FlushAll)
    } else if same_bytes(word, &[67, 79, 77, 77, 65, 78, 68]) {
        Ok(RedisCmd::Command)
    } else {
        Err(CmdError::UnknownCommand)
    }
}

impl RedisCmd {
    /// Reads a request as a command of the store, or says why it is not one. The command
    /// word is read as text and put in upper case.
    pub fn try_from(resp: RespValue) -> (r: Result<RedisCmd, CmdError>)
        ensures
            match r {
                Ok(c) => interpret(resp@) == Ok::<Op, CmdError>(c@),
                Err(e) => interpret(resp@) == Err::<Op, CmdError>(e),
            },
    {
        let ghost w = resp@;
        let mut items = match resp {
            RespValue::Array(items) => items,
            _ => {
                return Err(CmdError::NotAnArray);
            },
        };
        let ghost orig = wires(items@);
        assert(w->Array_0 =~= orig);
        if items.len() == 0 {
            return Err(CmdError::NoCommand);
        }
        proof {
            lemma_wires_drop_first(items@);
        }
        let ghost before = items@;
        let first = items.remove(0);
        assert(items@ =~= before.drop_first());
        match first {
            RespValue::BulkString(word) => match utf8_str(word.0.as_slice()) {
                Some(text) => {
                    proof {
                        vstd::utf8::encode_utf8_decode_utf8(text@);
                    }
                    let upper = to_upper(text);
                    command_from_name(upper.as_str(), items)
                },
                None => {
                    proof {
                        reveal_strlit("");
                        assert(""@ =~= Seq::<char>::empty());
                        assert(encode_utf8(Seq::<char>::empty()) =~= Seq::<u8>::empty());
                    }
                    command_from_name("", items)
                },
            },
            _ => Err(CmdError::InvalidArgument),
        }
    }
}

/// The models of a run of values.
pub open spec fn wires(vs: Seq<RespValue>) -> Seq<Wire> {
    Seq::new(vs.len(), |i: int| wire_of(vs[i]))
}

} // verus!
