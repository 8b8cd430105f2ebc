//! The wire protocol between client and server.
//!
//! A request is `<length>\r\n<payload>`, where `<length>` is the decimal byte
//! length of the payload and the payload is the opcode and its operands, each
//! ended by `\r\n`. A reply is one line: a value or one of the reserved
//! replies.
use vstd::prelude::*;
use vstd::slice::{slice_subrange, slice_to_vec};
use vstd::string::StringSliceAdditionalSpecFns;
use vstd::utf8::*;

use crate::codec::string_from_utf8;
use crate::decimal::{all_digits, decimal, digits_value, parse_digits, to_decimal};
use crate::error::HobbesError;

verus! {

/// The lines of `b` between `start` and the end, scanning from `i`: split at
/// each `\r\n`, from left to right.
pub open spec fn split_from(b: Seq<u8>, start: int, i: int) -> Seq<Seq<u8>>
    decreases b.len() - i,
{
    if !(0 <= start <= i <= b.len()) {
        Seq::empty()
    } else if i + 1 < b.len() && b[i] == 13u8 && b[i + 1] == 10u8 {
        seq![b.subrange(start, i)] + split_from(b, i + 2, i + 2)
    } else if i + 1 < b.len() {
        split_from(b, start, i + 1)
    } else {
        seq![b.subrange(start, b.len() as int)]
    }
}

/// The pieces of `b` between the `\r\n` separators.
pub open spec fn split_crlf(b: Seq<u8>) -> Seq<Seq<u8>> {
    split_from(b, 0, 0)
}

pub open spec fn views(s: Seq<Vec<u8>>) -> Seq<Seq<u8>> {
    s.map_values(|v: Vec<u8>| v@)
}

pub open spec fn string_views(s: Seq<String>) -> Seq<Seq<char>> {
    s.map_values(|v: String| v@)
}

/// Splits `b` at each `\r\n`.
pub fn split_lines(b: &[u8]) -> (r: Vec<Vec<u8>>)
    ensures
        views(r@) == split_crlf(b@),
{
    let mut out: Vec<Vec<u8>> = Vec::new();
    let mut start: usize = 0;
    let mut i: usize = 0;
    while b.len() - i > 1
        invariant
            start <= i <= b@.len(),
            views(out@) + split_from(b@, start as int, i as int) == split_crlf(b@),
        decreases b@.len() - i,
    {
        if b[i] == 13u8 && b[i + 1] == 10u8 {
            let piece = slice_to_vec(slice_subrange(b, start, i));
            let ghost before = out@;
            out.push(piece);
            proof {
                assert(views(out@) =~= views(before).push(piece@));
                assert(views(before) + split_from(b@, start as int, i as int) == views(before) + (
                seq![piece@] + split_from(b@, i + 2, i + 2)));
                assert(views(before) + (seq![piece@] + split_from(b@, i + 2, i + 2)) =~= views(
                    before,
                ).push(piece@) + split_from(b@, i + 2, i + 2));
            }
            i = i + 2;
            start = i;
        } else {
            i = i + 1;
        }
    }
    let last = slice_to_vec(slice_subrange(b, start, b.len()));
    let ghost before = out@;
    out.push(last);
    proof {
        assert(split_from(b@, start as int, i as int) == seq![last@]);
        assert(views(out@) =~= views(before) + seq![last@]);
    }
    out
}

/// The payload length that a request's first line gives: decimal digits
/// followed by `\r\n`.
pub fn parse_length_line(line: &str) -> (r: Option<usize>)
    ensures
        r is Some <==> line@.len() >= 2 && line@[line@.len() - 2] == '\r' && line@[line@.len() - 1]
            == '\n' && line@.len() > 2 && all_digits(line@.subrange(0, line@.len() - 2))
            && digits_value(line@.subrange(0, line@.len() - 2)) <= usize::MAX,
        r matches Some(n) ==> n == digits_value(line@.subrange(0, line@.len() - 2)),
{
    let n = line.unicode_len();
    if n < 2 || line.get_char(n - 2) != '\r' || line.get_char(n - 1) != '\n' {
        return None;
    }
    let digits = line.substring_char(0, n - 2);
    match parse_digits(digits) {
        Some(v) => {
            if v > usize::MAX as u64 {
                None
            } else {
                Some(v as usize)
            }
        },
        None => None,
    }
}

/// A request to the server.
#[derive(Debug)]
pub enum Request {
    Get(String),
    Store(String, String),
    Remove(String),
    /// An opcode the server does not know.
    Invalid(String),
}

/// The mathematical value of a [`Request`].
pub enum RequestView {
    Get(Seq<char>),
    Store(Seq<char>, Seq<char>),
    Remove(Seq<char>),
    Invalid(Seq<char>),
}

impl View for Request {
    type V = RequestView;

    open spec fn view(&self) -> RequestView {
        match self {
            Request::Get(k) => RequestView::Get(k@),
            Request::Store(k, v) => RequestView::Store(k@, v@),
            Request::Remove(k) => RequestView::Remove(k@),
            Request::Invalid(op) => RequestView::Invalid(op@),
        }
    }
}

pub open spec fn get_op() -> Seq<char> {
    seq!['G', 'E', 'T']
}

pub open spec fn set_op() -> Seq<char> {
    seq!['S', 'E', 'T']
}

pub open spec fn rm_op() -> Seq<char> {
    seq!['R', 'M']
}

/// The request that an opcode and its operands make; `None` where an
/// operand the opcode needs is missing.
pub open spec fn request_spec(op: Seq<char>, operands: Seq<Seq<char>>) -> Option<RequestView> {
    if op == get_op() {
        if operands.len() >= 1 {
            Some(RequestView::Get(operands[0]))
        } else {
            None
        }
    } else if op == set_op() {
        if operands.len() >= 2 {
            Some(RequestView::Store(operands[0], operands[1]))
        } else {
            None
        }
    } else if op == rm_op() {
        if operands.len() >= 1 {
            Some(RequestView::Remove(operands[0]))
        } else {
            None
        }
    } else {
        Some(RequestView::Invalid(op))
    }
}

/// The request that opcode `op` and `operands` make. A missing operand is a
/// `CliError`; extra operands are ignored.
pub fn request_from_tokens(op: &String, operands: &Vec<String>) -> (r: Result<Request, HobbesError>)
    ensures
        match request_spec(op@, string_views(operands@)) {
            Some(q) => r matches Ok(req) && req@ == q,
            None => r matches Err(e) && e is CliError,
        },
{
    proof {
        reveal_strlit("GET");
        reveal_strlit("SET");
        reveal_strlit("RM");
    }
    let g = "GET".to_string();
    let s = "SET".to_string();
    let m = "RM".to_string();
    assert(g@ =~= get_op());
    assert(s@ =~= set_op());
    assert(m@ =~= rm_op());
    let n = operands.len();
    if *op == g {
        if n >= 1 {
            Ok(Request::Get(operands[0].clone()))
        } else {
            Err(HobbesError::CliError("missing key in GET command".to_string()))
        }
    } else if *op == s {
        if n >= 2 {
            Ok(Request::Store(operands[0].clone(), operands[1].clone()))
        } else {
            Err(HobbesError::CliError("missing key or value in SET command".to_string()))
        }
    } else if *op == m {
        if n >= 1 {
            Ok(Request::Remove(operands[0].clone()))
        } else {
            Err(HobbesError::CliError("missing key in RM command".to_string()))
        }
    } else {
        Ok(Request::Invalid(op.clone()))
    }
}

/// What `str::trim` returns for a string.
pub uninterp spec fn trimmed(s: Seq<char>) -> Seq<char>;

/// Relies on `str::trim`: the string without its leading and trailing white
/// space, which depends on the characters alone.
#[verifier::external_body]
fn trim(s: &str) -> (r: String)
    ensures
        r@ == trimmed(s@),
{
    s.trim().to_string()
}

/// Whether every piece is UTF-8.
pub open spec fn all_utf8(toks: Seq<Seq<u8>>) -> bool {
    forall|i: int| 0 <= i < toks.len() ==> valid_utf8(#[trigger] toks[i])
}

/// The operands as the server reads them: each piece after the opcode,
/// decoded and trimmed.
pub open spec fn operands_of(toks: Seq<Seq<u8>>) -> Seq<Seq<char>> {
    toks.subrange(1, toks.len() as int).map_values(|t: Seq<u8>| trimmed(decode_utf8(t)))
}

/// Reads a request's payload: the opcode is the first piece before `\r\n`,
/// the operands the pieces after it, trimmed. A payload that is not UTF-8 is
/// a `NetworkError`; a missing operand a `CliError`.
pub fn parse_request(payload: &[u8]) -> (r: Result<Request, HobbesError>)
    ensures
        !all_utf8(split_crlf(payload@)) ==> (r matches Err(e) && e is NetworkError),
        all_utf8(split_crlf(payload@)) ==> match request_spec(
            decode_utf8(split_crlf(payload@)[0]),
            operands_of(split_crlf(payload@)),
        ) {
            Some(q) => r matches Ok(req) && req@ == q,
            None => r matches Err(e) && e is CliError,
        },
{
    let toks = split_lines(payload);
    let ghost tv = split_crlf(payload@);
    assert(toks@.len() == tv.len());
    assert(tv.len() >= 1) by {
        lemma_split_nonempty(payload@, 0, 0);
    }
    let mut op = String::new();
    let mut operands: Vec<String> = Vec::new();
    let mut i: usize = 0;
    while i < toks.len()
        invariant
            views(toks@) == tv,
            tv == split_crlf(payload@),
            0 <= i <= toks@.len(),
            forall|j: int| 0 <= j < i ==> valid_utf8(#[trigger] tv[j]),
            i >= 1 ==> op@ == decode_utf8(tv[0]),
            i >= 1 ==> string_views(operands@) == tv.subrange(1, i as int).map_values(
                |t: Seq<u8>| trimmed(decode_utf8(t)),
            ),
            i == 0 ==> operands@.len() == 0,
        decreases toks@.len() - i,
    {
        let bytes = slice_to_vec(toks[i].as_slice());
        assert(bytes@ == tv[i as int]);
        match string_from_utf8(bytes) {
            None => {
                assert(!valid_utf8(tv[i as int]));
                assert(!all_utf8(tv));
                return Err(HobbesError::NetworkError("request is not UTF-8".to_string()));
            },
            Some(s) => {
                if i == 0 {
                    op = s;
                    assert(tv.subrange(1, 1).map_values(|t: Seq<u8>| trimmed(decode_utf8(t)))
                        =~= Seq::<Seq<char>>::empty());
                    assert(string_views(operands@) =~= Seq::<Seq<char>>::empty());
                } else {
                    let t = trim(s.as_str());
                    let ghost before = operands@;
                    operands.push(t);
                    assert(string_views(operands@) =~= string_views(before).push(t@));
                    assert(tv.subrange(1, i + 1).map_values(|t: Seq<u8>| trimmed(decode_utf8(t)))
                        =~= tv.subrange(1, i as int).map_values(
                        |t: Seq<u8>| trimmed(decode_utf8(t)),
                    ).push(trimmed(decode_utf8(tv[i as int]))));
                }
            },
        }
        i = i + 1;
    }
    assert(tv.subrange(1, tv.len() as int) == tv.subrange(1, i as int));
    request_from_tokens(&op, &operands)
}

proof fn lemma_split_nonempty(b: Seq<u8>, start: int, i: int)
    requires
        0 <= start <= i <= b.len(),
    ensures
        split_from(b, start, i).len() >= 1,
    decreases b.len() - i,
{
    if i + 1 < b.len() && b[i] == 13u8 && b[i + 1] == 10u8 {
        lemma_split_nonempty(b, i + 2, i + 2);
    } else if i + 1 < b.len() {
        lemma_split_nonempty(b, start, i + 1);
    }
}

pub open spec fn key_not_found() -> Seq<char> {
    seq!['K', 'e', 'y', ' ', 'n', 'o', 't', ' ', 'f', 'o', 'u', 'n', 'd']
}

pub open spec fn set_successful() -> Seq<char> {
    seq!['s', 'e', 't', ' ', 's', 'u', 'c', 'c', 'e', 's', 's', 'f', 'u', 'l']
}

pub open spec fn success() -> Seq<char> {
    seq!['S', 'u', 'c', 'c', 'e', 's', 's']
}

pub open spec fn invalid_command() -> Seq<char> {
    seq!['I', 'n', 'v', 'a', 'l', 'i', 'd', ' ', 'c', 'o', 'm', 'm', 'a', 'n', 'd']
}

/// The reply to `GET`: the value, or `Key not found`.
pub fn get_reply(value: Option<String>) -> (r: String)
    ensures
        value matches Some(v) ==> r@ == v@,
        value is None ==> r@ == key_not_found(),
{
    match value {
        Some(v) => v,
        None => {
            proof {
                reveal_strlit("Key not found");
            }
            let r = "Key not found".to_string();
            assert(r@ =~= key_not_found());
            r
        },
    }
}

/// The reply to a `SET` that succeeded.
pub fn set_reply() -> (r: String)
    ensures
        r@ == set_successful(),
{
    proof {
        reveal_strlit("set successful");
    }
    let r = "set successful".to_string();
    assert(r@ =~= set_successful());
    r
}

/// The reply to `RM`: `Success`, or `Key not found` where the key was
/// absent; any other error is passed on.
pub fn remove_reply(outcome: Result<(), HobbesError>) -> (r: Result<String, HobbesError>)
    ensures
        outcome is Ok ==> (r matches Ok(s) && s@ == success()),
        outcome is Err && outcome->Err_0 is KeyNotFoundError ==> (r matches Ok(s) && s@
            == key_not_found()),
        outcome is Err && !(outcome->Err_0 is KeyNotFoundError) ==> r == Err::<String, HobbesError>(
            outcome->Err_0,
        ),
{
    match outcome {
        Ok(()) => {
            proof {
                reveal_strlit("Success");
            }
            let r = "Success".to_string();
            assert(r@ =~= success());
            Ok(r)
        },
        Err(HobbesError::KeyNotFoundError) => {
            proof {
                reveal_strlit("Key not found");
            }
            let r = "Key not found".to_string();
            assert(r@ =~= key_not_found());
            Ok(r)
        },
        Err(e) => Err(e),
    }
}

/// The reply to an unknown opcode.
pub fn invalid_reply() -> (r: String)
    ensures
        r@ == invalid_command(),
{
    proof {
        reveal_strlit("Invalid command");
    }
    let r = "Invalid command".to_string();
    assert(r@ =~= invalid_command());
    r
}

pub open spec fn crlf() -> Seq<char> {
    seq!['\r', '\n']
}

/// The bytes a client sends for payload `cmd`: its byte length in decimal,
/// `\r\n`, then the payload.
pub fn frame_request(cmd: &str) -> (r: String)
    ensures
        r@ == decimal(cmd.len() as nat) + crlf() + cmd@,
{
    let mut r = to_decimal(cmd.len() as u64);
    proof {
        reveal_strlit("\r\n");
    }
    r.append("\r\n");
    r.append(cmd);
    assert(r@ =~= decimal(cmd.len() as nat) + crlf() + cmd@);
    r
}

/// The payload of a `GET` of `key`.
pub fn get_command(key: &str) -> (r: String)
    ensures
        r@ == get_op() + crlf() + key@ + crlf(),
{
    proof {
        reveal_strlit("GET\r\n");
        reveal_strlit("\r\n");
    }
    let mut r = "GET\r\n".to_string();
    r.append(key);
    r.append("\r\n");
    assert(r@ =~= get_op() + crlf() + key@ + crlf());
    r
}

/// The payload of a `SET` of `key` to `value`.
pub fn set_command(key: &str, value: &str) -> (r: String)
    ensures
        r@ == set_op() + crlf() + key@ + crlf() + value@ + crlf(),
{
    proof {
        reveal_strlit("SET\r\n");
        reveal_strlit("\r\n");
    }
    let mut r = "SET\r\n".to_string();
    r.append(key);
    r.append("\r\n");
    r.append(value);
    r.append("\r\n");
    assert(r@ =~= set_op() + crlf() + key@ + crlf() + value@ + crlf());
    r
}

/// The payload of an `RM` of `key`.
pub fn remove_command(key: &str) -> (r: String)
    ensures
        r@ == rm_op() + crlf() + key@ + crlf(),
{
    proof {
        reveal_strlit("RM\r\n");
        reveal_strlit("\r\n");
    }
    let mut r = "RM\r\n".to_string();
    r.append(key);
    r.append("\r\n");
    assert(r@ =~= rm_op() + crlf() + key@ + crlf());
    r
}

} // verus!
