use vstd::prelude::*;

pub mod client;
pub mod kvpair;
pub mod replication;
pub mod server;
pub mod storage;

use crate::client::ClientError;
use crate::server::ServerError;

verus! {

/// The operations a client may ask for.
pub enum Operation {
    NEW,
    USE,
    GET,
    SET,
    DELETE,
    PUB,
    SUB,
}

/// The byte that stands for an operation's name in a frame. Names and bytes are ASCII:
/// `NEW`, `USE`, `GET`, `SET`, `DEL`, `PUB`, `SUB` become `0` to `6`.
pub open spec fn op_code(s: Seq<u8>) -> Option<u8> {
    if s == seq![78u8, 69u8, 87u8] {
        Some(48)
    } else if s == seq![85u8, 83u8, 69u8] {
        Some(49)
    } else if s == seq![71u8, 69u8, 84u8] {
        Some(50)
    } else if s == seq![83u8, 69u8, 84u8] {
        Some(51)
    } else if s == seq![68u8, 69u8, 76u8] {
        Some(52)
    } else if s == seq![80u8, 85u8, 66u8] {
        Some(53)
    } else if s == seq![83u8, 85u8, 66u8] {
        Some(54)
    } else {
        None
    }
}

/// The operation a frame's first byte stands for.
pub open spec fn op_of_byte(b: u8) -> Option<Operation> {
    if b == 48 {
        Some(Operation::NEW)
    } else if b == 49 {
        Some(Operation::USE)
    } else if b == 50 {
        Some(Operation::GET)
    } else if b == 51 {
        Some(Operation::SET)
    } else if b == 52 {
        Some(Operation::DELETE)
    } else if b == 53 {
        Some(Operation::PUB)
    } else if b == 54 {
        Some(Operation::SUB)
    } else {
        None
    }
}

/// Operations that carry a key and a value; the others carry one argument.
pub open spec fn takes_pair(op: Operation) -> bool {
    op is SET || op is PUB
}

/// Encodes an operation's name as its frame byte.
pub fn op_byte(operation: &[u8]) -> (r: Result<u8, ClientError>)
    ensures
        match r {
            Ok(b) => op_code(operation@) == Some(b),
            Err(e) => op_code(operation@) is None && e is SerializeOpError,
        },
{
    if operation.len() != 3 {
        assert(op_code(operation@) is None);
        return Err(ClientError::SerializeOpError);
    }
    let (a, b, c) = (operation[0], operation[1], operation[2]);
    assert(operation@ =~= seq![a, b, c]);
    if a == 78 && b == 69 && c == 87 {
        Ok(48)
    } else if a == 85 && b == 83 && c == 69 {
        Ok(49)
    } else if a == 71 && b == 69 && c == 84 {
        Ok(50)
    } else if a == 83 && b == 69 && c == 84 {
        Ok(51)
    } else if a == 68 && b == 69 && c == 76 {
        Ok(52)
    } else if a == 80 && b == 85 && c == 66 {
        Ok(53)
    } else if a == 83 && b == 85 && c == 66 {
        Ok(54)
    } else {
        Err(ClientError::SerializeOpError)
    }
}

/// Decodes a frame byte to its operation.
pub fn byte_op(op_byte: u8) -> (r: Result<Operation, ServerError>)
    ensures
        match r {
            Ok(op) => op_of_byte(op_byte) == Some(op),
            Err(e) => op_of_byte(op_byte) is None && e is DeserializeOpError,
        },
{
    match op_byte {
        48 => Ok(Operation::NEW),
        49 => Ok(Operation::USE),
        50 => Ok(Operation::GET),
        51 => Ok(Operation::SET),
        52 => Ok(Operation::DELETE),
        53 => Ok(Operation::PUB),
        54 => Ok(Operation::SUB),
        _ => Err(ServerError::DeserializeOpError),
    }
}

/// The answers a server gives.
pub enum Response {
    PASS,
    FAIL,
    ACK,
}

/// The byte that stands for a response's name in a frame: `PASS`, `FAIL`, `ACK` become
/// `0`, `1`, `2` (ASCII).
pub open spec fn res_code(s: Seq<u8>) -> Option<u8> {
    if s == seq![80u8, 65u8, 83u8, 83u8] {
        Some(48)
    } else if s == seq![70u8, 65u8, 73u8, 76u8] {
        Some(49)
    } else if s == seq![65u8, 67u8, 75u8] {
        Some(50)
    } else {
        None
    }
}

/// The response a frame byte stands for.
pub open spec fn res_of_byte(b: u8) -> Option<Response> {
    if b == 48 {
        Some(Response::PASS)
    } else if b == 49 {
        Some(Response::FAIL)
    } else if b == 50 {
        Some(Response::ACK)
    } else {
        None
    }
}

/// Encodes a response's name as its frame byte.
pub fn res_byte(operation: &[u8]) -> (r: Result<u8, ServerError>)
    ensures
        match r {
            Ok(b) => res_code(operation@) == Some(b),
            Err(e) => res_code(operation@) is None && e is SerializeResError,
        },
{
    if operation.len() == 3 {
        let (a, b, c) = (operation[0], operation[1], operation[2]);
        assert(operation@ =~= seq![a, b, c]);
        if a == 65 && b == 67 && c == 75 {
            return Ok(50);
        }
    } else if operation.len() == 4 {
        let (a, b, c, d) = (operation[0], operation[1], operation[2], operation[3]);
        assert(operation@ =~= seq![a, b, c, d]);
        if a == 80 && b == 65 && c == 83 && d == 83 {
            return Ok(48);
        } else if a == 70 && b == 65 && c == 73 && d == 76 {
            return Ok(49);
        }
    }
    Err(ServerError::SerializeResError)
}

/// Decodes a frame byte to its response.
pub fn byte_res(op_byte: u8) -> (r: Result<Response, ClientError>)
    ensures
        match r {
            Ok(res) => res_of_byte(op_byte) == Some(res),
            Err(e) => res_of_byte(op_byte) is None && e is DeserializeResError,
        },
{
    match op_byte {
        48 => Ok(Response::PASS),
        49 => Ok(Response::FAIL),
        50 => Ok(Response::ACK),
        _ => Err(ClientError::DeserializeResError),
    }
}

/// The ASCII space.
pub const SPACE: u8 = 32;

/// The first position at or after `i` that holds no space, or the length.
pub open spec fn skip_spaces(s: Seq<u8>, i: int) -> int
    decreases s.len() - i,
{
    if i < 0 || i >= s.len() {
        if i < 0 { 0 } else { s.len() as int }
    } else if s[i] != 32 {
        i
    } else {
        skip_spaces(s, i + 1)
    }
}

/// The first position at or after `i` that holds a space, or the length.
pub open spec fn next_space(s: Seq<u8>, i: int) -> int
    decreases s.len() - i,
{
    if i < 0 || i >= s.len() {
        if i < 0 { 0 } else { s.len() as int }
    } else if s[i] == 32 {
        i
    } else {
        next_space(s, i + 1)
    }
}

/// Moving back from `e` over spaces, not below `lo`: the end of `s[lo..e]` with its
/// trailing spaces removed.
pub open spec fn trim_end(s: Seq<u8>, e: int, lo: int) -> int
    decreases e - lo,
{
    if e <= lo {
        lo
    } else if s[e - 1] == 32 {
        trim_end(s, e - 1, lo)
    } else {
        e
    }
}

pub proof fn lemma_skip_spaces_bounds(s: Seq<u8>, i: int)
    requires
        0 <= i <= s.len(),
    ensures
        i <= skip_spaces(s, i) <= s.len(),
        skip_spaces(s, i) < s.len() ==> s[skip_spaces(s, i)] != SPACE,
    decreases s.len() - i,
{
    if i < s.len() && s[i] == SPACE {
        lemma_skip_spaces_bounds(s, i + 1);
    }
}

pub proof fn lemma_trim_end_bounds(s: Seq<u8>, e: int, lo: int)
    requires
        lo <= e,
    ensures
        lo <= trim_end(s, e, lo) <= e,
    decreases e - lo,
{
    if e > lo && s[e - 1] == SPACE {
        lemma_trim_end_bounds(s, e - 1, lo);
    }
}

/// Moves `start` over spaces toward `end`: forward while below `end`, backward while
/// above it. The position reached holds no space, or is `end`.
pub fn skip_ws(start: &mut usize, end: usize, input: &[u8])
    requires
        *old(start) < end ==> end <= input@.len(),
        *old(start) >= end ==> *old(start) < input@.len(),
    ensures
        *old(start) < end ==> *final(start) == if skip_spaces(input@, *old(start) as int) < end {
            skip_spaces(input@, *old(start) as int)
        } else {
            end as int
        },
        *old(start) >= end ==> *final(start) == trim_end(input@, *old(start) + 1, end + 1) - 1,
{
    if *start < end {
        while *start < end && input[*start] == 32
            invariant
                *old(start) <= *start <= end,
                end <= input@.len(),
                skip_spaces(input@, *old(start) as int) == skip_spaces(input@, *start as int),
            decreases end - *start,
        {
            *start += 1;
        }
        proof {
            lemma_skip_spaces_bounds(input@, *start as int);
        }
    } else {
        while *start > end && input[*start] == 32
            invariant
                end <= *start <= *old(start),
                *old(start) < input@.len(),
                trim_end(input@, *old(start) + 1, end as int + 1) == trim_end(
                    input@,
                    *start + 1,
                    end as int + 1,
                ),
            decreases *start - end,
        {
            *start -= 1;
        }
    }
}

} // verus!
