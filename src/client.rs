use vstd::prelude::*;
use vstd::slice::slice_subrange;
use vstd::utf8::encode_utf8;

use crate::{
    byte_op, lemma_skip_spaces_bounds, lemma_trim_end_bounds, next_space, op_byte, op_code, op_of_byte, skip_spaces, skip_ws, takes_pair, trim_end,
    Operation,
};

verus! {

/// Why a client could not build or read a frame.
#[derive(Debug)]
pub enum ClientError {
    ParseError,
    SerializeOpError,
    DeserializeResError,
}

impl ClientError {
    /// A description of the error.
    pub fn message(&self) -> (r: String)
        ensures
            *self is ParseError ==> r@ == "Error parsing query"@,
            *self is SerializeOpError ==> r@ == "Error serializing operation"@,
            *self is DeserializeResError ==> r@ == "Error de-serializing response"@,
    {
        match self {
            ClientError::ParseError => String::from_str("Error parsing query"),
            ClientError::SerializeOpError => String::from_str("Error serializing operation"),
            ClientError::DeserializeResError => String::from_str("Error de-serializing response"),
        }
    }
}

/// The argument bytes of a frame, from the text after the operation's name: one
/// argument with the spaces around it removed, or for a pair the key, one space, and
/// the value with the spaces around it removed. `None` where the (last) argument is
/// missing.
pub open spec fn args_frame(pair: bool, args: Seq<u8>) -> Option<Seq<u8>> {
    let h = skip_spaces(args, 0);
    if !pair {
        let e = trim_end(args, args.len() as int, h);
        if h < e {
            Some(args.subrange(h, e))
        } else {
            None
        }
    } else {
        let ke = next_space(args, h);
        let h2 = skip_spaces(args, ke);
        let e = trim_end(args, args.len() as int, h2);
        if h2 < e {
            Some(args.subrange(h, ke) + seq![32u8] + args.subrange(h2, e))
        } else {
            None
        }
    }
}

/// The frame of a query line: the byte of the operation named before the first space,
/// then the argument bytes.
pub open spec fn frame_of(input: Seq<u8>) -> Option<Seq<u8>> {
    let i = next_space(input, 0);
    if i >= input.len() {
        None
    } else {
        match op_code(input.subrange(0, i)) {
            None => None,
            Some(b) => match args_frame(
                takes_pair(op_of_byte(b)->0),
                input.subrange(i, input.len() as int),
            ) {
                Some(a) => Some(seq![b] + a),
                None => None,
            },
        }
    }
}

/// Builds the frame of the query line `input`.
pub fn construct_frame(input: String) -> (r: Result<Vec<u8>, ClientError>)
    ensures
        match r {
            Ok(f) => frame_of(encode_utf8(input@)) == Some(f@),
            Err(e) => frame_of(encode_utf8(input@)) is None && e is ParseError,
        },
{
    let in_slice = input.as_str().as_bytes();
    let mut frame: Vec<u8> = Vec::new();
    match add_op_to_frame(in_slice, &mut frame) {
        Ok(arg_start) => {
            let args = slice_subrange(in_slice, arg_start, in_slice.len());
            match add_args_to_frame(args, &mut frame) {
                Ok(()) => {
                    assert(frame@ =~= seq![frame@[0]] + frame@.subrange(1, frame@.len() as int));
                    Ok(frame)
                },
                Err(_) => Err(ClientError::ParseError),
            }
        },
        Err(_) => Err(ClientError::ParseError),
    }
}

/// Reads the operation's name, up to the first space, and pushes its byte; returns
/// where the arguments start.
fn add_op_to_frame(input: &[u8], frame: &mut Vec<u8>) -> (r: Result<usize, ClientError>)
    ensures
        match r {
            Ok(i) => {
                &&& i == next_space(input@, 0) < input@.len()
                &&& op_code(input@.subrange(0, i as int)) is Some
                &&& final(frame)@ == old(frame)@.push(op_code(input@.subrange(0, i as int))->0)
            },
            Err(e) => {
                &&& next_space(input@, 0) >= input@.len() || op_code(
                    input@.subrange(0, next_space(input@, 0)),
                ) is None
                &&& final(frame)@ == old(frame)@
                &&& e is ParseError
            },
        },
{
    let mut i: usize = 0;
    while i < input.len() && input[i] != 32
        invariant
            i <= input@.len(),
            next_space(input@, 0) == next_space(input@, i as int),
        decreases input@.len() - i,
    {
        i += 1;
    }
    if i < input.len() {
        if let Ok(b) = op_byte(&input[0..i]) {
            frame.push(b);
            return Ok(i);
        }
    }
    Err(ClientError::ParseError)
}

/// Appends `src[from..to]` to `frame`.
fn push_range(frame: &mut Vec<u8>, src: &[u8], from: usize, to: usize)
    requires
        from <= to <= src@.len(),
    ensures
        final(frame)@ == old(frame)@ + src@.subrange(from as int, to as int),
{
    let mut i: usize = from;
    while i < to
        invariant
            from <= i <= to,
            to <= src@.len(),
            frame@ == old(frame)@ + src@.subrange(from as int, i as int),
        decreases to - i,
    {
        frame.push(src[i]);
        assert(src@.subrange(from as int, i + 1) =~= src@.subrange(from as int, i as int).push(
            src@[i as int],
        ));
        i += 1;
    }
}

/// The end of `args[lo..]` without its trailing spaces.
fn trimmed_end(args: &[u8], lo: usize) -> (e: usize)
    requires
        lo <= args@.len(),
    ensures
        e == trim_end(args@, args@.len() as int, lo as int),
        lo <= e <= args@.len(),
{
    let mut e: usize = args.len();
    while e > lo && args[e - 1] == 32
        invariant
            lo <= e <= args@.len(),
            trim_end(args@, args@.len() as int, lo as int) == trim_end(args@, e as int, lo as int),
        decreases e - lo,
    {
        e -= 1;
    }
    proof {
        lemma_trim_end_bounds(args@, args@.len() as int, lo as int);
    }
    e
}

/// The first position at or after `from` that holds no space, or the length.
fn skip_from(args: &[u8], from: usize) -> (h: usize)
    requires
        from <= args@.len(),
    ensures
        h == skip_spaces(args@, from as int),
        from <= h <= args@.len(),
{
    let mut h = from;
    if h < args.len() {
        skip_ws(&mut h, args.len(), args);
    }
    proof {
        lemma_skip_spaces_bounds(args@, from as int);
    }
    h
}

/// Pushes the argument bytes for the operation whose byte `frame` holds.
fn add_args_to_frame(input_args: &[u8], frame: &mut Vec<u8>) -> (r: Result<(), ClientError>)
    requires
        old(frame)@.len() == 1,
        op_of_byte(old(frame)@[0]) is Some,
    ensures
        match r {
            Ok(()) => args_frame(takes_pair(op_of_byte(old(frame)@[0])->0), input_args@) matches Some(
                a,
            ) && final(frame)@ == old(frame)@ + a,
            Err(e) => args_frame(takes_pair(op_of_byte(old(frame)@[0])->0), input_args@) is None
                && e is ParseError,
        },
{
    let operation = match byte_op(frame[0]) {
        Ok(op) => op,
        Err(_) => {
            return Err(ClientError::ParseError);
        },
    };
    let pair = match operation {
        Operation::SET | Operation::PUB => true,
        _ => false,
    };
    let head = skip_from(input_args, 0);
    if !pair {
        let e = trimmed_end(input_args, head);
        if head < e {
            push_range(frame, input_args, head, e);
            return Ok(());
        }
        return Err(ClientError::ParseError);
    }
    let mut ke: usize = head;
    while ke < input_args.len() && input_args[ke] != 32
        invariant
            head <= ke <= input_args@.len(),
            next_space(input_args@, head as int) == next_space(input_args@, ke as int),
        decreases input_args@.len() - ke,
    {
        ke += 1;
    }
    let h2 = skip_from(input_args, ke);
    let e = trimmed_end(input_args, h2);
    if h2 < e {
        push_range(frame, input_args, head, ke);
        frame.push(32);
        push_range(frame, input_args, h2, e);
        assert(frame@ =~= old(frame)@ + (input_args@.subrange(head as int, ke as int) + seq![32u8]
            + input_args@.subrange(h2 as int, e as int)));
        return Ok(());
    }
    Err(ClientError::ParseError)
}

} // verus!
