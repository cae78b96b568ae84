use vstd::prelude::*;

use crate::client::{args_frame, frame_of};
use crate::{
    byte_op, lemma_skip_spaces_bounds, lemma_trim_end_bounds, next_space, op_code, op_of_byte,
    skip_spaces, takes_pair, Operation, SPACE,
};

verus! {

/// The kinds of message between servers.
pub enum MsgType {
    Election,
    Log,
    Ack,
    Commit,
    Abort,
}

/// Why a server could not handle a frame.
#[derive(Debug)]
pub enum ServerError {
    ParseError,
    DeserializeOpError,
    SerializeResError,
}

impl ServerError {
    /// A description of the error.
    pub fn message(&self) -> (r: String)
        ensures
            *self is ParseError ==> r@ == "Error parsing query"@,
            *self is DeserializeOpError ==> r@ == "Error de-serializing operation"@,
            *self is SerializeResError ==> r@ == "Error serializing response"@,
    {
        match self {
            ServerError::ParseError => String::from_str("Error parsing query"),
            ServerError::DeserializeOpError => String::from_str("Error de-serializing operation"),
            ServerError::SerializeResError => String::from_str("Error serializing response"),
        }
    }
}

/// Whether the arguments after a frame's operation byte suit the operation: one
/// argument that is not all spaces, or a key, a space, and a value that is not all spaces.
pub open spec fn args_ok(op: Operation, rest: Seq<u8>) -> bool {
    if takes_pair(op) {
        let ke = next_space(rest, 0);
        ke > 0 && skip_spaces(rest, ke) < rest.len()
    } else {
        skip_spaces(rest, 0) < rest.len()
    }
}

/// Checks a frame: its first byte names an operation and its arguments suit it.
pub fn deconstruct_frame(frame: &[u8]) -> (r: Result<(), ServerError>)
    ensures
        frame@.len() == 0 || op_of_byte(frame@[0]) is None ==> r == Err::<(), ServerError>(
            ServerError::DeserializeOpError,
        ),
        frame@.len() > 0 && op_of_byte(frame@[0]) is Some ==> r == if args_ok(
            op_of_byte(frame@[0])->0,
            frame@.subrange(1, frame@.len() as int),
        ) {
            Ok::<(), ServerError>(())
        } else {
            Err(ServerError::ParseError)
        },
{
    if frame.len() == 0 {
        return Err(ServerError::DeserializeOpError);
    }
    let operation = match byte_op(frame[0]) {
        Ok(op) => op,
        Err(e) => {
            return Err(e);
        },
    };
    let ghost rest = frame@.subrange(1, frame@.len() as int);
    let pair = match operation {
        Operation::SET | Operation::PUB => true,
        _ => false,
    };
    let mut head: usize = 1;
    if pair {
        while head < frame.len() && frame[head] != 32
            invariant
                1 <= head <= frame@.len(),
                rest == frame@.subrange(1, frame@.len() as int),
                next_space(rest, 0) == next_space(rest, head - 1),
            decreases frame@.len() - head,
        {
            head += 1;
        }
        if head == 1 {
            return Err(ServerError::ParseError);
        }
    }
    let ghost ke = head - 1;
    while head < frame.len() && frame[head] == 32
        invariant
            1 <= head <= frame@.len(),
            rest == frame@.subrange(1, frame@.len() as int),
            skip_spaces(rest, ke) == skip_spaces(rest, head - 1),
            ke <= head - 1,
        decreases frame@.len() - head,
    {
        head += 1;
    }
    if head < frame.len() {
        Ok(())
    } else {
        Err(ServerError::ParseError)
    }
}

/// Where `s[i..j]` holds no space and `s[j]` is one, the next space from `i` is at `j`.
proof fn lemma_next_space_at(s: Seq<u8>, i: int, j: int)
    requires
        0 <= i <= j < s.len(),
        s[j] == SPACE,
        forall|t: int| i <= t < j ==> s[t] != SPACE,
    ensures
        next_space(s, i) == j,
    decreases j - i,
{
    if i < j {
        lemma_next_space_at(s, i + 1, j);
    }
}

/// From a position that holds no space, the next space starts a run of non-spaces.
proof fn lemma_next_space_run(s: Seq<u8>, i: int)
    requires
        0 <= i <= s.len(),
    ensures
        i <= next_space(s, i) <= s.len(),
        next_space(s, i) < s.len() ==> s[next_space(s, i)] == SPACE,
        forall|t: int| i <= t < next_space(s, i) ==> s[t] != SPACE,
    decreases s.len() - i,
{
    if i < s.len() && s[i] != SPACE {
        lemma_next_space_run(s, i + 1);
    }
}

/// Every frame built from a query line is accepted.
pub proof fn lemma_built_frames_accepted(input: Seq<u8>)
    requires
        frame_of(input) is Some,
    ensures
        ({
            let f = frame_of(input)->0;
            &&& f.len() > 0
            &&& op_of_byte(f[0]) is Some
            &&& args_ok(op_of_byte(f[0])->0, f.subrange(1, f.len() as int))
        }),
{
    let i = next_space(input, 0);
    lemma_next_space_run(input, 0);
    let b = op_code(input.subrange(0, i))->0;
    let args = input.subrange(i, input.len() as int);
    let pair = takes_pair(op_of_byte(b)->0);
    let a = args_frame(pair, args)->0;
    let f = frame_of(input)->0;
    assert(f == seq![b] + a);
    assert(f.subrange(1, f.len() as int) =~= a);
    let h = skip_spaces(args, 0);
    lemma_skip_spaces_bounds(args, 0);
    if !pair {
        let e = crate::trim_end(args, args.len() as int, h);
        lemma_trim_end_bounds(args, args.len() as int, h);
        assert(a == args.subrange(h, e));
        assert(a[0] == args[h]);
    } else {
        lemma_next_space_run(args, h);
        let ke = next_space(args, h);
        lemma_skip_spaces_bounds(args, ke);
        let h2 = skip_spaces(args, ke);
        let e = crate::trim_end(args, args.len() as int, h2);
        lemma_trim_end_bounds(args, args.len() as int, h2);
        let key = args.subrange(h, ke);
        let val = args.subrange(h2, e);
        assert(a == key + seq![SPACE] + val);
        assert(h < ke) by {
            if h == ke {
                assert(args[h] != SPACE);
            }
        }
        assert forall|t: int| 0 <= t < key.len() implies a[t] != SPACE by {
            assert(a[t] == args[h + t]);
        }
        assert(a[key.len() as int] == SPACE);
        lemma_next_space_at(a, 0, key.len() as int);
        assert(a[key.len() as int + 1] == args[h2]);
        assert(skip_spaces(a, key.len() as int) == key.len() + 1) by {
            assert(skip_spaces(a, key.len() as int + 1) == key.len() + 1);
        }
    }
}

} // verus!
