use vstd::prelude::*;

use crate::storage::codec::push_char;

verus! {

/// The character of decimal digit `d`.
pub open spec fn digit_char(d: nat) -> char {
    if d == 0 {
        '0'
    } else if d == 1 {
        '1'
    } else if d == 2 {
        '2'
    } else if d == 3 {
        '3'
    } else if d == 4 {
        '4'
    } else if d == 5 {
        '5'
    } else if d == 6 {
        '6'
    } else if d == 7 {
        '7'
    } else if d == 8 {
        '8'
    } else {
        '9'
    }
}

/// The value of a decimal digit character.
pub open spec fn digit_value(c: char) -> nat {
    ((c as int) - ('0' as int)) as nat
}

pub open spec fn is_digit(c: char) -> bool {
    '0' <= c && c <= '9'
}

/// `n` written in decimal, without leading zeros.
pub open spec fn decimal(n: nat) -> Seq<char>
    decreases n,
{
    if n < 10 {
        seq![digit_char(n)]
    } else {
        decimal(n / 10).push(digit_char(n % 10))
    }
}

/// The value of a sequence of decimal digits.
pub open spec fn digits_value(d: Seq<char>) -> nat
    decreases d.len(),
{
    if d.len() == 0 {
        0
    } else {
        digits_value(d.drop_last()) * 10 + digit_value(d.last())
    }
}

pub open spec fn all_digits(d: Seq<char>) -> bool {
    forall|i: int| 0 <= i < d.len() ==> is_digit(#[trigger] d[i])
}

pub open spec fn seg_prefix() -> Seq<char> {
    seq!['s', 'e', 'g', 'm', 'e', 'n', 't', '_']
}

pub open spec fn log_suffix() -> Seq<char> {
    seq!['.', 'l', 'o', 'g']
}

/// The file of segment `n` of database `name`: `name/segment_<n>.log`.
pub open spec fn seg_path(name: Seq<char>, n: nat) -> Seq<char> {
    name + seq!['/'] + seg_prefix() + decimal(n) + log_suffix()
}

/// The part of a path after its last `/`.
pub open spec fn base_name(p: Seq<char>) -> Seq<char>
    decreases p.len(),
{
    if p.len() == 0 {
        p
    } else if p.last() == '/' {
        Seq::empty()
    } else {
        base_name(p.drop_last()).push(p.last())
    }
}

/// The digits of a base name of the form `segment_<digits>.log`.
pub open spec fn id_digits(b: Seq<char>) -> Seq<char> {
    b.subrange(8, b.len() - 4)
}

pub open spec fn seg_shaped(b: Seq<char>) -> bool {
    &&& b.len() > 12
    &&& b.subrange(0, 8) == seg_prefix()
    &&& b.subrange(b.len() - 4, b.len() as int) == log_suffix()
    &&& all_digits(id_digits(b))
}

/// The id of the segment file at `path`: the number in a base name
/// `segment_<digits>.log`, where it fits a `usize`.
pub open spec fn seg_id(path: Seq<char>) -> Option<nat> {
    let b = base_name(path);
    if seg_shaped(b) && digits_value(id_digits(b)) <= usize::MAX {
        Some(digits_value(id_digits(b)))
    } else {
        None
    }
}

fn digit(d: usize) -> (c: char)
    requires
        d < 10,
    ensures
        c == digit_char(d as nat),
{
    if d == 0 {
        '0'
    } else if d == 1 {
        '1'
    } else if d == 2 {
        '2'
    } else if d == 3 {
        '3'
    } else if d == 4 {
        '4'
    } else if d == 5 {
        '5'
    } else if d == 6 {
        '6'
    } else if d == 7 {
        '7'
    } else if d == 8 {
        '8'
    } else {
        '9'
    }
}

fn push_decimal(out: &mut String, n: usize)
    ensures
        final(out)@ == old(out)@ + decimal(n as nat),
    decreases n,
{
    if n >= 10 {
        push_decimal(out, n / 10);
    }
    push_char(out, digit(n % 10));
    assert(final(out)@ =~= old(out)@ + decimal(n as nat));
}

/// The path of segment `seg_num` of database `name`.
pub fn get_seg_path_s(name: &str, seg_num: usize) -> (r: String)
    ensures
        r@ == seg_path(name@, seg_num as nat),
{
    let mut r = String::from_str(name);
    push_char(&mut r, '/');
    push_char(&mut r, 's');
    push_char(&mut r, 'e');
    push_char(&mut r, 'g');
    push_char(&mut r, 'm');
    push_char(&mut r, 'e');
    push_char(&mut r, 'n');
    push_char(&mut r, 't');
    push_char(&mut r, '_');
    push_decimal(&mut r, seg_num);
    push_char(&mut r, '.');
    push_char(&mut r, 'l');
    push_char(&mut r, 'o');
    push_char(&mut r, 'g');
    assert(r@ =~= seg_path(name@, seg_num as nat));
    r
}

/// The path of the write-ahead log of database `name`: `name/name.log`.
pub fn get_wal_path(name: &str) -> (r: String)
    ensures
        r@ == name@ + seq!['/'] + name@ + log_suffix(),
{
    let mut r = String::from_str(name);
    push_char(&mut r, '/');
    r.append(name);
    push_char(&mut r, '.');
    push_char(&mut r, 'l');
    push_char(&mut r, 'o');
    push_char(&mut r, 'g');
    assert(r@ =~= name@ + seq!['/'] + name@ + log_suffix());
    r
}

} // verus!
