use vstd::prelude::*;
use vstd::std_specs::iter::IteratorSpec;

use crate::storage::tree::{clean_index, lemma_entries, LogSegment, Slot, TriOption};

verus! {

/// One logged mutation in the model: a key and its new value, or `None` for a deletion.
pub type Op = (Seq<char>, Option<Seq<char>>);

/// A key may be stored when it is not empty and holds neither a space nor a newline:
/// both delimit the fields and records of the line format.
pub open spec fn clean_key(k: Seq<char>) -> bool {
    &&& k.len() > 0
    &&& !k.contains(' ')
    &&& !k.contains('\n')
}

/// A value may be stored when it holds neither a space nor a newline.
pub open spec fn clean_value(v: Seq<char>) -> bool {
    &&& !v.contains(' ')
    &&& !v.contains('\n')
}

pub open spec fn clean_op(op: Op) -> bool {
    &&& clean_key(op.0)
    &&& match op.1 {
        Some(v) => clean_value(v),
        None => true,
    }
}

/// The line of one mutation: `key value\n` for a write, `key\n` for a deletion.
pub open spec fn record_text(op: Op) -> Seq<char> {
    match op.1 {
        Some(v) => op.0 + seq![' '] + v + seq!['\n'],
        None => op.0 + seq!['\n'],
    }
}

/// The lines of a sequence of mutations, in order.
pub open spec fn ops_text(ops: Seq<Op>) -> Seq<char>
    decreases ops.len(),
{
    if ops.len() == 0 {
        Seq::empty()
    } else {
        ops_text(ops.drop_last()) + record_text(ops.last())
    }
}

/// What one mutation does to the model of an index.
pub open spec fn apply_op(m: Map<Seq<char>, Slot>, op: Op) -> Map<Seq<char>, Slot> {
    m.insert(
        op.0,
        match op.1 {
            Some(v) => TriOption::TriSome(v),
            None => TriOption::Tombstoned,
        },
    )
}

/// What a sequence of mutations does to the model of an index, in order.
pub open spec fn apply_ops(m: Map<Seq<char>, Slot>, ops: Seq<Op>) -> Map<Seq<char>, Slot>
    decreases ops.len(),
{
    if ops.len() == 0 {
        m
    } else {
        apply_op(apply_ops(m, ops.drop_last()), ops.last())
    }
}

pub proof fn lemma_apply_ops_concat(m: Map<Seq<char>, Slot>, a: Seq<Op>, b: Seq<Op>)
    ensures
        apply_ops(m, a + b) == apply_ops(apply_ops(m, a), b),
    decreases b.len(),
{
    if b.len() == 0 {
        assert(a + b =~= a);
    } else {
        assert((a + b).drop_last() =~= a + b.drop_last());
        lemma_apply_ops_concat(m, a, b.drop_last());
    }
}

pub proof fn lemma_ops_text_concat(a: Seq<Op>, b: Seq<Op>)
    ensures
        ops_text(a + b) == ops_text(a) + ops_text(b),
    decreases b.len(),
{
    if b.len() == 0 {
        assert(a + b =~= a);
        assert(ops_text(a) + ops_text(b) =~= ops_text(a));
    } else {
        assert((a + b).drop_last() =~= a + b.drop_last());
        lemma_ops_text_concat(a, b.drop_last());
        assert(ops_text(a) + ops_text(b.drop_last()) + record_text(b.last()) =~= ops_text(a) + (
        ops_text(b.drop_last()) + record_text(b.last())));
    }
}

/// The model of a parsed record.
pub open spec fn record_view(r: (String, Option<String>)) -> Op {
    (
        r.0@,
        match r.1 {
            Some(v) => Some(v@),
            None => None,
        },
    )
}

/// Where the line parser stands: the records read so far, the key and value of the
/// current line, whether a space has been seen on it, and whether all lines were sound.
pub struct ParseState {
    pub done: Seq<Op>,
    pub key: Seq<char>,
    pub val: Seq<char>,
    pub in_val: bool,
    pub ok: bool,
}

pub open spec fn line_start(done: Seq<Op>) -> ParseState {
    ParseState { done, key: Seq::empty(), val: Seq::empty(), in_val: false, ok: true }
}

/// Ends the current line: a lone non-empty key is a deletion, `key value` a write,
/// anything else spoils the parse.
pub open spec fn end_line(st: ParseState) -> ParseState {
    if st.key.len() == 0 {
        ParseState { ok: false, ..st }
    } else {
        line_start(st.done.push((st.key, if st.in_val { Some(st.val) } else { None })))
    }
}

/// Reads one character.
pub open spec fn step(st: ParseState, c: char) -> ParseState {
    if !st.ok {
        st
    } else if c == '\n' {
        end_line(st)
    } else if c == ' ' {
        if st.in_val {
            ParseState { ok: false, ..st }
        } else {
            ParseState { in_val: true, ..st }
        }
    } else if st.in_val {
        ParseState { val: st.val.push(c), ..st }
    } else {
        ParseState { key: st.key.push(c), ..st }
    }
}

/// Reads all of `t`.
pub open spec fn run(st: ParseState, t: Seq<char>) -> ParseState
    decreases t.len(),
{
    if t.len() == 0 {
        st
    } else {
        run(step(st, t[0]), t.drop_first())
    }
}

/// What a log or segment text holds: its records in order, or `None` where a line is
/// empty, has an empty key, or holds more than one space. A last line without a
/// newline counts.
pub open spec fn parse_spec(t: Seq<char>) -> Option<Seq<Op>> {
    let st = run(line_start(Seq::empty()), t);
    if !st.ok {
        None
    } else if st.key.len() == 0 && !st.in_val {
        Some(st.done)
    } else {
        let e = end_line(st);
        if e.ok {
            Some(e.done)
        } else {
            None
        }
    }
}

proof fn lemma_run_concat(st: ParseState, a: Seq<char>, b: Seq<char>)
    ensures
        run(st, a + b) == run(run(st, a), b),
    decreases a.len(),
{
    if a.len() == 0 {
        assert(a + b =~= b);
    } else {
        assert((a + b).drop_first() =~= a.drop_first() + b);
        lemma_run_concat(step(st, a[0]), a.drop_first(), b);
    }
}

/// A spoiled parse stays spoiled.
proof fn lemma_run_stuck(st: ParseState, t: Seq<char>)
    requires
        !st.ok,
    ensures
        run(st, t) == st,
    decreases t.len(),
{
    if t.len() > 0 {
        lemma_run_stuck(step(st, t[0]), t.drop_first());
    }
}

proof fn lemma_run_one(st: ParseState, c: char)
    ensures
        run(st, seq![c]) == step(st, c),
{
    assert(seq![c].drop_first() =~= Seq::<char>::empty());
    assert(run(step(st, c), Seq::<char>::empty()) == step(st, c));
}

/// Characters that are neither space nor newline extend the key or the value.
proof fn lemma_run_plain(st: ParseState, t: Seq<char>)
    requires
        st.ok,
        !t.contains(' '),
        !t.contains('\n'),
    ensures
        run(st, t) == (if st.in_val {
            ParseState { val: st.val + t, ..st }
        } else {
            ParseState { key: st.key + t, ..st }
        }),
    decreases t.len(),
{
    if t.len() == 0 {
        assert(st.val + t =~= st.val);
        assert(st.key + t =~= st.key);
    } else {
        assert(!t.drop_first().contains(' ')) by {
            if t.drop_first().contains(' ') {
                let j = choose|j: int| 0 <= j < t.drop_first().len() && t.drop_first()[j] == ' ';
                assert(t[j + 1] == ' ');
            }
        }
        assert(!t.drop_first().contains('\n')) by {
            if t.drop_first().contains('\n') {
                let j = choose|j: int| 0 <= j < t.drop_first().len() && t.drop_first()[j] == '\n';
                assert(t[j + 1] == '\n');
            }
        }
        assert(t[0] != ' ' && t[0] != '\n') by {
            if t[0] == ' ' || t[0] == '\n' {
                assert(t.contains(t[0]));
            }
        }
        lemma_run_plain(step(st, t[0]), t.drop_first());
        assert(st.val.push(t[0]) + t.drop_first() =~= st.val + t);
        assert(st.key.push(t[0]) + t.drop_first() =~= st.key + t);
    }
}

/// Reading the line of a clean record at the start of a line appends that record.
proof fn lemma_run_record(done: Seq<Op>, op: Op)
    requires
        clean_op(op),
    ensures
        run(line_start(done), record_text(op)) == line_start(done.push(op)),
{
    let st0 = line_start(done);
    lemma_run_plain(st0, op.0);
    assert(Seq::<char>::empty() + op.0 =~= op.0);
    let st1 = ParseState { key: op.0, ..st0 };
    match op.1 {
        Some(v) => {
            lemma_run_concat(st0, op.0, seq![' '] + v + seq!['\n']);
            assert(op.0 + seq![' '] + v + seq!['\n'] =~= op.0 + (seq![' '] + v + seq!['\n']));
            lemma_run_concat(st1, seq![' '], v + seq!['\n']);
            assert(seq![' '] + v + seq!['\n'] =~= seq![' '] + (v + seq!['\n']));
            lemma_run_one(st1, ' ');
            let st2 = ParseState { in_val: true, ..st1 };
            lemma_run_concat(st2, v, seq!['\n']);
            lemma_run_plain(st2, v);
            assert(Seq::<char>::empty() + v =~= v);
            let st3 = ParseState { val: v, ..st2 };
            lemma_run_one(st3, '\n');
        },
        None => {
            lemma_run_concat(st0, op.0, seq!['\n']);
            lemma_run_one(st1, '\n');
        },
    }
}

proof fn lemma_run_ops(done: Seq<Op>, ops: Seq<Op>)
    requires
        forall|i: int| 0 <= i < ops.len() ==> clean_op(#[trigger] ops[i]),
    ensures
        run(line_start(done), ops_text(ops)) == line_start(done + ops),
    decreases ops.len(),
{
    if ops.len() == 0 {
        assert(done + ops =~= done);
    } else {
        let init = ops.drop_last();
        assert forall|i: int| 0 <= i < init.len() implies clean_op(#[trigger] init[i]) by {
            assert(init[i] == ops[i]);
        }
        lemma_run_ops(done, init);
        lemma_run_concat(line_start(done), ops_text(init), record_text(ops.last()));
        assert(clean_op(ops[ops.len() - 1]));
        lemma_run_record(done + init, ops.last());
        assert((done + init).push(ops.last()) =~= done + ops);
    }
}

/// Reading back the lines written for clean records gives those records.
pub proof fn lemma_parse_ops_text(ops: Seq<Op>)
    requires
        forall|i: int| 0 <= i < ops.len() ==> clean_op(#[trigger] ops[i]),
    ensures
        parse_spec(ops_text(ops)) == Some(ops),
{
    lemma_run_ops(Seq::empty(), ops);
    assert(Seq::<Op>::empty() + ops =~= ops);
}

/// Relies on `String::push`: appends one character.
#[verifier::external_body]
pub(crate) fn push_char(s: &mut String, c: char)
    ensures
        final(s)@ == old(s)@.push(c),
{
    s.push(c);
}

/// The log line of a write of `value` under `key`.
pub fn write_record(key: &str, value: &str) -> (r: String)
    ensures
        r@ == record_text((key@, Some(value@))),
{
    let mut r = String::from_str(key);
    push_char(&mut r, ' ');
    r.append(value);
    push_char(&mut r, '\n');
    assert(r@ =~= key@ + seq![' '] + value@ + seq!['\n']);
    r
}

/// The log line of a deletion of `key`.
pub fn delete_record(key: &str) -> (r: String)
    ensures
        r@ == record_text((key@, None)),
{
    let mut r = String::from_str(key);
    push_char(&mut r, '\n');
    r
}

/// Whether `s` may be stored as a key.
pub fn is_clean_key(s: &str) -> (r: bool)
    ensures
        r == clean_key(s@),
{
    let n = s.unicode_len();
    if n == 0 {
        return false;
    }
    no_delimiters(s)
}

/// Whether `s` may be stored as a value.
pub fn is_clean_value(s: &str) -> (r: bool)
    ensures
        r == clean_value(s@),
{
    no_delimiters(s)
}

fn no_delimiters(s: &str) -> (r: bool)
    ensures
        r == (!s@.contains(' ') && !s@.contains('\n')),
{
    broadcast use vstd::string::group_string_axioms;

    let mut it = s.chars();
    let ghost mut i: int = 0;
    loop
        invariant
            0 <= i <= s@.len(),
            it.remaining() == s@.subrange(i, s@.len() as int),
            forall|j: int| 0 <= j < i ==> s@[j] != ' ' && s@[j] != '\n',
        decreases s@.len() - i,
    {
        match it.next() {
            Some(c) => {
                assert(c == s@[i]);
                if c == ' ' || c == '\n' {
                    assert(s@.contains(c));
                    return false;
                }
                proof {
                    assert(it.remaining() =~= s@.subrange(i + 1, s@.len() as int));
                    i = i + 1;
                }
            },
            None => {
                assert(i == s@.len());
                return true;
            },
        }
    }
}

/// The records of a log or segment text, or `None` where a line is malformed.
pub fn parse_records(text: &str) -> (r: Option<Vec<(String, Option<String>)>>)
    ensures
        match r {
            Some(v) => parse_spec(text@) == Some(v@.map_values(|x: (String, Option<String>)| record_view(x))),
            None => parse_spec(text@) is None,
        },
{
    broadcast use vstd::string::group_string_axioms;

    let mut done: Vec<(String, Option<String>)> = Vec::new();
    let mut key = String::new();
    let mut val = String::new();
    let mut in_val = false;
    let mut it = text.chars();
    let ghost mut i: int = 0;
    let ghost init = line_start(Seq::empty());
    proof {
        assert(done@.map_values(|x: (String, Option<String>)| record_view(x)) =~= Seq::<Op>::empty());
        assert(text@.subrange(0, text@.len() as int) =~= text@);
    }
    loop
        invariant
            0 <= i <= text@.len(),
            it.remaining() == text@.subrange(i, text@.len() as int),
            init == line_start(Seq::<Op>::empty()),
            run(
                ParseState {
                    done: done@.map_values(|x: (String, Option<String>)| record_view(x)),
                    key: key@,
                    val: val@,
                    in_val,
                    ok: true,
                },
                it.remaining(),
            ) == run(init, text@),
        decreases text@.len() - i,
    {
        let ghost st = ParseState {
            done: done@.map_values(|x: (String, Option<String>)| record_view(x)),
            key: key@,
            val: val@,
            in_val,
            ok: true,
        };
        let ghost rem = it.remaining();
        match it.next() {
            Some(c) => {
                proof {
                    assert(rem[0] == c);
                    assert(run(st, rem) == run(step(st, c), it.remaining()));
                    if !step(st, c).ok {
                        lemma_run_stuck(step(st, c), it.remaining());
                    }
                    assert(it.remaining() =~= text@.subrange(i + 1, text@.len() as int));
                    i = i + 1;
                }
                if c == '\n' {
                    if key.unicode_len() == 0 {
                        return None;
                    }
                    let mut k = String::new();
                    std::mem::swap(&mut k, &mut key);
                    let mut v = String::new();
                    std::mem::swap(&mut v, &mut val);
                    let rec = if in_val {
                        (k, Some(v))
                    } else {
                        (k, None)
                    };
                    done.push(rec);
                    in_val = false;
                    proof {
                        assert(done@.map_values(|x: (String, Option<String>)| record_view(x))
                            =~= st.done.push(record_view(rec)));
                    }
                } else if c == ' ' {
                    if in_val {
                        return None;
                    }
                    in_val = true;
                } else if in_val {
                    push_char(&mut val, c);
                } else {
                    push_char(&mut key, c);
                }
            },
            None => {
                assert(rem.len() == 0);
                assert(run(st, rem) == st);
                assert(run(init, text@) == st);
                if key.unicode_len() == 0 {
                    if in_val {
                        return None;
                    }
                    return Some(done);
                }
                let rec = if in_val {
                    (key, Some(val))
                } else {
                    (key, None)
                };
                done.push(rec);
                proof {
                    assert(done@.map_values(|x: (String, Option<String>)| record_view(x))
                        =~= st.done.push(record_view(rec)));
                }
                return Some(done);
            },
        }
    }
}

/// Applies `records` to `tree` in order: a value is written, `None` deletes.
pub fn replay(tree: &mut LogSegment, records: &Vec<(String, Option<String>)>)
    requires
        old(tree).wf(),
    ensures
        final(tree).wf(),
        final(tree)@ == apply_ops(
            old(tree)@,
            records@.map_values(|x: (String, Option<String>)| record_view(x)),
        ),
{
    let ghost ops = records@.map_values(|x: (String, Option<String>)| record_view(x));
    let mut i: usize = 0;
    while i < records.len()
        invariant
            i <= records@.len(),
            ops == records@.map_values(|x: (String, Option<String>)| record_view(x)),
            tree.wf(),
            tree@ == apply_ops(old(tree)@, ops.subrange(0, i as int)),
        decreases records@.len() - i,
    {
        let (k, v) = &records[i];
        match v {
            Some(val) => tree.insert((k.clone(), val.clone())),
            None => tree.delete(k.clone()),
        }
        proof {
            assert(ops.subrange(0, i + 1).drop_last() =~= ops.subrange(0, i as int));
            assert(ops[i as int] == record_view(records@[i as int]));
        }
        i = i + 1;
    }
    assert(ops.subrange(0, i as int) =~= ops);
}

/// The index that a segment text describes, or `None` where a line is malformed.
pub fn read_segment(text: &str) -> (r: Option<LogSegment>)
    ensures
        match r {
            Some(t) => {
                &&& t.wf()
                &&& parse_spec(text@) is Some
                &&& t@ == apply_ops(Map::empty(), parse_spec(text@)->0)
            },
            None => parse_spec(text@) is None,
        },
{
    match parse_records(text) {
        Some(records) => {
            let mut root = LogSegment::new();
            replay(&mut root, &records);
            Some(root)
        },
        None => None,
    }
}

/// Reading back the segment text of an index whose keys and values can be written as
/// lines gives an index with the same contents.
pub proof fn lemma_segment_round_trip(t: LogSegment)
    requires
        t.wf(),
        clean_index(t@),
    ensures
        parse_spec(ops_text(t.entries())) == Some(t.entries()),
        apply_ops(Map::empty(), t.entries()) == t@,
{
    let e = t.entries();
    lemma_entries(t, Map::empty());
    assert forall|i: int| 0 <= i < e.len() implies clean_op(#[trigger] e[i]) by {
        let m1 = apply_op(Map::empty(), e[i]);
        assert(m1[e[i].0] == t@[e[i].0]);
    }
    lemma_parse_ops_text(e);
    assert(Map::<Seq<char>, Slot>::empty().union_prefer_right(t@) =~= t@);
}

} // verus!
