use vstd::prelude::*;
use vstd::set_lib::*;
use std::cmp::Ordering;

use crate::storage::codec::{
    apply_op, apply_ops, clean_key, clean_value, delete_record, lemma_apply_ops_concat,
    lemma_ops_text_concat, ops_text, record_text, write_record, Op,
};
use crate::storage::keys::{compare_keys, key_lt, lemma_key_lt_asym, lemma_key_lt_irrefl, lemma_key_lt_trans};

verus! {

/// Result of a lookup in one index: a live value, no entry at all, or a deletion marker.
pub enum TriOption<T> {
    TriSome(T),
    TriNone,
    Tombstoned,
}

/// What a key maps to in the model of an index: a live value or a tombstone.
pub type Slot = TriOption<Seq<char>>;

/// The model of a slot that holds strings.
pub open spec fn slot_view(v: TriOption<String>) -> Slot {
    match v {
        TriOption::TriSome(s) => TriOption::TriSome(s@),
        TriOption::TriNone => TriOption::TriNone,
        TriOption::Tombstoned => TriOption::Tombstoned,
    }
}

/// The answer of a lookup of `k` in the index modelled by `m`.
pub open spec fn slot_of(m: Map<Seq<char>, Slot>, k: Seq<char>) -> Slot {
    if m.contains_key(k) {
        m[k]
    } else {
        TriOption::TriNone
    }
}

/// The keys of `m` that hold a live value.
pub open spec fn live_keys(m: Map<Seq<char>, Slot>) -> Set<Seq<char>> {
    m.dom().filter(|k: Seq<char>| m[k] is TriSome)
}

/// The number of live entries of `m`, capped at the largest `usize`.
pub open spec fn capped_live_count(m: Map<Seq<char>, Slot>) -> nat {
    if live_keys(m).len() <= usize::MAX {
        live_keys(m).len()
    } else {
        usize::MAX as nat
    }
}

/// An unbalanced binary search tree keyed by string. A node's slot is a live value
/// or a tombstone; deleting a key never removes its node.
pub enum LogSegment {
    TreeNode {
        k: String,
        v: TriOption<String>,
        left: Option<Box<LogSegment>>,
        right: Option<Box<LogSegment>>,
    },
    Nil,
}

/// The model of an optional subtree.
pub open spec fn child_view(c: Option<Box<LogSegment>>) -> Map<Seq<char>, Slot>
    decreases c,
{
    match c {
        Some(b) => b.view_rec(),
        None => Map::empty(),
    }
}

impl LogSegment {
    /// The map from each key of the tree to its slot.
    pub open spec fn view_rec(self) -> Map<Seq<char>, Slot>
        decreases self,
    {
        match self {
            LogSegment::Nil => Map::empty(),
            LogSegment::TreeNode { k, v, left, right } => {
                let l = match left {
                    Some(b) => b.view_rec(),
                    None => Map::empty(),
                };
                let r = match right {
                    Some(b) => b.view_rec(),
                    None => Map::empty(),
                };
                l.union_prefer_right(r).insert(k@, slot_view(v))
            },
        }
    }

    /// Search-tree order on keys, no empty slot in a node, recursively.
    pub open spec fn wf(self) -> bool
        decreases self,
    {
        match self {
            LogSegment::Nil => true,
            LogSegment::TreeNode { k, v, left, right } => {
                &&& !(v is TriNone)
                &&& match left {
                    Some(b) => b.wf(),
                    None => true,
                }
                &&& match right {
                    Some(b) => b.wf(),
                    None => true,
                }
                &&& forall|x: Seq<char>| #[trigger]
                    child_view(left).contains_key(x) ==> key_lt(x, k@)
                &&& forall|x: Seq<char>| #[trigger]
                    child_view(right).contains_key(x) ==> key_lt(k@, x)
            },
        }
    }
}

impl View for LogSegment {
    type V = Map<Seq<char>, Slot>;

    open spec fn view(&self) -> Map<Seq<char>, Slot> {
        self.view_rec()
    }
}

/// The mutation a slot records: a write of its value, or a deletion.
pub open spec fn slot_op(v: TriOption<String>) -> Option<Seq<char>> {
    match v {
        TriOption::TriSome(s) => Some(s@),
        _ => None,
    }
}

/// An index whose keys and values can all be written as lines.
pub open spec fn clean_index(m: Map<Seq<char>, Slot>) -> bool {
    forall|k: Seq<char>| #[trigger]
        m.contains_key(k) ==> clean_key(k) && match m[k] {
            TriOption::TriSome(v) => clean_value(v),
            _ => true,
        }
}

/// The in-order records of an optional subtree.
pub open spec fn child_entries(c: Option<Box<LogSegment>>) -> Seq<Op>
    decreases c,
{
    match c {
        Some(b) => b.entries(),
        None => Seq::empty(),
    }
}

impl LogSegment {
    /// The records of the tree in ascending key order.
    pub open spec fn entries(self) -> Seq<Op>
        decreases self,
    {
        match self {
            LogSegment::Nil => Seq::empty(),
            LogSegment::TreeNode { k, v, left, right } => {
                let l = match left {
                    Some(b) => b.entries(),
                    None => Seq::empty(),
                };
                let r = match right {
                    Some(b) => b.entries(),
                    None => Seq::empty(),
                };
                l + seq![(k@, slot_op(v))] + r
            },
        }
    }
}

/// Replaying the in-order records of a tree over `m` overlays the tree on `m`; every
/// record names a key of the tree with its slot.
pub proof fn lemma_entries(t: LogSegment, m: Map<Seq<char>, Slot>)
    requires
        t.wf(),
    ensures
        apply_ops(m, t.entries()) == m.union_prefer_right(t@),
        forall|i: int|
            0 <= i < t.entries().len() ==> t@.contains_key(#[trigger] t.entries()[i].0)
                && apply_op(Map::empty(), t.entries()[i]) == Map::<Seq<char>, Slot>::empty().insert(
                t.entries()[i].0,
                t@[t.entries()[i].0],
            ),
    decreases t,
{
    match t {
        LogSegment::Nil => {
            assert(m.union_prefer_right(t@) =~= m);
        },
        LogSegment::TreeNode { k, v, left, right } => {
            let le = child_entries(left);
            let re = child_entries(right);
            let l = child_view(left);
            let r = child_view(right);
            let node = seq![(k@, slot_op(v))];
            let ml = apply_ops(m, le);
            match left {
                Some(b) => lemma_entries(*b, m),
                None => {},
            }
            let mn = apply_ops(ml, node);
            assert(node.drop_last() =~= Seq::<Op>::empty());
            assert(apply_ops(ml, node.drop_last()) == ml);
            assert(node.last() == (k@, slot_op(v)));
            assert(mn == ml.insert(k@, slot_view(v)));
            match right {
                Some(b) => lemma_entries(*b, mn),
                None => {},
            }
            lemma_apply_ops_concat(m, le, node);
            lemma_apply_ops_concat(m, le + node, re);
            assert(t.entries() == le + node + re);
            assert forall|x: Seq<char>| r.contains_key(x) implies x != k@ && !l.contains_key(x) by {
                lemma_key_lt_irrefl(x);
                if l.contains_key(x) {
                    lemma_key_lt_trans(x, k@, x);
                }
            }
            assert(apply_ops(m, t.entries()) =~= m.union_prefer_right(t@));
            assert forall|i: int| 0 <= i < t.entries().len() implies t@.contains_key(
                #[trigger] t.entries()[i].0,
            ) && apply_op(Map::empty(), t.entries()[i]) == Map::<Seq<char>, Slot>::empty().insert(
                t.entries()[i].0,
                t@[t.entries()[i].0],
            ) by {
                assert forall|x: Seq<char>| l.contains_key(x) implies x != k@ by {
                    lemma_key_lt_irrefl(x);
                }
                if i < le.len() {
                    assert(t.entries()[i] == le[i]);
                    match left {
                        Some(b) => {
                            assert(b.entries()[i] == le[i]);
                        },
                        None => {},
                    }
                } else if i == le.len() {
                    assert(t.entries()[i] == node[0]);
                } else {
                    let j = i - le.len() - 1;
                    assert(t.entries()[i] == re[j]);
                    match right {
                        Some(b) => {
                            assert(b.entries()[j] == re[j]);
                        },
                        None => {},
                    }
                }
            }
        },
    }
}

/// The keys of a tree form a finite set.
pub proof fn lemma_view_finite(t: LogSegment)
    ensures
        t.view_rec().dom().finite(),
    decreases t,
{
    match t {
        LogSegment::Nil => {},
        LogSegment::TreeNode { k, v, left, right } => {
            match left {
                Some(b) => lemma_view_finite(*b),
                None => {},
            }
            match right {
                Some(b) => lemma_view_finite(*b),
                None => {},
            }
            assert(child_view(left).union_prefer_right(child_view(right)).dom() =~= child_view(
                left,
            ).dom().union(child_view(right).dom()));
        },
    }
}

/// The live keys of a node are those of its children and, if live, its own key.
proof fn lemma_live_split(
    k: String,
    v: TriOption<String>,
    left: Option<Box<LogSegment>>,
    right: Option<Box<LogSegment>>,
)
    requires
        (LogSegment::TreeNode { k, v, left, right }).wf(),
    ensures
        live_keys((LogSegment::TreeNode { k, v, left, right })@).finite(),
        live_keys((LogSegment::TreeNode { k, v, left, right })@).len() == live_keys(
            child_view(left),
        ).len() + live_keys(child_view(right)).len() + (if v is TriSome {
            1nat
        } else {
            0nat
        }),
{
    let t = LogSegment::TreeNode { k, v, left, right };
    let l = child_view(left);
    let r = child_view(right);
    match left {
        Some(b) => lemma_view_finite(*b),
        None => {},
    }
    match right {
        Some(b) => lemma_view_finite(*b),
        None => {},
    }
    lemma_view_finite(t);
    l.dom().lemma_len_filter(|x: Seq<char>| l[x] is TriSome);
    r.dom().lemma_len_filter(|x: Seq<char>| r[x] is TriSome);
    t@.dom().lemma_len_filter(|x: Seq<char>| t@[x] is TriSome);
    assert forall|x: Seq<char>| l.contains_key(x) implies !r.contains_key(x) && x != k@ by {
        if r.contains_key(x) {
            lemma_key_lt_trans(x, k@, x);
            lemma_key_lt_irrefl(x);
        }
        lemma_key_lt_irrefl(x);
    }
    assert forall|x: Seq<char>| r.contains_key(x) implies x != k@ by {
        lemma_key_lt_irrefl(x);
    }
    let both = live_keys(l) + live_keys(r);
    assert(live_keys(l).disjoint(live_keys(r)));
    lemma_set_disjoint_lens(live_keys(l), live_keys(r));
    if v is TriSome {
        assert(live_keys(t@) =~= both.insert(k@));
    } else {
        assert(live_keys(t@) =~= both);
    }
}

impl LogSegment {
    /// An empty index.
    pub fn new() -> (r: LogSegment)
        ensures
            r.wf(),
            r@ == Map::<Seq<char>, Slot>::empty(),
    {
        LogSegment::Nil
    }

    /// A single node holding `key` with slot `v`.
    fn leaf(key: String, v: TriOption<String>) -> (r: LogSegment)
        requires
            !(v is TriNone),
        ensures
            r.wf(),
            r@ == Map::<Seq<char>, Slot>::empty().insert(key@, slot_view(v)),
    {
        let r = LogSegment::TreeNode { k: key, v, left: None, right: None };
        assert(r@ =~= Map::<Seq<char>, Slot>::empty().insert(key@, slot_view(v)));
        r
    }

    /// The tree with `key` set to slot `v`, overwriting any slot it had.
    fn put(self, key: String, v: TriOption<String>) -> (r: LogSegment)
        requires
            self.wf(),
            !(v is TriNone),
        ensures
            r.wf(),
            r@ == self@.insert(key@, slot_view(v)),
        decreases self,
    {
        match self {
            LogSegment::Nil => LogSegment::leaf(key, v),
            LogSegment::TreeNode { k, v: nv, left, right } => {
                let ghost l = child_view(left);
                let ghost rt = child_view(right);
                let ghost kk = key@;
                match compare_keys(key.as_str(), k.as_str()) {
                    Ordering::Equal => {
                        let r = LogSegment::TreeNode { k, v, left, right };
                        assert(r@ =~= self@.insert(key@, slot_view(v)));
                        r
                    },
                    Ordering::Greater => {
                        let new_right = match right {
                            Some(b) => (*b).put(key, v),
                            None => LogSegment::leaf(key, v),
                        };
                        proof {
                            assert forall|x: Seq<char>| l.contains_key(x) implies x != kk by {
                                if x == kk {
                                    lemma_key_lt_asym(kk, k@);
                                }
                            }
                            assert forall|x: Seq<char>| #[trigger]
                                new_right@.contains_key(x) implies key_lt(k@, x) by {}
                        }
                        let r = LogSegment::TreeNode {
                            k,
                            v: nv,
                            left,
                            right: Some(Box::new(new_right)),
                        };
                        assert(r@ =~= self@.insert(kk, slot_view(v)));
                        r
                    },
                    Ordering::Less => {
                        let new_left = match left {
                            Some(b) => (*b).put(key, v),
                            None => LogSegment::leaf(key, v),
                        };
                        proof {
                            assert forall|x: Seq<char>| rt.contains_key(x) implies x != kk by {
                                if x == kk {
                                    lemma_key_lt_asym(kk, k@);
                                }
                            }
                            assert forall|x: Seq<char>| #[trigger]
                                new_left@.contains_key(x) implies key_lt(x, k@) by {}
                        }
                        let r = LogSegment::TreeNode {
                            k,
                            v: nv,
                            left: Some(Box::new(new_left)),
                            right,
                        };
                        assert(r@ =~= self@.insert(kk, slot_view(v)));
                        r
                    },
                }
            },
        }
    }

    /// Sets `pair.0` to the live value `pair.1`, whatever slot the key had.
    pub fn insert(&mut self, pair: (String, String))
        requires
            old(self).wf(),
        ensures
            final(self).wf(),
            final(self)@ == old(self)@.insert(pair.0@, TriOption::TriSome(pair.1@)),
    {
        let mut cur = LogSegment::Nil;
        std::mem::swap(self, &mut cur);
        *self = cur.put(pair.0, TriOption::TriSome(pair.1));
    }

    /// Marks `del_key` as deleted; a key never seen before gets a tombstone too.
    pub fn delete(&mut self, del_key: String)
        requires
            old(self).wf(),
        ensures
            final(self).wf(),
            final(self)@ == old(self)@.insert(del_key@, TriOption::Tombstoned),
    {
        let mut cur = LogSegment::Nil;
        std::mem::swap(self, &mut cur);
        *self = cur.put(del_key, TriOption::Tombstoned);
    }

    /// Looks `get_key` up: its live value, `Tombstoned`, or `TriNone` where no node holds it.
    pub fn get(&self, get_key: String) -> (r: TriOption<String>)
        requires
            self.wf(),
        ensures
            slot_view(r) == slot_of(self@, get_key@),
        decreases self,
    {
        match self {
            LogSegment::Nil => TriOption::TriNone,
            LogSegment::TreeNode { k, v, left, right } => {
                let ghost l = child_view(*left);
                let ghost rt = child_view(*right);
                match compare_keys(get_key.as_str(), k.as_str()) {
                    Ordering::Equal => match v {
                        TriOption::TriSome(s) => TriOption::TriSome(s.clone()),
                        TriOption::TriNone => TriOption::TriNone,
                        TriOption::Tombstoned => TriOption::Tombstoned,
                    },
                    Ordering::Greater => {
                        proof {
                            if l.contains_key(get_key@) {
                                lemma_key_lt_asym(get_key@, k@);
                            }
                        }
                        match right {
                            Some(b) => b.get(get_key),
                            None => TriOption::TriNone,
                        }
                    },
                    Ordering::Less => {
                        proof {
                            if rt.contains_key(get_key@) {
                                lemma_key_lt_asym(get_key@, k@);
                            }
                        }
                        match left {
                            Some(b) => b.get(get_key),
                            None => TriOption::TriNone,
                        }
                    },
                }
            },
        }
    }

    /// Whether `ex_key` holds a live value.
    pub fn key_exists(&self, ex_key: String) -> (r: bool)
        requires
            self.wf(),
        ensures
            r == (self@.contains_key(ex_key@) && self@[ex_key@] is TriSome),
    {
        match self.get(ex_key) {
            TriOption::TriSome(_) => true,
            _ => false,
        }
    }

    /// The number of live entries; tombstones do not count. Capped at the largest `usize`.
    pub fn size(&self) -> (r: usize)
        requires
            self.wf(),
        ensures
            r as nat == capped_live_count(self@),
        decreases self,
    {
        match self {
            LogSegment::Nil => {
                assert(live_keys(self@) =~= Set::empty());
                0
            },
            LogSegment::TreeNode { k, v, left, right } => {
                proof {
                    lemma_live_split(*k, *v, *left, *right);
                }
                let mut sum: usize = if v.is_live() {
                    1
                } else {
                    0
                };
                match left {
                    Some(b) => {
                        let n = b.size();
                        sum = sum.saturating_add(n);
                    },
                    None => {
                        assert(live_keys(child_view(*left)) =~= Set::empty());
                    },
                }
                match right {
                    Some(b) => {
                        let n = b.size();
                        sum = sum.saturating_add(n);
                    },
                    None => {
                        assert(live_keys(child_view(*right)) =~= Set::empty());
                    },
                }
                sum
            },
        }
    }
}

impl LogSegment {
    fn write_lines(&self, out: &mut String)
        requires
            self.wf(),
        ensures
            final(out)@ == old(out)@ + ops_text(self.entries()),
        decreases self,
    {
        match self {
            LogSegment::Nil => {
                assert(old(out)@ + ops_text(Seq::<Op>::empty()) =~= old(out)@);
            },
            LogSegment::TreeNode { k, v, left, right } => {
                let ghost le = child_entries(*left);
                let ghost re = child_entries(*right);
                let ghost node = seq![(k@, slot_op(*v))];
                match left {
                    Some(b) => b.write_lines(out),
                    None => {
                        assert(out@ =~= old(out)@ + ops_text(Seq::<Op>::empty()));
                    },
                }
                let ghost mid = out@;
                let line = match v {
                    TriOption::TriSome(s) => write_record(k.as_str(), s.as_str()),
                    _ => delete_record(k.as_str()),
                };
                out.append(line.as_str());
                proof {
                    assert(node.drop_last() =~= Seq::<Op>::empty());
                    assert(ops_text(node.drop_last()) == Seq::<char>::empty());
                    assert(node.last() == node[0]);
                    assert(ops_text(node) =~= record_text(node[0]));
                }
                match right {
                    Some(b) => b.write_lines(out),
                    None => {
                        assert(out@ =~= out@ + ops_text(Seq::<Op>::empty()));
                    },
                }
                proof {
                    lemma_ops_text_concat(le, node);
                    lemma_ops_text_concat(le + node, re);
                    assert(self.entries() == le + node + re);
                    assert(final(out)@ =~= old(out)@ + ops_text(self.entries()));
                }
            },
        }
    }

    /// The segment text of the index: one line per key in ascending key order,
    /// `key value` for a live entry and `key` alone for a tombstone.
    pub fn serialize(&self) -> (r: String)
        requires
            self.wf(),
        ensures
            r@ == ops_text(self.entries()),
    {
        let mut out = String::new();
        self.write_lines(&mut out);
        assert(out@ =~= ops_text(self.entries()));
        out
    }
}

impl<T> TriOption<T> {
    /// Whether this is a live value.
    pub fn is_live(&self) -> (r: bool)
        ensures
            r == (*self is TriSome),
    {
        match self {
            TriOption::TriSome(_) => true,
            _ => false,
        }
    }
}

} // verus!
