use vstd::prelude::*;
use vstd::std_specs::iter::IteratorSpec;
use std::cmp::Ordering;

use crate::storage::files::{
    all_digits, base_name, decimal, digit_char, digit_value, digits_value, id_digits, is_digit,
    log_suffix, seg_id, seg_path, seg_prefix,
};
use crate::storage::tree::{LogSegment, Slot};

verus! {

/// A flushed segment: its file, and once read its index, kept for later lookups.
pub enum DiskSegment {
    OpenSegment { path_s: String, tree: LogSegment },
    ClosedSegment { path_s: String },
}

impl DiskSegment {
    pub open spec fn path(self) -> Seq<char> {
        match self {
            DiskSegment::OpenSegment { path_s, .. } => path_s@,
            DiskSegment::ClosedSegment { path_s } => path_s@,
        }
    }

    /// The id parsed from the segment's file name.
    pub open spec fn id(self) -> nat {
        seg_id(self.path())->0
    }

    /// The index of an open segment; `None` while it has not been read.
    pub open spec fn layer(self) -> Option<Map<Seq<char>, Slot>> {
        match self {
            DiskSegment::OpenSegment { tree, .. } => Some(tree@),
            DiskSegment::ClosedSegment { .. } => None,
        }
    }

    pub open spec fn wf(self) -> bool {
        &&& seg_id(self.path()) is Some
        &&& match self {
            DiskSegment::OpenSegment { tree, .. } => tree.wf(),
            DiskSegment::ClosedSegment { .. } => true,
        }
    }

    /// The path of the segment's file.
    pub fn value(&self) -> (r: &str)
        ensures
            r@ == self.path(),
    {
        match self {
            DiskSegment::OpenSegment { path_s, .. } => path_s.as_str(),
            DiskSegment::ClosedSegment { path_s } => path_s.as_str(),
        }
    }
}

/// Two segments are equal when their files carry the same id.
impl PartialEq for DiskSegment {
    fn eq(&self, other: &DiskSegment) -> (r: bool) {
        let a = extract_seg_id(String::from_str(self.value()));
        let b = extract_seg_id(String::from_str(other.value()));
        match (a, b) {
            (Some(x), Some(y)) => x == y,
            (None, None) => true,
            _ => false,
        }
    }
}

impl vstd::std_specs::cmp::PartialEqSpecImpl for DiskSegment {
    open spec fn obeys_eq_spec() -> bool {
        true
    }

    open spec fn eq_spec(&self, other: &DiskSegment) -> bool {
        seg_id(self.path()) == seg_id(other.path())
    }
}

/// Segments are ordered newest first: a higher id comes before a lower one. A segment
/// whose file name carries no id is not comparable.
impl PartialOrd for DiskSegment {
    fn partial_cmp(&self, other: &DiskSegment) -> (r: Option<Ordering>) {
        let a = extract_seg_id(String::from_str(self.value()));
        let b = extract_seg_id(String::from_str(other.value()));
        match (a, b) {
            (Some(x), Some(y)) => {
                if y < x {
                    Some(Ordering::Less)
                } else if x < y {
                    Some(Ordering::Greater)
                } else {
                    Some(Ordering::Equal)
                }
            },
            _ => None,
        }
    }
}

impl vstd::std_specs::cmp::PartialOrdSpecImpl for DiskSegment {
    open spec fn obeys_partial_cmp_spec() -> bool {
        true
    }

    open spec fn partial_cmp_spec(&self, other: &DiskSegment) -> Option<Ordering> {
        match (seg_id(self.path()), seg_id(other.path())) {
            (Some(x), Some(y)) => Some(
                if y < x {
                    Ordering::Less
                } else if x < y {
                    Ordering::Greater
                } else {
                    Ordering::Equal
                },
            ),
            _ => None,
        }
    }
}

/// A catalog lists well-formed segments newest first: ids strictly decrease.
pub open spec fn catalog_wf(segs: Seq<DiskSegment>) -> bool {
    &&& forall|i: int| 0 <= i < segs.len() ==> (#[trigger] segs[i]).wf()
    &&& forall|i: int, j: int| 0 <= i < j < segs.len() ==> segs[j].id() < segs[i].id()
}

proof fn lemma_base_name_push(p: Seq<char>, c: char)
    ensures
        base_name(p.push(c)) == if c == '/' {
            Seq::<char>::empty()
        } else {
            base_name(p).push(c)
        },
{
    assert(p.push(c).drop_last() =~= p);
}

/// The base name of a path ending in `/` and then `x`, where `x` holds no `/`, is `x`.
proof fn lemma_base_name_tail(p: Seq<char>, x: Seq<char>)
    requires
        !x.contains('/'),
    ensures
        base_name(p.push('/') + x) == x,
    decreases x.len(),
{
    if x.len() == 0 {
        assert(p.push('/') + x =~= p.push('/'));
        lemma_base_name_push(p, '/');
    } else {
        let y = x.drop_last();
        assert(!y.contains('/')) by {
            if y.contains('/') {
                let j = choose|j: int| 0 <= j < y.len() && y[j] == '/';
                assert(x[j] == '/');
            }
        }
        assert(x.last() != '/') by {
            assert(x.contains(x.last()) || x.len() == 0) by {
                assert(x[x.len() - 1] == x.last());
            }
        }
        lemma_base_name_tail(p, y);
        assert(p.push('/') + x =~= (p.push('/') + y).push(x.last()));
        lemma_base_name_push(p.push('/') + y, x.last());
        assert(y.push(x.last()) =~= x);
    }
}

proof fn lemma_digit_char(d: nat)
    requires
        d < 10,
    ensures
        is_digit(digit_char(d)),
        digit_value(digit_char(d)) == d,
{
    if d == 0 {
    } else if d == 1 {
    } else if d == 2 {
    } else if d == 3 {
    } else if d == 4 {
    } else if d == 5 {
    } else if d == 6 {
    } else if d == 7 {
    } else if d == 8 {
    } else {
    }
}

proof fn lemma_decimal(n: nat)
    ensures
        decimal(n).len() > 0,
        all_digits(decimal(n)),
        digits_value(decimal(n)) == n,
    decreases n,
{
    if n < 10 {
        lemma_digit_char(n);
        let d = seq![digit_char(n)];
        assert(d.drop_last() =~= Seq::<char>::empty());
        assert(d.last() == digit_char(n));
        assert(digits_value(d) == digits_value(d.drop_last()) * 10 + digit_value(d.last()));
        assert(digits_value(Seq::<char>::empty()) == 0);
    } else {
        lemma_decimal(n / 10);
        lemma_digit_char(n % 10);
        let d = decimal(n);
        assert(d.drop_last() =~= decimal(n / 10));
        assert(d.last() == digit_char(n % 10));
        assert(digits_value(d) == digits_value(d.drop_last()) * 10 + digit_value(d.last()));
        assert((n / 10) * 10 + n % 10 == n) by (nonlinear_arith);
        assert forall|i: int| 0 <= i < d.len() implies is_digit(#[trigger] d[i]) by {
            if i < d.len() - 1 {
                assert(d[i] == decimal(n / 10)[i]);
            }
        }
    }
}

/// The id in the name of segment `n` is `n`.
pub proof fn lemma_seg_path_id(name: Seq<char>, n: nat)
    requires
        n <= usize::MAX,
    ensures
        seg_id(seg_path(name, n)) == Some(n),
{
    let x = seg_prefix() + decimal(n) + log_suffix();
    lemma_decimal(n);
    assert(!x.contains('/')) by {
        if x.contains('/') {
            let j = choose|j: int| 0 <= j < x.len() && x[j] == '/';
            if j >= 8 && j < x.len() - 4 {
                assert(x[j] == decimal(n)[j - 8]);
                assert(is_digit(decimal(n)[j - 8]));
            }
        }
    }
    assert(seg_path(name, n) =~= name.push('/') + x);
    lemma_base_name_tail(name, x);
    assert(x.subrange(0, 8) =~= seg_prefix());
    assert(x.subrange(x.len() - 4, x.len() as int) =~= log_suffix());
    assert(id_digits(x) =~= decimal(n));
}

proof fn lemma_digits_prefix(d: Seq<char>, j: int)
    requires
        0 <= j <= d.len(),
    ensures
        digits_value(d.subrange(0, j)) <= digits_value(d),
    decreases d.len() - j,
{
    if j < d.len() {
        lemma_digits_prefix(d, j + 1);
        assert(d.subrange(0, j + 1).drop_last() =~= d.subrange(0, j));
    } else {
        assert(d.subrange(0, j) =~= d);
    }
}

/// The characters after the last `/` of `path`.
fn base_chars(path: &str) -> (r: Vec<char>)
    ensures
        r@ == base_name(path@),
{
    broadcast use vstd::string::group_string_axioms;

    let mut base: Vec<char> = Vec::new();
    let mut it = path.chars();
    let ghost mut i: int = 0;
    proof {
        assert(path@.subrange(0, 0) =~= Seq::<char>::empty());
        assert(path@.subrange(0, path@.len() as int) =~= path@);
    }
    loop
        invariant
            0 <= i <= path@.len(),
            it.remaining() == path@.subrange(i, path@.len() as int),
            base@ == base_name(path@.subrange(0, i)),
        decreases path@.len() - i,
    {
        let ghost rem = it.remaining();
        match it.next() {
            Some(c) => {
                proof {
                    assert(rem[0] == c);
                    assert(c == path@[i]);
                    assert(path@.subrange(0, i + 1) =~= path@.subrange(0, i).push(c));
                    lemma_base_name_push(path@.subrange(0, i), c);
                    assert(it.remaining() =~= path@.subrange(i + 1, path@.len() as int));
                    i = i + 1;
                }
                if c == '/' {
                    base = Vec::new();
                    assert(base@ =~= Seq::<char>::empty());
                } else {
                    base.push(c);
                }
            },
            None => {
                assert(path@.subrange(0, i) =~= path@);
                return base;
            },
        }
    }
}

fn chars_at(b: &Vec<char>, from: usize, expect: &Vec<char>) -> (r: bool)
    requires
        from + expect@.len() <= b@.len(),
    ensures
        r == (b@.subrange(from as int, from + expect@.len()) == expect@),
{
    let n = b.len();
    let mut j: usize = 0;
    while j < expect.len()
        invariant
            j <= expect@.len(),
            n == b@.len(),
            from + expect@.len() <= n,
            forall|t: int| 0 <= t < j ==> b@[from + t] == expect@[t],
        decreases expect@.len() - j,
    {
        if b[from + j] != expect[j] {
            assert(b@.subrange(from as int, from + expect@.len())[j as int] != expect@[j as int]);
            return false;
        }
        j = j + 1;
    }
    assert(b@.subrange(from as int, from + expect@.len()) =~= expect@);
    true
}

/// The id of the segment file at `path`: the number in its base name
/// `segment_<digits>.log`, or `None` for any other name or a number past `usize`.
pub fn extract_seg_id(path: String) -> (r: Option<usize>)
    ensures
        match r {
            Some(n) => seg_id(path@) == Some(n as nat),
            None => seg_id(path@) is None,
        },
{
    let b = base_chars(path.as_str());
    if b.len() <= 12 {
        return None;
    }
    let prefix: Vec<char> = vec!['s', 'e', 'g', 'm', 'e', 'n', 't', '_'];
    let suffix: Vec<char> = vec!['.', 'l', 'o', 'g'];
    assert(prefix@ =~= seg_prefix());
    assert(suffix@ =~= log_suffix());
    if !chars_at(&b, 0, &prefix) || !chars_at(&b, b.len() - 4, &suffix) {
        return None;
    }
    let ghost d = id_digits(b@);
    let end = b.len() - 4;
    let mut j: usize = 8;
    let mut v: usize = 0;
    while j < end
        invariant
            8 <= j <= end,
            end == b@.len() - 4,
            b@ == base_name(path@),
            b@.len() > 12,
            b@.subrange(0, 8) == seg_prefix(),
            b@.subrange(b@.len() - 4, b@.len() as int) == log_suffix(),
            d == b@.subrange(8, end as int),
            all_digits(d.subrange(0, j - 8)),
            v as nat == digits_value(d.subrange(0, j - 8)),
        decreases end - j,
    {
        let c = b[j];
        if c < '0' || c > '9' {
            assert(!is_digit(d[j - 8]));
            return None;
        }
        let dv = (c as u32 - '0' as u32) as usize;
        assert(dv as nat == digit_value(c));
        proof {
            assert(d.subrange(0, j - 8 + 1).drop_last() =~= d.subrange(0, j - 8));
            assert(d.subrange(0, j - 8 + 1).last() == c);
        }
        if v > (usize::MAX - dv) / 10 {
            proof {
                assert(!all_digits(d) || digits_value(d) > usize::MAX) by {
                    lemma_digits_prefix(d, j - 8 + 1);
                    assert(digits_value(d.subrange(0, j - 8 + 1)) == v * 10 + dv) by (nonlinear_arith)
                        requires
                            digits_value(d.subrange(0, j - 8 + 1)) == digits_value(
                                d.subrange(0, j - 8),
                            ) * 10 + digit_value(c),
                            v as nat == digits_value(d.subrange(0, j - 8)),
                            dv as nat == digit_value(c),
                    ;
                    assert(v * 10 + dv > usize::MAX) by (nonlinear_arith)
                        requires
                            v > (usize::MAX - dv) / 10,
                            dv < 10,
                    ;
                }
            }
            return None;
        }
        assert(v * 10 + dv <= usize::MAX) by (nonlinear_arith)
            requires
                v <= (usize::MAX - dv) / 10,
                dv < 10,
        ;
        v = v * 10 + dv;
        proof {
            assert forall|t: int| 0 <= t < j + 1 - 8 implies is_digit(
                #[trigger] d.subrange(0, j + 1 - 8)[t],
            ) by {
                if t < j - 8 {
                    assert(d.subrange(0, j - 8)[t] == d.subrange(0, j + 1 - 8)[t]);
                }
            }
        }
        j = j + 1;
    }
    assert(d.subrange(0, j - 8) =~= d);
    Some(v)
}

/// Inserts `seg` into a catalog at its newest-first place; a segment whose id is
/// already listed is not added again.
fn insert_newest_first(segs: &mut Vec<DiskSegment>, seg: DiskSegment)
    requires
        catalog_wf(old(segs)@),
        seg.wf(),
    ensures
        catalog_wf(final(segs)@),
        forall|i: int| 0 <= i < old(segs)@.len() ==> final(segs)@.contains(#[trigger] old(segs)@[i]),
        forall|i: int|
            0 <= i < final(segs)@.len() ==> old(segs)@.contains(#[trigger] final(segs)@[i])
                || final(segs)@[i] == seg,
        final(segs)@.contains(seg) || exists|i: int|
            0 <= i < old(segs)@.len() && (#[trigger] old(segs)@[i]).id() == seg.id(),
{
    let id = extract_seg_id(String::from_str(seg.value()));
    let id = match id {
        Some(n) => n,
        None => {
            return;
        },
    };
    let mut pos: usize = 0;
    while pos < segs.len()
        invariant
            pos <= segs@.len(),
            segs@ == old(segs)@,
            seg.id() == id as nat,
            catalog_wf(segs@),
            forall|i: int| 0 <= i < pos ==> (#[trigger] segs@[i]).id() > id,
        ensures
            pos == segs@.len() || segs@[pos as int].id() < id,
            segs@ == old(segs)@,
            catalog_wf(segs@),
            forall|i: int| 0 <= i < pos ==> (#[trigger] segs@[i]).id() > id,
        decreases segs@.len() - pos,
    {
        let other = extract_seg_id(String::from_str(segs[pos].value()));
        let other = match other {
            Some(n) => n,
            None => {
                return;
            },
        };
        if other == id {
            assert(old(segs)@[pos as int].id() == seg.id());
            return;
        }
        if other < id {
            break;
        }
        pos = pos + 1;
    }
    let ghost before = segs@;
    proof {
        if pos < before.len() {
            assert(before[pos as int].id() < id);
            assert forall|i: int| pos < i < before.len() implies (#[trigger] before[i]).id() < id by {
                assert(before[i].id() < before[pos as int].id());
            }
        }
    }
    segs.insert(pos, seg);
    proof {
        assert(segs@ == before.insert(pos as int, seg));
        assert forall|i: int| 0 <= i < segs@.len() implies (#[trigger] segs@[i]).wf() by {
            if i < pos {
                assert(segs@[i] == before[i]);
            } else if i > pos {
                assert(segs@[i] == before[i - 1]);
            }
        }
        assert forall|i: int, k: int| 0 <= i < k < segs@.len() implies segs@[k].id() < segs@[i].id() by {
            if i < pos {
                assert(segs@[i] == before[i]);
            } else if i > pos {
                assert(segs@[i] == before[i - 1]);
            }
            if k < pos {
                assert(segs@[k] == before[k]);
            } else if k > pos {
                assert(segs@[k] == before[k - 1]);
            }
        }
        assert forall|i: int| 0 <= i < old(segs)@.len() implies segs@.contains(
            #[trigger] old(segs)@[i],
        ) by {
            if i < pos {
                assert(segs@[i] == old(segs)@[i]);
            } else {
                assert(segs@[i + 1] == old(segs)@[i]);
            }
        }
        assert(segs@[pos as int] == seg);
        assert forall|i: int| 0 <= i < segs@.len() implies old(segs)@.contains(#[trigger] segs@[i])
            || segs@[i] == seg by {
            if i < pos {
                assert(segs@[i] == old(segs)@[i]);
            } else if i > pos {
                assert(segs@[i] == old(segs)@[i - 1]);
            }
        }
    }
}

/// Every segment of `segs` is at one of the paths `files`.
pub open spec fn paths_listed(segs: Seq<DiskSegment>, files: Seq<String>) -> bool {
    forall|i: int|
        0 <= i < segs.len() ==> exists|j: int|
            0 <= j < files.len() && (#[trigger] files[j])@ == (#[trigger] segs[i]).path()
}

/// The catalog of the segment files at `files`, newest first, each closed until read.
/// Paths whose base name is not `segment_<id>.log` are skipped, as is a second file
/// with an id already listed.
pub fn reclaim_segments(files: Vec<String>) -> (r: Vec<DiskSegment>)
    ensures
        catalog_wf(r@),
        forall|i: int| 0 <= i < r@.len() ==> r@[i] is ClosedSegment,
        paths_listed(r@, files@),
        forall|j: int|
            0 <= j < files@.len() && (#[trigger] seg_id(files@[j]@)) is Some ==> exists|i: int|
                0 <= i < r@.len() && (#[trigger] r@[i]).id() == seg_id(files@[j]@)->0,
{
    let mut segs: Vec<DiskSegment> = Vec::new();
    let mut j: usize = 0;
    while j < files.len()
        invariant
            j <= files@.len(),
            catalog_wf(segs@),
            forall|i: int| 0 <= i < segs@.len() ==> (#[trigger] segs@[i]) is ClosedSegment,
            paths_listed(segs@, files@),
            forall|t: int|
                0 <= t < j && (#[trigger] seg_id(files@[t]@)) is Some ==> exists|i: int|
                    0 <= i < segs@.len() && (#[trigger] segs@[i]).id() == seg_id(files@[t]@)->0,
        decreases files@.len() - j,
    {
        let f = files[j].clone();
        if extract_seg_id(f.clone()).is_some() {
            let seg = DiskSegment::ClosedSegment { path_s: f };
            let ghost before = segs@;
            insert_newest_first(&mut segs, seg);
            proof {
                assert forall|i: int| 0 <= i < segs@.len() implies (#[trigger] segs@[i]) is ClosedSegment
                    && exists|t: int| 0 <= t < files@.len() && (#[trigger] files@[t])@ == segs@[i].path() by {
                    if before.contains(segs@[i]) {
                        let q = choose|q: int| 0 <= q < before.len() && before[q] == segs@[i];
                        assert(before[q] is ClosedSegment);
                    } else {
                        assert(files@[j as int]@ == segs@[i].path());
                    }
                }
                assert forall|t: int| 0 <= t < j + 1 && (#[trigger] seg_id(files@[t]@)) is Some implies exists|i: int|
                    0 <= i < segs@.len() && (#[trigger] segs@[i]).id() == seg_id(files@[t]@)->0 by {
                    if t < j {
                        let i0 = choose|i: int| 0 <= i < before.len() && (#[trigger] before[i]).id() == seg_id(files@[t]@)->0;
                        assert(segs@.contains(before[i0]));
                    } else if segs@.contains(seg) {
                        let i1 = choose|i: int| 0 <= i < segs@.len() && segs@[i] == seg;
                        assert(segs@[i1].id() == seg_id(files@[t]@)->0);
                    } else {
                        let i0 = choose|i: int| 0 <= i < before.len() && (#[trigger] before[i]).id() == seg.id();
                        assert(segs@.contains(before[i0]));
                    }
                }
            }
        }
        j = j + 1;
    }
    segs
}

} // verus!
