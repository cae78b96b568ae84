use vstd::prelude::*;

use crate::storage::codec::{
    apply_op, apply_ops, clean_key, clean_op, clean_value, lemma_parse_ops_text,
    lemma_segment_round_trip, ops_text, parse_records, parse_spec, read_segment, replay, Op,
};
use crate::storage::diskseg::{
    catalog_wf, extract_seg_id, lemma_seg_path_id, paths_listed, reclaim_segments, DiskSegment,
};
use crate::storage::files::{get_seg_path_s, seg_id, seg_path};
use crate::storage::tree::{capped_live_count, clean_index, slot_of, LogSegment, Slot, TriOption};

verus! {

/// How many live entries the active index holds before the next mutation flushes it.
pub const MAX_TREE_SIZE: usize = 100;

/// The answer of a lookup in a whole database: a value, no value (never written or
/// deleted), or the position of a segment that must be read before the answer is known.
pub enum Lookup<S> {
    Found(S),
    NotFound,
    Unloaded(usize),
}

pub open spec fn lookup_view(l: Lookup<String>) -> Lookup<Seq<char>> {
    match l {
        Lookup::Found(s) => Lookup::Found(s@),
        Lookup::NotFound => Lookup::NotFound,
        Lookup::Unloaded(i) => Lookup::Unloaded(i),
    }
}

/// The indexes of the segments, newest first; `None` for a segment not read yet.
pub type Layers = Seq<Option<Map<Seq<char>, Slot>>>;

/// Lookup of `k` in the segments from position `i` on: the first segment that holds `k`
/// decides, a live value is found and a tombstone means no value. An unread segment
/// met first stops the search.
pub open spec fn seg_resolve(segs: Layers, k: Seq<char>, i: int) -> Lookup<Seq<char>>
    decreases segs.len() - i,
{
    if i < 0 || i >= segs.len() {
        Lookup::NotFound
    } else {
        match segs[i] {
            None => Lookup::Unloaded(i as usize),
            Some(m) => match slot_of(m, k) {
                TriOption::TriSome(v) => Lookup::Found(v),
                TriOption::Tombstoned => Lookup::NotFound,
                TriOption::TriNone => seg_resolve(segs, k, i + 1),
            },
        }
    }
}

/// Lookup of `k` in a database: the active index first, then the segments newest first.
pub open spec fn resolve(active: Map<Seq<char>, Slot>, segs: Layers, k: Seq<char>) -> Lookup<
    Seq<char>,
> {
    match slot_of(active, k) {
        TriOption::TriSome(v) => Lookup::Found(v),
        TriOption::Tombstoned => Lookup::NotFound,
        TriOption::TriNone => seg_resolve(segs, k, 0),
    }
}

/// A segment file to be written: where, and what.
pub struct SegmentFile {
    pub path: String,
    pub contents: String,
}

/// A log-structured merge tree: an active in-memory index, and the flushed segments
/// newest first. What reaches the disk (log records, segment files) is handed out to
/// the caller, which writes it before the matching mutation is applied here.
pub struct LsmTree {
    name: String,
    tree: LogSegment,
    max_tree_size: usize,
    log_segments: Vec<DiskSegment>,
}

impl LsmTree {
    pub closed spec fn wf(&self) -> bool {
        &&& self.tree.wf()
        &&& catalog_wf(self.log_segments@)
    }

    /// The model of the active index.
    pub closed spec fn active(&self) -> Map<Seq<char>, Slot> {
        self.tree@
    }

    /// The records of the active index in ascending key order.
    pub closed spec fn active_entries(&self) -> Seq<Op> {
        self.tree.entries()
    }

    /// The segments' indexes, newest first.
    pub closed spec fn layers(&self) -> Layers {
        self.log_segments@.map_values(|s: DiskSegment| s.layer())
    }

    /// The segments' file paths, newest first.
    pub closed spec fn seg_paths(&self) -> Seq<Seq<char>> {
        self.log_segments@.map_values(|s: DiskSegment| s.path())
    }

    pub closed spec fn db_name(&self) -> Seq<char> {
        self.name@
    }

    pub closed spec fn max(&self) -> nat {
        self.max_tree_size as nat
    }

    /// Whether a segment id is left for the next flush.
    pub closed spec fn can_flush(&self) -> bool {
        self.log_segments@.len() == 0 || self.log_segments@[0].id() < usize::MAX
    }

    /// The id of the next segment: one past the newest, which is the number of segments
    /// where the ids run from zero without gaps.
    pub closed spec fn next_id(&self) -> nat {
        if self.log_segments@.len() == 0 {
            0
        } else {
            self.log_segments@[0].id() + 1
        }
    }

    /// The value `k` has in this database.
    pub open spec fn lookup(&self, k: Seq<char>) -> Lookup<Seq<char>> {
        resolve(self.active(), self.layers(), k)
    }

    /// An empty database named `name` that flushes at `max_tree_size` live entries.
    pub fn with_max_tree_size(name: &str, max_tree_size: usize) -> (r: LsmTree)
        ensures
            r.wf(),
            r.active() == Map::<Seq<char>, Slot>::empty(),
            r.layers() == Layers::empty(),
            r.db_name() == name@,
            r.max() == max_tree_size,
            r.can_flush(),
            r.next_id() == 0,
    {
        let r = LsmTree {
            name: String::from_str(name),
            tree: LogSegment::new(),
            max_tree_size,
            log_segments: Vec::new(),
        };
        assert(r.layers() =~= Layers::empty());
        r
    }

    /// A new, empty database named `name`; whatever was on disk under that name is
    /// to be removed by the caller.
    pub fn new_delete_existing(name: &str) -> (r: LsmTree)
        ensures
            r.wf(),
            r.active() == Map::<Seq<char>, Slot>::empty(),
            r.layers() == Layers::empty(),
            r.db_name() == name@,
            r.max() == MAX_TREE_SIZE,
            r.can_flush(),
            r.next_id() == 0,
    {
        LsmTree::with_max_tree_size(name, MAX_TREE_SIZE)
    }

    /// The database `name` as found on disk: its segment files, all unread, and its
    /// write-ahead log replayed into the active index. `None` where a log line is
    /// malformed.
    pub fn new(name: &str, segment_files: Vec<String>, log: &str) -> (r: Option<LsmTree>)
        ensures
            r is Some == parse_spec(log@) is Some,
            r matches Some(t) ==> {
                &&& t.wf()
                &&& t.active() == apply_ops(Map::empty(), parse_spec(log@)->0)
                &&& forall|i: int| 0 <= i < t.layers().len() ==> t.layers()[i] is None
                &&& t.seg_paths().len() == t.layers().len()
                &&& forall|i: int, j: int|
                    0 <= i < j < t.seg_paths().len() ==> seg_id(t.seg_paths()[j])->0 < seg_id(
                        t.seg_paths()[i],
                    )->0
                &&& forall|i: int|
                    0 <= i < t.seg_paths().len() ==> seg_id(#[trigger] t.seg_paths()[i]) is Some
                        && exists|j: int|
                        0 <= j < segment_files@.len() && (#[trigger] segment_files@[j])@
                            == t.seg_paths()[i]
                &&& forall|j: int|
                    0 <= j < segment_files@.len() && (#[trigger] seg_id(segment_files@[j]@)) is Some
                        ==> exists|i: int|
                        0 <= i < t.seg_paths().len() && seg_id(#[trigger] t.seg_paths()[i])
                            == seg_id(segment_files@[j]@)
                &&& t.db_name() == name@
                &&& t.max() == MAX_TREE_SIZE
            },
    {
        let mut t = LsmTree::new_delete_existing(name);
        let ghost files = segment_files@;
        t.log_segments = reclaim_segments(segment_files);
        proof {
            assert forall|i: int| 0 <= i < t.seg_paths().len() implies seg_id(
                #[trigger] t.seg_paths()[i],
            ) is Some && exists|j: int|
                0 <= j < files.len() && (#[trigger] files[j])@ == t.seg_paths()[i] by {
                assert(t.log_segments@[i].wf());
                assert(paths_listed(t.log_segments@, files));
                assert(t.seg_paths()[i] == t.log_segments@[i].path());
            }
            assert forall|j: int|
                0 <= j < files.len() && (#[trigger] seg_id(files[j]@)) is Some implies exists|i: int|
                0 <= i < t.seg_paths().len() && seg_id(#[trigger] t.seg_paths()[i]) == seg_id(
                    files[j]@,
                ) by {
                let i = choose|i: int|
                    0 <= i < t.log_segments@.len() && (#[trigger] t.log_segments@[i]).id() == seg_id(
                        files[j]@,
                    )->0;
                assert(t.log_segments@[i].wf());
                assert(t.seg_paths()[i] == t.log_segments@[i].path());
            }
            assert forall|i: int, j: int|
                0 <= i < j < t.seg_paths().len() implies seg_id(t.seg_paths()[j])->0 < seg_id(
                    t.seg_paths()[i],
                )->0 by {
                assert(t.seg_paths()[i] == t.log_segments@[i].path());
                assert(t.seg_paths()[j] == t.log_segments@[j].path());
            }
        }
        if t.restore(log) {
            Some(t)
        } else {
            None
        }
    }

    /// Replays the write-ahead log `log` onto the active index; on a malformed line
    /// nothing changes and the result is `false`.
    fn restore(&mut self, log: &str) -> (r: bool)
        requires
            old(self).wf(),
        ensures
            final(self).wf(),
            r == parse_spec(log@) is Some,
            r ==> final(self).active() == apply_ops(old(self).active(), parse_spec(log@)->0),
            !r ==> final(self).active() == old(self).active(),
            final(self).log_segments == old(self).log_segments,
            final(self).name == old(self).name,
            final(self).max_tree_size == old(self).max_tree_size,
    {
        match parse_records(log) {
            Some(records) => {
                replay(&mut self.tree, &records);
                true
            },
            None => false,
        }
    }

    /// The number of live entries in the active index.
    pub fn num_entries(&self) -> (r: usize)
        requires
            self.wf(),
        ensures
            r == capped_live_count(self.active()),
    {
        self.tree.size()
    }

    /// The flush threshold.
    pub fn max_entries(&self) -> (r: usize)
        ensures
            r == self.max(),
    {
        self.max_tree_size
    }

    /// The number of flushed segments.
    pub fn total_segments(&self) -> (r: usize)
        ensures
            r == self.layers().len(),
    {
        self.log_segments.len()
    }

    /// The path of the file of segment `i`.
    pub fn segment_path(&self, i: usize) -> (r: &str)
        requires
            i < self.layers().len(),
        ensures
            r@ == self.seg_paths()[i as int],
    {
        self.log_segments[i].value()
    }

    /// The database's name.
    pub fn name(&self) -> (r: &str)
        ensures
            r@ == self.db_name(),
    {
        self.name.as_str()
    }

    /// Looks `key` up in the active index, then in the segments newest first.
    pub fn get(&self, key: &str) -> (r: Lookup<String>)
        requires
            self.wf(),
        ensures
            lookup_view(r) == self.lookup(key@),
    {
        let k = String::from_str(key);
        match self.tree.get(k.clone()) {
            TriOption::TriSome(v) => {
                return Lookup::Found(v);
            },
            TriOption::Tombstoned => {
                return Lookup::NotFound;
            },
            TriOption::TriNone => {},
        }
        let ghost layers = self.layers();
        let mut i: usize = 0;
        while i < self.log_segments.len()
            invariant
                self.wf(),
                layers == self.layers(),
                k@ == key@,
                i <= self.log_segments@.len(),
                self.lookup(key@) == seg_resolve(layers, key@, i as int),
            decreases self.log_segments@.len() - i,
        {
            let seg = &self.log_segments[i];
            assert(layers[i as int] == seg.layer());
            match seg {
                DiskSegment::ClosedSegment { .. } => {
                    return Lookup::Unloaded(i);
                },
                DiskSegment::OpenSegment { tree, .. } => {
                    assert(seg.wf());
                    match tree.get(k.clone()) {
                        TriOption::TriSome(v) => {
                            return Lookup::Found(v);
                        },
                        TriOption::Tombstoned => {
                            return Lookup::NotFound;
                        },
                        TriOption::TriNone => {},
                    }
                },
            }
            i = i + 1;
        }
        Lookup::NotFound
    }

    /// Reads segment `i` from its file contents `text`, keeping its index for later
    /// lookups. An open segment stays as it is. `false` where a line is malformed.
    pub fn open_segment(&mut self, i: usize, text: &str) -> (r: bool)
        requires
            old(self).wf(),
            i < old(self).layers().len(),
        ensures
            final(self).wf(),
            final(self).active() == old(self).active(),
            final(self).db_name() == old(self).db_name(),
            final(self).max() == old(self).max(),
            final(self).can_flush() == old(self).can_flush(),
            final(self).next_id() == old(self).next_id(),
            old(self).layers()[i as int] is Some ==> r && final(self).layers() == old(self).layers(),
            old(self).layers()[i as int] is None ==> {
                &&& r == parse_spec(text@) is Some
                &&& r ==> final(self).layers() == old(self).layers().update(
                    i as int,
                    Some(apply_ops(Map::empty(), parse_spec(text@)->0)),
                )
                &&& !r ==> final(self).layers() == old(self).layers()
            },
    {
        let path = match &self.log_segments[i] {
            DiskSegment::OpenSegment { .. } => {
                return true;
            },
            DiskSegment::ClosedSegment { path_s } => path_s.clone(),
        };
        match read_segment(text) {
            Some(t) => {
                let ghost before = self.log_segments@;
                let seg = DiskSegment::OpenSegment { path_s: path, tree: t };
                assert(seg.path() == before[i as int].path());
                self.log_segments.set(i, seg);
                proof {
                    assert(self.log_segments@ == before.update(i as int, seg));
                    assert forall|j: int| 0 <= j < self.log_segments@.len() implies (
                    #[trigger] self.log_segments@[j]).wf() by {
                        if j != i {
                            assert(self.log_segments@[j] == before[j]);
                        }
                    }
                    assert forall|a: int, b: int|
                        0 <= a < b < self.log_segments@.len() implies self.log_segments@[b].id()
                        < self.log_segments@[a].id() by {
                        assert(self.log_segments@[a].id() == before[a].id());
                        assert(self.log_segments@[b].id() == before[b].id());
                    }
                    assert(self.layers() =~= old(self).layers().update(
                        i as int,
                        Some(apply_ops(Map::empty(), parse_spec(text@)->0)),
                    ));
                }
                true
            },
            None => false,
        }
    }

    /// Moves the active index into a new segment, newest of all, and starts an empty one.
    /// Returns the segment file to be written.
    fn flush_tree(&mut self) -> (r: SegmentFile)
        requires
            old(self).wf(),
            old(self).can_flush(),
        ensures
            final(self).wf(),
            final(self).active() == Map::<Seq<char>, Slot>::empty(),
            final(self).layers() == seq![Some(old(self).active())] + old(self).layers(),
            final(self).db_name() == old(self).db_name(),
            final(self).max() == old(self).max(),
            final(self).next_id() == old(self).next_id() + 1,
            r.path@ == seg_path(old(self).db_name(), old(self).next_id()),
            r.contents@ == ops_text(old(self).active_entries()),
            clean_index(old(self).active()) ==> parse_spec(r.contents@) == Some(
                old(self).active_entries(),
            ) && apply_ops(Map::empty(), old(self).active_entries()) == old(self).active(),
    {
        proof {
            if clean_index(self.tree@) {
                lemma_segment_round_trip(self.tree);
            }
        }
        let id: usize = if self.log_segments.len() == 0 {
            0
        } else {
            let newest = extract_seg_id(
                String::from_str(self.log_segments[0].value()),
            );
            match newest {
                Some(n) => n + 1,
                None => {
                    assert(self.log_segments@[0].wf());
                    0
                },
            }
        };
        assert(id == self.next_id());
        let path = get_seg_path_s(self.name.as_str(), id);
        let contents = self.tree.serialize();
        let mut tree = LogSegment::new();
        std::mem::swap(&mut tree, &mut self.tree);
        let seg = DiskSegment::OpenSegment { path_s: path.clone(), tree };
        proof {
            lemma_seg_path_id(self.name@, id as nat);
        }
        let ghost before = self.log_segments@;
        self.log_segments.insert(0, seg);
        proof {
            assert(self.log_segments@ == before.insert(0, seg));
            assert forall|j: int| 0 <= j < self.log_segments@.len() implies (
            #[trigger] self.log_segments@[j]).wf() by {
                if j > 0 {
                    assert(self.log_segments@[j] == before[j - 1]);
                }
            }
            assert forall|a: int, b: int|
                0 <= a < b < self.log_segments@.len() implies self.log_segments@[b].id()
                < self.log_segments@[a].id() by {
                assert(self.log_segments@[b] == before[b - 1]);
                if a > 0 {
                    assert(self.log_segments@[a] == before[a - 1]);
                } else if b > 1 {
                    assert(before[b - 1].id() < before[0].id());
                }
            }
            assert(self.layers() =~= seq![Some(old(self).active())] + old(self).layers());
        }
        SegmentFile { path, contents }
    }

    /// Flushes the active index when it holds at least the threshold of live entries
    /// and a segment id is left; returns the segment file to be written then.
    pub fn flush_if_full(&mut self) -> (r: Option<SegmentFile>)
        requires
            old(self).wf(),
        ensures
            final(self).wf(),
            final(self).db_name() == old(self).db_name(),
            final(self).max() == old(self).max(),
            r is Some == (capped_live_count(old(self).active()) >= old(self).max()
                && old(self).can_flush()),
            r is None ==> final(self).active() == old(self).active() && final(self).layers()
                == old(self).layers() && final(self).next_id() == old(self).next_id(),
            r matches Some(f) ==> {
                &&& final(self).active() == Map::<Seq<char>, Slot>::empty()
                &&& final(self).layers() == seq![Some(old(self).active())] + old(self).layers()
                &&& final(self).next_id() == old(self).next_id() + 1
                &&& f.path@ == seg_path(old(self).db_name(), old(self).next_id())
                &&& f.contents@ == ops_text(old(self).active_entries())
                &&& clean_index(old(self).active()) ==> parse_spec(f.contents@) == Some(
                    old(self).active_entries(),
                ) && apply_ops(Map::empty(), old(self).active_entries()) == old(self).active()
            },
    {
        let can = if self.log_segments.len() == 0 {
            true
        } else {
            match extract_seg_id(
                String::from_str(self.log_segments[0].value()),
            ) {
                Some(n) => n < usize::MAX,
                None => false,
            }
        };
        if self.num_entries() >= self.max_tree_size && can {
            Some(self.flush_tree())
        } else {
            None
        }
    }

    /// Applies a write of `value` under `key` whose log record was appended, as
    /// `logged` tells; without it nothing changes and the result is `false`.
    pub fn write(&mut self, key: &str, value: &str, logged: bool) -> (r: bool)
        requires
            old(self).wf(),
            clean_key(key@),
            clean_value(value@),
        ensures
            final(self).wf(),
            r == logged,
            final(self).active() == if logged {
                old(self).active().insert(key@, TriOption::TriSome(value@))
            } else {
                old(self).active()
            },
            final(self).layers() == old(self).layers(),
            final(self).db_name() == old(self).db_name(),
            final(self).max() == old(self).max(),
            final(self).can_flush() == old(self).can_flush(),
            final(self).next_id() == old(self).next_id(),
    {
        if !logged {
            return false;
        }
        self.tree.insert((String::from_str(key), String::from_str(value)));
        true
    }

    /// Applies a deletion of `key` whose log record was appended, as `logged` tells;
    /// without it nothing changes and the result is `false`.
    pub fn delete(&mut self, key: &str, logged: bool) -> (r: bool)
        requires
            old(self).wf(),
            clean_key(key@),
        ensures
            final(self).wf(),
            r == logged,
            final(self).active() == if logged {
                old(self).active().insert(key@, TriOption::Tombstoned)
            } else {
                old(self).active()
            },
            final(self).layers() == old(self).layers(),
            final(self).db_name() == old(self).db_name(),
            final(self).max() == old(self).max(),
            final(self).can_flush() == old(self).can_flush(),
            final(self).next_id() == old(self).next_id(),
    {
        if !logged {
            return false;
        }
        self.tree.delete(String::from_str(key));
        true
    }
}

/// A database in the model: the active index and the segments newest first.
pub type Model = (Map<Seq<char>, Slot>, Layers);

/// The database after a flush: an empty active index, the old one as the newest segment.
pub open spec fn flushed(m: Model) -> Model {
    (Map::empty(), seq![Some(m.0)] + m.1)
}

/// One mutation as the engine performs it: `flush_if_full` (which flushes or not, as
/// `flush` says), then `write` or `delete` with its log record appended.
pub open spec fn model_step(m: Model, op: Op, flush: bool) -> Model {
    let m1 = if flush {
        flushed(m)
    } else {
        m
    };
    (apply_op(m1.0, op), m1.1)
}

/// A sequence of mutations, each with its flush decision, from `m` on.
pub open spec fn run_model(m: Model, steps: Seq<(Op, bool)>) -> Model
    decreases steps.len(),
{
    if steps.len() == 0 {
        m
    } else {
        let prev = run_model(m, steps.drop_last());
        model_step(prev, steps.last().0, steps.last().1)
    }
}

/// What a mutation leaves a key with: its value, or none after a deletion.
pub open spec fn op_result(v: Option<Seq<char>>) -> Lookup<Seq<char>> {
    match v {
        Some(x) => Lookup::Found(x),
        None => Lookup::NotFound,
    }
}

/// The outcome of the last mutation of `k` among `steps`, if any.
pub open spec fn last_op(steps: Seq<(Op, bool)>, k: Seq<char>) -> Option<Lookup<Seq<char>>>
    decreases steps.len(),
{
    if steps.len() == 0 {
        None
    } else if steps.last().0.0 == k {
        Some(op_result(steps.last().0.1))
    } else {
        last_op(steps.drop_last(), k)
    }
}

proof fn lemma_seg_resolve_shift(x: Option<Map<Seq<char>, Slot>>, segs: Layers, k: Seq<char>, i: int)
    requires
        0 <= i,
        forall|j: int| 0 <= j < segs.len() ==> segs[j] is Some,
    ensures
        seg_resolve(seq![x] + segs, k, i + 1) == seg_resolve(segs, k, i),
    decreases segs.len() - i,
{
    let all = seq![x] + segs;
    if i < segs.len() {
        assert(all[i + 1] == segs[i]);
        lemma_seg_resolve_shift(x, segs, k, i + 1);
    }
}

/// A flush changes no lookup of a fully read database.
pub proof fn lemma_flush_keeps_lookup(m: Model, k: Seq<char>)
    requires
        forall|i: int| 0 <= i < m.1.len() ==> m.1[i] is Some,
    ensures
        resolve(flushed(m).0, flushed(m).1, k) == resolve(m.0, m.1, k),
{
    let f = flushed(m);
    assert(f.1[0] == Some(m.0));
    lemma_seg_resolve_shift(Some(m.0), m.1, k, 0);
}

proof fn lemma_step_fully_read(m: Model, op: Op, flush: bool)
    requires
        forall|i: int| 0 <= i < m.1.len() ==> m.1[i] is Some,
    ensures
        forall|i: int|
            0 <= i < model_step(m, op, flush).1.len() ==> (#[trigger] model_step(m, op, flush).1[i]) is Some,
{
    if flush {
        assert forall|i: int| 0 <= i < flushed(m).1.len() implies (#[trigger] flushed(m).1[i]) is Some by {
            if i > 0 {
                assert(flushed(m).1[i] == m.1[i - 1]);
            }
        }
    }
}

/// Every segment of a model built by mutations from a fully read database is read.
pub proof fn lemma_run_fully_read(m: Model, steps: Seq<(Op, bool)>)
    requires
        forall|i: int| 0 <= i < m.1.len() ==> m.1[i] is Some,
    ensures
        forall|i: int|
            0 <= i < run_model(m, steps).1.len() ==> (#[trigger] run_model(m, steps).1[i]) is Some,
    decreases steps.len(),
{
    if steps.len() > 0 {
        lemma_run_fully_read(m, steps.drop_last());
        lemma_step_fully_read(run_model(m, steps.drop_last()), steps.last().0, steps.last().1);
    }
}

/// After one mutation of a fully read database, its key has the written value, or
/// none after a deletion, and every other key keeps its value.
pub proof fn lemma_step_lookup(m: Model, op: Op, flush: bool, k: Seq<char>)
    requires
        forall|i: int| 0 <= i < m.1.len() ==> m.1[i] is Some,
    ensures
        resolve(model_step(m, op, flush).0, model_step(m, op, flush).1, k) == if op.0 == k {
            op_result(op.1)
        } else {
            resolve(m.0, m.1, k)
        },
{
    if flush {
        lemma_flush_keeps_lookup(m, k);
    }
}

/// Last mutation wins: after any sequence of writes and deletions, with a flush before
/// any of them, a key has the value of its last write, none if its last mutation was a
/// deletion, and the value it had before where it was not mutated.
pub proof fn lemma_last_write_wins(m: Model, steps: Seq<(Op, bool)>, k: Seq<char>)
    requires
        forall|i: int| 0 <= i < m.1.len() ==> m.1[i] is Some,
    ensures
        resolve(run_model(m, steps).0, run_model(m, steps).1, k) == match last_op(steps, k) {
            Some(r) => r,
            None => resolve(m.0, m.1, k),
        },
    decreases steps.len(),
{
    if steps.len() > 0 {
        lemma_last_write_wins(m, steps.drop_last(), k);
        lemma_run_fully_read(m, steps.drop_last());
        lemma_step_lookup(run_model(m, steps.drop_last()), steps.last().0, steps.last().1, k);
    }
}

/// A deletion shadows an earlier write of the same key, whatever older segments hold.
pub proof fn lemma_tombstone_precedence(
    m: Model,
    k: Seq<char>,
    v: Seq<char>,
    flush_write: bool,
    flush_delete: bool,
)
    requires
        forall|i: int| 0 <= i < m.1.len() ==> m.1[i] is Some,
    ensures
        ({
            let after = model_step(model_step(m, (k, Some(v)), flush_write), (k, None), flush_delete);
            resolve(after.0, after.1, k) == Lookup::<Seq<char>>::NotFound
        }),
{
    let m1 = model_step(m, (k, Some(v)), flush_write);
    lemma_step_fully_read(m, (k, Some(v)), flush_write);
    lemma_step_lookup(m1, (k, None), flush_delete, k);
}

/// The active index shadows the segments: writing `k1` gives it the new value, and a
/// key `k2` that was not written keeps the value it had, also from a segment.
pub proof fn lemma_shadowing(m: Model, k1: Seq<char>, v1: Seq<char>, k2: Seq<char>, flush: bool)
    requires
        forall|i: int| 0 <= i < m.1.len() ==> m.1[i] is Some,
        k1 != k2,
    ensures
        resolve(model_step(m, (k1, Some(v1)), flush).0, model_step(m, (k1, Some(v1)), flush).1, k1)
            == Lookup::Found(v1),
        resolve(model_step(m, (k1, Some(v1)), flush).0, model_step(m, (k1, Some(v1)), flush).1, k2)
            == resolve(m.0, m.1, k2),
{
    lemma_step_lookup(m, (k1, Some(v1)), flush, k1);
    lemma_step_lookup(m, (k1, Some(v1)), flush, k2);
}

/// Newest first: where neither the active index nor any newer segment holds `k`, the
/// value of `k` in segment `i` is the answer, whatever older segments hold.
pub proof fn lemma_newest_first(
    active: Map<Seq<char>, Slot>,
    segs: Layers,
    k: Seq<char>,
    i: int,
    v: Seq<char>,
)
    requires
        0 <= i < segs.len(),
        slot_of(active, k) is TriNone,
        forall|j: int|
            0 <= j < i ==> segs[j] is Some && slot_of(#[trigger] segs[j]->0, k) is TriNone,
        segs[i] is Some,
        slot_of(segs[i]->0, k) == TriOption::TriSome(v),
    ensures
        resolve(active, segs, k) == Lookup::Found(v),
{
    lemma_newest_first_from(segs, k, 0, i, v);
}

proof fn lemma_newest_first_from(segs: Layers, k: Seq<char>, from: int, i: int, v: Seq<char>)
    requires
        0 <= from <= i < segs.len(),
        forall|j: int|
            0 <= j < i ==> segs[j] is Some && slot_of(#[trigger] segs[j]->0, k) is TriNone,
        segs[i] is Some,
        slot_of(segs[i]->0, k) == TriOption::TriSome(v),
    ensures
        seg_resolve(segs, k, from) == Lookup::Found(v),
    decreases i - from,
{
    if from < i {
        assert(segs[from] is Some && slot_of(segs[from]->0, k) is TriNone);
        lemma_newest_first_from(segs, k, from + 1, i, v);
    }
}

/// The same mutations without any flush.
pub open spec fn without_flushes(steps: Seq<(Op, bool)>) -> Seq<(Op, bool)> {
    steps.map_values(|s: (Op, bool)| (s.0, false))
}

/// The mutations of a sequence of steps.
pub open spec fn step_ops(steps: Seq<(Op, bool)>) -> Seq<Op> {
    steps.map_values(|s: (Op, bool)| s.0)
}

proof fn lemma_run_without_flushes(steps: Seq<(Op, bool)>, k: Seq<char>)
    ensures
        run_model((Map::empty(), Layers::empty()), without_flushes(steps)) == (
            apply_ops(Map::empty(), step_ops(steps)),
            Layers::empty(),
        ),
        last_op(without_flushes(steps), k) == last_op(steps, k),
    decreases steps.len(),
{
    if steps.len() > 0 {
        lemma_run_without_flushes(steps.drop_last(), k);
        assert(without_flushes(steps).drop_last() =~= without_flushes(steps.drop_last()));
        assert(step_ops(steps).drop_last() =~= step_ops(steps.drop_last()));
    }
}

/// Restoring from the log reproduces every lookup: a new database that went through
/// any writes and deletions of clean keys and values, with any flushes, answers each
/// key as the database rebuilt by replaying the log lines of those mutations.
pub proof fn lemma_restore_matches(steps: Seq<(Op, bool)>, k: Seq<char>)
    requires
        forall|i: int| 0 <= i < steps.len() ==> clean_op_step(#[trigger] steps[i]),
    ensures
        parse_spec(ops_text(step_ops(steps))) == Some(step_ops(steps)),
        resolve(
            run_model((Map::empty(), Layers::empty()), steps).0,
            run_model((Map::empty(), Layers::empty()), steps).1,
            k,
        ) == resolve(
            apply_ops(Map::empty(), parse_spec(ops_text(step_ops(steps)))->0),
            Layers::empty(),
            k,
        ),
{
    let ops = step_ops(steps);
    assert forall|i: int| 0 <= i < ops.len() implies clean_op(
        #[trigger] ops[i],
    ) by {
        assert(clean_op_step(steps[i]));
    }
    lemma_parse_ops_text(ops);
    let m0: Model = (Map::empty(), Layers::empty());
    lemma_last_write_wins(m0, steps, k);
    lemma_last_write_wins(m0, without_flushes(steps), k);
    lemma_run_without_flushes(steps, k);
}

pub open spec fn clean_op_step(s: (Op, bool)) -> bool {
    clean_op(s.0)
}

} // verus!
