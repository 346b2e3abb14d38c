//! The process table, the parent/child graph it defines, and the plan of which
//! processes to kill.

use std::collections::HashMap;

use vstd::prelude::*;

use crate::error::WrathError;
use crate::inspect::{describes, views, ProcessInfo};
use crate::text::{chars_eq_ignore_ascii_case, chars_of, decimal, eq_ignore_ascii_case, push_decimal, push_str};

verus! {

broadcast use vstd::std_specs::hash::group_hash_axioms;

/// What is known of one running process.
pub struct ProcEntry {
    /// Its process ID.
    pub pid: u32,
    /// The process ID of its parent, if it has one.
    pub parent: Option<u32>,
    /// Its executable name.
    pub name: String,
    /// Its command line, the executable first.
    pub cmd: Vec<String>,
    /// Path of its executable, if known.
    pub exe: Option<String>,
    /// Its working directory, if known.
    pub cwd: Option<String>,
    /// Name of the user running it, if known.
    pub user: Option<String>,
    /// Resident memory, in bytes.
    pub memory: u64,
    /// Time since it started, in seconds.
    pub run_time: u64,
}

/// Whether no two entries of `s` share a process ID.
pub open spec fn pids_distinct(s: Seq<ProcEntry>) -> bool {
    forall|i: int, j: int|
        0 <= i < s.len() && 0 <= j < s.len() && i != j ==> #[trigger] s[i].pid != #[trigger] s[j].pid
}

/// Whether some entry of `s` has process ID `p`.
pub open spec fn has_pid(s: Seq<ProcEntry>, p: u32) -> bool {
    exists|i: int| 0 <= i < s.len() && #[trigger] s[i].pid == p
}

/// The entries of `s` keyed by process ID.
pub open spec fn table_of(s: Seq<ProcEntry>) -> Map<u32, ProcEntry> {
    Map::new(
        |p: u32| has_pid(s, p),
        |p: u32| s[choose|i: int| 0 <= i < s.len() && #[trigger] s[i].pid == p],
    )
}

proof fn lemma_table_of_at(s: Seq<ProcEntry>, i: int)
    requires
        pids_distinct(s),
        0 <= i < s.len(),
    ensures
        table_of(s).contains_key(s[i].pid),
        table_of(s)[s[i].pid] == s[i],
{
    let p = s[i].pid;
    assert(has_pid(s, p));
    let j = choose|j: int| 0 <= j < s.len() && #[trigger] s[j].pid == p;
    assert(j == i);
}

/// The running processes, keyed by process ID.
pub struct ProcessTable {
    entries: Vec<ProcEntry>,
}

impl View for ProcessTable {
    type V = Map<u32, ProcEntry>;

    closed spec fn view(&self) -> Map<u32, ProcEntry> {
        table_of(self.entries@)
    }
}

impl ProcessTable {
    #[verifier::type_invariant]
    closed spec fn keyed(&self) -> bool {
        pids_distinct(self.entries@)
    }

    /// An empty table.
    pub fn new() -> (t: Self)
        ensures
            t@ == Map::<u32, ProcEntry>::empty(),
    {
        let t = ProcessTable { entries: Vec::new() };
        assert(t@ =~= Map::<u32, ProcEntry>::empty());
        t
    }

    /// Records `entry`, replacing the entry that had its process ID, if any.
    pub fn insert(&mut self, entry: ProcEntry)
        ensures
            final(self)@ == old(self)@.insert(entry.pid, entry),
    {
        proof {
            use_type_invariant(&*self);
        }
        let ghost old_entries = self.entries@;
        let pid = entry.pid;
        let mut entries: Vec<ProcEntry> = Vec::new();
        std::mem::swap(&mut entries, &mut self.entries);
        let mut i: usize = 0;
        while i < entries.len()
            invariant
                i <= entries@.len(),
                entries@ == old_entries,
                old(self)@ == table_of(old_entries),
                pid == entry.pid,
                pids_distinct(old_entries),
                forall|j: int| 0 <= j < i ==> #[trigger] old_entries[j].pid != pid,
            decreases entries@.len() - i,
        {
            if entries[i].pid == pid {
                let ghost new_entries = old_entries.update(i as int, entry);
                assert(old_entries[i as int].pid == pid);
                assert(entry.pid == pid);
                assert forall|k: int| 0 <= k < new_entries.len() implies #[trigger] new_entries[k].pid
                    == old_entries[k].pid by {};
                assert(pids_distinct(new_entries));
                assert forall|p: u32| #![trigger has_pid(new_entries, p)]
                    has_pid(new_entries, p) == (has_pid(old_entries, p) || p == pid) by {
                    if has_pid(old_entries, p) {
                        let k = choose|k: int| 0 <= k < old_entries.len() && #[trigger] old_entries[k].pid == p;
                        assert(new_entries[k].pid == p);
                    }
                    if p == pid {
                        assert(new_entries[i as int].pid == p);
                    }
                    if has_pid(new_entries, p) {
                        let k = choose|k: int| 0 <= k < new_entries.len() && #[trigger] new_entries[k].pid == p;
                        if k != i {
                            assert(old_entries[k].pid == p);
                        }
                    }
                };
                assert forall|p: u32| #[trigger] has_pid(new_entries, p) implies table_of(
                    new_entries,
                )[p] == table_of(old_entries).insert(pid, entry)[p] by {
                    let k = choose|k: int| 0 <= k < new_entries.len() && #[trigger] new_entries[k].pid == p;
                    lemma_table_of_at(new_entries, k);
                    if k != i {
                        lemma_table_of_at(old_entries, k);
                    }
                };
                assert(table_of(new_entries) =~= table_of(old_entries).insert(pid, entry));
                entries.set(i, entry);
                assert(entries@ == new_entries);
                self.entries = entries;
                return ;
            }
            i = i + 1;
        }
        let ghost new_entries = old_entries.push(entry);
        assert(pids_distinct(new_entries));
        assert forall|p: u32| #![trigger has_pid(new_entries, p)]
            has_pid(new_entries, p) == (has_pid(old_entries, p) || p == pid) by {
            if has_pid(old_entries, p) {
                let k = choose|k: int| 0 <= k < old_entries.len() && #[trigger] old_entries[k].pid == p;
                assert(new_entries[k].pid == p);
            }
            if p == pid {
                assert(new_entries[old_entries.len() as int].pid == p);
            }
            if has_pid(new_entries, p) {
                let k = choose|k: int| 0 <= k < new_entries.len() && #[trigger] new_entries[k].pid == p;
                if k != old_entries.len() {
                    assert(old_entries[k].pid == p);
                }
            }
        };
        assert forall|p: u32| #[trigger] has_pid(new_entries, p) implies table_of(new_entries)[p]
            == table_of(old_entries).insert(pid, entry)[p] by {
            let k = choose|k: int| 0 <= k < new_entries.len() && #[trigger] new_entries[k].pid == p;
            lemma_table_of_at(new_entries, k);
            if k != old_entries.len() {
                lemma_table_of_at(old_entries, k);
            }
        };
        assert(table_of(new_entries) =~= table_of(old_entries).insert(pid, entry));
        entries.push(entry);
        self.entries = entries;
    }

    /// The entry of process `pid`, if there is one.
    pub fn get(&self, pid: u32) -> (r: Option<&ProcEntry>)
        ensures
            match r {
                Some(e) => self@.contains_key(pid) && *e == self@[pid],
                None => !self@.contains_key(pid),
            },
    {
        proof {
            use_type_invariant(self);
        }
        let mut i: usize = 0;
        while i < self.entries.len()
            invariant
                i <= self.entries@.len(),
                pids_distinct(self.entries@),
                forall|j: int| 0 <= j < i ==> #[trigger] self.entries@[j].pid != pid,
            decreases self.entries@.len() - i,
        {
            if self.entries[i].pid == pid {
                proof {
                    lemma_table_of_at(self.entries@, i as int);
                }
                return Some(&self.entries[i]);
            }
            i = i + 1;
        }
        None
    }

    /// The number of processes in the table.
    pub fn len(&self) -> (n: usize)
        ensures
            n == self@.dom().len(),
    {
        proof {
            use_type_invariant(self);
            lemma_table_dom(self.entries@);
        }
        self.entries.len()
    }
}

/// A `u32` sequence without repeats is no longer than the number of `u32` values.
proof fn lemma_distinct_u32_bound(s: Seq<u32>)
    requires
        s.no_duplicates(),
    ensures
        s.len() <= 0x1_0000_0000,
{
    let t = s.map_values(|x: u32| x as int);
    assert(t.no_duplicates()) by {
        assert forall|i: int, j: int| 0 <= i < t.len() && 0 <= j < t.len() && i != j implies t[i]
            != t[j] by {
            assert(s[i] != s[j]);
        };
    };
    t.unique_seq_to_set();
    let range = vstd::set_lib::set_int_range(0, 0x1_0000_0000);
    vstd::set_lib::lemma_int_range(0, 0x1_0000_0000);
    assert forall|x: int| t.to_set().contains(x) implies range.contains(x) by {
        assert(t.contains(x));
        let i = choose|i: int| 0 <= i < t.len() && t[i] == x;
        assert(t[i] == s[i] as int);
    };
    vstd::set_lib::lemma_len_subset(t.to_set(), range);
}

proof fn lemma_table_dom(s: Seq<ProcEntry>)
    requires
        pids_distinct(s),
    ensures
        table_of(s).dom().finite(),
        table_of(s).dom().len() == s.len(),
{
    let ps = s.map_values(|e: ProcEntry| e.pid);
    assert(ps.no_duplicates()) by {
        assert forall|i: int, j: int| 0 <= i < ps.len() && 0 <= j < ps.len() && i != j implies ps[i]
            != ps[j] by {
            assert(s[i].pid != s[j].pid);
        };
    };
    ps.unique_seq_to_set();
    assert forall|p: u32| table_of(s).dom().contains(p) <==> ps.to_set().contains(p) by {
        if table_of(s).dom().contains(p) {
            let i = choose|i: int| 0 <= i < s.len() && #[trigger] s[i].pid == p;
            assert(ps[i] == p);
        }
        if ps.to_set().contains(p) {
            let i = choose|i: int| 0 <= i < ps.len() && ps[i] == p;
            assert(s[i].pid == p);
        }
    };
    assert(table_of(s).dom() =~= ps.to_set());
}

/// Whether `path` follows `rel` from each element to the next.
pub open spec fn is_chain(rel: spec_fn(u32, u32) -> bool, path: Seq<u32>) -> bool {
    &&& path.len() >= 1
    &&& forall|i: int, j: int|
        #![trigger path[i], path[j]]
        0 <= i && j == i + 1 && j < path.len() ==> rel(path[i], path[j])
}

/// Whether `b` can be reached from `a` by following `rel` zero or more times.
pub open spec fn reaches(rel: spec_fn(u32, u32) -> bool, a: u32, b: u32) -> bool {
    exists|path: Seq<u32>| #[trigger] is_chain(rel, path) && path[0] == a && path.last() == b
}

/// The relation "`c` is listed among the children of `p`" of a children map.
pub open spec fn map_edge(m: Map<u32, Vec<u32>>) -> spec_fn(u32, u32) -> bool {
    |p: u32, c: u32| m.contains_key(p) && m[p]@.contains(c)
}

/// The relation "`c` is a process whose parent is `p`" of a process table.
pub open spec fn table_edge(t: Map<u32, ProcEntry>) -> spec_fn(u32, u32) -> bool {
    |p: u32, c: u32| t.contains_key(c) && t[c].parent == Some(p)
}

/// Whether `s` is in strictly increasing order.
pub open spec fn increasing(s: Seq<u32>) -> bool {
    forall|i: int, j: int| 0 <= i < j < s.len() ==> s[i] < s[j]
}

pub proof fn lemma_reaches_self(rel: spec_fn(u32, u32) -> bool, a: u32)
    ensures
        reaches(rel, a, a),
{
    assert(is_chain(rel, seq![a]));
}

pub proof fn lemma_reaches_step(rel: spec_fn(u32, u32) -> bool, a: u32, b: u32, c: u32)
    requires
        reaches(rel, a, b),
        rel(b, c),
    ensures
        reaches(rel, a, c),
{
    let path = choose|path: Seq<u32>| #[trigger] is_chain(rel, path) && path[0] == a && path.last() == b;
    let p2 = path.push(c);
    assert forall|i: int, j: int| 0 <= i && j == i + 1 && j < p2.len() implies rel(
        #[trigger] p2[i],
        #[trigger] p2[j],
    ) by {
        if j < path.len() {
            assert(path[i] == p2[i] && path[j] == p2[j]);
        }
    };
    assert(is_chain(rel, p2));
}

/// A set closed under `rel` that holds the first element of a chain holds its last one.
proof fn lemma_closed_holds_chain(
    rel: spec_fn(u32, u32) -> bool,
    inside: spec_fn(u32) -> bool,
    path: Seq<u32>,
)
    requires
        is_chain(rel, path),
        inside(path[0]),
        forall|u: u32, v: u32| inside(u) && #[trigger] rel(u, v) ==> inside(v),
    ensures
        inside(path.last()),
    decreases path.len(),
{
    if path.len() > 1 {
        let shorter = path.drop_last();
        assert forall|i: int, j: int| 0 <= i && j == i + 1 && j < shorter.len() implies rel(
            #[trigger] shorter[i],
            #[trigger] shorter[j],
        ) by {
            assert(path[i] == shorter[i] && path[j] == shorter[j]);
        };
        lemma_closed_holds_chain(rel, inside, shorter);
        let n = path.len() - 1;
        assert(rel(path[n - 1], path[n]));
    }
}

/// Whether `v` holds `x`.
pub fn contains_pid(v: &Vec<u32>, x: u32) -> (r: bool)
    ensures
        r == v@.contains(x),
{
    let mut i: usize = 0;
    while i < v.len()
        invariant
            i <= v@.len(),
            forall|j: int| 0 <= j < i ==> v@[j] != x,
        decreases v@.len() - i,
    {
        if v[i] == x {
            return true;
        }
        i = i + 1;
    }
    false
}

fn insert_sorted(v: &mut Vec<u32>, x: u32)
    requires
        increasing(old(v)@),
        !old(v)@.contains(x),
    ensures
        increasing(final(v)@),
        forall|y: u32| final(v)@.contains(y) <==> (old(v)@.contains(y) || y == x),
{
    let mut pos: usize = 0;
    while pos < v.len() && v[pos] < x
        invariant
            pos <= v@.len(),
            forall|j: int| 0 <= j < pos ==> v@[j] < x,
        decreases v@.len() - pos,
    {
        pos = pos + 1;
    }
    let ghost before = v@;
    v.insert(pos, x);
    assert forall|i: int, j: int| 0 <= i < j < v@.len() implies v@[i] < v@[j] by {
        if pos < before.len() {
            assert(before[pos as int] != x);
        }
    };
    assert forall|y: u32| v@.contains(y) <==> (before.contains(y) || y == x) by {
        if v@.contains(y) {
            let k = choose|k: int| 0 <= k < v@.len() && v@[k] == y;
            if k < pos {
                assert(before[k] == y);
            } else if k > pos {
                assert(before[k - 1] == y);
            }
        }
        if before.contains(y) {
            let k = choose|k: int| 0 <= k < before.len() && before[k] == y;
            if k < pos {
                assert(v@[k] == y);
            } else {
                assert(v@[k + 1] == y);
            }
        }
        if y == x {
            assert(v@[pos as int] == y);
        }
    };
}

impl ProcessTable {
    /// Every process mapped to its direct children, each list in increasing order.
    pub fn children_map(&self) -> (m: HashMap<u32, Vec<u32>>)
        ensures
            forall|p: u32, c: u32| #[trigger] map_edge(m@)(p, c) <==> table_edge(self@)(p, c),
            forall|p: u32| #[trigger] m@.contains_key(p) ==> increasing(m@[p]@) && m@[p]@.len() > 0,
    {
        proof {
            use_type_invariant(self);
        }
        let mut m: HashMap<u32, Vec<u32>> = HashMap::new();
        let mut i: usize = 0;
        while i < self.entries.len()
            invariant
                i <= self.entries@.len(),
                pids_distinct(self.entries@),
                forall|p: u32, c: u32| #[trigger]
                    map_edge(m@)(p, c) <==> (exists|j: int|
                        0 <= j < i && #[trigger] self.entries@[j].pid == c && self.entries@[j].parent
                            == Some(p)),
                forall|p: u32| #[trigger]
                    m@.contains_key(p) ==> increasing(m@[p]@) && m@[p]@.len() > 0,
            decreases self.entries@.len() - i,
        {
            let pid = self.entries[i].pid;
            match self.entries[i].parent {
                Some(p) => {
                    let ghost before = m@;
                    let mut kids: Vec<u32> = match m.remove(&p) {
                        Some(v) => v,
                        None => Vec::new(),
                    };
                    assert(!kids@.contains(pid)) by {
                        if kids@.contains(pid) {
                            assert(map_edge(before)(p, pid));
                            let j = choose|j: int|
                                0 <= j < i && #[trigger] self.entries@[j].pid == pid
                                    && self.entries@[j].parent == Some(p);
                            assert(self.entries@[j].pid == self.entries@[i as int].pid);
                        }
                    };
                    insert_sorted(&mut kids, pid);
                    m.insert(p, kids);
                    assert forall|q: u32, c: u32| #[trigger]
                        map_edge(m@)(q, c) <==> (exists|j: int|
                            0 <= j < i + 1 && #[trigger] self.entries@[j].pid == c
                                && self.entries@[j].parent == Some(q)) by {
                        if q == p {
                            if map_edge(m@)(q, c) && c != pid {
                                assert(map_edge(before)(q, c));
                            }
                            if c == pid {
                                assert(self.entries@[i as int].pid == c);
                            }
                            if (exists|j: int|
                                0 <= j < i + 1 && #[trigger] self.entries@[j].pid == c
                                    && self.entries@[j].parent == Some(q)) && c != pid {
                                let j = choose|j: int|
                                    0 <= j < i + 1 && #[trigger] self.entries@[j].pid == c
                                        && self.entries@[j].parent == Some(q);
                                assert(j != i);
                                assert(map_edge(before)(q, c));
                            }
                        } else {
                            assert(map_edge(m@)(q, c) == map_edge(before)(q, c));
                            if (exists|j: int|
                                0 <= j < i + 1 && #[trigger] self.entries@[j].pid == c
                                    && self.entries@[j].parent == Some(q)) {
                                let j = choose|j: int|
                                    0 <= j < i + 1 && #[trigger] self.entries@[j].pid == c
                                        && self.entries@[j].parent == Some(q);
                                assert(j != i);
                            }
                        }
                    };
                },
                None => {
                    assert forall|q: u32, c: u32| #[trigger]
                        map_edge(m@)(q, c) <==> (exists|j: int|
                            0 <= j < i + 1 && #[trigger] self.entries@[j].pid == c
                                && self.entries@[j].parent == Some(q)) by {
                        if (exists|j: int|
                            0 <= j < i + 1 && #[trigger] self.entries@[j].pid == c
                                && self.entries@[j].parent == Some(q)) {
                            let j = choose|j: int|
                                0 <= j < i + 1 && #[trigger] self.entries@[j].pid == c
                                    && self.entries@[j].parent == Some(q);
                            assert(j != i);
                        }
                    };
                },
            }
            i = i + 1;
        }
        assert forall|p: u32, c: u32| #[trigger] map_edge(m@)(p, c) <==> table_edge(self@)(p, c) by {
            if map_edge(m@)(p, c) {
                let j = choose|j: int|
                    0 <= j < self.entries@.len() && #[trigger] self.entries@[j].pid == c
                        && self.entries@[j].parent == Some(p);
                lemma_table_of_at(self.entries@, j);
            }
            if table_edge(self@)(p, c) {
                let j = choose|j: int| 0 <= j < self.entries@.len() && #[trigger] self.entries@[j].pid == c;
                lemma_table_of_at(self.entries@, j);
            }
        };
        m
    }
}


/// The children of `u` listed by a children map (none when it has no entry).
pub open spec fn listed_children(m: Map<u32, Vec<u32>>, u: u32) -> Seq<u32> {
    if m.contains_key(u) {
        m[u]@
    } else {
        seq![]
    }
}

/// The children lists of a children map, as a function.
pub open spec fn map_kids(m: Map<u32, Vec<u32>>) -> spec_fn(u32) -> Seq<u32> {
    |u: u32| listed_children(m, u)
}

/// The children of `p` in `t`, in increasing order.
pub open spec fn children_in(t: Map<u32, ProcEntry>, p: u32) -> Seq<u32> {
    choose|s: Seq<u32>|
        increasing(s) && forall|c: u32| #[trigger] s.contains(c) <==> table_edge(t)(p, c)
}

/// The children lists of a process table, as a function.
pub open spec fn table_kids(t: Map<u32, ProcEntry>) -> spec_fn(u32) -> Seq<u32> {
    |p: u32| children_in(t, p)
}

/// `found` followed by each of `kids`, in order, that is neither `root` nor already
/// there.
pub open spec fn add_fresh(kids: Seq<u32>, root: u32, found: Seq<u32>) -> Seq<u32>
    decreases kids.len(),
{
    if kids.len() == 0 {
        found
    } else {
        let f = add_fresh(kids.drop_last(), root, found);
        let c = kids.last();
        if c == root || f.contains(c) {
            f
        } else {
            f.push(c)
        }
    }
}

/// The breadth-first walk from `root`, with `found` the queue of what was found so
/// far and `k` the position of the next process whose children are added; `fuel`
/// bounds the number of steps.
pub open spec fn walk_from(
    kids: spec_fn(u32) -> Seq<u32>,
    root: u32,
    found: Seq<u32>,
    k: int,
    fuel: nat,
) -> Seq<u32>
    decreases fuel,
{
    if fuel == 0 || k < 0 || k >= found.len() {
        found
    } else {
        walk_from(kids, root, add_fresh(kids(found[k]), root, found), k + 1, (fuel - 1) as nat)
    }
}

/// The descendants of `root` in breadth-first order: the children of `root`, then
/// the new children of each process found, in the order they were found, each
/// children list in its own order. Process IDs are 32-bit, so the walk is over
/// within 2^32 steps.
pub open spec fn breadth_first(kids: spec_fn(u32) -> Seq<u32>, root: u32) -> Seq<u32> {
    walk_from(kids, root, add_fresh(kids(root), root, seq![]), 0, 0x1_0000_0000)
}

proof fn lemma_increasing_unique(a: Seq<u32>, b: Seq<u32>)
    requires
        increasing(a),
        increasing(b),
        forall|x: u32| a.contains(x) <==> b.contains(x),
    ensures
        a == b,
    decreases a.len(),
{
    if a.len() == 0 {
        if b.len() > 0 {
            assert(b.contains(b[0]));
        }
        assert(a =~= b);
    } else {
        assert(a.contains(a[0]));
        let j = choose|j: int| 0 <= j < b.len() && b[j] == a[0];
        assert(b.contains(b[0]));
        let i = choose|i: int| 0 <= i < a.len() && a[i] == b[0];
        assert(a[0] == b[0]);
        let ta = a.drop_first();
        let tb = b.drop_first();
        assert forall|x: u32| ta.contains(x) <==> tb.contains(x) by {
            if ta.contains(x) {
                let y = choose|y: int| 0 <= y < ta.len() && ta[y] == x;
                assert(a[y + 1] == x);
                assert(a.contains(x));
                let z = choose|z: int| 0 <= z < b.len() && b[z] == x;
                assert(z != 0);
                assert(tb[z - 1] == x);
            }
            if tb.contains(x) {
                let y = choose|y: int| 0 <= y < tb.len() && tb[y] == x;
                assert(b[y + 1] == x);
                assert(b.contains(x));
                let z = choose|z: int| 0 <= z < a.len() && a[z] == x;
                assert(z != 0);
                assert(ta[z - 1] == x);
            }
        }
        lemma_increasing_unique(ta, tb);
        assert(a =~= seq![a[0]] + ta);
        assert(b =~= seq![b[0]] + tb);
    }
}

/// A children map that lists exactly the children of each process of `t`, each list
/// increasing, lists the children of `t` in increasing order.
proof fn lemma_map_kids(m: Map<u32, Vec<u32>>, t: Map<u32, ProcEntry>)
    requires
        forall|p: u32, c: u32| #[trigger] map_edge(m)(p, c) <==> table_edge(t)(p, c),
        forall|p: u32| #[trigger] m.contains_key(p) ==> increasing(m[p]@),
    ensures
        map_kids(m) == table_kids(t),
{
    assert forall|p: u32| #[trigger] map_kids(m)(p) == table_kids(t)(p) by {
        let l = listed_children(m, p);
        assert(increasing(l));
        assert forall|c: u32| #[trigger] l.contains(c) <==> table_edge(t)(p, c) by {
            assert(map_edge(m)(p, c) <==> table_edge(t)(p, c));
        }
        let s = children_in(t, p);
        assert(increasing(s) && forall|c: u32| #[trigger] s.contains(c) <==> table_edge(t)(p, c));
        lemma_increasing_unique(l, s);
    }
    assert(map_kids(m) =~= table_kids(t));
}

/// The invariant of the breadth-first walk from `root`: what was found holds each
/// process once, never `root`, only processes reachable from `root`, and each one
/// after a process (or `root`) it is a child of.
pub open spec fn walk_ok(rel: spec_fn(u32, u32) -> bool, root: u32, found: Seq<u32>) -> bool {
    &&& found.len() + 1 <= 0x1_0000_0000
    &&& found.no_duplicates()
    &&& !found.contains(root)
    &&& forall|c: u32| #[trigger] found.contains(c) ==> reaches(rel, root, c)
    &&& forall|i: int|
        0 <= i < found.len() ==> rel(root, #[trigger] found[i]) || exists|j: int|
            0 <= j < i && rel(found[j], found[i])
}

/// Finding a child `c` of a found process `u` keeps the walk's invariant.
proof fn lemma_walk_ok_push(rel: spec_fn(u32, u32) -> bool, root: u32, before: Seq<u32>, u: u32, c: u32)
    requires
        walk_ok(rel, root, before),
        c != root,
        !before.contains(c),
        reaches(rel, root, u),
        rel(u, c),
        u == root || before.contains(u),
    ensures
        walk_ok(rel, root, before.push(c)),
{
    let found = before.push(c);
    lemma_reaches_step(rel, root, u, c);
    let all = seq![root] + found;
    assert forall|a: int, b: int|
        0 <= a < all.len() && 0 <= b < all.len() && a != b implies all[a] != all[b] by {
        if a > 0 && b > 0 && a - 1 < before.len() && b - 1 < before.len() {
            assert(before[a - 1] != before[b - 1]);
        }
        if a > 0 && a - 1 < before.len() {
            assert(before.contains(all[a]));
        }
        if b > 0 && b - 1 < before.len() {
            assert(before.contains(all[b]));
        }
    };
    lemma_distinct_u32_bound(all);
    assert forall|c2: u32| #[trigger] found.contains(c2) implies reaches(rel, root, c2) by {
        if c2 != c {
            let x = choose|x: int| 0 <= x < found.len() && found[x] == c2;
            assert(before[x] == c2);
            assert(before.contains(c2));
        }
    };
    assert forall|i: int| 0 <= i < found.len() implies rel(root, #[trigger] found[i]) || exists|j: int|
        0 <= j < i && rel(found[j], found[i]) by {
        if i < before.len() {
            assert(found[i] == before[i]);
            if !rel(root, before[i]) {
                let j = choose|j: int| 0 <= j < i && rel(before[j], before[i]);
                assert(found[j] == before[j]);
            }
        } else if u != root {
            let y = choose|y: int| 0 <= y < before.len() && before[y] == u;
            assert(found[y] == u);
        }
    };
    assert(found.no_duplicates()) by {
        assert forall|a: int, b: int| 0 <= a < found.len() && 0 <= b < found.len() && a != b implies found[a]
            != found[b] by {
            assert(all[a + 1] == found[a] && all[b + 1] == found[b]);
        }
    }
    assert(!found.contains(root)) by {
        if found.contains(root) {
            let x = choose|x: int| 0 <= x < found.len() && found[x] == root;
            assert(all[x + 1] == root && all[0] == root);
        }
    }
}

/// Adds to `found` the children of `u` that are neither `root` nor found yet.
#[verifier::spinoff_prover]
#[verifier::rlimit(80)]
fn expand(children: &HashMap<u32, Vec<u32>>, root: u32, u: u32, found: &mut Vec<u32>)
    requires
        walk_ok(map_edge(children@), root, old(found)@),
        u == root || old(found)@.contains(u),
    ensures
        walk_ok(map_edge(children@), root, final(found)@),
        final(found)@.len() >= old(found)@.len(),
        final(found)@.subrange(0, old(found)@.len() as int) == old(found)@,
        forall|c: u32|
            #[trigger] map_edge(children@)(u, c) ==> c == root || final(found)@.contains(c),
        final(found)@ == add_fresh(listed_children(children@, u), root, old(found)@),
{
    let ghost rel = map_edge(children@);
    let ghost start = found@;
    proof {
        lemma_reaches_self(rel, root);
    }
    match children.get(&u) {
        Some(kids) => {
            let mut t: usize = 0;
            while t < kids.len()
                invariant
                    rel == map_edge(children@),
                    children@.contains_key(u),
                    children@[u] == *kids,
                    reaches(rel, root, u),
                    u == root || start.contains(u),
                    t <= kids@.len(),
                    found@.len() >= start.len(),
                    found@.subrange(0, start.len() as int) == start,
                    walk_ok(rel, root, found@),
                    forall|x: int| 0 <= x < t ==> kids@[x] == root || found@.contains(kids@[x]),
                    found@ == add_fresh(kids@.subrange(0, t as int), root, start),
                decreases kids@.len() - t,
            {
                let c = kids[t];
                assert(rel(u, c));
                proof {
                    let next = kids@.subrange(0, t + 1);
                    assert(next.drop_last() =~= kids@.subrange(0, t as int));
                    assert(next.last() == c);
                }
                if c != root && !contains_pid(found, c) {
                    let ghost before = found@;
                    found.push(c);
                    proof {
                        if u != root {
                            let y = choose|y: int| 0 <= y < start.len() && start[y] == u;
                            assert(before.subrange(0, start.len() as int)[y] == before[y]);
                            assert(before[y] == u);
                        }
                        lemma_walk_ok_push(rel, root, before, u, c);
                        assert forall|x: int| 0 <= x < t + 1 implies kids@[x] == root
                            || found@.contains(kids@[x]) by {
                            if x < t && before.contains(kids@[x]) {
                                let y = choose|y: int| 0 <= y < before.len() && before[y] == kids@[x];
                                assert(found@[y] == kids@[x]);
                            }
                            if x == t {
                                assert(found@[before.len() as int] == c);
                            }
                        };
                        assert(found@.subrange(0, start.len() as int) =~= start) by {
                            assert(before.subrange(0, start.len() as int) == start);
                            assert forall|y: int| 0 <= y < start.len() implies found@[y] == start[y] by {
                                assert(before.subrange(0, start.len() as int)[y] == before[y]);
                            };
                        };
                    }
                } else {
                    proof {
                        assert forall|x: int| 0 <= x < t + 1 implies kids@[x] == root
                            || found@.contains(kids@[x]) by {};
                    }
                }
                t = t + 1;
            }
            proof {
                assert forall|c: u32| #[trigger] rel(u, c) implies c == root || found@.contains(c) by {
                    let x = choose|x: int| 0 <= x < kids@.len() && kids@[x] == c;
                };
                assert(kids@.subrange(0, kids@.len() as int) =~= kids@);
            }
        },
        None => {
            proof {
                assert(found@.subrange(0, start.len() as int) =~= start);
            }
        },
    }
}

/// Every descendant of `root` in `children`, breadth-first, each once; cycles are
/// harmless.
#[verifier::spinoff_prover]
pub fn descendants(children: &HashMap<u32, Vec<u32>>, root: u32) -> (r: Vec<u32>)
    ensures
        r@.no_duplicates(),
        !r@.contains(root),
        forall|c: u32| #[trigger]
            r@.contains(c) <==> c != root && reaches(map_edge(children@), root, c),
        forall|i: int|
            0 <= i < r@.len() ==> map_edge(children@)(root, #[trigger] r@[i]) || exists|j: int|
                0 <= j < i && map_edge(children@)(r@[j], r@[i]),
        r@ == breadth_first(map_kids(children@), root),
{
    let ghost rel = map_edge(children@);
    let ghost kids = map_kids(children@);
    let mut result: Vec<u32> = Vec::new();
    expand(children, root, root, &mut result);
    assert(result@ == add_fresh(kids(root), root, seq![]));
    let mut k: usize = 0;
    while k < result.len()
        invariant
            rel == map_edge(children@),
            kids == map_kids(children@),
            breadth_first(kids, root) == walk_from(
                kids,
                root,
                result@,
                k as int,
                (0x1_0000_0000 - k) as nat,
            ),
            k <= result@.len(),
            walk_ok(rel, root, result@),
            forall|c: u32| #[trigger] rel(root, c) ==> c == root || result@.contains(c),
            forall|j: int, c: u32|
                0 <= j < k && #[trigger] rel(result@[j], c) ==> c == root || result@.contains(c),
        decreases 0x1_0000_0000 - k,
    {
        let ghost before = result@;
        let u = result[k];
        expand(children, root, u, &mut result);
        proof {
            assert(result@ == add_fresh(kids(before[k as int]), root, before));
            assert(walk_from(kids, root, before, k as int, (0x1_0000_0000 - k) as nat) == walk_from(
                kids,
                root,
                result@,
                k + 1,
                (0x1_0000_0000 - (k + 1)) as nat,
            ));
            assert forall|c: u32| #[trigger] rel(root, c) implies c == root || result@.contains(c) by {
                if before.contains(c) {
                    let y = choose|y: int| 0 <= y < before.len() && before[y] == c;
                    assert(result@.subrange(0, before.len() as int)[y] == result@[y]);
                }
            };
            assert forall|j: int, c: u32|
                0 <= j < k + 1 && #[trigger] rel(result@[j], c) implies c == root || result@.contains(
                c,
            ) by {
                assert(result@.subrange(0, before.len() as int)[j] == result@[j]);
                if j < k && before.contains(c) {
                    let y = choose|y: int| 0 <= y < before.len() && before[y] == c;
                    assert(result@.subrange(0, before.len() as int)[y] == result@[y]);
                }
            };
        }
        k = k + 1;
    }
    proof {
        let inside = |x: u32| x == root || result@.contains(x);
        assert forall|a: u32, b: u32| inside(a) && #[trigger] rel(a, b) implies inside(b) by {
            if a != root {
                let x = choose|x: int| 0 <= x < result@.len() && result@[x] == a;
                assert(rel(result@[x], b));
            }
        };
        assert forall|c: u32| c != root && reaches(rel, root, c) implies #[trigger] result@.contains(
            c,
        ) by {
            let path = choose|path: Seq<u32>| #[trigger]
                is_chain(rel, path) && path[0] == root && path.last() == c;
            lemma_closed_holds_chain(rel, inside, path);
        };
    }
    result
}

/// The `k`-th ancestor of `pid` in `t`: `pid` itself for 0, then the parent of the
/// previous one, as long as that one is in the table and has a parent.
pub open spec fn nth_ancestor(t: Map<u32, ProcEntry>, pid: u32, k: nat) -> Option<u32>
    decreases k,
{
    if k == 0 {
        Some(pid)
    } else {
        match nth_ancestor(t, pid, (k - 1) as nat) {
            Some(x) => if t.contains_key(x) {
                t[x].parent
            } else {
                None
            },
            None => None,
        }
    }
}

/// Whether one of the ancestors of `pid` in `t` (its parent, the parent of that
/// parent, and so on) is in `candidates`.
pub open spec fn has_ancestor(t: Map<u32, ProcEntry>, pid: u32, candidates: Seq<u32>) -> bool {
    exists|k: nat|
        k >= 1 && #[trigger] nth_ancestor(t, pid, k) is Some && candidates.contains(
            nth_ancestor(t, pid, k)->0,
        )
}

proof fn lemma_ancestor_none_stays(t: Map<u32, ProcEntry>, pid: u32, k: nat, m: nat)
    requires
        nth_ancestor(t, pid, k) is None,
        k <= m,
    ensures
        nth_ancestor(t, pid, m) is None,
    decreases m - k,
{
    if k < m {
        lemma_ancestor_none_stays(t, pid, k, (m - 1) as nat);
    }
}

proof fn lemma_ancestor_shift(t: Map<u32, ProcEntry>, pid: u32, a: nat, b: nat, d: nat)
    requires
        nth_ancestor(t, pid, a) == nth_ancestor(t, pid, b),
    ensures
        nth_ancestor(t, pid, a + d) == nth_ancestor(t, pid, b + d),
    decreases d,
{
    if d > 0 {
        lemma_ancestor_shift(t, pid, a, b, (d - 1) as nat);
        assert(nth_ancestor(t, pid, a + d) == nth_ancestor(t, pid, (a + (d - 1)) as nat + 1));
    }
}

/// Once the chain of ancestors repeats, every later ancestor is one seen in the loop.
proof fn lemma_ancestor_cycle(t: Map<u32, ProcEntry>, pid: u32, j: nat, k: nat, m: nat) -> (r: nat)
    requires
        j < k <= m,
        nth_ancestor(t, pid, j) == nth_ancestor(t, pid, k),
    ensures
        j <= r < k,
        nth_ancestor(t, pid, m) == nth_ancestor(t, pid, r),
    decreases m,
{
    let back = (m - (k - j)) as nat;
    lemma_ancestor_shift(t, pid, j, k, (m - k) as nat);
    assert(nth_ancestor(t, pid, back) == nth_ancestor(t, pid, m));
    if back < k {
        back
    } else {
        lemma_ancestor_cycle(t, pid, j, k, back)
    }
}

/// Whether `s` holds `x`.
fn slice_contains(s: &[u32], x: u32) -> (r: bool)
    ensures
        r == s@.contains(x),
{
    let mut i: usize = 0;
    while i < s.len()
        invariant
            i <= s@.len(),
            forall|j: int| 0 <= j < i ==> s@[j] != x,
        decreases s@.len() - i,
    {
        if s[i] == x {
            return true;
        }
        i = i + 1;
    }
    false
}

/// Whether one of the ancestors of `pid` is in `candidates`; stops on a cycle of
/// parents.
pub fn has_ancestor_in(table: &ProcessTable, pid: u32, candidates: &[u32]) -> (r: bool)
    ensures
        r == has_ancestor(table@, pid, candidates@),
{
    let mut visited: Vec<u32> = Vec::new();
    visited.push(pid);
    let mut current: Option<u32> = match table.get(pid) {
        Some(e) => e.parent,
        None => None,
    };
    let ghost mut k: nat = 1;
    assert(nth_ancestor(table@, pid, 0) == Some(pid));
    loop
        invariant
            visited@.len() == k,
            1 <= k <= 0x1_0000_0000,
            visited@.no_duplicates(),
            forall|j: int| 0 <= j < k ==> nth_ancestor(table@, pid, j as nat) == Some(visited@[j]),
            current == nth_ancestor(table@, pid, k),
            forall|j: int| 1 <= j < k ==> !candidates@.contains(#[trigger] visited@[j]),
        decreases 0x1_0000_0000 - k,
    {
        match current {
            None => {
                proof {
                    if has_ancestor(table@, pid, candidates@) {
                        let m = choose|m: nat|
                            m >= 1 && #[trigger] nth_ancestor(table@, pid, m) is Some
                                && candidates@.contains(nth_ancestor(table@, pid, m)->0);
                        if m >= k {
                            lemma_ancestor_none_stays(table@, pid, k, m);
                        } else {
                            assert(nth_ancestor(table@, pid, m) == Some(visited@[m as int]));
                        }
                    }
                }
                return false;
            },
            Some(parent) => {
                if slice_contains(candidates, parent) {
                    assert(nth_ancestor(table@, pid, k) is Some);
                    return true;
                }
                if contains_pid(&visited, parent) {
                    proof {
                        let j = choose|j: int| 0 <= j < visited@.len() && visited@[j] == parent;
                        assert(nth_ancestor(table@, pid, j as nat) == nth_ancestor(table@, pid, k));
                        if has_ancestor(table@, pid, candidates@) {
                            let m = choose|m: nat|
                                m >= 1 && #[trigger] nth_ancestor(table@, pid, m) is Some
                                    && candidates@.contains(nth_ancestor(table@, pid, m)->0);
                            if m < k {
                                assert(nth_ancestor(table@, pid, m) == Some(visited@[m as int]));
                            } else {
                                let r = lemma_ancestor_cycle(table@, pid, j as nat, k, m);
                                assert(nth_ancestor(table@, pid, r) == Some(visited@[r as int]));
                                if r == 0 {
                                    assert(nth_ancestor(table@, pid, m) == Some(parent));
                                }
                            }
                        }
                    }
                    return false;
                }
                let ghost before = visited@;
                visited.push(parent);
                proof {
                    assert forall|a: int, b: int|
                        0 <= a < visited@.len() && 0 <= b < visited@.len() && a != b implies visited@[a]
                        != visited@[b] by {
                        if a < before.len() && b < before.len() {
                            assert(before[a] != before[b]);
                        } else if a < before.len() {
                            assert(before.contains(visited@[a]));
                        } else {
                            assert(before.contains(visited@[b]));
                        }
                    };
                    lemma_distinct_u32_bound(visited@);
                }
                current = match table.get(parent) {
                    Some(e) => e.parent,
                    None => None,
                };
                proof {
                    assert(nth_ancestor(table@, pid, k + 1) == current);
                    k = k + 1;
                }
            },
        }
    }
}

/// `sysinfo::get_current_pid`: the process ID of this very process, or `None` where
/// the platform does not give it. Nothing is promised of the value: it is whatever
/// the operating system reports.
#[verifier::external_body]
fn current_pid() -> Option<u32> {
    match sysinfo::get_current_pid() {
        Ok(pid) => Some(pid.as_u32()),
        Err(_) => None,
    }
}

/// Whether `own` is `Some(c)`.
fn is_own(own: Option<u32>, c: u32) -> (r: bool)
    ensures
        r == (own == Some(c)),
{
    match own {
        Some(o) => o == c,
        None => false,
    }
}

/// The elements of `s` other than `own`, each at its first occurrence only.
pub open spec fn without_repeats(s: Seq<u32>, own: Option<u32>) -> Seq<u32>
    decreases s.len(),
{
    if s.len() == 0 {
        seq![]
    } else {
        let prev = without_repeats(s.drop_last(), own);
        if own == Some(s.last()) || prev.contains(s.last()) {
            prev
        } else {
            prev.push(s.last())
        }
    }
}

proof fn lemma_without_repeats(s: Seq<u32>, own: Option<u32>)
    ensures
        without_repeats(s, own).no_duplicates(),
        forall|c: u32| #[trigger]
            without_repeats(s, own).contains(c) <==> s.contains(c) && own != Some(c),
    decreases s.len(),
{
    if s.len() > 0 {
        let prev = without_repeats(s.drop_last(), own);
        lemma_without_repeats(s.drop_last(), own);
        assert forall|c: u32| #[trigger]
            without_repeats(s, own).contains(c) <==> s.contains(c) && own != Some(c) by {
            if s.drop_last().contains(c) {
                let i = choose|i: int| 0 <= i < s.drop_last().len() && s.drop_last()[i] == c;
                assert(s[i] == c);
            }
            if s.contains(c) && c != s.last() {
                let i = choose|i: int| 0 <= i < s.len() && s[i] == c;
                assert(s.drop_last()[i] == c);
            }
            if !(own == Some(s.last()) || prev.contains(s.last())) {
                let next = prev.push(s.last());
                if next.contains(c) && c != s.last() {
                    let i = choose|i: int| 0 <= i < next.len() && next[i] == c;
                    assert(prev[i] == c);
                }
                if prev.contains(c) {
                    let i = choose|i: int| 0 <= i < prev.len() && prev[i] == c;
                    assert(next[i] == c);
                }
                assert(next[prev.len() as int] == s.last());
            }
        };
    }
}

/// The set of processes wrath is about to kill.
#[derive(Debug, PartialEq)]
pub struct KillPlan {
    /// Name shown in the final message.
    pub process_name: String,
    /// The port being freed, if targeting a port.
    pub port: Option<u16>,
    /// Processes that matched the target (and are not descendants of another match).
    pub roots: Vec<u32>,
    /// Every process to kill: roots first, then their descendants.
    pub pids: Vec<u32>,
}

/// The breadth-first descendants of each of `roots`, one root after the other.
pub open spec fn walks(kids: spec_fn(u32) -> Seq<u32>, roots: Seq<u32>) -> Seq<u32>
    decreases roots.len(),
{
    if roots.len() == 0 {
        seq![]
    } else {
        walks(kids, roots.drop_last()) + breadth_first(kids, roots.last())
    }
}

/// Whether `pids` is the kill list for `roots` in `t` when `own` is this process:
/// the roots, then the breadth-first descendants of each root in turn, each process
/// at its first place only and `own` left out. So each process comes once, never
/// `own`, exactly the roots and everything that descends from one of them, the roots
/// first and in their order.
pub open spec fn kill_list(t: Map<u32, ProcEntry>, roots: Seq<u32>, own: Option<u32>, pids: Seq<u32>) -> bool {
    &&& pids == without_repeats(roots + walks(table_kids(t), roots), own)
    &&& pids.no_duplicates()
    &&& forall|c: u32| #[trigger]
        pids.contains(c) <==> own != Some(c) && exists|r: u32| #[trigger]
            roots.contains(r) && reaches(table_edge(t), r, c)
    &&& without_repeats(roots, own).len() <= pids.len()
    &&& pids.subrange(0, without_repeats(roots, own).len() as int) == without_repeats(roots, own)
}

/// Build a plan from its roots, collecting all of their descendants.
fn build_plan(
    table: &ProcessTable,
    process_name: String,
    port: Option<u16>,
    roots: Vec<u32>,
    own: Option<u32>,
) -> (plan: KillPlan)
    ensures
        plan.process_name == process_name,
        plan.port == port,
        plan.roots == roots,
        kill_list(table@, roots@, own, plan.pids@),
{
    let cm = table.children_map();
    let ghost rel = map_edge(cm@);
    let ghost kids = table_kids(table@);
    proof {
        lemma_map_kids(cm@, table@);
    }
    let mut pids: Vec<u32> = Vec::new();
    let mut i: usize = 0;
    while i < roots.len()
        invariant
            i <= roots@.len(),
            pids@ == without_repeats(roots@.subrange(0, i as int), own),
        decreases roots@.len() - i,
    {
        let r = roots[i];
        proof {
            lemma_without_repeats(roots@.subrange(0, i as int), own);
            assert(roots@.subrange(0, i + 1).drop_last() =~= roots@.subrange(0, i as int));
        }
        if !is_own(own, r) && !contains_pid(&pids, r) {
            pids.push(r);
        }
        i = i + 1;
    }
    assert(roots@.subrange(0, roots@.len() as int) =~= roots@);
    let ghost head = pids@;
    proof {
        lemma_without_repeats(roots@, own);
        assert(roots@ + walks(kids, roots@.subrange(0, 0)) =~= roots@);
    }
    i = 0;
    while i < roots.len()
        invariant
            rel == map_edge(cm@),
            kids == table_kids(table@),
            map_kids(cm@) == kids,
            pids@ == without_repeats(roots@ + walks(kids, roots@.subrange(0, i as int)), own),
            i <= roots@.len(),
            head == without_repeats(roots@, own),
            pids@.len() >= head.len(),
            pids@.subrange(0, head.len() as int) == head,
            pids@.no_duplicates(),
            forall|c: u32| #[trigger]
                pids@.contains(c) <==> own != Some(c) && (roots@.contains(c) || exists|x: int|
                    0 <= x < i && reaches(rel, roots@[x], c)),
        decreases roots@.len() - i,
    {
        let root = roots[i];
        let d = descendants(&cm, root);
        let ghost done = roots@ + walks(kids, roots@.subrange(0, i as int));
        assert(done + d@.subrange(0, 0) =~= done);
        let mut j: usize = 0;
        while j < d.len()
            invariant
                rel == map_edge(cm@),
                kids == table_kids(table@),
                map_kids(cm@) == kids,
                d@ == breadth_first(kids, root),
                done == roots@ + walks(kids, roots@.subrange(0, i as int)),
                pids@ == without_repeats(done + d@.subrange(0, j as int), own),
                i < roots@.len(),
                root == roots@[i as int],
                j <= d@.len(),
                forall|c: u32| #[trigger] d@.contains(c) <==> c != root && reaches(rel, root, c),
                head == without_repeats(roots@, own),
                pids@.len() >= head.len(),
                pids@.subrange(0, head.len() as int) == head,
                pids@.no_duplicates(),
                forall|c: u32| #[trigger]
                    pids@.contains(c) <==> own != Some(c) && (roots@.contains(c) || (exists|x: int|
                        0 <= x < i && reaches(rel, roots@[x], c)) || d@.subrange(0, j as int).contains(
                        c,
                    )),
            decreases d@.len() - j,
        {
            let c = d[j];
            let ghost before = pids@;
            proof {
                let next = done + d@.subrange(0, j + 1);
                assert(next.drop_last() =~= done + d@.subrange(0, j as int));
                assert(next.last() == c);
            }
            if !is_own(own, c) && !contains_pid(&pids, c) {
                pids.push(c);
                proof {
                    assert forall|a: int, b: int|
                        0 <= a < pids@.len() && 0 <= b < pids@.len() && a != b implies pids@[a]
                        != pids@[b] by {
                        if a < before.len() && b < before.len() {
                            assert(before[a] != before[b]);
                        } else if a < before.len() {
                            assert(before.contains(pids@[a]));
                        } else {
                            assert(before.contains(pids@[b]));
                        }
                    };
                    assert(pids@.subrange(0, head.len() as int) =~= head) by {
                        assert forall|y: int| 0 <= y < head.len() implies pids@[y] == head[y] by {
                            assert(before.subrange(0, head.len() as int)[y] == before[y]);
                        };
                    };
                }
            }
            proof {
                assert forall|c2: u32| #[trigger]
                    pids@.contains(c2) <==> own != Some(c2) && (roots@.contains(c2) || (exists|x: int|
                        0 <= x < i && reaches(rel, roots@[x], c2)) || d@.subrange(
                        0,
                        j + 1,
                    ).contains(c2)) by {
                    let dj = d@.subrange(0, j as int);
                    let dj1 = d@.subrange(0, j + 1);
                    if dj.contains(c2) {
                        let y = choose|y: int| 0 <= y < dj.len() && dj[y] == c2;
                        assert(dj1[y] == c2);
                    }
                    if dj1.contains(c2) && c2 != c {
                        let y = choose|y: int| 0 <= y < dj1.len() && dj1[y] == c2;
                        assert(dj[y] == c2);
                    }
                    assert(d@.subrange(0, j + 1)[j as int] == c);
                    if before.contains(c2) {
                        let y = choose|y: int| 0 <= y < before.len() && before[y] == c2;
                        assert(pids@[y] == c2);
                    }
                    if c2 == c && own != Some(c) && !before.contains(c) {
                        assert(pids@[before.len() as int] == c);
                    }
                    if pids@.contains(c2) && c2 != c {
                        let y = choose|y: int| 0 <= y < pids@.len() && pids@[y] == c2;
                        assert(before[y] == c2);
                    }
                };
            }
            j = j + 1;
        }
        proof {
            assert(d@.subrange(0, d@.len() as int) =~= d@);
            let taken = roots@.subrange(0, i + 1);
            assert(taken.drop_last() =~= roots@.subrange(0, i as int));
            assert(taken.last() == root);
            assert(done + d@ =~= roots@ + walks(kids, taken));
            assert forall|c2: u32| #[trigger]
                pids@.contains(c2) <==> own != Some(c2) && (roots@.contains(c2) || exists|x: int|
                    0 <= x < i + 1 && reaches(rel, roots@[x], c2)) by {
                if exists|x: int| 0 <= x < i + 1 && reaches(rel, roots@[x], c2) {
                    let x = choose|x: int| 0 <= x < i + 1 && reaches(rel, roots@[x], c2);
                    if x == i && c2 == root {
                        assert(roots@.contains(c2));
                    }
                }
                if d@.contains(c2) {
                    assert(reaches(rel, roots@[i as int], c2));
                }
            };
        }
        i = i + 1;
    }
    proof {
        assert(roots@.subrange(0, roots@.len() as int) =~= roots@);
        assert(rel =~= table_edge(table@));
        assert forall|c: u32| #[trigger]
            pids@.contains(c) <==> own != Some(c) && exists|r: u32| #[trigger]
                roots@.contains(r) && reaches(table_edge(table@), r, c) by {
            if roots@.contains(c) {
                lemma_reaches_self(table_edge(table@), c);
            }
            if exists|x: int| 0 <= x < roots@.len() && reaches(rel, roots@[x], c) {
                let x = choose|x: int| 0 <= x < roots@.len() && reaches(rel, roots@[x], c);
                assert(roots@.contains(roots@[x]));
            }
            if exists|r: u32| #[trigger] roots@.contains(r) && reaches(table_edge(table@), r, c) {
                let r = choose|r: u32| #[trigger] roots@.contains(r) && reaches(table_edge(table@), r, c);
                let x = choose|x: int| 0 <= x < roots@.len() && roots@[x] == r;
                assert(reaches(rel, roots@[x], c));
            }
        };
    }
    KillPlan { process_name, port, roots, pids }
}

/// Whether process `p` of `t` is a target of a kill by `name`: not this process
/// (`own`), and named `name` or `name.exe`, ignoring the case of ASCII letters.
pub open spec fn name_target(t: Map<u32, ProcEntry>, name: Seq<char>, own: Option<u32>, p: u32) -> bool {
    &&& t.contains_key(p)
    &&& own != Some(p)
    &&& (eq_ignore_ascii_case(t[p].name@, name) || eq_ignore_ascii_case(t[p].name@, name + ".exe"@))
}

/// Whether `s` lists the targets of a kill by `name`, in increasing order.
pub open spec fn target_list(t: Map<u32, ProcEntry>, name: Seq<char>, own: Option<u32>, s: Seq<u32>) -> bool {
    &&& increasing(s)
    &&& forall|p: u32| #[trigger] s.contains(p) <==> name_target(t, name, own, p)
}

/// What planning a kill by `name` gives when `own` is this process: an error naming
/// `name` when nothing matches; otherwise, with `s` the matches in increasing order,
/// the name of the first match, the matches that have no ancestor among the matches
/// as roots, and the kill list of those roots.
pub open spec fn name_plan(
    t: Map<u32, ProcEntry>,
    name: Seq<char>,
    own: Option<u32>,
    r: Result<KillPlan, WrathError>,
) -> bool {
    match r {
        Err(e) => (forall|p: u32| !#[trigger] name_target(t, name, own, p)) && (
        e matches WrathError::NoProcessWithName(n) && n@ == name),
        Ok(plan) => exists|s: Seq<u32>|
            #[trigger] target_list(t, name, own, s) && s.len() > 0 && plan.process_name@ == t[s[0]].name@
                && plan.port is None && plan.roots@ == s.filter(
                |p: u32| !has_ancestor(t, p, s),
            ) && kill_list(t, plan.roots@, own, plan.pids@),
    }
}

/// What planning the kill of the process `pid` holding `port` gives when `own` is this
/// process: an error naming the port when `pid` is not in the table; otherwise a plan
/// named after that process, with `pid` as only root, and its kill list.
pub open spec fn pid_plan(
    t: Map<u32, ProcEntry>,
    pid: u32,
    port: u16,
    own: Option<u32>,
    r: Result<KillPlan, WrathError>,
) -> bool {
    match r {
        Err(e) => !t.contains_key(pid) && e == WrathError::NoProcessOnPort(port),
        Ok(plan) => t.contains_key(pid) && plan.process_name@ == t[pid].name@ && plan.port == Some(
            port,
        ) && plan.roots@ == seq![pid] && kill_list(t, plan.roots@, own, plan.pids@),
    }
}

/// Plan the killing of every process named `name` (or `name.exe`, ignoring ASCII case)
/// other than `own`, and of their descendants.
pub fn plan_by_name_excluding(table: &ProcessTable, name: &str, own: Option<u32>) -> (r: Result<
    KillPlan,
    WrathError,
>)
    ensures
        name_plan(table@, name@, own, r),
{
    proof {
        use_type_invariant(table);
    }
    let target = chars_of(name);
    let mut exe = chars_of(name);
    let suffix = chars_of(".exe");
    let mut x: usize = 0;
    while x < suffix.len()
        invariant
            x <= suffix@.len(),
            exe@ == name@ + suffix@.subrange(0, x as int),
        decreases suffix@.len() - x,
    {
        exe.push(suffix[x]);
        x = x + 1;
        assert(exe@ =~= name@ + suffix@.subrange(0, x as int));
    }
    assert(suffix@.subrange(0, suffix@.len() as int) =~= ".exe"@);
    let mut matching: Vec<u32> = Vec::new();
    let mut i: usize = 0;
    while i < table.entries.len()
        invariant
            i <= table.entries@.len(),
            pids_distinct(table.entries@),
            target@ == name@,
            exe@ == name@ + ".exe"@,
            increasing(matching@),
            forall|p: u32| #[trigger]
                matching@.contains(p) <==> exists|j: int|
                    0 <= j < i && #[trigger] table.entries@[j].pid == p && name_target(
                        table@,
                        name@,
                        own,
                        p,
                    ),
        decreases table.entries@.len() - i,
    {
        let pid = table.entries[i].pid;
        proof {
            lemma_table_of_at(table.entries@, i as int);
        }
        let pname = chars_of(table.entries[i].name.as_str());
        if !is_own(own, pid) && (chars_eq_ignore_ascii_case(&pname, &target)
            || chars_eq_ignore_ascii_case(&pname, &exe)) {
            assert(!matching@.contains(pid)) by {
                if matching@.contains(pid) {
                    let j = choose|j: int|
                        0 <= j < i && #[trigger] table.entries@[j].pid == pid && name_target(
                            table@,
                            name@,
                            own,
                            pid,
                        );
                    assert(table.entries@[j].pid == table.entries@[i as int].pid);
                }
            };
            insert_sorted(&mut matching, pid);
        }
        i = i + 1;
    }
    proof {
        assert forall|p: u32| #[trigger] matching@.contains(p) <==> name_target(table@, name@, own, p) by {
            if name_target(table@, name@, own, p) {
                let j = choose|j: int| 0 <= j < table.entries@.len() && #[trigger] table.entries@[j].pid == p;
            }
        };
    }
    if matching.len() == 0 {
        proof {
            assert forall|p: u32| !#[trigger] name_target(table@, name@, own, p) by {
                if name_target(table@, name@, own, p) {
                    assert(matching@.contains(p));
                }
            };
        }
        return Err(WrathError::NoProcessWithName(name.to_owned()));
    }
    let first = matching[0];
    assert(matching@.contains(first));
    let process_name = match table.get(first) {
        Some(e) => e.name.clone(),
        None => name.to_owned(),
    };
    let ghost keep = |p: u32| !has_ancestor(table@, p, matching@);
    let mut roots: Vec<u32> = Vec::new();
    let mut k: usize = 0;
    while k < matching.len()
        invariant
            k <= matching@.len(),
            keep == (|p: u32| !has_ancestor(table@, p, matching@)),
            roots@ == matching@.subrange(0, k as int).filter(keep),
        decreases matching@.len() - k,
    {
        let p = matching[k];
        let nested = has_ancestor_in(table, p, matching.as_slice());
        proof {
            assert(matching@.subrange(0, k + 1) =~= matching@.subrange(0, k as int).push(p));
            matching@.subrange(0, k as int).lemma_filter_push(p, keep);
        }
        if !nested {
            roots.push(p);
        }
        k = k + 1;
    }
    assert(matching@.subrange(0, matching@.len() as int) =~= matching@);
    let own_roots = roots;
    let plan = build_plan(table, process_name, None, own_roots, own);
    assert(target_list(table@, name@, own, matching@));
    Ok(plan)
}

/// Plan the killing of every process named `name` (or `name.exe`, ignoring ASCII
/// case) and of their descendants; this process is never part of the plan.
pub fn plan_by_name(table: &ProcessTable, name: &str) -> (r: Result<KillPlan, WrathError>)
    ensures
        exists|own: Option<u32>| name_plan(table@, name@, own, r),
{
    let own = current_pid();
    plan_by_name_excluding(table, name, own)
}

/// Plan the killing of the process `pid`, which holds `port`, and of its descendants,
/// leaving out `own`.
pub fn plan_by_pid_excluding(table: &ProcessTable, pid: u32, port: u16, own: Option<u32>) -> (r:
    Result<KillPlan, WrathError>)
    ensures
        pid_plan(table@, pid, port, own, r),
{
    match table.get(pid) {
        None => Err(WrathError::NoProcessOnPort(port)),
        Some(e) => {
            let name = e.name.clone();
            let mut roots: Vec<u32> = Vec::new();
            roots.push(pid);
            assert(roots@ =~= seq![pid]);
            Ok(build_plan(table, name, Some(port), roots, own))
        },
    }
}

/// Plan the killing of the process `pid`, which holds `port`, and of its descendants;
/// this process is never part of the plan.
pub fn plan_by_pid(table: &ProcessTable, pid: u32, port: u16) -> (r: Result<KillPlan, WrathError>)
    ensures
        exists|own: Option<u32>| pid_plan(table@, pid, port, own, r),
{
    let own = current_pid();
    plan_by_pid_excluding(table, pid, port, own)
}

/// Get the name of a process by its PID.
pub fn get_process_name(table: &ProcessTable, pid: u32) -> (r: Option<String>)
    ensures
        match r {
            Some(n) => table@.contains_key(pid) && n@ == table@[pid].name@,
            None => !table@.contains_key(pid),
        },
{
    match table.get(pid) {
        Some(e) => Some(e.name.clone()),
        None => None,
    }
}

/// Result of a successful process kill operation.
#[derive(Debug, PartialEq)]
pub struct KillResult {
    /// Name of the primary process that was killed.
    pub process_name: String,
    /// Total number of processes killed (parent + children).
    pub total_killed: usize,
    /// The port that was freed, if applicable.
    pub port: Option<u16>,
}

/// "process" for one, "processes" otherwise.
pub open spec fn process_word(n: nat) -> Seq<char> {
    if n == 1 {
        "process"@
    } else {
        "processes"@
    }
}

/// The first part of the final message.
pub open spec fn headline_text(r: KillResult) -> Seq<char> {
    "Wrath unleashed: Process '"@ + r.process_name@ + "' ("@ + decimal(r.total_killed as nat) + " "@
        + process_word(r.total_killed as nat) + ")"@
}

/// The second part of the final message.
pub open spec fn outcome_text(r: KillResult) -> Seq<char> {
    match r.port {
        Some(port) => "using port "@ + decimal(port as nat) + " has been obliterated."@,
        None => "has been obliterated."@,
    }
}

impl KillResult {
    /// First part of the message: which process, and how many were killed.
    pub fn headline(&self) -> (s: String)
        ensures
            s@ == headline_text(*self),
    {
        let mut s = String::new();
        push_str(&mut s, "Wrath unleashed: Process '");
        push_str(&mut s, self.process_name.as_str());
        push_str(&mut s, "' (");
        push_decimal(&mut s, self.total_killed as u64);
        push_str(&mut s, " ");
        if self.total_killed == 1 {
            push_str(&mut s, "process");
        } else {
            push_str(&mut s, "processes");
        }
        push_str(&mut s, ")");
        assert(s@ =~= headline_text(*self));
        s
    }

    /// Second part of the message: what happened.
    pub fn outcome(&self) -> (s: String)
        ensures
            s@ == outcome_text(*self),
    {
        let mut s = String::new();
        match self.port {
            Some(port) => {
                push_str(&mut s, "using port ");
                push_decimal(&mut s, port as u64);
                push_str(&mut s, " has been obliterated.");
            },
            None => {
                push_str(&mut s, "has been obliterated.");
            },
        }
        assert(s@ =~= outcome_text(*self));
        s
    }
}

/// The processes of `pids` that are in the table, in order.
pub fn alive_pids(table: &ProcessTable, pids: &[u32]) -> (r: Vec<u32>)
    ensures
        r@ == pids@.filter(|p: u32| table@.contains_key(p)),
{
    let ghost present = |p: u32| table@.contains_key(p);
    let mut r: Vec<u32> = Vec::new();
    let mut i: usize = 0;
    while i < pids.len()
        invariant
            i <= pids@.len(),
            present == (|p: u32| table@.contains_key(p)),
            r@ == pids@.subrange(0, i as int).filter(present),
        decreases pids@.len() - i,
    {
        let p = pids[i];
        proof {
            assert(pids@.subrange(0, i + 1) =~= pids@.subrange(0, i as int).push(p));
            pids@.subrange(0, i as int).lemma_filter_push(p, present);
        }
        if table.get(p).is_some() {
            r.push(p);
        }
        i = i + 1;
    }
    assert(pids@.subrange(0, pids@.len() as int) =~= pids@);
    r
}

/// How many of the `alive` processes are not among the `survivors`.
pub open spec fn killed_count(alive: Seq<u32>, survivors: Seq<u32>) -> nat {
    alive.filter(|p: u32| !survivors.contains(p)).len()
}

/// The message of the error when nothing could be killed.
pub open spec fn nothing_killed() -> Seq<char> {
    "Could not kill any processes"@
}

/// Count the kills: the `alive` processes, less those still running after the kill
/// (`survivors`). Fails when that leaves none.
pub fn kill_processes(alive: &[u32], survivors: &[u32]) -> (r: Result<usize, WrathError>)
    ensures
        match r {
            Ok(n) => n == killed_count(alive@, survivors@) && n > 0,
            Err(e) => killed_count(alive@, survivors@) == 0 && (e matches WrathError::KillFailed(m)
                && m@ == nothing_killed()),
        },
{
    let ghost gone = |p: u32| !survivors@.contains(p);
    let mut killed: usize = 0;
    let mut i: usize = 0;
    while i < alive.len()
        invariant
            i <= alive@.len(),
            gone == (|p: u32| !survivors@.contains(p)),
            killed == alive@.subrange(0, i as int).filter(gone).len(),
            killed <= i,
        decreases alive@.len() - i,
    {
        let p = alive[i];
        proof {
            assert(alive@.subrange(0, i + 1) =~= alive@.subrange(0, i as int).push(p));
            alive@.subrange(0, i as int).lemma_filter_push(p, gone);
        }
        if !slice_contains(survivors, p) {
            killed = killed + 1;
        }
        i = i + 1;
    }
    assert(alive@.subrange(0, alive@.len() as int) =~= alive@);
    if killed == 0 {
        let mut m = String::new();
        push_str(&mut m, "Could not kill any processes");
        return Err(WrathError::KillFailed(m));
    }
    Ok(killed)
}

/// The outcome of carrying out `plan`, given which processes were running before the
/// kill (`alive`) and which still run after it (`survivors`).
pub fn execute(plan: &KillPlan, alive: &[u32], survivors: &[u32]) -> (r: Result<KillResult, WrathError>)
    ensures
        match r {
            Ok(res) => res.process_name@ == plan.process_name@ && res.port == plan.port
                && res.total_killed == killed_count(alive@, survivors@) && res.total_killed > 0,
            Err(e) => killed_count(alive@, survivors@) == 0 && (e matches WrathError::KillFailed(m)
                && m@ == nothing_killed()),
        },
{
    let total_killed = kill_processes(alive, survivors)?;
    Ok(KillResult { process_name: plan.process_name.clone(), total_killed, port: plan.port })
}

/// Whether `d` lists the descendants of `root` in `t` breadth-first, children in
/// increasing order: so each once, never `root`, all processes reachable from `root`
/// through parent links, each after one of its parents (or `root`).
pub open spec fn descendant_list(t: Map<u32, ProcEntry>, root: u32, d: Seq<u32>) -> bool {
    &&& d == breadth_first(table_kids(t), root)
    &&& d.no_duplicates()
    &&& !d.contains(root)
    &&& forall|c: u32| #[trigger] d.contains(c) <==> c != root && reaches(table_edge(t), root, c)
    &&& forall|i: int|
        0 <= i < d.len() ==> table_edge(t)(root, #[trigger] d[i]) || exists|j: int|
            0 <= j < i && table_edge(t)(d[j], d[i])
}

/// The names, in `t`, of the processes of `d` that are in `t`.
pub open spec fn names_in(t: Map<u32, ProcEntry>, d: Seq<u32>) -> Seq<Seq<char>> {
    d.filter(|c: u32| t.contains_key(c)).map_values(|c: u32| t[c].name@)
}

/// The roots of `plan` that are in `t`.
pub open spec fn present_roots(t: Map<u32, ProcEntry>, plan: KillPlan) -> Seq<u32> {
    plan.roots@.filter(|p: u32| t.contains_key(p))
}

/// Whether `infos` describes, in order, each root of `plan` that is in `t`, with
/// `lists[i]` the descendants of the `i`-th one.
pub open spec fn describes_roots_with(
    t: Map<u32, ProcEntry>,
    plan: KillPlan,
    infos: Seq<ProcessInfo>,
    lists: Seq<Seq<u32>>,
) -> bool {
    &&& infos.len() == present_roots(t, plan).len()
    &&& lists.len() == infos.len()
    &&& forall|i: int|
        #![trigger lists[i]]
        0 <= i < infos.len() ==> descendant_list(t, present_roots(t, plan)[i], lists[i]) && describes(
            infos[i],
            present_roots(t, plan)[i],
            t[present_roots(t, plan)[i]],
            names_in(t, lists[i]),
        )
}

/// Whether `infos` describes, in order, each root of `plan` that is in `t`, together
/// with the names of its descendants.
pub open spec fn describes_roots(t: Map<u32, ProcEntry>, plan: KillPlan, infos: Seq<ProcessInfo>) -> bool {
    exists|lists: Seq<Seq<u32>>| #[trigger] describes_roots_with(t, plan, infos, lists)
}

/// Describe every root of the plan, including the names of its descendants.
pub fn describe(table: &ProcessTable, plan: &KillPlan) -> (r: Vec<ProcessInfo>)
    ensures
        describes_roots(table@, *plan, r@),
{
    let cm = table.children_map();
    let ghost present = |p: u32| table@.contains_key(p);
    assert(map_edge(cm@) =~= table_edge(table@));
    proof {
        lemma_map_kids(cm@, table@);
    }
    let mut infos: Vec<ProcessInfo> = Vec::new();
    let ghost mut lists: Seq<Seq<u32>> = seq![];
    let mut i: usize = 0;
    while i < plan.roots.len()
        invariant
            i <= plan.roots@.len(),
            present == (|p: u32| table@.contains_key(p)),
            map_edge(cm@) == table_edge(table@),
            map_kids(cm@) == table_kids(table@),
            infos@.len() == plan.roots@.subrange(0, i as int).filter(present).len(),
            lists.len() == infos@.len(),
            forall|x: int|
                #![trigger lists[x]]
                0 <= x < infos@.len() ==> descendant_list(
                    table@,
                    plan.roots@.subrange(0, i as int).filter(present)[x],
                    lists[x],
                ) && describes(
                    infos@[x],
                    plan.roots@.subrange(0, i as int).filter(present)[x],
                    table@[plan.roots@.subrange(0, i as int).filter(present)[x]],
                    names_in(table@, lists[x]),
                ),
        decreases plan.roots@.len() - i,
    {
        let root = plan.roots[i];
        let ghost prev = plan.roots@.subrange(0, i as int).filter(present);
        proof {
            assert(plan.roots@.subrange(0, i + 1) =~= plan.roots@.subrange(0, i as int).push(root));
            plan.roots@.subrange(0, i as int).lemma_filter_push(root, present);
        }
        match table.get(root) {
            Some(entry) => {
                let d = descendants(&cm, root);
                let ghost keep = |c: u32| table@.contains_key(c);
                let mut names: Vec<String> = Vec::new();
                let mut j: usize = 0;
                while j < d.len()
                    invariant
                        j <= d@.len(),
                        keep == (|c: u32| table@.contains_key(c)),
                        views(names@) == d@.subrange(0, j as int).filter(keep).map_values(
                            |c: u32| table@[c].name@,
                        ),
                    decreases d@.len() - j,
                {
                    let c = d[j];
                    proof {
                        assert(d@.subrange(0, j + 1) =~= d@.subrange(0, j as int).push(c));
                        d@.subrange(0, j as int).lemma_filter_push(c, keep);
                    }
                    match table.get(c) {
                        Some(e) => {
                            let ghost before = names@;
                            let ghost kept = d@.subrange(0, j as int).filter(keep);
                            let nm = e.name.clone();
                            assert(keep(c));
                            assert(d@.subrange(0, j + 1).filter(keep) == kept.push(c));
                            names.push(nm);
                            assert(views(names@) =~= views(before).push(nm@));
                            assert(kept.push(c).map_values(|c: u32| table@[c].name@) =~= kept.map_values(
                                |c: u32| table@[c].name@,
                            ).push(table@[c].name@));
                        },
                        None => {},
                    }
                    j = j + 1;
                }
                assert(d@.subrange(0, d@.len() as int) =~= d@);
                assert(keep =~= (|c: u32| table@.contains_key(c)));
                assert(names_in(table@, d@) == views(names@));
                let info = ProcessInfo::from_process(root, entry, names);
                let ghost before = infos@;
                infos.push(info);
                proof {
                    assert forall|c: u32| #[trigger] d@.contains(c) <==> c != root && reaches(
                        table_edge(table@),
                        root,
                        c,
                    ) by {
                        assert(d@.contains(c) <==> c != root && reaches(map_edge(cm@), root, c));
                    };
                    assert forall|k: int|
                        0 <= k < d@.len() implies table_edge(table@)(root, #[trigger] d@[k])
                        || exists|j: int| 0 <= j < k && table_edge(table@)(d@[j], d@[k]) by {
                        assert(map_edge(cm@)(root, d@[k]) || exists|j: int|
                            0 <= j < k && map_edge(cm@)(d@[j], d@[k]));
                    };
                    assert(descendant_list(table@, root, d@));
                    lists = lists.push(d@);
                    let now = plan.roots@.subrange(0, i + 1).filter(present);
                    assert(now == prev.push(root));
                    assert forall|x: int|
                        #![trigger lists[x]]
                        0 <= x < infos@.len() implies descendant_list(table@, now[x], lists[x])
                        && describes(infos@[x], now[x], table@[now[x]], names_in(table@, lists[x])) by {
                        if x < before.len() {
                            assert(infos@[x] == before[x]);
                            assert(now[x] == prev[x]);
                        }
                    };
                }
            },
            None => {
                proof {
                    let now = plan.roots@.subrange(0, i + 1).filter(present);
                    assert(now == prev);
                    assert forall|x: int|
                        #![trigger lists[x]]
                        0 <= x < infos@.len() implies descendant_list(table@, now[x], lists[x])
                        && describes(infos@[x], now[x], table@[now[x]], names_in(table@, lists[x])) by {
                        assert(now[x] == prev[x]);
                    };
                }
            },
        }
        i = i + 1;
    }
    proof {
        assert(plan.roots@.subrange(0, plan.roots@.len() as int) =~= plan.roots@);
        assert(present =~= (|p: u32| table@.contains_key(p)));
        let all = present_roots(table@, *plan);
        assert(all == plan.roots@.subrange(0, i as int).filter(present));
        assert forall|k: int|
            #![trigger lists[k]]
            0 <= k < infos@.len() implies descendant_list(table@, all[k], lists[k]) && describes(
                infos@[k],
                all[k],
                table@[all[k]],
                names_in(table@, lists[k]),
            ) by {};
        assert(describes_roots_with(table@, *plan, infos@, lists));
        assert(describes_roots(table@, *plan, infos@));
    }
    infos
}

} // verus!
