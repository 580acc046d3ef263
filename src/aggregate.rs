//! Grouping of fingerprinted files and the ranking of the groups.
//!
//! Members of a group keep the order in which their files arrived, so the
//! representative of a group is the first file observed with its fingerprint.
//! Groups are ranked by descending member count; groups with equal counts
//! keep the order in which their fingerprints were first observed.
use vstd::prelude::*;

verus! {

/// A path and a size in bytes.
pub type RecordView = (Seq<char>, u64);

/// A fingerprint and the record of the file that has it.
pub type HashedView = (Seq<char>, RecordView);

/// A fingerprint and the records of its members, in order.
pub type GroupView = (Seq<char>, Seq<RecordView>);

/// A file that was fingerprinted: where it is and how many bytes it holds.
pub struct FileRecord {
    pub path: String,
    pub size: u64,
}

impl View for FileRecord {
    type V = RecordView;

    open spec fn view(&self) -> RecordView {
        (self.path@, self.size)
    }
}

impl FileRecord {
    /// A copy of this record.
    pub fn duplicate(&self) -> (r: FileRecord)
        ensures
            r@ == self@,
    {
        FileRecord { path: self.path.clone(), size: self.size }
    }
}

/// A file record together with the fingerprint of its content.
pub struct HashedFile {
    pub fingerprint: String,
    pub record: FileRecord,
}

impl View for HashedFile {
    type V = HashedView;

    open spec fn view(&self) -> HashedView {
        (self.fingerprint@, self.record@)
    }
}

/// The files that share one fingerprint, in arrival order.
pub struct Group {
    pub fingerprint: String,
    pub members: Vec<FileRecord>,
}

pub open spec fn records_view(rs: Seq<FileRecord>) -> Seq<RecordView> {
    rs.map_values(|r: FileRecord| r@)
}

pub open spec fn hashed_view(hs: Seq<HashedFile>) -> Seq<HashedView> {
    hs.map_values(|h: HashedFile| h@)
}

impl View for Group {
    type V = GroupView;

    open spec fn view(&self) -> GroupView {
        (self.fingerprint@, records_view(self.members@))
    }
}

pub open spec fn groups_view(gs: Seq<Group>) -> Seq<GroupView> {
    gs.map_values(|g: Group| g@)
}

/// The records of the files in `hs` whose fingerprint is `fp`, in order.
pub open spec fn members_of(hs: Seq<HashedView>, fp: Seq<char>) -> Seq<RecordView>
    decreases hs.len(),
{
    if hs.len() == 0 {
        Seq::empty()
    } else {
        let rest = members_of(hs.drop_last(), fp);
        if hs.last().0 == fp {
            rest.push(hs.last().1)
        } else {
            rest
        }
    }
}

/// The position in `hs` of the first file with fingerprint `fp` (meaningful
/// where one has it).
pub open spec fn first_seen(hs: Seq<HashedView>, fp: Seq<char>) -> int
    decreases hs.len(),
{
    if hs.len() == 0 {
        0
    } else if members_of(hs.drop_last(), fp).len() > 0 {
        first_seen(hs.drop_last(), fp)
    } else {
        hs.len() - 1
    }
}

/// Group `a` is listed before group `b`: it has more members, or as many
/// and its fingerprint was observed first.
pub open spec fn ranks_before(hs: Seq<HashedView>, a: GroupView, b: GroupView) -> bool {
    a.1.len() > b.1.len() || (a.1.len() == b.1.len() && first_seen(hs, a.0) < first_seen(hs, b.0))
}

/// `gs` is the ranked grouping of the fingerprinted files `hs`: each group
/// holds exactly the files of its fingerprint and is not empty, every file's
/// fingerprint has a group, and the groups are in rank order (which also
/// makes their fingerprints distinct).
pub open spec fn is_report_of(hs: Seq<HashedView>, gs: Seq<GroupView>) -> bool {
    &&& forall|k: int|
        0 <= k < gs.len() ==> #[trigger] gs[k].1 == members_of(hs, gs[k].0) && gs[k].1.len() > 0
    &&& forall|j: int| 0 <= j < hs.len() ==> has_group(gs, #[trigger] hs[j].0)
    &&& forall|k1: int, k2: int|
        0 <= k1 < k2 < gs.len() ==> ranks_before(hs, #[trigger] gs[k1], #[trigger] gs[k2])
}

/// Some group of `gs` has fingerprint `fp`.
pub open spec fn has_group(gs: Seq<GroupView>, fp: Seq<char>) -> bool {
    exists|k: int| 0 <= k < gs.len() && #[trigger] gs[k].0 == fp
}

proof fn lemma_step(hs: Seq<HashedView>, i: int, fp: Seq<char>)
    requires
        0 <= i < hs.len(),
    ensures
        members_of(hs.take(i + 1), fp) == if hs[i].0 == fp {
            members_of(hs.take(i), fp).push(hs[i].1)
        } else {
            members_of(hs.take(i), fp)
        },
        first_seen(hs.take(i + 1), fp) == if members_of(hs.take(i), fp).len() > 0 {
            first_seen(hs.take(i), fp)
        } else {
            i
        },
{
    assert(hs.take(i + 1).drop_last() =~= hs.take(i));
}

/// Some key of `keys` is `fp`.
spec fn has_key(keys: Seq<String>, fp: Seq<char>) -> bool {
    exists|k: int| 0 <= k < keys.len() && #[trigger] keys[k]@ == fp
}

spec fn ahead(counts: Seq<usize>, a: usize, b: usize) -> bool {
    counts[a as int] > counts[b as int] || (counts[a as int] == counts[b as int] && a < b)
}

/// The distinct fingerprints of `hs` in the order of first observation, each
/// with the number of files that have it.
fn tally(hs: &Vec<HashedFile>) -> (r: (Vec<String>, Vec<usize>))
    ensures
        r.0.len() == r.1.len(),
        forall|k: int|
            0 <= k < r.0.len() ==> #[trigger] r.1@[k] as int == members_of(hashed_view(hs@), r.0@[k]@).len()
                && r.1@[k] > 0,
        forall|k1: int, k2: int|
            0 <= k1 < k2 < r.0.len() ==> first_seen(hashed_view(hs@), #[trigger] r.0@[k1]@)
                < first_seen(hashed_view(hs@), #[trigger] r.0@[k2]@),
        forall|j: int| 0 <= j < hs.len() ==> has_key(r.0@, #[trigger] hashed_view(hs@)[j].0),
{
    let ghost hv = hashed_view(hs@);
    let mut keys: Vec<String> = Vec::new();
    let mut counts: Vec<usize> = Vec::new();
    let mut i: usize = 0;
    while i < hs.len()
        invariant
            hv == hashed_view(hs@),
            i <= hs.len(),
            keys.len() == counts.len(),
            forall|k: int|
                0 <= k < keys.len() ==> #[trigger] counts@[k] as int == members_of(hv.take(i as int), keys@[k]@).len()
                    && counts@[k] > 0 && counts@[k] <= i,
            forall|k: int| 0 <= k < keys.len() ==> first_seen(hv.take(i as int), #[trigger] keys@[k]@) < i,
            forall|k1: int, k2: int|
                0 <= k1 < k2 < keys.len() ==> first_seen(hv.take(i as int), #[trigger] keys@[k1]@)
                    < first_seen(hv.take(i as int), #[trigger] keys@[k2]@),
            forall|j: int| 0 <= j < i ==> has_key(keys@, #[trigger] hv[j].0),
        decreases hs.len() - i,
    {
        let mut pos: usize = 0;
        let mut hit = false;
        while pos < keys.len() && !hit
            invariant
                i < hs.len(),
                pos <= keys.len(),
                hit ==> pos < keys.len() && keys@[pos as int]@ == hs@[i as int].fingerprint@,
                !hit ==> forall|q: int| 0 <= q < pos ==> (#[trigger] keys@[q])@ != hs@[i as int].fingerprint@,
            decreases keys.len() - pos + if hit { 0int } else { 1int },
        {
            if keys[pos] == hs[i].fingerprint {
                hit = true;
            } else {
                pos = pos + 1;
            }
        }
        let ghost old_keys = keys@;
        let ghost old_counts = counts@;
        assert(hv[i as int] == hs@[i as int]@);
        if hit {
            let c = counts[pos] + 1;
            counts.set(pos, c);
        } else {
            proof {
                assert(members_of(hv.take(i as int), hv[i as int].0).len() == 0) by {
                    if members_of(hv.take(i as int), hv[i as int].0).len() > 0 {
                        lemma_occurs(hv.take(i as int), hv[i as int].0);
                        let j = choose|j: int| 0 <= j < i && hv.take(i as int)[j].0 == hv[i as int].0;
                        assert(hv.take(i as int)[j] == hv[j]);
                        assert(has_key(keys@, hv[j].0));
                    }
                }
            }
            keys.push(hs[i].fingerprint.clone());
            counts.push(1);
        }
        proof {
            assert forall|k: int| 0 <= k < keys.len() implies #[trigger] counts@[k] as int == members_of(
                hv.take(i + 1),
                keys@[k]@,
            ).len() && counts@[k] > 0 && counts@[k] <= i + 1 by {
                lemma_step(hv, i as int, keys@[k]@);
            }
            assert forall|k: int| 0 <= k < keys.len() implies first_seen(hv.take(i + 1), #[trigger] keys@[k]@)
                < i + 1 by {
                lemma_step(hv, i as int, keys@[k]@);
                if k < old_keys.len() {
                    assert(old_counts[k] > 0);
                }
            }
            assert forall|k1: int, k2: int|
                0 <= k1 < k2 < keys.len() implies first_seen(hv.take(i + 1), #[trigger] keys@[k1]@) < first_seen(
                hv.take(i + 1),
                #[trigger] keys@[k2]@,
            ) by {
                lemma_step(hv, i as int, keys@[k1]@);
                lemma_step(hv, i as int, keys@[k2]@);
                if k2 < old_keys.len() {
                    assert(old_counts[k1] > 0 && old_counts[k2] > 0);
                }
            }
            assert forall|j: int| 0 <= j < i + 1 implies has_key(keys@, #[trigger] hv[j].0) by {
                if j == i {
                    assert(keys@[pos as int]@ == hv[j].0);
                } else {
                    assert(has_key(old_keys, hv[j].0));
                    let k = choose|k: int| 0 <= k < old_keys.len() && #[trigger] old_keys[k]@ == hv[j].0;
                    assert(keys@[k]@ == hv[j].0);
                }
            }
        }
        i = i + 1;
    }
    proof {
        assert(hv.take(i as int) =~= hv);
    }
    (keys, counts)
}

/// A file with fingerprint `fp` stands in `hs` wherever `fp` has members.
proof fn lemma_occurs(hs: Seq<HashedView>, fp: Seq<char>)
    requires
        members_of(hs, fp).len() > 0,
    ensures
        exists|j: int| 0 <= j < hs.len() && hs[j].0 == fp,
    decreases hs.len(),
{
    if hs.last().0 != fp {
        lemma_occurs(hs.drop_last(), fp);
        let j = choose|j: int| 0 <= j < hs.len() - 1 && hs.drop_last()[j].0 == fp;
        assert(hs[j] == hs.drop_last()[j]);
    } else {
        assert(hs[hs.len() - 1].0 == fp);
    }
}

/// The indices of `counts` ordered by descending count, equal counts by
/// ascending index.
fn rank_order(counts: &Vec<usize>) -> (order: Vec<usize>)
    ensures
        forall|t: int| 0 <= t < order.len() ==> #[trigger] order@[t] < counts.len(),
        forall|x: int| 0 <= x < counts.len() ==> #[trigger] lists(order@, x),
        forall|t1: int, t2: int|
            0 <= t1 < t2 < order.len() ==> ahead(counts@, #[trigger] order@[t1], #[trigger] order@[t2]),
{
    let mut order: Vec<usize> = Vec::new();
    let mut k: usize = 0;
    while k < counts.len()
        invariant
            k <= counts.len(),
            forall|t: int| 0 <= t < order.len() ==> #[trigger] order@[t] < k,
            forall|x: int| 0 <= x < k ==> #[trigger] lists(order@, x),
            forall|t1: int, t2: int|
                0 <= t1 < t2 < order.len() ==> ahead(counts@, #[trigger] order@[t1], #[trigger] order@[t2]),
        decreases counts.len() - k,
    {
        let mut p: usize = 0;
        while p < order.len() && counts[order[p]] >= counts[k]
            invariant
                k < counts.len(),
                p <= order.len(),
                forall|t: int| 0 <= t < order.len() ==> #[trigger] order@[t] < k,
                forall|t: int| 0 <= t < p ==> counts@[#[trigger] order@[t] as int] >= counts@[k as int],
            decreases order.len() - p,
        {
            p = p + 1;
        }
        let ghost prev = order@;
        order.insert(p, k);
        proof {
            assert forall|t1: int, t2: int|
                0 <= t1 < t2 < order.len() implies ahead(counts@, #[trigger] order@[t1], #[trigger] order@[t2]) by {
                if t2 == p && t1 < p {
                    assert(order@[t1] == prev[t1]);
                } else if t1 == p && t2 > p {
                    assert(order@[t2] == prev[t2 - 1]);
                    if t2 - 1 > p {
                        assert(ahead(counts@, prev[p as int], prev[t2 - 1]));
                    }
                } else if t1 < p && t2 > p {
                    assert(order@[t1] == prev[t1] && order@[t2] == prev[t2 - 1]);
                    assert(ahead(counts@, prev[t1], prev[t2 - 1]));
                } else if t1 > p {
                    assert(order@[t1] == prev[t1 - 1] && order@[t2] == prev[t2 - 1]);
                    assert(ahead(counts@, prev[t1 - 1], prev[t2 - 1]));
                } else {
                    assert(order@[t1] == prev[t1] && order@[t2] == prev[t2]);
                    assert(ahead(counts@, prev[t1], prev[t2]));
                }
            }
            assert forall|x: int| 0 <= x < k + 1 implies #[trigger] lists(order@, x) by {
                if x == k {
                    assert(order@[p as int] == x);
                } else {
                    assert(lists(prev, x));
                    let t = choose|t: int| 0 <= t < prev.len() && prev[t] == x;
                    if t < p {
                        assert(order@[t] == x);
                    } else {
                        assert(order@[t + 1] == x);
                    }
                }
            }
        }
        k = k + 1;
    }
    order
}

/// `x` stands somewhere in `order`.
spec fn lists(order: Seq<usize>, x: int) -> bool {
    exists|t: int| 0 <= t < order.len() && order[t] == x
}

/// The records of the files in `hs` whose fingerprint is `fp`, in order.
fn members_with(hs: &Vec<HashedFile>, fp: &String) -> (r: Vec<FileRecord>)
    ensures
        records_view(r@) == members_of(hashed_view(hs@), fp@),
{
    let ghost hv = hashed_view(hs@);
    let mut members: Vec<FileRecord> = Vec::new();
    let mut j: usize = 0;
    while j < hs.len()
        invariant
            hv == hashed_view(hs@),
            j <= hs.len(),
            records_view(members@) == members_of(hv.take(j as int), fp@),
        decreases hs.len() - j,
    {
        proof {
            lemma_step(hv, j as int, fp@);
            assert(hv[j as int] == hs@[j as int]@);
        }
        if hs[j].fingerprint == *fp {
            let ghost prev = members@;
            members.push(hs[j].record.duplicate());
            proof {
                assert(records_view(members@) =~= records_view(prev).push(hs@[j as int].record@));
            }
        }
        j = j + 1;
    }
    proof {
        assert(hv.take(j as int) =~= hv);
    }
    members
}

/// Groups fingerprinted files by fingerprint and ranks the groups: most
/// members first, equal counts in the order their fingerprints were first
/// observed. Each group lists its files in arrival order.
pub fn aggregate(hashed: &Vec<HashedFile>) -> (groups: Vec<Group>)
    ensures
        is_report_of(hashed_view(hashed@), groups_view(groups@)),
{
    let ghost hv = hashed_view(hashed@);
    let (keys, counts) = tally(hashed);
    let order = rank_order(&counts);
    let mut groups: Vec<Group> = Vec::new();
    let mut t: usize = 0;
    while t < order.len()
        invariant
            hv == hashed_view(hashed@),
            t <= order.len(),
            groups.len() == t,
            keys.len() == counts.len(),
            forall|s: int| 0 <= s < order.len() ==> #[trigger] order@[s] < counts.len(),
            forall|s: int|
                0 <= s < t ==> #[trigger] groups@[s]@ == (keys@[order@[s] as int]@, members_of(
                    hv,
                    keys@[order@[s] as int]@,
                )),
        decreases order.len() - t,
    {
        let k = order[t];
        let members = members_with(hashed, &keys[k]);
        groups.push(Group { fingerprint: keys[k].clone(), members });
        t = t + 1;
    }
    proof {
        let gv = groups_view(groups@);
        assert forall|s: int| 0 <= s < gv.len() implies #[trigger] gv[s].1 == members_of(hv, gv[s].0)
            && gv[s].1.len() > 0 by {
            assert(gv[s] == groups@[s]@);
            assert(counts@[order@[s] as int] > 0);
        }
        assert forall|j: int| 0 <= j < hv.len() implies has_group(gv, #[trigger] hv[j].0) by {
            assert(has_key(keys@, hv[j].0));
            let k = choose|k: int| 0 <= k < keys.len() && #[trigger] keys@[k]@ == hv[j].0;
            assert(lists(order@, k));
            let s = choose|s: int| 0 <= s < order.len() && order@[s] == k;
            assert(gv[s] == groups@[s]@);
            assert(gv[s].0 == hv[j].0);
        }
        assert forall|s1: int, s2: int|
            0 <= s1 < s2 < gv.len() implies ranks_before(hv, #[trigger] gv[s1], #[trigger] gv[s2]) by {
            assert(gv[s1] == groups@[s1]@ && gv[s2] == groups@[s2]@);
            assert(ahead(counts@, order@[s1], order@[s2]));
            if order@[s1] < order@[s2] {
                assert(first_seen(hv, keys@[order@[s1] as int]@) < first_seen(hv, keys@[order@[s2] as int]@));
            }
        }
    }
    groups
}

/// What a report shows of one group: its fingerprint, the path and size of
/// its representative (the first member), and how many members it has.
pub struct GroupSummary {
    pub fingerprint: String,
    pub representative: String,
    pub count: usize,
    pub size: u64,
}

impl Group {
    /// The summary of a group that has at least one member.
    pub fn summary(&self) -> (r: GroupSummary)
        requires
            self.members@.len() > 0,
        ensures
            r.fingerprint@ == self.fingerprint@,
            r.representative@ == self.members@[0].path@,
            r.size == self.members@[0].size,
            r.count == self.members@.len(),
    {
        let first = &self.members[0];
        GroupSummary {
            fingerprint: self.fingerprint.clone(),
            representative: first.path.clone(),
            count: self.members.len(),
            size: first.size,
        }
    }
}

/// The summaries of the groups, in the same order.
pub fn summarize(groups: &Vec<Group>) -> (r: Vec<GroupSummary>)
    requires
        forall|k: int| 0 <= k < groups.len() ==> (#[trigger] groups@[k]).members@.len() > 0,
    ensures
        r.len() == groups.len(),
        forall|k: int|
            0 <= k < groups.len() ==> {
                &&& (#[trigger] r@[k]).fingerprint@ == groups@[k].fingerprint@
                &&& r@[k].representative@ == groups@[k].members@[0].path@
                &&& r@[k].size == groups@[k].members@[0].size
                &&& r@[k].count == groups@[k].members@.len()
            },
{
    let mut out: Vec<GroupSummary> = Vec::new();
    let mut k: usize = 0;
    while k < groups.len()
        invariant
            k <= groups.len(),
            out.len() == k,
            forall|q: int| 0 <= q < groups.len() ==> (#[trigger] groups@[q]).members@.len() > 0,
            forall|q: int|
                0 <= q < k ==> {
                    &&& (#[trigger] out@[q]).fingerprint@ == groups@[q].fingerprint@
                    &&& out@[q].representative@ == groups@[q].members@[0].path@
                    &&& out@[q].size == groups@[q].members@[0].size
                    &&& out@[q].count == groups@[q].members@.len()
                },
        decreases groups.len() - k,
    {
        out.push(groups[k].summary());
        k = k + 1;
    }
    out
}

} // verus!
