//! Properties of a scan report that hold for every input.
use vstd::prelude::*;
use crate::aggregate::{has_group, is_report_of, members_of, GroupView, HashedView, RecordView};
use crate::fingerprint::{fingerprint_of, hex_digit, hex_of};
use crate::scan::{failures, successes, FileOutcome};

verus! {

/// The number of files over all groups.
pub open spec fn total_members(gs: Seq<GroupView>) -> int
    decreases gs.len(),
{
    if gs.len() == 0 {
        0
    } else {
        total_members(gs.drop_last()) + gs.last().1.len()
    }
}

/// How many files of `hs` fall in the groups named by the fingerprints of `gs`.
spec fn covered(gs: Seq<GroupView>, hs: Seq<HashedView>) -> int
    decreases gs.len(),
{
    if gs.len() == 0 {
        0
    } else {
        covered(gs.drop_last(), hs) + members_of(hs, gs.last().0).len()
    }
}

/// How many groups of `gs` have fingerprint `fp`.
spec fn naming(gs: Seq<GroupView>, fp: Seq<char>) -> int
    decreases gs.len(),
{
    if gs.len() == 0 {
        0
    } else {
        naming(gs.drop_last(), fp) + if gs.last().0 == fp { 1int } else { 0int }
    }
}

spec fn distinct(gs: Seq<GroupView>) -> bool {
    forall|k1: int, k2: int| 0 <= k1 < k2 < gs.len() ==> #[trigger] gs[k1].0 != #[trigger] gs[k2].0
}

proof fn lemma_report_distinct(hs: Seq<HashedView>, gs: Seq<GroupView>)
    requires
        is_report_of(hs, gs),
    ensures
        distinct(gs),
{
    assert forall|k1: int, k2: int| 0 <= k1 < k2 < gs.len() implies #[trigger] gs[k1].0 != #[trigger] gs[k2].0 by {
        assert(gs[k1].1 == members_of(hs, gs[k1].0));
        assert(gs[k2].1 == members_of(hs, gs[k2].0));
    }
}

proof fn lemma_total_is_covered(hs: Seq<HashedView>, gs: Seq<GroupView>)
    requires
        forall|k: int| 0 <= k < gs.len() ==> #[trigger] gs[k].1 == members_of(hs, gs[k].0),
    ensures
        total_members(gs) == covered(gs, hs),
    decreases gs.len(),
{
    if gs.len() > 0 {
        let rest = gs.drop_last();
        assert forall|k: int| 0 <= k < rest.len() implies #[trigger] rest[k].1 == members_of(hs, rest[k].0) by {
            assert(rest[k] == gs[k]);
        }
        lemma_total_is_covered(hs, rest);
        assert(gs.last() == gs[gs.len() - 1]);
    }
}

proof fn lemma_covered_step(gs: Seq<GroupView>, hs: Seq<HashedView>)
    requires
        hs.len() > 0,
    ensures
        covered(gs, hs) == covered(gs, hs.drop_last()) + naming(gs, hs.last().0),
    decreases gs.len(),
{
    if gs.len() > 0 {
        lemma_covered_step(gs.drop_last(), hs);
    }
}

proof fn lemma_naming_once(gs: Seq<GroupView>, fp: Seq<char>)
    requires
        distinct(gs),
    ensures
        has_group(gs, fp) ==> naming(gs, fp) == 1,
        !has_group(gs, fp) ==> naming(gs, fp) == 0,
    decreases gs.len(),
{
    if gs.len() > 0 {
        let rest = gs.drop_last();
        assert(distinct(rest)) by {
            assert forall|k1: int, k2: int| 0 <= k1 < k2 < rest.len() implies #[trigger] rest[k1].0
                != #[trigger] rest[k2].0 by {
                assert(rest[k1] == gs[k1] && rest[k2] == gs[k2]);
            }
        }
        lemma_naming_once(rest, fp);
        if has_group(rest, fp) {
            let k = choose|k: int| 0 <= k < rest.len() && #[trigger] rest[k].0 == fp;
            assert(gs[k] == rest[k]);
            assert(gs[gs.len() - 1].0 != fp);
        }
        if has_group(gs, fp) && !has_group(rest, fp) {
            let k = choose|k: int| 0 <= k < gs.len() && #[trigger] gs[k].0 == fp;
            if k < gs.len() - 1 {
                assert(rest[k] == gs[k]);
            }
        }
        if !has_group(gs, fp) {
            assert(gs[gs.len() - 1].0 != fp);
            if has_group(rest, fp) {
                let k = choose|k: int| 0 <= k < rest.len() && #[trigger] rest[k].0 == fp;
                assert(gs[k] == rest[k]);
            }
        }
    }
}

proof fn lemma_covered_none(gs: Seq<GroupView>, hs: Seq<HashedView>)
    requires
        hs.len() == 0,
    ensures
        covered(gs, hs) == 0,
    decreases gs.len(),
{
    if gs.len() > 0 {
        lemma_covered_none(gs.drop_last(), hs);
    }
}

proof fn lemma_covered_all(gs: Seq<GroupView>, hs: Seq<HashedView>)
    requires
        distinct(gs),
        forall|j: int| 0 <= j < hs.len() ==> has_group(gs, #[trigger] hs[j].0),
    ensures
        covered(gs, hs) == hs.len(),
    decreases hs.len(),
{
    if hs.len() > 0 {
        let rest = hs.drop_last();
        assert forall|j: int| 0 <= j < rest.len() implies has_group(gs, #[trigger] rest[j].0) by {
            assert(rest[j] == hs[j]);
        }
        lemma_covered_all(gs, rest);
        lemma_covered_step(gs, hs);
        assert(has_group(gs, hs[hs.len() - 1].0));
        lemma_naming_once(gs, hs.last().0);
    } else {
        lemma_covered_none(gs, hs);
    }
}

/// Every fingerprinted file is counted in exactly one group: the members of
/// all groups add up to the number of files.
pub proof fn law_conserved_counts(hs: Seq<HashedView>, gs: Seq<GroupView>)
    requires
        is_report_of(hs, gs),
    ensures
        total_members(gs) == hs.len(),
{
    lemma_report_distinct(hs, gs);
    lemma_total_is_covered(hs, gs);
    lemma_covered_all(gs, hs);
}

/// Groups are listed by member count, from most to fewest.
pub proof fn law_sorted_by_count(hs: Seq<HashedView>, gs: Seq<GroupView>)
    requires
        is_report_of(hs, gs),
    ensures
        forall|k1: int, k2: int| 0 <= k1 < k2 < gs.len() ==> #[trigger] gs[k1].1.len() >= #[trigger] gs[k2].1.len(),
{
    assert forall|k1: int, k2: int| 0 <= k1 < k2 < gs.len() implies #[trigger] gs[k1].1.len()
        >= #[trigger] gs[k2].1.len() by {
        assert(crate::aggregate::ranks_before(hs, gs[k1], gs[k2]));
    }
}

proof fn lemma_outcomes_split(os: Seq<FileOutcome>)
    ensures
        successes(os).len() + failures(os).len() == os.len(),
    decreases os.len(),
{
    if os.len() > 0 {
        lemma_outcomes_split(os.drop_last());
    }
}

/// When no candidate fails, the report holds one record per candidate.
pub proof fn law_complete_without_failures(os: Seq<FileOutcome>, gs: Seq<GroupView>)
    requires
        failures(os).len() == 0,
        is_report_of(successes(os), gs),
    ensures
        total_members(gs) == os.len(),
{
    lemma_outcomes_split(os);
    law_conserved_counts(successes(os), gs);
}

/// A single failing candidate costs its own record and nothing else: the
/// report holds the other files, with one diagnostic.
pub proof fn law_failure_isolated(os: Seq<FileOutcome>, gs: Seq<GroupView>)
    requires
        failures(os).len() == 1,
        is_report_of(successes(os), gs),
    ensures
        total_members(gs) == os.len() - 1,
        successes(os).len() == os.len() - 1,
{
    lemma_outcomes_split(os);
    law_conserved_counts(successes(os), gs);
}

proof fn lemma_member_listed(hs: Seq<HashedView>, j: int)
    requires
        0 <= j < hs.len(),
    ensures
        members_of(hs, hs[j].0).contains(hs[j].1),
    decreases hs.len(),
{
    let fp = hs[j].0;
    if j == hs.len() - 1 {
        assert(members_of(hs, fp) == members_of(hs.drop_last(), fp).push(hs[j].1));
        assert(members_of(hs, fp)[members_of(hs, fp).len() - 1] == hs[j].1);
    } else {
        let rest = hs.drop_last();
        assert(rest[j] == hs[j]);
        lemma_member_listed(rest, j);
        let m = members_of(rest, fp);
        let i = choose|i: int| 0 <= i < m.len() && m[i] == hs[j].1;
        if hs.last().0 == fp {
            assert(members_of(hs, fp)[i] == hs[j].1);
        }
    }
}

/// Files with equal fingerprints land in one group, which lists both.
pub proof fn law_equal_fingerprints_share_group(hs: Seq<HashedView>, gs: Seq<GroupView>, j1: int, j2: int)
    requires
        is_report_of(hs, gs),
        0 <= j1 < hs.len(),
        0 <= j2 < hs.len(),
        hs[j1].0 == hs[j2].0,
    ensures
        exists|k: int|
            0 <= k < gs.len() && #[trigger] gs[k].0 == hs[j1].0 && gs[k].1.contains(hs[j1].1) && gs[k].1.contains(
                hs[j2].1,
            ),
{
    assert(has_group(gs, hs[j1].0));
    let k = choose|k: int| 0 <= k < gs.len() && #[trigger] gs[k].0 == hs[j1].0;
    assert(gs[k].1 == members_of(hs, gs[k].0));
    lemma_member_listed(hs, j1);
    lemma_member_listed(hs, j2);
}

/// Every member of a group carries the group's fingerprint.
pub proof fn law_members_share_fingerprint(hs: Seq<HashedView>, fp: Seq<char>, r: RecordView)
    requires
        members_of(hs, fp).contains(r),
    ensures
        hs.contains((fp, r)),
    decreases hs.len(),
{
    let rest = hs.drop_last();
    if hs.last().0 == fp && hs.last().1 == r {
        assert(hs[hs.len() - 1] == (fp, r));
    } else {
        let m = members_of(hs, fp);
        let i = choose|i: int| 0 <= i < m.len() && m[i] == r;
        if hs.last().0 == fp {
            assert(i < m.len() - 1);
            assert(members_of(rest, fp)[i] == r);
        }
        assert(members_of(rest, fp).contains(r));
        law_members_share_fingerprint(rest, fp, r);
        let j = choose|j: int| 0 <= j < rest.len() && rest[j] == (fp, r);
        assert(hs[j] == rest[j]);
    }
}

/// The fingerprints of `hs`, in order.
pub open spec fn fingerprints(hs: Seq<HashedView>) -> Seq<Seq<char>> {
    hs.map_values(|h: HashedView| h.0)
}

proof fn lemma_members_counted(hs: Seq<HashedView>, fp: Seq<char>)
    ensures
        members_of(hs, fp).len() == fingerprints(hs).to_multiset().count(fp),
    decreases hs.len(),
{
    broadcast use vstd::seq_lib::to_multiset_build, vstd::seq_lib::to_multiset_contains, vstd::multiset::group_multiset_axioms;

    if hs.len() == 0 {
        assert(!fingerprints(hs).contains(fp));
    } else {
        lemma_members_counted(hs.drop_last(), fp);
        assert(fingerprints(hs) =~= fingerprints(hs.drop_last()).push(hs.last().0));
    }
}

/// Some group of `gs` has the fingerprint of `g` and as many members.
pub open spec fn has_peer(gs: Seq<GroupView>, g: GroupView) -> bool {
    exists|k: int| 0 <= k < gs.len() && #[trigger] gs[k].0 == g.0 && gs[k].1.len() == g.1.len()
}

/// The fingerprints and member counts of a report depend only on which
/// fingerprints were observed and how often, not on the order in which the
/// files arrived: each group of one report has a group of the other with the
/// same fingerprint and the same count.
pub proof fn law_arrival_order_irrelevant(
    hs1: Seq<HashedView>,
    gs1: Seq<GroupView>,
    hs2: Seq<HashedView>,
    gs2: Seq<GroupView>,
)
    requires
        is_report_of(hs1, gs1),
        is_report_of(hs2, gs2),
        fingerprints(hs1).to_multiset() == fingerprints(hs2).to_multiset(),
    ensures
        forall|k1: int| 0 <= k1 < gs1.len() ==> has_peer(gs2, #[trigger] gs1[k1]),
        forall|k2: int| 0 <= k2 < gs2.len() ==> has_peer(gs1, #[trigger] gs2[k2]),
{
    lemma_counterpart(hs1, gs1, hs2, gs2);
    lemma_counterpart(hs2, gs2, hs1, gs1);
}

proof fn lemma_counterpart(hs1: Seq<HashedView>, gs1: Seq<GroupView>, hs2: Seq<HashedView>, gs2: Seq<GroupView>)
    requires
        is_report_of(hs1, gs1),
        is_report_of(hs2, gs2),
        fingerprints(hs1).to_multiset() == fingerprints(hs2).to_multiset(),
    ensures
        forall|k1: int| 0 <= k1 < gs1.len() ==> has_peer(gs2, #[trigger] gs1[k1]),
{
    broadcast use vstd::seq_lib::to_multiset_contains;

    assert forall|k1: int| 0 <= k1 < gs1.len() implies has_peer(gs2, #[trigger] gs1[k1]) by {
        let fp = gs1[k1].0;
        assert(gs1[k1].1 == members_of(hs1, fp) && gs1[k1].1.len() > 0);
        lemma_members_counted(hs1, fp);
        lemma_members_counted(hs2, fp);
        assert(fingerprints(hs2).contains(fp));
        let j = choose|j: int| 0 <= j < fingerprints(hs2).len() && fingerprints(hs2)[j] == fp;
        assert(hs2[j].0 == fp);
        assert(has_group(gs2, hs2[j].0));
        let k2 = choose|k2: int| 0 <= k2 < gs2.len() && #[trigger] gs2[k2].0 == fp;
        assert(gs2[k2].1 == members_of(hs2, gs2[k2].0));
    }
}

proof fn lemma_hex_positions(bytes: Seq<u8>, i: int)
    requires
        0 <= i < bytes.len(),
    ensures
        hex_of(bytes).len() == 2 * bytes.len(),
        hex_of(bytes)[2 * i] == hex_digit(bytes[i] / 16),
        hex_of(bytes)[2 * i + 1] == hex_digit(bytes[i] % 16),
    decreases bytes.len(),
{
    lemma_hex_len(bytes);
    if i < bytes.len() - 1 {
        lemma_hex_positions(bytes.drop_last(), i);
        assert(bytes.drop_last()[i] == bytes[i]);
    }
}

proof fn lemma_hex_len(bytes: Seq<u8>)
    ensures
        hex_of(bytes).len() == 2 * bytes.len(),
    decreases bytes.len(),
{
    if bytes.len() > 0 {
        lemma_hex_len(bytes.drop_last());
    }
}

proof fn lemma_digit_injective(a: u8, b: u8)
    requires
        a < 16,
        b < 16,
        hex_digit(a) == hex_digit(b),
    ensures
        a == b,
{
    assert(hex_digit(a) as u32 == hex_digit(b) as u32);
}

/// Equal contents have equal fingerprints.
pub proof fn law_equal_content_equal_fingerprint(a: Seq<u8>, b: Seq<u8>)
    requires
        a == b,
    ensures
        fingerprint_of(a) == fingerprint_of(b),
{
}

/// The hexadecimal rendering loses nothing: distinct digests give distinct
/// fingerprints, so files share a fingerprint only where their digests agree.
pub proof fn law_distinct_digests_distinct_renderings(d1: Seq<u8>, d2: Seq<u8>)
    requires
        d1 != d2,
    ensures
        hex_of(d1) != hex_of(d2),
{
    lemma_hex_len(d1);
    lemma_hex_len(d2);
    if hex_of(d1) == hex_of(d2) {
        assert forall|i: int| 0 <= i < d1.len() implies d1[i] == d2[i] by {
            lemma_hex_positions(d1, i);
            lemma_hex_positions(d2, i);
            let (x, y) = (d1[i], d2[i]);
            lemma_digit_injective(x / 16, y / 16);
            lemma_digit_injective(x % 16, y % 16);
            assert(x == 16 * (x / 16) + x % 16);
            assert(y == 16 * (y / 16) + y % 16);
        }
        assert(d1 =~= d2);
    }
}

/// Where files with one fingerprint have one size in both scans, groups of the
/// two reports with the same fingerprint show the same representative size,
/// whichever file arrived first.
pub proof fn law_arrival_order_keeps_sizes(
    hs1: Seq<HashedView>,
    gs1: Seq<GroupView>,
    hs2: Seq<HashedView>,
    gs2: Seq<GroupView>,
    k1: int,
    k2: int,
)
    requires
        is_report_of(hs1, gs1),
        is_report_of(hs2, gs2),
        0 <= k1 < gs1.len(),
        0 <= k2 < gs2.len(),
        gs1[k1].0 == gs2[k2].0,
        forall|a: HashedView, b: HashedView|
            #[trigger] hs1.contains(a) && #[trigger] hs2.contains(b) && a.0 == b.0 ==> a.1.1 == b.1.1,
    ensures
        gs1[k1].1[0].1 == gs2[k2].1[0].1,
{
    let fp = gs1[k1].0;
    assert(gs1[k1].1 == members_of(hs1, fp) && gs1[k1].1.len() > 0);
    assert(gs2[k2].1 == members_of(hs2, fp) && gs2[k2].1.len() > 0);
    let r1 = gs1[k1].1[0];
    let r2 = gs2[k2].1[0];
    assert(members_of(hs1, fp).contains(r1));
    assert(members_of(hs2, fp).contains(r2));
    law_members_share_fingerprint(hs1, fp, r1);
    law_members_share_fingerprint(hs2, fp, r2);
    assert(hs1.contains((fp, r1)) && hs2.contains((fp, r2)));
}

} // verus!
