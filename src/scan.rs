//! The scan's decisions: which traversal entries are candidates, when the
//! scan fails as a whole, what a read file contributes, and how per-file
//! outcomes become the final report.
use vstd::prelude::*;
use crate::aggregate::{
    aggregate, groups_view, is_report_of, FileRecord, Group, HashedFile, HashedView,
};
use crate::fingerprint::{fingerprint_bytes, fingerprint_of};

verus! {

/// One entry met while walking the tree below the root.
pub enum Visit {
    /// A regular file at this path.
    File { path: String },
    /// A directory, a dangling link or another entry that is not a regular file.
    Other,
    /// An entry that could not be visited, `depth` levels below the root
    /// (the root itself is at depth zero).
    Unreadable { depth: usize, reason: String },
}

/// The scan could not begin: the root itself cannot be traversed.
pub enum ScanError {
    RootUnusable { reason: String },
}

/// A file that could not be fingerprinted, and why.
pub struct Diagnostic {
    pub path: String,
    pub reason: String,
}

impl View for Diagnostic {
    type V = (Seq<char>, Seq<char>);

    open spec fn view(&self) -> (Seq<char>, Seq<char>) {
        (self.path@, self.reason@)
    }
}

impl Diagnostic {
    /// A copy of this diagnostic.
    pub fn duplicate(&self) -> (r: Diagnostic)
        ensures
            r@ == self@,
    {
        Diagnostic { path: self.path.clone(), reason: self.reason.clone() }
    }
}

/// What became of one candidate file.
pub enum FileOutcome {
    Hashed(HashedFile),
    Failed(Diagnostic),
}

/// The ranked groups of a scan, and the files it had to leave out.
pub struct ScanReport {
    pub groups: Vec<Group>,
    pub diagnostics: Vec<Diagnostic>,
}

/// The root could not be traversed at all.
pub open spec fn is_root_failure(v: Visit) -> bool {
    match v {
        Visit::Unreadable { depth, .. } => depth == 0,
        _ => false,
    }
}

/// The paths of the regular files among `vs`, in traversal order.
pub open spec fn candidate_paths(vs: Seq<Visit>) -> Seq<Seq<char>>
    decreases vs.len(),
{
    if vs.len() == 0 {
        Seq::empty()
    } else {
        let rest = candidate_paths(vs.drop_last());
        match vs.last() {
            Visit::File { path } => rest.push(path@),
            _ => rest,
        }
    }
}

/// What the fingerprinted files among `os` contribute, in order.
pub open spec fn successes(os: Seq<FileOutcome>) -> Seq<HashedView>
    decreases os.len(),
{
    if os.len() == 0 {
        Seq::empty()
    } else {
        let rest = successes(os.drop_last());
        match os.last() {
            FileOutcome::Hashed(h) => rest.push(h@),
            FileOutcome::Failed(_) => rest,
        }
    }
}

/// The diagnostics of the files among `os` that failed, in order.
pub open spec fn failures(os: Seq<FileOutcome>) -> Seq<(Seq<char>, Seq<char>)>
    decreases os.len(),
{
    if os.len() == 0 {
        Seq::empty()
    } else {
        let rest = failures(os.drop_last());
        match os.last() {
            FileOutcome::Hashed(_) => rest,
            FileOutcome::Failed(d) => rest.push(d@),
        }
    }
}

/// The candidate files of a traversal, in traversal order. Entries that are
/// not regular files and entries below the root that could not be visited
/// are skipped; if the root itself could not be traversed the scan fails
/// with the reason of the first such entry.
pub fn select_candidates(visits: &Vec<Visit>) -> (r: Result<Vec<String>, ScanError>)
    ensures
        match r {
            Ok(paths) => {
                &&& forall|j: int| 0 <= j < visits.len() ==> !is_root_failure(#[trigger] visits@[j])
                &&& paths@.map_values(|p: String| p@) == candidate_paths(visits@)
            },
            Err(ScanError::RootUnusable { reason }) => exists|j: int|
                0 <= j < visits.len() && is_root_failure(#[trigger] visits@[j]) && (forall|i: int|
                    0 <= i < j ==> !is_root_failure(#[trigger] visits@[i])) && match visits@[j] {
                    Visit::Unreadable { reason: why, .. } => reason@ == why@,
                    _ => false,
                },
        },
{
    let mut paths: Vec<String> = Vec::new();
    let mut i: usize = 0;
    while i < visits.len()
        invariant
            i <= visits.len(),
            forall|j: int| 0 <= j < i ==> !is_root_failure(#[trigger] visits@[j]),
            paths@.map_values(|p: String| p@) == candidate_paths(visits@.take(i as int)),
        decreases visits.len() - i,
    {
        proof {
            assert(visits@.take(i + 1).drop_last() =~= visits@.take(i as int));
        }
        match &visits[i] {
            Visit::File { path } => {
                let ghost prev = paths@;
                paths.push(path.clone());
                proof {
                    assert(paths@.map_values(|p: String| p@) =~= prev.map_values(|p: String| p@).push(
                        path@,
                    ));
                }
            },
            Visit::Other => {},
            Visit::Unreadable { depth, reason } => {
                if *depth == 0 {
                    return Err(ScanError::RootUnusable { reason: reason.clone() });
                }
            },
        }
        i = i + 1;
    }
    proof {
        assert(visits@.take(i as int) =~= visits@);
    }
    Ok(paths)
}

/// What a file at `path` with content `content` contributes to the scan: its
/// fingerprint, its path and its size, the number of bytes read.
pub fn fingerprint_content(path: String, content: &[u8]) -> (r: HashedFile)
    ensures
        r@ == (fingerprint_of(content@), (path@, content@.len() as u64)),
        r.record.size as int == content@.len(),
{
    let fingerprint = fingerprint_bytes(content);
    HashedFile { fingerprint, record: FileRecord { path, size: content.len() as u64 } }
}

/// The report of a scan whose candidates ended as `outcomes`: the ranked
/// groups of the fingerprinted files, and a diagnostic for each file that
/// failed, in order. A failed file leaves the others unaffected.
pub fn build_report(outcomes: &Vec<FileOutcome>) -> (r: ScanReport)
    ensures
        is_report_of(successes(outcomes@), groups_view(r.groups@)),
        r.diagnostics@.map_values(|d: Diagnostic| d@) == failures(outcomes@),
{
    let mut hashed: Vec<HashedFile> = Vec::new();
    let mut diagnostics: Vec<Diagnostic> = Vec::new();
    let mut i: usize = 0;
    while i < outcomes.len()
        invariant
            i <= outcomes.len(),
            hashed@.map_values(|h: HashedFile| h@) == successes(outcomes@.take(i as int)),
            diagnostics@.map_values(|d: Diagnostic| d@) == failures(outcomes@.take(i as int)),
        decreases outcomes.len() - i,
    {
        proof {
            assert(outcomes@.take(i + 1).drop_last() =~= outcomes@.take(i as int));
        }
        match &outcomes[i] {
            FileOutcome::Hashed(h) => {
                let ghost prev = hashed@;
                hashed.push(HashedFile { fingerprint: h.fingerprint.clone(), record: h.record.duplicate() });
                proof {
                    assert(hashed@.map_values(|h: HashedFile| h@) =~= prev.map_values(|h: HashedFile| h@).push(h@));
                }
            },
            FileOutcome::Failed(d) => {
                let ghost prev = diagnostics@;
                diagnostics.push(d.duplicate());
                proof {
                    assert(diagnostics@.map_values(|d: Diagnostic| d@) =~= prev.map_values(|d: Diagnostic| d@).push(d@));
                }
            },
        }
        i = i + 1;
    }
    proof {
        assert(outcomes@.take(i as int) =~= outcomes@);
    }
    let groups = aggregate(&hashed);
    ScanReport { groups, diagnostics }
}

} // verus!
