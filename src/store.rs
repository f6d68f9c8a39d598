//! The snapshot store: builds grouped by major version, each holding the flag
//! snapshot and the added/removed lists written for it.

use vstd::prelude::*;
use std::cmp::Ordering;
use crate::flags::{diff, is_diff_of, nonempty_lines, parse_snapshot, DiffResult, FlagSet};
use crate::text::{compare_text, lemma_contains_push, lemma_text_order, views_of};
use crate::version::{all_digits, digits_value, is_version_sorting, sort_versions};

verus! {

/// Why a store operation failed.
#[derive(Clone, Copy, Debug, PartialEq, Eq, Structural)]
pub enum StoreError {
    /// A write into a build directory that does not exist.
    Io,
    /// The snapshot of the previous build is missing.
    NotFound,
    /// No earlier build is stored to compare with.
    NoPreviousVersion,
}

/// Which of the two diff lists of a build.
#[derive(Clone, Copy, Debug, PartialEq, Eq, Structural)]
pub enum ListFile {
    Added,
    Removed,
}

impl ListFile {
    /// The file name the list is stored under.
    pub fn file_name(&self) -> (r: &'static str)
        ensures
            *self == ListFile::Added ==> r@ == "added.txt"@,
            *self == ListFile::Removed ==> r@ == "removed.txt"@,
    {
        match self {
            ListFile::Added => "added.txt",
            ListFile::Removed => "removed.txt",
        }
    }
}

/// The file name of a build's full snapshot.
pub const SNAPSHOT_FILE: &'static str = "original.txt";

/// What a build directory holds: each file as its lines, and whether it has
/// other entries.
pub struct BuildState {
    pub snapshot: Option<Seq<Seq<char>>>,
    pub added: Option<Seq<Seq<char>>>,
    pub removed: Option<Seq<Seq<char>>>,
    pub others: bool,
}

pub open spec fn is_empty_dir(b: BuildState) -> bool {
    b.snapshot is None && b.added is None && b.removed is None && !b.others
}

/// The contents of the store: the major-version directories, and each build
/// directory keyed by (major, full version).
pub struct StoreView {
    pub majors: Set<Seq<char>>,
    pub builds: Map<(Seq<char>, Seq<char>), BuildState>,
}

/// A build is stored when its directory exists and holds at least one entry.
pub open spec fn build_exists_in(v: StoreView, major: Seq<char>, full: Seq<char>) -> bool {
    v.builds.contains_key((major, full)) && !is_empty_dir(v.builds[(major, full)])
}

pub open spec fn lines_view(o: Option<Vec<String>>) -> Option<Seq<Seq<char>>> {
    match o {
        Some(v) => Some(views_of(v@)),
        None => None,
    }
}

struct BuildEntry {
    major: String,
    full: String,
    snapshot: Option<Vec<String>>,
    added: Option<Vec<String>>,
    removed: Option<Vec<String>>,
    others: bool,
}

spec fn key_of(b: BuildEntry) -> (Seq<char>, Seq<char>) {
    (b.major@, b.full@)
}

spec fn state_of(b: BuildEntry) -> BuildState {
    BuildState {
        snapshot: lines_view(b.snapshot),
        added: lines_view(b.added),
        removed: lines_view(b.removed),
        others: b.others,
    }
}

spec fn keys_unique(s: Seq<BuildEntry>) -> bool {
    forall|i: int, j: int|
        0 <= i < s.len() && 0 <= j < s.len() && i != j ==> key_of(#[trigger] s[i]) != key_of(
            #[trigger] s[j],
        )
}

spec fn has_key(s: Seq<BuildEntry>, k: (Seq<char>, Seq<char>)) -> bool {
    exists|i: int| 0 <= i < s.len() && key_of(#[trigger] s[i]) == k
}

spec fn build_map(s: Seq<BuildEntry>) -> Map<(Seq<char>, Seq<char>), BuildState> {
    Map::new(
        |k: (Seq<char>, Seq<char>)| has_key(s, k),
        |k: (Seq<char>, Seq<char>)|
            state_of(s[choose|i: int| 0 <= i < s.len() && key_of(#[trigger] s[i]) == k]),
    )
}

/// The full versions stored under `major`, in the order of the entries.
spec fn names_under(s: Seq<BuildEntry>, major: Seq<char>) -> Seq<Seq<char>>
    decreases s.len(),
{
    if s.len() == 0 {
        Seq::empty()
    } else {
        let rest = names_under(s.drop_last(), major);
        if s.last().major@ == major {
            rest.push(s.last().full@)
        } else {
            rest
        }
    }
}

proof fn lemma_map_at(s: Seq<BuildEntry>, i: int)
    requires
        keys_unique(s),
        0 <= i < s.len(),
    ensures
        build_map(s).contains_key(key_of(s[i])),
        build_map(s)[key_of(s[i])] == state_of(s[i]),
{
    let k = key_of(s[i]);
    assert(has_key(s, k));
    let j = choose|j: int| 0 <= j < s.len() && key_of(#[trigger] s[j]) == k;
    assert(j == i);
}

proof fn lemma_map_update(s: Seq<BuildEntry>, i: int, b: BuildEntry)
    requires
        keys_unique(s),
        0 <= i < s.len(),
        key_of(b) == key_of(s[i]),
    ensures
        keys_unique(s.update(i, b)),
        build_map(s.update(i, b)) == build_map(s).insert(key_of(b), state_of(b)),
        forall|m: Seq<char>| names_under(s.update(i, b), m) == names_under(s, m),
{
    let t = s.update(i, b);
    assert forall|a: int, c: int|
        0 <= a < t.len() && 0 <= c < t.len() && a != c implies key_of(#[trigger] t[a]) != key_of(
        #[trigger] t[c],
    ) by {
        assert(key_of(t[a]) == key_of(s[a]));
        assert(key_of(t[c]) == key_of(s[c]));
    }
    assert forall|k: (Seq<char>, Seq<char>)| has_key(t, k) <==> has_key(s, k) by {
        if has_key(t, k) {
            let j = choose|j: int| 0 <= j < t.len() && key_of(#[trigger] t[j]) == k;
            assert(key_of(s[j]) == k);
        }
        if has_key(s, k) {
            let j = choose|j: int| 0 <= j < s.len() && key_of(#[trigger] s[j]) == k;
            assert(key_of(t[j]) == k);
        }
    }
    assert forall|k: (Seq<char>, Seq<char>)| #[trigger]
        build_map(t).contains_key(k) && k != key_of(b) implies build_map(t)[k] == build_map(
        s,
    )[k] by {
        let j = choose|j: int| 0 <= j < t.len() && key_of(#[trigger] t[j]) == k;
        lemma_map_at(t, j);
        lemma_map_at(s, j);
    }
    lemma_map_at(t, i);
    assert(build_map(t) =~= build_map(s).insert(key_of(b), state_of(b)));
    assert forall|m: Seq<char>| names_under(t, m) == names_under(s, m) by {
        lemma_names_update(s, i, b, m);
    }
}

proof fn lemma_names_update(s: Seq<BuildEntry>, i: int, b: BuildEntry, m: Seq<char>)
    requires
        0 <= i < s.len(),
        key_of(b) == key_of(s[i]),
    ensures
        names_under(s.update(i, b), m) == names_under(s, m),
    decreases s.len(),
{
    let t = s.update(i, b);
    if i < s.len() - 1 {
        assert(t.drop_last() =~= s.drop_last().update(i, b));
        lemma_names_update(s.drop_last(), i, b, m);
    } else {
        assert(t.drop_last() =~= s.drop_last());
    }
}

proof fn lemma_map_push(s: Seq<BuildEntry>, b: BuildEntry)
    requires
        keys_unique(s),
        !has_key(s, key_of(b)),
    ensures
        keys_unique(s.push(b)),
        build_map(s.push(b)) == build_map(s).insert(key_of(b), state_of(b)),
{
    let t = s.push(b);
    assert forall|a: int, c: int|
        0 <= a < t.len() && 0 <= c < t.len() && a != c implies key_of(#[trigger] t[a]) != key_of(
        #[trigger] t[c],
    ) by {
        if a == s.len() {
            assert(key_of(s[c]) != key_of(b));
        } else if c == s.len() {
            assert(key_of(s[a]) != key_of(b));
        } else {
            assert(t[a] == s[a] && t[c] == s[c]);
        }
    }
    assert forall|k: (Seq<char>, Seq<char>)| has_key(t, k) <==> (has_key(s, k) || k == key_of(
        b,
    )) by {
        if has_key(t, k) {
            let j = choose|j: int| 0 <= j < t.len() && key_of(#[trigger] t[j]) == k;
            if j < s.len() {
                assert(t[j] == s[j]);
            }
        }
        if has_key(s, k) {
            let j = choose|j: int| 0 <= j < s.len() && key_of(#[trigger] s[j]) == k;
            assert(t[j] == s[j]);
        }
        if k == key_of(b) {
            assert(key_of(t[s.len() as int]) == k);
        }
    }
    assert forall|k: (Seq<char>, Seq<char>)| #[trigger]
        build_map(t).contains_key(k) && k != key_of(b) implies build_map(t)[k] == build_map(
        s,
    )[k] by {
        let j = choose|j: int| 0 <= j < s.len() && key_of(#[trigger] s[j]) == k;
        assert(t[j] == s[j]);
        lemma_map_at(t, j);
        lemma_map_at(s, j);
    }
    lemma_map_at(t, s.len() as int);
    assert(build_map(t) =~= build_map(s).insert(key_of(b), state_of(b)));
}

proof fn lemma_names_contain(s: Seq<BuildEntry>, m: Seq<char>, f: Seq<char>)
    ensures
        names_under(s, m).contains(f) <==> has_key(s, (m, f)),
    decreases s.len(),
{
    if s.len() > 0 {
        let p = s.drop_last();
        lemma_names_contain(p, m, f);
        let rest = names_under(p, m);
        if has_key(s, (m, f)) {
            let j = choose|j: int| 0 <= j < s.len() && key_of(#[trigger] s[j]) == (m, f);
            if j < p.len() {
                assert(key_of(p[j]) == (m, f));
                if s.last().major@ == m {
                    let w = choose|w: int| 0 <= w < rest.len() && rest[w] == f;
                    assert(rest.push(s.last().full@)[w] == f);
                }
            } else {
                assert(rest.push(s.last().full@)[rest.len() as int] == f);
            }
        }
        if names_under(s, m).contains(f) {
            if s.last().major@ == m && s.last().full@ == f {
                assert(key_of(s[s.len() - 1]) == (m, f));
            } else {
                if s.last().major@ == m {
                    let w = choose|w: int|
                        0 <= w < rest.len() + 1 && rest.push(s.last().full@)[w] == f;
                    assert(rest[w] == f);
                }
                assert(rest.contains(f));
                let j = choose|j: int| 0 <= j < p.len() && key_of(#[trigger] p[j]) == (m, f);
                assert(key_of(s[j]) == (m, f));
            }
        }
    }
}

proof fn lemma_names_unique(s: Seq<BuildEntry>, m: Seq<char>)
    requires
        keys_unique(s),
    ensures
        names_under(s, m).no_duplicates(),
    decreases s.len(),
{
    if s.len() > 0 {
        let p = s.drop_last();
        assert(keys_unique(p)) by {
            assert forall|a: int, c: int|
                0 <= a < p.len() && 0 <= c < p.len() && a != c implies key_of(#[trigger] p[a])
                != key_of(#[trigger] p[c]) by {
                assert(p[a] == s[a] && p[c] == s[c]);
            }
        }
        lemma_names_unique(p, m);
        let rest = names_under(p, m);
        if s.last().major@ == m {
            let f = s.last().full@;
            lemma_names_contain(p, m, f);
            if rest.contains(f) {
                let j = choose|j: int| 0 <= j < p.len() && key_of(#[trigger] p[j]) == (m, f);
                assert(key_of(s[j]) == key_of(s[s.len() - 1]));
            }
            let t = rest.push(f);
            assert forall|a: int, c: int| 0 <= a < t.len() && 0 <= c < t.len() && a != c implies t[a]
                != t[c] by {
                if a == rest.len() {
                    assert(rest[c] == t[c]);
                } else if c == rest.len() {
                    assert(rest[a] == t[a]);
                } else {
                    assert(rest[a] == t[a] && rest[c] == t[c]);
                }
            }
        }
    }
}

/// Whether two strings are the same.
fn same_text(a: &str, b: &str) -> (r: bool)
    ensures
        r == (a@ == b@),
{
    proof {
        lemma_text_order(a@, b@, b@);
    }
    matches!(compare_text(a, b), Ordering::Equal)
}

/// A store of flag snapshots, laid out as a directory per major version and,
/// under it, a directory per build.
pub struct SnapshotStore {
    majors: Vec<String>,
    builds: Vec<BuildEntry>,
}

impl View for SnapshotStore {
    type V = StoreView;

    closed spec fn view(&self) -> StoreView {
        StoreView { majors: views_of(self.majors@).to_set(), builds: build_map(self.builds@) }
    }
}

impl SnapshotStore {
    /// The store's internal consistency: each directory name once, and each
    /// build under an existing major directory.
    pub closed spec fn wf(&self) -> bool {
        &&& views_of(self.majors@).no_duplicates()
        &&& keys_unique(self.builds@)
        &&& forall|i: int|
            0 <= i < self.builds@.len() ==> views_of(self.majors@).contains(
                #[trigger] self.builds@[i].major@,
            )
    }

    /// The builds stored under `major`, in the order the store lists them.
    pub closed spec fn listing(&self, major: Seq<char>) -> Seq<Seq<char>> {
        names_under(self.builds@, major)
    }

    /// A listing names exactly the builds stored under the major version, each
    /// once; every build lies under a stored major directory, so the listing of
    /// a major with no directory is empty.
    pub proof fn lemma_listing(&self, major: Seq<char>, full: Seq<char>)
        requires
            self.wf(),
        ensures
            self.listing(major).contains(full) <==> self@.builds.contains_key((major, full)),
            self.listing(major).no_duplicates(),
            self@.builds.contains_key((major, full)) ==> self@.majors.contains(major),
            !self@.majors.contains(major) ==> self.listing(major).len() == 0,
    {
        lemma_names_contain(self.builds@, major, full);
        lemma_names_unique(self.builds@, major);
        if self@.builds.contains_key((major, full)) {
            let j = choose|j: int|
                0 <= j < self.builds@.len() && key_of(#[trigger] self.builds@[j]) == (major, full);
            assert(views_of(self.majors@).contains(self.builds@[j].major@));
        }
        if self.listing(major).len() > 0 {
            let f = self.listing(major)[0];
            lemma_names_contain(self.builds@, major, f);
            assert(self.listing(major).contains(f));
            let j = choose|j: int|
                0 <= j < self.builds@.len() && key_of(#[trigger] self.builds@[j]) == (major, f);
            assert(views_of(self.majors@).contains(self.builds@[j].major@));
        }
    }

    /// An empty store.
    pub fn new() -> (r: SnapshotStore)
        ensures
            r.wf(),
            r@.majors == Set::<Seq<char>>::empty(),
            r@.builds == Map::<(Seq<char>, Seq<char>), BuildState>::empty(),
            forall|m: Seq<char>| #[trigger] r.listing(m) == Seq::<Seq<char>>::empty(),
    {
        let r = SnapshotStore { majors: Vec::new(), builds: Vec::new() };
        assert(r@.majors =~= Set::<Seq<char>>::empty());
        assert(r@.builds =~= Map::<(Seq<char>, Seq<char>), BuildState>::empty());
        r
    }

    fn find_build(&self, major: &str, full: &str) -> (r: Option<usize>)
        requires
            self.wf(),
        ensures
            r matches Some(i) ==> i < self.builds@.len() && key_of(self.builds@[i as int]) == (
                major@,
                full@,
            ),
            r is None ==> !has_key(self.builds@, (major@, full@)),
    {
        let mut i: usize = 0;
        while i < self.builds.len()
            invariant
                0 <= i <= self.builds@.len(),
                forall|j: int| 0 <= j < i ==> key_of(#[trigger] self.builds@[j]) != (major@, full@),
            decreases self.builds@.len() - i,
        {
            if same_text(self.builds[i].major.as_str(), major) && same_text(
                self.builds[i].full.as_str(),
                full,
            ) {
                return Some(i);
            }
            i = i + 1;
        }
        None
    }

    /// Makes sure the directory of `major` exists; nothing else changes.
    pub fn ensure_major_directory(&mut self, major: &str)
        requires
            old(self).wf(),
        ensures
            final(self).wf(),
            final(self)@.majors == old(self)@.majors.insert(major@),
            final(self)@.builds == old(self)@.builds,
            forall|m: Seq<char>| final(self).listing(m) == old(self).listing(m),
    {
        let mut i: usize = 0;
        while i < self.majors.len()
            invariant
                self.wf(),
                *self == *old(self),
                0 <= i <= self.majors@.len(),
                forall|j: int| 0 <= j < i ==> (#[trigger] self.majors@[j])@ != major@,
            decreases self.majors@.len() - i,
        {
            if same_text(self.majors[i].as_str(), major) {
                assert(views_of(self.majors@)[i as int] == major@);
                assert(self@.majors =~= self@.majors.insert(major@));
                return;
            }
            i = i + 1;
        }
        let ghost old_m = views_of(self.majors@);
        self.majors.push(major.to_owned());
        proof {
            assert(views_of(self.majors@) =~= old_m.push(major@));
            assert(!old_m.contains(major@)) by {
                if old_m.contains(major@) {
                    let j = choose|j: int| 0 <= j < old_m.len() && old_m[j] == major@;
                    assert(self.majors@[j]@ == major@);
                }
            }
            assert forall|j: int|
                0 <= j < self.builds@.len() implies views_of(self.majors@).contains(
                #[trigger] self.builds@[j].major@,
            ) by {
                let w = choose|w: int| 0 <= w < old_m.len() && old_m[w] == self.builds@[j].major@;
                assert(views_of(self.majors@)[w] == old_m[w]);
            }
            old_m.lemma_push_to_set_commute(major@);
        }
    }

    /// Whether the build directory exists and holds at least one entry.
    pub fn build_exists(&self, major: &str, full: &str) -> (r: bool)
        requires
            self.wf(),
        ensures
            r == build_exists_in(self@, major@, full@),
    {
        match self.find_build(major, full) {
            None => false,
            Some(i) => {
                proof {
                    lemma_map_at(self.builds@, i as int);
                }
                let b = &self.builds[i];
                b.snapshot.is_some() || b.added.is_some() || b.removed.is_some() || b.others
            },
        }
    }

    /// Creates the (empty) directory of a build, and that of its major version;
    /// an existing one is left as it is.
    pub fn create_version_directory(&mut self, major: &str, full: &str)
        requires
            old(self).wf(),
        ensures
            final(self).wf(),
            final(self)@.majors == old(self)@.majors.insert(major@),
            old(self)@.builds.contains_key((major@, full@)) ==> final(self)@.builds == old(
                self,
            )@.builds,
            !old(self)@.builds.contains_key((major@, full@)) ==> final(self)@.builds == old(
                self,
            )@.builds.insert((major@, full@), empty_build()),
            forall|m: Seq<char>| m != major@ ==> final(self).listing(m) == old(self).listing(m),
            final(self).listing(major@) == if old(self)@.builds.contains_key((major@, full@)) {
                old(self).listing(major@)
            } else {
                old(self).listing(major@).push(full@)
            },
    {
        self.ensure_major_directory(major);
        match self.find_build(major, full) {
            Some(i) => {
                proof {
                    lemma_map_at(self.builds@, i as int);
                }
            },
            None => {
                let ghost s = self.builds@;
                let b = BuildEntry {
                    major: major.to_owned(),
                    full: full.to_owned(),
                    snapshot: None,
                    added: None,
                    removed: None,
                    others: false,
                };
                self.builds.push(b);
                proof {
                    lemma_map_push(s, b);
                    assert(self.builds@.drop_last() =~= s);
                    assert(state_of(b) == empty_build());
                    assert(!build_map(s).contains_key((major@, full@)));
                    assert forall|j: int|
                        0 <= j < self.builds@.len() implies views_of(self.majors@).contains(
                        #[trigger] self.builds@[j].major@,
                    ) by {
                        if j == s.len() {
                            assert(self@.majors.contains(major@));
                        } else {
                            assert(self.builds@[j] == s[j]);
                        }
                    }
                }
            },
        }
    }

    /// Notes that a build directory holds an entry other than the three files.
    pub fn record_entry(&mut self, major: &str, full: &str) -> (r: Result<(), StoreError>)
        requires
            old(self).wf(),
        ensures
            final(self).wf(),
            final(self)@.majors == old(self)@.majors,
            forall|m: Seq<char>| final(self).listing(m) == old(self).listing(m),
            !old(self)@.builds.contains_key((major@, full@)) ==> r == Err::<(), StoreError>(
                StoreError::Io,
            ) && final(self)@ == old(self)@,
            old(self)@.builds.contains_key((major@, full@)) ==> r is Ok && final(self)@.builds
                == old(self)@.builds.insert(
                (major@, full@),
                BuildState { others: true, ..old(self)@.builds[(major@, full@)] },
            ),
    {
        match self.find_build(major, full) {
            None => {
                proof {
                    assert(!build_map(self.builds@).contains_key((major@, full@)));
                }
                Err(StoreError::Io)
            },
            Some(i) => {
                let ghost s = self.builds@;
                proof {
                    lemma_map_at(s, i as int);
                }
                self.builds[i].others = true;
                proof {
                    lemma_map_update(s, i as int, self.builds@[i as int]);
                    assert(self.builds@ == s.update(i as int, self.builds@[i as int]));
                    assert forall|j: int|
                        0 <= j < self.builds@.len() implies views_of(self.majors@).contains(
                        #[trigger] self.builds@[j].major@,
                    ) by {
                        assert(self.builds@[j].major@ == s[j].major@);
                    }
                }
                Ok(())
            },
        }
    }

    /// Writes the lines of one file of a build: the snapshot, or one of the
    /// diff lists; fails when the build directory does not exist.
    fn write_file(&mut self, major: &str, full: &str, lines: Vec<String>, which: Option<ListFile>) -> (r: Result<(), StoreError>)
        requires
            old(self).wf(),
        ensures
            final(self).wf(),
            final(self)@.majors == old(self)@.majors,
            forall|m: Seq<char>| final(self).listing(m) == old(self).listing(m),
            !old(self)@.builds.contains_key((major@, full@)) ==> r == Err::<(), StoreError>(
                StoreError::Io,
            ) && final(self)@ == old(self)@,
            old(self)@.builds.contains_key((major@, full@)) ==> r is Ok && final(self)@.builds
                == old(self)@.builds.insert(
                (major@, full@),
                with_file(old(self)@.builds[(major@, full@)], which, views_of(lines@)),
            ),
    {
        match self.find_build(major, full) {
            None => {
                proof {
                    assert(!build_map(self.builds@).contains_key((major@, full@)));
                }
                Err(StoreError::Io)
            },
            Some(i) => {
                let ghost s = self.builds@;
                proof {
                    lemma_map_at(s, i as int);
                }
                match which {
                    None => {
                        self.builds[i].snapshot = Some(lines);
                    },
                    Some(ListFile::Added) => {
                        self.builds[i].added = Some(lines);
                    },
                    Some(ListFile::Removed) => {
                        self.builds[i].removed = Some(lines);
                    },
                }
                proof {
                    lemma_map_update(s, i as int, self.builds@[i as int]);
                    assert(self.builds@ == s.update(i as int, self.builds@[i as int]));
                    assert forall|j: int|
                        0 <= j < self.builds@.len() implies views_of(self.majors@).contains(
                        #[trigger] self.builds@[j].major@,
                    ) by {
                        assert(self.builds@[j].major@ == s[j].major@);
                    }
                }
                Ok(())
            },
        }
    }

    /// Writes the full flag set of a build, in ascending order, one per line.
    pub fn save_snapshot(&mut self, major: &str, full: &str, flags: &FlagSet) -> (r: Result<
        (),
        StoreError,
    >)
        requires
            old(self).wf(),
        ensures
            final(self).wf(),
            final(self)@.majors == old(self)@.majors,
            forall|m: Seq<char>| final(self).listing(m) == old(self).listing(m),
            !old(self)@.builds.contains_key((major@, full@)) ==> r == Err::<(), StoreError>(
                StoreError::Io,
            ) && final(self)@ == old(self)@,
            old(self)@.builds.contains_key((major@, full@)) ==> r is Ok && final(self)@.builds
                == old(self)@.builds.insert(
                (major@, full@),
                BuildState { snapshot: Some(flags.entries()), ..old(self)@.builds[(major@, full@)] },
            ),
    {
        let lines = flags.to_sorted_vec();
        self.write_file(major, full, lines, None)
    }

    /// Writes a diff list of a build as given, one flag per line.
    pub fn save_diff_list(&mut self, major: &str, full: &str, list: &Vec<String>, which: ListFile) -> (r: Result<
        (),
        StoreError,
    >)
        requires
            old(self).wf(),
        ensures
            final(self).wf(),
            final(self)@.majors == old(self)@.majors,
            forall|m: Seq<char>| final(self).listing(m) == old(self).listing(m),
            !old(self)@.builds.contains_key((major@, full@)) ==> r == Err::<(), StoreError>(
                StoreError::Io,
            ) && final(self)@ == old(self)@,
            old(self)@.builds.contains_key((major@, full@)) ==> r is Ok && final(self)@.builds
                == old(self)@.builds.insert(
                (major@, full@),
                with_file(old(self)@.builds[(major@, full@)], Some(which), views_of(list@)),
            ),
    {
        let lines = list.clone();
        proof {
            assert(views_of(lines@) =~= views_of(list@));
        }
        self.write_file(major, full, lines, Some(which))
    }

    /// Reads back the flags of a build: the non-empty lines of its snapshot.
    pub fn load_snapshot(&self, major: &str, full: &str) -> (r: Result<FlagSet, StoreError>)
        requires
            self.wf(),
        ensures
            r is Ok <==> (self@.builds.contains_key((major@, full@)) && self@.builds[(
                major@,
                full@,
            )].snapshot is Some),
            r matches Err(e) ==> e == StoreError::NotFound,
            r matches Ok(f) ==> f@ == nonempty_lines(
                self@.builds[(major@, full@)].snapshot.unwrap(),
            ),
    {
        match self.find_build(major, full) {
            None => {
                proof {
                    assert(!build_map(self.builds@).contains_key((major@, full@)));
                }
                Err(StoreError::NotFound)
            },
            Some(i) => {
                proof {
                    lemma_map_at(self.builds@, i as int);
                }
                match &self.builds[i].snapshot {
                    None => Err(StoreError::NotFound),
                    Some(lines) => Ok(parse_snapshot(lines)),
                }
            },
        }
    }

    /// The builds stored under `major`; empty when there is no such directory.
    pub fn list_full_versions(&self, major: &str) -> (r: Vec<String>)
        requires
            self.wf(),
        ensures
            views_of(r@) == self.listing(major@),
            views_of(r@).no_duplicates(),
            !self@.majors.contains(major@) ==> r@.len() == 0,
            forall|f: Seq<char>|
                views_of(r@).contains(f) <==> self@.builds.contains_key((major@, f)),
    {
        let mut out: Vec<String> = Vec::new();
        let mut i: usize = 0;
        while i < self.builds.len()
            invariant
                0 <= i <= self.builds@.len(),
                views_of(out@) == names_under(self.builds@.subrange(0, i as int), major@),
            decreases self.builds@.len() - i,
        {
            let ghost pre = self.builds@.subrange(0, i as int);
            assert(self.builds@.subrange(0, i as int + 1).drop_last() =~= pre);
            if same_text(self.builds[i].major.as_str(), major) {
                let ghost old_out = views_of(out@);
                out.push(self.builds[i].full.clone());
                assert(views_of(out@) =~= old_out.push(self.builds@[i as int].full@));
            }
            i = i + 1;
        }
        assert(self.builds@.subrange(0, i as int) =~= self.builds@);
        proof {
            self.lemma_listing(major@, Seq::empty());
            assert forall|f: Seq<char>|
                views_of(out@).contains(f) <==> self@.builds.contains_key((major@, f)) by {
                self.lemma_listing(major@, f);
            }
        }
        out
    }

    /// The major version directories: the names of exactly three ASCII digits.
    pub fn list_major_versions(&self) -> (r: Vec<String>)
        requires
            self.wf(),
        ensures
            forall|x: Seq<char>|
                #![trigger views_of(r@).contains(x)]
                #![trigger self@.majors.contains(x)]
                views_of(r@).contains(x) <==> (self@.majors.contains(x) && is_major_name(x)),
    {
        let ghost mv = views_of(self.majors@);
        let mut out: Vec<String> = Vec::new();
        let mut i: usize = 0;
        while i < self.majors.len()
            invariant
                mv == views_of(self.majors@),
                0 <= i <= self.majors@.len(),
                forall|x: Seq<char>|
                    #![trigger views_of(out@).contains(x)]
                    views_of(out@).contains(x) <==> (mv.subrange(0, i as int).contains(x)
                        && is_major_name(x)),
            decreases self.majors@.len() - i,
        {
            let ghost pre = mv.subrange(0, i as int);
            let ghost old_out = views_of(out@);
            assert(mv.subrange(0, i as int + 1) =~= pre.push(mv[i as int]));
            assert(forall|x: Seq<char>|
                old_out.contains(x) <==> (pre.contains(x) && is_major_name(x)));
            assert(self.majors@[i as int]@ == mv[i as int]);
            let keep = major_number(self.majors[i].as_str()).is_some();
            if keep {
                out.push(self.majors[i].clone());
            }
            proof {
                let vn = views_of(out@);
                if keep {
                    assert(vn =~= old_out.push(mv[i as int]));
                }
                assert forall|x: Seq<char>|
                    #![trigger vn.contains(x)]
                    vn.contains(x) <==> (pre.push(mv[i as int]).contains(x) && is_major_name(
                        x,
                    )) by {
                    lemma_contains_push(pre, mv[i as int], x);
                    if keep {
                        lemma_contains_push(old_out, mv[i as int], x);
                    }
                }
                assert(forall|x: Seq<char>|
                    #![trigger views_of(out@).contains(x)]
                    views_of(out@).contains(x) <==> (mv.subrange(0, i as int + 1).contains(x)
                        && is_major_name(x)));
            }
            i = i + 1;
        }
        assert(mv.subrange(0, i as int) =~= mv);
        out
    }

    /// `(pm, pf)` is the build to compare a new build of major `current` with:
    /// with two or more builds under `current`, the one before the last in
    /// version order; otherwise the newest build of the highest other major
    /// version directory that holds any.
    pub open spec fn is_previous(&self, current: Seq<char>, pm: Seq<char>, pf: Seq<char>) -> bool {
        if self.listing(current).len() >= 2 {
            &&& pm == current
            &&& exists|s: Seq<Seq<char>>|
                is_version_sorting(s, self.listing(current)) && s.len() >= 2 && pf == s[s.len()
                    - 2]
        } else {
            &&& self@.majors.contains(pm)
            &&& is_candidate_major(pm, current)
            &&& self.listing(pm).len() > 0
            &&& forall|m: Seq<char>|
                self@.majors.contains(m) && is_candidate_major(m, current) && digits_value(m)
                    > digits_value(pm) ==> #[trigger] self.listing(m).len() == 0
            &&& exists|s: Seq<Seq<char>>|
                is_version_sorting(s, self.listing(pm)) && s.len() > 0 && pf == s.last()
        }
    }

    /// Some stored build can serve as the previous one.
    pub open spec fn has_previous(&self, current: Seq<char>) -> bool {
        self.listing(current).len() >= 2 || exists|m: Seq<char>|
            self@.majors.contains(m) && is_candidate_major(m, current) && #[trigger] self.listing(
                m,
            ).len() > 0
    }

    /// Finds the build to compare a new build of `current_major` with, as
    /// `(full version, major version)`.
    pub fn find_previous_version(&self, current_major: &str) -> (r: Result<
        (String, String),
        StoreError,
    >)
        requires
            self.wf(),
        ensures
            r is Ok <==> self.has_previous(current_major@),
            r matches Ok((f, m)) ==> self.is_previous(current_major@, m@, f@),
            r matches Ok((f, m)) ==> self@.builds.contains_key((m@, f@)) && self@.majors.contains(
                m@,
            ),
            !self@.majors.contains(current_major@) ==> self.listing(current_major@).len() == 0,
            r matches Err(e) ==> e == StoreError::NoPreviousVersion,
    {
        proof {
            self.lemma_listing(current_major@, Seq::empty());
        }
        let own = self.list_full_versions(current_major);
        if own.len() >= 2 {
            let sorted = sort_versions(&own);
            proof {
                vstd::seq_lib::to_multiset_len(views_of(sorted@));
                vstd::seq_lib::to_multiset_len(views_of(own@));
            }
            let prev = sorted[sorted.len() - 2].clone();
            proof {
                let s = views_of(sorted@);
                assert(s[s.len() - 2] == prev@);
                assert(s.contains(prev@));
                vstd::seq_lib::to_multiset_contains(s, prev@);
                vstd::seq_lib::to_multiset_contains(views_of(own@), prev@);
                self.lemma_listing(current_major@, prev@);
            }
            return Ok((prev, current_major.to_owned()));
        }
        let majors = self.list_major_versions();
        let ghost mv = views_of(majors@);
        assert forall|x: Seq<char>| mv.contains(x) <==> (self@.majors.contains(x) && is_major_name(
            x,
        )) by {
            assert(views_of(majors@).contains(x) <==> (self@.majors.contains(x) && is_major_name(
                x,
            )));
        }
        let mut best: Option<usize> = None;
        let mut best_val: u64 = 0;
        let mut i: usize = 0;
        while i < majors.len()
            invariant
                self.wf(),
                mv == views_of(majors@),
                forall|x: Seq<char>| mv.contains(x) <==> (self@.majors.contains(x) && is_major_name(x)),
                0 <= i <= majors@.len(),
                best matches Some(b) ==> b < i && is_candidate_major(mv[b as int], current_major@)
                    && self@.majors.contains(mv[b as int])
                    && self.listing(mv[b as int]).len() > 0 && best_val == digits_value(
                    mv[b as int],
                ),
                forall|j: int|
                    0 <= j < i && is_candidate_major(mv[j], current_major@) && #[trigger] self.listing(
                        mv[j],
                    ).len() > 0 ==> best is Some && digits_value(mv[j]) <= best_val,
            decreases majors@.len() - i,
        {
            let name = majors[i].as_str();
            assert(name@ == mv[i as int]);
            assert(mv.contains(mv[i as int]));
            match major_number(name) {
                Some(v) => {
                    if !same_text(name, current_major) {
                        let vs = self.list_full_versions(name);
                        if vs.len() > 0 && (best.is_none() || v > best_val) {
                            best = Some(i);
                            best_val = v;
                        }
                    }
                },
                None => {},
            }
            i = i + 1;
        }
        match best {
            None => {
                proof {
                    assert forall|m: Seq<char>|
                        self@.majors.contains(m) && is_candidate_major(m, current_major@)
                            implies #[trigger] self.listing(m).len() == 0 by {
                        assert(mv.contains(m));
                        let j = choose|j: int| 0 <= j < mv.len() && mv[j] == m;
                    }
                }
                Err(StoreError::NoPreviousVersion)
            },
            Some(b) => {
                let m = majors[b].clone();
                let vs = self.list_full_versions(m.as_str());
                let sorted = sort_versions(&vs);
                proof {
                    vstd::seq_lib::to_multiset_len(views_of(sorted@));
                    vstd::seq_lib::to_multiset_len(views_of(vs@));
                    assert(m@ == mv[b as int]);
                    assert forall|m2: Seq<char>|
                        self@.majors.contains(m2) && is_candidate_major(m2, current_major@)
                            && digits_value(m2) > digits_value(m@) implies #[trigger] self.listing(
                        m2,
                    ).len() == 0 by {
                        assert(mv.contains(m2));
                        let j = choose|j: int| 0 <= j < mv.len() && mv[j] == m2;
                    }
                }
                let f = sorted[sorted.len() - 1].clone();
                proof {
                    let s = views_of(sorted@);
                    assert(s.last() == f@);
                    assert(s.contains(f@));
                    vstd::seq_lib::to_multiset_contains(s, f@);
                    vstd::seq_lib::to_multiset_contains(views_of(vs@), f@);
                    self.lemma_listing(m@, f@);
                }
                Ok((f, m))
            },
        }
    }

    /// Processes a newly seen build with its flags: makes its directories; if
    /// the build is already stored, stops there; otherwise finds the previous
    /// build, reads its snapshot, and writes the new build's snapshot and the
    /// added and removed lists against it, which it returns.
    pub fn process_version(&mut self, major: &str, full: &str, flags: &FlagSet) -> (r: Result<
        Option<DiffResult>,
        StoreError,
    >)
        requires
            old(self).wf(),
        ensures
            final(self).wf(),
            final(self)@.majors == old(self)@.majors.insert(major@),
            forall|m: Seq<char>|
                m != major@ ==> #[trigger] final(self).listing(m) == old(self).listing(m),
            build_exists_in(old(self)@, major@, full@) ==> final(self).listing(major@) == old(
                self,
            ).listing(major@),
            !build_exists_in(old(self)@, major@, full@) ==> final(self).listing(major@) == if old(
                self,
            )@.builds.contains_key((major@, full@)) {
                old(self).listing(major@)
            } else {
                old(self).listing(major@).push(full@)
            },
            build_exists_in(old(self)@, major@, full@) ==> r == Ok::<
                Option<DiffResult>,
                StoreError,
            >(None) && final(self)@.builds == old(self)@.builds,
            !build_exists_in(old(self)@, major@, full@) ==> {
                let mid = old(self)@.builds.insert((major@, full@), empty_build());
                &&& r != Ok::<Option<DiffResult>, StoreError>(None)
                &&& (r == Err::<Option<DiffResult>, StoreError>(StoreError::NoPreviousVersion)
                    <==> !final(self).has_previous(major@))
                &&& r is Err ==> final(self)@.builds == mid
                &&& r == Err::<Option<DiffResult>, StoreError>(StoreError::NotFound) ==> exists|
                    pm: Seq<char>,
                    pf: Seq<char>,
                |
                    final(self).is_previous(major@, pm, pf) && !(mid.contains_key((pm, pf))
                        && mid[(pm, pf)].snapshot is Some)
                &&& r matches Err(e) ==> e != StoreError::Io
                &&& r matches Ok(Some(d)) ==> exists|pm: Seq<char>, pf: Seq<char>|
                    final(self).is_previous(major@, pm, pf) && mid.contains_key((pm, pf))
                        && mid[(pm, pf)].snapshot is Some && is_diff_of(
                        d,
                        flags@,
                        nonempty_lines(mid[(pm, pf)].snapshot.unwrap()),
                    ) && final(self)@.builds == mid.insert(
                        (major@, full@),
                        written_build(flags.entries(), d),
                    )
            },
            r is Ok ==> build_exists_in(final(self)@, major@, full@),
    {
        self.ensure_major_directory(major);
        if self.build_exists(major, full) {
            return Ok(None);
        }
        self.create_version_directory(major, full);
        let ghost mid = self@.builds;
        proof {
            assert(mid =~= old(self)@.builds.insert((major@, full@), empty_build()));
        }
        let (pf, pm) = match self.find_previous_version(major) {
            Ok(p) => p,
            Err(e) => {
                return Err(e);
            },
        };
        let previous = match self.load_snapshot(pm.as_str(), pf.as_str()) {
            Ok(p) => p,
            Err(e) => {
                return Err(e);
            },
        };
        let d = diff(flags, &previous);
        let ghost pre_write = *self;
        match self.save_snapshot(major, full, flags) {
            Ok(()) => {},
            Err(e) => {
                return Err(e);
            },
        }
        match self.save_diff_list(major, full, &d.added, ListFile::Added) {
            Ok(()) => {},
            Err(e) => {
                return Err(e);
            },
        }
        match self.save_diff_list(major, full, &d.removed, ListFile::Removed) {
            Ok(()) => {},
            Err(e) => {
                return Err(e);
            },
        }
        proof {
            assert(self@.builds =~= mid.insert((major@, full@), written_build(flags.entries(), d)));
            assert(forall|m: Seq<char>| self.listing(m) == pre_write.listing(m));
            assert(self.is_previous(major@, pm@, pf@));
        }
        Ok(Some(d))
    }
}

/// A build directory as a run leaves it: the snapshot and the two lists.
pub open spec fn written_build(flags: Seq<Seq<char>>, d: DiffResult) -> BuildState {
    BuildState {
        snapshot: Some(flags),
        added: Some(views_of(d.added@)),
        removed: Some(views_of(d.removed@)),
        others: false,
    }
}

/// After a run has stored a build, a second run on the same build is a
/// no-op: the state a successful run leaves (its major directory present, its
/// build directory holding files) is one where the run stops at once, and the
/// store it then leaves is the store it found.
pub proof fn lemma_rerun_changes_nothing(v: StoreView, major: Seq<char>, full: Seq<char>)
    requires
        v.majors.contains(major),
        build_exists_in(v, major, full),
    ensures
        build_exists_in(v, major, full),
        (StoreView { majors: v.majors.insert(major), builds: v.builds }) == v,
{
    assert(v.majors.insert(major) =~= v.majors);
}

/// A directory name that is a major version: exactly three ASCII digits.
pub open spec fn is_major_name(m: Seq<char>) -> bool {
    m.len() == 3 && all_digits(m)
}

/// A major version directory other than `current`.
pub open spec fn is_candidate_major(m: Seq<char>, current: Seq<char>) -> bool {
    is_major_name(m) && m != current
}

/// The number a major version directory name spells, if it is one.
fn major_number(name: &str) -> (r: Option<u64>)
    ensures
        r is Some <==> is_major_name(name@),
        r matches Some(v) ==> v == digits_value(name@),
{
    if name.unicode_len() != 3 {
        return None;
    }
    let a = name.get_char(0);
    let b = name.get_char(1);
    let c = name.get_char(2);
    if !('0' <= a && a <= '9' && '0' <= b && b <= '9' && '0' <= c && c <= '9') {
        proof {
            if all_digits(name@) {
                assert(crate::version::is_digit(name@[0]));
                assert(crate::version::is_digit(name@[1]));
                assert(crate::version::is_digit(name@[2]));
            }
        }
        return None;
    }
    let v: u64 = ((a as u64) - ('0' as u64)) * 100 + ((b as u64) - ('0' as u64)) * 10 + ((
    c as u64) - ('0' as u64));
    proof {
        let d = name@;
        assert(all_digits(d));
        reveal_with_fuel(digits_value, 4);
        assert(d.drop_last().drop_last().drop_last() =~= Seq::<char>::empty());
        assert(d.drop_last().last() == b);
        assert(d.drop_last().drop_last().last() == a);
    }
    Some(v)
}

/// A build directory after one of its files is written.
pub open spec fn with_file(b: BuildState, which: Option<ListFile>, lines: Seq<Seq<char>>) -> BuildState {
    match which {
        None => BuildState { snapshot: Some(lines), ..b },
        Some(ListFile::Added) => BuildState { added: Some(lines), ..b },
        Some(ListFile::Removed) => BuildState { removed: Some(lines), ..b },
    }
}

/// A build directory with nothing in it.
pub open spec fn empty_build() -> BuildState {
    BuildState { snapshot: None, added: None, removed: None, others: false }
}

} // verus!
