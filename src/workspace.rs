//! The workspace file index: one bucket of files per project, and the
//! global files that belong to no single project.
use std::sync::Arc;
use vstd::prelude::*;

verus! {

/// A file of the workspace as the scanner reports it.
#[derive(Debug)]
pub struct FileData {
    pub file: String,
    pub hash: String,
}

/// A file entry as a value: path and hash.
pub type FileView = (Seq<char>, Seq<char>);

/// A project bucket as a value: project name and files in insertion order.
pub type BucketView = (Seq<char>, Seq<FileView>);

/// An index as a value: the project buckets in order of first assignment,
/// then the global files in insertion order.
pub type IndexView = (Seq<BucketView>, Seq<FileView>);

impl View for FileData {
    type V = FileView;

    open spec fn view(&self) -> FileView {
        (self.file@, self.hash@)
    }
}

impl FileData {
    pub fn new(file: String, hash: String) -> (r: Self)
        ensures
            r@ == (file@, hash@),
    {
        FileData { file, hash }
    }

    /// A copy of this entry.
    pub fn duplicate(&self) -> (r: Self)
        ensures
            r@ == self@,
    {
        FileData { file: self.file.clone(), hash: self.hash.clone() }
    }
}

/// Where a file entry lands: the global list or one project's bucket.
#[derive(Debug)]
pub enum FileLocation {
    Global,
    Project(String),
}

impl View for FileLocation {
    type V = Option<Seq<char>>;

    open spec fn view(&self) -> Option<Seq<char>> {
        match self {
            FileLocation::Global => None,
            FileLocation::Project(name) => Some(name@),
        }
    }
}

/// A file was assigned whose path the index already holds.
#[derive(Debug)]
pub struct DuplicatePath(pub String);

pub open spec fn files_view(s: Seq<FileData>) -> Seq<FileView> {
    s.map_values(|f: FileData| f@)
}

pub open spec fn has_path(s: Seq<FileView>, p: Seq<char>) -> bool {
    exists|i: int| 0 <= i < s.len() && s[i].0 == p
}

pub open spec fn distinct_file_paths(s: Seq<FileView>) -> bool {
    forall|i: int, k: int| 0 <= i < k < s.len() ==> s[i].0 != s[k].0
}

/// `p` is in the global list or in some project's bucket.
pub open spec fn path_assigned(v: IndexView, p: Seq<char>) -> bool {
    has_path(v.1, p) || exists|j: int| 0 <= j < v.0.len() && has_path(#[trigger] v.0[j].1, p)
}

/// Project names are distinct, and each path stands in one bucket at most,
/// once.
pub open spec fn index_wf(v: IndexView) -> bool {
    &&& forall|j: int, k: int| 0 <= j < k < v.0.len() ==> v.0[j].0 != v.0[k].0
    &&& distinct_file_paths(v.1)
    &&& forall|j: int| 0 <= j < v.0.len() ==> distinct_file_paths(#[trigger] v.0[j].1)
    &&& forall|j: int, p: Seq<char>| 0 <= j < v.0.len() && #[trigger] has_path(v.0[j].1, p) ==> !has_path(v.1, p)
    &&& forall|j: int, k: int, p: Seq<char>|
        0 <= j < v.0.len() && 0 <= k < v.0.len() && j != k && #[trigger] has_path(v.0[j].1, p)
            ==> !#[trigger] has_path(v.0[k].1, p)
}

/// The files of project `name`, empty where there is no such project.
pub open spec fn project_files_of(v: IndexView, name: Seq<char>) -> Seq<FileView> {
    if exists|j: int| 0 <= j < v.0.len() && v.0[j].0 == name {
        v.0[choose|j: int| 0 <= j < v.0.len() && v.0[j].0 == name].1
    } else {
        Seq::empty()
    }
}

/// The files of the buckets `ps`, bucket after bucket.
pub open spec fn concat_buckets(ps: Seq<BucketView>) -> Seq<FileView>
    decreases ps.len(),
{
    if ps.len() == 0 {
        Seq::empty()
    } else {
        concat_buckets(ps.drop_last()) + ps.last().1
    }
}

/// Every file of the index: the global files first, then each project's.
pub open spec fn all_files_of(v: IndexView) -> Seq<FileView> {
    v.1 + concat_buckets(v.0)
}

/// The index after `f` is put in the bucket that `loc` selects.
pub open spec fn assign_to(v: IndexView, f: FileView, loc: Option<Seq<char>>) -> IndexView {
    match loc {
        None => (v.0, v.1.push(f)),
        Some(name) => if exists|j: int| 0 <= j < v.0.len() && v.0[j].0 == name {
            let j = choose|j: int| 0 <= j < v.0.len() && v.0[j].0 == name;
            (v.0.update(j, (name, v.0[j].1.push(f))), v.1)
        } else {
            (v.0.push((name, seq![f])), v.1)
        },
    }
}

/// The outcome of assigning `f` to `loc`: rejected where its path is
/// already assigned.
pub open spec fn assign_outcome(v: IndexView, f: FileView, loc: Option<Seq<char>>) -> Option<IndexView> {
    if path_assigned(v, f.0) {
        None
    } else {
        Some(assign_to(v, f, loc))
    }
}

proof fn lemma_has_path_push(s: Seq<FileView>, f: FileView, p: Seq<char>)
    ensures
        has_path(s.push(f), p) <==> (has_path(s, p) || f.0 == p),
{
    if has_path(s.push(f), p) {
        let i = choose|i: int| 0 <= i < s.push(f).len() && s.push(f)[i].0 == p;
        if i < s.len() {
            assert(s[i] == s.push(f)[i]);
        }
    }
    if has_path(s, p) {
        let i = choose|i: int| 0 <= i < s.len() && s[i].0 == p;
        assert(s.push(f)[i] == s[i]);
    }
    if f.0 == p {
        assert(s.push(f)[s.len() as int] == f);
    }
}

proof fn lemma_distinct_push(s: Seq<FileView>, f: FileView)
    requires
        distinct_file_paths(s),
        !has_path(s, f.0),
    ensures
        distinct_file_paths(s.push(f)),
{
    assert forall|i: int, k: int| 0 <= i < k < s.push(f).len() implies s.push(f)[i].0 != s.push(f)[k].0 by {
        if k == s.len() {
            assert(s.push(f)[i] == s[i]);
        } else {
            assert(s.push(f)[i] == s[i]);
            assert(s.push(f)[k] == s[k]);
        }
    }
}

proof fn lemma_concat_update_len(ps: Seq<BucketView>, j: int, b: BucketView)
    requires
        0 <= j < ps.len(),
    ensures
        concat_buckets(ps.update(j, b)).len() == concat_buckets(ps).len() - ps[j].1.len() + b.1.len(),
    decreases ps.len(),
{
    if j == ps.len() - 1 {
        assert(ps.update(j, b).drop_last() =~= ps.drop_last());
    } else {
        lemma_concat_update_len(ps.drop_last(), j, b);
        assert(ps.update(j, b).drop_last() =~= ps.drop_last().update(j, b));
    }
}

/// Assigning a new path keeps the index well formed, and adds one file.
pub proof fn lemma_assign_preserves(v: IndexView, f: FileView, loc: Option<Seq<char>>)
    requires
        index_wf(v),
        !path_assigned(v, f.0),
    ensures
        index_wf(assign_to(v, f, loc)),
        all_files_of(assign_to(v, f, loc)).len() == all_files_of(v).len() + 1,
        path_assigned(assign_to(v, f, loc), f.0),
        forall|p: Seq<char>| path_assigned(v, p) ==> path_assigned(assign_to(v, f, loc), p),
{
    let w = assign_to(v, f, loc);
    assert forall|p: Seq<char>| #[trigger] has_path(v.1.push(f), p) <==> (has_path(v.1, p) || f.0 == p) by {
        lemma_has_path_push(v.1, f, p);
    }
    match loc {
        None => {
            lemma_distinct_push(v.1, f);
            assert forall|j: int, p: Seq<char>| 0 <= j < w.0.len() && #[trigger] has_path(w.0[j].1, p) implies !has_path(w.1, p) by {
                if p == f.0 {
                    assert(path_assigned(v, p));
                }
            }
            assert(has_path(w.1, f.0));
            assert forall|p: Seq<char>| path_assigned(v, p) implies path_assigned(w, p) by {
                if !has_path(v.1, p) {
                    let j = choose|j: int| 0 <= j < v.0.len() && has_path(#[trigger] v.0[j].1, p);
                    assert(has_path(w.0[j].1, p));
                }
            }
        },
        Some(name) => {
            if exists|j: int| 0 <= j < v.0.len() && v.0[j].0 == name {
                let j = choose|j: int| 0 <= j < v.0.len() && v.0[j].0 == name;
                let nb = v.0[j].1.push(f);
                assert(!has_path(v.0[j].1, f.0));
                lemma_distinct_push(v.0[j].1, f);
                assert forall|p: Seq<char>| #[trigger] has_path(nb, p) <==> (has_path(v.0[j].1, p) || f.0 == p) by {
                    lemma_has_path_push(v.0[j].1, f, p);
                }
                assert forall|a: int, b: int| 0 <= a < b < w.0.len() implies w.0[a].0 != w.0[b].0 by {}
                assert forall|a: int| 0 <= a < w.0.len() implies distinct_file_paths(#[trigger] w.0[a].1) by {}
                assert forall|a: int, p: Seq<char>| 0 <= a < w.0.len() && #[trigger] has_path(w.0[a].1, p) implies !has_path(w.1, p) by {
                    if a == j && p == f.0 {
                        assert(!has_path(v.1, f.0));
                    } else if a == j {
                        assert(has_path(v.0[j].1, p));
                    }
                }
                assert forall|a: int, b: int, p: Seq<char>|
                    0 <= a < w.0.len() && 0 <= b < w.0.len() && a != b && #[trigger] has_path(w.0[a].1, p)
                    implies !#[trigger] has_path(w.0[b].1, p) by {
                    if a == j {
                        if p == f.0 {
                            assert(!has_path(v.0[b].1, f.0));
                        } else {
                            assert(has_path(v.0[j].1, p));
                        }
                    } else if b == j {
                        if p == f.0 {
                            assert(!has_path(v.0[a].1, f.0));
                        }
                    }
                }
                lemma_concat_update_len(v.0, j, (name, nb));
                assert(has_path(w.0[j].1, f.0));
                assert forall|p: Seq<char>| path_assigned(v, p) implies path_assigned(w, p) by {
                    if !has_path(v.1, p) {
                        let a = choose|a: int| 0 <= a < v.0.len() && has_path(#[trigger] v.0[a].1, p);
                        assert(has_path(w.0[a].1, p));
                    }
                }
            } else {
                let nb = seq![f];
                assert(nb =~= Seq::<FileView>::empty().push(f));
                assert forall|p: Seq<char>| #[trigger] has_path(nb, p) <==> f.0 == p by {
                    lemma_has_path_push(Seq::<FileView>::empty(), f, p);
                }
                let n = v.0.len() as int;
                assert forall|a: int, b: int| 0 <= a < b < w.0.len() implies w.0[a].0 != w.0[b].0 by {
                    if b == n {
                        assert(v.0[a].0 != name);
                    }
                }
                assert forall|a: int| 0 <= a < w.0.len() implies distinct_file_paths(#[trigger] w.0[a].1) by {
                    if a < n {
                        assert(w.0[a] == v.0[a]);
                    }
                }
                assert forall|a: int, p: Seq<char>| 0 <= a < w.0.len() && #[trigger] has_path(w.0[a].1, p) implies !has_path(w.1, p) by {
                    if a < n {
                        assert(w.0[a] == v.0[a]);
                    }
                }
                assert forall|a: int, b: int, p: Seq<char>|
                    0 <= a < w.0.len() && 0 <= b < w.0.len() && a != b && #[trigger] has_path(w.0[a].1, p)
                    implies !#[trigger] has_path(w.0[b].1, p) by {
                    if a == n {
                        assert(w.0[b] == v.0[b]);
                        assert(!has_path(v.0[b].1, f.0));
                    } else if b == n {
                        assert(w.0[a] == v.0[a]);
                    } else {
                        assert(w.0[a] == v.0[a]);
                        assert(w.0[b] == v.0[b]);
                    }
                }
                assert(w.0.drop_last() =~= v.0);
                assert(has_path(w.0[n].1, f.0));
                assert forall|p: Seq<char>| path_assigned(v, p) implies path_assigned(w, p) by {
                    if !has_path(v.1, p) {
                        let a = choose|a: int| 0 <= a < v.0.len() && has_path(#[trigger] v.0[a].1, p);
                        assert(w.0[a] == v.0[a]);
                        assert(has_path(w.0[a].1, p));
                    }
                }
            }
        },
    }
}

/// In a well-formed index each assigned path stands in exactly one bucket:
/// either the global list and no project, or one project and nothing else.
pub proof fn lemma_partition(v: IndexView, p: Seq<char>)
    requires
        index_wf(v),
        path_assigned(v, p),
    ensures
        (has_path(v.1, p) && forall|j: int| 0 <= j < v.0.len() ==> !has_path(#[trigger] v.0[j].1, p))
        || (!has_path(v.1, p) && exists|j: int| 0 <= j < v.0.len() && has_path(#[trigger] v.0[j].1, p)
            && forall|k: int| 0 <= k < v.0.len() && k != j ==> !has_path(#[trigger] v.0[k].1, p)),
{
    if !has_path(v.1, p) {
        let j = choose|j: int| 0 <= j < v.0.len() && has_path(#[trigger] v.0[j].1, p);
        assert forall|k: int| 0 <= k < v.0.len() && k != j implies !has_path(#[trigger] v.0[k].1, p) by {}
    }
}

/// An assignment as a value: file entry and location.
pub type AssignmentView = (FileView, Option<Seq<char>>);

/// The index that the assignments `a` build in order from an empty index;
/// none where one of them repeats a path.
pub open spec fn index_after(a: Seq<AssignmentView>) -> Option<IndexView>
    decreases a.len(),
{
    if a.len() == 0 {
        Some((Seq::empty(), Seq::empty()))
    } else {
        match index_after(a.drop_last()) {
            Some(v) => assign_outcome(v, a.last().0, a.last().1),
            None => None,
        }
    }
}

pub open spec fn assignments_view(a: Seq<(FileData, FileLocation)>) -> Seq<AssignmentView> {
    a.map_values(|x: (FileData, FileLocation)| (x.0@, x.1@))
}

/// Two runs fed the same assignments in the same order end with the same
/// files, in the same order, for every query.
pub proof fn lemma_same_assignments_same_index(a: Seq<AssignmentView>, b: Seq<AssignmentView>)
    requires
        a == b,
        index_after(a) is Some,
    ensures
        index_after(b) is Some,
        all_files_of(index_after(a).unwrap()) == all_files_of(index_after(b).unwrap()),
        forall|name: Seq<char>| project_files_of(index_after(a).unwrap(), name) == project_files_of(index_after(b).unwrap(), name),
{
}

/// Every index that assignments build is well formed, and holds one file
/// per assignment.
pub proof fn lemma_index_after_wf(a: Seq<AssignmentView>)
    requires
        index_after(a) is Some,
    ensures
        index_wf(index_after(a).unwrap()),
        all_files_of(index_after(a).unwrap()).len() == a.len(),
    decreases a.len(),
{
    if a.len() > 0 {
        lemma_index_after_wf(a.drop_last());
        lemma_assign_preserves(index_after(a.drop_last()).unwrap(), a.last().0, a.last().1);
    }
}

/// The workspace file index of one run.
pub struct BuildscaleWorkspaceFiles {
    project_names: Vec<String>,
    project_files: Vec<Vec<FileData>>,
    global_files: Vec<FileData>,
}

impl View for BuildscaleWorkspaceFiles {
    type V = IndexView;

    closed spec fn view(&self) -> IndexView {
        (
            Seq::new(
                self.project_names@.len(),
                |j: int| (self.project_names@[j]@, files_view(self.project_files@[j]@)),
            ),
            files_view(self.global_files@),
        )
    }
}

fn copy_files(s: &Vec<FileData>) -> (r: Vec<FileData>)
    ensures
        files_view(r@) == files_view(s@),
{
    let mut out: Vec<FileData> = Vec::new();
    let mut i: usize = 0;
    while i < s.len()
        invariant
            i <= s@.len(),
            files_view(out@) == files_view(s@.subrange(0, i as int)),
        decreases s@.len() - i,
    {
        out.push(s[i].duplicate());
        proof {
            assert(files_view(s@.subrange(0, i + 1)) =~= files_view(s@.subrange(0, i as int)).push(s@[i as int]@));
            assert(files_view(out@) =~= files_view(s@.subrange(0, i as int)).push(s@[i as int]@));
        }
        i = i + 1;
    }
    assert(s@.subrange(0, s@.len() as int) =~= s@);
    out
}

fn append_files(out: &mut Vec<FileData>, s: &Vec<FileData>)
    ensures
        files_view(final(out)@) == files_view(old(out)@) + files_view(s@),
{
    let ghost start = files_view(out@);
    let mut i: usize = 0;
    while i < s.len()
        invariant
            i <= s@.len(),
            files_view(out@) == start + files_view(s@.subrange(0, i as int)),
        decreases s@.len() - i,
    {
        let ghost prev = out@;
        out.push(s[i].duplicate());
        proof {
            assert(files_view(s@.subrange(0, i + 1)) =~= files_view(s@.subrange(0, i as int)).push(s@[i as int]@));
            assert(files_view(out@) =~= files_view(prev).push(s@[i as int]@));
            assert(files_view(out@) =~= start + files_view(s@.subrange(0, i + 1)));
        }
        i = i + 1;
    }
    assert(s@.subrange(0, s@.len() as int) =~= s@);
}

fn files_hold_path(s: &Vec<FileData>, path: &String) -> (r: bool)
    ensures
        r == has_path(files_view(s@), path@),
{
    let mut i: usize = 0;
    while i < s.len()
        invariant
            i <= s@.len(),
            forall|k: int| 0 <= k < i ==> s@[k].file@ != path@,
        decreases s@.len() - i,
    {
        if s[i].file == *path {
            assert(files_view(s@)[i as int].0 == path@);
            return true;
        }
        i = i + 1;
    }
    assert forall|k: int| 0 <= k < files_view(s@).len() implies files_view(s@)[k].0 != path@ by {
        assert(files_view(s@)[k] == s@[k]@);
    }
    false
}

impl BuildscaleWorkspaceFiles {
    pub closed spec fn shape_ok(&self) -> bool {
        self.project_names@.len() == self.project_files@.len()
    }

    /// The index invariant: buckets line up with project names, project
    /// names are distinct, and no path is held twice.
    pub open spec fn wf(&self) -> bool {
        self.shape_ok() && index_wf(self@)
    }

    /// An empty index.
    pub fn new() -> (r: Self)
        ensures
            r.wf(),
            r@.0.len() == 0,
            r@.1.len() == 0,
    {
        BuildscaleWorkspaceFiles { project_names: Vec::new(), project_files: Vec::new(), global_files: Vec::new() }
    }

    /// Whether some bucket holds `path`.
    pub fn contains_path(&self, path: &String) -> (r: bool)
        requires
            self.wf(),
        ensures
            r == path_assigned(self@, path@),
    {
        if files_hold_path(&self.global_files, path) {
            return true;
        }
        let mut j: usize = 0;
        while j < self.project_files.len()
            invariant
                self.wf(),
                j <= self.project_files@.len(),
                !has_path(self@.1, path@),
                forall|k: int| 0 <= k < j ==> !has_path(#[trigger] self@.0[k].1, path@),
            decreases self.project_files@.len() - j,
        {
            if files_hold_path(&self.project_files[j], path) {
                assert(self@.0[j as int].1 == files_view(self.project_files@[j as int]@));
                return true;
            }
            assert(self@.0[j as int].1 == files_view(self.project_files@[j as int]@));
            j = j + 1;
        }
        false
    }

    fn project_position(&self, name: &String) -> (r: Option<usize>)
        requires
            self.wf(),
        ensures
            match r {
                Some(j) => j < self@.0.len() && self@.0[j as int].0 == name@,
                None => forall|j: int| 0 <= j < self@.0.len() ==> self@.0[j].0 != name@,
            },
    {
        let mut j: usize = 0;
        while j < self.project_names.len()
            invariant
                self.wf(),
                j <= self.project_names@.len(),
                forall|k: int| 0 <= k < j ==> self@.0[k].0 != name@,
            decreases self.project_names@.len() - j,
        {
            if self.project_names[j] == *name {
                return Some(j);
            }
            j = j + 1;
        }
        None
    }

    /// Puts `entry` in the bucket that `location` selects, after the files
    /// already there. A path that the index already holds is refused with
    /// `DuplicatePath`, and the index is left as it was.
    pub fn assign(&mut self, entry: FileData, location: FileLocation) -> (r: Result<(), DuplicatePath>)
        requires
            old(self).wf(),
        ensures
            final(self).wf(),
            match assign_outcome(old(self)@, entry@, location@) {
                Some(v) => r is Ok && final(self)@ == v,
                None => r is Err && final(self)@ == old(self)@,
            },
            r is Ok ==> all_files_of(final(self)@).len() == all_files_of(old(self)@).len() + 1,
            match r {
                Err(e) => e.0@ == entry.file@,
                Ok(_) => true,
            },
    {
        if self.contains_path(&entry.file) {
            return Err(DuplicatePath(entry.file));
        }
        let ghost v = self@;
        let ghost f = entry@;
        proof {
            lemma_assign_preserves(v, f, location@);
        }
        match location {
            FileLocation::Global => {
                self.global_files.push(entry);
                proof {
                    assert(files_view(self.global_files@) =~= v.1.push(f));
                    assert(self@ =~= assign_to(v, f, None));
                }
            },
            FileLocation::Project(name) => {
                match self.project_position(&name) {
                    Some(j) => {
                        let mut bucket = self.project_files.remove(j);
                        bucket.push(entry);
                        self.project_files.insert(j, bucket);
                        proof {
                            let w = assign_to(v, f, Some(name@));
                            assert(v.0[j as int].0 == name@);
                            let c = choose|k: int| 0 <= k < v.0.len() && v.0[k].0 == name@;
                            assert(c == j) by {
                                if c != j {
                                    assert(v.0[c].0 != v.0[j as int].0);
                                }
                            }
                            assert forall|k: int| 0 <= k < self.project_files@.len() && k != j implies
                                self.project_files@[k] == old(self).project_files@[k] by {}
                            assert(files_view(self.project_files@[j as int]@) =~= v.0[j as int].1.push(f));
                            assert(self@.0 =~= w.0);
                            assert(self@ =~= w);
                        }
                    },
                    None => {
                        let mut bucket: Vec<FileData> = Vec::new();
                        bucket.push(entry);
                        self.project_names.push(name);
                        self.project_files.push(bucket);
                        proof {
                            let w = assign_to(v, f, Some(name@));
                            assert(files_view(bucket@) =~= seq![f]);
                            assert(self@.0 =~= w.0);
                            assert(self@ =~= w);
                        }
                    },
                }
            },
        }
        Ok(())
    }

    /// The files of project `name` in insertion order; none where no file
    /// was assigned to that project.
    pub fn query(&self, name: &String) -> (r: Vec<FileData>)
        requires
            self.wf(),
        ensures
            files_view(r@) == project_files_of(self@, name@),
    {
        match self.project_position(name) {
            Some(j) => {
                proof {
                    let c = choose|k: int| 0 <= k < self@.0.len() && self@.0[k].0 == name@;
                    assert(c == j) by {
                        if c != j {
                            assert(self@.0[c].0 != self@.0[j as int].0);
                        }
                    }
                }
                copy_files(&self.project_files[j])
            },
            None => Vec::new(),
        }
    }

    /// The global files in insertion order.
    pub fn global_files(&self) -> (r: &Vec<FileData>)
        ensures
            files_view(r@) == self@.1,
    {
        &self.global_files
    }

    /// Every file: the global files, then each project's files, projects in
    /// the order in which their first file was assigned.
    pub fn all_files(&self) -> (r: Vec<FileData>)
        requires
            self.wf(),
        ensures
            files_view(r@) == all_files_of(self@),
    {
        let mut out = copy_files(&self.global_files);
        let mut j: usize = 0;
        while j < self.project_files.len()
            invariant
                self.wf(),
                j <= self.project_files@.len(),
                files_view(out@) == self@.1 + concat_buckets(self@.0.subrange(0, j as int)),
            decreases self.project_files@.len() - j,
        {
            append_files(&mut out, &self.project_files[j]);
            proof {
                let ps = self@.0.subrange(0, j + 1);
                assert(ps.drop_last() =~= self@.0.subrange(0, j as int));
                assert(ps.last() == self@.0[j as int]);
            }
            j = j + 1;
        }
        assert(self@.0.subrange(0, self@.0.len() as int) =~= self@.0);
        out
    }
}

impl PartialEq for FileLocation {
    fn eq(&self, other: &FileLocation) -> (r: bool) {
        match self {
            FileLocation::Global => match other {
                FileLocation::Global => true,
                FileLocation::Project(_) => false,
            },
            FileLocation::Project(a) => match other {
                FileLocation::Global => false,
                FileLocation::Project(b) => a.eq(b),
            },
        }
    }
}

impl vstd::std_specs::cmp::PartialEqSpecImpl for FileLocation {
    open spec fn obeys_eq_spec() -> bool {
        true
    }

    open spec fn eq_spec(&self, other: &FileLocation) -> bool {
        self@ == other@
    }
}

impl Eq for FileLocation {}

impl FileLocation {
    /// A copy of this location.
    pub fn duplicate(&self) -> (r: Self)
        ensures
            r@ == self@,
    {
        match self {
            FileLocation::Global => FileLocation::Global,
            FileLocation::Project(name) => FileLocation::Project(name.clone()),
        }
    }
}

impl BuildscaleWorkspaceFiles {
    /// The index that `assignments` build in order, or the `DuplicatePath`
    /// of the first assignment that repeats a path.
    pub fn from_assignments(assignments: &Vec<(FileData, FileLocation)>) -> (r: Result<Self, DuplicatePath>)
        ensures
            match index_after(assignments_view(assignments@)) {
                Some(v) => r is Ok && r.unwrap().wf() && r.unwrap()@ == v,
                None => r is Err,
            },
            match r {
                Err(e) => exists|i: int|
                    0 <= i < assignments@.len()
                    && index_after(assignments_view(assignments@).subrange(0, i)) is Some
                    && index_after(#[trigger] assignments_view(assignments@).subrange(0, i + 1)) is None
                    && e.0@ == assignments@[i].0.file@,
                Ok(_) => true,
            },
    {
        let ghost a = assignments_view(assignments@);
        let mut ix = Self::new();
        let mut i: usize = 0;
        proof {
            assert(a.subrange(0, 0) =~= Seq::<AssignmentView>::empty());
            assert(ix@ =~= (Seq::<BucketView>::empty(), Seq::<FileView>::empty()));
        }
        while i < assignments.len()
            invariant
                i <= assignments@.len(),
                a == assignments_view(assignments@),
                ix.wf(),
                index_after(a.subrange(0, i as int)) == Some(ix@),
            decreases assignments@.len() - i,
        {
            let entry = assignments[i].0.duplicate();
            let location = assignments[i].1.duplicate();
            let res = ix.assign(entry, location);
            proof {
                assert(a.subrange(0, i + 1).drop_last() =~= a.subrange(0, i as int));
                assert(a.subrange(0, i + 1).last() == a[i as int]);
            }
            match res {
                Ok(_) => {},
                Err(e) => {
                    proof {
                        assert(index_after(a.subrange(0, i + 1)) is None);
                        assert(e.0@ == assignments@[i as int].0.file@);
                        assert forall|k: int| i + 1 <= k <= a.len() implies index_after(#[trigger] a.subrange(0, k)) is None by {
                            lemma_index_after_none(a, i + 1, k);
                        }
                        assert(a.subrange(0, a.len() as int) =~= a);
                    }
                    return Err(e);
                },
            }
            i = i + 1;
        }
        proof {
            assert(a.subrange(0, a.len() as int) =~= a);
        }
        Ok(ix)
    }

    /// The project buckets and global files as plain vectors.
    pub fn file_map(&self) -> (r: FileMap)
        requires
            self.wf(),
        ensures
            r.project_file_map@.len() == self@.0.len(),
            forall|j: int| 0 <= j < self@.0.len() ==> (#[trigger] r.project_file_map@[j]).0@ == self@.0[j].0
                && files_view(r.project_file_map@[j].1@) == self@.0[j].1,
            files_view(r.non_project_files@) == self@.1,
    {
        let mut buckets: Vec<(String, Vec<FileData>)> = Vec::new();
        let mut j: usize = 0;
        while j < self.project_files.len()
            invariant
                self.wf(),
                j <= self.project_files@.len(),
                buckets@.len() == j,
                forall|k: int| 0 <= k < j ==> (#[trigger] buckets@[k]).0@ == self@.0[k].0
                    && files_view(buckets@[k].1@) == self@.0[k].1,
            decreases self.project_files@.len() - j,
        {
            buckets.push((self.project_names[j].clone(), copy_files(&self.project_files[j])));
            j = j + 1;
        }
        FileMap { project_file_map: buckets, non_project_files: copy_files(&self.global_files) }
    }

    /// Freezes the index into a handle that can be shared without copying
    /// the files.
    pub fn export(self) -> (r: ExportedWorkspaceFiles)
        requires
            self.wf(),
        ensures
            r.wf(),
            r@ == self@,
    {
        ExportedWorkspaceFiles { index: Arc::new(self) }
    }
}

proof fn lemma_index_after_none(a: Seq<AssignmentView>, i: int, k: int)
    requires
        0 < i <= k <= a.len(),
        index_after(a.subrange(0, i)) is None,
    ensures
        index_after(a.subrange(0, k)) is None,
    decreases k - i,
{
    if k > i {
        lemma_index_after_none(a, i, k - 1);
        assert(a.subrange(0, k).drop_last() =~= a.subrange(0, k - 1));
    }
}

/// The project buckets, in order, and the files of no project.
pub struct FileMap {
    pub project_file_map: Vec<(String, Vec<FileData>)>,
    pub non_project_files: Vec<FileData>,
}

/// A frozen index held by shared ownership: every handle reads the same
/// files, and they stay alive while any handle does.
pub struct ExportedWorkspaceFiles {
    index: Arc<BuildscaleWorkspaceFiles>,
}

impl View for ExportedWorkspaceFiles {
    type V = IndexView;

    closed spec fn view(&self) -> IndexView {
        self.index@
    }
}

impl ExportedWorkspaceFiles {
    pub closed spec fn wf(&self) -> bool {
        self.index.wf()
    }

    /// Another handle on the same files.
    pub fn share(&self) -> (r: Self)
        requires
            self.wf(),
        ensures
            r.wf(),
            r@ == self@,
    {
        ExportedWorkspaceFiles { index: Arc::clone(&self.index) }
    }

    /// As `BuildscaleWorkspaceFiles::query`.
    pub fn query(&self, name: &String) -> (r: Vec<FileData>)
        requires
            self.wf(),
        ensures
            files_view(r@) == project_files_of(self@, name@),
    {
        self.index.query(name)
    }

    /// As `BuildscaleWorkspaceFiles::global_files`.
    pub fn global_files(&self) -> (r: &Vec<FileData>)
        ensures
            files_view(r@) == self@.1,
    {
        self.index.global_files()
    }

    /// As `BuildscaleWorkspaceFiles::all_files`.
    pub fn all_files(&self) -> (r: Vec<FileData>)
        requires
            self.wf(),
        ensures
            files_view(r@) == all_files_of(self@),
    {
        self.index.all_files()
    }
}

} // verus!
