//! The names of a board's files, and the log of its commits.
use vstd::prelude::*;
use vstd::string::StringExecFns;
use crate::text;

verus! {

/// The file that the log of commits is kept in.
pub const COMMITS_FILE: &'static str = "_commits.json";

/// The file that the tables of a name are kept in.
pub open spec fn dataset_path(name: Seq<char>) -> Seq<char> {
    name + ".parquet"@
}

/// The file that the tables of a name are kept in.
pub fn dataset_file(name: &str) -> (r: String)
    ensures
        r@ == dataset_path(name@),
{
    let mut r: String = text::owned(name);
    r.append(".parquet");
    r
}

/// The file that is written first and put in the place of another when it is complete.
pub open spec fn temporary_path(file: Seq<char>) -> Seq<char> {
    file + ".tmp"@
}

/// The file that is written first and put in the place of another when it is complete.
pub fn temporary_file(file: &str) -> (r: String)
    ensures
        r@ == temporary_path(file@),
{
    let mut r: String = text::owned(file);
    r.append(".tmp");
    r
}

/// A commit.
#[derive(Debug, Clone)]
pub struct Commit {
    pub commit_id: String,
    pub parent_ids: Vec<String>,
    pub timestamp_ms: i64,
    pub message: String,
    pub author: String,
}

/// A log of commits that only grows.
#[derive(Debug, Clone)]
pub struct CommitsTable {
    commits: Vec<Commit>,
}

impl View for CommitsTable {
    type V = Seq<Commit>;

    closed spec fn view(&self) -> Seq<Commit> {
        self.commits@
    }
}

impl Default for CommitsTable {
    fn default() -> (r: Self)
        ensures
            r@ == Seq::<Commit>::empty(),
    {
        CommitsTable { commits: Vec::new() }
    }
}

impl CommitsTable {
    /// A log without commits.
    pub fn new() -> (r: Self)
        ensures
            r@ == Seq::<Commit>::empty(),
    {
        CommitsTable { commits: Vec::new() }
    }

    /// A log of commits that were read back.
    pub fn from_commits(commits: Vec<Commit>) -> (r: Self)
        ensures
            r@ == commits@,
    {
        CommitsTable { commits }
    }

    /// Adds a commit to the end of the log.
    pub fn append(&mut self, commit: Commit)
        ensures
            final(self)@ == old(self)@.push(commit),
    {
        self.commits.push(commit);
    }

    /// All commits, the oldest first.
    pub fn all(&self) -> (r: &[Commit])
        ensures
            r@ == self@,
    {
        self.commits.as_slice()
    }

    /// How many commits the log has.
    pub fn len(&self) -> (r: usize)
        ensures
            r == self@.len(),
    {
        self.commits.len()
    }

    /// Whether the log has no commits.
    pub fn is_empty(&self) -> (r: bool)
        ensures
            r == (self@.len() == 0),
    {
        self.commits.len() == 0
    }
}

// ---- saving ---------------------------------------------------------------------------------------

/// A step of saving datasets.
#[derive(Debug)]
pub enum FileStep {
    /// Write a whole dataset, by its position, to a file.
    Write { dataset: usize, file: String },
    /// Put a file in the place of another, at once.
    Rename { from: String, to: String },
}

/// What a file holds.
pub enum Content {
    /// What it held before.
    Before,
    /// A part of a dataset.
    Part,
    /// A whole dataset, by its position.
    Whole(int),
}

/// Whether steps save datasets: each is written to a file beside its own, which then
/// takes the place of its own.
pub open spec fn is_save_plan(steps: Seq<FileStep>, names: Seq<Seq<char>>) -> bool {
    &&& steps.len() == 2 * names.len()
    &&& forall|i: int|
        0 <= i < names.len() ==> {
            &&& (#[trigger] steps[2 * i]) matches FileStep::Write { dataset, file } && dataset == i
                && file@ == temporary_path(dataset_path(names[i]))
            &&& steps[2 * i + 1] matches FileStep::Rename { from, to } && from@ == temporary_path(
                dataset_path(names[i]),
            ) && to@ == dataset_path(names[i])
        }
}

/// The steps of saving datasets under their names.
pub fn save_plan(names: &Vec<String>) -> (r: Vec<FileStep>)
    ensures
        is_save_plan(r@, text::views(names@)),
{
    let ghost all = text::views(names@);
    let mut r: Vec<FileStep> = Vec::new();
    let mut i: usize = 0;
    while i < names.len()
        invariant
            i <= names@.len(),
            all == text::views(names@),
            is_save_plan(r@, all.take(i as int)),
        decreases names@.len() - i,
    {
        let ghost before = r@;
        assert(all[i as int] == names@[i as int]@);
        let to: String = dataset_file(names[i].as_str());
        let file: String = temporary_file(to.as_str());
        let from: String = temporary_file(to.as_str());
        r.push(FileStep::Write { dataset: i, file });
        r.push(FileStep::Rename { from, to });
        let ghost named = all.take(i + 1);
        assert forall|k: int| 0 <= k < named.len() implies {
            &&& (#[trigger] r@[2 * k]) matches FileStep::Write { dataset, file } && dataset == k
                && file@ == temporary_path(dataset_path(named[k]))
            &&& r@[2 * k + 1] matches FileStep::Rename { from, to } && from@ == temporary_path(
                dataset_path(named[k]),
            ) && to@ == dataset_path(named[k])
        } by {
            if k < i {
                assert(before[2 * k] == r@[2 * k]);
                assert(all.take(i as int)[k] == named[k]);
            }
        }
        i = i + 1;
    }
    assert(all.take(all.len() as int) =~= all);
    r
}

/// What the files hold after a step.
pub open spec fn after_step(disk: Map<Seq<char>, Content>, step: FileStep) -> Map<
    Seq<char>,
    Content,
> {
    match step {
        FileStep::Write { dataset, file } => disk.insert(file@, Content::Whole(dataset as int)),
        FileStep::Rename { from, to } => if disk.contains_key(from@) {
            disk.insert(to@, disk[from@]).remove(from@)
        } else {
            disk
        },
    }
}

/// What the files hold after the first `n` steps.
pub open spec fn after_steps(disk: Map<Seq<char>, Content>, steps: Seq<FileStep>, n: nat) -> Map<
    Seq<char>,
    Content,
>
    decreases n,
{
    if n == 0 {
        disk
    } else {
        after_step(after_steps(disk, steps, (n - 1) as nat), steps[n - 1])
    }
}

/// What the files hold where saving stops in the middle of the step after the first `n`:
/// a file that was being written holds a part.
pub open spec fn when_stopped(disk: Map<Seq<char>, Content>, steps: Seq<FileStep>, n: nat) -> Map<
    Seq<char>,
    Content,
> {
    let so_far = after_steps(disk, steps, n);
    if n < steps.len() {
        match steps[n as int] {
            FileStep::Write { file, .. } => so_far.insert(file@, Content::Part),
            FileStep::Rename { .. } => so_far,
        }
    } else {
        so_far
    }
}

/// Whether a file is as it was, or holds a whole dataset that belongs in it.
pub open spec fn is_sound(
    before: Map<Seq<char>, Content>,
    disk: Map<Seq<char>, Content>,
    names: Seq<Seq<char>>,
    name: Seq<char>,
) -> bool {
    let file = dataset_path(name);
    ||| disk.contains_key(file) == before.contains_key(file) && disk[file] == before[file]
    ||| disk.contains_key(file) && exists|j: int|
        0 <= j < names.len() && #[trigger] names[j] == name && disk[file] == Content::Whole(j)
}

proof fn lemma_paths_differ(a: Seq<char>, b: Seq<char>)
    ensures
        dataset_path(a) != temporary_path(dataset_path(b)),
{
    reveal_strlit(".parquet");
    reveal_strlit(".tmp");
    let x = dataset_path(a);
    let y = temporary_path(dataset_path(b));
    if x == y {
        assert(x.last() == 't');
        assert(y.last() == 'p');
    }
}

proof fn lemma_same_name(a: Seq<char>, b: Seq<char>)
    requires
        dataset_path(a) == dataset_path(b),
    ensures
        a == b,
{
    assert(dataset_path(a).len() == a.len() + ".parquet"@.len());
    assert(dataset_path(b).len() == b.len() + ".parquet"@.len());
    assert(a.len() == b.len());
    assert forall|i: int| 0 <= i < a.len() implies a[i] == b[i] by {
        assert(dataset_path(a)[i] == a[i]);
        assert(dataset_path(b)[i] == b[i]);
    }
    assert(a =~= b);
}

proof fn lemma_steps_are_sound(
    before: Map<Seq<char>, Content>,
    steps: Seq<FileStep>,
    names: Seq<Seq<char>>,
    name: Seq<char>,
    n: nat,
)
    requires
        is_save_plan(steps, names),
        n <= steps.len(),
    ensures
        is_sound(before, after_steps(before, steps, n), names, name),
        n % 2 == 1 ==> {
            let file = temporary_path(dataset_path(names[(n / 2) as int]));
            &&& after_steps(before, steps, n).contains_key(file)
            &&& after_steps(before, steps, n)[file] == Content::Whole((n / 2) as int)
        },
    decreases n,
{
    if n > 0 {
        let disk = after_steps(before, steps, (n - 1) as nat);
        lemma_steps_are_sound(before, steps, names, name, (n - 1) as nat);
        let i = (n - 1) / 2;
        let step = steps[2 * i];
        if n % 2 == 1 {
            assert(n - 1 == 2 * i);
            lemma_paths_differ(name, names[i]);
        } else {
            assert(n - 1 == 2 * i + 1);
            lemma_paths_differ(name, names[i]);
            if dataset_path(names[i]) == dataset_path(name) {
                lemma_same_name(names[i], name);
            }
        }
    }
}

/// Wherever saving stops, every dataset's file holds what it held before or a whole new
/// dataset: never a part of one.
pub proof fn law_saving_never_spoils_a_file(
    before: Map<Seq<char>, Content>,
    steps: Seq<FileStep>,
    names: Seq<Seq<char>>,
    name: Seq<char>,
    n: nat,
)
    requires
        is_save_plan(steps, names),
        n <= steps.len(),
    ensures
        is_sound(before, when_stopped(before, steps, n), names, name),
{
    lemma_steps_are_sound(before, steps, names, name, n);
    if n < steps.len() && n % 2 == 0 {
        let i = n as int / 2;
        let step = steps[2 * i];
        lemma_paths_differ(name, names[i]);
    } else if n < steps.len() {
        let i = n as int / 2;
        let step = steps[2 * i];
        assert(n == 2 * i + 1);
    }
}

/// Saving that comes to its end leaves each dataset in its file; where names come twice,
/// the last one counts.
pub proof fn law_saving_keeps_what_is_saved(
    before: Map<Seq<char>, Content>,
    steps: Seq<FileStep>,
    names: Seq<Seq<char>>,
    j: int,
)
    requires
        is_save_plan(steps, names),
        0 <= j < names.len(),
        forall|k: int| j < k < names.len() ==> #[trigger] names[k] != names[j],
    ensures
        after_steps(before, steps, steps.len()).contains_key(dataset_path(names[j])),
        after_steps(before, steps, steps.len())[dataset_path(names[j])] == Content::Whole(j),
{
    lemma_saved_stays(before, steps, names, j, steps.len());
}

proof fn lemma_saved_stays(
    before: Map<Seq<char>, Content>,
    steps: Seq<FileStep>,
    names: Seq<Seq<char>>,
    j: int,
    n: nat,
)
    requires
        is_save_plan(steps, names),
        0 <= j < names.len(),
        forall|k: int| j < k < names.len() ==> #[trigger] names[k] != names[j],
        2 * j + 2 <= n <= steps.len(),
    ensures
        after_steps(before, steps, n).contains_key(dataset_path(names[j])),
        after_steps(before, steps, n)[dataset_path(names[j])] == Content::Whole(j),
    decreases n,
{
    let i = (n - 1) / 2;
    let step = steps[2 * i];
    let file = dataset_path(names[j]);
    lemma_paths_differ(names[j], names[i]);
    if n == 2 * j + 2 {
        lemma_steps_are_sound(before, steps, names, names[j], (n - 1) as nat);
        assert(i == j);
        assert(n - 1 == 2 * i + 1);
    } else {
        lemma_saved_stays(before, steps, names, j, (n - 1) as nat);
        assert(i > j);
        if dataset_path(names[i]) == file {
            lemma_same_name(names[i], names[j]);
        }
        if n % 2 == 1 {
            assert(n - 1 == 2 * i);
        } else {
            assert(n - 1 == 2 * i + 1);
        }
    }
}

} // verus!
