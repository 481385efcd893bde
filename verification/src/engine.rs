use crate::parser::seq_views;
use vstd::prelude::*;

verus! {

// ---------------------------------------------------------------------------
// Errors and actions
// ---------------------------------------------------------------------------

/// The error conditions under which a run is refused or aborted before any
/// statement is executed.
#[derive(Clone, Copy, Debug, PartialEq, Eq, Structural)]
pub enum EngineError {
    /// The up-file list and the down-file list have different lengths.
    CatalogMismatch,
    /// A rollback was requested but there is no applied-migration cursor,
    /// or the cursor's file name is absent from the current file list.
    StateNotFound,
    /// A rollback was requested while no state records exist.
    NoTargets,
}

impl EngineError {
    /// A fixed description of the error, for display by the caller.
    pub fn message(&self) -> (r: String)
        ensures
            r@ == match self {
                EngineError::CatalogMismatch => "up and down migration file counts differ"@,
                EngineError::StateNotFound => "Could not find the last migration ran"@,
                EngineError::NoTargets => "No targets available for rollback"@,
            },
    {
        match self {
            EngineError::CatalogMismatch => "up and down migration file counts differ".to_owned(),
            EngineError::StateNotFound => "Could not find the last migration ran".to_owned(),
            EngineError::NoTargets => "No targets available for rollback".to_owned(),
        }
    }
}

/// The command-line request, reduced to plain values.
#[derive(Clone, Copy, Debug, PartialEq, Eq, Structural)]
pub struct Args {
    pub create: bool,
    pub init: bool,
    pub rollback: u64,
}

/// What one invocation is asked to do.
#[derive(Clone, Copy, Debug, PartialEq, Eq, Structural)]
pub enum Action {
    CreateFiles,
    InitTable,
    Rollback { count: u64 },
    Migrate,
}

/// The dispatch rule of the command surface: creating files wins over
/// initialising the table, which wins over a positive rollback request;
/// otherwise the default action is a forward migration run.
pub fn choose_action(args: &Args) -> (a: Action)
    ensures
        a == if args.create {
            Action::CreateFiles
        } else if args.init {
            Action::InitTable
        } else if args.rollback > 0 {
            Action::Rollback { count: args.rollback }
        } else {
            Action::Migrate
        },
{
    if args.create {
        Action::CreateFiles
    } else if args.init {
        Action::InitTable
    } else if args.rollback > 0 {
        Action::Rollback { count: args.rollback }
    } else {
        Action::Migrate
    }
}

// ---------------------------------------------------------------------------
// Positions and the resume index
// ---------------------------------------------------------------------------

/// `name` occurs at position `i` of `files` and nowhere earlier.
pub open spec fn found_at(files: Seq<Seq<char>>, name: Seq<char>, i: int) -> bool {
    &&& 0 <= i < files.len()
    &&& files[i] == name
    &&& forall|j: int| 0 <= j < i ==> files[j] != name
}

pub open spec fn contains_name(files: Seq<Seq<char>>, name: Seq<char>) -> bool {
    exists|i: int| 0 <= i < files.len() && files[i] == name
}

/// Position of the first occurrence of `name` in `files`, or `-1`.
pub open spec fn spec_first_index(files: Seq<Seq<char>>, name: Seq<char>) -> int
    decreases files.len(),
{
    if files.len() == 0 {
        -1
    } else if files[0] == name {
        0
    } else {
        let r = spec_first_index(files.drop_first(), name);
        if r < 0 {
            -1
        } else {
            r + 1
        }
    }
}

pub proof fn lemma_first_index(files: Seq<Seq<char>>, name: Seq<char>)
    ensures
        spec_first_index(files, name) == -1 ==> !contains_name(files, name),
        spec_first_index(files, name) >= 0 ==> found_at(files, name, spec_first_index(files, name)),
    decreases files.len(),
{
    if files.len() > 0 && files[0] != name {
        lemma_first_index(files.drop_first(), name);
        let r = spec_first_index(files.drop_first(), name);
        if r == -1 {
            assert forall|i: int| 0 <= i < files.len() implies files[i] != name by {
                if i > 0 {
                    assert(files.drop_first()[i - 1] == files[i]);
                }
            }
        } else {
            assert forall|j: int| 0 <= j < r + 1 implies files[j] != name by {
                if j > 0 {
                    assert(files.drop_first()[j - 1] == files[j]);
                }
            }
        }
    }
}

/// First position of `name` in `files`, scanning from the front.
pub fn position_of(files: &Vec<String>, name: &String) -> (r: Option<usize>)
    ensures
        match r {
            Option::Some(i) => found_at(seq_views(files@), name@, i as int),
            Option::None => !contains_name(seq_views(files@), name@),
        },
{
    let n = files.len();
    let mut i: usize = 0;
    while i < n
        invariant
            n == files@.len(),
            i <= n,
            forall|j: int| 0 <= j < i ==> seq_views(files@)[j] != name@,
        decreases n - i,
    {
        proof {
            assert(seq_views(files@)[i as int] == files@[i as int]@);
        }
        if files[i] == *name {
            return Some(i);
        }
        i = i + 1;
    }
    None
}

/// Where the next apply run starts: right after the last applied up-file,
/// from the beginning when nothing was applied, and also from the
/// beginning when the recorded name no longer occurs in the list.
pub open spec fn spec_resume_index(last: Option<Seq<char>>, ups: Seq<Seq<char>>) -> int {
    match last {
        Option::None => 0,
        Option::Some(f) => {
            let i = spec_first_index(ups, f);
            if i < 0 {
                0
            } else {
                i + 1
            }
        },
    }
}

pub open spec fn opt_view(o: Option<String>) -> Option<Seq<char>> {
    match o {
        Option::None => Option::None,
        Option::Some(s) => Option::Some(s@),
    }
}

pub fn resume_index(last_applied: &Option<String>, ups: &Vec<String>) -> (start: usize)
    ensures
        start as int == spec_resume_index(opt_view(*last_applied), seq_views(ups@)),
        0 <= start <= ups@.len(),
{
    let ghost files = seq_views(ups@);
    let n = ups.len();
    match last_applied {
        Option::None => 0,
        Option::Some(f) => {
            let pos = position_of(ups, f);
            match pos {
                Option::Some(i) => {
                    proof {
                        lemma_first_index(files, f@);
                        let fi = spec_first_index(files, f@);
                        if fi == -1 {
                            assert(contains_name(files, f@));
                        }
                        assert(found_at(files, f@, fi));
                        assert(found_at(files, f@, i as int));
                        if fi < i as int {
                            assert(files[fi] == f@);
                        }
                        if (i as int) < fi {
                            assert(files[i as int] == f@);
                        }
                        assert(fi == i as int);
                        assert(i < files.len() && files.len() == n);
                    }
                    i + 1
                },
                Option::None => {
                    proof {
                        lemma_first_index(files, f@);
                        let fi = spec_first_index(files, f@);
                        if fi >= 0 {
                            assert(files[fi] == f@);
                            assert(contains_name(files, f@));
                        }
                    }
                    0
                },
            }
        },
    }
}

// ---------------------------------------------------------------------------
// Apply planning
// ---------------------------------------------------------------------------

/// One batch of the apply plan: the up-file to execute and the down-file
/// recorded with it.
#[derive(Debug)]
pub struct Batch {
    pub up_file: String,
    pub down_file: String,
}

/// Plans a forward run. With unequal file counts the run is refused before
/// anything executes; otherwise the plan pairs up-files with down-files by
/// position, from the resume index to the end of the catalog.
pub fn plan_apply(last_applied: &Option<String>, ups: &Vec<String>, downs: &Vec<String>) -> (r:
    Result<Vec<Batch>, EngineError>)
    ensures
        match r {
            Result::Err(e) => ups@.len() != downs@.len() && e == EngineError::CatalogMismatch,
            Result::Ok(plan) => {
                let start = spec_resume_index(opt_view(*last_applied), seq_views(ups@));
                &&& ups@.len() == downs@.len()
                &&& 0 <= start <= ups@.len()
                &&& plan@.len() == ups@.len() - start
                &&& forall|k: int|
                    0 <= k < plan@.len() ==> (#[trigger] plan@[k]).up_file@ == ups@[start + k]@
                        && plan@[k].down_file@ == downs@[start + k]@
            },
        },
{
    if ups.len() != downs.len() {
        return Err(EngineError::CatalogMismatch);
    }
    let start = resume_index(last_applied, ups);
    let mut plan: Vec<Batch> = Vec::new();
    let mut k = start;
    while k < ups.len()
        invariant
            ups@.len() == downs@.len(),
            start <= k <= ups@.len(),
            plan@.len() == k - start,
            forall|m: int|
                0 <= m < plan@.len() ==> (#[trigger] plan@[m]).up_file@ == ups@[start + m]@
                    && plan@[m].down_file@ == downs@[start + m]@,
        decreases ups@.len() - k,
    {
        plan.push(Batch { up_file: ups[k].clone(), down_file: downs[k].clone() });
        k = k + 1;
    }
    Ok(plan)
}

// ---------------------------------------------------------------------------
// Rollback planning
// ---------------------------------------------------------------------------

/// How many rollbacks can actually execute: the requested number, clamped
/// to the number of existing state records.
pub fn get_executable_query_count(n: u64, count: u64) -> (r: u64)
    ensures
        r == if n > count {
            count
        } else {
            n
        },
{
    if n > count {
        count
    } else {
        n
    }
}

/// Resolves a rollback request against the record count: with no records
/// at all the request is refused, otherwise it is clamped.
pub fn resolve_rollback_count(requested: u64, record_count: u64) -> (r: Result<u64, EngineError>)
    ensures
        match r {
            Result::Err(e) => record_count == 0 && e == EngineError::NoTargets,
            Result::Ok(c) => record_count > 0 && c == if requested > record_count {
                record_count
            } else {
                requested
            },
        },
{
    if record_count == 0 {
        Err(EngineError::NoTargets)
    } else {
        Ok(get_executable_query_count(requested, record_count))
    }
}

/// Plans a rollback of up to `n` batches. `downs_desc` is the down-file
/// list sorted newest first. Rollback needs a known cursor: with no state
/// record, or with a cursor name that is absent from the list, the run is
/// refused. Otherwise the plan is the run of consecutive down-files that
/// starts at the cursor, of length `n` clamped to the files that remain.
pub fn plan_rollback(last_applied: &Option<String>, downs_desc: &Vec<String>, n: u64) -> (r: Result<
    Vec<String>,
    EngineError,
>)
    ensures
        match r {
            Result::Err(e) => e == EngineError::StateNotFound && match opt_view(*last_applied) {
                Option::None => true,
                Option::Some(f) => !contains_name(seq_views(downs_desc@), f),
            },
            Result::Ok(plan) => match opt_view(*last_applied) {
                Option::None => false,
                Option::Some(f) => {
                    let files = seq_views(downs_desc@);
                    let i = spec_first_index(files, f);
                    &&& found_at(files, f, i)
                    &&& plan@.len() == if n <= files.len() - i {
                        n as int
                    } else {
                        files.len() - i
                    }
                    &&& forall|k: int|
                        0 <= k < plan@.len() ==> (#[trigger] plan@[k])@ == files[i + k]
                },
            },
        },
{
    let ghost files = seq_views(downs_desc@);
    match last_applied {
        Option::None => Err(EngineError::StateNotFound),
        Option::Some(f) => {
            let pos = position_of(downs_desc, f);
            match pos {
                Option::None => Err(EngineError::StateNotFound),
                Option::Some(i) => {
                    proof {
                        lemma_first_index(files, f@);
                        let fi = spec_first_index(files, f@);
                        if fi == -1 {
                            assert(contains_name(files, f@));
                        }
                        if fi < i as int {
                            assert(files[fi] == f@);
                        }
                        if (i as int) < fi {
                            assert(files[i as int] == f@);
                        }
                        assert(fi == i as int);
                    }
                    let len = downs_desc.len();
                    let mut plan: Vec<String> = Vec::new();
                    let mut k = i;
                    while k < len && ((k - i) as u64) < n
                        invariant
                            files == seq_views(downs_desc@),
                            len == files.len(),
                            len == downs_desc@.len(),
                            i <= k <= len,
                            k - i <= n,
                            plan@.len() == k - i,
                            forall|m: int|
                                0 <= m < plan@.len() ==> (#[trigger] plan@[m])@ == files[i + m],
                        decreases len - k,
                    {
                        plan.push(downs_desc[k].clone());
                        proof {
                            assert(files[k as int] == downs_desc@[k as int]@);
                        }
                        k = k + 1;
                    }
                    Ok(plan)
                },
            }
        },
    }
}

} // verus!
