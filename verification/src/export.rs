//! Exporting a session: which session to take, where the archive goes, and
//! what is said when there is nothing to export.
use vstd::prelude::*;
use crate::paths::{file_name_of, joined, join_path, path_file_name};
use crate::text::{append_str, str_equal, string_of};

verus! {

/// The arguments of the export command.
pub struct ExportArgs {
    /// The session to export; the previous session of the working
    /// directory when absent.
    pub session_id: Option<String>,
    /// Where the archive goes; `session-{id}.zip` in the current directory
    /// when absent.
    pub output: Option<String>,
}

/// Why a session cannot be exported.
#[derive(Debug, PartialEq, Eq)]
pub enum ExportError {
    /// The session asked for is not among those of the working directory.
    SessionNotFound(String),
    /// No session was asked for, and the working directory has no previous
    /// session that can be found.
    NoPreviousSession,
    /// The session's directory is gone.
    SessionDirMissing,
}

/// The message of an export error.
pub open spec fn export_error_message(e: ExportError) -> Seq<char> {
    match e {
        ExportError::SessionNotFound(id) => "Session '"@ + id@ + "' not found."@,
        ExportError::NoPreviousSession => "No previous session found for the working directory."@,
        ExportError::SessionDirMissing => "Session directory does not exist."@,
    }
}

impl ExportError {
    /// The message shown for the error.
    pub fn message(&self) -> (r: String)
        ensures
            r@ == export_error_message(*self),
    {
        match self {
            ExportError::SessionNotFound(id) => {
                let mut m = string_of("Session '");
                append_str(&mut m, id.as_str());
                append_str(&mut m, "' not found.");
                m
            },
            ExportError::NoPreviousSession => string_of("No previous session found for the working directory."),
            ExportError::SessionDirMissing => string_of("Session directory does not exist."),
        }
    }
}

/// What the metadata keeps of a working directory: its path and the last
/// session it had.
pub struct WorkDirRecord {
    pub path: String,
    pub last_session_id: Option<String>,
}

/// The last session of the first record whose path is `work_dir`.
pub open spec fn last_session_of(records: Seq<WorkDirRecord>, work_dir: Seq<char>) -> Option<Seq<char>>
    decreases records.len(),
{
    if records.len() == 0 {
        None
    } else if records[0].path@ == work_dir {
        match records[0].last_session_id {
            Some(id) => Some(id@),
            None => None,
        }
    } else {
        last_session_of(records.drop_first(), work_dir)
    }
}

/// The last session of the working directory `work_dir` (see
/// `last_session_of`).
pub fn last_session_for(records: &Vec<WorkDirRecord>, work_dir: &str) -> (r: Option<String>)
    ensures
        match r {
            Some(id) => last_session_of(records@, work_dir@) == Some(id@),
            None => last_session_of(records@, work_dir@) is None,
        },
{
    let mut i: usize = 0;
    assert(records@.skip(0) =~= records@);
    while i < records.len()
        invariant
            i <= records.len(),
            last_session_of(records@, work_dir@) == last_session_of(records@.skip(i as int), work_dir@),
        decreases records.len() - i,
    {
        assert(records@.skip(i as int)[0] == records@[i as int]);
        assert(records@.skip(i as int).drop_first() =~= records@.skip(i + 1));
        if str_equal(records[i].path.as_str(), work_dir) {
            return match &records[i].last_session_id {
                Some(id) => Some(id.clone()),
                None => None,
            };
        }
        i = i + 1;
    }
    None
}

/// The position of the first record whose path is `work_dir`, if any.
pub fn work_dir_record_index(records: &Vec<WorkDirRecord>, work_dir: &str) -> (r: Option<usize>)
    ensures
        match r {
            Some(i) => i < records.len() && records@[i as int].path@ == work_dir@ && forall|j: int|
                0 <= j < i ==> (#[trigger] records@[j]).path@ != work_dir@,
            None => forall|j: int| 0 <= j < records.len() ==> (#[trigger] records@[j]).path@ != work_dir@,
        },
{
    let mut i: usize = 0;
    while i < records.len()
        invariant
            i <= records.len(),
            forall|j: int| 0 <= j < i ==> (#[trigger] records@[j]).path@ != work_dir@,
        decreases records.len() - i,
    {
        if str_equal(records[i].path.as_str(), work_dir) {
            return Some(i);
        }
        i = i + 1;
    }
    None
}

/// The session to look for: the one asked for, else the last session of the
/// working directory.
pub open spec fn wanted_session(requested: Option<Seq<char>>, last: Option<Seq<char>>) -> Option<Seq<char>> {
    match requested {
        Some(id) => Some(id),
        None => last,
    }
}

/// The session to look for, or the error when there is none to look for.
pub fn session_to_export(args: &ExportArgs, records: &Vec<WorkDirRecord>, work_dir: &str) -> (r: Result<
    String,
    ExportError,
>)
    ensures
        match r {
            Ok(id) => wanted_session(
                match args.session_id {
                    Some(s) => Some(s@),
                    None => None,
                },
                last_session_of(records@, work_dir@),
            ) == Some(id@),
            Err(e) => e == ExportError::NoPreviousSession && args.session_id is None && last_session_of(
                records@,
                work_dir@,
            ) is None,
        },
{
    match &args.session_id {
        Some(id) => Ok(id.clone()),
        None => match last_session_for(records, work_dir) {
            Some(id) => Ok(id),
            None => Err(ExportError::NoPreviousSession),
        },
    }
}

/// The directory of the session found for `id`, or the error when none was
/// found: a session asked for by name is reported by name.
pub fn found_session_dir(args: &ExportArgs, id: &str, found: Option<String>) -> (r: Result<String, ExportError>)
    ensures
        match found {
            Some(d) => r == Ok::<String, ExportError>(d),
            None => match args.session_id {
                Some(_) => r matches Err(ExportError::SessionNotFound(s)) && s@ == id@,
                None => r == Err::<String, ExportError>(ExportError::NoPreviousSession),
            },
        },
{
    match found {
        Some(d) => Ok(d),
        None => match &args.session_id {
            Some(_) => Err(ExportError::SessionNotFound(string_of(id))),
            None => Err(ExportError::NoPreviousSession),
        },
    }
}

/// Fails when the session's directory does not exist.
pub fn check_session_dir(exists: bool) -> (r: Result<(), ExportError>)
    ensures
        r is Ok <==> exists,
        r is Err ==> r == Err::<(), ExportError>(ExportError::SessionDirMissing),
{
    if exists {
        Ok(())
    } else {
        Err(ExportError::SessionDirMissing)
    }
}

/// The session id an exported directory goes by: its final component, or
/// `unknown`.
pub fn exported_session_id(session_dir: &str) -> (r: String)
    ensures
        r@ == match file_name_of(session_dir@) {
            Some(n) => n,
            None => "unknown"@,
        },
{
    match path_file_name(session_dir) {
        Some(n) => n,
        None => string_of("unknown"),
    }
}

/// The name of the archive of session `id`.
pub open spec fn archive_name(id: Seq<char>) -> Seq<char> {
    "session-"@ + id + ".zip"@
}

/// Where the archive of session `id` goes: the path asked for, else
/// `session-{id}.zip` in `current_dir`.
pub fn export_output_path(args: &ExportArgs, current_dir: &str, id: &str) -> (r: String)
    ensures
        r@ == match args.output {
            Some(o) => o@,
            None => joined(current_dir@, archive_name(id@)),
        },
{
    match &args.output {
        Some(o) => o.clone(),
        None => {
            let mut name = string_of("session-");
            append_str(&mut name, id);
            append_str(&mut name, ".zip");
            join_path(current_dir, name.as_str())
        },
    }
}

} // verus!
