//! The cohort directories of a phenopacket store: one directory per cohort,
//! each with an `input` directory of curation files and a `phenopackets`
//! directory of generated phenopackets. The caller lists directories; this
//! module decides which entries count.

use vstd::prelude::*;
use vstd::string::StrSliceExecFns;

verus! {

/// One entry of a directory listing.
#[derive(Debug)]
pub struct DirEntryInfo {
    pub name: String,
    pub is_file: bool,
    pub is_dir: bool,
}

/// A name that starts with `.` is hidden.
pub open spec fn is_hidden(name: Seq<char>) -> bool {
    name.len() > 0 && name[0] == '.'
}

/// The names of the visible entries that are files (`files`) or directories
/// (`!files`), in listing order.
pub open spec fn visible_names(entries: Seq<DirEntryInfo>, files: bool) -> Seq<Seq<char>>
    decreases entries.len(),
{
    if entries.len() == 0 {
        Seq::empty()
    } else {
        let prev = visible_names(entries.drop_last(), files);
        let e = entries.last();
        if !is_hidden(e.name@) && (if files {
            e.is_file
        } else {
            e.is_dir
        }) {
            prev.push(e.name@)
        } else {
            prev
        }
    }
}

/// The values of a list of names.
pub open spec fn names_view(v: Seq<String>) -> Seq<Seq<char>> {
    v.map_values(|s: String| s@)
}

fn hidden(name: &String) -> (r: bool)
    ensures
        r == is_hidden(name@),
{
    let s = name.as_str();
    s.unicode_len() > 0 && s.get_char(0) == '.'
}

fn visible_entries(entries: &Vec<DirEntryInfo>, files: bool) -> (r: Vec<String>)
    ensures
        names_view(r@) == visible_names(entries@, files),
{
    let mut out: Vec<String> = Vec::new();
    let mut i: usize = 0;
    while i < entries.len()
        invariant
            i <= entries@.len(),
            names_view(out@) == visible_names(entries@.take(i as int), files),
        decreases entries@.len() - i,
    {
        let e = &entries[i];
        proof {
            assert(entries@.take(i + 1).drop_last() =~= entries@.take(i as int));
        }
        let wanted = if files {
            e.is_file
        } else {
            e.is_dir
        };
        let ghost before = names_view(out@);
        if !hidden(&e.name) && wanted {
            out.push(e.name.clone());
            proof {
                assert(names_view(out@) =~= before.push(e.name@));
            }
        }
        i = i + 1;
    }
    proof {
        assert(entries@.take(entries@.len() as int) =~= entries@);
    }
    out
}

/// One cohort directory and the files it holds.
#[derive(Debug)]
pub struct CohortDirectory {
    pub cohort_name: String,
    pub cohort_directory_path: String,
    pub input_files: Vec<String>,
    pub phenopacket_files: Vec<String>,
}

impl CohortDirectory {
    /// The cohort `cohort_name` at `cohort_directory_path`, given the
    /// listings of its `input` and `phenopackets` directories.
    pub fn new(
        cohort_name: String,
        cohort_directory_path: String,
        input_entries: &Vec<DirEntryInfo>,
        phenopacket_entries: &Vec<DirEntryInfo>,
    ) -> (r: Self)
        ensures
            r.cohort_name == cohort_name,
            r.cohort_directory_path == cohort_directory_path,
            names_view(r.input_files@) == visible_names(input_entries@, true),
            names_view(r.phenopacket_files@) == visible_names(phenopacket_entries@, true),
    {
        CohortDirectory {
            cohort_name,
            cohort_directory_path,
            input_files: Self::get_input_files(input_entries),
            phenopacket_files: Self::get_phenopacket_files(phenopacket_entries),
        }
    }

    /// The curation files in a listing of the `input` directory.
    pub fn get_input_files(input_entries: &Vec<DirEntryInfo>) -> (r: Vec<String>)
        ensures
            names_view(r@) == visible_names(input_entries@, true),
    {
        Self::get_non_hidden_files_in_directory(input_entries)
    }

    /// The phenopackets in a listing of the `phenopackets` directory.
    pub fn get_phenopacket_files(phenopacket_entries: &Vec<DirEntryInfo>) -> (r: Vec<String>)
        ensures
            names_view(r@) == visible_names(phenopacket_entries@, true),
    {
        Self::get_non_hidden_files_in_directory(phenopacket_entries)
    }

    /// The files of a listing, skipping hidden ones.
    fn get_non_hidden_files_in_directory(entries: &Vec<DirEntryInfo>) -> (r: Vec<String>)
        ensures
            names_view(r@) == visible_names(entries@, true),
    {
        visible_entries(entries, true)
    }
}

/// All cohort directories under one base directory.
#[derive(Debug)]
pub struct DirectoryManager {
    pub base_dir: String,
    pub cohort_directories: Vec<CohortDirectory>,
}

impl DirectoryManager {
    /// The store at `ppkt_directory` with its cohorts.
    pub fn new(ppkt_directory: String, cohorts: Vec<CohortDirectory>) -> (r: Self)
        ensures
            r.base_dir == ppkt_directory,
            r.cohort_directories@ == cohorts@,
    {
        DirectoryManager { base_dir: ppkt_directory, cohort_directories: cohorts }
    }

    /// The cohort directories in a listing of the base directory: visible
    /// subdirectories, in listing order.
    pub fn get_subdirectories(entries: &Vec<DirEntryInfo>) -> (r: Vec<String>)
        ensures
            names_view(r@) == visible_names(entries@, false),
    {
        visible_entries(entries, false)
    }
}

} // verus!
