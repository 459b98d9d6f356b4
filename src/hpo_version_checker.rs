//! Whether the ontology version in use could be updated: the version in use
//! against the newest one published.

use vstd::prelude::*;

verus! {

/// Compares the ontology version in use with the newest published one.
pub trait HpoVersionChecker {
    spec fn current_version(&self) -> Seq<char>;

    spec fn remote_version(&self) -> Seq<char>;

    /// Whether the version in use differs from the newest published one.
    fn hp_json_can_be_updated(&self) -> (r: bool)
        ensures
            r == (self.current_version() != self.remote_version()),
    ;

    fn remote_hpo_version(&self) -> (r: &str)
        ensures
            r@ == self.remote_version(),
    ;

    fn current_hpo_version(&self) -> (r: &str)
        ensures
            r@ == self.current_version(),
    ;
}

/// Versions of a local ontology file and of the newest published one.
#[derive(Debug)]
pub struct LocalFileHpoVersionChecker {
    pub hp_json_path: String,
    pub local_hpo_version: String,
    pub remote_hpo_version: String,
}

impl LocalFileHpoVersionChecker {
    /// A checker for the file `hp_json`, whose version the caller read as
    /// `local_version`, against the published `remote_version`.
    pub fn new(hp_json: &str, local_version: &str, remote_version: &str) -> (r: Self)
        ensures
            r.hp_json_path@ == hp_json@,
            r.local_hpo_version@ == local_version@,
            r.remote_hpo_version@ == remote_version@,
    {
        LocalFileHpoVersionChecker {
            hp_json_path: String::from_str(hp_json),
            local_hpo_version: String::from_str(local_version),
            remote_hpo_version: String::from_str(remote_version),
        }
    }

    pub fn local_hpo_version(&self) -> (r: &str)
        ensures
            r@ == self.local_hpo_version@,
    {
        self.local_hpo_version.as_str()
    }
}

impl HpoVersionChecker for LocalFileHpoVersionChecker {
    open spec fn current_version(&self) -> Seq<char> {
        self.local_hpo_version@
    }

    open spec fn remote_version(&self) -> Seq<char> {
        self.remote_hpo_version@
    }

    fn hp_json_can_be_updated(&self) -> (r: bool) {
        self.local_hpo_version != self.remote_hpo_version
    }

    fn remote_hpo_version(&self) -> (r: &str) {
        self.remote_hpo_version.as_str()
    }

    fn current_hpo_version(&self) -> (r: &str) {
        self.local_hpo_version()
    }
}

/// Versions of a loaded ontology and of the newest published one.
#[derive(Debug)]
pub struct OntoliusHpoVersionChecker {
    pub ontolius_hpo_version: String,
    pub remote_hpo_version: String,
}

impl OntoliusHpoVersionChecker {
    /// A checker for a loaded ontology of version `ontology_version` against
    /// the published `remote_version`.
    pub fn new(ontology_version: &str, remote_version: &str) -> (r: Self)
        ensures
            r.ontolius_hpo_version@ == ontology_version@,
            r.remote_hpo_version@ == remote_version@,
    {
        OntoliusHpoVersionChecker {
            ontolius_hpo_version: String::from_str(ontology_version),
            remote_hpo_version: String::from_str(remote_version),
        }
    }

    pub fn ontolius_hpo_version(&self) -> (r: &str)
        ensures
            r@ == self.ontolius_hpo_version@,
    {
        self.ontolius_hpo_version.as_str()
    }
}

impl HpoVersionChecker for OntoliusHpoVersionChecker {
    open spec fn current_version(&self) -> Seq<char> {
        self.ontolius_hpo_version@
    }

    open spec fn remote_version(&self) -> Seq<char> {
        self.remote_hpo_version@
    }

    fn hp_json_can_be_updated(&self) -> (r: bool) {
        self.ontolius_hpo_version != self.remote_hpo_version
    }

    fn remote_hpo_version(&self) -> (r: &str) {
        self.remote_hpo_version.as_str()
    }

    fn current_hpo_version(&self) -> (r: &str) {
        self.ontolius_hpo_version()
    }
}

} // verus!
