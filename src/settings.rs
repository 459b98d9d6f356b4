//! Settings kept between sessions: where the ontology file is, and who the
//! curator is.

use vstd::prelude::*;

verus! {

#[derive(Debug)]
pub struct HpoCuratorSettings {
    pub hp_json_file: Option<String>,
    pub user_name: Option<String>,
    pub orcid_id: Option<String>,
}

/// The value of an optional text.
pub open spec fn opt_view(o: Option<String>) -> Option<Seq<char>> {
    match o {
        Some(s) => Some(s@),
        None => None,
    }
}

impl HpoCuratorSettings {
    /// Settings with nothing set.
    pub fn empty() -> (r: Self)
        ensures
            r.hp_json_file is None,
            r.user_name is None,
            r.orcid_id is None,
    {
        HpoCuratorSettings { hp_json_file: None, user_name: None, orcid_id: None }
    }

    /// Records the ontology file `hp_json`, which must be an existing file
    /// (`is_file`, as the caller found on disk); other settings are kept.
    pub fn set_hp_json_path(&mut self, hp_json: &str, is_file: bool) -> (r: Result<(), String>)
        ensures
            is_file ==> r is Ok && opt_view(final(self).hp_json_file) == Some(hp_json@),
            !is_file ==> (r matches Err(e) && e@ == "Did not find file at "@ + hp_json@
                && final(self).hp_json_file == old(self).hp_json_file),
            final(self).user_name == old(self).user_name,
            final(self).orcid_id == old(self).orcid_id,
    {
        if !is_file {
            let mut msg = String::from_str("Did not find file at ");
            msg.append(hp_json);
            return Err(msg);
        }
        self.hp_json_file = Some(String::from_str(hp_json));
        Ok(())
    }

    /// The ontology file, or an error when none is set.
    pub fn get_hp_json_path(&self) -> (r: Result<String, String>)
        ensures
            match r {
                Ok(p) => opt_view(self.hp_json_file) == Some(p@),
                Err(e) => self.hp_json_file is None && e@ == "hp.json file not initialized"@,
            },
    {
        match &self.hp_json_file {
            Some(hp_json) => Ok(hp_json.clone()),
            None => Err(String::from_str("hp.json file not initialized")),
        }
    }

    /// The ontology file, if one is set.
    pub fn hp_json_path_or_none(&self) -> (r: Option<String>)
        ensures
            opt_view(r) == opt_view(self.hp_json_file),
    {
        match &self.hp_json_file {
            Some(hp_json) => Some(hp_json.clone()),
            None => None,
        }
    }
}

} // verus!
