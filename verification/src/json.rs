//! The data file: one JSON object, a task's name to its moment as text.
//!
//! JSON is read and written by serde_json, behind the two functions marked
//! `external_body`; what their contracts say is taken on trust.

use crate::errors::LoadError;
use crate::persist::all_parse;
use crate::persist::decoded;
use crate::persist::encoded;
use crate::persist::first_unparsed;
use crate::store::Tasks;
use std::collections::BTreeMap;
use vstd::prelude::*;

verus! {

/// The members of the JSON object that a text holds, by ascending name, or
/// nothing where the text is no JSON object whose values are all strings.
pub uninterp spec fn json_object(text: Seq<char>) -> Option<Seq<(Seq<char>, Seq<char>)>>;

/// The JSON object with the given members, written out on indented lines by
/// ascending name.
pub uninterp spec fn json_text(members: Seq<(Seq<char>, Seq<char>)>) -> Seq<char>;

/// Whether no name stands twice among the members.
pub open spec fn distinct_members(members: Seq<(Seq<char>, Seq<char>)>) -> bool {
    forall|i: int, j: int|
        0 <= i < j < members.len() ==> (#[trigger] members[i]).0 != (#[trigger] members[j]).0
}

/// Reads a JSON object of strings with `serde_json::from_str`, as a
/// `BTreeMap`, whose members then come by ascending name.
///
/// Trusted: whether the text is accepted, and with which members, depends on
/// the text alone.
#[verifier::external_body]
fn read_object(text: &str) -> (read: Result<Vec<(String, String)>, serde_json::Error>)
    ensures
        read is Ok <==> json_object(text@) is Some,
        read matches Ok(members) ==> json_object(text@) == Some(members.deep_view()),
{
    match serde_json::from_str::<BTreeMap<String, String>>(text) {
        Ok(object) => Ok(object.into_iter().collect()),
        Err(error) => Err(error),
    }
}

/// Writes a JSON object of strings with `serde_json::to_string_pretty`, from
/// a `BTreeMap`, whose members go out by ascending name. No name may stand
/// twice, so that the map holds each member as it was given.
///
/// Trusted: the object is written, and the text depends on the members alone.
/// Writing fails only where a value refuses to be serialised or a key of a
/// map is no string, and neither can be in a map from strings to strings.
#[verifier::external_body]
fn write_object(members: &Vec<(String, String)>) -> (written: Result<String, serde_json::Error>)
    requires
        distinct_members(members.deep_view()),
    ensures
        written is Ok,
        written matches Ok(text) ==> text@ == json_text(members.deep_view()),
{
    serde_json::to_string_pretty(&members.iter().cloned().collect::<BTreeMap<String, String>>())
}

impl Tasks {
    /// Reads a store from the content of a data file. The content is refused
    /// as a whole where it is no JSON object of strings, or where one of the
    /// strings is no timestamp.
    pub fn from_json(content: &str) -> (loaded: Result<Tasks, LoadError>)
        ensures
            match json_object(content@) {
                None => loaded matches Err(error) && error is Json,
                Some(texts) => {
                    &&& loaded is Ok <==> all_parse(texts)
                    &&& loaded matches Ok(tasks) ==> decoded(texts) == Some(tasks@)
                    &&& loaded matches Err(error) ==> error matches LoadError::Timestamp {
                        name,
                        ..
                    } && exists|at: int| #[trigger]
                        first_unparsed(texts, at) && name@ == texts[at].0
                },
            },
    {
        match read_object(content) {
            Ok(members) => Tasks::from_persistable(members),
            Err(cause) => Err(LoadError::Json(cause)),
        }
    }

    /// Writes the store out as the content of a data file: the JSON object
    /// of its names, each with its moment as text. A store can always be
    /// written.
    pub fn into_json(self) -> (written: Result<String, serde_json::Error>)
        ensures
            written matches Ok(text) && text@ == json_text(encoded(self@)),
    {
        proof {
            use_type_invariant(&self);
            self.lemma_well_formed();
        }
        let ghost entries = self@;
        let members = self.into_persistable();
        proof {
            assert forall|i: int, j: int| 0 <= i < j < members.deep_view().len() implies (
            #[trigger] members.deep_view()[i]).0 != (#[trigger] members.deep_view()[j]).0 by {
                assert(entries[i].0 != entries[j].0);
            }
        }
        write_object(&members)
    }
}

} // verus!
