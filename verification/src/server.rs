//! The local storage adapter: one tree's identifier index, cross-reference
//! capability and compressed artifacts behind the uniform capability
//! interface the orchestration layer consumes.
//!
//! I/O stays with the caller: it hands this module the bytes it read (a
//! mapped identifiers file, a compressed artifact) and performs the actions
//! these operations decide.

use vstd::prelude::*;

use crate::artifacts::{gunzip_text, gunzip_text_of, json_line_ok, lines_chars, read_gzipped_ndjson};
use crate::errors::{ErrorLayer, ServerError};
use crate::identifiers::{lookup_spec, wf_buf, IdentMap, IdentResult};
use crate::order::str_eq;
use serde_json::Value;
use vstd::string::StringSliceAdditionalSpecFns;
use vstd::string::{StrSliceExecFns, StringExecFns};

verus! {

/// The filesystem locations configured for one tree.
#[derive(Debug)]
pub struct TreeConfigPaths {
    pub index_path: String,
}

/// One entry of the loaded multi-tree configuration.
#[derive(Debug)]
pub struct TreeEntry {
    pub name: String,
    pub paths: TreeConfigPaths,
}

/// The loaded multi-tree configuration: tree names with their locations.
#[derive(Debug)]
pub struct Config {
    pub trees: Vec<TreeEntry>,
}

/// The first configured entry carrying the given tree name, if any.
pub open spec fn find_tree(trees: Seq<TreeEntry>, name: Seq<char>) -> Option<TreeEntry>
    decreases trees.len(),
{
    if trees.len() == 0 {
        None
    } else if trees[0].name@ == name {
        Some(trees[0])
    } else {
        find_tree(trees.drop_first(), name)
    }
}

/// What a cross-reference lookup decides: a tree without cross-reference
/// data answers with the null value (absent data is not an error); a tree
/// with it delegates to the configured lookup map.
#[derive(Debug, PartialEq, Eq, Structural)]
pub enum CrossrefStep {
    UseNull,
    ConsultMap,
}

/// A local tree served from its on-disk index: the identifier index, the
/// configured locations, and whether a cross-reference map was found.
#[derive(Debug)]
pub struct LocalIndex {
    pub config_paths: TreeConfigPaths,
    pub tree_name: String,
    pub ident_map: IdentMap,
    pub has_crossref: bool,
}

impl LocalIndex {
    /// Where the analysis records of a tree-relative source path live:
    /// `<index_root>/analysis/<path>.gz`. Pure formatting; never fails.
    pub fn translate_analysis_path(&self, sf_path: &str) -> (r: Result<String, ServerError>)
        ensures
            r matches Ok(p) && p@ == self.config_paths.index_path@ + "/analysis/"@ + sf_path@
                + ".gz"@,
    {
        let mut p = String::from_str(self.config_paths.index_path.as_str());
        p.append("/analysis/");
        p.append(sf_path);
        p.append(".gz");
        Ok(p)
    }

    /// Where the rendered HTML of a tree-relative source path lives:
    /// `<index_root>/file/<path>.gz`. Pure formatting; never fails.
    pub fn translate_file_path(&self, sf_path: &str) -> (r: Result<String, ServerError>)
        ensures
            r matches Ok(p) && p@ == self.config_paths.index_path@ + "/file/"@ + sf_path@ + ".gz"@,
    {
        let mut p = String::from_str(self.config_paths.index_path.as_str());
        p.append("/file/");
        p.append(sf_path);
        p.append(".gz");
        Ok(p)
    }

    /// Decode a compressed analysis artifact the caller read from the
    /// translated path: every line one structured record, in order, and any
    /// malformed line or container a storage error with no partial result.
    pub fn fetch_raw_analysis(&self, compressed: &Vec<u8>) -> (r: Result<Vec<Value>, ServerError>)
        ensures
            (r is Ok) <==> (gunzip_text_of(compressed@) matches Some(t) && forall|j: int|
                0 <= j < lines_chars(t).len() ==> json_line_ok(#[trigger] lines_chars(t)[j])),
            r matches Ok(vs) ==> gunzip_text_of(compressed@) matches Some(t) && vs@.len()
                == lines_chars(t).len(),
            r matches Err(e) ==> e matches ServerError::StickyProblem(d) && d.layer
                == ErrorLayer::ServerLayer,
    {
        read_gzipped_ndjson(compressed)
    }

    /// Decode a compressed HTML artifact the caller read from the translated
    /// path: the whole decompressed document, or a storage error.
    pub fn fetch_html(&self, compressed: &Vec<u8>) -> (r: Result<String, ServerError>)
        ensures
            (r is Ok) == (gunzip_text_of(compressed@) is Some),
            r matches Ok(t) ==> Some(t@) == gunzip_text_of(compressed@),
            r matches Err(e) ==> e matches ServerError::StickyProblem(d) && d.layer
                == ErrorLayer::ServerLayer,
    {
        match gunzip_text(compressed) {
            Ok(t) => Ok(t),
            Err(msg) => Err(ServerError::sticky_storage(msg)),
        }
    }

    /// Decide a cross-reference lookup: without a configured map the answer
    /// is the null value, a distinct non-error outcome; with one, the caller
    /// delegates to the map.
    pub fn crossref_lookup(&self) -> (r: CrossrefStep)
        ensures
            r == if self.has_crossref {
                CrossrefStep::ConsultMap
            } else {
                CrossrefStep::UseNull
            },
    {
        if self.has_crossref {
            CrossrefStep::ConsultMap
        } else {
            CrossrefStep::UseNull
        }
    }

    /// Identifier search through the index: the same pairs the index lookup
    /// yields, the display identifier first and the raw symbol second.
    pub fn search_identifiers(
        &self,
        needle: &str,
        exact_match: bool,
        ignore_case: bool,
        match_limit: usize,
    ) -> (r: Result<Vec<(String, String)>, ServerError>)
        requires
            self.ident_map@ matches Some(s) ==> wf_buf(s),
        ensures
            r matches Ok(v) && {
                let found = match self.ident_map@ {
                    Some(s) => lookup_spec(
                        s,
                        needle.spec_bytes(),
                        exact_match,
                        ignore_case,
                        match_limit as nat,
                    ),
                    None => Seq::empty(),
                };
                &&& v@.len() == found.len()
                &&& forall|k: int|
                    0 <= k < v@.len() ==> (#[trigger] v@[k]).0@ == found[k].0 && v@[k].1@
                        == found[k].1
            },
    {
        let results = self.ident_map.lookup(needle, exact_match, ignore_case, match_limit);
        let mut out: Vec<(String, String)> = Vec::new();
        let n = results.len();
        let mut i: usize = 0;
        while i < n
            invariant
                n == results@.len(),
                i <= n,
                out@.len() == i,
                forall|k: int|
                    0 <= k < i ==> (#[trigger] out@[k]).0@ == results@[k].id@ && out@[k].1@
                        == results@[k].symbol@,
            decreases n - i,
        {
            let ir = &results[i];
            out.push((ir.id.clone(), ir.symbol.clone()));
            i = i + 1;
        }
        proof {
            match self.ident_map@ {
                Some(s) => {
                    let found = lookup_spec(
                        s,
                        needle.spec_bytes(),
                        exact_match,
                        ignore_case,
                        match_limit as nat,
                    );
                    assert(crate::identifiers::results_view(results@) == found);
                    assert forall|k: int|
                        0 <= k < out@.len() implies (#[trigger] out@[k]).0@ == found[k].0
                        && out@[k].1@ == found[k].1 by {
                        assert(crate::identifiers::results_view(results@)[k] == (
                            results@[k].id@,
                            results@[k].symbol@,
                        ));
                    }
                },
                None => {},
            }
        }
        Ok(out)
    }

    /// Generalized query execution is not implemented by the local adapter:
    /// every call reports the unsupported operation, never a silent
    /// degradation.
    pub fn perform_query(&self, _q: &str) -> (r: Result<Value, ServerError>)
        ensures
            r matches Err(e) && e is Unsupported,
    {
        Err(ServerError::Unsupported)
    }
}

/// Build the local server for a named tree: resolve the tree in the loaded
/// configuration (an unknown name is an input error and builds nothing), and
/// take the identifiers-file contents and the cross-reference availability
/// the caller established; a missing identifiers file or cross-reference map
/// degrades, never fails.
pub fn make_local_server(
    config: Config,
    tree_name: &str,
    ident_contents: Option<Vec<u8>>,
    has_crossref: bool,
) -> (r: Result<LocalIndex, ServerError>)
    ensures
        (r is Ok) <==> find_tree(config.trees@, tree_name@) is Some,
        r matches Ok(srv) ==> {
            &&& find_tree(config.trees@, tree_name@) matches Some(entry)
                && srv.config_paths.index_path@ == entry.paths.index_path@
            &&& srv.tree_name@ == tree_name@
            &&& srv.ident_map@ == match ident_contents {
                Some(v) => Some(v@),
                None => None::<Seq<u8>>,
            }
            &&& srv.has_crossref == has_crossref
        },
        r matches Err(e) ==> e matches ServerError::StickyProblem(d) && d.layer
            == ErrorLayer::BadInput && d.message@ == "bad tree name: "@ + tree_name@,
{
    let n = config.trees.len();
    let mut i: usize = 0;
    proof {
        assert(config.trees@.skip(0) =~= config.trees@);
    }
    while i < n
        invariant
            n == config.trees@.len(),
            i <= n,
            find_tree(config.trees@, tree_name@) == find_tree(
                config.trees@.skip(i as int),
                tree_name@,
            ),
        decreases n - i,
    {
        proof {
            assert(config.trees@.skip(i as int)[0] == config.trees@[i as int]);
            assert(config.trees@.skip(i as int).drop_first() =~= config.trees@.skip(i + 1 as int));
        }
        if str_eq(config.trees[i].name.as_str(), tree_name) {
            let entry = &config.trees[i];
            let ident_map = IdentMap::new(ident_contents);
            return Ok(
                LocalIndex {
                    config_paths: TreeConfigPaths {
                        index_path: String::from_str(entry.paths.index_path.as_str()),
                    },
                    tree_name: tree_name.to_owned(),
                    ident_map,
                    has_crossref,
                },
            );
        }
        i = i + 1;
    }
    proof {
        assert(config.trees@.skip(n as int) =~= Seq::<TreeEntry>::empty());
    }
    let msg = String::from_str("bad tree name: ").concat(tree_name);
    Err(ServerError::sticky_bad_input(msg))
}

} // verus!
