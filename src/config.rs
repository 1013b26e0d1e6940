//! Options of the plugin and the state that it keeps for a session.
use vstd::prelude::*;

use crate::listing::{load_listing, loaded_from, HistoryError};
use crate::rank::{
    gated, ids_of, lemma_ranked_ids_resolve, rank, ranked, search_term, smart_subsequence,
    MatchResult,
};
use crate::store::HistoryStore;

verus! {

/// Default cap on the number of results.
pub const DEFAULT_MAX_ENTRIES: usize = 10;

/// Default cap on the number of results.
pub fn max_entries() -> (r: usize)
    ensures
        r == DEFAULT_MAX_ENTRIES,
{
    DEFAULT_MAX_ENTRIES
}

/// Default history tool: `cliphist`, looked up on the search path.
pub fn cliphist_path() -> (r: String)
    ensures
        r@ == "cliphist"@,
{
    String::from_str("cliphist")
}

/// Default prefix: empty, so every query is searched.
pub fn prefix() -> (r: String)
    ensures
        r@ == Seq::<char>::empty(),
{
    String::new()
}

/// The recognised options.
pub struct Config {
    /// Most results returned for one query.
    pub max_entries: usize,
    /// Path of the history tool that lists and decodes entries.
    pub cliphist_path: String,
    /// Prefix that a query must start with to be searched here.
    pub prefix: String,
}

impl Default for Config {
    fn default() -> (r: Self)
        ensures
            r.max_entries == DEFAULT_MAX_ENTRIES,
            r.cliphist_path@ == "cliphist"@,
            r.prefix@ == Seq::<char>::empty(),
    {
        Config { max_entries: max_entries(), cliphist_path: cliphist_path(), prefix: prefix() }
    }
}

/// The plugin's state for one session: its options and the loaded history.
pub struct State {
    pub config: Config,
    pub history: HistoryStore,
}

impl State {
    /// Builds the state from the options and the outcome of the `list` command.
    pub fn init(config: Config, success: bool, code: Option<i32>, output: &Vec<u8>) -> (r: Result<
        State,
        HistoryError,
    >)
        ensures
            r is Ok <==> success,
            !success ==> r == Err::<State, HistoryError>(
                HistoryError::CommandExit(
                    match code {
                        Some(c) => c,
                        None => 1,
                    },
                ),
            ),
            r is Ok ==> r->Ok_0.config == config && loaded_from(r->Ok_0.history, output@),
    {
        match load_listing(success, code, output) {
            Ok(history) => Ok(State { config, history }),
            Err(e) => Err(e),
        }
    }

    /// The results for one query, under the configured cap and prefix.
    pub fn get_matches(&self, input: &str) -> (r: Vec<MatchResult>)
        requires
            self.history.wf(),
        ensures
            ranked(
                self.history@,
                input@,
                self.config.max_entries as nat,
                self.config.prefix@,
                ids_of(r@),
            ),
            r.len() <= self.config.max_entries,
            forall|k: int|
                0 <= k < r.len() ==> (#[trigger] r@[k]).id < self.history@.len() && r@[k].title@
                    == crate::text::title_of(self.history@[r@[k].id as int].content@),
            gated(input@, self.config.prefix@) && search_term(input@, self.config.prefix@).len()
                > 0 ==> forall|k: int|
                0 <= k < r.len() ==> smart_subsequence(
                    search_term(input@, self.config.prefix@),
                    self.history@[(#[trigger] r@[k]).id as int].content@,
                ),
    {
        rank(input, &self.history, self.config.max_entries, self.config.prefix.as_str())
    }

    /// A result that a query ranked, over a history loaded from a `list`
    /// output, has a decode request: its entry's key, a tab and a space.
    pub proof fn lemma_selection_decodes(self, output: Seq<u8>, input: Seq<char>, ids: Seq<usize>)
        requires
            loaded_from(self.history, output),
            ranked(
                self.history@,
                input,
                self.config.max_entries as nat,
                self.config.prefix@,
                ids,
            ),
        ensures
            forall|k: int|
                0 <= k < ids.len() ==> #[trigger] ids[k] < self.history@.len()
                    && self.history@[ids[k] as int].external_key is Some,
    {
        lemma_ranked_ids_resolve(
            self.history,
            input,
            self.config.max_entries as nat,
            self.config.prefix@,
            ids,
        );
    }

    /// The request to hand the decode command for a selected result.
    pub fn handler(&self, id: usize) -> (r: Option<String>)
        ensures
            r is Some <==> id < self.history@.len() && self.history@[id as int].external_key is Some,
            r is Some ==> r->0@ == self.history@[id as int].external_key->0@ + seq!['\t', ' '],
    {
        self.history.decode_request(id)
    }
}

} // verus!
