//! The persisted view state of the terminal list (`view.toml`): which task
//! is selected, which are collapsed, and the active type filter; and the
//! errors of finding bala's data and config directories.
//!
//! On disk ids are texts. Reading keeps the ids that parse and drops the
//! others (and repeats), so a damaged entry never costs the rest of the
//! file.

use vstd::prelude::*;

use crate::ids::TaskId;
use crate::text::{append_text, owned};
use crate::tui_app::{add_new_ids, added_ids};

verus! {

/// Errors resolving or preparing a bala data or config directory.
#[derive(Debug, Clone, PartialEq)]
pub enum ConfigError {
    NoDataDir,
    /// Creating the data directory failed, with the system's message.
    CreateDataDir(String),
    NoConfigDir,
    /// Creating the config directory failed, with the system's message.
    CreateConfigDir(String),
}

pub open spec fn config_error_message(e: ConfigError) -> Seq<char> {
    match e {
        ConfigError::NoDataDir => "could not determine a data directory for bala"@,
        ConfigError::CreateDataDir(m) => "failed to create data directory: "@ + m@,
        ConfigError::NoConfigDir => "could not determine a config directory for bala"@,
        ConfigError::CreateConfigDir(m) => "failed to create config directory: "@ + m@,
    }
}

impl ConfigError {
    /// The error's message.
    pub fn message(&self) -> (s: String)
        ensures
            s@ == config_error_message(*self),
    {
        match self {
            ConfigError::NoDataDir => owned("could not determine a data directory for bala"),
            ConfigError::CreateDataDir(m) => {
                let mut s = owned("failed to create data directory: ");
                append_text(&mut s, m.as_str());
                s
            },
            ConfigError::NoConfigDir => owned("could not determine a config directory for bala"),
            ConfigError::CreateConfigDir(m) => {
                let mut s = owned("failed to create config directory: ");
                append_text(&mut s, m.as_str());
                s
            },
        }
    }
}

/// What the terminal list restores at startup.
#[derive(Debug, Clone, PartialEq, Default)]
pub struct ViewState {
    pub selected: Option<TaskId>,
    /// Each collapsed task once.
    pub collapsed: Vec<TaskId>,
    /// The active type filter, if any.
    pub filter_type_key: Option<String>,
}

/// The id a text names, if it is one.
pub open spec fn parsed_id(text: Seq<char>) -> Option<TaskId> {
    match crate::ids::uuid_from_text(text) {
        Some(v) => Some(TaskId { value: v }),
        None => None,
    }
}

/// The ids among `texts` that parse, in order.
pub open spec fn parsed_ids(texts: Seq<Seq<char>>) -> Seq<TaskId>
    decreases texts.len(),
{
    if texts.len() == 0 {
        seq![]
    } else {
        match parsed_id(texts.last()) {
            Some(id) => parsed_ids(texts.drop_last()).push(id),
            None => parsed_ids(texts.drop_last()),
        }
    }
}

pub open spec fn text_views(v: Seq<String>) -> Seq<Seq<char>> {
    v.map_values(|s: String| s@)
}

/// The view state a `view.toml` holds, from its texts: the selection when
/// it parses, the collapsed ids that parse (each once, in order of first
/// mention), and the filter as it is.
pub fn view_state_from_texts(
    selected: Option<String>,
    collapsed: Vec<String>,
    filter_type_key: Option<String>,
) -> (s: ViewState)
    ensures
        s.selected == match selected {
            Some(t) => parsed_id(t@),
            None => None,
        },
        s.collapsed@ == added_ids(seq![], parsed_ids(text_views(collapsed@))),
        s.filter_type_key == filter_type_key,
{
    let sel = match &selected {
        Some(t) => TaskId::parse_text(t.as_str()),
        None => None,
    };
    let ghost tv = text_views(collapsed@);
    let mut ids: Vec<TaskId> = Vec::new();
    let mut i: usize = 0;
    while i < collapsed.len()
        invariant
            i <= collapsed.len(),
            tv == text_views(collapsed@),
            ids@ == parsed_ids(tv.subrange(0, i as int)),
        decreases collapsed.len() - i,
    {
        let ghost sub = tv.subrange(0, i + 1);
        assert(sub.drop_last() =~= tv.subrange(0, i as int));
        assert(sub.last() == collapsed@[i as int]@);
        if let Some(id) = TaskId::parse_text(collapsed[i].as_str()) {
            ids.push(id);
        }
        i = i + 1;
    }
    assert(tv.subrange(0, collapsed.len() as int) =~= tv);
    let mut once: Vec<TaskId> = Vec::new();
    add_new_ids(&mut once, &ids);
    ViewState { selected: sel, collapsed: once, filter_type_key }
}

/// The texts a `view.toml` records for `state`: the hyphenated ids.
pub fn view_state_texts(state: &ViewState) -> (r: (Option<String>, Vec<String>, Option<String>))
    ensures
        match state.selected {
            Some(id) => r.0 matches Some(t) && t@ == crate::text::hyphenated(id.value),
            None => r.0 is None,
        },
        text_views(r.1@) == state.collapsed@.map_values(|id: TaskId| crate::text::hyphenated(id.value)),
        r.2 == state.filter_type_key,
{
    let sel = match state.selected {
        Some(id) => Some(id.to_text()),
        None => None,
    };
    let mut texts: Vec<String> = Vec::new();
    let mut i: usize = 0;
    while i < state.collapsed.len()
        invariant
            i <= state.collapsed.len(),
            text_views(texts@) == state.collapsed@.subrange(0, i as int).map_values(
                |id: TaskId| crate::text::hyphenated(id.value),
            ),
        decreases state.collapsed.len() - i,
    {
        let t = state.collapsed[i].to_text();
        let ghost before = texts@;
        texts.push(t);
        proof {
            crate::store::lemma_map_push(before, t, |s: String| s@);
            crate::store::lemma_map_push(
                state.collapsed@.subrange(0, i as int),
                state.collapsed@[i as int],
                |id: TaskId| crate::text::hyphenated(id.value),
            );
            assert(state.collapsed@.subrange(0, i + 1) =~= state.collapsed@.subrange(0, i as int).push(
                state.collapsed@[i as int],
            ));
        }
        i = i + 1;
    }
    assert(state.collapsed@.subrange(0, state.collapsed.len() as int) =~= state.collapsed@);
    let filter = match &state.filter_type_key {
        Some(k) => Some(k.clone()),
        None => None,
    };
    (sel, texts, filter)
}

} // verus!
