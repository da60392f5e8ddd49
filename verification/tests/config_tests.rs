use bala::config::{view_state_from_texts, view_state_texts, ConfigError, ViewState};
use bala::ids::TaskId;

fn id(text: &str) -> TaskId {
    TaskId::parse_text(text).expect("valid uuid")
}

#[test]
fn view_state_texts_round_trip_through_view_state_from_texts() {
    let state = ViewState {
        selected: Some(id("00000000-0000-0000-0000-000000000001")),
        collapsed: vec![
            id("00000000-0000-0000-0000-000000000002"),
            id("00000000-0000-0000-0000-000000000003"),
        ],
        filter_type_key: Some("goal".to_owned()),
    };

    let (selected, collapsed, filter) = view_state_texts(&state);
    assert_eq!(selected.as_deref(), Some("00000000-0000-0000-0000-000000000001"));
    let round_tripped = view_state_from_texts(selected, collapsed, filter);

    assert_eq!(round_tripped, state);
}

#[test]
fn view_state_from_texts_skips_unparseable_and_repeated_ids() {
    let state = view_state_from_texts(
        None,
        vec![
            "00000000-0000-0000-0000-000000000001".to_owned(),
            "not-a-uuid".to_owned(),
            "00000000-0000-0000-0000-000000000001".to_owned(),
        ],
        None,
    );
    assert_eq!(state.collapsed, vec![id("00000000-0000-0000-0000-000000000001")]);
    assert_eq!(state.selected, None);
}

#[test]
fn view_state_from_texts_drops_an_unparseable_selection() {
    let state = view_state_from_texts(Some("garbage".to_owned()), Vec::new(), None);
    assert_eq!(state.selected, None);
    assert!(state.collapsed.is_empty());
}

#[test]
fn config_error_messages() {
    assert_eq!(
        ConfigError::NoDataDir.message(),
        "could not determine a data directory for bala"
    );
    assert_eq!(
        ConfigError::CreateDataDir("denied".to_owned()).message(),
        "failed to create data directory: denied"
    );
    assert_eq!(
        ConfigError::NoConfigDir.message(),
        "could not determine a config directory for bala"
    );
    assert_eq!(
        ConfigError::CreateConfigDir("denied".to_owned()).message(),
        "failed to create config directory: denied"
    );
}
