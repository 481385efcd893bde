use migrate::catalog::{migration_file_names, reverse_files, select_migration_files};
use migrate::engine::{
    choose_action, get_executable_query_count, plan_apply, plan_rollback, resolve_rollback_count,
    Action, Args, EngineError,
};
use migrate::state::StateTable;
use migrate::Migrations;

fn names(v: &[&str]) -> Vec<String> {
    v.iter().map(|s| s.to_string()).collect()
}

// --- catalog ---------------------------------------------------------------

#[test]
fn test_select_migration_files() {
    let dir_entries = names(&[
        "test2_up.sql",
        "test1_down.sql",
        "test3_up.sql",
        "notes.txt",
        "test1_up.sql",
        "test3_down.sql",
        "test2_down.sql",
    ]);
    let ups = select_migration_files(&dir_entries, Migrations::UP);
    assert_eq!(ups, vec!["test1_up.sql", "test2_up.sql", "test3_up.sql"]);
    let downs = select_migration_files(&dir_entries, Migrations::DOWN);
    assert_eq!(
        downs,
        vec!["test1_down.sql", "test2_down.sql", "test3_down.sql"]
    );
}

#[test]
fn test_reverse_files() {
    let files = names(&["a_down.sql", "b_down.sql", "c_down.sql"]);
    let rev = reverse_files(&files);
    assert_eq!(rev, vec!["c_down.sql", "b_down.sql", "a_down.sql"]);
}

#[test]
fn test_migration_file_names() {
    let (up, down) = migration_file_names("2024-04-06", "1712403500");
    assert_eq!(up, "2024-04-06_1712403500_up.sql");
    assert_eq!(down, "2024-04-06_1712403500_down.sql");
}

// --- console dispatch -------------------------------------------------------

#[test]
fn test_choose_action() {
    let a = Args { create: true, init: true, rollback: 3 };
    assert_eq!(choose_action(&a), Action::CreateFiles);
    let a = Args { create: false, init: true, rollback: 3 };
    assert_eq!(choose_action(&a), Action::InitTable);
    let a = Args { create: false, init: false, rollback: 3 };
    assert_eq!(choose_action(&a), Action::Rollback { count: 3 });
    let a = Args { create: false, init: false, rollback: 0 };
    assert_eq!(choose_action(&a), Action::Migrate);
}

// --- rollback count --------------------------------------------------------

#[test]
fn test_get_executable_query_count() {
    let result = get_executable_query_count(100, 2);
    assert_eq!(result, 2);
    assert_eq!(get_executable_query_count(1, 2), 1);
    assert_eq!(get_executable_query_count(2, 2), 2);
}

#[test]
fn test_resolve_rollback_count() {
    assert_eq!(resolve_rollback_count(5, 2), Ok(2));
    assert_eq!(resolve_rollback_count(0, 2), Ok(0));
    assert_eq!(resolve_rollback_count(5, 0), Err(EngineError::NoTargets));
}

// --- state table -----------------------------------------------------------

#[test]
fn test_insert_migration() {
    let mut state = StateTable::new();
    let up_file = "2024-04-06_1712403500_up.sql".to_string();
    let down_file = "2024-04-06_1712403500_down.sql".to_string();
    state.insert(up_file, down_file);
    assert_eq!(state.count(), 1);
    assert_eq!(
        state.last_applied(Migrations::UP),
        Some("2024-04-06_1712403500_up.sql".to_string())
    );
    assert_eq!(
        state.last_applied(Migrations::DOWN),
        Some("2024-04-06_1712403500_down.sql".to_string())
    );
}

#[test]
fn test_remove_migration() {
    let mut state = StateTable::new();
    state.insert("a_up.sql".to_string(), "a_down.sql".to_string());
    state.insert("b_up.sql".to_string(), "b_down.sql".to_string());
    state.remove(&"a_down.sql".to_string());
    assert_eq!(state.count(), 1);
    assert_eq!(state.last_applied(Migrations::DOWN), Some("b_down.sql".to_string()));
    state.remove(&"not_present_down.sql".to_string());
    assert_eq!(state.count(), 1);
}

#[test]
fn test_get_last_migration() {
    let state = StateTable::new();
    assert_eq!(state.last_applied(Migrations::UP), None);
    assert_eq!(state.last_applied(Migrations::DOWN), None);
}

// --- apply planning --------------------------------------------------------

#[test]
fn test_apply_from_empty_state_records_all_in_order() {
    let ups = names(&["a_up.sql", "b_up.sql", "c_up.sql"]);
    let downs = names(&["a_down.sql", "b_down.sql", "c_down.sql"]);
    let mut state = StateTable::new();
    let last = state.last_applied(Migrations::UP);
    let plan = plan_apply(&last, &ups, &downs).unwrap();
    assert_eq!(plan.len(), 3);
    for batch in plan {
        assert_eq!(&batch.up_file[..1], &batch.down_file[..1]);
        state.insert(batch.up_file, batch.down_file);
    }
    assert_eq!(state.count(), 3);
    assert_eq!(state.last_applied(Migrations::UP), Some("c_up.sql".to_string()));
}

#[test]
fn test_apply_refused_on_count_mismatch() {
    let ups = names(&["a_up.sql", "b_up.sql"]);
    let downs = names(&["a_down.sql", "b_down.sql", "c_down.sql"]);
    let state = StateTable::new();
    let last = state.last_applied(Migrations::UP);
    let r = plan_apply(&last, &ups, &downs);
    assert_eq!(r.unwrap_err(), EngineError::CatalogMismatch);
    assert_eq!(state.count(), 0);
}

#[test]
fn test_resume_after_partial_apply() {
    let ups = names(&["a_up.sql", "b_up.sql", "c_up.sql"]);
    let downs = names(&["a_down.sql", "b_down.sql", "c_down.sql"]);
    let mut state = StateTable::new();
    state.insert("a_up.sql".to_string(), "a_down.sql".to_string());
    state.insert("b_up.sql".to_string(), "b_down.sql".to_string());

    let last = state.last_applied(Migrations::UP);
    let plan = plan_apply(&last, &ups, &downs).unwrap();
    assert_eq!(plan.len(), 1);
    assert_eq!(plan[0].up_file, "c_up.sql");
    assert_eq!(plan[0].down_file, "c_down.sql");
    state.insert(plan[0].up_file.clone(), plan[0].down_file.clone());

    let last = state.last_applied(Migrations::UP);
    let plan = plan_apply(&last, &ups, &downs).unwrap();
    assert!(plan.is_empty());
}

#[test]
fn test_apply_restarts_when_cursor_unknown() {
    let ups = names(&["a_up.sql", "b_up.sql"]);
    let downs = names(&["a_down.sql", "b_down.sql"]);
    let last = Some("gone_up.sql".to_string());
    let plan = plan_apply(&last, &ups, &downs).unwrap();
    assert_eq!(plan.len(), 2);
    assert_eq!(plan[0].up_file, "a_up.sql");
}

// --- rollback planning -----------------------------------------------------

#[test]
fn test_rollback_clamped_to_record_count() {
    let mut state = StateTable::new();
    state.insert("a_up.sql".to_string(), "a_down.sql".to_string());
    state.insert("b_up.sql".to_string(), "b_down.sql".to_string());
    let downs_desc = names(&["b_down.sql", "a_down.sql"]);

    let count = resolve_rollback_count(5, state.count()).unwrap();
    assert_eq!(count, 2);
    let last = state.last_applied(Migrations::DOWN);
    let plan = plan_rollback(&last, &downs_desc, count).unwrap();
    assert_eq!(plan, vec!["b_down.sql", "a_down.sql"]);
    for down in &plan {
        state.remove(down);
    }
    assert_eq!(state.count(), 0);
}

#[test]
fn test_rollback_of_zero_does_nothing() {
    let mut state = StateTable::new();
    state.insert("a_up.sql".to_string(), "a_down.sql".to_string());
    state.insert("b_up.sql".to_string(), "b_down.sql".to_string());
    let downs_desc = names(&["b_down.sql", "a_down.sql"]);

    let count = resolve_rollback_count(0, state.count()).unwrap();
    assert_eq!(count, 0);
    let last = state.last_applied(Migrations::DOWN);
    let plan = plan_rollback(&last, &downs_desc, count).unwrap();
    assert!(plan.is_empty());
    assert_eq!(state.count(), 2);
}

#[test]
fn test_rollback_refused_without_cursor() {
    let downs_desc = names(&["b_down.sql", "a_down.sql"]);
    let r = plan_rollback(&None, &downs_desc, 1);
    assert_eq!(r.unwrap_err(), EngineError::StateNotFound);

    let r = plan_rollback(&Some("gone_down.sql".to_string()), &downs_desc, 1);
    assert_eq!(r.unwrap_err(), EngineError::StateNotFound);
}

#[test]
fn test_rollback_refused_without_records() {
    let state = StateTable::new();
    let r = resolve_rollback_count(5, state.count());
    assert_eq!(r.unwrap_err(), EngineError::NoTargets);
}

#[test]
fn test_rollback_starts_at_cursor() {
    let downs_desc = names(&["c_down.sql", "b_down.sql", "a_down.sql"]);
    let last = Some("b_down.sql".to_string());
    let plan = plan_rollback(&last, &downs_desc, 5).unwrap();
    assert_eq!(plan, vec!["b_down.sql", "a_down.sql"]);
}

// --- round trip ------------------------------------------------------------

#[test]
fn test_round_trip_restores_empty_state() {
    let ups = names(&["a_up.sql", "b_up.sql", "c_up.sql"]);
    let downs = names(&["a_down.sql", "b_down.sql", "c_down.sql"]);
    let mut state = StateTable::new();

    for _cycle in 0..2 {
        let last = state.last_applied(Migrations::UP);
        let plan = plan_apply(&last, &ups, &downs).unwrap();
        assert_eq!(plan.len(), 3);
        for batch in plan {
            state.insert(batch.up_file, batch.down_file);
        }
        assert_eq!(state.count(), 3);

        let downs_desc = reverse_files(&downs);
        let last = state.last_applied(Migrations::DOWN);
        let count = resolve_rollback_count(3, state.count()).unwrap();
        let plan = plan_rollback(&last, &downs_desc, count).unwrap();
        assert_eq!(plan.len(), 3);
        for down in &plan {
            state.remove(down);
        }
        assert_eq!(state.count(), 0);
        assert_eq!(state.last_applied(Migrations::UP), None);
    }
}

// --- error messages ---------------------------------------------------------

#[test]
fn test_error_messages() {
    assert_eq!(
        EngineError::NoTargets.message(),
        "No targets available for rollback"
    );
    assert_eq!(
        EngineError::StateNotFound.message(),
        "Could not find the last migration ran"
    );
    assert_eq!(
        EngineError::CatalogMismatch.message(),
        "up and down migration file counts differ"
    );
}
