use waysn::ipc::{IpcCommand, IpcResponse};
use waysn::wayland::{AppData, RampJob, DEFAULT_GAMMA_MILLIS, DEFAULT_TEMPERATURE};

fn names(v: &[&str]) -> Vec<String> {
    v.iter().map(|s| s.to_string()).collect()
}

/// A registry with the manager and two fully negotiated, named outputs.
fn two_outputs() -> AppData {
    let mut state = AppData::new();
    state.handle_global_manager();
    state.handle_global_output(1);
    state.handle_global_output(2);
    state.handle_output_name(1, "eDP-1".to_string());
    state.handle_output_name(2, "HDMI-A-1".to_string());
    state.handle_gamma_size(1, 256);
    state.handle_gamma_size(2, 1024);
    state
}

#[test]
fn fresh_output_has_baseline() {
    let mut state = AppData::new();
    let negotiate = state.handle_global_output(7);
    assert!(!negotiate);
    assert_eq!(state.outputs.len(), 1);
    assert_eq!(state.outputs[0].id, 7);
    assert_eq!(state.outputs[0].output_name, "");
    assert_eq!(state.outputs[0].ramp_size, 0);
    assert!(!state.outputs[0].has_gamma_control);
    assert_eq!(state.outputs[0].current_temperature, DEFAULT_TEMPERATURE);
    assert_eq!(state.outputs[0].current_gamma_millis, DEFAULT_GAMMA_MILLIS);
}

#[test]
fn negotiation_output_then_manager() {
    let mut state = AppData::new();
    let negotiate = state.handle_global_output(1);
    assert!(!negotiate);
    assert!(!state.outputs[0].has_gamma_control);
    let ids = state.handle_global_manager();
    assert_eq!(ids, vec![1]);
    assert!(state.outputs[0].has_gamma_control);
}

#[test]
fn negotiation_manager_then_output() {
    let mut state = AppData::new();
    let ids = state.handle_global_manager();
    assert!(ids.is_empty());
    let negotiate = state.handle_global_output(1);
    assert!(negotiate);
    assert!(state.outputs[0].has_gamma_control);
}

#[test]
fn negotiation_is_not_repeated() {
    let mut state = two_outputs();
    // A second negotiation request for an already-held session is a no-op.
    assert!(!state.assign_gamma_control_one(1));
    assert!(state.assign_gamma_control_all().is_empty());
    // An unknown output negotiates nothing.
    assert!(!state.assign_gamma_control_one(99));
}

#[test]
fn gamma_failed_clears_the_session_but_keeps_the_output() {
    let mut state = two_outputs();
    state.handle_gamma_failed(1);
    assert!(!state.outputs[0].has_gamma_control);
    assert_eq!(state.outputs.len(), 2);
    // The failed output is skipped by apply, the other still served.
    let jobs = state.apply_gamma_control(&names(&[]), 5000, 1000);
    assert_eq!(jobs, vec![RampJob { id: 2, ramp_size: 1024 }]);
}

#[test]
fn remove_reports_whether_a_session_was_held() {
    let mut state = two_outputs();
    assert!(state.handle_global_remove(1));
    assert_eq!(state.outputs.len(), 1);
    assert_eq!(state.outputs[0].id, 2);
    // Removing an unknown output changes nothing.
    assert!(!state.handle_global_remove(42));
    assert_eq!(state.outputs.len(), 1);
}

#[test]
fn apply_with_empty_filter_reaches_all_usable_outputs() {
    let mut state = two_outputs();
    let jobs = state.apply_gamma_control(&names(&[]), 4000, 1000);
    assert_eq!(
        jobs,
        vec![RampJob { id: 1, ramp_size: 256 }, RampJob { id: 2, ramp_size: 1024 }]
    );
    assert_eq!(state.outputs[0].current_temperature, 4000);
    assert_eq!(state.outputs[1].current_temperature, 4000);
}

#[test]
fn apply_with_filter_reaches_exactly_the_named_outputs() {
    let mut state = two_outputs();
    let jobs = state.apply_gamma_control(&names(&["HDMI-A-1"]), 3000, 1200);
    assert_eq!(jobs, vec![RampJob { id: 2, ramp_size: 1024 }]);
    assert_eq!(state.outputs[0].current_temperature, DEFAULT_TEMPERATURE);
    assert_eq!(state.outputs[1].current_temperature, 3000);
    assert_eq!(state.outputs[1].current_gamma_millis, 1200);
}

#[test]
fn apply_with_unknown_name_is_a_no_op() {
    let mut state = two_outputs();
    let jobs = state.apply_gamma_control(&names(&["DP-3"]), 3000, 1000);
    assert!(jobs.is_empty());
    assert_eq!(state.outputs[0].current_temperature, DEFAULT_TEMPERATURE);
    assert_eq!(state.outputs[1].current_temperature, DEFAULT_TEMPERATURE);
}

#[test]
fn apply_skips_outputs_still_negotiating() {
    let mut state = AppData::new();
    state.handle_global_manager();
    state.handle_global_output(1);
    state.handle_output_name(1, "eDP-1".to_string());
    // No GammaSize event yet: the output is matched but not usable.
    let jobs = state.apply_gamma_control(&names(&[]), 4000, 1000);
    assert!(jobs.is_empty());
    assert_eq!(state.outputs[0].current_temperature, DEFAULT_TEMPERATURE);
}

#[test]
fn apply_twice_equals_apply_once() {
    let mut once = two_outputs();
    once.apply_gamma_control(&names(&[]), 4500, 800);
    let mut twice = two_outputs();
    twice.apply_gamma_control(&names(&[]), 4500, 800);
    twice.apply_gamma_control(&names(&[]), 4500, 800);
    for (a, b) in once.outputs.iter().zip(twice.outputs.iter()) {
        assert_eq!(a.current_temperature, b.current_temperature);
        assert_eq!(a.current_gamma_millis, b.current_gamma_millis);
    }
}

#[test]
fn query_with_empty_filter_reports_all_outputs() {
    let mut state = two_outputs();
    state.apply_gamma_control(&names(&["eDP-1"]), 3500, 1000);
    let report = state.get_temperatures(&names(&[]));
    assert_eq!(
        report,
        vec![
            ("eDP-1".to_string(), 3500, 1000),
            ("HDMI-A-1".to_string(), DEFAULT_TEMPERATURE, DEFAULT_GAMMA_MILLIS),
        ]
    );
}

#[test]
fn query_includes_unnegotiated_outputs_at_baseline() {
    let mut state = AppData::new();
    state.handle_global_output(5);
    state.handle_output_name(5, "DP-2".to_string());
    let report = state.get_temperatures(&names(&[]));
    assert_eq!(report, vec![("DP-2".to_string(), DEFAULT_TEMPERATURE, DEFAULT_GAMMA_MILLIS)]);
}

#[test]
fn query_with_filter_reports_the_intersection() {
    let state = two_outputs();
    let report = state.get_temperatures(&names(&["HDMI-A-1", "DP-9"]));
    assert_eq!(
        report,
        vec![("HDMI-A-1".to_string(), DEFAULT_TEMPERATURE, DEFAULT_GAMMA_MILLIS)]
    );
    assert!(state.get_temperatures(&names(&["DP-9"])).is_empty());
}

#[test]
fn serialized_set_then_get_reports_the_new_temperature() {
    // Two commands arriving back to back: the later query observes the
    // fully applied effect of the earlier mutation.
    let mut state = two_outputs();
    let set = state.handle_command(IpcCommand::SetTemperature {
        kelvin: 4000,
        gamma_millis: 1000,
        outputs: names(&[]),
    });
    assert_eq!(set.response, IpcResponse::Success);
    assert!(!set.shutdown);
    assert_eq!(set.jobs.len(), 2);
    let get = state.handle_command(IpcCommand::GetTemperature { outputs: names(&[]) });
    assert!(!get.shutdown);
    match get.response {
        IpcResponse::Temperature { temperatures } => {
            assert_eq!(temperatures.len(), 2);
            for (_, kelvin, _) in temperatures {
                assert_eq!(kelvin, 4000);
            }
        }
        other => panic!("expected a temperature report, got {:?}", other),
    }
}

#[test]
fn command_for_a_removed_output_omits_it() {
    // An output disappears while a command naming it is still queued:
    // the command simply has no effect on it.
    let mut state = two_outputs();
    state.handle_global_remove(2);
    let outcome = state.handle_command(IpcCommand::SetTemperature {
        kelvin: 4000,
        gamma_millis: 1000,
        outputs: names(&["HDMI-A-1"]),
    });
    assert_eq!(outcome.response, IpcResponse::Success);
    assert!(outcome.jobs.is_empty());
    assert_eq!(state.outputs.len(), 1);
    assert_eq!(state.outputs[0].current_temperature, DEFAULT_TEMPERATURE);
}

#[test]
fn kill_acknowledges_and_requests_shutdown() {
    let mut state = two_outputs();
    let outcome = state.handle_command(IpcCommand::Kill {});
    assert_eq!(outcome.response, IpcResponse::Success);
    assert!(outcome.shutdown);
    assert!(outcome.jobs.is_empty());
}

#[test]
fn knows_output_tracks_the_registry() {
    let mut state = AppData::default();
    assert!(!state.knows_output(1));
    state.handle_global_output(1);
    assert!(state.knows_output(1));
    state.handle_global_remove(1);
    assert!(!state.knows_output(1));
}
