use dumpster::derive::{
    on_meta, on_trace_argument, plan, Action, Bounds, DeriveError, Level, Notes,
};

#[test]
fn entries_understood_on_the_aggregate() {
    assert_eq!(on_meta(Level::Container, "crate"), Action::ReadCratePath);
    assert_eq!(on_meta(Level::Container, "trace"), Action::ReadTraceArguments);
    assert_eq!(
        on_meta(Level::Container, "ignore"),
        Action::Reject(DeriveError::UnsupportedAttribute)
    );
    assert_eq!(on_meta(Level::Container, ""), Action::Reject(DeriveError::UnsupportedAttribute));
}

#[test]
fn entries_understood_on_a_field() {
    assert_eq!(on_meta(Level::Field, "trace"), Action::ReadTraceArguments);
    assert_eq!(on_meta(Level::Field, "crate"), Action::Reject(DeriveError::UnsupportedAttribute));
    assert_eq!(on_meta(Level::Field, "Trace"), Action::Reject(DeriveError::UnsupportedAttribute));
}

#[test]
fn only_ignore_may_stand_inside_trace() {
    assert_eq!(on_trace_argument(Level::Container, "ignore"), Ok(()));
    assert_eq!(on_trace_argument(Level::Field, "ignore"), Ok(()));
    assert_eq!(
        on_trace_argument(Level::Container, "skip"),
        Err(DeriveError::UnsupportedTraceAttribute)
    );
    assert_eq!(
        on_trace_argument(Level::Field, "skip"),
        Err(DeriveError::UnsupportedTraceArgument)
    );
}

#[test]
fn mistakes_are_reported_in_these_words() {
    assert_eq!(DeriveError::UnsupportedAttribute.message(), "unsupported attribute");
    assert_eq!(DeriveError::UnsupportedTraceAttribute.message(), "unsupported trace attribute");
    assert_eq!(
        DeriveError::UnsupportedTraceArgument.message(),
        "unsupported trace attribute argument"
    );
    assert_eq!(DeriveError::Malformed.message(), "malformed attribute");
}

#[test]
fn notes_keep_the_first_mistake() {
    let mut notes = Notes::new();
    assert!(notes.traced());
    assert_eq!(notes.trace_argument(Level::Field, "ignore"), Ok(()));
    assert!(!notes.traced());
    assert_eq!(
        notes.trace_argument(Level::Field, "other"),
        Err(DeriveError::UnsupportedTraceArgument)
    );
    notes.fail(DeriveError::UnsupportedTraceArgument);
    notes.fail(DeriveError::UnsupportedAttribute);
    assert_eq!(notes, Notes { ignored: true, failed: Some(DeriveError::UnsupportedTraceArgument) });
}

#[test]
fn plan_traces_the_fields_not_opted_out() {
    let container = Notes::new();
    let fields = vec![
        Notes { ignored: false, failed: None },
        Notes { ignored: true, failed: None },
        Notes { ignored: false, failed: None },
    ];
    let plan = plan(&container, &fields).ok().unwrap();
    assert_eq!(plan.bounds, Bounds::Fields);
    assert_eq!(plan.traced, vec![true, false, true]);
}

#[test]
fn plan_of_an_ignored_aggregate_traces_nothing() {
    let container = Notes { ignored: true, failed: None };
    let fields = vec![
        Notes { ignored: false, failed: Some(DeriveError::UnsupportedAttribute) },
        Notes { ignored: false, failed: None },
    ];
    let plan = plan(&container, &fields).ok().unwrap();
    assert_eq!(plan.bounds, Bounds::Nothing);
    assert_eq!(plan.traced, vec![false, false]);
}

#[test]
fn plan_reports_the_first_mistake() {
    let fields = vec![
        Notes { ignored: true, failed: None },
        Notes { ignored: false, failed: Some(DeriveError::UnsupportedTraceArgument) },
        Notes { ignored: false, failed: Some(DeriveError::UnsupportedAttribute) },
    ];
    assert_eq!(
        plan(&Notes::new(), &fields).err(),
        Some(DeriveError::UnsupportedTraceArgument)
    );
    let container = Notes { ignored: true, failed: Some(DeriveError::UnsupportedTraceAttribute) };
    assert_eq!(plan(&container, &fields).err(), Some(DeriveError::UnsupportedTraceAttribute));
}
