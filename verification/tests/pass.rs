use loam::depth::DepthConvention;
use loam::pass::{ColorLoad, PassDecl, PassError, PassPhase, PassSchedule, PassStage};

fn probe(name: &'static str, stage: PassStage, convention: Option<DepthConvention>) -> PassDecl {
    PassDecl {
        name,
        stage,
        color_load: ColorLoad::Load,
        depth_convention: convention,
        depth_read: None,
    }
}

#[test]
fn a_pass_writing_depth_under_the_other_convention_is_refused_at_registration() {
    let mut schedule: PassSchedule<u32> = PassSchedule::new(DepthConvention::ReversedZ);
    let refused = schedule.register(
        0,
        probe("standard-z overlay", PassStage::Scene, Some(DepthConvention::StandardZ)),
    );
    assert_eq!(
        refused,
        Err(PassError::DepthConvention {
            pass: "standard-z overlay",
            declared: DepthConvention::StandardZ,
            frame: DepthConvention::ReversedZ,
        })
    );
    assert_eq!(schedule.names().len(), 0);
}

#[test]
fn a_stage_orders_a_pass_ahead_of_one_registered_before_it() {
    let mut schedule: PassSchedule<u32> = PassSchedule::new(DepthConvention::ReversedZ);
    schedule.register(1, probe("overlay", PassStage::Overlay, None)).unwrap();
    schedule.register(2, probe("scene", PassStage::Scene, None)).unwrap();
    schedule.register(3, probe("background", PassStage::Background, None)).unwrap();
    assert_eq!(schedule.names().to_vec(), ["background", "scene", "overlay"]);
    assert_eq!(*schedule.pass_at(0), 3);
}

#[test]
fn passes_of_one_stage_keep_their_registration_order() {
    let mut schedule: PassSchedule<u32> = PassSchedule::new(DepthConvention::StandardZ);
    schedule.register(1, probe("a", PassStage::Scene, None)).unwrap();
    schedule.register(2, probe("b", PassStage::Scene, None)).unwrap();
    schedule.register(3, probe("c", PassStage::Background, None)).unwrap();
    schedule.register(4, probe("d", PassStage::Scene, Some(DepthConvention::StandardZ))).unwrap();
    assert_eq!(schedule.names().to_vec(), ["c", "a", "b", "d"]);
    assert_eq!(schedule.stage_at(1), PassStage::Scene);
}

#[test]
fn depth_reads_and_color_clears_are_checked_too() {
    let mut schedule: PassSchedule<u32> = PassSchedule::new(DepthConvention::ReversedZ);
    let mut reader = probe("reader", PassStage::Overlay, None);
    reader.depth_read = Some(DepthConvention::StandardZ);
    assert_eq!(
        schedule.register(0, reader),
        Err(PassError::DepthRead {
            pass: "reader",
            declared: DepthConvention::StandardZ,
            frame: DepthConvention::ReversedZ,
        })
    );
    let mut clearer = probe("clearer", PassStage::Scene, None);
    clearer.color_load = ColorLoad::Clear;
    let error = schedule.register(0, clearer).unwrap_err();
    assert_eq!(error, PassError::ColorClear { pass: "clearer", stage: PassStage::Scene });
    assert_eq!(
        error.message(),
        "pass `clearer` clears the shared color target in the Scene stage; only Background clears it"
    );
    let mut sky = probe("sky", PassStage::Background, None);
    sky.color_load = ColorLoad::Clear;
    assert!(schedule.register(0, sky).is_ok());
}

#[test]
fn refusals_read_as_their_display_wrote_them() {
    let e = PassError::DepthConvention {
        pass: "p",
        declared: DepthConvention::StandardZ,
        frame: DepthConvention::ReversedZ,
    };
    assert_eq!(
        e.message(),
        "pass `p` writes depth under StandardZ; this frame compares under ReversedZ"
    );
    let e = PassError::DepthRead {
        pass: "q",
        declared: DepthConvention::ReversedZ,
        frame: DepthConvention::StandardZ,
    };
    assert_eq!(
        e.message(),
        "pass `q` reads depth under ReversedZ; this frame compares under StandardZ"
    );
    assert_eq!(PassPhase::Attach.label(), "attach");
    assert_eq!(PassPhase::Record.label(), "record");
}

#[test]
fn the_schedule_remembers_the_pass_that_failed_to_attach() {
    let mut schedule: PassSchedule<u32> = PassSchedule::new(DepthConvention::ReversedZ);
    assert_eq!(schedule.unattached(), None);
    schedule.set_unattached(Some("broken"));
    assert_eq!(schedule.unattached(), Some("broken"));
    assert_eq!(schedule.convention(), DepthConvention::ReversedZ);
}

use loam::pass::{check_backend, settle_pass, PassExecutionError};

#[test]
fn a_pending_device_error_before_a_pass_is_a_backend_failure() {
    assert_eq!(
        check_backend(Some("device lost".to_string())),
        Err(PassExecutionError::Backend { source: "device lost".to_string() })
    );
    assert_eq!(check_backend(None), Ok(()));
}

#[test]
fn a_device_error_raised_during_a_pass_is_charged_to_the_pass() {
    let outcome: Result<u32, String> = Ok(7);
    assert_eq!(
        settle_pass("grid", PassPhase::Record, Some("oom".to_string()), outcome),
        Err(PassExecutionError::Pass {
            pass: "grid",
            phase: PassPhase::Record,
            source: "oom".to_string()
        })
    );
    let failed: Result<u32, String> = Err("shader".to_string());
    assert_eq!(
        settle_pass("grid", PassPhase::Attach, None, failed),
        Err(PassExecutionError::Pass {
            pass: "grid",
            phase: PassPhase::Attach,
            source: "shader".to_string()
        })
    );
    let fine: Result<u32, String> = Ok(7);
    assert_eq!(settle_pass("grid", PassPhase::Record, None, fine), Ok(7));
}

#[test]
fn pass_execution_errors_read_as_their_display_text() {
    let failed = PassExecutionError::Pass {
        pass: "grid",
        phase: PassPhase::Attach,
        source: "no adapter".to_string(),
    };
    assert_eq!(failed.message(), "pass `grid` failed during attach: no adapter");
    let backend = PassExecutionError::Backend { source: "lost".to_string() };
    assert_eq!(backend.message(), "GPU work outside a pass failed: lost");
}

#[test]
fn the_passes_of_a_stage_sit_together() {
    let mut schedule: PassSchedule<u32> = PassSchedule::new(DepthConvention::ReversedZ);
    schedule.register(0, probe("scene a", PassStage::Scene, None)).unwrap();
    schedule.register(1, probe("overlay", PassStage::Overlay, None)).unwrap();
    schedule.register(2, probe("background", PassStage::Background, None)).unwrap();
    schedule.register(3, probe("scene b", PassStage::Scene, None)).unwrap();
    assert_eq!(schedule.stage_span(PassStage::Background), (0, 1));
    assert_eq!(schedule.stage_span(PassStage::Scene), (1, 3));
    assert_eq!(schedule.stage_span(PassStage::Overlay), (3, 4));
    let mut empty: PassSchedule<u32> = PassSchedule::new(DepthConvention::ReversedZ);
    empty.register(0, probe("overlay", PassStage::Overlay, None)).unwrap();
    assert_eq!(empty.stage_span(PassStage::Scene), (0, 0));
    assert_eq!(empty.stage_span(PassStage::Background), (0, 0));
}
