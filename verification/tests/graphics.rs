use micromedia::graphics::{
    forbidden_by_user, has_drm_device, requested_by_user, setup, GlFacts, GlInfo, GlMode, Reason,
};

fn facts(mesa_told: bool, asked: Option<&str>, chosen_before: bool, device: bool) -> GlFacts {
    GlFacts { restarted: false, mesa_told, asked: asked.map(|s| s.to_string()), chosen_before, device }
}

#[test]
fn reasons_come_in_order() {
    let hard = GlMode { software: false, restarted: false };
    let soft = GlMode { software: true, restarted: false };
    assert_eq!(setup(&facts(true, Some("0"), true, false)), (soft, None));
    assert_eq!(setup(&facts(false, Some("0"), true, false)), (hard, None));
    assert_eq!(setup(&facts(false, Some("1"), true, false)), (soft, Some(Reason::Asked)));
    assert_eq!(setup(&facts(false, Some("x"), true, false)), (soft, Some(Reason::ChosenBefore)));
    assert_eq!(setup(&facts(false, None, false, false)), (soft, Some(Reason::NoDevice)));
    assert_eq!(setup(&facts(false, None, false, true)), (hard, None));
}

#[test]
fn there_is_one_restart_at_most() {
    let m = GlMode { software: false, restarted: false };
    assert!(m.can_fall_back(false));
    assert!(!m.can_fall_back(true));
    assert!(!GlMode { restarted: true, ..m }.can_fall_back(false));
    assert!(!GlMode { software: true, ..m }.can_fall_back(false));
}

#[test]
fn what_the_user_asks_for() {
    assert!(requested_by_user(&Some("1".to_string())));
    assert!(!requested_by_user(&Some("11".to_string())));
    assert!(forbidden_by_user(&Some("0".to_string())));
    assert!(!forbidden_by_user(&None));
}

#[test]
fn devices_by_name() {
    let names = |v: &[&str]| Some(v.iter().map(|s| s.to_string()).collect::<Vec<String>>());
    assert!(has_drm_device(&names(&["by-path", "card0"])));
    assert!(has_drm_device(&names(&["renderD128"])));
    assert!(!has_drm_device(&names(&["by-path", "rendernode"])));
    assert!(!has_drm_device(&None));
}

#[test]
fn broken_contexts() {
    let info = |r: &str| GlInfo { vendor: String::new(), renderer: r.to_string(), version: String::new() };
    assert!(info("").looks_broken());
    assert!(info("Zink Vulkan 1.3").looks_broken());
    assert!(!info("llvmpipe (LLVM 17)").looks_broken());
}
