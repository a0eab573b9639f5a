//! Configuration rules.
use deltax2sort::app_config::{
    default_belt_speed, default_camera_fps, default_feed_rate, default_mm_per_px, default_z_max,
    default_z_min, AppConfig, Assignment, BinConfig, ConfigError, LoggingConfig,
};
use deltax2sort::float::{Float32, Float64};
use deltax2sort::hardware::Position;

fn f(x: f32) -> Float32 {
    Float32 { bits: x.to_bits() }
}

fn d(x: f64) -> Float64 {
    Float64 { bits: x.to_bits() }
}

fn bin(id: &str, x: f32, y: f32, z: f32) -> BinConfig {
    BinConfig { id: id.to_string(), x: f(x), y: f(y), z: f(z) }
}

fn assign(class: &str, bin: &str) -> Assignment {
    Assignment { class: class.to_string(), bin: bin.to_string() }
}

/// The error of a default configuration with one change.
fn error_of(change: impl Fn(&mut AppConfig)) -> ConfigError {
    let mut cfg = AppConfig::default();
    change(&mut cfg);
    cfg.validate().unwrap_err()
}

#[test]
fn default_config_is_valid() {
    let cfg = AppConfig::default();
    cfg.validate().unwrap();
    assert_eq!(cfg.robot.port_name, "/dev/ttyUSB0");
    assert_eq!(cfg.robot.baud_rate, 115200);
    assert!(cfg.robot.home_on_connect);
    assert_eq!(cfg.robot.x_min, f(-160.0));
    assert_eq!(cfg.robot.x_max, f(160.0));
    assert_eq!(cfg.robot.z_pick, f(-180.0));
    assert_eq!(cfg.robot.z_travel, f(-50.0));
    assert!(!cfg.robot.release_gripper_on_estop);
    assert_eq!(cfg.conveyor.port_name, "/dev/ttyUSB1");
    assert_eq!(cfg.conveyor.default_speed, 1000);
    assert_eq!((cfg.camera.width, cfg.camera.height), (1280, 720));
    assert_eq!(cfg.camera.fourcc, None);
    assert_eq!(cfg.sorting.drop_x, f(150.0));
    assert_eq!(cfg.sorting.drop_z, f(-100.0));
    assert_eq!(cfg.vision.threshold, d(60.0));
    assert_eq!(cfg.vision.min_area, d(500.0));
    assert_eq!(cfg.vision.max_area, d(10000.0));
    assert!(cfg.vision.invert);
}

#[test]
fn field_defaults() {
    assert_eq!(default_z_min(), f(-200.0));
    assert_eq!(default_z_max(), f(0.0));
    assert_eq!(default_feed_rate(), 15000);
    assert_eq!(default_belt_speed(), f(100.0));
    assert_eq!(default_camera_fps(), 30);
    assert_eq!(default_mm_per_px(), f(0.5));
}

#[test]
fn validate_rejects_z_pick_outside_z_range() {
    let mut cfg = AppConfig::default();
    cfg.robot.z_pick = f(-250.0); // below z_min (-200): physically unreachable
    assert!(cfg.validate().is_err());
}

#[test]
fn validate_rejects_nonpositive_mm_per_px() {
    let mut cfg = AppConfig::default();
    cfg.vision.mm_per_px = f(0.0);
    assert!(cfg.validate().is_err());
}

#[test]
fn validate_rejects_drop_position_outside_workspace() {
    let mut cfg = AppConfig::default();
    cfg.sorting.drop_x = f(500.0);
    assert!(cfg.validate().is_err());
}

#[test]
fn validate_rejects_zero_feed_rate() {
    let mut cfg = AppConfig::default();
    cfg.robot.feed_rate = 0; // would emit F0 and stall every move
    assert!(cfg.validate().is_err());
}

#[test]
fn logging_defaults_are_sane() {
    let lg = AppConfig::default().logging;
    assert_eq!(lg.level, "info");
    assert_eq!(lg.directory, "logs");
    assert!(lg.to_console);
    assert_eq!(lg.keep_days, 7);
}

#[test]
fn validate_rejects_bad_logging_level_and_empty_directory() {
    let mut cfg = AppConfig::default();
    cfg.logging.level = "not a level".to_string();
    assert!(cfg.validate().is_err());

    let mut cfg = AppConfig::default();
    cfg.logging.directory = "   ".to_string();
    assert!(cfg.validate().is_err());

    // A per-module spec (used to trace G-code) stays valid.
    let mut cfg = AppConfig::default();
    cfg.logging.level = "info,deltax2sort=debug".to_string();
    assert!(cfg.validate().is_ok());
}

#[test]
fn validate_rejects_zero_baud_rate() {
    let mut cfg = AppConfig::default();
    cfg.robot.baud_rate = 0;
    assert!(cfg.validate().is_err());
    let mut cfg = AppConfig::default();
    cfg.conveyor.baud_rate = 0;
    assert!(cfg.validate().is_err());
}

#[test]
fn validate_rejects_non_finite_belt_speed() {
    let mut cfg = AppConfig::default();
    cfg.conveyor.speed_mm_s = f(f32::NAN);
    assert!(cfg.validate().is_err());
    cfg.conveyor.speed_mm_s = f(f32::INFINITY);
    assert!(cfg.validate().is_err());
}

#[test]
fn validate_rejects_negative_min_area() {
    let mut cfg = AppConfig::default();
    cfg.vision.min_area = d(-1.0);
    assert!(cfg.validate().is_err());
}

#[test]
fn validate_rejects_workspace_beyond_physical_envelope() {
    let mut cfg = AppConfig::default();
    cfg.robot.x_max = f(1600.0); // typo: 10x the real envelope
    assert!(cfg.validate().is_err());
    let mut cfg = AppConfig::default();
    cfg.robot.z_min = f(-500.0); // below the -200 mm floor
    assert!(cfg.validate().is_err());
}

#[test]
fn every_rule_has_its_error() {
    assert_eq!(error_of(|c| c.robot.x_min = f(160.0)), ConfigError::XBounds);
    assert_eq!(error_of(|c| c.robot.x_min = f(f32::NAN)), ConfigError::XBounds);
    assert_eq!(error_of(|c| c.robot.y_max = f(-160.0)), ConfigError::YBounds);
    assert_eq!(error_of(|c| c.robot.z_max = f(-200.0)), ConfigError::ZBounds);
    assert_eq!(error_of(|c| c.robot.z_pick = f(-200.5)), ConfigError::PickHeight);
    assert_eq!(error_of(|c| c.robot.z_travel = f(0.5)), ConfigError::TravelHeight);
    assert_eq!(error_of(|c| c.robot.z_travel = f(-180.0)), ConfigError::TravelNotAbovePick);
    assert_eq!(error_of(|c| c.robot.x_max = f(160.5)), ConfigError::XEnvelope);
    assert_eq!(error_of(|c| c.robot.y_min = f(-161.0)), ConfigError::YEnvelope);
    assert_eq!(error_of(|c| c.robot.z_max = f(1.0)), ConfigError::ZEnvelope);
    assert_eq!(error_of(|c| c.robot.baud_rate = 0), ConfigError::RobotBaudRate);
    assert_eq!(error_of(|c| c.robot.feed_rate = 0), ConfigError::FeedRate);
    assert_eq!(error_of(|c| c.conveyor.baud_rate = 0), ConfigError::ConveyorBaudRate);
    assert_eq!(
        error_of(|c| c.conveyor.speed_mm_s = f(f32::NEG_INFINITY)),
        ConfigError::BeltSpeed
    );
    assert_eq!(error_of(|c| c.sorting.drop_z = f(1.0)), ConfigError::DropPosition);
    assert_eq!(
        error_of(|c| c.sorting.bins = vec![bin("a", 0.0, 0.0, -10.0), bin("b", 0.0, 161.0, -10.0)]),
        ConfigError::BinPosition(1)
    );
    assert_eq!(error_of(|c| c.camera.width = 0), ConfigError::Resolution);
    assert_eq!(error_of(|c| c.camera.height = 0), ConfigError::Resolution);
    assert_eq!(error_of(|c| c.camera.fps = 0), ConfigError::FrameRate);
    assert_eq!(
        error_of(|c| c.camera.fourcc = Some("MJP".to_string())),
        ConfigError::Fourcc
    );
    assert_eq!(
        error_of(|c| c.camera.fourcc = Some("éJP".to_string())),
        ConfigError::Fourcc
    );
    assert_eq!(error_of(|c| c.vision.mm_per_px = f(-0.5)), ConfigError::Scale);
    assert_eq!(error_of(|c| c.vision.mm_per_px = f(f32::INFINITY)), ConfigError::Scale);
    assert_eq!(error_of(|c| c.vision.threshold = d(255.5)), ConfigError::Threshold);
    assert_eq!(error_of(|c| c.vision.threshold = d(f64::NAN)), ConfigError::Threshold);
    assert_eq!(error_of(|c| c.vision.max_area = d(f64::INFINITY)), ConfigError::AreaLimits);
    assert_eq!(error_of(|c| c.vision.min_area = d(10000.0)), ConfigError::AreaOrder);
    assert_eq!(
        error_of(|c| c.logging.directory = " \t\n".to_string()),
        ConfigError::LogDirectory
    );
    assert_eq!(
        error_of(|c| c.logging.level = "info,a=b=c".to_string()),
        ConfigError::LogLevel
    );
}

#[test]
fn the_first_broken_rule_is_the_one_named() {
    let mut cfg = AppConfig::default();
    cfg.logging.level = "not a level".to_string();
    cfg.camera.fps = 0;
    assert_eq!(cfg.validate(), Err(ConfigError::FrameRate));
    cfg.robot.x_min = f(200.0);
    assert_eq!(cfg.validate(), Err(ConfigError::XBounds));
}

#[test]
fn validation_with_a_given_level_verdict() {
    let cfg = AppConfig::default();
    assert_eq!(cfg.validate_with(true), Ok(()));
    assert_eq!(cfg.validate_with(false), Err(ConfigError::LogLevel));
}

#[test]
fn level_specs_go_to_the_logger() {
    for good in ["info", "DEBUG", "", "  info\t", "   ", "some_module", "warn, deltax2sort = trace", "info/regex.*"] {
        let mut cfg = AppConfig::default();
        cfg.logging = LoggingConfig { level: good.to_string(), ..LoggingConfig::default() };
        assert_eq!(cfg.validate(), Ok(()), "{good:?}");
    }
    for bad in ["two words", "deltax2sort=loud", "a/b/c", "info/(", "a=b=c"] {
        let mut cfg = AppConfig::default();
        cfg.logging.level = bad.to_string();
        assert_eq!(cfg.validate(), Err(ConfigError::LogLevel), "{bad:?}");
    }
}

#[test]
fn every_entry_of_a_level_list_counts() {
    let verdict = |level: &str| {
        let mut cfg = AppConfig::default();
        cfg.logging.level = level.to_string();
        cfg.validate()
    };
    for level in ["off", "error", "warn", "info", "debug", "trace", "TRACE", "Off"] {
        assert_eq!(verdict(&format!("module={level}")), Ok(()));
    }
    for good in [",", "info,,", "a=", "=", "=info", " a = info , b\t", "\u{2003}a,é=warn", "é"] {
        assert_eq!(verdict(good), Ok(()), "{good:?}");
    }
    for bad in ["a=5", "a=in fo", "a b=info", "info,a=b", "a==", "a=info=", "a,b c,d", "//", "/a/"] {
        assert_eq!(verdict(bad), Err(ConfigError::LogLevel), "{bad:?}");
    }
}

#[test]
fn a_bin_on_the_edge_of_the_workspace_is_taken() {
    let mut cfg = AppConfig::default();
    cfg.sorting.bins = vec![bin("edge", 160.0, -160.0, -200.0)];
    assert_eq!(cfg.validate(), Ok(()));
}

#[test]
fn classes_go_to_the_bin_they_are_assigned_to() {
    let mut cfg = AppConfig::default();
    cfg.sorting.bins = vec![
        bin("left", -120.0, 0.0, -100.0),
        bin("right", 120.0, 0.0, -100.0),
        bin("left", 1.0, 2.0, -3.0), // the first bin of an id counts
    ];
    cfg.sorting.assignments = vec![
        assign("red", "left"),
        assign("blue", "left"),
        assign("green", "nowhere"),
        assign("blue", "right"), // the last assignment of a class counts
    ];
    let drops = cfg.sorting.class_drop_positions();
    assert_eq!(drops.len(), 2);
    let of = |class: &str| drops.iter().find(|(c, _)| c == class).map(|(_, p)| *p);
    assert_eq!(of("red"), Some(Position { x: f(-120.0), y: f(0.0), z: f(-100.0) }));
    assert_eq!(of("blue"), Some(Position { x: f(120.0), y: f(0.0), z: f(-100.0) }));
    assert_eq!(of("green"), None);
}
