//! Configuration, and the rules that keep it from commanding the robot
//! outside its workspace.
use crate::float::{Float32, Float64};
use crate::hardware::{between, Position, WorkspaceLimits};
use crate::text::{lowered, same_text, trim, trimmed, white_space};
use crate::vision::ClassName;
use vstd::prelude::*;

verus! {

pub struct AppConfig {
    pub robot: RobotConfig,
    pub conveyor: ConveyorConfig,
    pub camera: CameraConfig,
    pub sorting: SortingConfig,
    pub vision: VisionConfig,
    pub logging: LoggingConfig,
}

pub struct RobotConfig {
    pub port_name: String,
    pub baud_rate: u32,
    pub home_on_connect: bool,
    pub x_min: Float32,
    pub x_max: Float32,
    pub y_min: Float32,
    pub y_max: Float32,
    pub z_min: Float32,
    pub z_max: Float32,
    pub z_pick: Float32,
    pub z_travel: Float32,
    /// G-code feed rate in mm/min (F parameter of G01).
    pub feed_rate: u32,
    /// Whether an emergency stop should open the gripper (M05 sent just before
    /// M112 on the E-stop halt sequence). By default a held part stays held,
    /// so parts are not dropped at an arbitrary position.
    pub release_gripper_on_estop: bool,
}

pub struct ConveyorConfig {
    pub port_name: String,
    pub baud_rate: u32,
    /// Raw S-value sent with the M3 start command.
    pub default_speed: u32,
    /// Belt speed in robot coordinates, mm/s. Signed: positive means objects
    /// travel toward +Y.
    pub speed_mm_s: Float32,
}

pub struct CameraConfig {
    pub device_id: i32,
    /// Requested capture resolution. The camera may pick the nearest mode it
    /// supports.
    pub width: u32,
    pub height: u32,
    /// Requested capture frame rate.
    pub fps: u32,
    /// Optional pixel-format FOURCC (e.g. "MJPG"). None = driver default.
    pub fourcc: Option<String>,
}

/// A place where sorted parts are dropped, in robot coordinates (mm).
pub struct BinConfig {
    pub id: String,
    pub x: Float32,
    pub y: Float32,
    pub z: Float32,
}

/// Parts of `class` go to the bin with id `bin`.
pub struct Assignment {
    pub class: ClassName,
    pub bin: String,
}

pub struct SortingConfig {
    pub drop_x: Float32,
    pub drop_y: Float32,
    pub drop_z: Float32,
    pub bins: Vec<BinConfig>,
    pub assignments: Vec<Assignment>,
}

pub struct VisionConfig {
    /// Fixed binary threshold (0-255) applied after grayscale and blur.
    pub threshold: Float64,
    /// Contour area limits in square pixels for a blob to count as an object.
    pub min_area: Float64,
    pub max_area: Float64,
    /// true: objects darker than the belt; false: lighter.
    pub invert: bool,
    /// Camera scale in mm per pixel at the belt plane.
    pub mm_per_px: Float32,
}

/// Logging to a daily-rotating file plus, optionally, the console.
pub struct LoggingConfig {
    /// Level spec in the `RUST_LOG` grammar: a bare level (`"info"`) or a
    /// per-module filter (`"info,deltax2sort=debug"`).
    pub level: String,
    /// Directory the log files are written to (created if absent).
    pub directory: String,
    /// Also mirror log records to stderr.
    pub to_console: bool,
    /// How many rotated daily files to keep. 0 keeps them all.
    pub keep_days: u16,
}

/// The first rule that a configuration breaks.
#[derive(Clone, Copy, Debug, PartialEq, Eq, Structural)]
pub enum ConfigError {
    /// `robot.x_min` is not below `robot.x_max`.
    XBounds,
    /// `robot.y_min` is not below `robot.y_max`.
    YBounds,
    /// `robot.z_min` is not below `robot.z_max`.
    ZBounds,
    /// `robot.z_pick` is outside the Z range.
    PickHeight,
    /// `robot.z_travel` is outside the Z range.
    TravelHeight,
    /// `robot.z_travel` is not above `robot.z_pick`.
    TravelNotAbovePick,
    /// The X bounds exceed the physical envelope.
    XEnvelope,
    /// The Y bounds exceed the physical envelope.
    YEnvelope,
    /// The Z bounds exceed the physical envelope.
    ZEnvelope,
    /// `robot.baud_rate` is zero.
    RobotBaudRate,
    /// `robot.feed_rate` is zero (F0 would stall every move).
    FeedRate,
    /// `conveyor.baud_rate` is zero.
    ConveyorBaudRate,
    /// `conveyor.speed_mm_s` is not finite.
    BeltSpeed,
    /// The drop position is outside the robot workspace.
    DropPosition,
    /// A bin, by its place in the list, is outside the robot workspace.
    BinPosition(usize),
    /// The camera resolution is zero.
    Resolution,
    /// `camera.fps` is zero.
    FrameRate,
    /// `camera.fourcc` is not a 4-character ASCII code.
    Fourcc,
    /// `vision.mm_per_px` is not a finite value above zero.
    Scale,
    /// `vision.threshold` is not within 0-255.
    Threshold,
    /// `vision.min_area` or `vision.max_area` is not finite, or the former is
    /// negative.
    AreaLimits,
    /// `vision.min_area` is not below `vision.max_area`.
    AreaOrder,
    /// `logging.directory` is empty.
    LogDirectory,
    /// `logging.level` is not a valid level spec.
    LogLevel,
}

pub fn default_z_min() -> (r: Float32)
    ensures
        r == Float32::nearest(-200, 1),
{
    Float32::of(-200)
}

pub fn default_z_max() -> (r: Float32)
    ensures
        r == Float32::nearest(0, 1),
{
    Float32::of(0)
}

pub fn default_feed_rate() -> (r: u32)
    ensures
        r == 15000,
{
    15000
}

pub fn default_belt_speed() -> (r: Float32)
    ensures
        r == Float32::nearest(100, 1),
{
    Float32::of(100)
}

pub fn default_camera_fps() -> (r: u32)
    ensures
        r == 30,
{
    30
}

pub fn default_mm_per_px() -> (r: Float32)
    ensures
        r == Float32::nearest(1, 2),
{
    Float32::ratio(1, 2)
}

impl LoggingConfig {
    pub open spec fn is_default(self) -> bool {
        &&& self.level@ == "info"@
        &&& self.directory@ == "logs"@
        &&& self.to_console
        &&& self.keep_days == 7
    }
}

impl Default for LoggingConfig {
    fn default() -> (r: Self)
        ensures
            r.is_default(),
    {
        LoggingConfig {
            level: "info".to_owned(),
            directory: "logs".to_owned(),
            to_console: true,
            keep_days: 7,
        }
    }
}

impl SortingConfig {
    pub open spec fn is_default(self) -> bool {
        &&& self.drop_x == Float32::nearest(150, 1)
        &&& self.drop_y == Float32::nearest(0, 1)
        &&& self.drop_z == Float32::nearest(-100, 1)
        &&& self.bins@.len() == 0
        &&& self.assignments@.len() == 0
    }
}

impl Default for SortingConfig {
    fn default() -> (r: Self)
        ensures
            r.is_default(),
    {
        SortingConfig {
            drop_x: Float32::of(150),
            drop_y: Float32::of(0),
            drop_z: Float32::of(-100),
            bins: Vec::new(),
            assignments: Vec::new(),
        }
    }
}

impl VisionConfig {
    pub open spec fn is_default(self) -> bool {
        &&& self.threshold == Float64::nearest(60, 1)
        &&& self.min_area == Float64::nearest(500, 1)
        &&& self.max_area == Float64::nearest(10000, 1)
        &&& self.invert
        &&& self.mm_per_px == Float32::nearest(1, 2)
    }
}

impl Default for VisionConfig {
    fn default() -> (r: Self)
        ensures
            r.is_default(),
    {
        VisionConfig {
            threshold: Float64::of(60),
            min_area: Float64::of(500),
            max_area: Float64::of(10000),
            invert: true,
            mm_per_px: default_mm_per_px(),
        }
    }
}

impl RobotConfig {
    pub open spec fn limits(self) -> WorkspaceLimits {
        WorkspaceLimits {
            x_min: self.x_min,
            x_max: self.x_max,
            y_min: self.y_min,
            y_max: self.y_max,
            z_min: self.z_min,
            z_max: self.z_max,
        }
    }

    pub open spec fn is_default(self) -> bool {
        &&& self.port_name@ == "/dev/ttyUSB0"@
        &&& self.baud_rate == 115200
        &&& self.home_on_connect
        &&& self.limits() == WorkspaceLimits::delta_x2()
        &&& self.z_pick == Float32::nearest(-180, 1)
        &&& self.z_travel == Float32::nearest(-50, 1)
        &&& self.feed_rate == 15000
        &&& !self.release_gripper_on_estop
    }

    pub fn workspace_limits(&self) -> (r: WorkspaceLimits)
        ensures
            r == self.limits(),
    {
        WorkspaceLimits {
            x_min: self.x_min,
            x_max: self.x_max,
            y_min: self.y_min,
            y_max: self.y_max,
            z_min: self.z_min,
            z_max: self.z_max,
        }
    }
}

impl AppConfig {
    pub open spec fn is_default(self) -> bool {
        &&& self.robot.is_default()
        &&& self.conveyor.port_name@ == "/dev/ttyUSB1"@
        &&& self.conveyor.baud_rate == 115200
        &&& self.conveyor.default_speed == 1000
        &&& self.conveyor.speed_mm_s == Float32::nearest(100, 1)
        &&& self.camera == (CameraConfig {
            device_id: 0,
            width: 1280,
            height: 720,
            fps: 30,
            fourcc: None,
        })
        &&& self.sorting.is_default()
        &&& self.vision.is_default()
        &&& self.logging.is_default()
    }
}

impl Default for AppConfig {
    fn default() -> (r: Self)
        ensures
            r.is_default(),
    {
        AppConfig {
            robot: RobotConfig {
                port_name: "/dev/ttyUSB0".to_owned(),
                baud_rate: 115200,
                home_on_connect: true,
                x_min: Float32::of(-160),
                x_max: Float32::of(160),
                y_min: Float32::of(-160),
                y_max: Float32::of(160),
                z_min: default_z_min(),
                z_max: default_z_max(),
                z_pick: Float32::of(-180),
                z_travel: Float32::of(-50),
                feed_rate: default_feed_rate(),
                release_gripper_on_estop: false,
            },
            conveyor: ConveyorConfig {
                port_name: "/dev/ttyUSB1".to_owned(),
                baud_rate: 115200,
                default_speed: 1000,
                speed_mm_s: default_belt_speed(),
            },
            camera: CameraConfig {
                device_id: 0,
                width: 1280,
                height: 720,
                fps: default_camera_fps(),
                fourcc: None,
            },
            sorting: SortingConfig::default(),
            vision: VisionConfig::default(),
            logging: LoggingConfig::default(),
        }
    }
}

// --- Where each class goes ---

impl BinConfig {
    pub open spec fn place(self) -> Position {
        Position { x: self.x, y: self.y, z: self.z }
    }

    pub fn position(&self) -> (r: Position)
        ensures
            r == self.place(),
    {
        Position { x: self.x, y: self.y, z: self.z }
    }
}

/// Bin `i` is the first with the given id.
pub open spec fn is_bin(bins: Seq<BinConfig>, id: Seq<char>, i: int) -> bool {
    &&& 0 <= i < bins.len()
    &&& bins[i].id@ == id
    &&& forall|j: int| #![trigger bins[j]] 0 <= j < i ==> bins[j].id@ != id
}

pub open spec fn bin_place(bins: Seq<BinConfig>, id: Seq<char>) -> Option<Position> {
    if exists|i: int| is_bin(bins, id, i) {
        Some(bins[choose|i: int| is_bin(bins, id, i)].place())
    } else {
        None
    }
}

/// Where each class is dropped by the first `n` assignments: an assignment to
/// a bin that does not exist says nothing, and a later one of the same class
/// wins.
pub open spec fn drops_to(
    bins: Seq<BinConfig>,
    assignments: Seq<Assignment>,
    n: int,
) -> Map<Seq<char>, Position>
    decreases n,
{
    if n <= 0 {
        Map::empty()
    } else {
        let m = drops_to(bins, assignments, n - 1);
        let a = assignments[n - 1];
        match bin_place(bins, a.bin@) {
            Some(p) => m.insert(a.class@, p),
            None => m,
        }
    }
}

/// A list of drop positions by class, each class at most once.
pub open spec fn distinct_classes(list: Seq<(ClassName, Position)>) -> bool {
    forall|i: int, j: int| #![trigger list[i], list[j]]
        0 <= i < j < list.len() ==> list[i].0@ != list[j].0@
}

/// What such a list says.
pub open spec fn lists(list: Seq<(ClassName, Position)>, m: Map<Seq<char>, Position>) -> bool {
    &&& forall|i: int| #![trigger list[i]]
        0 <= i < list.len() ==> m.contains_key(list[i].0@) && m[list[i].0@] == list[i].1
    &&& forall|c: Seq<char>| #[trigger]
        m.contains_key(c) ==> exists|i: int| #![trigger list[i]]
            0 <= i < list.len() && list[i].0@ == c
}

fn find_bin(bins: &Vec<BinConfig>, id: &str) -> (r: Option<Position>)
    ensures
        r == bin_place(bins@, id@),
{
    let mut i: usize = 0;
    while i < bins.len()
        invariant
            i <= bins.len(),
            forall|j: int| #![trigger bins@[j]] 0 <= j < i ==> bins@[j].id@ != id@,
        decreases bins.len() - i,
    {
        if same_text(bins[i].id.as_str(), id) {
            assert(is_bin(bins@, id@, i as int));
            proof {
                let c = choose|i: int| is_bin(bins@, id@, i);
                assert(is_bin(bins@, id@, c));
                if c < i {
                    assert(bins@[c].id@ != id@);
                }
                if i < c {
                    assert(bins@[i as int].id@ != id@);
                }
            }
            return Some(bins[i].position());
        }
        i = i + 1;
    }
    assert forall|i: int| !is_bin(bins@, id@, i) by {
        if 0 <= i < bins@.len() {
            assert(bins@[i].id@ != id@);
        }
    }
    None
}

impl SortingConfig {
    pub open spec fn drops(self) -> Map<Seq<char>, Position> {
        drops_to(self.bins@, self.assignments@, self.assignments@.len() as int)
    }

    /// The drop position of every class that is assigned to an existing bin.
    pub fn class_drop_positions(&self) -> (r: Vec<(ClassName, Position)>)
        ensures
            distinct_classes(r@),
            lists(r@, self.drops()),
    {
        let mut r: Vec<(ClassName, Position)> = Vec::new();
        let mut n: usize = 0;
        while n < self.assignments.len()
            invariant
                n <= self.assignments.len(),
                distinct_classes(r@),
                lists(r@, drops_to(self.bins@, self.assignments@, n as int)),
            decreases self.assignments.len() - n,
        {
            let a = &self.assignments[n];
            let ghost before = r@;
            let ghost m = drops_to(self.bins@, self.assignments@, n as int);
            match find_bin(&self.bins, a.bin.as_str()) {
                Some(p) => {
                    let mut k: usize = 0;
                    while k < r.len() && !same_text(r[k].0.as_str(), a.class.as_str())
                        invariant
                            k <= r.len(),
                            r@ == before,
                            forall|j: int| #![trigger r@[j]]
                                0 <= j < k ==> r@[j].0@ != a.class@,
                        decreases r.len() - k,
                    {
                        k = k + 1;
                    }
                    if k < r.len() {
                        r.set(k, (a.class.clone(), p));
                        proof {
                            let after = r@;
                            assert forall|c: Seq<char>| #[trigger]
                                m.insert(a.class@, p).contains_key(c) implies exists|i: int|
                                #![trigger after[i]]
                                0 <= i < after.len() && after[i].0@ == c by {
                                if c == a.class@ {
                                    assert(after[k as int].0@ == c);
                                } else {
                                    assert(m.contains_key(c));
                                    let i = choose|i: int| #![trigger before[i]]
                                        0 <= i < before.len() && before[i].0@ == c;
                                    assert(after[i].0@ == c);
                                }
                            }
                            assert forall|i: int| #![trigger after[i]]
                                0 <= i < after.len() implies m.insert(
                                a.class@,
                                p,
                            ).contains_key(after[i].0@) && m.insert(a.class@, p)[after[i].0@]
                                == after[i].1 by {
                                if i != k {
                                    assert(after[i] == before[i]);
                                    assert(before[k as int].0@ == a.class@);
                                    if i < k {
                                        assert(before[i].0@ != before[k as int].0@);
                                    } else {
                                        assert(before[k as int].0@ != before[i].0@);
                                    }
                                }
                            }
                        }
                    } else {
                        r.push((a.class.clone(), p));
                        proof {
                            let after = r@;
                            assert forall|c: Seq<char>| #[trigger]
                                m.insert(a.class@, p).contains_key(c) implies exists|i: int|
                                #![trigger after[i]]
                                0 <= i < after.len() && after[i].0@ == c by {
                                if c == a.class@ {
                                    assert(after[before.len() as int].0@ == c);
                                } else {
                                    assert(m.contains_key(c));
                                    let i = choose|i: int| #![trigger before[i]]
                                        0 <= i < before.len() && before[i].0@ == c;
                                    assert(after[i].0@ == c);
                                }
                            }
                            assert forall|i: int| #![trigger after[i]]
                                0 <= i < after.len() implies m.insert(
                                a.class@,
                                p,
                            ).contains_key(after[i].0@) && m.insert(a.class@, p)[after[i].0@]
                                == after[i].1 by {
                                if i < before.len() {
                                    assert(after[i] == before[i]);
                                }
                            }
                        }
                    }
                },
                None => {},
            }
            n = n + 1;
        }
        r
    }
}

// --- Validation ---

/// `vision.threshold` and the area limits.
pub open spec fn vision_error(v: VisionConfig) -> Option<ConfigError> {
    if !(v.mm_per_px.finite() && Float32::nearest(0, 1).below(v.mm_per_px)) {
        Some(ConfigError::Scale)
    } else if !(Float64::nearest(0, 1).at_most(v.threshold) && v.threshold.at_most(
        Float64::nearest(255, 1),
    )) {
        Some(ConfigError::Threshold)
    } else if !(v.min_area.finite() && Float64::nearest(0, 1).at_most(v.min_area)
        && v.max_area.finite()) {
        Some(ConfigError::AreaLimits)
    } else if !v.min_area.below(v.max_area) {
        Some(ConfigError::AreaOrder)
    } else {
        None
    }
}

/// The robot's bounds and heights.
pub open spec fn robot_error(r: RobotConfig) -> Option<ConfigError> {
    let reach = Float32::nearest(160, 1);
    if !r.x_min.below(r.x_max) {
        Some(ConfigError::XBounds)
    } else if !r.y_min.below(r.y_max) {
        Some(ConfigError::YBounds)
    } else if !r.z_min.below(r.z_max) {
        Some(ConfigError::ZBounds)
    } else if !between(r.z_min, r.z_pick, r.z_max) {
        Some(ConfigError::PickHeight)
    } else if !between(r.z_min, r.z_travel, r.z_max) {
        Some(ConfigError::TravelHeight)
    } else if !r.z_pick.below(r.z_travel) {
        Some(ConfigError::TravelNotAbovePick)
    } else if !(Float32::nearest(-160, 1).at_most(r.x_min) && r.x_max.at_most(reach)) {
        Some(ConfigError::XEnvelope)
    } else if !(Float32::nearest(-160, 1).at_most(r.y_min) && r.y_max.at_most(reach)) {
        Some(ConfigError::YEnvelope)
    } else if !(Float32::nearest(-200, 1).at_most(r.z_min) && r.z_max.at_most(
        Float32::nearest(0, 1),
    )) {
        Some(ConfigError::ZEnvelope)
    } else if r.baud_rate == 0 {
        Some(ConfigError::RobotBaudRate)
    } else if r.feed_rate == 0 {
        Some(ConfigError::FeedRate)
    } else {
        None
    }
}

/// Bin `i` is the first that lies outside the workspace.
pub open spec fn is_stray_bin(limits: WorkspaceLimits, bins: Seq<BinConfig>, i: int) -> bool {
    &&& 0 <= i < bins.len()
    &&& !limits.holds(bins[i].place())
    &&& forall|j: int| #![trigger bins[j]] 0 <= j < i ==> limits.holds(bins[j].place())
}

/// The drop position and the bins.
pub open spec fn sorting_error(limits: WorkspaceLimits, s: SortingConfig) -> Option<ConfigError> {
    if !limits.holds(Position { x: s.drop_x, y: s.drop_y, z: s.drop_z }) {
        Some(ConfigError::DropPosition)
    } else if exists|i: int| is_stray_bin(limits, s.bins@, i) {
        Some(
            ConfigError::BinPosition(
                (choose|i: int| is_stray_bin(limits, s.bins@, i)) as usize,
            ),
        )
    } else {
        None
    }
}

/// A FOURCC is four ASCII characters.
pub open spec fn is_fourcc(s: Seq<char>) -> bool {
    s.len() == 4 && vstd::utf8::is_ascii_chars(s)
}

pub open spec fn camera_error(c: CameraConfig) -> Option<ConfigError> {
    if c.width == 0 || c.height == 0 {
        Some(ConfigError::Resolution)
    } else if c.fps == 0 {
        Some(ConfigError::FrameRate)
    } else if c.fourcc is Some && !is_fourcc(c.fourcc->0@) {
        Some(ConfigError::Fourcc)
    } else {
        None
    }
}

impl AppConfig {
    /// The first rule that the configuration breaks, in the order in which
    /// they are looked at; `level_parses` tells whether the logger takes the
    /// level spec.
    pub open spec fn first_error(self, level_parses: bool) -> Option<ConfigError> {
        let limits = self.robot.limits();
        if robot_error(self.robot) is Some {
            robot_error(self.robot)
        } else if self.conveyor.baud_rate == 0 {
            Some(ConfigError::ConveyorBaudRate)
        } else if !self.conveyor.speed_mm_s.finite() {
            Some(ConfigError::BeltSpeed)
        } else if sorting_error(limits, self.sorting) is Some {
            sorting_error(limits, self.sorting)
        } else if camera_error(self.camera) is Some {
            camera_error(self.camera)
        } else if vision_error(self.vision) is Some {
            vision_error(self.vision)
        } else if trimmed(self.logging.directory@).len() == 0 {
            Some(ConfigError::LogDirectory)
        } else if !level_parses {
            Some(ConfigError::LogLevel)
        } else {
            None
        }
    }

    pub open spec fn outcome(self, level_parses: bool) -> Result<(), ConfigError> {
        match self.first_error(level_parses) {
            Some(e) => Err(e),
            None => Ok(()),
        }
    }

    /// Reject configurations that would command the robot outside its
    /// physical workspace before any hardware is touched.
    pub fn validate(&self) -> (r: Result<(), ConfigError>)
        ensures
            r == self.outcome(level_spec_parses(self.logging.level@)),
            is_list(self.logging.level@) ==> r == self.outcome(
                list_parses(self.logging.level@),
            ),
            two_slashes(self.logging.level@) ==> r == self.outcome(false),
    {
        let level_parses = parse_level_spec(self.logging.level.as_str());
        self.validate_with(level_parses)
    }

    /// The same, told whether the logger takes the level spec.
    pub fn validate_with(&self, level_parses: bool) -> (r: Result<(), ConfigError>)
        ensures
            r == self.outcome(level_parses),
    {
        check_robot(&self.robot)?;
        if self.conveyor.baud_rate == 0 {
            return Err(ConfigError::ConveyorBaudRate);
        }
        if !self.conveyor.speed_mm_s.is_finite() {
            return Err(ConfigError::BeltSpeed);
        }
        check_sorting(&self.robot.workspace_limits(), &self.sorting)?;
        check_camera(&self.camera)?;
        check_vision(&self.vision)?;
        if trim(self.logging.directory.as_str()).is_empty() {
            return Err(ConfigError::LogDirectory);
        }
        if !level_parses {
            return Err(ConfigError::LogLevel);
        }
        Ok(())
    }
}

/// Whether `flexi_logger` takes the level spec.
pub uninterp spec fn level_spec_parses(level: Seq<char>) -> bool;

/// `c` does not occur in `s`.
pub open spec fn lacks(s: Seq<char>, c: char) -> bool {
    forall|i: int| #![trigger s[i]] 0 <= i < s.len() ==> s[i] != c
}

/// `s` holds `c` once, at `i`.
pub open spec fn holds_once(s: Seq<char>, c: char, i: int) -> bool {
    0 <= i < s.len() && s[i] == c && lacks(s.take(i), c) && lacks(s.skip(i + 1), c)
}

/// From `i` to `j` is one entry of a list that `separator` parts.
pub open spec fn is_entry(s: Seq<char>, separator: char, i: int, j: int) -> bool {
    &&& 0 <= i <= j <= s.len()
    &&& i == 0 || s[i - 1] == separator
    &&& j == s.len() || s[j] == separator
    &&& lacks(s.subrange(i, j), separator)
}

/// A level spec that is a list and nothing else: no slash, and only ASCII
/// behind an equals sign, where a level may stand.
pub open spec fn is_list(level: Seq<char>) -> bool {
    &&& lacks(level, '/')
    &&& forall|i: int, j: int| #![trigger level[i], level[j]]
        0 <= i < j < level.len() && level[i] == '=' ==> level[j] as u32 <= 0x7f
}

/// The text holds more than one slash.
pub open spec fn two_slashes(level: Seq<char>) -> bool {
    exists|i: int, j: int| #![trigger level[i], level[j]]
        0 <= i < j < level.len() && level[i] == '/' && level[j] == '/'
}

/// Every entry between the commas is one that the logger takes.
pub open spec fn list_parses(level: Seq<char>) -> bool {
    forall|i: int, j: int| #[trigger]
        is_entry(level, ',', i, j) ==> entry_parses(trimmed(level.subrange(i, j)))
}

/// One word, a level or the name of a module; or such a name, an equals sign
/// and a level, which may be left out.
pub open spec fn entry_parses(s: Seq<char>) -> bool {
    ||| lacks(s, '=') && is_word(s)
    ||| exists|i: int| #[trigger]
        holds_once(s, '=', i) && is_word(trimmed(s.take(i))) && (trimmed(s.skip(i + 1)).len() == 0
            || is_level(trimmed(s.skip(i + 1))))
}

/// The name of a level, in capitals or not.
pub open spec fn is_level(s: Seq<char>) -> bool {
    let name = lowered(s);
    ||| name == "off"@
    ||| name == "error"@
    ||| name == "warn"@
    ||| name == "info"@
    ||| name == "debug"@
    ||| name == "trace"@
}

/// A text without white space.
pub open spec fn is_word(s: Seq<char>) -> bool {
    forall|i: int| #![trigger s[i]] 0 <= i < s.len() ==> !white_space(s[i])
}

/// Hands the level spec to `flexi_logger::LogSpecification::parse` and tells
/// whether it was taken. That depends on the text alone. A list without a
/// slash is taken where every entry between its commas is: blank, one word, or
/// a word, an equals sign and the name of a level or nothing, with white space
/// around each. A second slash is always refused. Not said is which regular
/// expressions are taken behind a single slash, and whether anything beyond
/// ASCII can name a level.
#[verifier::external_body]
fn parse_level_spec(level: &str) -> (r: bool)
    ensures
        r == level_spec_parses(level@),
        is_list(level@) ==> r == list_parses(level@),
        two_slashes(level@) ==> !r,
{
    flexi_logger::LogSpecification::parse(level).is_ok()
}

fn within(low: Float32, v: Float32, high: Float32) -> (r: bool)
    ensures
        r == between(low, v, high),
{
    low.le(v) && v.le(high)
}

fn outcome_of(e: Option<ConfigError>) -> (r: Result<(), ConfigError>)
    ensures
        r == as_outcome(e),
{
    match e {
        Some(e) => Err(e),
        None => Ok(()),
    }
}

pub open spec fn as_outcome(e: Option<ConfigError>) -> Result<(), ConfigError> {
    match e {
        Some(e) => Err(e),
        None => Ok(()),
    }
}

fn check_robot(r: &RobotConfig) -> (o: Result<(), ConfigError>)
    ensures
        o == as_outcome(robot_error(*r)),
{
    let low = Float32::of(-160);
    let high = Float32::of(160);
    let e = if !r.x_min.lt(r.x_max) {
        Some(ConfigError::XBounds)
    } else if !r.y_min.lt(r.y_max) {
        Some(ConfigError::YBounds)
    } else if !r.z_min.lt(r.z_max) {
        Some(ConfigError::ZBounds)
    } else if !within(r.z_min, r.z_pick, r.z_max) {
        Some(ConfigError::PickHeight)
    } else if !within(r.z_min, r.z_travel, r.z_max) {
        Some(ConfigError::TravelHeight)
    } else if !r.z_pick.lt(r.z_travel) {
        Some(ConfigError::TravelNotAbovePick)
    } else if !(low.le(r.x_min) && r.x_max.le(high)) {
        Some(ConfigError::XEnvelope)
    } else if !(low.le(r.y_min) && r.y_max.le(high)) {
        Some(ConfigError::YEnvelope)
    } else if !(Float32::of(-200).le(r.z_min) && r.z_max.le(Float32::of(0))) {
        Some(ConfigError::ZEnvelope)
    } else if r.baud_rate == 0 {
        Some(ConfigError::RobotBaudRate)
    } else if r.feed_rate == 0 {
        Some(ConfigError::FeedRate)
    } else {
        None
    };
    outcome_of(e)
}

fn check_sorting(limits: &WorkspaceLimits, s: &SortingConfig) -> (o: Result<(), ConfigError>)
    ensures
        o == as_outcome(sorting_error(*limits, *s)),
{
    if !limits.contains(Position { x: s.drop_x, y: s.drop_y, z: s.drop_z }) {
        return Err(ConfigError::DropPosition);
    }
    let mut i: usize = 0;
    while i < s.bins.len()
        invariant
            i <= s.bins.len(),
            limits.holds(Position { x: s.drop_x, y: s.drop_y, z: s.drop_z }),
            forall|j: int| #![trigger s.bins@[j]] 0 <= j < i ==> limits.holds(s.bins@[j].place()),
        decreases s.bins.len() - i,
    {
        if !limits.contains(s.bins[i].position()) {
            proof {
                assert(is_stray_bin(*limits, s.bins@, i as int));
                let c = choose|i: int| is_stray_bin(*limits, s.bins@, i);
                assert(is_stray_bin(*limits, s.bins@, c));
                if c < i {
                    assert(limits.holds(s.bins@[c].place()));
                }
                if i < c {
                    assert(limits.holds(s.bins@[i as int].place()));
                }
            }
            return Err(ConfigError::BinPosition(i));
        }
        i = i + 1;
    }
    assert forall|i: int| !is_stray_bin(*limits, s.bins@, i) by {
        if 0 <= i < s.bins@.len() {
            assert(limits.holds(s.bins@[i].place()));
        }
    }
    Ok(())
}

/// Whether `s` is four ASCII characters.
pub fn fourcc_fits(s: &str) -> (r: bool)
    ensures
        r == is_fourcc(s@),
{
    s.is_ascii() && s.unicode_len() == 4
}

fn check_camera(c: &CameraConfig) -> (o: Result<(), ConfigError>)
    ensures
        o == as_outcome(camera_error(*c)),
{
    if c.width == 0 || c.height == 0 {
        return Err(ConfigError::Resolution);
    }
    if c.fps == 0 {
        return Err(ConfigError::FrameRate);
    }
    if let Some(code) = &c.fourcc {
        if !fourcc_fits(code.as_str()) {
            return Err(ConfigError::Fourcc);
        }
    }
    Ok(())
}

fn check_vision(v: &VisionConfig) -> (o: Result<(), ConfigError>)
    ensures
        o == as_outcome(vision_error(*v)),
{
    let e = if !(v.mm_per_px.is_finite() && Float32::of(0).lt(v.mm_per_px)) {
        Some(ConfigError::Scale)
    } else if !(Float64::of(0).le(v.threshold) && v.threshold.le(Float64::of(255))) {
        Some(ConfigError::Threshold)
    } else if !(v.min_area.is_finite() && Float64::of(0).le(v.min_area)
        && v.max_area.is_finite()) {
        Some(ConfigError::AreaLimits)
    } else if !v.min_area.lt(v.max_area) {
        Some(ConfigError::AreaOrder)
    } else {
        None
    };
    outcome_of(e)
}

} // verus!
