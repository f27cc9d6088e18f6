//! Vendor-neutral robot intents: reading integer fixed-point parameters and
//! deciding, per vendor and model, what an intent asks for or why it is refused.
//! Unit conversion to SI and the speed envelopes apply after this step.

use vstd::prelude::*;
use vstd::string::StringExecFns;
use crate::cbor::{Cbor, CborValue, lookup, str_eq};

verus! {

/// Why an intent could not be turned into vendor commands. Never actuate on an error.
#[derive(Debug, Clone, PartialEq)]
pub enum AdapterError {
    /// The vendor or model does not support this intent.
    UnsupportedIntent(String),
    /// A required parameter was missing or of the wrong CBOR type.
    MissingParam(String),
    /// A parameter was present but outside the safe envelope.
    OutOfRange(String),
}

/// Mathematical value of an [`AdapterError`].
pub enum AdapterErrorValue {
    UnsupportedIntent(Seq<char>),
    MissingParam(Seq<char>),
    OutOfRange(Seq<char>),
}

impl View for AdapterError {
    type V = AdapterErrorValue;

    open spec fn view(&self) -> AdapterErrorValue {
        match self {
            AdapterError::UnsupportedIntent(s) => AdapterErrorValue::UnsupportedIntent(s@),
            AdapterError::MissingParam(s) => AdapterErrorValue::MissingParam(s@),
            AdapterError::OutOfRange(s) => AdapterErrorValue::OutOfRange(s@),
        }
    }
}

/// Unitree models.
#[derive(Debug, Clone, Copy, PartialEq, Eq, Structural)]
pub enum UnitreeModel {
    /// Go2 quadruped.
    Go2,
    /// G1 humanoid.
    G1,
}

/// An integer parameter: CBOR negative/signed or unsigned within `i64`.
pub open spec fn param_spec(params: CborValue, key: Seq<char>) -> Option<i64> {
    match lookup(params, key) {
        Some(CborValue::I(n)) => Some(n),
        Some(CborValue::U(n)) => if n <= i64::MAX {
            Some(n as i64)
        } else {
            None
        },
        _ => None,
    }
}

/// Reads an integer parameter (CBOR unsigned or signed).
pub fn param_i64(params: &Cbor, key: &str) -> (res: Option<i64>)
    ensures
        res == param_spec(params@, key@),
{
    match params.get(key) {
        Some(Cbor::I(n)) => Some(*n),
        Some(Cbor::U(n)) => {
            if *n <= 0x7fff_ffff_ffff_ffffu64 {
                Some(*n as i64)
            } else {
                None
            }
        },
        _ => None,
    }
}

/// A required integer parameter, or `MissingParam` naming the key.
pub open spec fn require_spec(params: CborValue, key: Seq<char>) -> Result<i64, AdapterErrorValue> {
    match param_spec(params, key) {
        Some(n) => Ok(n),
        None => Err(AdapterErrorValue::MissingParam(key)),
    }
}

/// Reads a required integer parameter or fails with `MissingParam`.
pub fn require_i64(params: &Cbor, key: &str) -> (res: Result<i64, AdapterError>)
    ensures
        match res {
            Ok(n) => require_spec(params@, key@) == Ok::<i64, AdapterErrorValue>(n),
            Err(e) => require_spec(params@, key@) == Err::<i64, AdapterErrorValue>(e@),
        },
{
    match param_i64(params, key) {
        Some(n) => Ok(n),
        None => Err(AdapterError::MissingParam(String::from_str(key))),
    }
}

/// What an intent asks of a Unitree robot, in wire units.
#[derive(Debug, Clone, PartialEq)]
pub enum UnitreeIntent {
    /// Body-frame velocities in mm/s and mrad/s.
    Move { vx_mm_s: i64, vy_mm_s: i64, yaw_mrad_s: i64 },
    Stop,
    Stand,
    Sit,
    Pose { name: String },
}

/// Mathematical value of a [`UnitreeIntent`].
pub enum UnitreeIntentValue {
    Move { vx_mm_s: i64, vy_mm_s: i64, yaw_mrad_s: i64 },
    Stop,
    Stand,
    Sit,
    Pose { name: Seq<char> },
}

impl View for UnitreeIntent {
    type V = UnitreeIntentValue;

    open spec fn view(&self) -> UnitreeIntentValue {
        match self {
            UnitreeIntent::Move { vx_mm_s, vy_mm_s, yaw_mrad_s } => UnitreeIntentValue::Move {
                vx_mm_s: *vx_mm_s,
                vy_mm_s: *vy_mm_s,
                yaw_mrad_s: *yaw_mrad_s,
            },
            UnitreeIntent::Stop => UnitreeIntentValue::Stop,
            UnitreeIntent::Stand => UnitreeIntentValue::Stand,
            UnitreeIntent::Sit => UnitreeIntentValue::Sit,
            UnitreeIntent::Pose { name } => UnitreeIntentValue::Pose { name: name@ },
        }
    }
}

/// Whether an intent is one of the aerial ones.
pub open spec fn is_aerial(intent: Seq<char>) -> bool {
    intent == "takeoff"@ || intent == "land"@ || intent == "hover"@ || intent == "rth"@ || intent == "goto"@
}

/// Whether an intent is one of the ground/legged ones.
pub open spec fn is_ground(intent: Seq<char>) -> bool {
    intent == "stand"@ || intent == "sit"@ || intent == "pose"@
}

/// The Unitree reading of an intent: moves need all three velocity
/// parameters; the humanoid cannot sit; a pose needs a text `name`; aerial
/// and unknown intents are unsupported.
pub open spec fn unitree_plan_spec(model: UnitreeModel, intent: Seq<char>, params: CborValue) -> Result<UnitreeIntentValue, AdapterErrorValue> {
    if intent == "move"@ {
        match require_spec(params, "vx_mm_s"@) {
            Err(e) => Err(e),
            Ok(vx) => match require_spec(params, "vy_mm_s"@) {
                Err(e) => Err(e),
                Ok(vy) => match require_spec(params, "yaw_mrad_s"@) {
                    Err(e) => Err(e),
                    Ok(yaw) => Ok(UnitreeIntentValue::Move { vx_mm_s: vx, vy_mm_s: vy, yaw_mrad_s: yaw }),
                },
            },
        }
    } else if intent == "stop"@ {
        Ok(UnitreeIntentValue::Stop)
    } else if intent == "stand"@ {
        Ok(UnitreeIntentValue::Stand)
    } else if intent == "sit"@ {
        match model {
            UnitreeModel::Go2 => Ok(UnitreeIntentValue::Sit),
            UnitreeModel::G1 => Err(AdapterErrorValue::UnsupportedIntent("sit (G1 humanoid)"@)),
        }
    } else if intent == "pose"@ {
        match lookup(params, "name"@) {
            Some(CborValue::Text(s)) => Ok(UnitreeIntentValue::Pose { name: s }),
            _ => Err(AdapterErrorValue::MissingParam("name"@)),
        }
    } else if is_aerial(intent) {
        Err(AdapterErrorValue::UnsupportedIntent(intent + " (ground robot)"@))
    } else {
        Err(AdapterErrorValue::UnsupportedIntent(intent))
    }
}

fn unsupported(intent: &str, suffix: &str) -> (e: AdapterError)
    ensures
        e@ == AdapterErrorValue::UnsupportedIntent(intent@ + suffix@),
{
    let mut s = String::from_str(intent);
    s.append(suffix);
    AdapterError::UnsupportedIntent(s)
}

/// Decides what a CRCP intent asks of a Unitree robot.
pub fn unitree_plan(model: UnitreeModel, intent: &str, params: &Cbor) -> (res: Result<UnitreeIntent, AdapterError>)
    ensures
        match res {
            Ok(p) => unitree_plan_spec(model, intent@, params@) == Ok::<UnitreeIntentValue, AdapterErrorValue>(p@),
            Err(e) => unitree_plan_spec(model, intent@, params@) == Err::<UnitreeIntentValue, AdapterErrorValue>(e@),
        },
{
    if str_eq(intent, "move") {
        let vx = match require_i64(params, "vx_mm_s") {
            Ok(n) => n,
            Err(e) => return Err(e),
        };
        let vy = match require_i64(params, "vy_mm_s") {
            Ok(n) => n,
            Err(e) => return Err(e),
        };
        let yaw = match require_i64(params, "yaw_mrad_s") {
            Ok(n) => n,
            Err(e) => return Err(e),
        };
        Ok(UnitreeIntent::Move { vx_mm_s: vx, vy_mm_s: vy, yaw_mrad_s: yaw })
    } else if str_eq(intent, "stop") {
        Ok(UnitreeIntent::Stop)
    } else if str_eq(intent, "stand") {
        Ok(UnitreeIntent::Stand)
    } else if str_eq(intent, "sit") {
        match model {
            UnitreeModel::Go2 => Ok(UnitreeIntent::Sit),
            UnitreeModel::G1 => Err(AdapterError::UnsupportedIntent(String::from_str("sit (G1 humanoid)"))),
        }
    } else if str_eq(intent, "pose") {
        match params.get("name") {
            Some(Cbor::Text(s)) => Ok(UnitreeIntent::Pose { name: s.clone() }),
            _ => Err(AdapterError::MissingParam(String::from_str("name"))),
        }
    } else if str_eq(intent, "takeoff") || str_eq(intent, "land") || str_eq(intent, "hover")
        || str_eq(intent, "rth") || str_eq(intent, "goto") {
        Err(unsupported(intent, " (ground robot)"))
    } else {
        Err(AdapterError::UnsupportedIntent(String::from_str(intent)))
    }
}

/// What an intent asks of a DJI aircraft, in wire units.
#[derive(Debug, Clone, PartialEq)]
pub enum DjiIntent {
    Takeoff,
    Land,
    Hover,
    ReturnToHome,
    /// Waypoint in micro-degrees and centimetres above ground.
    Goto { lat_udeg: i64, lon_udeg: i64, alt_cm: i64 },
    /// Horizontal body-frame velocity in mm/s and yaw rate in mrad/s.
    Move { vx_mm_s: i64, vy_mm_s: i64, yaw_mrad_s: i64 },
}

/// Mathematical value of a [`DjiIntent`].
pub enum DjiIntentValue {
    Takeoff,
    Land,
    Hover,
    ReturnToHome,
    Goto { lat_udeg: i64, lon_udeg: i64, alt_cm: i64 },
    Move { vx_mm_s: i64, vy_mm_s: i64, yaw_mrad_s: i64 },
}

impl View for DjiIntent {
    type V = DjiIntentValue;

    open spec fn view(&self) -> DjiIntentValue {
        match self {
            DjiIntent::Takeoff => DjiIntentValue::Takeoff,
            DjiIntent::Land => DjiIntentValue::Land,
            DjiIntent::Hover => DjiIntentValue::Hover,
            DjiIntent::ReturnToHome => DjiIntentValue::ReturnToHome,
            DjiIntent::Goto { lat_udeg, lon_udeg, alt_cm } => DjiIntentValue::Goto {
                lat_udeg: *lat_udeg,
                lon_udeg: *lon_udeg,
                alt_cm: *alt_cm,
            },
            DjiIntent::Move { vx_mm_s, vy_mm_s, yaw_mrad_s } => DjiIntentValue::Move {
                vx_mm_s: *vx_mm_s,
                vy_mm_s: *vy_mm_s,
                yaw_mrad_s: *yaw_mrad_s,
            },
        }
    }
}

/// The refusal a motor-kill request gets: cutting motors crashes an airborne aircraft.
pub open spec fn motor_kill_refusal() -> Seq<char> {
    "motor-kill refused: would crash an airborne aircraft; use estop (hover) / rth"@
}

/// The DJI reading of an intent: a waypoint needs all three coordinates, a
/// move needs both horizontal velocities (yaw rate defaults to 0), ground
/// intents are unsupported and a motor kill is refused.
pub open spec fn dji_plan_spec(intent: Seq<char>, params: CborValue) -> Result<DjiIntentValue, AdapterErrorValue> {
    if intent == "takeoff"@ {
        Ok(DjiIntentValue::Takeoff)
    } else if intent == "land"@ {
        Ok(DjiIntentValue::Land)
    } else if intent == "hover"@ {
        Ok(DjiIntentValue::Hover)
    } else if intent == "rth"@ {
        Ok(DjiIntentValue::ReturnToHome)
    } else if intent == "goto"@ {
        match require_spec(params, "lat_udeg"@) {
            Err(e) => Err(e),
            Ok(lat) => match require_spec(params, "lon_udeg"@) {
                Err(e) => Err(e),
                Ok(lon) => match require_spec(params, "alt_cm"@) {
                    Err(e) => Err(e),
                    Ok(alt) => Ok(DjiIntentValue::Goto { lat_udeg: lat, lon_udeg: lon, alt_cm: alt }),
                },
            },
        }
    } else if intent == "move"@ {
        match require_spec(params, "vx_mm_s"@) {
            Err(e) => Err(e),
            Ok(vx) => match require_spec(params, "vy_mm_s"@) {
                Err(e) => Err(e),
                Ok(vy) => Ok(DjiIntentValue::Move {
                    vx_mm_s: vx,
                    vy_mm_s: vy,
                    yaw_mrad_s: match param_spec(params, "yaw_mrad_s"@) {
                        Some(n) => n,
                        None => 0,
                    },
                }),
            },
        }
    } else if is_ground(intent) {
        Err(AdapterErrorValue::UnsupportedIntent(intent + " (aircraft)"@))
    } else if intent == "motor_kill"@ || intent == "kill"@ {
        Err(AdapterErrorValue::OutOfRange(motor_kill_refusal()))
    } else {
        Err(AdapterErrorValue::UnsupportedIntent(intent))
    }
}

/// Decides what a CRCP intent asks of a DJI aircraft.
pub fn dji_plan(intent: &str, params: &Cbor) -> (res: Result<DjiIntent, AdapterError>)
    ensures
        match res {
            Ok(p) => dji_plan_spec(intent@, params@) == Ok::<DjiIntentValue, AdapterErrorValue>(p@),
            Err(e) => dji_plan_spec(intent@, params@) == Err::<DjiIntentValue, AdapterErrorValue>(e@),
        },
{
    if str_eq(intent, "takeoff") {
        Ok(DjiIntent::Takeoff)
    } else if str_eq(intent, "land") {
        Ok(DjiIntent::Land)
    } else if str_eq(intent, "hover") {
        Ok(DjiIntent::Hover)
    } else if str_eq(intent, "rth") {
        Ok(DjiIntent::ReturnToHome)
    } else if str_eq(intent, "goto") {
        let lat = match require_i64(params, "lat_udeg") {
            Ok(n) => n,
            Err(e) => return Err(e),
        };
        let lon = match require_i64(params, "lon_udeg") {
            Ok(n) => n,
            Err(e) => return Err(e),
        };
        let alt = match require_i64(params, "alt_cm") {
            Ok(n) => n,
            Err(e) => return Err(e),
        };
        Ok(DjiIntent::Goto { lat_udeg: lat, lon_udeg: lon, alt_cm: alt })
    } else if str_eq(intent, "move") {
        let vx = match require_i64(params, "vx_mm_s") {
            Ok(n) => n,
            Err(e) => return Err(e),
        };
        let vy = match require_i64(params, "vy_mm_s") {
            Ok(n) => n,
            Err(e) => return Err(e),
        };
        let yaw = match param_i64(params, "yaw_mrad_s") {
            Some(n) => n,
            None => 0,
        };
        Ok(DjiIntent::Move { vx_mm_s: vx, vy_mm_s: vy, yaw_mrad_s: yaw })
    } else if str_eq(intent, "stand") || str_eq(intent, "sit") || str_eq(intent, "pose") {
        Err(unsupported(intent, " (aircraft)"))
    } else if str_eq(intent, "motor_kill") || str_eq(intent, "kill") {
        Err(AdapterError::OutOfRange(
            String::from_str("motor-kill refused: would crash an airborne aircraft; use estop (hover) / rth"),
        ))
    } else {
        Err(AdapterError::UnsupportedIntent(String::from_str(intent)))
    }
}

/// Where a waypoint falls against the coordinate ranges, in micro-degrees.
#[derive(Debug, Clone, Copy, PartialEq, Eq, Structural)]
pub enum WaypointCheck {
    InRange,
    /// Latitude outside [-90°, 90°].
    LatOutOfRange,
    /// Latitude in range, longitude outside [-180°, 180°].
    LonOutOfRange,
}

/// The check of a waypoint's coordinates: latitude first, then longitude.
pub open spec fn waypoint_check_spec(lat_udeg: i64, lon_udeg: i64) -> WaypointCheck {
    if lat_udeg < -90_000_000 || lat_udeg > 90_000_000 {
        WaypointCheck::LatOutOfRange
    } else if lon_udeg < -180_000_000 || lon_udeg > 180_000_000 {
        WaypointCheck::LonOutOfRange
    } else {
        WaypointCheck::InRange
    }
}

/// Checks a waypoint's latitude and longitude (micro-degrees) against
/// [-90°, 90°] and [-180°, 180°], latitude first.
pub fn waypoint_check(lat_udeg: i64, lon_udeg: i64) -> (c: WaypointCheck)
    ensures
        c == waypoint_check_spec(lat_udeg, lon_udeg),
{
    if lat_udeg < -90_000_000 || lat_udeg > 90_000_000 {
        WaypointCheck::LatOutOfRange
    } else if lon_udeg < -180_000_000 || lon_udeg > 180_000_000 {
        WaypointCheck::LonOutOfRange
    } else {
        WaypointCheck::InRange
    }
}

/// Whether a looked-up parameter carries the integer `x`, as a signed or
/// an unsigned CBOR integer.
pub open spec fn carries_int(v: Option<CborValue>, x: i64) -> bool {
    v == Some(CborValue::I(x)) || (x >= 0 && v == Some(CborValue::U(x as u64)))
}

/// A Unitree `move` goes where its parameters say: forward speed from
/// `vx_mm_s`, sideways speed from `vy_mm_s`, yaw rate from `yaw_mrad_s`,
/// each unchanged, for either model.
pub proof fn law_unitree_move_uses_its_params(model: UnitreeModel, params: CborValue, vx: i64, vy: i64, yaw: i64)
    requires
        carries_int(lookup(params, "vx_mm_s"@), vx),
        carries_int(lookup(params, "vy_mm_s"@), vy),
        carries_int(lookup(params, "yaw_mrad_s"@), yaw),
    ensures
        unitree_plan_spec(model, "move"@, params) == Ok::<UnitreeIntentValue, AdapterErrorValue>(
            UnitreeIntentValue::Move { vx_mm_s: vx, vy_mm_s: vy, yaw_mrad_s: yaw },
        ),
{
}

/// A DJI `goto` flies to the waypoint its parameters give: latitude from
/// `lat_udeg`, longitude from `lon_udeg`, altitude from `alt_cm`, each
/// unchanged; a DJI `move` takes `vx_mm_s` and `vy_mm_s` unchanged.
pub proof fn law_dji_goto_uses_its_params(params: CborValue, lat: i64, lon: i64, alt: i64)
    requires
        carries_int(lookup(params, "lat_udeg"@), lat),
        carries_int(lookup(params, "lon_udeg"@), lon),
        carries_int(lookup(params, "alt_cm"@), alt),
    ensures
        dji_plan_spec("goto"@, params) == Ok::<DjiIntentValue, AdapterErrorValue>(
            DjiIntentValue::Goto { lat_udeg: lat, lon_udeg: lon, alt_cm: alt },
        ),
{
    reveal_strlit("goto");
    reveal_strlit("takeoff");
    reveal_strlit("land");
    reveal_strlit("hover");
    reveal_strlit("rth");
    assert("goto"@ != "takeoff"@ && "goto"@ != "land"@ && "goto"@ != "hover"@ && "goto"@ != "rth"@) by {
        assert("goto"@[0] != "takeoff"@[0] && "goto"@[0] != "land"@[0] && "goto"@[0] != "hover"@[0]
            && "goto"@[0] != "rth"@[0]);
    }
}

/// A DJI `move` takes its horizontal speeds unchanged from `vx_mm_s` and
/// `vy_mm_s`, and its yaw rate from `yaw_mrad_s` (0 when absent).
pub proof fn law_dji_move_uses_its_params(params: CborValue, vx: i64, vy: i64, yaw: i64)
    requires
        carries_int(lookup(params, "vx_mm_s"@), vx),
        carries_int(lookup(params, "vy_mm_s"@), vy),
        carries_int(lookup(params, "yaw_mrad_s"@), yaw) || (lookup(params, "yaw_mrad_s"@) is None && yaw == 0),
    ensures
        dji_plan_spec("move"@, params) == Ok::<DjiIntentValue, AdapterErrorValue>(
            DjiIntentValue::Move { vx_mm_s: vx, vy_mm_s: vy, yaw_mrad_s: yaw },
        ),
{
    reveal_strlit("move");
    reveal_strlit("goto");
    reveal_strlit("takeoff");
    reveal_strlit("land");
    reveal_strlit("hover");
    reveal_strlit("rth");
    assert("move"@ != "takeoff"@ && "move"@ != "land"@ && "move"@ != "hover"@ && "move"@ != "rth"@
        && "move"@ != "goto"@) by {
        assert("move"@[0] != "takeoff"@[0] && "move"@[0] != "land"@[0] && "move"@[0] != "hover"@[0]
            && "move"@[0] != "rth"@[0] && "move"@[0] != "goto"@[0]);
    }
}

} // verus!
