use cymru::adapters::{
    dji_plan, param_i64, require_i64, unitree_plan, AdapterError, DjiIntent, UnitreeIntent,
    UnitreeModel,
};
use cymru::cbor::Cbor;

#[test]
fn param_helpers_accept_signed_and_unsigned() {
    let p = Cbor::Mapping(vec![
        (Cbor::text("a"), Cbor::U(5)),
        (Cbor::text("b"), Cbor::I(-7)),
    ]);
    assert_eq!(param_i64(&p, "a"), Some(5));
    assert_eq!(param_i64(&p, "b"), Some(-7));
    assert_eq!(param_i64(&p, "missing"), None);
    assert!(require_i64(&p, "missing").is_err());
}

#[test]
fn flight_primitives() {
    assert_eq!(dji_plan("takeoff", &Cbor::Mapping(vec![])), Ok(DjiIntent::Takeoff));
    assert_eq!(dji_plan("land", &Cbor::Mapping(vec![])), Ok(DjiIntent::Land));
    assert_eq!(dji_plan("rth", &Cbor::Mapping(vec![])), Ok(DjiIntent::ReturnToHome));
}

#[test]
fn motor_kill_refused() {
    assert!(matches!(
        dji_plan("motor_kill", &Cbor::Mapping(vec![])),
        Err(AdapterError::OutOfRange(_))
    ));
}

#[test]
fn ground_intent_rejected() {
    assert!(matches!(
        dji_plan("sit", &Cbor::Mapping(vec![])),
        Err(AdapterError::UnsupportedIntent(_))
    ));
}

#[test]
fn go2_sits_g1_does_not() {
    assert_eq!(
        unitree_plan(UnitreeModel::Go2, "sit", &Cbor::Mapping(vec![])),
        Ok(UnitreeIntent::Sit)
    );
    assert!(matches!(
        unitree_plan(UnitreeModel::G1, "sit", &Cbor::Mapping(vec![])),
        Err(AdapterError::UnsupportedIntent(_))
    ));
}

#[test]
fn aerial_intent_rejected() {
    assert!(matches!(
        unitree_plan(UnitreeModel::Go2, "takeoff", &Cbor::Mapping(vec![])),
        Err(AdapterError::UnsupportedIntent(_))
    ));
}

#[test]
fn missing_param_rejected() {
    assert!(matches!(
        unitree_plan(UnitreeModel::Go2, "move", &Cbor::Mapping(vec![])),
        Err(AdapterError::MissingParam(_))
    ));
}
