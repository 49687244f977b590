use gossip_nodes::json::{get_field, set_field, Json};

fn s(x: &str) -> String {
    x.to_string()
}

#[test]
fn copies_are_equal() {
    let v = Json::Object(vec![
        (s("a"), Json::Array(vec![Json::UInt(1), Json::NegInt(-2), Json::Null])),
        (s("b"), Json::Bool(true)),
        (s("c"), Json::Float(1.5f64.to_bits())),
    ]);
    let c = v.copy_value();
    assert_eq!(c, v);
    assert!(c.eq_value(&v));
}

#[test]
fn equality_of_values() {
    assert!(Json::UInt(1).eq_value(&Json::UInt(1)));
    assert!(!Json::UInt(1).eq_value(&Json::UInt(2)));
    assert!(!Json::UInt(1).eq_value(&Json::Str(s("1"))));
    assert!(!Json::Array(vec![Json::UInt(1)]).eq_value(&Json::Array(vec![])));
    assert!(!Json::Object(vec![(s("a"), Json::Null)]).eq_value(&Json::Object(vec![(s("b"), Json::Null)])));
    assert!(Json::Str(s("x")).eq_value(&Json::Str(s("x"))));
}

#[test]
fn accessors() {
    assert_eq!(Json::UInt(5).as_u64(), Some(5));
    assert_eq!(Json::NegInt(-5).as_u64(), None);
    assert_eq!(Json::Str(s("a")).as_str(), Some(&s("a")));
    assert_eq!(Json::Bool(false).as_bool(), Some(false));
    assert!(Json::Null.as_array().is_none());
    assert!(Json::Object(vec![]).as_object().is_some());
}

#[test]
fn fields_get_and_set() {
    let mut f = vec![(s("a"), Json::UInt(1)), (s("b"), Json::UInt(2))];
    assert_eq!(get_field(&f, "b"), Some(&Json::UInt(2)));
    assert_eq!(get_field(&f, "c"), None);
    set_field(&mut f, s("a"), Json::UInt(10));
    set_field(&mut f, s("c"), Json::UInt(3));
    assert_eq!(
        f,
        vec![(s("a"), Json::UInt(10)), (s("b"), Json::UInt(2)), (s("c"), Json::UInt(3))]
    );
}

#[test]
fn floats_compare_as_numbers() {
    assert!(Json::Float(0.0f64.to_bits()).eq_value(&Json::Float((-0.0f64).to_bits())));
    assert!(Json::Float(1.5f64.to_bits()).eq_value(&Json::Float(1.5f64.to_bits())));
    assert!(!Json::Float(1.5f64.to_bits()).eq_value(&Json::Float(2.5f64.to_bits())));
    assert!(!Json::Float(f64::NAN.to_bits()).eq_value(&Json::Float(f64::NAN.to_bits())));
    assert!(!Json::Float(1.0f64.to_bits()).eq_value(&Json::UInt(1)));
    assert!(Json::Array(vec![Json::Float(0.0f64.to_bits())])
        .eq_value(&Json::Array(vec![Json::Float((-0.0f64).to_bits())])));
}

#[test]
fn objects_compare_as_maps() {
    let ab = Json::Object(vec![(s("a"), Json::UInt(1)), (s("b"), Json::UInt(2))]);
    let ba = Json::Object(vec![(s("b"), Json::UInt(2)), (s("a"), Json::UInt(1))]);
    let a = Json::Object(vec![(s("a"), Json::UInt(1))]);
    assert!(ab.eq_value(&ba));
    assert!(!ab.eq_value(&a));
    assert!(!a.eq_value(&ab));
    assert!(!ab.eq_value(&Json::Object(vec![(s("a"), Json::UInt(1)), (s("b"), Json::UInt(3))])));
}
