use raytracer::light::LightType;
use raytracer::object::ObjectType;
use raytracer::patterns::TestPattern;
use raytracer::shapes::Cube;
use raytracer::tuple::{tuple_type_of, TupleType};

#[test]
fn w_component_tells_points_and_vectors_apart() {
    assert_eq!(tuple_type_of(1), TupleType::Point);
    assert_eq!(tuple_type_of(0), TupleType::Vector);
    assert_eq!(tuple_type_of(2), TupleType::Untyped);
    assert_eq!(tuple_type_of(-1), TupleType::Untyped);
}

#[test]
fn tuple_arithmetic_keeps_the_typing_discipline() {
    // point - point = vector; vector + vector = vector;
    // point + (point - point) = point.
    let point = 1i64;
    let vector = 0i64;
    assert_eq!(tuple_type_of(point - point), TupleType::Vector);
    assert_eq!(tuple_type_of(vector + vector), TupleType::Vector);
    assert_eq!(tuple_type_of(point + (point - point)), TupleType::Point);
    assert_eq!(tuple_type_of(point + vector), TupleType::Point);
    assert_eq!(tuple_type_of(point + point), TupleType::Untyped);
}

#[test]
fn unit_shape_records_are_plain_markers() {
    assert_eq!(Cube::new(), Cube {});
    assert_eq!(TestPattern::new(), TestPattern {});
}

#[test]
fn kind_tags_compare_by_variant() {
    assert_eq!(LightType::Point, LightType::Point);
    assert_eq!(ObjectType::Sphere, ObjectType::Sphere);
    assert_ne!(ObjectType::Sphere, ObjectType::Plane);
    assert_ne!(ObjectType::Plane, ObjectType::Test);
}
