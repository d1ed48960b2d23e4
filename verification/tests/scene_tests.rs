use raytracer::geometry::Geometry;
use raytracer::scalar::Scalar;
use raytracer::material::MaterialGroup;
use raytracer::scene::{Bounce, Scene, SceneError};

fn scalar(x: f32) -> Scalar {
    Scalar::from_bits(x.to_bits())
}

fn hits(distances: &[Option<f32>]) -> Vec<Option<Scalar>> {
    distances.iter().map(|d| d.map(scalar)).collect()
}

fn group(material: &str, indices: &[usize]) -> MaterialGroup {
    MaterialGroup { material: material.to_string(), indices: indices.to_vec() }
}

fn sphere(radius: f32) -> Geometry {
    Geometry::Sphere { radius: scalar(radius) }
}

fn plane(x: f32, y: f32, z: f32) -> Geometry {
    Geometry::Plane { normal: (scalar(x), scalar(y), scalar(z)) }
}

/// `n` primitives that can be rendered.
fn shapes(n: usize) -> Vec<Geometry> {
    (0..n).map(|i| if i % 2 == 0 { sphere(1.0 + i as f32) } else { plane(0.0, 1.0, 0.0) }).collect()
}

fn names(list: &[&str]) -> Vec<String> {
    list.iter().map(|s| s.to_string()).collect()
}

/// Three primitives: the first and the last are red, the middle one is blue.
fn three() -> Scene {
    match Scene::from(
        names(&["red", "green", "blue"]),
        shapes(3),
        vec![group("blue", &[1]), group("red", &[0, 2])],
    ) {
        Ok(scene) => scene,
        Err(e) => panic!("{:?}", e),
    }
}

fn empty() -> Scene {
    match Scene::from(Vec::new(), Vec::new(), Vec::new()) {
        Ok(scene) => scene,
        Err(e) => panic!("{:?}", e),
    }
}

fn error_of(r: Result<Scene, SceneError>) -> SceneError {
    match r {
        Ok(_) => panic!("the scene was accepted"),
        Err(e) => e,
    }
}

#[test]
fn from_accepts_a_covered_scene() {
    let scene = three();
    assert_eq!(scene.geometry_count(), 3);
}

#[test]
fn from_accepts_an_empty_scene() {
    assert_eq!(empty().geometry_count(), 0);
}

#[test]
fn from_accepts_materials_that_nothing_uses() {
    let r = Scene::from(names(&["a", "b"]), shapes(1), vec![group("b", &[0]), group("a", &[])]);
    assert!(r.is_ok());
}

#[test]
fn from_refuses_an_undefined_material() {
    let r = Scene::from(names(&["red"]), shapes(2), vec![group("red", &[0]), group("pink", &[1])]);
    assert_eq!(error_of(r), SceneError::UndefinedMaterial { group: 1 });
}

#[test]
fn from_reports_the_first_undefined_material() {
    let r = Scene::from(
        names(&["red"]),
        shapes(1),
        vec![group("red", &[0]), group("pink", &[]), group("grey", &[])],
    );
    assert_eq!(error_of(r), SceneError::UndefinedMaterial { group: 1 });
}

#[test]
fn from_refuses_an_index_out_of_range() {
    let r = Scene::from(names(&["red"]), shapes(2), vec![group("red", &[0, 1, 2])]);
    assert_eq!(error_of(r), SceneError::IndexOutOfRange { group: 0, position: 2 });
}

#[test]
fn from_reports_the_first_index_out_of_range() {
    let r = Scene::from(
        names(&["red", "blue", "grey"]),
        shapes(2),
        vec![group("red", &[0]), group("blue", &[1, 7, 9]), group("grey", &[5])],
    );
    assert_eq!(error_of(r), SceneError::IndexOutOfRange { group: 1, position: 1 });
}

#[test]
fn from_refuses_a_primitive_without_material() {
    let r = Scene::from(names(&["red"]), shapes(3), vec![group("red", &[0, 2])]);
    assert_eq!(error_of(r), SceneError::MissingMaterial { geometry: 1 });
}

#[test]
fn from_refuses_primitives_without_a_material_map() {
    let r = Scene::from(names(&["red"]), shapes(1), Vec::new());
    assert_eq!(error_of(r), SceneError::MissingMaterial { geometry: 0 });
}

#[test]
fn from_reports_an_undefined_material_before_other_faults() {
    let r = Scene::from(names(&["red"]), shapes(2), vec![group("red", &[5]), group("pink", &[])]);
    assert_eq!(error_of(r), SceneError::UndefinedMaterial { group: 1 });
}

#[test]
fn from_reports_an_index_out_of_range_before_a_missing_material() {
    let r = Scene::from(names(&["red"]), shapes(2), vec![group("red", &[5])]);
    assert_eq!(error_of(r), SceneError::IndexOutOfRange { group: 0, position: 0 });
}

#[test]
fn from_refuses_a_sphere_without_radius() {
    let pair = vec![sphere(1.0), sphere(0.0)];
    let r = Scene::from(names(&["red"]), pair, vec![group("red", &[0, 1])]);
    assert_eq!(error_of(r), SceneError::DegenerateGeometry { geometry: 1 });
    let r = Scene::from(names(&["red"]), vec![sphere(-0.0)], vec![group("red", &[0])]);
    assert_eq!(error_of(r), SceneError::DegenerateGeometry { geometry: 0 });
    let r = Scene::from(names(&["red"]), vec![sphere(-2.0)], vec![group("red", &[0])]);
    assert_eq!(error_of(r), SceneError::DegenerateGeometry { geometry: 0 });
    let r = Scene::from(names(&["red"]), vec![sphere(f32::NAN)], vec![group("red", &[0])]);
    assert_eq!(error_of(r), SceneError::DegenerateGeometry { geometry: 0 });
}

#[test]
fn from_refuses_a_plane_without_normal() {
    let r = Scene::from(
        names(&["red"]),
        vec![plane(0.0, 1.0, 0.0), sphere(1.0), plane(0.0, -0.0, 0.0)],
        vec![group("red", &[0, 1, 2])],
    );
    assert_eq!(error_of(r), SceneError::DegenerateGeometry { geometry: 2 });
}

#[test]
fn from_accepts_the_smallest_radius_and_any_normal_with_a_length() {
    let r = Scene::from(
        names(&["red"]),
        vec![
            sphere(f32::from_bits(1)),
            sphere(f32::INFINITY),
            plane(0.0, 0.0, 1.0e-40),
            plane(-1.0, 0.0, 0.0),
            plane(f32::NAN, 0.0, 0.0),
        ],
        vec![group("red", &[0, 1, 2, 3, 4])],
    );
    assert!(r.is_ok());
}

#[test]
fn from_reports_a_missing_material_before_a_degenerate_primitive() {
    let r = Scene::from(names(&["red"]), vec![sphere(0.0), sphere(1.0)], vec![group("red", &[0])]);
    assert_eq!(error_of(r), SceneError::MissingMaterial { geometry: 1 });
}

#[test]
fn get_material_follows_the_material_map() {
    let scene = three();
    assert_eq!(scene.get_material(0), Some(0));
    assert_eq!(scene.get_material(1), Some(2));
    assert_eq!(scene.get_material(2), Some(0));
}

#[test]
fn get_material_knows_no_primitive_beyond_the_scene() {
    let scene = three();
    assert_eq!(scene.get_material(3), None);
    assert_eq!(scene.get_material(usize::MAX), None);
    assert_eq!(empty().get_material(0), None);
}

#[test]
fn get_material_takes_the_first_group_that_lists_the_primitive() {
    let scene = match Scene::from(
        names(&["a", "b", "c"]),
        shapes(1),
        vec![group("c", &[]), group("b", &[0]), group("a", &[0])],
    ) {
        Ok(scene) => scene,
        Err(e) => panic!("{:?}", e),
    };
    assert_eq!(scene.get_material(0), Some(1));
}

#[test]
fn from_refuses_a_material_name_twice() {
    let r = Scene::from(names(&["a", "b", "b"]), shapes(1), vec![group("b", &[0])]);
    assert_eq!(error_of(r), SceneError::DuplicateMaterial { material: 2 });
    let r = Scene::from(names(&["a", "b", "a", "b"]), shapes(0), Vec::new());
    assert_eq!(error_of(r), SceneError::DuplicateMaterial { material: 2 });
    let r = Scene::from(names(&["", ""]), shapes(0), Vec::new());
    assert_eq!(error_of(r), SceneError::DuplicateMaterial { material: 1 });
}

#[test]
fn from_refuses_a_group_name_twice() {
    let r = Scene::from(
        names(&["a", "b"]),
        shapes(2),
        vec![group("b", &[0]), group("a", &[]), group("b", &[1])],
    );
    assert_eq!(error_of(r), SceneError::DuplicateGroup { group: 2 });
}

#[test]
fn from_reports_a_name_twice_before_other_faults() {
    let r = Scene::from(
        names(&["a", "a"]),
        vec![sphere(0.0)],
        vec![group("pink", &[7]), group("pink", &[])],
    );
    assert_eq!(error_of(r), SceneError::DuplicateMaterial { material: 1 });
    let r = Scene::from(
        names(&["a"]),
        vec![sphere(0.0)],
        vec![group("pink", &[7]), group("pink", &[])],
    );
    assert_eq!(error_of(r), SceneError::DuplicateGroup { group: 1 });
}

#[test]
fn from_accepts_names_that_differ_in_case_only() {
    let r = Scene::from(
        names(&["red", "Red"]),
        shapes(2),
        vec![group("Red", &[0]), group("red", &[1])],
    );
    assert!(r.is_ok());
}

#[test]
fn trace_finds_nothing_without_hits() {
    let scene = three();
    assert_eq!(scene.trace(&hits(&[None, None, None])), None);
    assert_eq!(scene.trace(&Vec::new()), None);
}

#[test]
fn trace_returns_the_nearer_of_two_in_either_order() {
    let scene = three();
    assert_eq!(scene.trace(&hits(&[Some(2.0), Some(5.0)])), Some(0));
    assert_eq!(scene.trace(&hits(&[Some(5.0), Some(2.0)])), Some(1));
}

#[test]
fn trace_returns_the_nearest_of_many() {
    let scene = three();
    let seen = hits(&[Some(9.0), None, Some(3.0), Some(7.5), None, Some(3.25)]);
    assert_eq!(scene.trace(&seen), Some(2));
}

#[test]
fn trace_keeps_the_first_of_equal_distances() {
    let scene = three();
    assert_eq!(scene.trace(&hits(&[Some(4.0), Some(4.0), Some(4.0)])), Some(0));
    assert_eq!(scene.trace(&hits(&[Some(0.0), Some(-0.0)])), Some(0));
    assert_eq!(scene.trace(&hits(&[Some(-0.0), Some(0.0)])), Some(0));
}

#[test]
fn trace_passes_over_what_is_no_number_below_infinity() {
    let scene = three();
    assert_eq!(scene.trace(&hits(&[Some(f32::NAN)])), None);
    assert_eq!(scene.trace(&hits(&[Some(f32::INFINITY)])), None);
    assert_eq!(scene.trace(&hits(&[Some(f32::NAN), Some(f32::INFINITY), Some(1.0e38)])), Some(2));
}

#[test]
fn trace_finds_a_hit_at_the_largest_finite_distance() {
    let scene = three();
    assert_eq!(scene.trace(&hits(&[Some(f32::MAX)])), Some(0));
    assert_eq!(scene.trace(&hits(&[None, Some(f32::MAX), Some(f32::MAX)])), Some(1));
    assert_eq!(scene.trace(&hits(&[Some(f32::MAX), Some(1.0e38)])), Some(1));
    assert_eq!(scene.trace(&hits(&[Some(f32::INFINITY), Some(f32::MAX)])), Some(1));
    assert_eq!(
        scene.render(&hits(&[None, None, Some(f32::MAX)]), 0),
        Bounce::Surface { geometry: 2, material: 0 }
    );
}

#[test]
fn trace_finds_a_hit_wherever_a_finite_one_is_reported() {
    let scene = three();
    let pool = [f32::MAX, f32::MIN, 0.0, -0.0, 1.0e-45, 3.5, -3.5, f32::MIN_POSITIVE];
    for a in pool {
        assert_eq!(scene.trace(&hits(&[Some(a)])), Some(0));
        assert_eq!(scene.trace(&hits(&[None, Some(a)])), Some(1));
        for b in pool {
            assert!(scene.trace(&hits(&[Some(a), Some(b)])).is_some());
        }
    }
}

#[test]
fn trace_takes_a_negative_distance_as_nearer() {
    let scene = three();
    assert_eq!(scene.trace(&hits(&[Some(1.0), Some(-0.5), Some(0.25)])), Some(1));
    assert_eq!(scene.trace(&hits(&[Some(f32::NEG_INFINITY), Some(-1.0)])), Some(0));
}

#[test]
fn trace_agrees_with_a_plain_scan() {
    let scene = three();
    let pool = [
        Some(3.0f32),
        None,
        Some(1.0),
        Some(1.0),
        Some(f32::NAN),
        Some(-2.0),
        Some(f32::MAX),
        Some(f32::INFINITY),
        Some(0.5),
    ];
    for a in 0..pool.len() {
        for b in 0..pool.len() {
            for c in 0..pool.len() {
                let list = [pool[a], pool[b], pool[c]];
                let mut bound = f32::INFINITY;
                let mut expected = None;
                for (i, entry) in list.iter().enumerate() {
                    if let Some(d) = entry {
                        if *d < bound {
                            bound = *d;
                            expected = Some(i);
                        }
                    }
                }
                assert_eq!(scene.trace(&hits(&list)), expected, "{:?}", list);
            }
        }
    }
}

#[test]
fn render_without_a_hit_is_background() {
    let scene = three();
    let seen = hits(&[None, None, None]);
    assert_eq!(scene.render(&seen, 0), Bounce::Background);
    assert_eq!(scene.render(&seen, 10), Bounce::Background);
}

#[test]
fn render_with_no_depth_left_shades_only() {
    let scene = three();
    let seen = hits(&[Some(4.0), Some(2.0), None]);
    assert_eq!(scene.render(&seen, 0), Bounce::Surface { geometry: 1, material: 2 });
}

#[test]
fn render_with_depth_left_reflects_with_one_less() {
    let scene = three();
    let seen = hits(&[None, Some(6.0), Some(2.0)]);
    assert_eq!(scene.render(&seen, 10), Bounce::Reflect { geometry: 2, material: 0, depth: 9 });
    assert_eq!(scene.render(&seen, 1), Bounce::Reflect { geometry: 2, material: 0, depth: 0 });
}

#[test]
fn render_in_an_empty_scene_is_background() {
    let scene = empty();
    for depth in 0..12 {
        assert_eq!(scene.render(&Vec::new(), depth), Bounce::Background);
    }
}

#[test]
fn render_reflects_at_most_as_often_as_the_depth() {
    let scene = three();
    let seen = hits(&[Some(1.0), Some(2.0), Some(3.0)]);
    for max_depth in 0..12usize {
        let mut depth = max_depth;
        let mut reflections = 0usize;
        loop {
            match scene.render(&seen, depth) {
                Bounce::Reflect { depth: next, .. } => {
                    assert_eq!(next + 1, depth);
                    reflections += 1;
                    depth = next;
                }
                Bounce::Surface { geometry, material } => {
                    assert_eq!(depth, 0);
                    assert_eq!((geometry, material), (0, 0));
                    break;
                }
                Bounce::Background => panic!("the ray hits"),
            }
        }
        assert_eq!(reflections, max_depth);
    }
}

#[test]
fn render_stops_reflecting_at_the_first_miss() {
    let scene = three();
    let first = hits(&[Some(1.0), None, None]);
    let second = hits(&[None, None, None]);
    assert_eq!(scene.render(&first, 5), Bounce::Reflect { geometry: 0, material: 0, depth: 4 });
    assert_eq!(scene.render(&second, 4), Bounce::Background);
}
