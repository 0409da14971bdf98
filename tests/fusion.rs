use led_positions::fusion::{
    anchor_index, assemble, axis_disagreements, fuse, view_disagreements, Detection, Fused,
    FusionError, Point3D,
};

fn views(v: &[(i32, i32)]) -> Vec<Detection> {
    v.iter().map(|&(x, y)| Detection { x, y }).collect()
}

#[test]
fn end_to_end_scenario() {
    let a = views(&[(10, 50), (10, 50), (20, 80)]);
    let b = views(&[(90, 52), (90, 52), (70, 10)]);
    assert_eq!(anchor_index(&a, &b), 0);
    let fused = fuse(&a, &b).unwrap();
    assert_eq!(
        fused,
        vec![
            Fused { primary: 0, secondary: 51 },
            Fused { primary: 0, secondary: 51 },
            Fused { primary: 15, secondary: 45 },
        ]
    );
    assert_eq!(view_disagreements(&a, &b), vec![false, false, true]);
}

#[test]
fn anchor_is_least_vertical_gap() {
    let a = views(&[(0, 0), (5, 10), (7, 20)]);
    let b = views(&[(0, 9), (3, 12), (1, 18)]);
    assert_eq!(anchor_index(&a, &b), 1);
}

#[test]
fn fusion_is_repeatable() {
    let a = views(&[(3, 40), (8, 41), (12, 70)]);
    let b = views(&[(60, 45), (55, 41), (50, 90)]);
    assert_eq!(fuse(&a, &b), fuse(&a, &b));
}

#[test]
fn mirrored_views_agree() {
    let a = views(&[(10, 5), (14, 6), (30, 7), (-4, 8)]);
    let (oa, ob) = (10, 100);
    let b: Vec<Detection> = a.iter().map(|d| Detection { x: ob - d.x + oa, y: d.y }).collect();
    let fused = fuse(&a, &b).unwrap();
    let primaries: Vec<i64> = fused.iter().map(|f| f.primary).collect();
    assert_eq!(primaries, vec![0, 4, 20, -14]);
}

#[test]
fn halving_truncates_toward_zero() {
    let a = views(&[(0, 0), (0, -1), (5, 3)]);
    let b = views(&[(0, 0), (2, -2), (0, 0)]);
    let fused = fuse(&a, &b).unwrap();
    assert_eq!(fused[1], Fused { primary: -1, secondary: -1 });
    assert_eq!(fused[2], Fused { primary: 2, secondary: 1 });
}

#[test]
fn mismatched_views_are_rejected() {
    let a = views(&[(0, 0), (1, 1)]);
    let b = views(&[(0, 0)]);
    assert_eq!(fuse(&a, &b), Err(FusionError::ViewMismatch));
    assert_eq!(fuse(&Vec::new(), &Vec::new()), Ok(Vec::new()));
}

#[test]
fn extreme_coordinates_do_not_overflow() {
    let a = views(&[(i32::MAX, i32::MIN), (i32::MIN, i32::MAX)]);
    let b = views(&[(i32::MIN, i32::MIN), (i32::MAX, i32::MIN)]);
    let fused = fuse(&a, &b).unwrap();
    assert_eq!(fused[0], Fused { primary: 0, secondary: i32::MIN as i64 });
    assert_eq!(fused[1], Fused { primary: -(u32::MAX as i64), secondary: 0 });
}

#[test]
fn points_are_assembled_from_both_axes() {
    let xs = vec![Fused { primary: 4, secondary: 10 }, Fused { primary: -2, secondary: -3 }];
    let zs = vec![Fused { primary: 7, secondary: 13 }, Fused { primary: 9, secondary: 70 }];
    assert_eq!(
        assemble(&xs, &zs),
        Ok(vec![Point3D { x: 4, y: 11, z: 7 }, Point3D { x: -2, y: 33, z: 9 }])
    );
    assert_eq!(axis_disagreements(&xs, &zs), vec![false, true]);
    let neg = vec![Fused { primary: 0, secondary: -4 }];
    let odd = vec![Fused { primary: 0, secondary: 1 }];
    assert_eq!(assemble(&neg, &odd), Ok(vec![Point3D { x: 0, y: -1, z: 0 }]));
}

#[test]
fn mismatched_axes_are_rejected() {
    let xs = vec![Fused { primary: 4, secondary: 10 }];
    assert_eq!(assemble(&xs, &Vec::new()), Err(FusionError::AxisMismatch));
}
