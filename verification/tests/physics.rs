use tilecore::physics::{CollisionBox, Collider, Vec2};

#[test]
fn circle_circle_touching_at_exact_distance() {
    // Radius 1 each, centers exactly 2 apart: touching counts as colliding.
    let a = Collider::Circle(Vec2 { x: 0, y: 0 }, 1);
    let b = Collider::Circle(Vec2 { x: 2, y: 0 }, 1);
    assert!(a.does_collide(&b));
    assert!(a.collide(&b).is_some());
}

#[test]
fn circle_circle_just_apart() {
    // The same pair at hundredth-unit scale, centers 2.01 units apart.
    let a = Collider::Circle(Vec2 { x: 0, y: 0 }, 100);
    let b = Collider::Circle(Vec2 { x: 201, y: 0 }, 100);
    assert!(!a.does_collide(&b));
    assert_eq!(a.collide(&b), None);
}

#[test]
fn circle_circle_resolution_magnitude() {
    // Radius 5 each, centers 6 apart on the x axis: overlap 4, split evenly,
    // directed from the first center toward the second.
    let a = Collider::Circle(Vec2 { x: 0, y: 0 }, 5);
    let b = Collider::Circle(Vec2 { x: 6, y: 0 }, 5);
    assert_eq!(a.collide(&b), Some(Vec2 { x: 2, y: 0 }));
    assert_eq!(b.collide(&a), Some(Vec2 { x: -2, y: 0 }));
}

#[test]
fn collision_is_symmetric_on_sample_pairs() {
    let shapes = [
        Collider::Circle(Vec2 { x: 0, y: 0 }, 5),
        Collider::Circle(Vec2 { x: 6, y: 0 }, 5),
        Collider::Circle(Vec2 { x: 100, y: 100 }, 1),
        Collider::AABB(Vec2 { x: 0, y: 0 }, Vec2 { x: 5, y: 5 }),
        Collider::AABB(Vec2 { x: 8, y: 0 }, Vec2 { x: 5, y: 5 }),
        Collider::AABB(Vec2 { x: 40, y: 40 }, Vec2 { x: 3, y: 2 }),
        Collider::Circle(Vec2 { x: 6, y: 4 }, 3),
    ];
    for a in shapes.iter() {
        for b in shapes.iter() {
            assert_eq!(a.does_collide(b), b.does_collide(a));
        }
    }
}

#[test]
fn box_box_overlap() {
    // Half-extents 5 each: centers 8 apart overlap, 10.01 apart do not.
    let a = Collider::AABB(Vec2 { x: 0, y: 0 }, Vec2 { x: 5, y: 5 });
    let b = Collider::AABB(Vec2 { x: 8, y: 0 }, Vec2 { x: 5, y: 5 });
    assert!(a.does_collide(&b));
    let a2 = Collider::AABB(Vec2 { x: 0, y: 0 }, Vec2 { x: 500, y: 500 });
    let b2 = Collider::AABB(Vec2 { x: 1001, y: 0 }, Vec2 { x: 500, y: 500 });
    assert!(!a2.does_collide(&b2));
}

#[test]
fn box_box_touching_counts() {
    let a = Collider::AABB(Vec2 { x: 0, y: 0 }, Vec2 { x: 5, y: 5 });
    let b = Collider::AABB(Vec2 { x: 10, y: 0 }, Vec2 { x: 5, y: 5 });
    assert!(a.does_collide(&b));
}

#[test]
fn circle_outside_box_near_edge() {
    // Box of half-extents 5; circle of radius 2 one unit right of the right
    // edge collides with penetration 1, three units away it does not.
    let b = Collider::AABB(Vec2 { x: 0, y: 0 }, Vec2 { x: 5, y: 5 });
    let near = Collider::Circle(Vec2 { x: 6, y: 0 }, 2);
    assert!(near.does_collide(&b));
    assert_eq!(near.collide(&b), Some(Vec2 { x: 1, y: 0 }));
    let far = Collider::Circle(Vec2 { x: 8, y: 0 }, 2);
    assert!(!far.does_collide(&b));
    assert_eq!(far.collide(&b), None);
}

#[test]
fn circle_inside_box_takes_shorter_pushout() {
    // Off-center circle in a non-square box: the vertical push-out (to the
    // top edge, 4 - 2 + 1 = 3) is shorter than the horizontal one (10).
    let b = Collider::AABB(Vec2 { x: 0, y: 0 }, Vec2 { x: 10, y: 4 });
    let c = Collider::Circle(Vec2 { x: 1, y: 2 }, 1);
    assert_eq!(c.collide(&b), Some(Vec2 { x: 0, y: 3 }));
}

#[test]
fn corner_overlap_takes_greatest_candidate() {
    // Near a corner two edges yield candidates; the greater one wins, not
    // the least-penetration one.
    let b = Collider::AABB(Vec2 { x: 0, y: 0 }, Vec2 { x: 5, y: 5 });
    let c = Collider::Circle(Vec2 { x: 6, y: 4 }, 3);
    // Right edge gives (2, 0) of squared length 4; top edge, met at the
    // corner, gives (2, -2) of squared length 8.
    assert_eq!(c.collide(&b), Some(Vec2 { x: 2, y: -2 }));
}

#[test]
fn box_first_order_negates_circle_pushout() {
    let b = Collider::AABB(Vec2 { x: 0, y: 0 }, Vec2 { x: 5, y: 5 });
    let c = Collider::Circle(Vec2 { x: 6, y: 0 }, 2);
    assert_eq!(b.collide(&c), Some(Vec2 { x: -1, y: 0 }));
}

#[test]
fn concentric_circles_push_along_x() {
    let a = Collider::Circle(Vec2 { x: 0, y: 0 }, 3);
    let b = Collider::Circle(Vec2 { x: 0, y: 0 }, 5);
    assert_eq!(a.collide(&b), Some(Vec2 { x: 4, y: 0 }));
}

#[test]
fn negative_sizes_mean_their_magnitude() {
    let a = Collider::Circle(Vec2 { x: 0, y: 0 }, -5);
    let b = Collider::Circle(Vec2 { x: 6, y: 0 }, 5);
    assert_eq!(a.collide(&b), Some(Vec2 { x: 2, y: 0 }));
    let bb = Collider::AABB(Vec2 { x: 8, y: 0 }, Vec2 { x: -5, y: -5 });
    let aa = Collider::AABB(Vec2 { x: 0, y: 0 }, Vec2 { x: 5, y: 5 });
    assert!(aa.does_collide(&bb));
}

#[test]
fn collision_box_places_shape_at_position() {
    let circle = CollisionBox::Circle { radius: 3 };
    assert_eq!(circle.to_collider(1, 2), Collider::Circle(Vec2 { x: 1, y: 2 }, 3));
    let aabb = CollisionBox::AABB { width_radius: 4, height_radius: 6 };
    assert_eq!(
        aabb.to_collider(-1, 7),
        Collider::AABB(Vec2 { x: -1, y: 7 }, Vec2 { x: 4, y: 6 })
    );
}

#[test]
fn circle_box_touching_counts() {
    // Center exactly radius away from the edge: touching, zero push-out.
    let b = Collider::AABB(Vec2 { x: 0, y: 0 }, Vec2 { x: 5, y: 5 });
    let c = Collider::Circle(Vec2 { x: 7, y: 0 }, 2);
    assert!(c.does_collide(&b));
    assert_eq!(c.collide(&b), Some(Vec2 { x: 0, y: 0 }));
}

#[test]
fn circle_circle_diagonal_resolution() {
    // Centers (0,0) and (3,4), radius 5 each: distance 5, overlap depth 5,
    // pushed along the 3-4-5 direction.
    let a = Collider::Circle(Vec2 { x: 0, y: 0 }, 5);
    let b = Collider::Circle(Vec2 { x: 3, y: 4 }, 5);
    assert_eq!(a.collide(&b), Some(Vec2 { x: 1, y: 2 }));
}

#[test]
fn detection_agrees_with_resolution() {
    let shapes = [
        Collider::Circle(Vec2 { x: 0, y: 0 }, 5),
        Collider::Circle(Vec2 { x: 6, y: 0 }, 5),
        Collider::Circle(Vec2 { x: 50, y: 50 }, 2),
        Collider::AABB(Vec2 { x: 0, y: 0 }, Vec2 { x: 5, y: 5 }),
        Collider::AABB(Vec2 { x: 30, y: 0 }, Vec2 { x: 4, y: 4 }),
    ];
    for a in shapes.iter() {
        for b in shapes.iter() {
            let both_boxes = matches!(a, Collider::AABB(_, _)) && matches!(b, Collider::AABB(_, _));
            if !both_boxes {
                assert_eq!(a.does_collide(b), a.collide(b).is_some());
            }
        }
    }
}

#[test]
fn circle_circle_vertical_resolution() {
    let a = Collider::Circle(Vec2 { x: 0, y: 0 }, 5);
    let b = Collider::Circle(Vec2 { x: 0, y: 6 }, 5);
    assert_eq!(a.collide(&b), Some(Vec2 { x: 0, y: 2 }));
}
