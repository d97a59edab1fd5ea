use octree::{Body, Cuboid, InsertError, OctreeNode, Point, Range, Simulation, MAX_DEPTH};

fn range(start: i64, end: i64) -> Range {
    Range { start, end }
}

fn cube(start: i64, end: i64) -> Cuboid {
    Cuboid { x: range(start, end), y: range(start, end), z: range(start, end) }
}

fn body(mass: u64, x: i64, y: i64, z: i64) -> Body {
    Body { mass, location: Point { x, y, z } }
}

fn child_count(node: &OctreeNode) -> usize {
    node.children.iter().filter(|c| c.is_some()).count()
}

fn count_bodies(node: &OctreeNode) -> usize {
    let own = if node.body.is_some() { 1 } else { 0 };
    own + node.children.iter().flatten().map(|c| count_bodies(c)).sum::<usize>()
}

fn height(node: &OctreeNode) -> usize {
    node.children.iter().flatten().map(|c| 1 + height(c)).max().unwrap_or(0)
}

#[test]
fn midpoint_of_zero_to_1024() {
    assert_eq!(range(0, 1024).midpoint(), 512);
}

#[test]
fn midpoint_rounds_down() {
    assert_eq!(range(0, 3).midpoint(), 1);
    assert_eq!(range(-3, 0).midpoint(), -2);
    assert_eq!(range(-5, 5).midpoint(), 0);
    assert_eq!(range(7, 7).midpoint(), 7);
}

#[test]
fn midpoint_does_not_overflow() {
    assert_eq!(range(i64::MAX, i64::MAX).midpoint(), i64::MAX);
    assert_eq!(range(i64::MIN, i64::MIN).midpoint(), i64::MIN);
    assert_eq!(range(i64::MIN, i64::MAX).midpoint(), -1);
    assert_eq!(range(i64::MAX - 1, i64::MAX).midpoint(), i64::MAX - 1);
}

#[test]
fn split_halves_each_axis_at_the_midpoint() {
    let c = Cuboid { x: range(0, 1024), y: range(-100, 100), z: range(10, 20) };
    let octants = c.split();
    let lower = [range(0, 512), range(-100, 0), range(10, 15)];
    let upper = [range(512, 1024), range(0, 100), range(15, 20)];
    for (i, o) in octants.iter().enumerate() {
        let pick = |axis: usize, sign: usize| if sign == 0 { lower[axis] } else { upper[axis] };
        assert_eq!(o.x, pick(0, i % 2));
        assert_eq!(o.y, pick(1, (i / 2) % 2));
        assert_eq!(o.z, pick(2, (i / 4) % 2));
    }
    assert_eq!(octants[0].x.start, 0);
    assert_eq!(octants[0].y.start, -100);
    assert_eq!(octants[0].z.start, 10);
    assert_eq!(octants[7].x.end, 1024);
    assert_eq!(octants[7].y.end, 100);
    assert_eq!(octants[7].z.end, 20);
}

#[test]
fn classification_matches_split() {
    let c = cube(0, 1024);
    let octants = c.split();
    let points = [(100, 100, 100), (900, 100, 100), (100, 900, 100), (512, 512, 100), (100, 100, 1000), (1023, 0, 600)];
    for (x, y, z) in points {
        let p = Point { x, y, z };
        let i = c.octant_contains_point(&p);
        let o = octants[i];
        assert!(o.x.start <= x && x <= o.x.end);
        assert!(o.y.start <= y && y <= o.y.end);
        assert!(o.z.start <= z && z <= o.z.end);
    }
}

#[test]
fn classification_is_total_and_deterministic() {
    let c = cube(0, 1024);
    assert_eq!(c.octant_contains_point(&Point { x: 100, y: 100, z: 100 }), 0);
    assert_eq!(c.octant_contains_point(&Point { x: 900, y: 900, z: 900 }), 7);
    assert_eq!(c.octant_contains_point(&Point { x: 900, y: 100, z: 900 }), 5);
    assert_eq!(c.octant_contains_point(&Point { x: 512, y: 511, z: 512 }), 5);
    let outside = Point { x: -5000, y: 99999, z: i64::MIN };
    let first = c.octant_contains_point(&outside);
    assert_eq!(first, 2);
    assert_eq!(c.octant_contains_point(&outside), first);
    assert_eq!(c.octant_contains_point(&Point { x: i64::MAX, y: i64::MAX, z: i64::MAX }), 7);
}

#[test]
fn new_node_is_empty() {
    let n = OctreeNode::new(cube(0, 1024));
    assert!(n.body.is_none());
    assert_eq!(child_count(&n), 0);
    assert_eq!(n.bounding_box, cube(0, 1024));
    let m: OctreeNode = OctreeNode::from(cube(-8, 8));
    assert!(m.body.is_none());
    assert_eq!(child_count(&m), 0);
    assert_eq!(m.bounding_box, cube(-8, 8));
}

#[test]
fn single_body_rests_at_root() {
    let a = body(3, 100, 200, 300);
    let sim = Simulation::new(vec![a], cube(0, 1024)).unwrap();
    assert_eq!(sim.tree.body, Some(a));
    assert_eq!(child_count(&sim.tree), 0);
}

#[test]
fn empty_sequence_gives_empty_root() {
    let sim = Simulation::new(vec![], cube(0, 1024)).unwrap();
    assert!(sim.tree.body.is_none());
    assert_eq!(child_count(&sim.tree), 0);
}

#[test]
fn second_body_goes_to_octant_seven() {
    let a = body(1, 100, 100, 100);
    let b = body(2, 900, 900, 900);
    let sim = Simulation::new(vec![a, b], cube(0, 1024)).unwrap();
    assert_eq!(sim.tree.body, Some(a));
    assert_eq!(child_count(&sim.tree), 1);
    let child = sim.tree.children[7].as_ref().unwrap();
    assert_eq!(child.body, Some(b));
    assert_eq!(child.bounding_box, cube(512, 1024));
    assert_eq!(child_count(child), 0);
}

#[test]
fn insertion_order_changes_the_tree() {
    let a = body(1, 600, 600, 600);
    let b = body(2, 700, 700, 700);
    let ab = Simulation::new(vec![a, b], cube(0, 1024)).unwrap();
    let ba = Simulation::new(vec![b, a], cube(0, 1024)).unwrap();
    assert_eq!(ab.tree.body, Some(a));
    assert_eq!(ba.tree.body, Some(b));
    assert_eq!(ab.tree.children[7].as_ref().unwrap().body, Some(b));
    assert_eq!(ba.tree.children[7].as_ref().unwrap().body, Some(a));
}

#[test]
fn resident_body_stays_when_children_appear() {
    let a = body(1, 900, 900, 900);
    let b = body(2, 950, 950, 950);
    let c = body(3, 10, 10, 10);
    let sim = Simulation::new(vec![a, b, c], cube(0, 1024)).unwrap();
    assert_eq!(sim.tree.body, Some(a));
    assert_eq!(sim.tree.children[7].as_ref().unwrap().body, Some(b));
    assert_eq!(sim.tree.children[0].as_ref().unwrap().body, Some(c));
    assert_eq!(child_count(&sim.tree), 2);
}

#[test]
fn deeper_insert_follows_nested_octants() {
    let mut root = OctreeNode::new(cube(0, 1024));
    assert_eq!(root.insert(body(1, 900, 900, 900)), Ok(()));
    assert_eq!(root.insert(body(2, 900, 900, 900)), Ok(()));
    assert_eq!(root.insert(body(3, 1000, 600, 1000)), Ok(()));
    let seven = root.children[7].as_ref().unwrap();
    assert_eq!(seven.body, Some(body(2, 900, 900, 900)));
    let deeper = seven.children[5].as_ref().unwrap();
    assert_eq!(deeper.bounding_box, Cuboid { x: range(768, 1024), y: range(512, 768), z: range(768, 1024) });
    assert_eq!(deeper.body, Some(body(3, 1000, 600, 1000)));
}

#[test]
fn out_of_bounds_point_is_placed() {
    let mut root = OctreeNode::new(cube(0, 1024));
    assert_eq!(root.insert(body(1, 10, 10, 10)), Ok(()));
    assert_eq!(root.insert(body(2, -5000, 5000, -1)), Ok(()));
    let child = root.children[2].as_ref().unwrap();
    assert_eq!(child.body, Some(body(2, -5000, 5000, -1)));
    assert_eq!(child.bounding_box, Cuboid { x: range(0, 512), y: range(512, 1024), z: range(0, 512) });
}

#[test]
fn two_coincident_bodies_terminate() {
    let a = body(1, 512, 512, 512);
    let b = body(2, 512, 512, 512);
    let sim = Simulation::new(vec![a, b], cube(0, 1024)).unwrap();
    assert_eq!(sim.tree.body, Some(a));
    assert_eq!(sim.tree.children[7].as_ref().unwrap().body, Some(b));
    assert_eq!(count_bodies(&sim.tree), 2);
}

#[test]
fn coincident_bodies_stop_at_max_depth() {
    let mut root = OctreeNode::new(cube(0, 1024));
    for k in 0..=MAX_DEPTH {
        assert_eq!(root.insert(body(k as u64, 512, 512, 512)), Ok(()));
    }
    assert_eq!(height(&root), MAX_DEPTH);
    assert_eq!(count_bodies(&root), MAX_DEPTH + 1);
    assert_eq!(root.insert(body(999, 512, 512, 512)), Err(InsertError::MaxDepthExceeded));
    assert_eq!(height(&root), MAX_DEPTH);
    assert_eq!(count_bodies(&root), MAX_DEPTH + 1);
    assert_eq!(root.insert(body(7, 0, 0, 0)), Ok(()));
}

#[test]
fn build_reports_max_depth() {
    let bodies: Vec<Body> = (0..MAX_DEPTH as u64 + 2).map(|k| body(k, 3, 3, 3)).collect();
    assert_eq!(Simulation::new(bodies, cube(0, 1024)).err(), Some(InsertError::MaxDepthExceeded));
    let fits: Vec<Body> = (0..MAX_DEPTH as u64 + 1).map(|k| body(k, 3, 3, 3)).collect();
    let sim = Simulation::new(fits, cube(0, 1024)).unwrap();
    assert_eq!(height(&sim.tree), MAX_DEPTH);
}

#[test]
fn every_body_is_kept() {
    let mut bodies = Vec::new();
    for i in 0..10i64 {
        for j in 0..10i64 {
            bodies.push(body((i * 10 + j) as u64, i * 97 % 1024, j * 131 % 1024, (i * j * 37) % 1024));
        }
    }
    let sim = Simulation::new(bodies, cube(0, 1024)).unwrap();
    assert_eq!(count_bodies(&sim.tree), 100);
}
