use std::collections::HashSet;

use hecs::{Entity, World};
use moss_hecs_hierarchy::hierarchy::Hierarchy;
use moss_hecs_hierarchy::HierarchyError;

fn spawn(world: &mut World, name: &'static str) -> u64 {
    world.spawn((name,)).to_bits().get()
}

fn name(world: &World, bits: u64) -> &'static str {
    *world
        .get::<&&'static str>(Entity::from_bits(bits).unwrap())
        .unwrap()
}

#[test]
fn basic() {
    let mut world = World::new();
    let mut h = Hierarchy::new();
    let root = world.spawn(("Root",)).to_bits().get();

    let child_count = 10;

    let mut expected_children: HashSet<u64> = HashSet::new();

    for i in 0..child_count {
        let child = world.spawn((format!("Child {}", i),)).to_bits().get();
        expected_children.insert(child);
        h.attach(&world, child, root).unwrap();
    }

    for child in h.children(root) {
        let ent = Entity::from_bits(child).unwrap();
        let child_name = world.get::<&String>(ent).unwrap();

        println!("Child: {:?} {:?}", child, *child_name);

        if !expected_children.remove(&child) {
            panic!("Entity {:?} does not belong in hierarchy", child);
        }
    }

    if !expected_children.is_empty() {
        panic!("Not all children in hierarchy were visited")
    }
}

#[test]
fn reattach2() {
    // Root ---- Child 1
    //      ---- Child 2
    let mut world = World::new();
    let mut h = Hierarchy::new();
    let root = spawn(&mut world, "Root");
    let child1 = spawn(&mut world, "Child1");
    let child2 = spawn(&mut world, "Child2");
    h.attach(&world, child1, root).unwrap();
    h.attach(&world, child2, root).unwrap();

    h.detach(&world, child2).unwrap();
    h.attach(&world, child2, child1).unwrap();
    h.detach(&world, child2).unwrap();
    h.attach(&world, child2, root).unwrap();

    for e in h.descendants_depth_first(root) {
        println!("{:?}", name(&world, e));
    }

    h.detach(&world, child2).unwrap();
    h.attach(&world, child2, child1).unwrap();
    for e in h.descendants_depth_first(root) {
        println!("{:?}", name(&world, e));
    }
    assert_eq!(h.descendants_depth_first(root), vec![child1, child2]);
}

#[test]
fn ancestors() {
    let mut world = World::new();
    let mut h = Hierarchy::new();
    let depth = 10;
    let root = world.spawn((String::from("Root"),)).to_bits().get();

    let mut children = vec![root];

    for i in 1..depth {
        let child = world.spawn((format!("Child {}", i),)).to_bits().get();
        h.attach(&world, child, children[i - 1]).unwrap();
        children.push(child);
    }

    assert_eq!(
        h.ancestors(children.pop().unwrap())
            .into_iter()
            .map(|parent| {
                println!(
                    "{}",
                    *world
                        .get::<&String>(Entity::from_bits(parent).unwrap())
                        .unwrap()
                );
                parent
            })
            .collect::<Vec<_>>(),
        children.into_iter().rev().collect::<Vec<_>>()
    );
}

#[test]
fn detach() {
    // Root ---- Child 1
    //      ---- Child 2
    //           ------- Child 3
    //      ---- Child 4
    //      ---- Child 5

    let mut world = World::new();
    let mut h = Hierarchy::new();
    let root = spawn(&mut world, "Root");
    let child1 = spawn(&mut world, "Child1");
    let child2 = spawn(&mut world, "Child2");
    let child3 = spawn(&mut world, "Child3");
    let child4 = spawn(&mut world, "Child4");
    let child5 = spawn(&mut world, "Child5");
    h.attach(&world, child1, root).unwrap();
    h.attach(&world, child2, root).unwrap();
    h.attach(&world, child3, child2).unwrap();
    h.attach(&world, child4, root).unwrap();
    h.attach(&world, child5, root).unwrap();

    // Remove child2, and by extension child3
    h.detach(&world, child2).unwrap();

    let order = [child1, child4, child5];

    for child in h.children(root) {
        println!("{:?}", name(&world, child));
    }

    assert_eq!(h.children(root), order.to_vec());
}

#[test]
fn reattach() {
    // Root ---- Child 1
    //      ---- Child 2
    //           ------- Child 3
    //      ---- Child 4
    //      ---- Child 5

    let mut world = World::new();
    let mut h = Hierarchy::new();
    let root = spawn(&mut world, "Root");
    let child1 = spawn(&mut world, "Child1");
    let child2 = spawn(&mut world, "Child2");
    let child3 = spawn(&mut world, "Child3");
    let child4 = spawn(&mut world, "Child4");
    let child5 = spawn(&mut world, "Child5");
    h.attach(&world, child1, root).unwrap();
    h.attach(&world, child2, root).unwrap();
    h.attach(&world, child3, child2).unwrap();
    h.attach(&world, child4, root).unwrap();
    h.attach(&world, child5, root).unwrap();

    // Remove child2, and by extension child3
    h.detach(&world, child2).unwrap();

    // Reattach child2 and child3 under child4
    h.attach(&world, child2, child4).unwrap();

    let order = [child1, child4, child5];

    for child in h.descendants_depth_first(root) {
        println!("{:?}", name(&world, child));
    }

    assert_eq!(h.children(root), order.to_vec());
    assert_eq!(
        h.descendants_depth_first(root),
        vec![child1, child4, child2, child3, child5]
    );
}

#[test]
fn despawn() {
    // Root ---- Child 1
    //      ---- Child 2
    //           ------- Child 3
    //      ---- Child 4
    //      ---- Child 5

    let mut world = World::new();
    let mut h = Hierarchy::new();
    let root = spawn(&mut world, "Root");
    let child1 = spawn(&mut world, "Child1");
    let child2 = spawn(&mut world, "Child2");
    let child3 = spawn(&mut world, "Child3");
    let child4 = spawn(&mut world, "Child4");
    let child5 = spawn(&mut world, "Child5");
    h.attach(&world, child1, root).unwrap();
    h.attach(&world, child2, root).unwrap();
    h.attach(&world, child3, child2).unwrap();
    h.attach(&world, child4, root).unwrap();
    h.attach(&world, child5, root).unwrap();

    h.despawn_all(&mut world, child3).unwrap();

    assert_eq!(
        h.descendants_depth_first(root),
        vec![child1, child2, child4, child5]
    );
}

#[test]
fn dfs() {
    // Root ---- Child 1
    //      ---- Child 2
    //           ------- Child 3
    //                   ------- Child 4

    let mut world = World::new();
    let mut h = Hierarchy::new();
    let root = spawn(&mut world, "Root");
    let child1 = spawn(&mut world, "Child1");
    let child2 = spawn(&mut world, "Child2");
    let child3 = spawn(&mut world, "Child3");
    let child4 = spawn(&mut world, "Child4");
    h.attach(&world, child1, root).unwrap();
    h.attach(&world, child2, root).unwrap();
    h.attach(&world, child3, child2).unwrap();
    h.attach(&world, child4, child3).unwrap();

    let order = [child1, child2, child3, child4];

    for child in h.descendants_depth_first(root) {
        println!("{:?}", name(&world, child));
    }

    assert_eq!(h.descendants_depth_first(root), order.to_vec());
}

#[test]
fn dfs_skip() {
    // Root ---- Child 1
    //      ---- Child 2
    //           ------- Child 3 (skipped)
    //                   ------- Child 4

    let mut world = World::new();
    let mut h = Hierarchy::new();
    let root = spawn(&mut world, "Root");
    let child1 = spawn(&mut world, "Child1");
    let child2 = spawn(&mut world, "Child2");
    let child3 = spawn(&mut world, "Child3");
    let child4 = spawn(&mut world, "Child4");
    h.attach(&world, child1, root).unwrap();
    h.attach(&world, child2, root).unwrap();
    h.attach(&world, child3, child2).unwrap();
    h.attach(&world, child4, child3).unwrap();

    let order = [child1, child2];
    let skip = vec![child3];

    for child in h.visit(root, &skip) {
        println!("{:?}", name(&world, child));
    }

    assert_eq!(h.visit(root, &skip), order.to_vec());
}

#[test]
fn bfs() {
    // Root ---- Child 1
    //      ---- Child 2
    //           ------- Child 3
    //                   ------- Child 4

    let mut world = World::new();
    let mut h = Hierarchy::new();
    let root = spawn(&mut world, "Root");
    let child1 = spawn(&mut world, "Child1");
    let child2 = spawn(&mut world, "Child2");
    let child3 = spawn(&mut world, "Child3");
    let child4 = spawn(&mut world, "Child4");
    h.attach(&world, child1, root).unwrap();
    h.attach(&world, child2, root).unwrap();
    h.attach(&world, child3, child2).unwrap();
    h.attach(&world, child4, child3).unwrap();

    let order = [child1, child2, child3, child4];

    for child in h.descendants_breadth_first(root) {
        println!("{:?}", name(&world, child));
    }

    assert_eq!(h.descendants_breadth_first(root), order.to_vec());
}

#[test]
fn empty() {
    let mut world = World::new();
    let h = Hierarchy::new();

    let empty_root = spawn(&mut world, "Root");

    assert_eq!(h.children(empty_root).len(), 0);
    assert_eq!(h.descendants_depth_first(empty_root).len(), 0);
    assert_eq!(h.descendants_breadth_first(empty_root).len(), 0);
    assert_eq!(h.num_children(empty_root), 0);
}

#[test]
fn roots() {
    let mut world = World::new();
    let mut h = Hierarchy::new();
    let root1 = spawn(&mut world, "Root1");
    let root2 = spawn(&mut world, "Root2");
    let root3 = spawn(&mut world, "Root3");

    let child1 = spawn(&mut world, "Child1");
    let child2 = spawn(&mut world, "Child2");
    let child3 = spawn(&mut world, "Child3");
    let child4 = spawn(&mut world, "Child4");
    let child5 = spawn(&mut world, "Child5");
    h.attach(&world, child1, root1).unwrap();
    h.attach(&world, child2, root1).unwrap();
    h.attach(&world, child3, root2).unwrap();
    h.attach(&world, child4, root1).unwrap();
    h.attach(&world, child5, root3).unwrap();

    let mut expected = [root1, root2, root3];
    expected.sort();

    let mut found = h.roots();
    found.sort();

    assert_eq!(found, expected.to_vec());
}

#[test]
fn order_preserved() {
    let mut world = World::new();
    let mut h = Hierarchy::new();
    let root = spawn(&mut world, "Root");

    let mut attached = Vec::new();
    for _ in 0..7 {
        attached.push(h.attach_new(&mut world, root).unwrap());
    }

    assert_eq!(h.children(root), attached);
}

#[test]
fn reattach_round_trip() {
    let mut world = World::new();
    let mut h = Hierarchy::new();
    let p1 = spawn(&mut world, "First");
    let p2 = spawn(&mut world, "Second");
    let c = spawn(&mut world, "Wanderer");
    let other = spawn(&mut world, "Settled");
    h.attach(&world, other, p2).unwrap();

    h.attach(&world, c, p1).unwrap();
    h.detach(&world, c).unwrap();
    h.attach(&world, c, p2).unwrap();

    assert!(!h.children(p1).contains(&c));
    assert_eq!(h.children(p2).iter().filter(|&&x| x == c).count(), 1);
    assert_eq!(h.ancestors(c), vec![p2]);
}

#[test]
fn subtree_survives_detach() {
    let mut world = World::new();
    let mut h = Hierarchy::new();
    let root = spawn(&mut world, "Root");
    let a = spawn(&mut world, "A");
    let b = spawn(&mut world, "B");
    h.attach(&world, a, root).unwrap();
    h.attach(&world, b, a).unwrap();

    h.detach(&world, a).unwrap();

    assert_eq!(h.children(a), vec![b]);
    assert!(!h.children(root).contains(&a));
}

#[test]
fn despawn_removes_subtree() {
    // Root with children [c1, c2 (-> c3), c4, c5]
    let mut world = World::new();
    let mut h = Hierarchy::new();
    let root = spawn(&mut world, "Root");
    let c1 = spawn(&mut world, "Child1");
    let c2 = spawn(&mut world, "Child2");
    let c3 = spawn(&mut world, "Child3");
    let c4 = spawn(&mut world, "Child4");
    let c5 = spawn(&mut world, "Child5");
    h.attach(&world, c1, root).unwrap();
    h.attach(&world, c2, root).unwrap();
    h.attach(&world, c3, c2).unwrap();
    h.attach(&world, c4, root).unwrap();
    h.attach(&world, c5, root).unwrap();

    h.despawn_all(&mut world, c2).unwrap();

    assert_eq!(h.descendants_depth_first(root), vec![c1, c4, c5]);
    assert!(!world.contains(Entity::from_bits(c2).unwrap()));
    assert!(!world.contains(Entity::from_bits(c3).unwrap()));
    // a despawned handle is stale for every further hierarchy operation
    assert_eq!(
        h.attach(&world, c2, root),
        Err(HierarchyError::NoSuchEntity)
    );
    assert_eq!(h.detach(&world, c3), Err(HierarchyError::NoSuchEntity));
}

#[test]
fn visit_prunes_marked_subtree() {
    // Root -> c1; Root -> c2 (skipped) -> c3 -> c4: the walk prunes c2's
    // whole subtree, c2 itself included.
    let mut world = World::new();
    let mut h = Hierarchy::new();
    let root = spawn(&mut world, "Root");
    let c1 = spawn(&mut world, "Child1");
    let c2 = spawn(&mut world, "Child2");
    let c3 = spawn(&mut world, "Child3");
    let c4 = spawn(&mut world, "Child4");
    h.attach(&world, c1, root).unwrap();
    h.attach(&world, c2, root).unwrap();
    h.attach(&world, c3, c2).unwrap();
    h.attach(&world, c4, c3).unwrap();

    let skip = vec![c2];
    assert_eq!(h.visit(root, &skip), vec![c1]);
}

#[test]
fn error_cases() {
    let mut world = World::new();
    let mut h = Hierarchy::new();
    let root = spawn(&mut world, "Root");
    let child = spawn(&mut world, "Child");
    let grandchild = spawn(&mut world, "Grandchild");
    h.attach(&world, child, root).unwrap();
    h.attach(&world, grandchild, child).unwrap();

    // stale handles
    let ghostly = world.spawn(("Gone",));
    let ghostly_bits = ghostly.to_bits().get();
    world.despawn(ghostly).unwrap();
    assert_eq!(
        h.attach(&world, ghostly_bits, root),
        Err(HierarchyError::NoSuchEntity)
    );
    assert_eq!(
        h.attach(&world, child, ghostly_bits),
        Err(HierarchyError::NoSuchEntity)
    );
    assert_eq!(
        h.detach(&world, ghostly_bits),
        Err(HierarchyError::NoSuchEntity)
    );
    assert_eq!(
        h.despawn_all(&mut world, ghostly_bits),
        Err(HierarchyError::NoSuchEntity)
    );

    // double attach is refused, not silently reparented
    assert_eq!(
        h.attach(&world, grandchild, root),
        Err(HierarchyError::AlreadyAttached)
    );

    // cycles are refused: an entity cannot go under its own descendant
    h.detach(&world, root).unwrap(); // detach of a root is a no-op success
    assert_eq!(
        h.attach(&world, root, grandchild),
        Err(HierarchyError::CycleDetected)
    );
    assert_eq!(h.attach(&world, root, root), Err(HierarchyError::CycleDetected));
}

#[test]
fn independent_hierarchies() {
    // The same entities organized in two unrelated shapes at once.
    let mut world = World::new();
    let mut tree = Hierarchy::new();
    let mut groups = Hierarchy::new();
    let a = spawn(&mut world, "A");
    let b = spawn(&mut world, "B");
    let c = spawn(&mut world, "C");

    tree.attach(&world, b, a).unwrap();
    tree.attach(&world, c, b).unwrap();

    groups.attach(&world, a, c).unwrap();
    groups.attach(&world, b, c).unwrap();

    assert_eq!(tree.children(a), vec![b]);
    assert_eq!(tree.children(b), vec![c]);
    assert_eq!(tree.ancestors(c), vec![b, a]);

    assert_eq!(groups.children(c), vec![a, b]);
    assert_eq!(groups.ancestors(a), vec![c]);

    // mutating one hierarchy never touches the other
    tree.detach(&world, c).unwrap();
    assert_eq!(groups.children(c), vec![a, b]);
    assert_eq!(tree.children(b), Vec::<u64>::new());
}

#[test]
fn attach_new_spawns_live_entities() {
    let mut world = World::new();
    let mut h = Hierarchy::new();
    let root = spawn(&mut world, "Root");

    let e = h.attach_new(&mut world, root).unwrap();
    assert!(world.contains(Entity::from_bits(e).unwrap()));
    assert_eq!(h.parent(e), Some(root));
    assert_eq!(h.num_children(root), 1);

    // a stale parent spawns nothing
    let stale = world.spawn(("Gone",));
    let stale_bits = stale.to_bits().get();
    world.despawn(stale).unwrap();
    assert_eq!(
        h.attach_new(&mut world, stale_bits),
        Err(HierarchyError::NoSuchEntity)
    );
}

#[test]
fn link_components() {
    let mut world = World::new();
    let mut h = Hierarchy::new();
    let root = spawn(&mut world, "Root");
    let c1 = spawn(&mut world, "Child1");
    let c2 = spawn(&mut world, "Child2");
    h.attach(&world, c1, root).unwrap();
    h.attach(&world, c2, root).unwrap();

    let pl = h.parent_link(root).unwrap();
    assert_eq!(pl.first_child, c1);
    assert_eq!(pl.num_children, 2);

    // two siblings form a two-element circular list
    let l1 = h.child_link(c1).unwrap();
    assert_eq!((l1.parent, l1.next, l1.prev), (root, c2, c2));
    let l2 = h.child_link(c2).unwrap();
    assert_eq!((l2.parent, l2.next, l2.prev), (root, c1, c1));

    assert!(h.child_link(root).is_none());
    assert!(h.parent_link(c1).is_none());
}
