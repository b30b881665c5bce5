use rebac_graph::{Graph, Node, NodeType, RelationType, Status};

fn s(x: &str) -> String {
    String::from(x)
}

#[test]
fn test_create_link() {
    let mut g = Graph::new();
    g.insert_generic(String::from("1"), NodeType::Principal);
    g.insert_generic(String::from("2"), NodeType::Permission);
    g.add_link(String::from("1"), String::from("2"), NodeType::Principal, NodeType::Permission, RelationType::Has);
    assert!(g
        .check_link(String::from("1"), String::from("2"), NodeType::Principal, NodeType::Permission)
        .is_ok_and(|x| x));
}

#[test]
fn node_reaches_itself_without_links() {
    let mut g = Graph::new();
    g.insert_generic(s("a"), NodeType::Group);
    assert_eq!(g.check_link(s("a"), s("a"), NodeType::Group, NodeType::Group), Ok(true));
    assert_eq!(g.check_link_filtered(s("a"), s("a"), NodeType::Group, NodeType::Group, &[]), Ok(true));
}

#[test]
fn unregistered_endpoints_are_not_found() {
    let mut g = Graph::new();
    g.insert_generic(s("a"), NodeType::Principal);
    assert_eq!(
        g.add_link(s("a"), s("x"), NodeType::Principal, NodeType::Group, RelationType::Belongs),
        Status::NotFound
    );
    assert_eq!(
        g.add_link(s("x"), s("a"), NodeType::Group, NodeType::Principal, RelationType::Belongs),
        Status::NotFound
    );
    assert_eq!(g.check_link(s("a"), s("x"), NodeType::Principal, NodeType::Group), Err(Status::NotFound));
    assert_eq!(g.check_link(s("x"), s("a"), NodeType::Group, NodeType::Principal), Err(Status::NotFound));
    assert_eq!(
        g.check_link_filtered(s("x"), s("x"), NodeType::Group, NodeType::Group, &[RelationType::Is]),
        Err(Status::NotFound)
    );
    assert_eq!(g.relation_between(s("a"), s("x"), NodeType::Principal, NodeType::Group), None);
}

#[test]
fn same_id_with_other_kind_is_another_node() {
    let mut g = Graph::new();
    g.insert_generic(s("n"), NodeType::Principal);
    assert_eq!(g.check_link(s("n"), s("n"), NodeType::Principal, NodeType::Group), Err(Status::NotFound));
    g.insert_generic(s("n"), NodeType::Group);
    assert_eq!(g.check_link(s("n"), s("n"), NodeType::Principal, NodeType::Group), Ok(false));
    assert_eq!(
        g.add_link(s("n"), s("n"), NodeType::Principal, NodeType::Group, RelationType::Belongs),
        Status::Success
    );
    assert_eq!(g.check_link(s("n"), s("n"), NodeType::Principal, NodeType::Group), Ok(true));
    assert_eq!(g.check_link(s("n"), s("n"), NodeType::Group, NodeType::Principal), Ok(false));
}

#[test]
fn duplicate_link_is_rejected_and_kept_once() {
    let mut g = Graph::new();
    g.insert_generic(s("a"), NodeType::Principal);
    g.insert_generic(s("b"), NodeType::Group);
    assert_eq!(g.add_link(s("a"), s("b"), NodeType::Principal, NodeType::Group, RelationType::Belongs), Status::Success);
    assert_eq!(
        g.add_link(s("a"), s("b"), NodeType::Principal, NodeType::Group, RelationType::Belongs),
        Status::DuplicateRelation
    );
    assert_eq!(
        g.add_link(s("a"), s("b"), NodeType::Principal, NodeType::Group, RelationType::Has),
        Status::DuplicateRelation
    );
    assert_eq!(
        g.relation_between(s("a"), s("b"), NodeType::Principal, NodeType::Group),
        Some(RelationType::Belongs)
    );
    assert_eq!(g.relation_between(s("b"), s("a"), NodeType::Group, NodeType::Principal), None);
}

#[test]
fn cycle_terminates_both_ways() {
    let mut g = Graph::new();
    g.insert_generic(s("a"), NodeType::Group);
    g.insert_generic(s("b"), NodeType::Group);
    g.insert_generic(s("c"), NodeType::Group);
    assert_eq!(g.add_link(s("a"), s("b"), NodeType::Group, NodeType::Group, RelationType::Is), Status::Success);
    assert_eq!(g.add_link(s("b"), s("a"), NodeType::Group, NodeType::Group, RelationType::Is), Status::Success);
    assert_eq!(g.check_link(s("a"), s("b"), NodeType::Group, NodeType::Group), Ok(true));
    assert_eq!(g.check_link(s("b"), s("a"), NodeType::Group, NodeType::Group), Ok(true));
    assert_eq!(g.check_link(s("a"), s("c"), NodeType::Group, NodeType::Group), Ok(false));
}

#[test]
fn filtering_by_relation_type() {
    let mut g = Graph::new();
    g.insert_generic(s("a"), NodeType::Principal);
    g.insert_generic(s("b"), NodeType::Group);
    g.insert_generic(s("c"), NodeType::Permission);
    assert_eq!(g.add_link(s("a"), s("b"), NodeType::Principal, NodeType::Group, RelationType::Has), Status::Success);
    assert_eq!(g.add_link(s("b"), s("c"), NodeType::Group, NodeType::Permission, RelationType::Is), Status::Success);
    assert_eq!(
        g.check_link_filtered(s("a"), s("c"), NodeType::Principal, NodeType::Permission, &[RelationType::Has]),
        Ok(false)
    );
    assert_eq!(
        g.check_link_filtered(
            s("a"),
            s("c"),
            NodeType::Principal,
            NodeType::Permission,
            &[RelationType::Has, RelationType::Is]
        ),
        Ok(true)
    );
    assert_eq!(
        g.check_link_filtered(s("a"), s("b"), NodeType::Principal, NodeType::Group, &[RelationType::Has]),
        Ok(true)
    );
    assert_eq!(g.check_link(s("a"), s("c"), NodeType::Principal, NodeType::Permission), Ok(true));
}

#[test]
fn links_are_directed() {
    let mut g = Graph::new();
    g.insert_generic(s("a"), NodeType::Group);
    g.insert_generic(s("b"), NodeType::Group);
    assert_eq!(g.add_link(s("a"), s("b"), NodeType::Group, NodeType::Group, RelationType::Implies), Status::Success);
    assert_eq!(g.check_link(s("b"), s("a"), NodeType::Group, NodeType::Group), Ok(false));
    assert_eq!(g.check_link(s("a"), s("b"), NodeType::Group, NodeType::Group), Ok(true));
}

#[test]
fn alice_belongs_to_admins() {
    let mut g = Graph::new();
    g.insert_generic(s("alice"), NodeType::Principal);
    g.insert_generic(s("admins"), NodeType::Group);
    assert_eq!(
        g.add_link(s("alice"), s("admins"), NodeType::Principal, NodeType::Group, RelationType::Belongs),
        Status::Success
    );
    assert_eq!(g.check_link(s("alice"), s("admins"), NodeType::Principal, NodeType::Group), Ok(true));
    assert_eq!(g.check_link(s("admins"), s("alice"), NodeType::Group, NodeType::Principal), Ok(false));
}

#[test]
fn reregistration_keeps_links() {
    let mut g = Graph::new();
    g.insert_generic(s("a"), NodeType::Principal);
    g.insert_generic(s("b"), NodeType::Group);
    assert_eq!(g.add_link(s("a"), s("b"), NodeType::Principal, NodeType::Group, RelationType::Belongs), Status::Success);
    g.insert_generic(s("a"), NodeType::Principal);
    assert_eq!(g.check_link(s("a"), s("b"), NodeType::Principal, NodeType::Group), Ok(true));
    assert_eq!(
        g.relation_between(s("a"), s("b"), NodeType::Principal, NodeType::Group),
        Some(RelationType::Belongs)
    );
}

#[test]
fn long_chain_and_diamond_are_searched() {
    let mut g = Graph::new();
    let names = ["n0", "n1", "n2", "n3", "n4", "n5"];
    for n in names {
        g.insert_generic(s(n), NodeType::Group);
    }
    // n0 -> n1 -> n2 -> n3 -> n4, n0 -> n2, n1 -> n3, and n5 left apart
    for (x, y) in [("n0", "n1"), ("n1", "n2"), ("n2", "n3"), ("n3", "n4"), ("n0", "n2"), ("n1", "n3"), ("n4", "n1")] {
        assert_eq!(g.add_link(s(x), s(y), NodeType::Group, NodeType::Group, RelationType::Is), Status::Success);
    }
    assert_eq!(g.check_link(s("n0"), s("n4"), NodeType::Group, NodeType::Group), Ok(true));
    assert_eq!(g.check_link(s("n4"), s("n3"), NodeType::Group, NodeType::Group), Ok(true));
    assert_eq!(g.check_link(s("n4"), s("n0"), NodeType::Group, NodeType::Group), Ok(false));
    assert_eq!(g.check_link(s("n0"), s("n5"), NodeType::Group, NodeType::Group), Ok(false));
    assert_eq!(
        g.check_link_filtered(s("n0"), s("n4"), NodeType::Group, NodeType::Group, &[RelationType::Has]),
        Ok(false)
    );
}

#[test]
fn lookup_gives_registration_order() {
    let mut g = Graph::new();
    assert_eq!(g.lookup(&s("a"), NodeType::Principal), None);
    g.insert_generic(s("a"), NodeType::Principal);
    g.insert_generic(s("a"), NodeType::Group);
    g.insert_generic(s("a"), NodeType::Principal);
    assert_eq!(g.lookup(&s("a"), NodeType::Principal), Some(0));
    assert_eq!(g.lookup(&s("a"), NodeType::Group), Some(1));
    assert_eq!(g.lookup(&s("a"), NodeType::Permission), None);
    let _n = Node::new(s("a"), NodeType::Permission);
}
