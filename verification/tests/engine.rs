use feishu2everywhere::block::{Block, ListOne, ListType, OneOf, Payload, TextSlice};
use feishu2everywhere::raw::{RawIndex, RawNode};
use feishu2everywhere::reconcile::{infer_parents, reconcile, ReconcileError};
use feishu2everywhere::scan::{filter_direct_children, ObserveOutcome, ScanState};
use feishu2everywhere::BlockId;

fn slice(text: &str) -> TextSlice {
    TextSlice {
        text: text.to_string(),
        is_bold: false,
        is_underline: false,
        is_code: false,
        link: None,
    }
}

fn text_payload(text: &str) -> Payload {
    OneOf::A(Block::Text(vec![slice(text)]))
}

fn item_payload(kind: ListType, headline: &str) -> Payload {
    OneOf::B((kind, ListOne::new(vec![slice(headline)], None, vec![])))
}

fn task_payload(headline: &str, done: bool) -> Payload {
    OneOf::B((ListType::Task, ListOne::new(vec![slice(headline)], Some(done), vec![])))
}

fn node(id: BlockId, payload: Payload, children: Vec<BlockId>) -> RawNode {
    RawNode { id, payload, direct_child_ids: children }
}

fn index_of(nodes: Vec<RawNode>) -> RawIndex {
    let mut index = RawIndex::new();
    for n in nodes {
        index.insert(n);
    }
    index
}

fn headline_text(item: &ListOne) -> String {
    let mut out = String::new();
    for s in item.get_headline() {
        out.push_str(&s.text);
    }
    out
}

#[test]
fn list_folding_merges_root_items() {
    // Three unparented same-kind list items arrive as independent
    // top-level entries and are merged into one list.
    let index = index_of(vec![
        node(1, item_payload(ListType::Unordered, "A"), vec![]),
        node(2, item_payload(ListType::Unordered, "B"), vec![]),
        node(3, item_payload(ListType::Unordered, "C"), vec![]),
    ]);
    let tree = reconcile(&index).unwrap();
    assert_eq!(tree.len(), 1);
    let (id, block) = &tree[0];
    assert_eq!(*id, 1);
    match block {
        Block::List { list_type, items } => {
            assert_eq!(*list_type, ListType::Unordered);
            assert_eq!(items.len(), 3);
            assert_eq!(headline_text(&items[0]), "A");
            assert_eq!(headline_text(&items[1]), "B");
            assert_eq!(headline_text(&items[2]), "C");
            assert!(items.iter().all(|i| i.get_following().is_empty()));
        }
        other => panic!("expected a list, got {:?}", other),
    }
}

#[test]
fn nesting_scenario() {
    let index = index_of(vec![
        node(1, item_payload(ListType::Ordered, "Parent"), vec![2]),
        node(2, text_payload("child text"), vec![]),
    ]);
    let tree = reconcile(&index).unwrap();
    assert_eq!(tree.len(), 1);
    let (id, block) = &tree[0];
    assert_eq!(*id, 1);
    match block {
        Block::List { list_type, items } => {
            assert_eq!(*list_type, ListType::Ordered);
            assert_eq!(items.len(), 1);
            assert_eq!(headline_text(&items[0]), "Parent");
            assert_eq!(
                items[0].get_following(),
                &vec![Block::Text(vec![slice("child text")])]
            );
        }
        other => panic!("expected a list, got {:?}", other),
    }
}

#[test]
fn cycle_detection() {
    // Node 1 records 2 as its child and node 2 records 1: the descending
    // fold hits a consumed parent slot and reports the cycle.
    let index = index_of(vec![
        node(1, item_payload(ListType::Unordered, "one"), vec![2]),
        node(2, item_payload(ListType::Unordered, "two"), vec![1]),
    ]);
    let err = reconcile(&index).unwrap_err();
    assert_eq!(err, ReconcileError::CyclicParentage(1));
}

#[test]
fn self_cycle_detection() {
    let index = index_of(vec![node(
        1,
        item_payload(ListType::Unordered, "loop"),
        vec![1],
    )]);
    let err = reconcile(&index).unwrap_err();
    assert_eq!(err, ReconcileError::CyclicParentage(1));
}

#[test]
fn structural_violation_on_non_list_parent() {
    let index = index_of(vec![
        node(1, text_payload("not a list"), vec![2]),
        node(2, text_payload("child"), vec![]),
    ]);
    let err = reconcile(&index).unwrap_err();
    assert_eq!(err, ReconcileError::StructuralInvariantViolation(1));
}

#[test]
fn unresolvable_list_item() {
    let index = index_of(vec![
        node(1, OneOf::B((ListType::Unordered, ListOne::new(vec![], None, vec![]))), vec![]),
        node(2, text_payload("fine"), vec![]),
    ]);
    let err = reconcile(&index).unwrap_err();
    assert_eq!(err, ReconcileError::UnresolvableListItem(1));
}

#[test]
fn reconcile_idempotent() {
    // Reconciling the same raw index twice yields identical trees.
    let index = index_of(vec![
        node(1, item_payload(ListType::Task, "t"), vec![3]),
        node(2, text_payload("para"), vec![]),
        node(3, text_payload("sub"), vec![]),
    ]);
    let t1 = reconcile(&index).unwrap();
    let t2 = reconcile(&index).unwrap();
    assert_eq!(t1, t2);
}

#[test]
fn order_preservation_among_siblings() {
    // Terminal siblings under one parent come out in ascending id order.
    let index = index_of(vec![
        node(1, item_payload(ListType::Unordered, "P"), vec![4, 2, 3]),
        node(2, text_payload("x2"), vec![]),
        node(3, text_payload("x3"), vec![]),
        node(4, text_payload("x4"), vec![]),
    ]);
    let tree = reconcile(&index).unwrap();
    let (_, block) = &tree[0];
    match block {
        Block::List { items, .. } => {
            assert_eq!(
                items[0].get_following(),
                &vec![
                    Block::Text(vec![slice("x2")]),
                    Block::Text(vec![slice("x3")]),
                    Block::Text(vec![slice("x4")]),
                ]
            );
        }
        other => panic!("expected a list, got {:?}", other),
    }
}

#[test]
fn terminal_breaks_sibling_list_grouping() {
    // item, text, item under one parent: the text splits two lists.
    let index = index_of(vec![
        node(1, item_payload(ListType::Unordered, "P"), vec![2, 3, 4]),
        node(2, item_payload(ListType::Unordered, "a"), vec![]),
        node(3, text_payload("break"), vec![]),
        node(4, item_payload(ListType::Unordered, "b"), vec![]),
    ]);
    let tree = reconcile(&index).unwrap();
    let (_, block) = &tree[0];
    match block {
        Block::List { items, .. } => {
            let f = items[0].get_following();
            assert_eq!(f.len(), 3);
            match &f[0] {
                Block::List { items, .. } => assert_eq!(headline_text(&items[0]), "a"),
                other => panic!("expected a nested list, got {:?}", other),
            }
            assert_eq!(f[1], Block::Text(vec![slice("break")]));
            match &f[2] {
                Block::List { items, .. } => assert_eq!(headline_text(&items[0]), "b"),
                other => panic!("expected a nested list, got {:?}", other),
            }
        }
        other => panic!("expected a list, got {:?}", other),
    }
}

#[test]
fn sibling_items_of_same_kind_share_one_list() {
    let index = index_of(vec![
        node(1, item_payload(ListType::Ordered, "P"), vec![2, 3]),
        node(2, item_payload(ListType::Ordered, "first"), vec![]),
        node(3, item_payload(ListType::Ordered, "second"), vec![]),
    ]);
    let tree = reconcile(&index).unwrap();
    let (_, block) = &tree[0];
    match block {
        Block::List { items, .. } => {
            let f = items[0].get_following();
            assert_eq!(f.len(), 1);
            match &f[0] {
                Block::List { list_type, items } => {
                    assert_eq!(*list_type, ListType::Ordered);
                    assert_eq!(headline_text(&items[0]), "first");
                    assert_eq!(headline_text(&items[1]), "second");
                }
                other => panic!("expected a nested list, got {:?}", other),
            }
        }
        other => panic!("expected a list, got {:?}", other),
    }
}

#[test]
fn top_level_merge_breaks_on_other_content() {
    let index = index_of(vec![
        node(1, item_payload(ListType::Unordered, "A"), vec![]),
        node(2, text_payload("between"), vec![]),
        node(3, item_payload(ListType::Unordered, "B"), vec![]),
    ]);
    let tree = reconcile(&index).unwrap();
    assert_eq!(tree.len(), 3);
    assert_eq!(tree[0].0, 1);
    assert_eq!(tree[1].0, 2);
    assert_eq!(tree[2].0, 3);
    assert_eq!(tree[1].1, Block::Text(vec![slice("between")]));
}

#[test]
fn top_level_merge_breaks_on_other_kind() {
    let index = index_of(vec![
        node(1, item_payload(ListType::Unordered, "A"), vec![]),
        node(2, item_payload(ListType::Ordered, "B"), vec![]),
    ]);
    let tree = reconcile(&index).unwrap();
    assert_eq!(tree.len(), 2);
}

#[test]
fn task_done_marks_survive() {
    let index = index_of(vec![
        node(1, task_payload("done one", true), vec![]),
        node(2, task_payload("open one", false), vec![]),
    ]);
    let tree = reconcile(&index).unwrap();
    assert_eq!(tree.len(), 1);
    match &tree[0].1 {
        Block::List { list_type, items } => {
            assert_eq!(*list_type, ListType::Task);
            assert_eq!(items[0].get_done(), &Some(true));
            assert_eq!(items[1].get_done(), &Some(false));
        }
        other => panic!("expected a task list, got {:?}", other),
    }
}

#[test]
fn reverse_then_merge_round_trip() {
    // Inserting in descending id order still produces ascending output.
    let index = index_of(vec![
        node(3, item_payload(ListType::Unordered, "C"), vec![]),
        node(2, item_payload(ListType::Unordered, "B"), vec![]),
        node(1, item_payload(ListType::Unordered, "A"), vec![]),
    ]);
    let forward = index_of(vec![
        node(1, item_payload(ListType::Unordered, "A"), vec![]),
        node(2, item_payload(ListType::Unordered, "B"), vec![]),
        node(3, item_payload(ListType::Unordered, "C"), vec![]),
    ]);
    let t_rev = reconcile(&index).unwrap();
    let t_fwd = reconcile(&forward).unwrap();
    assert_eq!(t_rev, t_fwd);
    assert_eq!(t_rev.len(), 1);
    assert_eq!(t_rev[0].0, 1);
    match &t_rev[0].1 {
        Block::List { items, .. } => {
            assert_eq!(headline_text(&items[0]), "A");
            assert_eq!(headline_text(&items[1]), "B");
            assert_eq!(headline_text(&items[2]), "C");
        }
        other => panic!("expected a list, got {:?}", other),
    }
}

#[test]
fn dedup_keeps_first_observation() {
    let mut index = RawIndex::new();
    assert!(index.insert(node(1, text_payload("first"), vec![])));
    assert!(!index.insert(node(1, text_payload("second"), vec![])));
    assert_eq!(index.len(), 1);
    match &index.entry(0).payload {
        OneOf::A(Block::Text(slices)) => assert_eq!(slices[0].text, "first"),
        other => panic!("expected the first payload, got {:?}", other),
    }
}

#[test]
fn empty_index_reconciles_to_empty_tree() {
    let index = RawIndex::new();
    let tree = reconcile(&index).unwrap();
    assert!(tree.is_empty());
}

#[test]
fn infer_parents_records_owner() {
    let index = index_of(vec![
        node(1, item_payload(ListType::Unordered, "P"), vec![2]),
        node(2, text_payload("c"), vec![]),
    ]);
    let parents = infer_parents(&index);
    assert_eq!(parents, vec![None, Some(1)]);
}

#[test]
fn infer_parents_later_owner_wins() {
    let index = index_of(vec![
        node(1, item_payload(ListType::Unordered, "P1"), vec![4]),
        node(2, item_payload(ListType::Unordered, "P2"), vec![4]),
        node(4, text_payload("c"), vec![]),
    ]);
    let parents = infer_parents(&index);
    assert_eq!(parents, vec![None, None, Some(2)]);
}

#[test]
fn grandchild_exclusion() {
    // A three-level chain: the top node sees both its child and its
    // grandchild, and the grandchild is filtered out of its child list.
    let filtered = filter_direct_children(&vec![2, 3], &vec![3]);
    assert_eq!(filtered, vec![2]);

    let mut scan = ScanState::new(3);
    scan.merge_discovered(&vec![1], None);
    assert_eq!(scan.pop_next(), Some(1));
    scan.observe(1, Some(item_payload(ListType::Unordered, "A")), &vec![2, 3], &vec![3]);
    assert_eq!(scan.pop_next(), Some(2));
    scan.observe(2, Some(item_payload(ListType::Unordered, "B")), &vec![3], &vec![]);
    assert_eq!(scan.pop_next(), Some(3));
    scan.observe(3, Some(text_payload("C")), &vec![], &vec![]);
    let index = scan.finish();
    assert_eq!(index.len(), 3);
    assert_eq!(index.entry(0).direct_child_ids, vec![2]);
    assert_eq!(index.entry(1).direct_child_ids, vec![3]);
}

#[test]
fn scanner_dedup_skips_reobserved_ids() {
    let mut scan = ScanState::new(3);
    scan.merge_discovered(&vec![5], None);
    assert_eq!(scan.pop_next(), Some(5));
    let first = scan.observe(5, Some(text_payload("once")), &vec![], &vec![]);
    assert_eq!(first, ObserveOutcome::Recorded);
    // The source re-surfaces id 5; the observation is discarded.
    scan.merge_discovered(&vec![5], None);
    assert_eq!(scan.pop_next(), Some(5));
    let second = scan.observe(5, Some(text_payload("again")), &vec![], &vec![]);
    assert_eq!(second, ObserveOutcome::Skipped);
    let index = scan.finish();
    assert_eq!(index.len(), 1);
    match &index.entry(0).payload {
        OneOf::A(Block::Text(slices)) => assert_eq!(slices[0].text, "once"),
        other => panic!("expected the first payload, got {:?}", other),
    }
}

#[test]
fn scanner_pops_smallest_id_first() {
    let mut scan = ScanState::new(3);
    scan.merge_discovered(&vec![9, 4, 7], None);
    assert_eq!(scan.pop_next(), Some(4));
    assert_eq!(scan.pop_next(), Some(7));
    assert_eq!(scan.pop_next(), Some(9));
    assert_eq!(scan.pop_next(), None);
}

#[test]
fn scanner_cutoff_admits_only_newer_ids() {
    let mut scan = ScanState::new(3);
    scan.merge_discovered(&vec![3, 8, 5], Some(5));
    assert_eq!(scan.pop_next(), Some(8));
    assert_eq!(scan.pop_next(), None);
}

#[test]
fn scanner_unrecognized_node_still_queues_children() {
    let mut scan = ScanState::new(3);
    scan.merge_discovered(&vec![1], None);
    assert_eq!(scan.pop_next(), Some(1));
    let outcome = scan.observe(1, None, &vec![2], &vec![]);
    assert_eq!(outcome, ObserveOutcome::Unrecognized);
    assert_eq!(scan.pop_next(), Some(2));
    scan.observe(2, Some(text_payload("found")), &vec![], &vec![]);
    let index = scan.finish();
    assert_eq!(index.len(), 1);
    assert_eq!(index.entry(0).id, 2);
}

#[test]
fn scanner_stops_after_consecutive_all_skip_passes() {
    let mut scan = ScanState::new(3);
    scan.merge_discovered(&vec![1], None);
    scan.begin_pass();
    assert_eq!(scan.pop_next(), Some(1));
    scan.observe(1, Some(text_payload("x")), &vec![], &vec![]);
    assert!(!scan.end_pass());
    // Four passes in a row that skip their single re-surfaced entry.
    for round in 0..4 {
        scan.merge_discovered(&vec![1], None);
        scan.begin_pass();
        assert_eq!(scan.pop_next(), Some(1));
        assert_eq!(
            scan.observe(1, Some(text_payload("x")), &vec![], &vec![]),
            ObserveOutcome::Skipped
        );
        let stop = scan.end_pass();
        assert_eq!(stop, round == 3, "round {}", round);
    }
}

#[test]
fn scanner_end_to_end_scan_then_reconcile() {
    let mut scan = ScanState::new(3);
    scan.merge_discovered(&vec![1, 4], None);
    scan.begin_pass();
    while let Some(id) = scan.pop_next() {
        match id {
            1 => {
                scan.observe(1, Some(item_payload(ListType::Unordered, "P")), &vec![2], &vec![]);
            }
            2 => {
                scan.observe(2, Some(text_payload("inner")), &vec![], &vec![]);
            }
            4 => {
                scan.observe(4, Some(text_payload("tail")), &vec![], &vec![]);
            }
            other => panic!("unexpected id {}", other),
        }
    }
    scan.end_pass();
    let index = scan.finish();
    let tree = reconcile(&index).unwrap();
    assert_eq!(tree.len(), 2);
    assert_eq!(tree[0].0, 1);
    assert_eq!(tree[1].0, 4);
}

#[test]
fn unresolvable_reported_before_fold_faults() {
    // An empty-headline list item is reported even when the index also
    // holds a parentage cycle.
    let index = index_of(vec![
        node(1, item_payload(ListType::Unordered, "one"), vec![2]),
        node(2, item_payload(ListType::Unordered, "two"), vec![1]),
        node(3, OneOf::B((ListType::Task, ListOne::new(vec![], None, vec![]))), vec![]),
    ]);
    let err = reconcile(&index).unwrap_err();
    assert_eq!(err, ReconcileError::UnresolvableListItem(3));
}

#[test]
fn fold_fault_reports_highest_faulting_node_first() {
    // Two independent structural faults: the descending fold hits the
    // child with the larger id first, and names its parent.
    let index = index_of(vec![
        node(1, text_payload("p1"), vec![2]),
        node(2, text_payload("c1"), vec![]),
        node(3, text_payload("p2"), vec![4]),
        node(4, text_payload("c2"), vec![]),
    ]);
    let err = reconcile(&index).unwrap_err();
    assert_eq!(err, ReconcileError::StructuralInvariantViolation(3));
}

#[test]
fn following_mut_extends_an_item() {
    let mut item = ListOne::new(vec![slice("head")], None, vec![]);
    item.get_following_mut().push(Block::Text(vec![slice("tail")]));
    assert_eq!(item.get_following(), &vec![Block::Text(vec![slice("tail")])]);
}
