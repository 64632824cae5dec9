use resolvent::term::{
    Atom, BinderKind, BooleanOperator, CollectionKind, SymbolId, SymbolName, TermBudget, TermError, TermNode,
};
use resolvent::term_store::TermStore;
use resolvent::term_decode::decode_canonical_term;

fn budget() -> TermBudget {
    TermBudget::default()
}

fn symbol(store: &mut TermStore, name: &str) -> resolvent::term::TermId {
    store.atom(Atom::Symbol(SymbolName::new("core", name)), budget()).unwrap()
}

#[test]
fn interning_the_same_node_twice_gives_one_handle() {
    let mut store = TermStore::new(1);
    let x = symbol(&mut store, "x");
    let x_again = symbol(&mut store, "x");
    assert_eq!(x, x_again);
    let one = store.atom(Atom::integer("1").unwrap(), budget()).unwrap();
    let sum = store.intern(TermNode::Apply { head: x, arguments: vec![one, one] }, budget()).unwrap();
    let sum_again = store.intern(TermNode::Apply { head: x, arguments: vec![one, one] }, budget()).unwrap();
    assert_eq!(sum, sum_again);
    assert_eq!(store.len(), 3);
    assert!(!store.is_empty());
    let metrics = store.metrics();
    assert_eq!(metrics.terms, 3);
    assert_eq!(metrics.symbols, 1);
    assert_eq!(store.symbol(SymbolId(0)), Some(&SymbolName::new("core", "x")));
    assert_eq!(store.symbol(SymbolId(1)), None);
}

#[test]
fn retained_syntax_is_not_reordered() {
    let mut store = TermStore::new(2);
    let a = symbol(&mut store, "a");
    let b = symbol(&mut store, "b");
    let ab = store.intern(TermNode::Boolean { operator: BooleanOperator::And, arguments: vec![a, b] }, budget()).unwrap();
    let ba = store.intern(TermNode::Boolean { operator: BooleanOperator::And, arguments: vec![b, a] }, budget()).unwrap();
    assert_ne!(ab, ba);
    assert_ne!(store.digest(ab, budget()).unwrap(), store.digest(ba, budget()).unwrap());
    assert_eq!(store.node(ab).unwrap(), TermNode::Boolean { operator: BooleanOperator::And, arguments: vec![a, b] });
}

#[test]
fn handles_of_another_store_are_foreign() {
    let mut one = TermStore::new(10);
    let mut two = TermStore::new(11);
    let x = symbol(&mut one, "x");
    let _ = symbol(&mut two, "y");
    assert_eq!(two.node(x), Err(TermError::ForeignTerm));
    assert_eq!(
        two.intern(TermNode::Held { expression: x }, budget()),
        Err(TermError::ForeignTerm)
    );
    assert_eq!(two.len(), 1);
}

#[test]
fn shape_and_atom_errors_refuse_without_changing_the_store() {
    let mut store = TermStore::new(3);
    let x = symbol(&mut store, "x");
    assert_eq!(
        store.intern(TermNode::Boolean { operator: BooleanOperator::Not, arguments: vec![x, x] }, budget()),
        Err(TermError::InvalidNode("Not requires one argument"))
    );
    assert_eq!(
        store.intern(
            TermNode::Collection { kind: CollectionKind::Array { shape: vec![2, 2] }, elements: vec![x, x, x] },
            budget()
        ),
        Err(TermError::InvalidNode("array shape does not match element count"))
    );
    assert_eq!(
        store.intern(TermNode::Atom(Atom::Integer("007".to_string())), budget()),
        Err(TermError::InvalidAtom("non-canonical integer spelling"))
    );
    assert_eq!(
        store.intern(TermNode::Atom(Atom::Symbol(SymbolName::new("core", "  "))), budget()),
        Err(TermError::InvalidAtom("invalid symbol name"))
    );
    assert_eq!(
        store.intern(
            TermNode::Binder { kind: BinderKind::Sum, variable_count: 1, bounds: vec![x], body: x },
            budget()
        ),
        Err(TermError::InvalidBinder("wrong bound arity"))
    );
    assert_eq!(store.len(), 1);
    let unknown = {
        let mut bigger = TermStore::new(3);
        let _ = symbol(&mut bigger, "p");
        let _ = symbol(&mut bigger, "q");
        symbol(&mut bigger, "r")
    };
    assert_eq!(store.node(unknown), Err(TermError::UnknownTerm));
}

#[test]
fn node_and_depth_budgets_are_enforced() {
    let mut store = TermStore::new(4);
    let tight = TermBudget { max_nodes: 2, max_depth: 2, ..TermBudget::default() };
    let x = store.atom(Atom::Boolean(true), tight).unwrap();
    let held = store.intern(TermNode::Held { expression: x }, tight).unwrap();
    assert_eq!(
        store.intern(TermNode::Held { expression: held }, tight),
        Err(TermError::BudgetExceeded { resource: "depth", limit: 2 })
    );
    assert_eq!(
        store.atom(Atom::Boolean(false), tight),
        Err(TermError::BudgetExceeded { resource: "nodes", limit: 2 })
    );
    // an existing node is found again even at the node limit
    assert_eq!(store.atom(Atom::Boolean(true), tight), Ok(x));
}

#[test]
fn topological_lists_children_first_and_each_once() {
    let mut store = TermStore::new(5);
    let x = symbol(&mut store, "x");
    let y = symbol(&mut store, "y");
    let f = symbol(&mut store, "f");
    let app = store.intern(TermNode::Apply { head: f, arguments: vec![y, x, y] }, budget()).unwrap();
    let order = store.topological(app, budget()).unwrap();
    assert_eq!(order, vec![f, y, x, app]);
}

#[test]
fn canonical_bytes_are_the_same_across_stores() {
    let mut one = TermStore::new(20);
    let x1 = symbol(&mut one, "x");
    let two1 = one.atom(Atom::integer("2").unwrap(), budget()).unwrap();
    let pow1 = one.intern(TermNode::Apply { head: x1, arguments: vec![two1] }, budget()).unwrap();

    let mut two = TermStore::new(21);
    let filler = symbol(&mut two, "unrelated");
    let two2 = two.atom(Atom::integer("2").unwrap(), budget()).unwrap();
    let x2 = symbol(&mut two, "x");
    let pow2 = two.intern(TermNode::Apply { head: x2, arguments: vec![two2] }, budget()).unwrap();
    assert_ne!(filler, x2);

    let bytes1 = one.canonical_bytes(pow1, budget()).unwrap();
    let bytes2 = two.canonical_bytes(pow2, budget()).unwrap();
    assert_eq!(bytes1, bytes2);
    assert!(bytes1.starts_with(b"RESOLVENT-TERM\0\x01"));
    assert_eq!(one.digest(pow1, budget()).unwrap(), two.digest(pow2, budget()).unwrap());
    let expected = blake3::hash(&bytes1);
    assert_eq!(one.digest(pow1, budget()).unwrap().as_bytes(), expected.as_bytes());
}

#[test]
fn canonical_wire_of_a_small_term() {
    let mut store = TermStore::new(6);
    let t = store.atom(Atom::Boolean(true), budget()).unwrap();
    let held = store.intern(TermNode::Held { expression: t }, budget()).unwrap();
    let bytes = store.canonical_bytes(held, budget()).unwrap();
    let mut expected = b"RESOLVENT-TERM\0\x01".to_vec();
    expected.extend_from_slice(&[2, 0x01, 0x0a, 1, 0x1b, 0, 1]);
    assert_eq!(bytes, expected);
    let small = TermBudget { max_wire_bytes: expected.len() - 1, ..TermBudget::default() };
    assert_eq!(
        store.canonical_bytes(held, small),
        Err(TermError::BudgetExceeded { resource: "wire bytes", limit: expected.len() - 1 })
    );
}

#[test]
fn escaping_bound_variables_have_no_canonical_wire() {
    let mut store = TermStore::new(7);
    let v0 = store.atom(Atom::BoundVariable(0), budget()).unwrap();
    assert_eq!(
        store.canonical_bytes(v0, budget()),
        Err(TermError::InvalidBinder("canonical roots may not contain escaping de Bruijn indices"))
    );
    let lambda = store
        .intern(TermNode::Binder { kind: BinderKind::Lambda, variable_count: 1, bounds: vec![], body: v0 }, budget())
        .unwrap();
    assert!(store.canonical_bytes(lambda, budget()).is_ok());
}

#[test]
fn decoding_a_canonical_wire_gives_the_same_term_back() {
    let mut store = TermStore::new(30);
    let x = symbol(&mut store, "x");
    let half = store.atom(Atom::ExactDecimal(resolvent::term::ExactDecimal::parse("0.5").unwrap()), budget()).unwrap();
    let bits = store.atom(Atom::ExactIeee754Bits(0x3ff0_0000_0000_0000), budget()).unwrap();
    let text = store.atom(Atom::String("naïve".to_string()), budget()).unwrap();
    let list = store
        .intern(TermNode::Collection { kind: CollectionKind::List, elements: vec![x, half, bits, text] }, budget())
        .unwrap();
    let bytes = store.canonical_bytes(list, budget()).unwrap();
    let (decoded, root) = decode_canonical_term(&bytes, budget(), 31).unwrap();
    assert_eq!(decoded.len(), 5);
    assert_eq!(decoded.canonical_bytes(root, budget()).unwrap(), bytes);
    assert_eq!(decoded.digest(root, budget()).unwrap(), store.digest(list, budget()).unwrap());
    match decoded.node(root).unwrap() {
        TermNode::Collection { kind: CollectionKind::List, elements } => assert_eq!(elements.len(), 4),
        other => panic!("unexpected node {:?}", other),
    }
}

#[test]
fn decoding_fails_closed() {
    let mut store = TermStore::new(32);
    let t = store.atom(Atom::Boolean(true), budget()).unwrap();
    let bytes = store.canonical_bytes(t, budget()).unwrap();

    let mut bad_header = bytes.clone();
    bad_header[0] = b'X';
    assert_eq!(decode_canonical_term(&bad_header, budget(), 1).err(), Some(TermError::InvalidWire("schema header")));

    let mut trailing = bytes.clone();
    trailing.push(0);
    assert_eq!(
        decode_canonical_term(&trailing, budget(), 1).err(),
        Some(TermError::InvalidWire("root index or trailing bytes"))
    );

    let mut empty = b"RESOLVENT-TERM\0\x01".to_vec();
    empty.push(0);
    assert_eq!(decode_canonical_term(&empty, budget(), 1).err(), Some(TermError::InvalidWire("empty term graph")));

    let mut padded = b"RESOLVENT-TERM\0\x01".to_vec();
    padded.extend_from_slice(&[0x81, 0x00]);
    assert_eq!(decode_canonical_term(&padded, budget(), 1).err(), Some(TermError::InvalidWire("non-canonical varint")));

    let tight = TermBudget { max_wire_bytes: bytes.len() - 1, ..TermBudget::default() };
    assert_eq!(
        decode_canonical_term(&bytes, tight, 1).err(),
        Some(TermError::BudgetExceeded { resource: "wire bytes", limit: bytes.len() - 1 })
    );

    let mut bad_boolean = bytes.clone();
    let len = bad_boolean.len();
    bad_boolean[len - 2] = 7;
    assert_eq!(decode_canonical_term(&bad_boolean, budget(), 1).err(), Some(TermError::InvalidWire("boolean value")));
}

#[test]
fn import_rebuilds_the_reachable_terms() {
    let mut source = TermStore::new(40);
    let a = symbol(&mut source, "a");
    let b = symbol(&mut source, "b");
    let _unreachable = symbol(&mut source, "c");
    let pair = source.intern(TermNode::Collection { kind: CollectionKind::Tuple, elements: vec![a, b, a] }, budget()).unwrap();

    let mut dest = TermStore::new(41);
    let b_dest = symbol(&mut dest, "b");
    let imported = dest.import(&source, pair, budget()).unwrap();
    assert_eq!(dest.len(), 3);
    assert_eq!(dest.digest(imported, budget()).unwrap(), source.digest(pair, budget()).unwrap());
    match dest.node(imported).unwrap() {
        TermNode::Collection { elements, .. } => {
            assert_eq!(elements[1], b_dest);
            assert_eq!(elements[0], elements[2]);
        },
        other => panic!("unexpected node {:?}", other),
    }
    // importing again shares every handle
    assert_eq!(dest.import(&source, pair, budget()).unwrap(), imported);
    assert_eq!(dest.len(), 3);
}

#[test]
fn a_refused_import_leaves_the_store_as_it_was() {
    let mut source = TermStore::new(50);
    let a = symbol(&mut source, "a");
    let b = symbol(&mut source, "b");
    let pair = source.intern(TermNode::Collection { kind: CollectionKind::Tuple, elements: vec![a, b] }, budget()).unwrap();
    let mut dest = TermStore::new(51);
    let _ = symbol(&mut dest, "z");
    let tight = TermBudget { max_nodes: 3, ..TermBudget::default() };
    assert_eq!(
        dest.import(&source, pair, tight),
        Err(TermError::BudgetExceeded { resource: "nodes", limit: 3 })
    );
    assert_eq!(dest.len(), 1);
    assert_eq!(dest.metrics().symbols, 1);
    assert_eq!(dest.import(&dest_foreign(), pair, budget()), Err(TermError::ForeignTerm));
}

fn dest_foreign() -> TermStore {
    TermStore::new(52)
}

#[test]
fn digests_print_as_lowercase_hex() {
    let mut store = TermStore::new(60);
    let t = store.atom(Atom::Boolean(false), budget()).unwrap();
    let bytes = store.canonical_bytes(t, budget()).unwrap();
    let digest = store.digest(t, budget()).unwrap();
    assert_eq!(digest.to_string(), blake3::hash(&bytes).to_hex().to_string());
}

#[test]
fn a_store_within_the_walk_budget_always_encodes() {
    let mut store = TermStore::new(9);
    let x = symbol(&mut store, "x");
    let y = symbol(&mut store, "y");
    let xy = store.intern(TermNode::Apply { head: x, arguments: vec![y] }, budget()).unwrap();
    let exact = TermBudget { max_nodes: 3, max_children_per_node: 2, ..TermBudget::default() };
    assert_eq!(store.topological(xy, exact).unwrap().len(), 3);
    assert!(store.canonical_bytes(xy, exact).is_ok());
    assert!(store.digest(xy, exact).is_ok());
    let short = TermBudget { max_nodes: 2, ..TermBudget::default() };
    assert_eq!(store.topological(xy, short), Err(TermError::BudgetExceeded { resource: "nodes", limit: 2 }));
    let narrow = TermBudget { max_children_per_node: 0, ..TermBudget::default() };
    assert_eq!(store.topological(xy, narrow), Err(TermError::BudgetExceeded { resource: "children", limit: 0 }));
}
