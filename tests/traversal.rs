use llvm_ir::handle::Handle;
use llvm_ir::iterators::{
    all_but_last, collect, get_basic_blocks, get_declared_functions, get_defined_functions,
    get_functions, get_global_aliases, get_global_ifuncs, get_globals, get_instructions,
    get_parameters, LinkedTraversal, Traversal,
};

fn h(addr: usize) -> Handle {
    Handle::from_addr(addr)
}

/// A foreign collection whose items are the handles `base + 1 ..= base + n`.
fn first_of(n: usize, base: usize) -> impl Fn(Handle) -> Handle {
    move |_parent: Handle| if n == 0 { Handle::null() } else { h(base + 1) }
}

fn next_of(n: usize, base: usize) -> impl Fn(Handle) -> Handle {
    move |item: Handle| if item.addr < base + n { h(item.addr + 1) } else { Handle::null() }
}

fn addrs(v: Vec<Handle>) -> Vec<usize> {
    v.into_iter().map(|x| x.addr).collect()
}

#[test]
fn null_handle_is_null() {
    assert!(Handle::null().is_null());
    assert!(!h(7).is_null());
    assert_eq!(h(7).addr, 7);
}

#[test]
fn traversal_yields_chain_in_order() {
    let t = get_globals(h(100), first_of(3, 10), next_of(3, 10));
    assert_eq!(addrs(collect(t)), vec![11, 12, 13]);
}

#[test]
fn traversal_of_empty_collection_yields_nothing() {
    let t = get_globals(h(100), first_of(0, 10), next_of(0, 10));
    assert_eq!(addrs(collect(t)), Vec::<usize>::new());
}

#[test]
fn traversal_stops_at_null_and_stays_there() {
    let mut t = LinkedTraversal::new(h(1), next_of(2, 0));
    assert_eq!(t.next_item(), Some(h(1)));
    assert_eq!(t.next_item(), Some(h(2)));
    assert_eq!(t.next_item(), None);
    assert_eq!(t.next_item(), None);
}

#[test]
fn traversal_from_null_start_is_empty() {
    let mut t = LinkedTraversal::new(Handle::null(), next_of(2, 0));
    assert_eq!(t.next_item(), None);
}

#[test]
fn traversal_passes_parent_to_first() {
    let first = |parent: Handle| h(parent.addr + 1);
    let next = |item: Handle| if item.addr < 42 { h(item.addr + 1) } else { Handle::null() };
    let t = get_parameters(h(40), first, next);
    assert_eq!(addrs(collect(t)), vec![41, 42]);
}

#[test]
fn every_collection_kind_traverses() {
    let expect = vec![21, 22];
    assert_eq!(addrs(collect(get_functions(h(1), first_of(2, 20), next_of(2, 20)))), expect);
    assert_eq!(addrs(collect(get_globals(h(1), first_of(2, 20), next_of(2, 20)))), expect);
    assert_eq!(
        addrs(collect(get_global_aliases(h(1), first_of(2, 20), next_of(2, 20)))),
        expect
    );
    assert_eq!(addrs(collect(get_global_ifuncs(h(1), first_of(2, 20), next_of(2, 20)))), expect);
    assert_eq!(addrs(collect(get_parameters(h(1), first_of(2, 20), next_of(2, 20)))), expect);
    assert_eq!(addrs(collect(get_basic_blocks(h(1), first_of(2, 20), next_of(2, 20)))), expect);
    assert_eq!(addrs(collect(get_instructions(h(1), first_of(2, 20), next_of(2, 20)))), expect);
}

#[test]
fn defined_functions_have_a_body() {
    let has_body = |f: Handle| f.addr % 2 == 0;
    let t = get_defined_functions(h(1), first_of(5, 0), next_of(5, 0), has_body);
    assert_eq!(addrs(collect(t)), vec![2, 4]);
}

#[test]
fn declared_functions_have_no_body() {
    let has_body = |f: Handle| f.addr % 2 == 0;
    let t = get_declared_functions(h(1), first_of(5, 0), next_of(5, 0), has_body);
    assert_eq!(addrs(collect(t)), vec![1, 3, 5]);
}

#[test]
fn defined_and_declared_partition_the_functions() {
    let has_body = |f: Handle| f.addr == 2 || f.addr == 3 || f.addr == 6;
    let defined = addrs(collect(get_defined_functions(h(1), first_of(6, 0), next_of(6, 0), has_body)));
    let declared =
        addrs(collect(get_declared_functions(h(1), first_of(6, 0), next_of(6, 0), has_body)));
    assert_eq!(defined, vec![2, 3, 6]);
    assert_eq!(declared, vec![1, 4, 5]);
    for d in &defined {
        assert!(!declared.contains(d));
    }
    let mut all = defined.clone();
    all.extend(declared);
    all.sort();
    assert_eq!(all, vec![1, 2, 3, 4, 5, 6]);
}

#[test]
fn partition_of_empty_module_is_empty() {
    let has_body = |_f: Handle| true;
    let d = get_defined_functions(h(1), first_of(0, 0), next_of(0, 0), has_body);
    let u = get_declared_functions(h(1), first_of(0, 0), next_of(0, 0), has_body);
    assert!(collect(d).is_empty());
    assert!(collect(u).is_empty());
}

#[test]
fn all_but_last_of_three_yields_two() {
    let t = get_instructions(h(1), first_of(3, 0), next_of(3, 0));
    assert_eq!(addrs(collect(all_but_last(t))), vec![1, 2]);
}

#[test]
fn all_but_last_of_empty_yields_nothing() {
    let t = get_instructions(h(1), first_of(0, 0), next_of(0, 0));
    assert_eq!(addrs(collect(all_but_last(t))), Vec::<usize>::new());
}

#[test]
fn all_but_last_of_one_yields_nothing() {
    let t = get_instructions(h(1), first_of(1, 0), next_of(1, 0));
    assert_eq!(addrs(collect(all_but_last(t))), Vec::<usize>::new());
}

#[test]
fn all_but_last_keeps_length_minus_one() {
    for n in 0..8usize {
        let t = get_basic_blocks(h(1), first_of(n, 0), next_of(n, 0));
        let out = addrs(collect(all_but_last(t)));
        assert_eq!(out.len(), n.saturating_sub(1));
        for (i, a) in out.iter().enumerate() {
            assert_eq!(*a, i + 1);
        }
    }
}

#[test]
fn all_but_last_steps_lazily() {
    let t = get_instructions(h(1), first_of(3, 0), next_of(3, 0));
    let mut a = all_but_last(t);
    assert_eq!(a.next_item(), Some(h(1)));
    assert_eq!(a.next_item(), Some(h(2)));
    assert_eq!(a.next_item(), None);
    assert_eq!(a.next_item(), None);
}

#[test]
fn all_but_last_over_a_filtered_view() {
    let has_body = |f: Handle| f.addr != 3;
    let d = get_defined_functions(h(1), first_of(5, 0), next_of(5, 0), has_body);
    assert_eq!(addrs(collect(all_but_last(d))), vec![1, 2, 4]);
}

#[test]
fn all_but_last_nests() {
    let t = get_instructions(h(1), first_of(4, 0), next_of(4, 0));
    assert_eq!(addrs(collect(all_but_last(all_but_last(t)))), vec![1, 2]);
}

#[test]
fn all_but_last_reads_one_item_ahead() {
    let calls = std::cell::Cell::new(0usize);
    let next = |item: Handle| {
        calls.set(calls.get() + 1);
        if item.addr < 4 { h(item.addr + 1) } else { Handle::null() }
    };
    let mut a = all_but_last(LinkedTraversal::new(h(1), next));
    assert_eq!(calls.get(), 0);
    assert_eq!(a.next_item(), Some(h(1)));
    assert_eq!(calls.get(), 2);
    assert_eq!(a.next_item(), Some(h(2)));
    assert_eq!(calls.get(), 3);
}

#[test]
fn linked_to_vec_gathers_the_chain() {
    let t = get_functions(h(1), first_of(3, 30), next_of(3, 30));
    assert_eq!(addrs(t.to_vec()), vec![31, 32, 33]);
    let e = get_functions(h(1), first_of(0, 30), next_of(0, 30));
    assert!(e.to_vec().is_empty());
}
