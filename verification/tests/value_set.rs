use waffle::entity::{Memory, Signature, Value};
use waffle::ir::{FuncDecl, FunctionBody, GlobalData, MemoryData, Module, SignatureData, TableData, Type};
use waffle::value_set::ValueSet;

#[test]
fn a_new_set_is_empty() {
    let s = ValueSet::new();
    assert_eq!(s.len(), 0);
    assert!(!s.contains(Value(0)));
}

#[test]
fn insert_tells_whether_the_value_is_new() {
    let mut s = ValueSet::new();
    assert!(s.insert(Value(4)));
    assert!(s.insert(Value(2)));
    assert!(!s.insert(Value(4)));
    assert_eq!(s.len(), 2);
    assert!(s.contains(Value(2)));
    assert!(s.contains(Value(4)));
    assert!(!s.contains(Value(3)));
}

#[test]
fn a_cloned_set_has_the_same_values() {
    let mut s = ValueSet::new();
    s.insert(Value(1));
    let copy = s.clone();
    s.insert(Value(2));
    assert_eq!(copy.len(), 1);
    assert!(copy.contains(Value(1)));
    assert!(!copy.contains(Value(2)));
    assert_ne!(copy, s);
}

#[test]
fn a_cloned_body_is_equal_and_independent() {
    let mut f = FunctionBody::default();
    let e = f.entry;
    let p = f.add_blockparam(e, Type::I32);
    f.arg_pool.single(p);
    f.single_type_list(Type::F32);
    let copy = f.clone();
    assert_eq!(copy, f);
    f.add_block();
    assert_ne!(copy, f);
    assert_eq!(copy.blocks.len(), 1);
}

#[test]
fn a_module_keeps_its_declarations() {
    let mut m = Module::empty();
    let mem = m.memories.push(MemoryData { initial_pages: 2, maximum_pages: Some(4) });
    m.tables.push(TableData { ty: Type::FuncRef, max: None });
    m.globals.push(GlobalData { ty: Type::I64, mutable: true });
    let sig = m.signatures.push(SignatureData { params: vec![Type::I32], returns: vec![] });
    let imported = m.funcs.push(FuncDecl::Import(sig, "print".to_string()));
    let compiled = m.funcs.push(FuncDecl::Compiled(sig, "done".to_string(), vec![0x0b]));
    assert_eq!(mem, Memory(0));
    assert_eq!(sig, Signature(0));
    assert_eq!(m.funcs.at(imported).sig(), sig);
    assert!(m.funcs.at(imported).body().is_none());
    assert!(m.funcs.at(compiled).body().is_none());
    let copy = m.clone();
    assert_eq!(copy, m);
    assert_eq!(copy.memories.get(mem), Some(&MemoryData { initial_pages: 2, maximum_pages: Some(4) }));
}

#[test]
fn to_vec_lists_the_values_in_handle_order() {
    let mut s = ValueSet::new();
    assert_eq!(s.to_vec(), vec![]);
    for v in [7usize, 2, 9, 2, 0, 7] {
        s.insert(Value(v));
    }
    assert_eq!(s.to_vec(), vec![Value(0), Value(2), Value(7), Value(9)]);
    assert_eq!(s.to_vec().len(), s.len());
}
