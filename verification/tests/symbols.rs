use script_compiler::error::ErrorKind;
use script_compiler::ir::ScalarType;
use script_compiler::symbols::{Slot, SymbolTable};

fn slot(index: usize) -> Slot {
    Slot { index, ty: ScalarType::I32, mutable: true }
}

fn name(text: &str) -> String {
    text.to_string()
}

#[test]
fn new_table_has_one_scope_and_binds_nothing() {
    let table = SymbolTable::new();
    assert_eq!(table.depth(), 1);
    let err = table.resolve(&name("x")).unwrap_err();
    assert_eq!(err.kind, ErrorKind::UndefinedVariable);
    assert_eq!(err.detail, "x");
}

#[test]
fn declare_then_resolve() {
    let mut table = SymbolTable::new();
    assert!(table.declare(name("x"), slot(0)).is_ok());
    assert!(table.declare(name("y"), Slot { index: 1, ty: ScalarType::I32, mutable: false }).is_ok());
    assert_eq!(table.resolve(&name("x")).unwrap(), slot(0));
    assert_eq!(
        table.resolve(&name("y")).unwrap(),
        Slot { index: 1, ty: ScalarType::I32, mutable: false }
    );
    assert!(table.resolve(&name("z")).is_err());
}

#[test]
fn declare_twice_in_one_scope_is_a_duplicate() {
    let mut table = SymbolTable::new();
    assert!(table.declare(name("x"), slot(0)).is_ok());
    let err = table.declare(name("x"), slot(1)).unwrap_err();
    assert_eq!(err.kind, ErrorKind::DuplicateBinding);
    assert_eq!(err.detail, "x");
    assert_eq!(table.resolve(&name("x")).unwrap(), slot(0));
}

#[test]
fn inner_scope_shadows_until_it_is_popped() {
    let mut table = SymbolTable::new();
    assert!(table.declare(name("x"), slot(0)).is_ok());
    table.push_scope();
    assert_eq!(table.depth(), 2);
    assert_eq!(table.resolve(&name("x")).unwrap(), slot(0));
    assert!(table.declare(name("x"), slot(1)).is_ok());
    assert!(table.declare(name("inner"), slot(2)).is_ok());
    assert_eq!(table.resolve(&name("x")).unwrap(), slot(1));
    table.push_scope();
    assert_eq!(table.resolve(&name("x")).unwrap(), slot(1));
    assert_eq!(table.resolve(&name("inner")).unwrap(), slot(2));
    assert!(table.pop_scope());
    assert!(table.pop_scope());
    assert_eq!(table.depth(), 1);
    assert_eq!(table.resolve(&name("x")).unwrap(), slot(0));
    assert!(table.resolve(&name("inner")).is_err());
}

#[test]
fn outermost_scope_is_never_popped() {
    let mut table = SymbolTable::new();
    assert!(table.declare(name("x"), slot(0)).is_ok());
    assert!(!table.pop_scope());
    assert_eq!(table.depth(), 1);
    assert_eq!(table.resolve(&name("x")).unwrap(), slot(0));
}
