//! The cursor and scope: peek, read, save and restore, frame
//! isolation across push and pop, and the value accessors.

use binpat::Context;
use binpat::Data;
use binpat::ParseError;

#[test]
fn cursor_peek_read_save_restore() {
    let bytes = vec![10u8, 20u8, 30u8];
    let mut ctx = Context::new(&bytes);
    assert_eq!(ctx.peek(2).unwrap(), &[10, 20]);
    // peek does not advance
    assert_eq!(ctx.peek(2).unwrap(), &[10, 20]);
    let p = ctx.save();
    assert_eq!(ctx.read(2).unwrap(), &[10, 20]);
    assert_eq!(ctx.peek(1).unwrap(), &[30]);
    // a failed read leaves the position alone
    assert!(matches!(ctx.read(2).unwrap_err(), ParseError::EndOfInput));
    assert_eq!(ctx.read(1).unwrap(), &[30]);
    ctx.restore(p);
    assert_eq!(ctx.read(1).unwrap(), &[10]);
}

#[test]
fn scope_set_get() {
    let bytes: Vec<u8> = vec![];
    let mut ctx = Context::new(&bytes);
    assert!(ctx.scope().get(1).is_none());
    ctx.set_var(1, Data::Int(42));
    assert_eq!(ctx.scope().get(1).unwrap(), &Data::Int(42));
    ctx.set_var(1, Data::Int(43));
    assert_eq!(ctx.scope().get(1).unwrap(), &Data::Int(43));
}

#[test]
fn scope_frames_isolate_writes() {
    let bytes: Vec<u8> = vec![];
    let mut ctx = Context::new(&bytes);
    ctx.set_var(1, Data::Int(10));
    ctx.push_stack();
    // the child frame starts as a copy of the parent
    assert_eq!(ctx.scope().get(1).unwrap(), &Data::Int(10));
    ctx.set_var(1, Data::Int(20));
    ctx.set_var(2, Data::Int(30));
    assert_eq!(ctx.scope().get(1).unwrap(), &Data::Int(20));
    ctx.pop_stack();
    // popping loses the child's writes
    assert_eq!(ctx.scope().get(1).unwrap(), &Data::Int(10));
    assert!(ctx.scope().get(2).is_none());
}

#[test]
fn scope_mut_writes_current_frame() {
    let bytes: Vec<u8> = vec![];
    let mut ctx = Context::new(&bytes);
    ctx.scope_mut().set(9, Data::Str("x".to_string()));
    assert_eq!(ctx.scope().get(9).unwrap(), &Data::Str("x".to_string()));
}

#[test]
fn data_accessors() {
    assert_eq!(Data::Int(-3).i64(), Some(-3));
    assert_eq!(Data::Int(-3).u8(), Some(253));
    assert_eq!(Data::Int(300).u8(), Some(44));
    assert_eq!(Data::Int(70000).u16(), Some(4464));
    assert_eq!(Data::Int(-1).u32(), Some(u32::MAX));
    assert_eq!(Data::Int(-1).u64(), Some(u64::MAX));
    assert_eq!(Data::Int(255).i8(), Some(-1));
    assert_eq!(Data::Int(65535).i16(), Some(-1));
    assert_eq!(Data::Int(-1).i32(), Some(-1));
    assert_eq!(Data::Str("s".to_string()).i64(), None);
    assert_eq!(Data::Bytes(vec![1]).bytes(), Some(&vec![1u8]));
    assert_eq!(Data::Str("s".to_string()).str(), Some(&"s".to_string()));
    let list = Data::seq(vec![Data::Int(1)]);
    assert_eq!(list.list(), Some(&vec![Data::Int(1)]));
    assert_eq!(Data::Int(1).list(), None);
}

#[test]
fn data_dup_and_equality() {
    let v = Data::seq(vec![
        Data::Int(1),
        Data::Float(0x3FF0000000000000),
        Data::Bytes(vec![1, 2, 3]),
        Data::Str("abc".to_string()),
        Data::seq(vec![Data::Int(2)]),
    ]);
    let w = v.dup();
    assert_eq!(v, w);
    assert_ne!(v, Data::Int(1));
    assert_ne!(
        Data::seq(vec![Data::Int(1)]),
        Data::seq(vec![Data::Int(2)])
    );
    assert_ne!(Data::Bytes(vec![1]), Data::Bytes(vec![1, 2]));
    assert!(binpat::data_eq(&v, &w));
}
