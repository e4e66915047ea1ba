use rrr::{parse, Ast, AstKind, BufWalker, Len, Number, TreeError, Value, ValueTree};

fn s(children: Vec<Value>) -> Value {
    Value::Struct(children)
}

fn a(children: Vec<Value>) -> Value {
    Value::Array(children)
}

fn u8v(n: u8) -> Value {
    Value::Number(Number::UInt8(n))
}

fn u16v(n: u16) -> Value {
    Value::Number(Number::UInt16(n))
}

const RECORD_BUF: [u8; 63] = [
    0x07, 0xe6, 0x01, 0x01, 0x54, 0x4f, 0x4b, 0x59, 0x4f, 0x00, 0x00, 0x64, 0x00, 0x0a, 0x4f,
    0x53, 0x41, 0x4b, 0x41, 0x00, 0x00, 0x64, 0x00, 0x0a, 0x4e, 0x41, 0x47, 0x4f, 0x59, 0x41,
    0x00, 0x00, 0x64, 0x00, 0x0a, 0x46, 0x55, 0x4b, 0x55, 0x4f, 0x4b, 0x41, 0x00, 0x00, 0x64,
    0x00, 0x0a, 0x30, 0x31, 0x32, 0x33, 0x34, 0x35, 0x36, 0x37, 0x38, 0x39, 0x61, 0x62, 0x63,
    0x64, 0x65, 0x66,
];

const SCHEMA_WITH_STR: &str = "date:[year:UINT16,month:UINT8,day:UINT8],\
    data:{4}[loc:STR,temp:INT16,rhum:UINT16],comment:<16>NSTR";

/// Walks a tree of fixed-length arrays, calling `start` before and `end`
/// after each node.
fn walk(node: &Ast, start: &mut dyn FnMut(&Ast), end: &mut dyn FnMut(&Ast)) {
    start(node);
    match &node.kind {
        AstKind::Struct(children) => {
            for child in children {
                walk(child, start, end);
            }
        },
        AstKind::Array(Len::Fixed(n), elem) => {
            for _ in 0..*n {
                walk(elem, start, end);
            }
        },
        AstKind::Array(_, _) => panic!("only fixed-length arrays are walked here"),
        _ => {},
    }
    end(node);
}

fn record(loc: &str) -> Value {
    s(vec![
        Value::String(loc.to_owned()),
        Value::Number(Number::Int16(100)),
        u16v(10),
    ])
}

#[test]
fn visitor_read() {
    let schema = parse(SCHEMA_WITH_STR).unwrap();
    let mut walker = BufWalker::new(&RECORD_BUF);
    let mut values = Vec::new();
    walk(
        &schema.ast,
        &mut |node| {
            if !matches!(node.kind, AstKind::Struct(_) | AstKind::Array(_, _)) {
                values.push(walker.read(node).unwrap());
            }
        },
        &mut |_| {},
    );
    assert_eq!(walker.pos(), 63);
    let mut expected = vec![u16v(2022), u8v(1), u8v(1)];
    for loc in ["TOKYO", "OSAKA", "NAGOYA", "FUKUOKA"] {
        expected.push(Value::String(loc.to_owned()));
        expected.push(Value::Number(Number::Int16(100)));
        expected.push(u16v(10));
    }
    expected.push(Value::String("0123456789abcdef".to_owned()));
    assert_eq!(values, expected);
}

#[test]
fn visitor_read_and_structure() {
    let schema = parse(SCHEMA_WITH_STR).unwrap();
    let mut walker = BufWalker::new(&RECORD_BUF);
    let tree = std::cell::RefCell::new(ValueTree::new());
    walk(
        &schema.ast,
        &mut |node| {
            let value = walker.read(node).unwrap();
            tree.borrow_mut().add_value(value).unwrap();
        },
        &mut |node| {
            if matches!(node.kind, AstKind::Struct(_) | AstKind::Array(_, _)) {
                tree.borrow_mut().close_value().unwrap();
            }
        },
    );
    assert_eq!(walker.pos(), 63);
    let tree = tree.borrow();
    assert_eq!(
        tree.get(),
        Ok(&s(vec![
            s(vec![u16v(2022), u8v(1), u8v(1)]),
            a(vec![record("TOKYO"), record("OSAKA"), record("NAGOYA"), record("FUKUOKA")]),
            Value::String("0123456789abcdef".to_owned()),
        ]))
    );
}

#[test]
fn value_tree_with_single_empty_layer() {
    let mut tree = ValueTree::new();
    tree.add_value(Value::new_struct()).unwrap();
    tree.close_value().unwrap();
    assert_eq!(tree.get(), Ok(&s(Vec::new())));
}

#[test]
fn value_tree_with_single_layer() {
    let mut tree = ValueTree::new();
    tree.add_value(Value::new_struct()).unwrap();
    tree.add_value(u16v(2022)).unwrap();
    tree.add_value(u8v(1)).unwrap();
    tree.close_value().unwrap();
    assert_eq!(tree.get(), Ok(&s(vec![u16v(2022), u8v(1)])));
}

#[test]
fn value_tree_with_two_layers_without_non_struct_values() {
    let mut tree = ValueTree::new();
    tree.add_value(Value::new_struct()).unwrap();
    tree.add_value(Value::new_struct()).unwrap();
    tree.close_value().unwrap();
    tree.close_value().unwrap();
    assert_eq!(tree.get(), Ok(&s(vec![s(Vec::new())])));
}

#[test]
fn value_tree_with_single_layer_with_number_and_struct() {
    let mut tree = ValueTree::new();
    tree.add_value(Value::new_struct()).unwrap();
    tree.add_value(u16v(2022)).unwrap();
    tree.add_value(Value::new_struct()).unwrap();
    tree.close_value().unwrap();
    tree.close_value().unwrap();
    assert_eq!(tree.get(), Ok(&s(vec![u16v(2022), s(Vec::new())])));
}

#[test]
fn value_tree_with_two_layers_with_numbers() {
    let mut tree = ValueTree::new();
    tree.add_value(Value::new_struct()).unwrap();
    tree.add_value(Value::new_struct()).unwrap();
    tree.add_value(u16v(2022)).unwrap();
    tree.add_value(u8v(1)).unwrap();
    tree.close_value().unwrap();
    tree.close_value().unwrap();
    assert_eq!(tree.get(), Ok(&s(vec![s(vec![u16v(2022), u8v(1)])])));
}

#[test]
fn value_tree_with_layers_unclosed() {
    let mut tree = ValueTree::new();
    tree.add_value(Value::new_struct()).unwrap();
    tree.add_value(Value::new_struct()).unwrap();
    tree.close_value().unwrap();
    assert_eq!(tree.get(), Err(TreeError::Incomplete));
}

#[test]
fn value_tree_with_struct_and_array_layers() {
    let mut tree = ValueTree::new();
    tree.add_value(Value::new_struct()).unwrap();
    tree.add_value(u16v(2022)).unwrap();
    tree.add_value(u8v(1)).unwrap();
    tree.add_value(Value::new_array()).unwrap();
    tree.add_value(Value::new_struct()).unwrap();
    tree.add_value(u8v(1)).unwrap();
    tree.close_value().unwrap();
    tree.add_value(Value::new_struct()).unwrap();
    tree.add_value(u8v(2)).unwrap();
    tree.close_value().unwrap();
    tree.close_value().unwrap();
    tree.close_value().unwrap();
    assert_eq!(
        tree.get(),
        Ok(&s(vec![u16v(2022), u8v(1), a(vec![s(vec![u8v(1)]), s(vec![u8v(2)])])]))
    );
}

#[test]
fn value_tree_with_struct_and_nested_array_layers() {
    let mut tree = ValueTree::new();
    tree.add_value(Value::new_struct()).unwrap();
    tree.add_value(u16v(2022)).unwrap();
    tree.add_value(u8v(1)).unwrap();
    tree.add_value(Value::new_array()).unwrap();
    tree.add_value(Value::new_struct()).unwrap();
    tree.add_value(u8v(1)).unwrap();
    tree.add_value(Value::new_array()).unwrap();
    tree.add_value(Value::new_struct()).unwrap();
    tree.add_value(u8v(1)).unwrap();
    tree.close_value().unwrap();
    tree.add_value(Value::new_struct()).unwrap();
    tree.add_value(u8v(2)).unwrap();
    tree.close_value().unwrap();
    tree.close_value().unwrap();
    tree.add_value(Value::new_array()).unwrap();
    tree.add_value(Value::new_struct()).unwrap();
    tree.add_value(u8v(1)).unwrap();
    tree.close_value().unwrap();
    tree.add_value(Value::new_struct()).unwrap();
    tree.add_value(u8v(2)).unwrap();
    tree.close_value().unwrap();
    tree.close_value().unwrap();
    tree.close_value().unwrap();
    tree.close_value().unwrap();
    tree.close_value().unwrap();
    let inner = || a(vec![s(vec![u8v(1)]), s(vec![u8v(2)])]);
    assert_eq!(
        tree.get(),
        Ok(&s(vec![u16v(2022), u8v(1), a(vec![s(vec![u8v(1), inner(), inner()])])]))
    );
}

#[test]
fn value_tree_refuses_values_after_completion() {
    let mut tree = ValueTree::new();
    tree.add_value(Value::new_struct()).unwrap();
    tree.close_value().unwrap();
    assert_eq!(tree.add_value(u8v(1)), Err(TreeError::Completed));
    assert_eq!(tree.close_value(), Err(TreeError::Completed));
}
