use rts::line::Line;
use rts::method::Method;
use rts::structure::{Effect, Structure, StructureType};
use rts::token::{Token, TokenType};
use rts::tokenizer::readTokens;
use rts::RTS;

fn tokens(text: &str) -> Vec<Token> {
    let mut source = text.as_bytes().to_vec();
    source.push(b'\n');
    readTokens(source).into_iter().next().map(|l| l.tokens).unwrap_or_default()
}

fn cell(name: &str, value: &str) -> Structure {
    Structure::new(name.as_bytes().to_vec(), vec![Line::new(tokens(value))], None)
}

fn root() -> Method {
    Method { id: 0 }
}

#[test]
fn new_method_is_added_to_the_arena() {
    let mut rts = RTS::new(String::from("app"));
    let m = Method::new(&mut rts, String::from("m"), Vec::new(), Some(root()));
    assert_eq!(m.id, 2);
    assert_eq!(rts.structures.len(), 3);
    assert_eq!(rts.structures[2].name, b"m".to_vec());
    assert_eq!(rts.structures[2].parent, Some(0));
    assert_eq!(rts.structures[0].structures, vec![1]);
    let n = Method::new(&mut rts, String::from("n"), Vec::new(), None);
    assert_eq!(rts.structures[n.id].parent, None);
}

#[test]
fn names_resolve_up_the_scope_chain() {
    let mut rts = RTS::new(String::from("app"));
    let inner = Method::new(&mut rts, String::from("inner"), Vec::new(), Some(root()));
    rts.pushStructure(0, inner.id);
    root().pushMemoryCell(&mut rts, cell("x", "1"));
    assert_eq!(inner.getMemoryCellByName(&rts, "x"), Some(3));
    assert_eq!(inner.getMethodByName(&rts, "inner"), Some(inner));
    assert_eq!(inner.getMethodByName(&rts, "app"), Some(Method { id: 1 }));
    assert_eq!(inner.getMemoryCellByName(&rts, "y"), None);
    inner.pushMemoryCell(&mut rts, cell("x", "2"));
    assert_eq!(inner.getMemoryCellByName(&rts, "x"), Some(4));
    assert_eq!(root().getMemoryCellByName(&rts, "x"), Some(3));
    let mut outer = tokens("x");
    let mut shadowed = tokens("x");
    assert_eq!(root().memoryCellExpression(&mut rts, &mut outer).data, Some(b"1".to_vec()));
    assert_eq!(inner.memoryCellExpression(&mut rts, &mut shadowed).data, Some(b"2".to_vec()));
}

#[test]
fn memory_cell_holds_its_value() {
    let mut rts = RTS::new(String::from("app"));
    root().pushMemoryCell(&mut rts, cell("x", "2 + 3"));
    assert_eq!(rts.structures[2].lines.len(), 1);
    assert_eq!(rts.structures[2].lines[0].tokens, vec![Token::new(TokenType::UInt, b"5".to_vec())]);
    assert_eq!(rts.structures[2].parent, Some(0));
    let mut list = cell("l", "2 + 3");
    list.dataType = StructureType::List;
    root().pushMemoryCell(&mut rts, list);
    assert_eq!(rts.structures[3].lines[0].tokens.len(), 3);
}

#[test]
fn memory_cell_operations() {
    let mut rts = RTS::new(String::from("app"));
    root().pushMemoryCell(&mut rts, cell("x", "10"));
    let x = root().getMemoryCellByName(&rts, "x").unwrap();
    let value = |text: &str| Token { dataType: TokenType::CircleBracketBegin, data: None, tokens: tokens(text) };
    let read = |rts: &RTS| rts.structures[x].lines[0].tokens[0].data.clone().unwrap();
    root().memoryCellOp(&mut rts, x, TokenType::PlusEquals, value("5"));
    assert_eq!(read(&rts), b"15".to_vec());
    root().memoryCellOp(&mut rts, x, TokenType::MinusEquals, value("1"));
    assert_eq!(read(&rts), b"14".to_vec());
    root().memoryCellOp(&mut rts, x, TokenType::MultiplyEquals, value("x"));
    assert_eq!(read(&rts), b"196".to_vec());
    root().memoryCellOp(&mut rts, x, TokenType::DivideEquals, value("10"));
    assert_eq!(read(&rts), b"19".to_vec());
    root().memoryCellOp(&mut rts, x, TokenType::Equals, value("1 + 1"));
    assert_eq!(read(&rts), b"2".to_vec());
    root().memoryCellOp(&mut rts, x, TokenType::UnaryPlus, value("1"));
    assert_eq!(read(&rts), b"2".to_vec());
    root().memoryCellOp(&mut rts, x, TokenType::Plus, value("1"));
    assert_eq!(read(&rts), b"2".to_vec());
}

#[test]
fn expression_leaves_its_result() {
    let mut rts = RTS::new(String::from("app"));
    let mut value = tokens("1 + 2 * 3");
    let r = root().memoryCellExpression(&mut rts, &mut value);
    assert_eq!(r, Token::new(TokenType::UInt, b"7".to_vec()));
    assert_eq!(value, vec![Token::new(TokenType::UInt, b"7".to_vec())]);
    let mut none: Vec<Token> = Vec::new();
    let r = root().memoryCellExpression(&mut rts, &mut none);
    assert_eq!(r.dataType, TokenType::Nothing);
}

#[test]
fn line_is_tried_as_a_call() {
    let mut rts = RTS::new(String::from("app"));
    let line = |text: &str| Line::new(tokens(text));
    assert!(root().methodCall(&mut rts, &line("println(1 + 1)")));
    assert_eq!(rts.output, vec![Effect::Print(b"2\n".to_vec())]);
    assert!(!root().methodCall(&mut rts, &line("missing(1)")));
    assert!(!root().methodCall(&mut rts, &line("x = 1")));
    assert!(!root().methodCall(&mut rts, &line("Println(1)")));
    assert!(!root().methodCall(&mut rts, &line("println")));
    assert!(!root().methodCall(&mut rts, &Line::newEmpty()));
    rts.run("f()\n  println(\"f\")\n");
    assert!(root().methodCall(&mut rts, &line("f()")));
    assert_eq!(rts.output.len(), 3);
}
