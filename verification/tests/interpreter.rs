use rts::parser::{expression, readLines};
use rts::structure::{Effect, Pause, StructureMut, StructureType};
use rts::token::{Token, TokenType};
use rts::tokenizer::readTokens;
use rts::RTS;

fn session() -> RTS {
    RTS::new(String::from("app"))
}

fn run(script: &str) -> RTS {
    let mut rts = session();
    rts.run(script);
    rts
}

fn printed(rts: &RTS) -> String {
    let mut out = String::new();
    for effect in &rts.output {
        if let Effect::Print(text) | Effect::Write(text) = effect {
            out.push_str(&String::from_utf8_lossy(text));
        }
    }
    out
}

fn eval(rts: &mut RTS, text: &str) -> Token {
    let mut source = text.as_bytes().to_vec();
    source.push(b'\n');
    let lines = readTokens(source);
    let tokens = lines.into_iter().next().map(|l| l.tokens).unwrap_or_default();
    let depth = rts.maxDepth;
    expression(rts, 0, tokens, depth)
}

fn value(text: &str) -> (TokenType, Option<Vec<u8>>) {
    let mut rts = session();
    let token = eval(&mut rts, text);
    (token.dataType, token.data)
}

fn some(text: &str) -> Option<Vec<u8>> {
    Some(text.as_bytes().to_vec())
}

#[test]
fn expression_precedence() {
    assert_eq!(value("2+3*4"), (TokenType::UInt, some("14")));
    assert_eq!(value("(2+3)*4"), (TokenType::UInt, some("20")));
    assert_eq!(value("10/3"), (TokenType::UInt, some("3")));
}

#[test]
fn integer_division_rounds_toward_zero() {
    assert_eq!(value("-7/2"), (TokenType::Int, some("-3")));
    assert_eq!(value("7/(0-2)"), (TokenType::Int, some("-3")));
    assert_eq!(value("1/0"), (TokenType::Nothing, None));
}

#[test]
fn negative_literal_behind_a_value_is_added() {
    assert_eq!(value("5 -3"), (TokenType::Int, some("2")));
    assert_eq!(value("2-3"), (TokenType::Int, some("-1")));
    assert_eq!(value("2 - 3"), (TokenType::Int, some("-1")));
}

#[test]
fn comparisons_and_logic() {
    assert_eq!(value("2 < 3"), (TokenType::Bool, some("1")));
    assert_eq!(value("2 >= 3"), (TokenType::Bool, some("0")));
    assert_eq!(value("2 = 2"), (TokenType::Bool, some("1")));
    assert_eq!(value("2 != 2"), (TokenType::Bool, some("0")));
    assert_eq!(value("true & false"), (TokenType::Bool, some("0")));
    assert_eq!(value("true | false"), (TokenType::Bool, some("1")));
    assert_eq!(value("\"a\" < \"b\""), (TokenType::Bool, some("1")));
    assert_eq!(value("\"ab\" < \"a\""), (TokenType::Bool, some("0")));
}

#[test]
fn text_is_joined() {
    assert_eq!(value("\"ab\" + \"cd\""), (TokenType::String, some("abcd")));
    assert_eq!(value("'a' + 'b'"), (TokenType::String, some("ab")));
}

#[test]
fn undefined_operation_has_no_value() {
    assert_eq!(value("\"a\" + 1"), (TokenType::Nothing, None));
    assert_eq!(value("\"a\" * \"b\""), (TokenType::Nothing, None));
    assert_eq!(value("true + true"), (TokenType::Nothing, None));
}

#[test]
fn overflow_has_no_value() {
    assert_eq!(value("9223372036854775807 + 1"), (TokenType::Nothing, None));
    assert_eq!(value("9223372036854775807 + 0"), (TokenType::UInt, some("9223372036854775807")));
    assert_eq!(value("99999999999999999999 + 1"), (TokenType::Nothing, None));
}

#[test]
fn unresolved_name_has_no_value() {
    assert_eq!(value("missing"), (TokenType::Nothing, None));
    assert_eq!(value("missing + 1"), (TokenType::Nothing, None));
}

#[test]
fn binding_and_compound_assignment() {
    let rts = run("a = 10\na += 5\na *= 2\na -= 1\na /= 3\nprintln(a)\n");
    assert_eq!(printed(&rts), "9\n");
    let rts = run("a = 1\na++\na++\na--\nprintln(a)\n");
    assert_eq!(printed(&rts), "2\n");
}

#[test]
fn println_and_print() {
    let rts = run("print(\"a\")\nprintln(\"b\")\nprintln(1 + 2)\n");
    assert_eq!(
        rts.output,
        vec![
            Effect::Print(b"a".to_vec()),
            Effect::Print(b"b\n".to_vec()),
            Effect::Print(b"3\n".to_vec())
        ]
    );
}

#[test]
fn builtin_conversions() {
    assert_eq!(value("int(\"12\")"), (TokenType::Int, some("12")));
    assert_eq!(value("str(12)"), (TokenType::String, some("12")));
    assert_eq!(value("char(65)"), (TokenType::Char, some("A")));
    assert_eq!(value("char(300)"), (TokenType::Nothing, None));
    assert_eq!(value("type(1)"), (TokenType::String, some("UInt")));
    assert_eq!(value("type(-1)"), (TokenType::String, some("Int")));
    assert_eq!(value("type(\"a\")"), (TokenType::String, some("String")));
    assert_eq!(value("type(missing)"), (TokenType::String, some("None")));
    assert_eq!(value("int()"), (TokenType::Nothing, None));
}

#[test]
fn scope_resolution() {
    let rts = run("x = 1\nf\n  x = 2\n  y = 5\nprintln(x)\nprintln(y)\n");
    assert_eq!(printed(&rts), "2\n\n");
}

#[test]
fn inner_declaration_shadows_without_changing_the_outer() {
    let script = "x = 1\nf(x)\n  x = 7\n  = x\nf(3)\nprintln(x)\n";
    let rts = run(script);
    assert_eq!(printed(&rts), "1\n");
}

#[test]
fn function_call_with_result() {
    let script = "add(a, b) -> Int\n  = a + b\nprintln(add(2, 3))\nprintln(add(10, 20))\n";
    let rts = run(script);
    assert_eq!(printed(&rts), "5\n30\n");
}

#[test]
fn call_of_what_is_not_there_has_no_value() {
    assert_eq!(value("nothing(1)"), (TokenType::Nothing, None));
}

#[test]
fn conditional_exclusivity() {
    let script = "x = 2\n? x = 1\n  println(\"one\")\n? x = 2\n  println(\"two\")\n? x = 2\n  println(\"again\")\n?\n  println(\"else\")\nprintln(\"after\")\n";
    assert_eq!(printed(&run(script)), "two\nafter\n");
    let script = "x = 9\n? x = 1\n  println(\"one\")\n? x = 2\n  println(\"two\")\n?\n  println(\"else\")\nprintln(\"after\")\n";
    assert_eq!(printed(&run(script)), "else\nafter\n");
    let script = "x = 9\n? x = 1\n  println(\"one\")\n? x = 2\n  println(\"two\")\nprintln(\"after\")\n";
    assert_eq!(printed(&run(script)), "after\n");
}

#[test]
fn reentrancy() {
    let script = "f() -> Int\n  = 40 + 2\nprintln(f())\nprintln(f())\n";
    let rts = run(script);
    assert_eq!(printed(&rts), "42\n42\n");
    for structure in &rts.structures {
        assert_eq!(structure.lineIndex, 0);
    }
}

#[test]
fn body_can_be_run_again() {
    let mut rts = session();
    rts.run("println(\"x\")\n");
    readLines(&mut rts, 0);
    assert_eq!(printed(&rts), "x\nx\n");
    assert_eq!(rts.structures[0].lineIndex, 0);
}

#[test]
fn eager_declaration() {
    let rts = run("f\n  println(\"in\")\nprintln(\"out\")\n");
    assert_eq!(printed(&rts), "in\nout\n");
}

#[test]
fn exit_halts_the_run() {
    let rts = run("println(\"a\")\nexit(3)\nprintln(\"b\")\n");
    assert_eq!(printed(&rts), "a\n");
    assert!(rts.exit);
    assert_eq!(rts.exitCode, 3);
    assert!(!rts.overflow);
}

#[test]
fn depth_limit_is_reported() {
    let mut rts = session();
    rts.setLimits(8, 1000);
    rts.run("f()\n  f()\nprintln(\"end\")\n");
    assert!(rts.exit);
    assert!(rts.overflow);
    assert_eq!(rts.exitCode, 70);
    assert_eq!(printed(&rts), "");
}

#[test]
fn step_limit_is_reported() {
    let mut rts = session();
    rts.setLimits(50, 2);
    rts.run("println(1)\nprintln(2)\nprintln(3)\n");
    assert_eq!(printed(&rts), "1\n2\n");
    assert!(rts.overflow);
}

#[test]
fn input_is_read_line_by_line() {
    let mut rts = session();
    rts.setInput(vec![b"first  \n".to_vec(), b"second".to_vec()]);
    rts.run("a = input(\"? \")\nprintln(a)\nprintln(input())\nprintln(input())\n");
    assert_eq!(printed(&rts), "? first\nsecond\n\n");
}

#[test]
fn sleep_and_exec_are_recorded() {
    let rts = run("sleep(250)\nexec(\"echo hi\")\nsleep(\"x\")\n");
    assert_eq!(
        rts.output,
        vec![Effect::Sleep(250), Effect::Exec(b"echo hi".to_vec()), Effect::Sleep(0)]
    );
}

#[test]
fn random_number_lies_in_its_range() {
    for _ in 0..50 {
        let mut rts = session();
        let token = eval(&mut rts, "randUInt(3, 6)");
        assert_eq!(token.dataType, TokenType::UInt);
        let n: usize = String::from_utf8(token.data.unwrap()).unwrap().parse().unwrap();
        assert!(3 <= n && n <= 6);
        assert_eq!(rts.drawn, vec![n]);
    }
    let mut rts = session();
    assert_eq!(eval(&mut rts, "randUInt(6, 3)").dataType, TokenType::Nothing);
    assert!(rts.drawn.is_empty());
    assert_eq!(eval(&mut rts, "randUInt(6)").dataType, TokenType::Nothing);
    let token = eval(&mut rts, "randUInt(4, 4)");
    assert_eq!(token.data, some("4"));
    assert_eq!(rts.drawn, vec![4]);
    let token = eval(&mut rts, "randUInt(7, 7) + randUInt(1, 1)");
    assert_eq!(token.data, some("8"));
    assert_eq!(rts.drawn, vec![4, 7, 1]);
}

#[test]
fn formatted_string_is_interpolated() {
    let rts = run("x = 4\nprintln(f\"x is {x} and {x + 1}!\")\n");
    assert_eq!(printed(&rts), "x is 4 and 5!\n");
}

#[test]
fn host_binding_is_reached_by_path() {
    let mut rts = session();
    rts.newStructure(
        String::from("test"),
        StructureMut::Constant,
        StructureType::String,
        vec![Token::new(TokenType::String, b"mod var".to_vec())],
    );
    rts.run("println(app.test)\n");
    assert_eq!(printed(&rts), "mod var\n");
    assert_eq!(rts.structures[2].name, b"test".to_vec());
    assert_eq!(rts.structures[2].mutability, StructureMut::Constant);
    assert_eq!(rts.structures[2].dataType, StructureType::String);
    assert_eq!(rts.structures[2].parent, Some(1));
    assert_eq!(rts.structures[1].structures, vec![2]);
}

#[test]
fn arguments_of_the_program() {
    let mut rts = session();
    rts.setArguments(vec![b"one".to_vec(), b"two".to_vec()]);
    rts.run("println(argc)\nprintln(argv[1])\nprintln(argv[0])\nprintln(argv[5])\nprintln(argv.1)\n");
    assert_eq!(printed(&rts), "2\ntwo\none\n\ntwo\n");
}

#[test]
fn new_session() {
    let rts = session();
    assert_eq!(rts.namespace, b"app".to_vec());
    assert_eq!(rts.structures.len(), 2);
    assert_eq!(rts.structures[0].name, b"main".to_vec());
    assert_eq!(rts.structures[0].structures, vec![1]);
    assert_eq!(rts.structures[0].parent, None);
    assert_eq!(rts.structures[1].name, b"app".to_vec());
    assert_eq!(rts.structures[1].mutability, StructureMut::Constant);
    assert_eq!(rts.structures[1].dataType, StructureType::List);
    assert_eq!(rts.structures[1].parent, Some(0));
    assert_eq!(rts.structures[1].lines.len(), 1);
    assert!(!rts.exit);
}

#[test]
fn declared_type_and_mark() {
    let rts = run("a ~ : Int = 5\nb : String = \"x\"\nc = 1\n");
    let find = |name: &[u8]| rts.structures.iter().find(|s| s.name == name).unwrap();
    assert_eq!(find(b"a").mutability, StructureMut::Variable);
    assert_eq!(find(b"a").dataType, StructureType::Int);
    assert_eq!(find(b"b").mutability, StructureMut::Constant);
    assert_eq!(find(b"b").dataType, StructureType::String);
    assert_eq!(find(b"c").dataType, StructureType::Unset);
}

#[test]
fn return_keeps_the_declared_kind() {
    let rts = run("f() -> String\n  = 12\nprintln(type(f()))\ng()\n  = 12\nprintln(type(g()))\n");
    assert_eq!(printed(&rts), "String\nUInt\n");
}

#[test]
fn endless_recursion_ends_at_the_depth_limit() {
    let rts = run("f()\n  f()\nprintln(\"end\")\n");
    assert!(rts.exit);
    assert!(rts.overflow);
    assert_eq!(rts.exitCode, 70);
    assert_eq!(printed(&rts), "");
}

#[test]
fn comment_does_not_hide_a_block() {
    let rts = run("f() -> Int # adds\n  = 1 + 1\nprintln(f())\n");
    assert_eq!(printed(&rts), "2\n");
}

#[test]
fn decimal_numbers_in_expressions() {
    assert_eq!(value("1.5 + 2"), (TokenType::UFloat, some("3.5")));
    assert_eq!(value("10.0 / 4"), (TokenType::UFloat, some("2.5")));
    assert_eq!(value("1//2 + 1//4"), (TokenType::Rational, some("3//4")));
    assert_eq!(value("2 -0.5"), (TokenType::Float, some("1.5")));
}

#[test]
fn assignment_stores_the_value_of_its_right_hand_side() {
    let rts = run("a = 1\nb = 2\na = b + 1\nb = 10\nprintln(a)\n");
    assert_eq!(printed(&rts), "3\n");
}

#[test]
fn new_binding_holds_its_right_hand_tokens() {
    let rts = run("b = 2\na = b + 1\n");
    let a = rts.structures.iter().find(|s| s.name == b"a").unwrap();
    assert_eq!(a.lines.len(), 1);
    assert_eq!(a.lines[0].tokens.len(), 3);
    assert_eq!(a.parent, Some(0));
}

#[test]
fn index_into_the_elements_of_a_binding() {
    let mut rts = session();
    rts.setArguments(vec![b"a".to_vec(), b"b".to_vec(), b"c".to_vec()]);
    rts.run("i = 1\nprintln(argv[i + 1])\nprintln(argv[\"x\"])\nprintln(missing[0])\n");
    assert_eq!(printed(&rts), "c\n\n\n");
}

#[test]
fn nested_blocks_and_calls() {
    let script = "outer\n  inner() -> Int\n    = 7\n  x = inner() * 2\n  println(x)\n";
    assert_eq!(printed(&run(script)), "14\n");
}

#[test]
fn condition_inside_a_callable() {
    let script = "sign(n) -> String\n  ? n < 0\n    = \"minus\"\n  ?\n    = \"plus\"\nprintln(sign(-5))\nprintln(sign(5))\n";
    assert_eq!(printed(&run(script)), "\n\n");
}

#[test]
fn random_numbers_vary() {
    let mut rts = session();
    let mut least = usize::MAX;
    let mut most = 0usize;
    for _ in 0..200 {
        let token = eval(&mut rts, "randUInt(0, 1000000)");
        let n: usize = String::from_utf8(token.data.unwrap()).unwrap().parse().unwrap();
        assert!(n <= 1000000);
        least = least.min(n);
        most = most.max(n);
    }
    assert!(least < most);
    assert!(most > 0);
    assert!(least < 1000000);
    assert_eq!(rts.drawn.len(), 200);
}

#[test]
fn halted_session_runs_again_after_resume() {
    let mut rts = run("exit(2)\nprintln(\"late\")\n");
    assert!(rts.isHalted());
    assert_eq!(printed(&rts), "");
    rts.resume();
    assert!(!rts.isHalted());
    rts.run("println(\"again\")\n");
    assert_eq!(printed(&rts), "again\n");
    assert!(rts.hasStructure(0) && rts.hasStructure(rts.structureCount() - 1));
    assert!(!rts.hasStructure(rts.structureCount()));
    assert_eq!(rts.structureCount(), rts.structures.len());
}

#[test]
fn prompt_is_written_as_plain_text() {
    let mut rts = session();
    rts.setInput(vec![b"x".to_vec()]);
    rts.run("a = input(\"\\bname: \")\nprint(a)\nex()\n");
    assert_eq!(
        rts.output,
        vec![
            Effect::Write(b"\\bname: ".to_vec()),
            Effect::Print(b"x".to_vec()),
            Effect::Write(b"ex\n".to_vec())
        ]
    );
}

fn turn(script: &str, input: &[&str], open: bool, replay: &[usize], limit: usize) -> RTS {
    let mut rts = session();
    rts.setInput(input.iter().map(|l| l.as_bytes().to_vec()).collect());
    rts.expectInput(open);
    rts.setReplay(replay.to_vec());
    rts.setEffectLimit(limit);
    rts.run(script);
    rts
}

#[test]
fn run_pauses_for_input_that_is_not_there() {
    let script = "println(\"a\")\nprintln(input(\"? \"))\nprintln(\"b\")\n";
    let first = turn(script, &[], true, &[], usize::MAX);
    assert_eq!(first.pause, Pause::ForInput);
    assert!(first.exit);
    assert_eq!(
        first.output,
        vec![Effect::Print(b"a\n".to_vec()), Effect::Write(b"? ".to_vec())]
    );
    let second = turn(script, &["hi"], true, &[], usize::MAX);
    assert_eq!(second.pause, Pause::Running);
    assert!(!second.exit);
    assert_eq!(second.output[..2], first.output[..]);
    assert_eq!(
        second.output[2..],
        [Effect::Print(b"hi\n".to_vec()), Effect::Print(b"b\n".to_vec())]
    );
}

#[test]
fn closed_input_reads_the_empty_text() {
    let script = "println(input(\"? \"))\nprintln(\"b\")\n";
    let rts = turn(script, &[], false, &[], usize::MAX);
    assert_eq!(rts.pause, Pause::Running);
    assert_eq!(printed(&rts), "? \nb\n");
}

#[test]
fn run_pauses_at_the_effect_limit() {
    let script = "println(1)\nprintln(2)\nprintln(3)\n";
    let first = turn(script, &[], false, &[], 2);
    assert_eq!(first.pause, Pause::ForEffect);
    assert!(first.exit);
    assert_eq!(printed(&first), "1\n2\n");
    let second = turn(script, &[], false, &[], 3);
    assert_eq!(second.pause, Pause::ForEffect);
    assert_eq!(printed(&second), "1\n2\n3\n");
    let third = turn(script, &[], false, &[], 4);
    assert_eq!(third.pause, Pause::Running);
    assert_eq!(printed(&third), "1\n2\n3\n");
    let one = turn("println(1) + println(2)\n", &[], false, &[], 1);
    assert_eq!(printed(&one), "1\n");
}

#[test]
fn drawn_numbers_are_drawn_again() {
    let script = "println(randUInt(0, 1000000))\nprintln(randUInt(5, 5))\nprintln(randUInt(0, 1000000))\n";
    let first = turn(script, &[], false, &[], usize::MAX);
    assert_eq!(first.drawn.len(), 3);
    let second = turn(script, &[], false, &first.drawn[..2], usize::MAX);
    assert_eq!(second.drawn[..2], first.drawn[..2]);
    assert_eq!(second.output[..2], first.output[..2]);
    let third = turn(script, &[], false, &first.drawn, usize::MAX);
    assert_eq!(third.drawn, first.drawn);
    assert_eq!(third.output, first.output);
    let off = turn("println(randUInt(1, 3))\n", &[], false, &[9], usize::MAX);
    assert!(1 <= off.drawn[0] && off.drawn[0] <= 3);
}

#[test]
fn paused_session_draws_and_reads_nothing() {
    let script = "println(1)\nprintln(randUInt(1, 9) + input())\n";
    let rts = turn("println(1) + randUInt(1, 9)\n", &["x"], false, &[], 1);
    assert_eq!(rts.pause, Pause::ForEffect);
    assert!(rts.drawn.is_empty());
    let rts = turn(script, &["x"], false, &[], 1);
    assert!(rts.drawn.is_empty());
    assert_eq!(rts.inputIndex, 0);
}

#[test]
fn turns_of_a_run() {
    let script = b"println(\"a\")\nprintln(input(\"? \"))\nprintln(argv[0])\n".to_vec();
    let take = |input: Vec<Vec<u8>>, open: bool, limit: usize, done: &Vec<Effect>| {
        RTS::turn(
            String::from("app"),
            vec![b"arg".to_vec()],
            script.clone(),
            input,
            open,
            Vec::new(),
            limit,
            done,
        )
    };
    let (first, same) = take(Vec::new(), true, 1, &Vec::new());
    assert!(same);
    assert_eq!(first.pause, Pause::ForEffect);
    assert_eq!(printed(&first), "a\n");
    let (second, same) = take(Vec::new(), true, 3, &first.output);
    assert!(same);
    assert_eq!(second.pause, Pause::ForInput);
    assert_eq!(printed(&second), "a\n? ");
    let (third, same) = take(vec![b"line".to_vec()], true, 3, &second.output);
    assert!(same);
    assert_eq!(third.pause, Pause::ForEffect);
    assert_eq!(printed(&third), "a\n? line\n");
    let (last, same) = take(vec![b"line".to_vec()], true, 7, &third.output);
    assert!(same);
    assert_eq!(last.pause, Pause::Running);
    assert_eq!(printed(&last), "a\n? line\narg\n");
    assert_eq!(last.namespace, b"app".to_vec());
    let (_, same) = take(vec![b"other".to_vec()], true, 7, &third.output);
    assert!(!same);
    let (_, same) = take(Vec::new(), true, 1, &third.output);
    assert!(!same);
    let (_, same) = take(vec![b"line".to_vec()], true, 7, &vec![Effect::Write(b"a\n".to_vec())]);
    assert!(!same);
}
