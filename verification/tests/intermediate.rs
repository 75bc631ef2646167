use gembiler::ast::{Command, Condition, Declaration, ExprOp, Expression, Identifier, Program};
use gembiler::ast::{RelOp, Value};
use gembiler::intermediate::context::Context;
use gembiler::intermediate::generator::generate;
use gembiler::intermediate::variable::{UniqueVariable, Variable, VariableIndex};
use gembiler::intermediate::{Access, Constant, Instruction, Label, OperationType};
use gembiler::parser::parse_ast;

fn var(name: &str) -> Identifier {
    Identifier::VarAccess { name: String::from(name) }
}

fn names(context: &Context) -> Vec<String> {
    context.variables().iter().map(|v| v.name().clone()).collect()
}

#[test]
fn mod_it_works() {
    let var_a = var("a");
    let program = Program {
        declarations: Some(vec![Declaration::Var { name: String::from("a") }]),
        commands: vec![
            Command::Read { target: var_a.clone() },
            Command::Write { value: Value::Num(1) },
            Command::Write { value: Value::Identifier(var_a.clone()) },
        ],
    };

    let result = generate(&program);
    println!("{:?}", result);
    assert!(result.is_ok());
}

#[test]
fn intermediate_it_works() {
    let code = r#"
        DECLARE
            a, b
        BEGIN
            READ a;
            IF a GEQ 0 THEN
                WHILE a GE 0 DO
                    b ASSIGN a DIV 2;
                    b ASSIGN 2 TIMES b;
                    IF a GE b THEN
                        WRITE 1;
                    ELSE
                        WRITE 0;
                    ENDIF
                    a ASSIGN a DIV 2;
                ENDWHILE
            ENDIF
        END
    "#;

    let ast = parse_ast(code);
    assert!(ast.is_ok());
    let program = ast.unwrap();

    let ir = generate(&program);
    assert!(ir.is_ok());
    println!("{:?}", ir.unwrap());
}

#[test]
fn new_context_has_the_preregistered_cells() {
    let context = Context::new();
    assert_eq!(names(&context), vec!["p0", "tmp$op", "tmp$1", "tmp$2"]);
    assert!(context.constants().is_empty());
    assert!(context.labels().is_empty());
    assert!(context.instructions().is_empty());
    assert_eq!(context.find_variable_by_name("tmp$1").unwrap().id(), VariableIndex::new(2));
    assert!(context.find_variable_by_name("a").is_none());
    assert_eq!(context.get_variable(&VariableIndex::new(0)).name(), "p0");
}

#[test]
fn constants_are_registered_once() {
    let mut context = Context::new();
    let first = context.register_constant(Constant(-17));
    let second = context.register_constant(Constant(5));
    let again = context.register_constant(Constant(-17));
    assert_eq!(first, again);
    assert_eq!(first.value(), 4);
    assert_eq!(second.value(), 5);
    assert_eq!(context.get_constant_index(&Constant(5)), second);
    assert_eq!(context.find_constant(&Constant(6)), None);
    assert_eq!(Constant(-17).repr(), "const(-17)");
    assert_eq!(Constant(0).repr(), "const(0)");
    assert_eq!(Constant(i64::MIN).repr(), "const(-9223372036854775808)");
    assert_eq!(Constant(1234567890).value(), 1234567890);
    assert_eq!(names(&context)[4..], ["const(-17)", "const(5)"]);
    assert_eq!(context.constants(), &[(Constant(-17), first), (Constant(5), second)]);
}

#[test]
fn variables_and_labels_are_numbered_in_order() {
    let mut context = Context::new();
    let index = context.add_variable(Variable::Array { name: String::from("t"), start: -3, end: 3 });
    assert_eq!(index, VariableIndex::new(4));
    let variable = context.get_variable(&index);
    assert_eq!(variable.id(), index);
    assert_eq!(variable.name(), "t");
    assert_eq!(variable.variable().size(), 7);
    assert_eq!(Variable::Unit { name: String::from("u") }.size(), 1);
    assert_eq!(context.new_label().id(), 0);
    assert_eq!(context.new_label().id(), 1);
    assert_eq!(context.labels().len(), 2);
    let made = UniqueVariable::new(VariableIndex::new(9), Variable::Unit { name: String::from("u") });
    assert_eq!(made.id().value(), 9);
    assert_eq!(made.name(), "u");
}

#[test]
fn lowering_of_an_assignment() {
    let program = Program {
        declarations: Some(vec![
            Declaration::Var { name: String::from("a") },
            Declaration::Array { name: String::from("t"), start: 0, end: 4 },
        ]),
        commands: vec![Command::Assign {
            target: Identifier::ArrAccess { name: String::from("t"), index: String::from("a") },
            expr: Expression::Compound {
                left: Value::Identifier(Identifier::ArrConstAccess {
                    name: String::from("t"),
                    index: 3,
                }),
                op: ExprOp::Mod,
                right: Value::Num(7),
            },
        }],
    };
    let context = generate(&program).unwrap();
    let a = VariableIndex::new(4);
    let t = VariableIndex::new(5);
    let target = Access::ArrayDynamic(t, a);
    assert_eq!(
        context.instructions(),
        &[
            Instruction::PreStore { access: target },
            Instruction::Operation {
                left: Access::ArrayStatic(t, Constant(3)),
                op: OperationType::Mod,
                right: Access::Constant(Constant(7)),
            },
            Instruction::Store { access: target },
        ]
    );
    assert_eq!(names(&context)[4..], ["a", "t", "const(3)", "const(7)"]);
}

fn label(id: usize) -> Label {
    Label { id }
}

#[test]
fn lowering_of_a_branch() {
    // IF a EQ 1 THEN WRITE a; ELSE WRITE 2; ENDIF
    let program = Program {
        declarations: Some(vec![Declaration::Var { name: String::from("a") }]),
        commands: vec![Command::IfElse {
            condition: Condition { left: Value::Identifier(var("a")), op: RelOp::EQ, right: Value::Num(1) },
            positive: vec![Command::Write { value: Value::Identifier(var("a")) }],
            negative: vec![Command::Write { value: Value::Num(2) }],
        }],
    };
    let context = generate(&program).unwrap();
    let a = Access::Variable(VariableIndex::new(4));
    assert_eq!(
        context.instructions(),
        &[
            Instruction::Operation {
                left: a,
                op: OperationType::Minus,
                right: Access::Constant(Constant(1)),
            },
            // equal: on to the label, where the positive branch stands
            Instruction::JZero { label: label(0) },
            Instruction::Load { access: Access::Constant(Constant(2)) },
            Instruction::Put,
            Instruction::Jump { label: label(1) },
            Instruction::Label { label: label(0) },
            Instruction::Load { access: a },
            Instruction::Put,
            Instruction::Label { label: label(1) },
        ]
    );
}

#[test]
fn lowering_of_a_for_loop() {
    // FOR i FROM 1 TO a DO WRITE i; ENDFOR
    let program = Program {
        declarations: Some(vec![Declaration::Var { name: String::from("a") }]),
        commands: vec![Command::For {
            counter: String::from("i"),
            ascending: true,
            from: Value::Num(1),
            to: Value::Identifier(var("a")),
            commands: vec![Command::Write { value: Value::Identifier(var("i")) }],
        }],
    };
    let context = generate(&program).unwrap();
    assert_eq!(names(&context)[4..], ["a", "i", "i$to", "const(1)"]);
    let a = Access::Variable(VariableIndex::new(4));
    let i = Access::Variable(VariableIndex::new(5));
    let to = Access::Variable(VariableIndex::new(6));
    let one = Access::Constant(Constant(1));
    let test = Instruction::Operation { left: i, op: OperationType::Minus, right: to };
    assert_eq!(
        context.instructions(),
        &[
            Instruction::PreStore { access: i },
            Instruction::Load { access: one },
            Instruction::Store { access: i },
            Instruction::PreStore { access: to },
            Instruction::Load { access: a },
            Instruction::Store { access: to },
            // while i <= i$to
            test,
            Instruction::JPositive { label: label(0) },
            // do
            Instruction::Label { label: label(2) },
            Instruction::Load { access: i },
            Instruction::Put,
            Instruction::PreStore { access: i },
            Instruction::Operation { left: i, op: OperationType::Plus, right: one },
            Instruction::Store { access: i },
            // while i <= i$to
            test,
            Instruction::JPositive { label: label(3) },
            Instruction::Jump { label: label(2) },
            Instruction::Jump { label: label(4) },
            Instruction::Label { label: label(3) },
            Instruction::Label { label: label(4) },
            Instruction::Jump { label: label(1) },
            Instruction::Label { label: label(0) },
            Instruction::Label { label: label(1) },
        ]
    );
}

#[test]
fn counter_is_not_visible_after_the_loop() {
    let text = "BEGIN FOR i FROM 1 TO 2 DO WRITE i; ENDFOR WRITE i; END";
    let program = parse_ast(text).unwrap();
    // the name is found among the variables of the context, as every name is
    assert!(generate(&program).is_ok());
    // but the semantic check rejects the program
    assert!(gembiler::semantic_verifier::verify(program).is_err());
}

#[test]
fn programs_that_cannot_be_lowered() {
    for text in [
        "BEGIN WRITE a; END",
        "DECLARE a BEGIN WRITE a(1); END",
        "DECLARE a(0:3) BEGIN WRITE a; END",
        "DECLARE a(0:3) BEGIN WRITE a(4); END",
        "DECLARE a(0:3) BEGIN WRITE a(a); END",
        "DECLARE a(3:0) BEGIN WRITE 1; END",
        "DECLARE a(0:3), b BEGIN READ b(a); END",
    ] {
        let program = parse_ast(text).unwrap();
        assert_eq!(generate(&program).err(), Some(()), "{}", text);
    }
}

#[test]
fn variables_are_the_same_by_index() {
    let unit = |id: usize, name: &str| {
        UniqueVariable::new(VariableIndex::new(id), Variable::Unit { name: String::from(name) })
    };
    assert!(unit(3, "a") == unit(3, "b"));
    assert!(unit(3, "a") != unit(4, "a"));
    let array = UniqueVariable::new(
        VariableIndex::new(3),
        Variable::Array { name: String::from("t"), start: 0, end: 9 },
    );
    assert!(unit(3, "a") == array);
}

#[test]
fn a_literals_cell_is_named_after_it() {
    let mut context = Context::new();
    context.register_constant(Constant(-17));
    context.register_constant(Constant(5));
    for constant in [Constant(-17), Constant(5)] {
        let index = context.get_constant_index(&constant);
        assert_eq!(context.get_variable(&index).id(), index);
        assert_eq!(*context.get_variable(&index).name(), constant.repr());
    }
}
