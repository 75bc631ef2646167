use gembiler::instruction::Instruction;
use gembiler::intermediate::generator::generate;
use gembiler::interpreter::run::{run, run_extended};
use gembiler::parser::parse_ast;
use gembiler::semantic_verifier::verify;
use gembiler::translator::Generator;
use num_bigint::BigInt;

fn compile(text: &str) -> Vec<Instruction> {
    let program = parse_ast(text).expect("the text is a program");
    let program = verify(program).expect("the program has no errors");
    let context = generate(&program).expect("the program can be lowered");
    let generator = Generator::new(context);
    assert!(generator.fits());
    generator.translate()
}

fn exec(text: &str, input: Vec<i64>) -> Vec<i64> {
    let translated = compile(text);
    let input: Vec<BigInt> = input.into_iter().map(BigInt::from).collect();
    let (_cost, output) = run(translated.clone(), input.clone()).expect("the program halts");
    let (_cost, extended) = run_extended(translated, input).expect("the program halts");
    assert_eq!(output, extended);
    output.iter().map(|value| i64::try_from(value).expect("the output fits")).collect()
}

const BITSTRING_TEXT: &str = r#"
    DECLARE
        a, b, tab(5:100), tabsmall(10:20)
    BEGIN
        READ a;
        IF a GEQ 0 THEN
            WHILE a GE 0 DO
                b ASSIGN a DIV 2;
                b ASSIGN 2 TIMES b;
                IF a GE b THEN
                    WRITE 1;
                ELSE
                    WRITE 0;
                ENDIF
                a ASSIGN a DIV 2;
            ENDWHILE
        ENDIF
    END
"#;

const SIEVE_TEXT: &str = r#"
    [ Eratostenes' sieve ]
    DECLARE
        n, j, sieve(2:100)
    BEGIN
        n ASSIGN 100;
        FOR i FROM n DOWNTO 2 DO
            sieve(i) ASSIGN 1;
        ENDFOR
        FOR i FROM 2 TO n DO
            IF sieve(i) NEQ 0 THEN
                j ASSIGN i PLUS i;
                WHILE j LEQ n DO
                    sieve(j) ASSIGN 0;
                    j ASSIGN j PLUS i;
                ENDWHILE
                WRITE i;
            ENDIF
        ENDFOR
    END
"#;

const PRIME_DECOMPOSITION_TEXT: &str = r#"
    [ prime decomposition ]
    DECLARE
        n, m, remainder, exponent, divisor
    BEGIN
        READ n;
        divisor ASSIGN 2;
        m ASSIGN divisor TIMES divisor;
        WHILE n GEQ m DO
            exponent ASSIGN 0;
            remainder ASSIGN n MOD divisor;
            WHILE remainder EQ 0 DO
                n ASSIGN n DIV divisor;
                exponent ASSIGN exponent PLUS 1;
                remainder ASSIGN n MOD divisor;
            ENDWHILE
            IF exponent GE 0 THEN [ divisor found? ]
                WRITE divisor;
                WRITE exponent;
            ELSE
                divisor ASSIGN divisor PLUS 1;
                m ASSIGN divisor TIMES divisor;
            ENDIF
        ENDWHILE
        IF n NEQ 1 THEN [ the last divisor ]
            WRITE n;
            WRITE 1;
        ENDIF
    END
"#;

const DIV_MOD_TEXT: &str = r#"
    DECLARE
        a, b, c
    BEGIN
        READ a;
        READ b;
        c ASSIGN a DIV a;
        WRITE c;
        c ASSIGN a DIV b;
        WRITE c;
        c ASSIGN a MOD a;
        WRITE c;
        c ASSIGN a MOD b;
        WRITE c;
    END
"#;

const DIV_MOD2_TEXT: &str = r#"
    DECLARE
        a, b, c, choice
    BEGIN
        READ choice;
        WHILE choice GE 0 DO
            READ a;
            READ b;
            c ASSIGN a DIV b;
            WRITE c;
            c ASSIGN a MOD b;
            WRITE c;
            b ASSIGN 0 MINUS b;
            c ASSIGN a DIV b;
            WRITE c;
            c ASSIGN a MOD b;
            WRITE c;
            a ASSIGN 0 MINUS a;
            c ASSIGN a DIV b;
            WRITE c;
            c ASSIGN a MOD b;
            WRITE c;
            b ASSIGN 0 MINUS b;
            c ASSIGN a DIV b;
            WRITE c;
            c ASSIGN a MOD b;
            WRITE c;
            READ choice;
        ENDWHILE
    END
"#;

const NUMBERS_TEXT: &str = r#"
    DECLARE
        a, b, c, t(-6:6), d, e, f, g, h, i, j, tab(-5:5)
    BEGIN
        WRITE 0;
        WRITE 1;
        WRITE -2;
        WRITE 10;
        WRITE -100;
        WRITE 10000;
        WRITE -1234567890;

        a ASSIGN 1234566543;
        b ASSIGN -677777177;
        c ASSIGN 15;
        t(2) ASSIGN -555555555;
        d ASSIGN 8888;
        tab(-4) ASSIGN 11;
        t(0) ASSIGN -999;
        e ASSIGN 1111111111;
        tab(0) ASSIGN 7777;
        f ASSIGN -2048;
        g ASSIGN -123;
        t(-3) ASSIGN t(0);
        tab(-5) ASSIGN a;
        tab(-5) ASSIGN tab(0) DIV tab(-4);
        t(-5) ASSIGN tab(0);

        READ h;
        i ASSIGN 1;
        j ASSIGN h PLUS c;

        WRITE j; [ j = h + 15 ]
        WRITE c; [ c = 15 ]
        WRITE t(-3); [ -999 ]
        WRITE t(2); [ -555555555 ]
        WRITE t(-5); [ 7777 ]
        WRITE t(0); [ -999 ]
        WRITE tab(-4); [ 11 ]
        WRITE tab(-5); [ 707 ]
        WRITE tab(0); [ 7777 ]
    END
"#;

const FIB_TEXT: &str = r#"
    DECLARE
      tab(-987654321:1234567890),
      a, b, c, d, e, f, g, h, i, j, k, l, m, n, o, p, q, r, s, t, u, v, w, x, y, z
    BEGIN
      READ tab(-121212121);
      a ASSIGN tab(-121212121);
      b ASSIGN a;
      c ASSIGN b PLUS a;
      d ASSIGN c PLUS b;
      e ASSIGN d PLUS c;
      f ASSIGN e PLUS d;
      g ASSIGN f PLUS e;
      h ASSIGN g PLUS f;
      i ASSIGN h PLUS g;
      j ASSIGN i PLUS h;
      k ASSIGN j PLUS i;
      l ASSIGN k PLUS j;
      m ASSIGN l PLUS k;
      n ASSIGN m PLUS l;
      o ASSIGN n PLUS m;
      p ASSIGN o PLUS n;
      q ASSIGN p PLUS o;
      r ASSIGN q PLUS p;
      s ASSIGN r PLUS q;
      t ASSIGN s PLUS r;
      u ASSIGN t PLUS s;
      v ASSIGN u PLUS t;
      w ASSIGN v PLUS u;
      x ASSIGN w PLUS v;
      y ASSIGN x PLUS w;
      z ASSIGN y PLUS x;
      a ASSIGN 10000 TIMES z;
      tab(a) ASSIGN z;
      WRITE tab(a);
    END
"#;

const FIB_FACTORIAL_TEXT: &str = r#"
    DECLARE
        f(0:100), s(0:100), i(0:100), n, k, l
    BEGIN
        READ n;
        f(0) ASSIGN 0;
        s(0) ASSIGN 1;
        i(0) ASSIGN 0;
        f(1) ASSIGN 1;
        s(1) ASSIGN 1;
        i(1) ASSIGN 1;
        FOR j FROM 2 TO n DO
            k ASSIGN j MINUS 1;
            l ASSIGN k MINUS 1;
            i(j) ASSIGN i(k) PLUS 1;
            f(j) ASSIGN f(k) PLUS f(l);
            s(j) ASSIGN s(k) TIMES i(j);
        ENDFOR
        WRITE s(n);
        WRITE f(n);
    END
"#;

const FACTORIAL_TEXT: &str = r#"
    DECLARE
      s(0:100), n, m, a, j
    BEGIN
        READ n;
        s(0) ASSIGN 1;
        m ASSIGN n;
        FOR i FROM 1 TO m DO
            a ASSIGN i MOD 2;
            j ASSIGN i MINUS 1;
            IF a EQ 1 THEN
                s(i) ASSIGN s(j) TIMES m;
            ELSE
                s(i) ASSIGN m TIMES s(j);
            ENDIF
            m ASSIGN m MINUS 1;
        ENDFOR
        WRITE s(n);
    END
"#;

const MOD_MULT_TEXT: &str = r#"
    [ a ^ b mod c
    ? 1234567890
    ? 1234567890987654321
    ? 987654321
    > 674106858
    ]
    DECLARE
        a, b, c, result, exponent, choice
    BEGIN
        READ a;
        READ b;
        READ c;
        result ASSIGN 1;
        exponent ASSIGN a MOD c;
        WHILE b GE 0 DO
            choice ASSIGN b MOD 2;
            IF choice EQ 1 THEN
                result ASSIGN result TIMES exponent;
                result ASSIGN result MOD c;
            ENDIF
            b ASSIGN b DIV 2;
            exponent ASSIGN exponent TIMES exponent;
            exponent ASSIGN exponent MOD c;
        ENDWHILE
        WRITE result;
    END
"#;

const LOOPIII_TEXT: &str = r#"
    DECLARE
        a, b, c
    BEGIN
        READ a;
        READ b;
        READ c;
        FOR i FROM 111091 TO 111110 DO
            FOR j FROM 209 DOWNTO 200 DO
                FOR k FROM 11 TO 20 DO
                    a  ASSIGN  a PLUS k;
                ENDFOR
                b  ASSIGN  b PLUS j;
            ENDFOR
            c  ASSIGN  c PLUS i;
        ENDFOR
        WRITE a;
        WRITE b;
        WRITE c;
    END
"#;

const FOR_TEXT: &str = r#"
    DECLARE
        a, b, c
    BEGIN
        READ a;
        READ b;
        READ c;
        FOR i FROM 9 DOWNTO 0 DO
            FOR j FROM 0 TO i DO
                FOR k FROM 0 TO j DO
                    a  ASSIGN  a PLUS k;
                    c  ASSIGN  k TIMES j;
                    c  ASSIGN  c PLUS i;
                    b  ASSIGN  b PLUS c;
                ENDFOR
            ENDFOR
        ENDFOR
        WRITE a;
        WRITE b;
        WRITE c;
    END
"#;

const TAB_TEXT: &str = r#"
    DECLARE
        n, j, ta(0:25), tb(0:25), tc(0:25)
    BEGIN
        n  ASSIGN  25;
        tc(0)  ASSIGN  n;
        tc(n)  ASSIGN  n MINUS n;
        FOR i FROM tc(0) DOWNTO tc(n) DO
            ta(i)  ASSIGN  i;
            tb(i)  ASSIGN  n MINUS i;
        ENDFOR
        FOR i FROM tc(n) TO tc(0) DO
            tc(i)  ASSIGN  ta(i) TIMES tb(i);
        ENDFOR
        FOR i FROM 0 TO n DO
            WRITE tc(i);
        ENDFOR
    END
"#;


#[test]
fn bitstring() {
    let rev = |s: Vec<i64>| -> Vec<i64> { s.into_iter().rev().collect() };
    assert_eq!(exec(BITSTRING_TEXT, vec![0b1010]), rev(vec![1, 0, 1, 0]));
    assert_eq!(exec(BITSTRING_TEXT, vec![0b1110]), rev(vec![1, 1, 1, 0]));
    assert_eq!(exec(BITSTRING_TEXT, vec![0b1111]), rev(vec![1, 1, 1, 1]));
    assert_eq!(exec(BITSTRING_TEXT, vec![0b10000]), rev(vec![1, 0, 0, 0, 0]));
    assert_eq!(exec(BITSTRING_TEXT, vec![0b11001]), rev(vec![1, 1, 0, 0, 1]));
    assert_eq!(exec(BITSTRING_TEXT, vec![1345601]), rev(vec![1, 0, 1, 0, 0, 1, 0, 0, 0, 1, 0, 0, 0, 0, 1, 0, 0, 0, 0, 0, 1]));
}

#[test]
fn sieve() {
    assert_eq!(exec(SIEVE_TEXT, vec![]), &[2, 3, 5, 7, 11, 13, 17, 19, 23, 29, 31, 37, 41, 43, 47, 53, 59, 61, 67, 71, 73, 79, 83, 89, 97]);
}

#[test]
fn prime_decomposition() {
    assert_eq!(exec(PRIME_DECOMPOSITION_TEXT, vec![2]), &[2, 1]);
    assert_eq!(exec(PRIME_DECOMPOSITION_TEXT, vec![3]), &[3, 1]);
    assert_eq!(exec(PRIME_DECOMPOSITION_TEXT, vec![4]), &[2, 2]);
    assert_eq!(exec(PRIME_DECOMPOSITION_TEXT, vec![9]), &[3, 2]);
    assert_eq!(exec(PRIME_DECOMPOSITION_TEXT, vec![15]), &[3, 1, 5, 1]);
    assert_eq!(exec(PRIME_DECOMPOSITION_TEXT, vec![16]), &[2, 4]);
    assert_eq!(exec(PRIME_DECOMPOSITION_TEXT, vec![17]), &[17, 1]);
    assert_eq!(exec(PRIME_DECOMPOSITION_TEXT, vec![20]), &[2, 2, 5, 1]);
    assert_eq!(exec(PRIME_DECOMPOSITION_TEXT, vec![22]), &[2, 1, 11, 1]);
    assert_eq!(exec(PRIME_DECOMPOSITION_TEXT, vec![27]), &[3, 3]);
    assert_eq!(exec(PRIME_DECOMPOSITION_TEXT, vec![64]), &[2, 6]);
    assert_eq!(exec(PRIME_DECOMPOSITION_TEXT, vec![12345654321]), &[3, 2, 7, 2, 11, 2, 13, 2, 37, 2]);
}

#[test]
fn div_mod() {
    assert_eq!(exec(DIV_MOD_TEXT, vec![1, 0]), &[1, 0, 0, 0]);
    assert_eq!(exec(DIV_MOD_TEXT, vec![1, 2]), &[1, 0, 0, 1]);
}

#[test]
fn div_mod2() {
    assert_eq!(exec(DIV_MOD2_TEXT, vec![1, 33, 7, 0]), &[4, 5, -5, -2, 4, -5, -5, 2]);
    assert_eq!(
        exec(DIV_MOD2_TEXT, vec![
            1, 33, 7,
            1, 33, 8,
            1, 33, 9,
            1, 33, 10,
            1, 12, 14,
            0,
        ]),
        vec![
            4, 5,
            -5, -2,
            4, -5,
            -5, 2,

            4, 1,
            -5, -7,
            4, -1,
            -5, 7,

            3, 6,
            -4, -3,
            3, -6,
            -4, 3,

            3, 3,
            -4, -7,
            3, -3,
            -4, 7,

            0, 12,
            -1, -2,
            0, -12,
            -1, 2,
        ]
    );
}

#[test]
fn numbers() {
    for h in -20..=20 {
        assert_eq!(exec(NUMBERS_TEXT, vec![h]), vec![0, 1, -2, 10, -100, 10000, -1234567890, h + 15, 15, -999, -555555555, 7777, -999, 11, 707, 7777])
    }
}

#[test]
fn fib() {
    assert_eq!(exec(FIB_TEXT, vec![1]), &[121393]);
}

#[test]
fn fib_factorial() {
    assert_eq!(exec(FIB_FACTORIAL_TEXT, vec![20]), &[2432902008176640000, 6765]);
}

#[test]
fn factorial() {
    assert_eq!(exec(FACTORIAL_TEXT, vec![20]), &[2432902008176640000]);
}

#[test]
fn mod_mult() {
    assert_eq!(exec(MOD_MULT_TEXT, vec![1234567890, 1234567890987654321, 987654321]), &[674106858]);
}

#[test]
fn loopiii() {
    assert_eq!(exec(LOOPIII_TEXT, vec![0, 0, 0]), &[31000, 40900, 2222010]);
    assert_eq!(exec(LOOPIII_TEXT, vec![1, 0, 2]), &[31001, 40900, 2222012]);
}

#[test]
fn for_test() {
    assert_eq!(exec(FOR_TEXT, vec![12, 23, 34]), &[507, 4379, 0]);
}

#[test]
fn tab() {
    let expected: Vec<i64> = (0..=25).map(|i| i * (25 - i)).collect();
    assert_eq!(exec(TAB_TEXT, vec![]), expected);
}

#[test]
fn prime_decomposition_of_one() {
    assert_eq!(exec(PRIME_DECOMPOSITION_TEXT, vec![1]), Vec::<i64>::new());
}
