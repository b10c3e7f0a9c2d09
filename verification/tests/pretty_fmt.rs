use vm::pretty::{i64_text, pretty_literal, u64_text, Doc, Literal, Pattern, Prec};

#[test]
fn decimal_text_of_numbers() {
    assert_eq!(u64_text(0), "0");
    assert_eq!(u64_text(7), "7");
    assert_eq!(u64_text(12345), "12345");
    assert_eq!(i64_text(0), "0");
    assert_eq!(i64_text(-7), "-7");
    assert_eq!(i64_text(i64::MIN), "-9223372036854775808");
    assert_eq!(i64_text(i64::MAX), "9223372036854775807");
}

#[test]
fn literal_rendering() {
    assert_eq!(pretty_literal(&Literal::Int(-42)).render_flat(), "-42");
    assert_eq!(pretty_literal(&Literal::Byte(7)).render_flat(), "7b");
    assert_eq!(pretty_literal(&Literal::Char('x')).render_flat(), "'x'");
    assert_eq!(
        pretty_literal(&Literal::Float(String::from("1.25"))).render_flat(),
        "1.25"
    );
    assert_eq!(
        pretty_literal(&Literal::String(String::from("hey"))).render_flat(),
        "\"hey\""
    );
}

#[test]
fn enclose_adds_parentheses_in_argument_position() {
    let doc = Doc::text("f x");
    assert_eq!(Prec::Arg.enclose(doc.clone()).render_flat(), "(f x)");
    assert_eq!(Prec::Top.enclose(doc).render_flat(), "f x");
}

#[test]
fn pattern_rendering() {
    let ctor = Pattern::Constructor(
        String::from("Cons"),
        vec![String::from("x"), String::from("xs")],
    );
    assert_eq!(ctor.pretty().render_flat(), "Cons x xs");

    let ident = Pattern::Ident(String::from("value"));
    assert_eq!(ident.pretty().render_flat(), "value");

    let record = Pattern::Record(vec![
        (String::from("x"), None),
        (String::from("y"), Some(String::from("z"))),
    ]);
    assert_eq!(record.pretty().render_flat(), "{ x, y= z }");

    let lit = Pattern::Literal(Literal::Int(3));
    assert_eq!(lit.pretty().render_flat(), "3");
}

#[test]
fn literal_rendering_escapes_quoted_contents() {
    assert_eq!(pretty_literal(&Literal::Char('\n')).render_flat(), "'\\n'");
    assert_eq!(pretty_literal(&Literal::Char('\'')).render_flat(), "'\\''");
    assert_eq!(pretty_literal(&Literal::Char('\\')).render_flat(), "'\\\\'");
    assert_eq!(
        pretty_literal(&Literal::Char('\u{1}')).render_flat(),
        "'\\u{1}'"
    );
    assert_eq!(
        pretty_literal(&Literal::String(String::from("a\"b\\c"))).render_flat(),
        "\"a\\\"b\\\\c\""
    );
    assert_eq!(
        pretty_literal(&Literal::String(String::from("line\none"))).render_flat(),
        "\"line\\none\""
    );
}
