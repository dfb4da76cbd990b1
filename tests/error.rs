use not_so_fast::{ParamValue, ValidationError, ValidationNode};

fn line(e: ValidationError) -> String {
    ValidationNode::error(e).to_string()
}

#[test]
fn code_message_and_params() {
    assert_eq!(".: length", line(ValidationError::with_code("length")));
    assert_eq!(
        ".: length: String too long",
        line(ValidationError::with_code("length").and_message("String too long"))
    );
    assert_eq!(
        ".: length: max=100",
        line(ValidationError::with_code("length").and_param("max", 100))
    );
}

#[test]
fn last_message_and_param_win() {
    let e = ValidationError::with_code("c")
        .and_message("first")
        .and_message("second")
        .and_param("k", 1)
        .and_param("k", 2);
    assert_eq!(".: c: second: k=2", line(e));
}

#[test]
fn params_in_name_order() {
    let e = ValidationError::with_code("c")
        .and_param("value", 3)
        .and_param("b", 2)
        .and_param("max", 1)
        .and_param("a", 0);
    assert_eq!(".: c: a=0, b=2, max=1, value=3", line(e));
}

#[test]
fn integer_params() {
    let e = ValidationError::with_code("n")
        .and_param("a", -5i8)
        .and_param("b", i128::MIN)
        .and_param("c", u128::MAX)
        .and_param("d", 0u8)
        .and_param("e", i64::MAX)
        .and_param("f", 1234567usize)
        .and_param("g", false);
    assert_eq!(
        ".: n: a=-5, b=-170141183460469231731687303715884105728, c=340282366920938463463374607431768211455, d=0, e=9223372036854775807, f=1234567, g=false",
        line(e)
    );
}

#[test]
fn char_and_string_params_are_escaped() {
    let e = ValidationError::with_code("s")
        .and_param("a", '\'')
        .and_param("b", 'x')
        .and_param("c", '\u{7f}')
        .and_param("d", '\u{e9}')
        .and_param("e", "say \"hi\"\\\t")
        .and_param("f", String::from("\r\u{1F525}"))
        .and_param("g", ParamValue::Raw("as \"is\"\n".into()));
    assert_eq!(
        ".: s: a='\\'', b='x', c='\\u{7f}', d='\\u{e9}', e=\"say \\\"hi\\\"\\\\\\t\", f=\"\\r\\u{1f525}\", g=as \"is\"\n",
        line(e)
    );
}

#[test]
fn param_value_text() {
    assert_eq!("true", ParamValue::Bool(true).to_text());
    assert_eq!("-1", ParamValue::I32(-1).to_text());
    assert_eq!("42", ParamValue::U16(42).to_text());
    assert_eq!("'\\n'", ParamValue::Char('\n').to_text());
    assert_eq!("\"a\\\"b\"", ParamValue::String("a\"b".into()).to_text());
    assert_eq!("raw", ParamValue::Raw("raw".into()).to_text());
}

#[test]
fn error_text() {
    let e = ValidationError::with_code("range").and_message("Number not in range").and_param("min", 3);
    assert_eq!("range: Number not in range: min=3", e.to_text());
}
