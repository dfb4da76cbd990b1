use not_so_fast::order::str_less;
use not_so_fast::{
    fmt_path, fmt_path_element, PathElement, Validate, ValidateArgs, ValidationError,
    ValidationNode,
};

fn err(code: &str) -> ValidationError {
    ValidationError::with_code(code)
}

#[test]
fn ok_is_empty() {
    let errors = ValidationNode::ok();
    assert!(errors.is_ok());
    assert!(!errors.is_err());
    assert_eq!("", errors.to_string());
}

#[test]
fn result_ok_and_err() {
    assert!(matches!(ValidationNode::ok().result(), Ok(_)));
    let bad = ValidationNode::error(err("abc")).result();
    match bad {
        Err(node) => assert_eq!(".: abc", node.to_string()),
        Ok(_) => panic!("expected an error"),
    }
}

#[test]
fn error_and_and_error() {
    assert_eq!(".: abc", ValidationNode::error(err("abc")).to_string());
    let errors = ValidationNode::ok().and_error(err("abc")).and_error(err("def"));
    assert!(errors.is_err());
    assert_eq!(".: abc\n.: def", errors.to_string());
}

#[test]
fn error_if_condition() {
    let value = 10;
    assert!(ValidationNode::error_if(value >= 20, || err("abc")).is_ok());
    let errors = ValidationNode::error_if(value >= 10, || err("def"));
    assert_eq!(".: def", errors.to_string());
    assert!(ValidationNode::ok().and_error_if(value >= 20, || err("abc")).is_ok());
    let errors = ValidationNode::ok().and_error_if(value >= 10, || err("def"));
    assert_eq!(".: def", errors.to_string());
}

#[test]
fn error_if_false_never_calls_f() {
    let calls = std::cell::Cell::new(0);
    let node = ValidationNode::error_if(false, || {
        calls.set(calls.get() + 1);
        err("x")
    });
    assert!(node.is_ok());
    let node = node.and_error_if(false, || {
        calls.set(calls.get() + 1);
        err("x")
    });
    assert!(node.is_ok());
    assert_eq!(0, calls.get());
    let node = node.and_error_if(true, || {
        calls.set(calls.get() + 1);
        err("x")
    });
    assert_eq!(1, calls.get());
    assert_eq!(".: x", node.to_string());
}

#[test]
fn errors_from_list() {
    let value = 9;
    let list: Vec<ValidationError> = [3, 5, 15]
        .into_iter()
        .filter(|divisor| value % divisor == 0)
        .map(|divisor| err("divisible").and_param("by", divisor))
        .collect();
    let errors = ValidationNode::errors(list);
    assert_eq!(".: divisible: by=3", errors.to_string());
    let errors = ValidationNode::error(err("a")).and_errors(vec![err("b"), err("c")]);
    assert_eq!(".: a\n.: b\n.: c", errors.to_string());
    assert!(ValidationNode::errors(Vec::new()).is_ok());
}

#[test]
fn field_of_ok_is_pruned() {
    assert!(ValidationNode::field("x", ValidationNode::ok()).is_ok());
    assert!(ValidationNode::ok().and_field("x", ValidationNode::ok()).is_ok());
    assert!(ValidationNode::item(3, ValidationNode::ok()).is_ok());
    assert!(ValidationNode::ok().and_item(3, ValidationNode::ok()).is_ok());
    let base = ValidationNode::error(err("a")).and_field("x", ValidationNode::ok());
    assert_eq!(".: a", base.to_string());
}

#[test]
fn field_and_item_render() {
    assert_eq!(".a: abc", ValidationNode::field("a", ValidationNode::error(err("abc"))).to_string());
    assert_eq!(".[5]: abc", ValidationNode::item(5, ValidationNode::error(err("abc"))).to_string());
    let nested = ValidationNode::field(
        "a",
        ValidationNode::item(1, ValidationNode::field("b", ValidationNode::error(err("c")))),
    );
    assert_eq!(".a[1].b: c", nested.to_string());
}

#[test]
fn same_field_twice_merges() {
    let errors = ValidationNode::ok()
        .and_field("a", ValidationNode::error(err("abc")))
        .and_field("a", ValidationNode::error(err("def")))
        .and_field("b", ValidationNode::error(err("ghi")));
    assert_eq!(".a: abc\n.a: def\n.b: ghi", errors.to_string());
    let errors = ValidationNode::ok()
        .and_item(5, ValidationNode::error(err("abc")))
        .and_item(5, ValidationNode::error(err("def")))
        .and_item(8, ValidationNode::error(err("ghi")));
    assert_eq!(".[5]: abc\n.[5]: def\n.[8]: ghi", errors.to_string());
}

#[test]
fn merge_of_two_fields() {
    let a = ValidationNode::field("a", ValidationNode::error(err("123")));
    let b = ValidationNode::field("b", ValidationNode::error(err("456")));
    let c = a.merge(b);
    assert!(c.is_err());
    assert_eq!(".a: 123\n.b: 456", c.to_string());
}

#[test]
fn merge_recurses_into_shared_keys() {
    let a = ValidationNode::error(err("r1"))
        .and_field("f", ValidationNode::error(err("a1")).and_item(0, ValidationNode::error(err("i1"))));
    let b = ValidationNode::error(err("r2"))
        .and_field("f", ValidationNode::error(err("b1")).and_item(0, ValidationNode::error(err("i2"))));
    assert_eq!(
        ".: r1\n.: r2\n.f: a1\n.f: b1\n.f[0]: i1\n.f[0]: i2",
        a.merge(b).to_string()
    );
}

fn sample(tag: &str) -> ValidationNode {
    ValidationNode::error(err(&format!("{tag}0")))
        .and_field("m", ValidationNode::error(err(&format!("{tag}1"))))
        .and_item(2, ValidationNode::error(err(&format!("{tag}2"))))
}

#[test]
fn merge_identity() {
    let x = sample("x");
    let expected = x.to_string();
    assert_eq!(expected, ValidationNode::ok().merge(sample("x")).to_string());
    assert_eq!(expected, sample("x").merge(ValidationNode::ok()).to_string());
    assert_eq!(x.to_pairs(), ValidationNode::ok().merge(sample("x")).to_pairs());
}

#[test]
fn merge_associative() {
    let left = sample("a").merge(sample("b")).merge(sample("c"));
    let right = sample("a").merge(sample("b").merge(sample("c")));
    assert_eq!(left.to_pairs(), right.to_pairs());
    assert_eq!(
        ".: a0\n.: b0\n.: c0\n.m: a1\n.m: b1\n.m: c1\n.[2]: a2\n.[2]: b2\n.[2]: c2",
        left.to_string()
    );
}

#[test]
fn fields_in_name_order() {
    let errors = ValidationNode::ok()
        .and_field("b", ValidationNode::error(err("2")))
        .and_field("a", ValidationNode::error(err("1")));
    assert_eq!(".a: 1\n.b: 2", errors.to_string());
    let other = ValidationNode::ok()
        .and_field("a", ValidationNode::error(err("1")))
        .and_field("b", ValidationNode::error(err("2")));
    assert_eq!(other.to_string(), errors.to_string());
}

#[test]
fn children_order_fields_then_items() {
    let errors = ValidationNode::ok()
        .and_item(8, ValidationNode::error(err("i8")))
        .and_item(5, ValidationNode::error(err("i5")))
        .and_field("z", ValidationNode::error(err("z")))
        .and_field("B", ValidationNode::error(err("B")))
        .and_field("a", ValidationNode::error(err("a")))
        .and_field("\u{e9}", ValidationNode::error(err("e")));
    assert_eq!(
        ".B: B\n.a: a\n.z: z\n.\"\u{e9}\": e\n.[5]: i5\n.[8]: i8",
        errors.to_string()
    );
}

#[test]
fn path_quoting() {
    let errors = ValidationNode::field("field_c_~!@#$%^&*()_+", ValidationNode::error(err("seven")));
    assert_eq!(".\"field_c_~!@#$%^&*()_+\": seven", errors.to_string());
    let plain = ValidationNode::field("Field_9", ValidationNode::error(err("x")));
    assert_eq!(".Field_9: x", plain.to_string());
    let quote = ValidationNode::field("a\"b", ValidationNode::error(err("x")));
    assert_eq!(".\"a\\\"b\": x", quote.to_string());
    let empty = ValidationNode::field("", ValidationNode::error(err("x")));
    assert_eq!(".\"\": x", empty.to_string());
    let spaced = ValidationNode::field("a b", ValidationNode::error(err("x")));
    assert_eq!(".\"a b\": x", spaced.to_string());
}

#[test]
fn items_from_list() {
    let list: Vec<u32> = vec![10, 20, 30];
    let errors = ValidationNode::items(&list, |_index, value| {
        ValidationNode::error_if(*value > 25, || err("abc"))
    });
    assert_eq!(".[2]: abc", errors.to_string());
    let errors = ValidationNode::ok().and_items(&list, |index, _value| {
        ValidationNode::error_if(index != 1, || err("i").and_param("at", index))
    });
    assert_eq!(".[0]: i: at=0\n.[2]: i: at=2", errors.to_string());
    let empty: Vec<u32> = Vec::new();
    assert!(ValidationNode::items(&empty, |_, _| ValidationNode::error(err("x"))).is_ok());
}

#[test]
fn fields_from_map() {
    let map: std::collections::HashMap<String, u32> = [
        ("one".into(), 1),
        ("two".into(), 2),
        ("three".into(), 3),
    ]
    .into_iter()
    .collect();
    let entries: Vec<(String, u32)> = map.into_iter().collect();
    let errors = ValidationNode::fields(&entries, |_key, value| {
        ValidationNode::error_if(*value > 2, || err("abc"))
    });
    assert_eq!(".three: abc", errors.to_string());
    let errors = ValidationNode::error(err("root")).and_fields(&entries, |_key, value| {
        ValidationNode::error_if(*value < 3, || err("small"))
    });
    assert_eq!(".: root\n.one: small\n.two: small", errors.to_string());
    let numbered: Vec<(i32, &str)> = vec![(7, "x"), (-1, "y")];
    let errors = ValidationNode::fields(&numbered, |_key, value| {
        ValidationNode::error(err(value))
    });
    assert_eq!(".\"-1\": y\n.7: x", errors.to_string());
}

#[test]
fn first_keeps_first_error() {
    let errors = ValidationNode::ok()
        .and_field("a", ValidationNode::error(err("1")))
        .and_field("a", ValidationNode::error(err("2")))
        .and_field("b", ValidationNode::error(err("3")));
    assert_eq!(".a: 1\n.a: 2\n.b: 3", errors.to_string());
    assert_eq!(".a: 1", errors.first().to_string());
}

#[test]
fn first_prefers_direct_errors() {
    let errors = ValidationNode::error(err("E1"))
        .and_error(err("E2"))
        .and_field("f", ValidationNode::error(err("F")))
        .and_item(0, ValidationNode::error(err("I")));
    let first = errors.first();
    assert_eq!(".: E1", first.to_string());
    assert_eq!(1, first.to_pairs().len());
}

#[test]
fn first_of_items_and_empty() {
    let errors = ValidationNode::ok()
        .and_item(4, ValidationNode::item(1, ValidationNode::error(err("x")).and_error(err("y"))))
        .and_item(2, ValidationNode::error(err("z")));
    assert_eq!(".[2]: z", errors.first().to_string());
    let nested = ValidationNode::item(4, ValidationNode::item(1, ValidationNode::error(err("x")).and_error(err("y"))));
    assert_eq!(".[4][1]: x", nested.first().to_string());
    assert!(ValidationNode::ok().first().is_ok());
}

#[test]
fn worked_example() {
    struct User {
        nick: String,
        age: u8,
        cars: Vec<String>,
    }

    fn alpha_only(s: &str) -> ValidationNode {
        ValidationNode::error_if(s.chars().any(|c| !c.is_alphanumeric()), || err("alpha_only"))
    }

    fn char_length_max(s: &str, max: usize) -> ValidationNode {
        let len = s.chars().count();
        ValidationNode::error_if(len > max, || {
            err("char_length")
                .and_message("Invalid character length")
                .and_param("max", max)
                .and_param("value", len)
        })
    }

    fn validate(user: &User) -> ValidationNode {
        ValidationNode::ok()
            .and_field("nick", alpha_only(&user.nick).merge(char_length_max(&user.nick, 30)))
            .and_field(
                "age",
                ValidationNode::error_if(user.age < 15 || user.age > 100, || {
                    err("range")
                        .and_message("Number not in range")
                        .and_param("min", 15)
                        .and_param("max", 100)
                        .and_param("value", user.age)
                }),
            )
            .and_field(
                "cars",
                ValidationNode::error_if(user.cars.len() > 3, || {
                    err("length")
                        .and_message("Invalid length")
                        .and_param("max", 3)
                        .and_param("value", user.cars.len())
                })
                .and_items(&user.cars, |_, car| char_length_max(car, 50)),
            )
    }

    let user = User {
        nick: "**tom1980**".into(),
        age: 200,
        cars: vec!["first".into(), "second".into(), "third".repeat(11), "fourth".into()],
    };
    let node = validate(&user);
    assert!(node.is_err());
    assert_eq!(
        vec![
            ".age: range: Number not in range: max=100, min=15, value=200",
            ".cars: length: Invalid length: max=3, value=4",
            ".cars[2]: char_length: Invalid character length: max=50, value=55",
            ".nick: alpha_only",
        ]
        .join("\n"),
        node.to_string()
    );
}

#[test]
fn path_functions() {
    let mut out = String::new();
    fmt_path(&[], &mut out);
    assert_eq!(".", out);
    let mut out = String::new();
    fmt_path(
        &[PathElement::Index(3), PathElement::Name("a b".into()), PathElement::Index(0), PathElement::Name("c".into())],
        &mut out,
    );
    assert_eq!(".[3].\"a b\"[0].c", out);
    let mut out = String::from("x");
    fmt_path_element(&PathElement::Index(12), &mut out);
    fmt_path_element(&PathElement::Name("q\"".into()), &mut out);
    assert_eq!("x[12]\"q\\\"\"", out);
}

#[test]
fn name_order() {
    assert!(str_less("a", "b"));
    assert!(str_less("B", "a"));
    assert!(str_less("ab", "abc"));
    assert!(!str_less("abc", "ab"));
    assert!(!str_less("a", "a"));
    assert!(str_less("z", "\u{e9}"));
    assert!(str_less("", "a"));
}

struct Limited {
    value: u32,
}

impl<'a> ValidateArgs<'a> for Limited {
    type Args = ();

    fn validate_args(&self, _args: ()) -> ValidationNode {
        ValidationNode::error_if(self.value > 10, || err("too_big").and_param("value", self.value))
    }
}

struct Bounded {
    value: u32,
}

impl<'a> ValidateArgs<'a> for Bounded {
    type Args = (u32, &'a str);

    fn validate_args(&self, args: (u32, &'a str)) -> ValidationNode {
        ValidationNode::error_if(self.value > args.0, || err(args.1))
    }
}

#[test]
fn validate_without_arguments() {
    assert!(Limited { value: 3 }.validate().is_ok());
    assert_eq!(".: too_big: value=11", Limited { value: 11 }.validate().to_string());
    assert!(Bounded { value: 5 }.validate_args((10, "abc")).is_ok());
    assert_eq!(".: abc", Bounded { value: 11 }.validate_args((10, "abc")).to_string());
}
