use astrbox::function::{
    hello_from_bin, ExportedFunction, InvocationError, Routine, Signature,
};
use astrbox::value::{Kind, Value};

#[test]
fn hello_from_bin_returns_the_greeting() {
    assert_eq!(hello_from_bin(), "Hello from astrbox!");
}

#[test]
fn call_without_arguments_returns_the_greeting() {
    let f = ExportedFunction::new("hello_from_bin", Routine::HelloFromBin);
    assert_eq!(f.call(&[]), Ok(Value::Text("Hello from astrbox!".to_string())));
}

#[test]
fn calling_twice_gives_the_same_result() {
    let f = ExportedFunction::new("hello_from_bin", Routine::HelloFromBin);
    let first = f.call(&[]);
    let second = f.call(&[]);
    assert_eq!(first, second);
    assert_eq!(first, Ok(Value::text("Hello from astrbox!")));
    let refused_first = f.call(&[Value::Bool(true)]);
    let refused_second = f.call(&[Value::Bool(true)]);
    assert_eq!(refused_first, refused_second);
}

#[test]
fn call_with_an_argument_is_an_arity_mismatch() {
    let f = ExportedFunction::new("hello_from_bin", Routine::HelloFromBin);
    assert_eq!(
        f.call(&[Value::Int(1)]),
        Err(InvocationError::ArityMismatch { expected: 0, given: 1 })
    );
    assert_eq!(
        f.call(&[Value::Int(1), Value::text("x"), Value::Bool(false)]),
        Err(InvocationError::ArityMismatch { expected: 0, given: 3 })
    );
}

#[test]
fn the_greeting_routine_takes_nothing_and_gives_text() {
    let signature = Routine::HelloFromBin.signature();
    assert_eq!(signature, Signature { parameters: vec![], result: Kind::Text });
    let answer = Routine::HelloFromBin.invoke(&[]).unwrap();
    assert_eq!(answer.kind(), signature.result);
}

#[test]
fn a_signature_admits_arguments_of_its_kinds() {
    let signature = Signature {
        parameters: vec![Kind::Text, Kind::Int, Kind::Bool],
        result: Kind::Text,
    };
    assert_eq!(
        signature.check(&[Value::text("a"), Value::Int(-3), Value::Bool(true)]),
        Ok(())
    );
    let none = Signature { parameters: vec![], result: Kind::Int };
    assert_eq!(none.check(&[]), Ok(()));
}

#[test]
fn a_signature_refuses_a_wrong_number_of_arguments() {
    let signature = Signature { parameters: vec![Kind::Text, Kind::Int], result: Kind::Text };
    assert_eq!(
        signature.check(&[Value::text("a")]),
        Err(InvocationError::ArityMismatch { expected: 2, given: 1 })
    );
    assert_eq!(
        signature.check(&[Value::Bool(true), Value::Bool(true), Value::Bool(true)]),
        Err(InvocationError::ArityMismatch { expected: 2, given: 3 })
    );
}

#[test]
fn a_signature_names_the_first_argument_of_a_wrong_kind() {
    let signature = Signature {
        parameters: vec![Kind::Text, Kind::Int, Kind::Bool],
        result: Kind::Text,
    };
    assert_eq!(
        signature.check(&[Value::text("a"), Value::Bool(true), Value::Int(1)]),
        Err(InvocationError::KindMismatch {
            position: 1,
            parameter: Kind::Int,
            argument: Kind::Bool
        })
    );
    assert_eq!(
        signature.check(&[Value::Int(0), Value::Int(1), Value::Bool(true)]),
        Err(InvocationError::KindMismatch {
            position: 0,
            parameter: Kind::Text,
            argument: Kind::Int
        })
    );
    assert_eq!(
        signature.check(&[Value::text("a"), Value::Int(1), Value::text("b")]),
        Err(InvocationError::KindMismatch {
            position: 2,
            parameter: Kind::Bool,
            argument: Kind::Text
        })
    );
}

#[test]
fn functions_are_the_same_when_name_and_routine_are() {
    let f = ExportedFunction::new("f", Routine::HelloFromBin);
    let g = ExportedFunction::new("g", Routine::HelloFromBin);
    assert!(f.same_as(&f.clone()));
    assert!(!f.same_as(&g));
    assert_eq!(f.name(), "f");
    assert_eq!(f.routine(), Routine::HelloFromBin);
    assert_eq!(f.clone(), f);
}

#[test]
fn values_know_their_kind() {
    assert_eq!(Value::text("a").kind(), Kind::Text);
    assert_eq!(Value::Int(0).kind(), Kind::Int);
    assert_eq!(Value::Bool(false).kind(), Kind::Bool);
    assert_eq!(Value::text("a").clone(), Value::Text("a".to_string()));
    assert_eq!(Value::Int(i64::MIN).clone(), Value::Int(i64::MIN));
}
