use forge_flamegraph::function_call::{
    get_contract_name_from_acc, get_function_name_from_acc, get_name,
};
use forge_flamegraph::step::{Jump, Step};
use forge_flamegraph::utils::{diff_to_string, get_after_dot, get_next, u128_to_string};

fn step_with_source(src: &str) -> Step {
    Step {
        instruction: 0x01,
        pc: 0,
        total_gas_used: 0,
        jump: Jump::Regular,
        source_code: src.to_string(),
    }
}

#[test]
fn test_get_after_dot_1() {
    let result = get_after_dot(
        "uint256(0x0000000000000000000000000000000000000000000000000000000000000000).toField()",
        vec!['('],
    );
    assert_eq!(result, Some("toField".to_owned()));
}

#[test]
fn test_get_after_dot_2() {
    let result = get_after_dot("key.hooks.isValidHookAddress(key.fee)", vec!['(']);
    assert_eq!(result, Some("isValidHookAddress".to_owned()));
}

#[test]
fn get_after_dot_without_dot_is_none() {
    assert_eq!(get_after_dot("isValidHookAddress(key)", vec!['(']), None);
}

#[test]
fn get_after_dot_without_stop_after_dot_is_none() {
    assert_eq!(get_after_dot("key.hooks", vec!['(']), None);
    assert_eq!(get_after_dot("", vec!['(']), None);
}

#[test]
fn get_next_extracts_contract_name() {
    assert_eq!(
        get_next("contract Foo {", "contract ", vec![' ', '{']),
        Some("Foo".to_owned())
    );
    assert_eq!(
        get_next("contract Foo{", "contract ", vec![' ', '{']),
        Some("Foo".to_owned())
    );
}

#[test]
fn get_next_requires_prefix() {
    assert_eq!(get_next("library Foo {", "contract ", vec![' ', '{']), None);
}

#[test]
fn get_next_unterminated_scan_is_none() {
    // The prefix matches but no stop character ever follows: no partial
    // result is returned.
    assert_eq!(get_next("contract Foo", "contract ", vec![' ', '{']), None);
}

#[test]
fn get_next_empty_prefix_takes_first_token() {
    assert_eq!(get_next("foo(bar)", "", vec!['(']), Some("foo".to_owned()));
    assert_eq!(get_next("(bar)", "", vec!['(']), Some("".to_owned()));
}

#[test]
fn resolve_contract_name_cases() {
    let plain = step_with_source("contract Foo {");
    assert_eq!(plain.get_contract_name(), Some("Foo".to_owned()));
    assert_eq!(
        get_contract_name_from_acc(&plain),
        Some("Foo".to_owned())
    );

    let abstract_contract = step_with_source("abstract contract Bar{");
    assert_eq!(
        abstract_contract.get_contract_name(),
        Some("Bar".to_owned())
    );
    assert_eq!(
        get_contract_name_from_acc(&abstract_contract),
        Some("Bar".to_owned())
    );

    let not_a_contract = step_with_source("function f(");
    assert_eq!(not_a_contract.get_contract_name(), None);
}

#[test]
fn resolve_function_name_cases() {
    let declaration = step_with_source("function transfer(address to)");
    assert_eq!(
        declaration.get_function_name(),
        Some("transfer".to_owned())
    );
    assert_eq!(
        get_function_name_from_acc(&declaration),
        Some("transfer".to_owned())
    );
    let space_stop = step_with_source("function transfer (address to)");
    assert_eq!(
        space_stop.get_function_name(),
        Some("transfer".to_owned())
    );
    assert_eq!(step_with_source("contract Foo {").get_function_name(), None);
}

#[test]
fn get_name_fallback_order() {
    // A contract declaration wins over everything else.
    assert_eq!(
        step_with_source("contract Foo {").get_name(),
        Some("Foo".to_owned())
    );
    // Then a function declaration.
    assert_eq!(
        step_with_source("function f(").get_name(),
        Some("f".to_owned())
    );
    // Then the text after the last dot.
    assert_eq!(
        step_with_source("key.hooks.isValidHookAddress(key.fee)").get_name(),
        Some("isValidHookAddress".to_owned())
    );
    assert_eq!(
        get_name(&step_with_source("uint256(0x00).toField()")),
        Some("toField".to_owned())
    );
    // Then the first token before a parenthesis.
    assert_eq!(
        step_with_source("ecrecover(hash, v, r, s)").get_name(),
        Some("ecrecover".to_owned())
    );
    // Nothing resolvable at all.
    assert_eq!(step_with_source("").get_name(), None);
    assert_eq!(step_with_source("x = y + 1;").get_name(), None);
}

#[test]
fn source_code_stripped_truncates() {
    let s = step_with_source("hello world");
    assert_eq!(s.get_source_code_stripped(5), "hello".to_owned());
    assert_eq!(s.get_source_code_stripped(11), "hello world".to_owned());
    assert_eq!(s.get_source_code_stripped(50), "hello world".to_owned());
    assert_eq!(s.get_source_code_stripped(0), "".to_owned());
}

#[test]
fn decimal_formatting() {
    assert_eq!(u128_to_string(0), "0".to_owned());
    assert_eq!(u128_to_string(9), "9".to_owned());
    assert_eq!(u128_to_string(10), "10".to_owned());
    assert_eq!(u128_to_string(12345), "12345".to_owned());
    assert_eq!(
        u128_to_string(18446744073709551615),
        "18446744073709551615".to_owned()
    );
    assert_eq!(diff_to_string(7, 5), "2".to_owned());
    assert_eq!(diff_to_string(5, 5), "0".to_owned());
    assert_eq!(diff_to_string(5, 7), "-2".to_owned());
}
