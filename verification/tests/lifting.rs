use project_s::lambda_lifting::{EnvKind, Envs, VariableKind};

#[test]
fn names_inside_a_function_are_local() {
    let mut envs = Envs::new();
    envs.set("global_name");
    envs.push(EnvKind::Function);
    envs.set("x");
    envs.push(EnvKind::Local);
    envs.set("y");
    assert_eq!(envs.has("y"), Some(VariableKind::Local));
    assert_eq!(envs.has("x"), Some(VariableKind::Local));
    // names of the global scope are never captured
    assert_eq!(envs.has("global_name"), None);
    assert_eq!(envs.has("z"), None);
}

#[test]
fn names_from_outside_a_function_are_free() {
    let mut envs = Envs::new();
    envs.push(EnvKind::Local);
    envs.set("outer");
    envs.push(EnvKind::Function);
    envs.set("inner");
    assert_eq!(envs.has("outer"), Some(VariableKind::Free));
    assert_eq!(envs.has("inner"), Some(VariableKind::Local));
    envs.pop();
    assert_eq!(envs.has("outer"), Some(VariableKind::Local));
    assert_eq!(envs.has("inner"), None);
}

#[test]
fn objects_provide_self() {
    let mut envs = Envs::new();
    envs.push(EnvKind::Object);
    envs.push(EnvKind::Function);
    assert_eq!(envs.has("self"), Some(VariableKind::Free));
    assert_eq!(envs.has("root"), Some(VariableKind::Free));
    assert_eq!(envs.has("this"), None);
    envs.pop();
    assert_eq!(envs.has("super"), Some(VariableKind::Local));
}
