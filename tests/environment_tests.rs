use kvist::environment::Environment;

fn name(s: &str) -> String {
    s.to_string()
}

#[test]
fn lookup_walks_outward() {
    let mut env: Environment<i32> = Environment::new();
    env.set(0, name("x"), 1);
    env.set(0, name("y"), 2);
    let child = env.fork(0);
    assert_eq!(1, child);
    env.set(child, name("x"), 10);
    assert_eq!(Some(&10), env.get(child, &name("x")));
    assert_eq!(Some(&2), env.get(child, &name("y")));
    assert_eq!(Some(&1), env.get(0, &name("x")));
    assert_eq!(None, env.get(0, &name("z")));
    assert_eq!(None, env.get(child, &name("z")));
}

#[test]
fn assignment_writes_the_innermost_frame() {
    let mut env: Environment<i32> = Environment::new();
    let outer = env.fork(0);
    let inner = env.fork(outer);
    env.set(outer, name("a"), 1);
    env.set(inner, name("a"), 2);
    env.set(inner, name("a"), 3);
    assert_eq!(Some(&3), env.get(inner, &name("a")));
    assert_eq!(Some(&1), env.get(outer, &name("a")));
    assert_eq!(None, env.get(0, &name("a")));
}

#[test]
fn captured_frames_see_later_assignments() {
    let mut env: Environment<i32> = Environment::new();
    let captured = 0;
    let call = env.fork(captured);
    assert_eq!(None, env.get(call, &name("f")));
    env.set(captured, name("f"), 7);
    assert_eq!(Some(&7), env.get(call, &name("f")));
}
