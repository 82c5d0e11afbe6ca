use qcore::{QInterp, QObject, QType};

fn name(s: &str) -> String {
    s.to_string()
}

#[test]
fn a_new_environment_binds_nothing() {
    let env = QInterp::init();
    assert_eq!(env.fetch_global(name("x")), None);
    assert_eq!(env.fetch_local(name("x")), None);
    assert!(!env.can_pop());
}

#[test]
fn store_global_then_fetch() {
    let mut env = QInterp::init();
    env.store_global(name("x"), QType::Int(1));
    assert_eq!(env.fetch_global(name("x")), Some(QType::Int(1)));
    assert_eq!(env.fetch_global(name("y")), None);
    assert_eq!(env.fetch_local(name("x")), None);
}

#[test]
fn store_global_overwrites() {
    let mut env = QInterp::init();
    env.store_global(name("x"), QType::Int(1));
    env.store_global(name("y"), QType::Bool(true));
    env.store_global(name("x"), QType::Str(name("new")));
    assert_eq!(env.fetch_global(name("x")), Some(QType::Str(name("new"))));
    assert_eq!(env.fetch_global(name("y")), Some(QType::Bool(true)));
}

#[test]
fn store_local_then_lookup_in_the_same_frame() {
    let mut env = QInterp::init();
    env.store_local(name("x"), QType::Int(1));
    assert_eq!(env.fetch_local(name("x")), Some(QType::Int(1)));
    assert_eq!(env.fetch_global(name("x")), None);
    env.store_local(name("x"), QType::Int(2));
    assert_eq!(env.fetch_local(name("x")), Some(QType::Int(2)));
}

#[test]
fn a_binding_is_gone_once_its_frame_is_popped() {
    let mut env = QInterp::init();
    env.store_local(name("outer"), QType::Int(1));
    env.push_frame();
    assert!(env.can_pop());
    assert_eq!(env.fetch_local(name("outer")), None);
    env.store_local(name("inner"), QType::Int(2));
    env.store_local(name("outer"), QType::Int(3));
    assert_eq!(env.fetch_local(name("inner")), Some(QType::Int(2)));
    assert_eq!(env.fetch_local(name("outer")), Some(QType::Int(3)));
    env.pop_frame();
    assert!(!env.can_pop());
    assert_eq!(env.fetch_local(name("inner")), None);
    assert_eq!(env.fetch_local(name("outer")), Some(QType::Int(1)));
}

#[test]
fn frames_nest() {
    let mut env = QInterp::init();
    env.push_frame();
    env.store_local(name("a"), QType::Int(1));
    env.push_frame();
    env.store_local(name("a"), QType::Int(2));
    assert_eq!(env.fetch_local(name("a")), Some(QType::Int(2)));
    env.pop_frame();
    assert_eq!(env.fetch_local(name("a")), Some(QType::Int(1)));
    env.pop_frame();
    assert_eq!(env.fetch_local(name("a")), None);
}

#[test]
fn a_fetched_value_is_a_copy() {
    let mut env = QInterp::init();
    let mut scope = QObject::new();
    scope.insert(name("k"), QType::List(vec![QType::Int(1)]));
    env.store_global(name("f"), QType::Func(scope.clone(), ()));
    let fetched = env.fetch_global(name("f"));
    assert_eq!(fetched, Some(QType::Func(scope, ())));
    env.store_global(name("f"), QType::Void);
    assert_eq!(env.fetch_global(name("f")), Some(QType::Void));
    assert!(matches!(fetched, Some(QType::Func(_, ()))));
}

#[test]
fn objects_bind_keys_once() {
    let mut o = QObject::new();
    assert_eq!(o.len(), 0);
    o.insert(name("a"), QType::Int(1));
    o.insert(name("b"), QType::Int(2));
    o.insert(name("a"), QType::Int(3));
    assert_eq!(o.len(), 2);
    assert_eq!(o.find(&name("a")), Some(0));
    assert_eq!(o.find(&name("b")), Some(1));
    assert_eq!(o.find(&name("c")), None);
    assert_eq!(o.get(&name("a")), Some(&QType::Int(3)));
    assert_eq!(o.key_at(1), "b");
    assert_eq!(o.value_at(1), &QType::Int(2));
    let copy = o.clone();
    assert_eq!(copy, o);
    let entries = o.into_entries();
    assert_eq!(entries, vec![(name("a"), QType::Int(3)), (name("b"), QType::Int(2))]);
}

#[test]
fn absorb_merges_in_order() {
    let mut l = QObject::new();
    l.insert(name("a"), QType::Int(1));
    let mut r = QObject::new();
    r.insert(name("b"), QType::Int(2));
    r.insert(name("a"), QType::Int(3));
    l.absorb(r);
    assert_eq!(l.into_entries(), vec![(name("a"), QType::Int(3)), (name("b"), QType::Int(2))]);
}

#[test]
fn clone_is_deep() {
    let mut inner = QObject::new();
    inner.insert(name("k"), QType::List(vec![QType::Float(1.5f64.to_bits()), QType::Thread(None)]));
    let v = QType::List(vec![QType::Obj(inner.clone()), QType::Func(inner, ()), QType::Str(name("s"))]);
    assert_eq!(v.clone(), v);
}
