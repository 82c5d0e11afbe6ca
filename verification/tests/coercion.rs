use qcore::render::{slots_of, Piece};
use qcore::{FloatAnswer, FloatWork, Outcome, QObject, QType};

fn answer(work: &FloatWork) -> FloatAnswer {
    match work {
        FloatWork::Arith(op, a, b) => {
            let l = f64::from_bits(*a);
            let r = f64::from_bits(*b);
            let v = match op {
                qcore::FloatOp::Add => l + r,
                qcore::FloatOp::Sub => l - r,
                qcore::FloatOp::Mul => l * r,
                qcore::FloatOp::Div => l / r,
                qcore::FloatOp::Rem => l % r,
            };
            FloatAnswer::Bits(v.to_bits())
        }
        FloatWork::Parse(s) => FloatAnswer::Parsed(s.parse::<f64>().ok().map(|f| f.to_bits())),
        FloatWork::Render(p) => FloatAnswer::Texts(
            slots_of(p).iter().map(|b| f64::from_bits(*b).to_string()).collect(),
        ),
    }
}

fn run(o: Outcome) -> QType {
    match o {
        Outcome::Done(v) => v,
        Outcome::Pending(w) => {
            let a = answer(&w);
            assert!(w.accepts(&a));
            w.finish(a)
        }
    }
}

fn done(o: Outcome) -> QType {
    match o {
        Outcome::Done(v) => v,
        Outcome::Pending(w) => panic!("float work left: {:?}", w),
    }
}

fn text(s: &str) -> QType {
    QType::Str(s.to_string())
}

fn float(x: f64) -> QType {
    QType::Float(x.to_bits())
}

fn ints(v: &[i64]) -> QType {
    QType::List(v.iter().map(|i| QType::Int(*i)).collect())
}

fn obj(entries: Vec<(&str, QType)>) -> QObject {
    let mut o = QObject::new();
    for (k, v) in entries {
        o.insert(k.to_string(), v);
    }
    o
}

fn every_kind() -> Vec<QType> {
    vec![
        QType::Int(7),
        float(2.5),
        QType::Bool(true),
        text("seven"),
        QType::Void,
        QType::Error,
        ints(&[1, 2]),
        QType::Obj(obj(vec![("$k", QType::Int(1))])),
        QType::Thread(Some(2)),
        QType::Func(QObject::new(), ()),
    ]
}

fn other_of_each_kind() -> Vec<QType> {
    vec![
        QType::Int(0),
        float(0.0),
        QType::Bool(false),
        text(""),
        QType::Void,
        QType::Error,
        ints(&[]),
        QType::Obj(QObject::new()),
        QType::Thread(None),
        QType::Func(obj(vec![("x", QType::Void)]), ()),
    ]
}

#[test]
fn like_compares_kinds_only() {
    let a = every_kind();
    let b = other_of_each_kind();
    for i in 0..a.len() {
        for j in 0..b.len() {
            assert_eq!(QType::like(a[i].clone(), b[j].clone()), QType::Bool(i == j));
            assert_eq!(a[i].is_like(&b[j]), i == j);
        }
    }
}

#[test]
fn into_own_kind_is_identity() {
    let a = every_kind();
    let b = other_of_each_kind();
    for i in 0..a.len() {
        assert!(a[i].can_coerce(&b[i]));
        assert_eq!(QType::into(a[i].clone(), b[i].clone()), Outcome::Done(a[i].clone()));
    }
}

#[test]
fn into_void_error_function_and_thread() {
    for v in every_kind() {
        if !v.is_like(&QType::Void) {
            assert_eq!(done(QType::into(v.clone(), QType::Void)), QType::Void);
        }
        if !v.is_like(&QType::Error) {
            assert_eq!(done(QType::into(v.clone(), QType::Error)), QType::Error);
        }
        if !v.is_like(&QType::Thread(None)) {
            assert_eq!(done(QType::into(v.clone(), QType::Thread(None))), QType::Error);
        }
        if !v.is_like(&QType::Func(QObject::new(), ())) {
            assert_eq!(done(QType::into(v.clone(), QType::Func(QObject::new(), ()))), QType::Error);
        }
    }
}

#[test]
fn into_int_from_bool_and_string() {
    assert_eq!(done(QType::into(QType::Bool(true), QType::Int(0))), QType::Int(1));
    assert_eq!(done(QType::into(QType::Bool(false), QType::Int(0))), QType::Int(0));
    assert_eq!(done(QType::into(text("42"), QType::Int(0))), QType::Int(42));
    assert_eq!(done(QType::into(text("-42"), QType::Int(0))), QType::Int(-42));
    assert_eq!(done(QType::into(text("+42"), QType::Int(0))), QType::Int(42));
    assert_eq!(done(QType::into(text("007"), QType::Int(0))), QType::Int(7));
    assert_eq!(
        done(QType::into(text("9223372036854775807"), QType::Int(0))),
        QType::Int(i64::MAX)
    );
    assert_eq!(
        done(QType::into(text("-9223372036854775808"), QType::Int(0))),
        QType::Int(i64::MIN)
    );
    assert_eq!(done(QType::into(text("9223372036854775808"), QType::Int(0))), QType::Error);
    assert_eq!(done(QType::into(text("-9223372036854775809"), QType::Int(0))), QType::Error);
    assert_eq!(done(QType::into(text(""), QType::Int(0))), QType::Error);
    assert_eq!(done(QType::into(text("-"), QType::Int(0))), QType::Error);
    assert_eq!(done(QType::into(text("+"), QType::Int(0))), QType::Error);
    assert_eq!(done(QType::into(text("12a"), QType::Int(0))), QType::Error);
    assert_eq!(done(QType::into(text(" 12"), QType::Int(0))), QType::Error);
    assert_eq!(done(QType::into(text("1.5"), QType::Int(0))), QType::Error);
    assert_eq!(done(QType::into(text("--1"), QType::Int(0))), QType::Error);
    assert_eq!(done(QType::into(text("١٢"), QType::Int(0))), QType::Error);
}

#[test]
fn into_int_from_other_kinds_is_error() {
    assert_eq!(done(QType::into(QType::Void, QType::Int(0))), QType::Error);
    assert_eq!(done(QType::into(QType::Error, QType::Int(0))), QType::Error);
    assert_eq!(done(QType::into(ints(&[1]), QType::Int(0))), QType::Error);
    assert_eq!(done(QType::into(QType::Obj(QObject::new()), QType::Int(0))), QType::Error);
    assert_eq!(done(QType::into(QType::Thread(Some(1)), QType::Int(0))), QType::Error);
    assert_eq!(QType::to_int(QType::Int(5)), QType::Error);
}

#[test]
fn into_int_from_float_truncates_toward_zero() {
    let samples = [
        0.0f64,
        -0.0,
        0.5,
        -0.5,
        0.999999,
        1.0,
        -1.0,
        1.9,
        -1.9,
        2.5,
        1e10,
        -1e10,
        123456789.987,
        4503599627370496.0,
        4503599627370497.0,
        9007199254740992.0,
        9007199254740993.0,
        -9007199254740993.0,
        1e18,
        9.2e18,
        9223372036854775807.0,
        9223372036854774784.0,
        -9223372036854775808.0,
        -9223372036854777856.0,
        1e19,
        -1e19,
        1e300,
        f64::MAX,
        f64::MIN,
        f64::MIN_POSITIVE,
        5e-324,
        f64::INFINITY,
        f64::NEG_INFINITY,
        f64::NAN,
        -f64::NAN,
    ];
    for x in samples {
        assert_eq!(done(QType::into(float(x), QType::Int(0))), QType::Int(x as i64), "{}", x);
    }
}

#[test]
fn truncation_agrees_with_the_cast_on_many_patterns() {
    let mut state: u64 = 0x9e37_79b9_7f4a_7c15;
    for _ in 0..20000 {
        state = state.wrapping_mul(6364136223846793005).wrapping_add(1442695040888963407);
        let x = f64::from_bits(state);
        assert_eq!(qcore::ieee::trunc_bits(state), x as i64, "{:#x}", state);
        assert_eq!(qcore::ieee::nan(state), x.is_nan());
        assert_eq!(qcore::ieee::nonzero(state), x != 0.0);
    }
    for e in 1000u64..1100 {
        for frac in [0u64, 1, 0x8_0000_0000_0000, 0xf_ffff_ffff_ffff, 0x5_5555_5555_5555] {
            for sign in [0u64, 1] {
                let b = (sign << 63) | (e << 52) | frac;
                assert_eq!(qcore::ieee::trunc_bits(b), f64::from_bits(b) as i64, "{:#x}", b);
            }
        }
    }
}

#[test]
fn into_float_from_bool() {
    assert_eq!(done(QType::into(QType::Bool(true), float(0.0))), float(1.0));
    assert_eq!(done(QType::into(QType::Bool(false), float(0.0))), float(0.0));
}

#[test]
fn into_float_from_int_gives_the_nearest_float() {
    assert_eq!(done(QType::into(QType::Int(0), float(0.0))), float(0.0));
    assert_eq!(done(QType::into(QType::Int(3), float(0.0))), float(3.0));
    assert_eq!(done(QType::into(QType::Int(-3), float(0.0))), float(-3.0));
    assert_eq!(done(QType::into(QType::Int(i64::MAX), float(0.0))), float(9223372036854775808.0));
    assert_eq!(done(QType::into(QType::Int(i64::MIN), float(0.0))), float(-9223372036854775808.0));
    assert_eq!(
        done(QType::into(QType::Int(9007199254740993), float(0.0))),
        float(9007199254740992.0)
    );
    assert_eq!(
        done(QType::into(QType::Int(9007199254740995), float(0.0))),
        float(9007199254740996.0)
    );
}

#[test]
fn conversion_of_integers_agrees_with_the_cast() {
    let mut samples: Vec<i64> = vec![0, 1, -1, 2, 3, 255, 256, i64::MAX, i64::MIN, i64::MIN + 1];
    for shift in 0..63 {
        let p = 1i64 << shift;
        for d in [-3i64, -2, -1, 0, 1, 2, 3] {
            samples.push(p.wrapping_add(d));
            samples.push(p.wrapping_add(d).wrapping_neg());
            samples.push(p.wrapping_mul(3).wrapping_add(d));
            samples.push(p.wrapping_add(p >> 1).wrapping_add(d));
            samples.push(p.wrapping_add(p >> 11).wrapping_add(d));
            samples.push(p.wrapping_add(p >> 53).wrapping_add(d));
            samples.push(p.wrapping_add(p >> 54).wrapping_add(d));
            samples.push(i64::MAX.wrapping_sub(p).wrapping_add(d));
        }
    }
    let mut state: u64 = 0x2545_f491_4f6c_dd1d;
    for _ in 0..20000 {
        state = state.wrapping_mul(6364136223846793005).wrapping_add(1442695040888963407);
        samples.push(state as i64);
        samples.push((state >> (state % 64)) as i64);
    }
    for i in samples {
        assert_eq!(qcore::ieee::of_int(i), (i as f64).to_bits(), "{}", i);
    }
}

#[test]
fn into_float_from_string_is_left_to_the_caller() {
    assert_eq!(
        QType::into(text("1.5"), float(0.0)),
        Outcome::Pending(FloatWork::Parse("1.5".to_string()))
    );
    assert_eq!(run(QType::into(text("1.5"), float(0.0))), float(1.5));
    assert_eq!(run(QType::into(text("abc"), float(0.0))), QType::Error);
    assert_eq!(run(QType::into(text(""), float(0.0))), QType::Error);
}

#[test]
fn float_work_to_parse_finishes_with_float_or_error() {
    let work = FloatWork::Parse("2.5".to_string());
    assert_eq!(work.finish(FloatAnswer::Parsed(Some(2.5f64.to_bits()))), float(2.5));
    let work = FloatWork::Parse("x".to_string());
    assert_eq!(work.finish(FloatAnswer::Parsed(None)), QType::Error);
}

#[test]
fn into_float_from_other_kinds_is_error() {
    assert_eq!(done(QType::into(QType::Void, float(0.0))), QType::Error);
    assert_eq!(done(QType::into(ints(&[]), float(0.0))), QType::Error);
    assert_eq!(done(QType::into(QType::Error, float(0.0))), QType::Error);
    assert_eq!(done(QType::to_float(float(1.0))), QType::Error);
}

#[test]
fn into_bool() {
    let b = || QType::Bool(false);
    assert_eq!(done(QType::into(QType::Int(0), b())), QType::Bool(false));
    assert_eq!(done(QType::into(QType::Int(-3), b())), QType::Bool(true));
    assert_eq!(done(QType::into(float(0.0), b())), QType::Bool(false));
    assert_eq!(done(QType::into(float(-0.0), b())), QType::Bool(false));
    assert_eq!(done(QType::into(float(0.1), b())), QType::Bool(true));
    assert_eq!(done(QType::into(float(f64::NAN), b())), QType::Bool(true));
    assert_eq!(done(QType::into(text(""), b())), QType::Bool(false));
    assert_eq!(done(QType::into(text("a"), b())), QType::Bool(true));
    assert_eq!(done(QType::into(QType::Void, b())), QType::Bool(true));
    assert_eq!(done(QType::into(QType::Error, b())), QType::Bool(false));
    assert_eq!(done(QType::into(ints(&[]), b())), QType::Bool(false));
    assert_eq!(done(QType::into(ints(&[0]), b())), QType::Bool(true));
    assert_eq!(done(QType::into(QType::Obj(QObject::new()), b())), QType::Bool(false));
    assert_eq!(
        done(QType::into(QType::Obj(obj(vec![("0", QType::Void)])), b())),
        QType::Bool(true)
    );
    assert_eq!(done(QType::into(QType::Thread(None), b())), QType::Error);
    assert_eq!(done(QType::into(QType::Func(QObject::new(), ()), b())), QType::Error);
    assert_eq!(QType::to_bool(QType::Bool(true)), QType::Error);
}

#[test]
fn into_list_from_string_gives_its_bytes() {
    assert_eq!(done(QType::into(text("AB"), ints(&[]))), ints(&[65, 66]));
    assert_eq!(done(QType::into(text(""), ints(&[]))), ints(&[]));
    assert_eq!(done(QType::into(text("é"), ints(&[]))), ints(&[0xc3, 0xa9]));
    assert_eq!(done(QType::into(text("日"), ints(&[]))), ints(&[0xe6, 0x97, 0xa5]));
}

#[test]
fn into_list_from_object_gives_its_logical_keys() {
    let o = obj(vec![("3", QType::Void), ("$name", QType::Void), ("-1", QType::Void), ("007", QType::Void)]);
    assert!(QType::Obj(o.clone()).can_coerce(&ints(&[])));
    assert_eq!(
        done(QType::into(QType::Obj(o), ints(&[]))),
        QType::List(vec![QType::Int(3), text("name"), QType::Int(-1), QType::Int(7)])
    );
    assert_eq!(done(QType::into(QType::Obj(QObject::new()), ints(&[]))), ints(&[]));
}

#[test]
fn into_list_from_other_kinds_is_error() {
    assert_eq!(done(QType::into(QType::Int(1), ints(&[]))), QType::Error);
    assert_eq!(done(QType::into(QType::Bool(true), ints(&[]))), QType::Error);
    assert_eq!(done(QType::into(QType::Void, ints(&[]))), QType::Error);
    assert_eq!(QType::to_list(ints(&[1])), QType::Error);
}

#[test]
fn an_object_with_a_key_that_does_not_decode_cannot_be_listed_or_shown() {
    let o = QType::Obj(obj(vec![("name", QType::Void)]));
    assert!(!o.can_coerce(&ints(&[])));
    assert!(!o.can_coerce(&text("")));
    assert!(!o.is_renderable());
    assert!(o.can_coerce(&QType::Bool(true)));
    assert!(o.can_coerce(&QType::Obj(QObject::new())));
    let nested = QType::List(vec![QType::Int(1), o]);
    assert!(!nested.is_renderable());
    assert!(!nested.can_coerce(&text("")));
    let hidden = QType::Func(obj(vec![("name", QType::Void)]), ());
    assert!(hidden.is_renderable());
}

#[test]
fn into_object_from_list_binds_positions() {
    let l = QType::List(vec![text("a"), QType::Int(5), QType::Void]);
    let o = match done(QType::into(l, QType::Obj(QObject::new()))) {
        QType::Obj(o) => o,
        other => panic!("not an object: {:?}", other),
    };
    assert_eq!(o.len(), 3);
    assert_eq!(o.key_at(0), "0");
    assert_eq!(o.key_at(1), "1");
    assert_eq!(o.key_at(2), "2");
    assert_eq!(o.get(&"0".to_string()), Some(&text("a")));
    assert_eq!(o.get(&"1".to_string()), Some(&QType::Int(5)));
    assert_eq!(o.get(&"2".to_string()), Some(&QType::Void));
    assert_eq!(o.get(&"3".to_string()), None);
}

#[test]
fn into_object_from_a_long_list_uses_canonical_decimal_keys() {
    let l = QType::List((0..120).map(QType::Int).collect());
    let o = match done(QType::into(l, QType::Obj(QObject::new()))) {
        QType::Obj(o) => o,
        other => panic!("not an object: {:?}", other),
    };
    assert_eq!(o.len(), 120);
    for i in 0..120usize {
        assert_eq!(o.key_at(i), &i.to_string());
        assert_eq!(o.value_at(i), &QType::Int(i as i64));
    }
}

#[test]
fn into_object_from_string_binds_positions_to_bytes() {
    let o = match done(QType::into(text("hé"), QType::Obj(QObject::new()))) {
        QType::Obj(o) => o,
        other => panic!("not an object: {:?}", other),
    };
    assert_eq!(o, obj(vec![("0", QType::Int(0x68)), ("1", QType::Int(0xc3)), ("2", QType::Int(0xa9))]));
}

#[test]
fn into_object_from_other_kinds_is_error() {
    assert_eq!(done(QType::into(QType::Int(1), QType::Obj(QObject::new()))), QType::Error);
    assert_eq!(done(QType::into(QType::Void, QType::Obj(QObject::new()))), QType::Error);
    assert_eq!(QType::to_obj(QType::Obj(QObject::new())), QType::Error);
}

#[test]
fn list_to_object_to_list_gives_the_positions() {
    let l = QType::List(vec![text("a"), text("b")]);
    let o = done(QType::into(l, QType::Obj(QObject::new())));
    assert_eq!(done(QType::into(o, ints(&[]))), ints(&[0, 1]));
}

#[test]
fn into_string_of_scalars() {
    let s = || text("");
    assert_eq!(done(QType::into(QType::Int(0), s())), text("0"));
    assert_eq!(done(QType::into(QType::Int(-12), s())), text("-12"));
    assert_eq!(done(QType::into(QType::Int(i64::MAX), s())), text("9223372036854775807"));
    assert_eq!(done(QType::into(QType::Int(i64::MIN), s())), text("-9223372036854775808"));
    assert_eq!(done(QType::into(QType::Bool(true), s())), text("true"));
    assert_eq!(done(QType::into(QType::Bool(false), s())), text("false"));
    assert_eq!(done(QType::into(QType::Void, s())), text("()"));
    assert_eq!(done(QType::into(QType::Error, s())), text("err"));
    assert_eq!(done(QType::into(QType::Func(QObject::new(), ()), s())), text("\\(...) => ..."));
    assert_eq!(done(QType::into(QType::Thread(None), s())), text("@this"));
    assert_eq!(done(QType::into(QType::Thread(Some(12)), s())), text("@12"));
    assert_eq!(done(QType::into(QType::Thread(Some(0)), s())), text("@0"));
    assert_eq!(done(QType::to_str(text("as is"))), text("as is"));
}

#[test]
fn integers_render_as_the_standard_library_renders_them() {
    let samples = [0i64, 1, -1, 9, 10, 11, 99, 100, -100, 1234567890, i64::MAX, i64::MIN, i64::MIN + 1];
    for i in samples {
        assert_eq!(done(QType::into(QType::Int(i), text(""))), text(&i.to_string()));
        assert_eq!(qcore::text::decimal_string(i), i.to_string());
        assert_eq!(qcore::text::parse_decimal(&i.to_string()), Some(i));
    }
}

#[test]
fn into_string_of_lists_puts_nothing_between_items() {
    assert_eq!(done(QType::into(ints(&[1, 2, 3]), text(""))), text("[123]"));
    assert_eq!(done(QType::into(ints(&[]), text(""))), text("[]"));
    let nested = QType::List(vec![ints(&[1]), text("a"), QType::Void, QType::Bool(false)]);
    assert_eq!(done(QType::into(nested, text(""))), text("[[1]a()false]"));
}

#[test]
fn into_string_of_objects() {
    assert_eq!(done(QType::into(QType::Obj(QObject::new()), text(""))), text("{}"));
    let one = obj(vec![("$a", QType::Int(1))]);
    assert_eq!(done(QType::into(QType::Obj(one), text(""))), text("{ \"a\": 1 }"));
    let two = obj(vec![("$a", QType::Int(1)), ("0", text("x")), ("007", QType::Void)]);
    assert_eq!(
        done(QType::into(QType::Obj(two), text(""))),
        text("{ \"a\": 10: x7: () }")
    );
    let nested = obj(vec![("$in", QType::Obj(obj(vec![("1", ints(&[2]))])))]);
    assert_eq!(done(QType::into(QType::Obj(nested), text(""))), text("{ \"in\": { 1: [2] } }"));
}

#[test]
fn into_string_of_a_float_is_left_to_the_caller() {
    let bits = 1.5f64.to_bits();
    assert_eq!(
        QType::into(float(1.5), text("")),
        Outcome::Pending(FloatWork::Render(vec![Piece::Float(bits)]))
    );
    assert_eq!(run(QType::into(float(1.5), text(""))), text("1.5"));
    assert_eq!(run(QType::into(float(-0.0), text(""))), text("-0"));
    assert_eq!(run(QType::into(float(1e21), text(""))), text("1000000000000000000000"));
}

#[test]
fn into_string_with_floats_inside_fills_each_slot_in_order() {
    let v = QType::List(vec![float(1.5), text("|"), float(-2.0), QType::Obj(obj(vec![("$f", float(0.25))]))]);
    let outcome = QType::into(v, text(""));
    let work = match outcome {
        Outcome::Pending(w) => w,
        Outcome::Done(v) => panic!("no float work: {:?}", v),
    };
    match &work {
        FloatWork::Render(p) => {
            assert_eq!(slots_of(p), vec![1.5f64.to_bits(), (-2.0f64).to_bits(), 0.25f64.to_bits()]);
        }
        other => panic!("not to render: {:?}", other),
    }
    assert!(!work.accepts(&FloatAnswer::Texts(vec!["1.5".to_string()])));
    assert!(!work.accepts(&FloatAnswer::Bits(0)));
    let texts = FloatAnswer::Texts(vec!["1.5".to_string(), "-2".to_string(), "0.25".to_string()]);
    assert!(work.accepts(&texts));
    assert_eq!(work.finish(texts), text("[1.5|-2{ \"f\": 0.25 }]"));
}

#[test]
fn integer_round_trips_through_its_text() {
    for i in [0i64, 5, -5, i64::MAX, i64::MIN] {
        let t = done(QType::into(QType::Int(i), text("")));
        assert_eq!(done(QType::into(t, QType::Int(0))), QType::Int(i));
    }
}
