use quick_js::{Context, JsValue};

fn reduce(ctx: &Context, key: &str, values: Vec<&str>, rereduce: bool) -> String {
    let args = vec![
        JsValue::String(String::from(key)),
        JsValue::Array(values.into_iter().map(|v| JsValue::String(String::from(v))).collect()),
        JsValue::Bool(rereduce),
    ];
    match ctx.call_function("reduce", args).unwrap() {
        JsValue::String(s) => s,
        other => panic!("reduce returned {:?}", other),
    }
}

#[test]
fn second_level_reduce_is_idempotent_on_reference_sum() {
    // Running an extra rereduce pass over a single already-reduced value
    // yields that same value for the reference sum reduce.
    let ctx = Context::new().unwrap();
    ctx.eval(
        "function reduce(key, values, rereduce) {\
             let s = 0;\
             for (const v of values) { s += parseInt(v); }\
             return String(s);\
         }",
    )
    .unwrap();
    let first = reduce(&ctx, "k", vec!["1", "2", "4"], false);
    assert_eq!(first, "7");
    let again = reduce(&ctx, "k", vec![first.as_str()], true);
    assert_eq!(again, "7");
    let third = reduce(&ctx, "k", vec![again.as_str()], true);
    assert_eq!(third, again);
}
