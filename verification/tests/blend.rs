use std::cell::Cell;
use std::rc::Rc;

use rowexec::executor::blend::{assemble, evaluated_part, Blend, Evaluated, Expansion, Parts, SelectItem};
use rowexec::executor::context::{AggregateContext, Aggregated, BlendContext, FilterContext};
use rowexec::data::{Ident, Row, Value};
use rowexec::executor::blend::BlendError;
use rowexec::result::{Error, EvaluateError};
use sqlparser::ast::{Expr, Function, ObjectName};

struct Storage {
    asked: Cell<usize>,
}

fn storage() -> Storage {
    Storage { asked: Cell::new(0) }
}

fn columns(names: &[&str]) -> Vec<Ident> {
    names
        .iter()
        .map(|name| Ident { value: name.to_string(), quote_style: None })
        .collect()
}

fn text(value: &str) -> Value {
    Value::Str(value.to_string())
}

fn column(name: &str) -> Expr {
    Expr::Identifier(sqlparser::ast::Ident::new(name))
}

fn select(name: &str) -> SelectItem {
    SelectItem::UnnamedExpr(column(name))
}

fn count_call() -> Function {
    Function {
        name: ObjectName(vec![sqlparser::ast::Ident::new("COUNT")]),
        args: vec![Expr::Wildcard],
        over: None,
        distinct: false,
    }
}

fn failed(reason: &str) -> Error {
    Error::Evaluate(EvaluateError::Failed(reason.to_string()))
}

fn lookup(context: &BlendContext, name: &str) -> Option<Value> {
    let own = context
        .columns
        .iter()
        .position(|column| column.value == name)
        .and_then(|at| context.row.0.get(at).cloned());
    match own {
        Some(value) => Some(value),
        None => context.next.as_ref().and_then(|next| lookup(next, name)),
    }
}

fn evaluate<'a>(
    storage: &'a Storage,
    environment: Option<Rc<FilterContext<'a>>>,
    aggregated: Option<Rc<Aggregated<'a>>>,
    expr: &'a Expr,
    use_alias: bool,
) -> Result<Evaluated, Error> {
    storage.asked.set(storage.asked.get() + 1);
    assert!(use_alias);
    let environment = environment.expect("an environment is handed over");
    assert!(environment.next.is_none());
    match expr {
        Expr::Identifier(ident) => lookup(&environment.context, &ident.value)
            .map(Evaluated::Scalar)
            .ok_or_else(|| failed(&ident.value)),
        Expr::Function(call) => aggregated
            .and_then(|results| results.get(call).cloned())
            .map(Evaluated::Scalar)
            .ok_or_else(|| failed("no aggregate")),
        Expr::Nested(_) => Ok(Evaluated::Row(Row(vec![Value::I64(1), Value::I64(2)]))),
        Expr::Wildcard => Ok(Evaluated::Rows(vec![Row(vec![Value::I64(1)])])),
        _ => Err(failed("unsupported")),
    }
}

fn joined<'a>(first: &'a [Ident], second: &'a [Ident]) -> Rc<BlendContext<'a>> {
    let parent = Rc::new(BlendContext::new(
        Some("t1"),
        first,
        Row(vec![Value::I64(1), text("x")]),
        None,
    ));
    Rc::new(BlendContext::new(
        Some("t2"),
        second,
        Row(vec![Value::Bool(true), Value::Null]),
        Some(parent),
    ))
}

fn composed<'a>(next: Rc<BlendContext<'a>>) -> Result<AggregateContext<'a>, Error> {
    Ok(AggregateContext { aggregated: None, next })
}

#[test]
fn wildcard_yields_every_value_in_chain_order() {
    let (first, second) = (columns(&["a", "b"]), columns(&["c", "d"]));
    let store = storage();
    let fields = vec![SelectItem::Wildcard];
    let blend = Blend::new(&store, &fields);
    let row = blend.apply(composed(joined(&first, &second)), &evaluate);
    assert_eq!(row, Ok(Row(vec![Value::I64(1), text("x"), Value::Bool(true), Value::Null])));
    assert_eq!(store.asked.get(), 0);
}

#[test]
fn explicit_column_and_wildcard_repeat_the_value() {
    let (first, second) = (columns(&["a", "b"]), columns(&["c", "d"]));
    let store = storage();
    let fields = vec![select("a"), SelectItem::Wildcard];
    let blend = Blend::new(&store, &fields);
    let row = blend.apply(composed(joined(&first, &second)), &evaluate);
    assert_eq!(
        row,
        Ok(Row(vec![Value::I64(1), Value::I64(1), text("x"), Value::Bool(true), Value::Null]))
    );
}

#[test]
fn qualified_wildcard_yields_the_alias_values() {
    let (first, second) = (columns(&["a", "b"]), columns(&["c", "d"]));
    let store = storage();
    let fields = vec![
        SelectItem::QualifiedWildcard("t2".to_string()),
        SelectItem::QualifiedWildcard("t1".to_string()),
    ];
    let blend = Blend::new(&store, &fields);
    let row = blend.apply(composed(joined(&first, &second)), &evaluate);
    assert_eq!(row, Ok(Row(vec![Value::Bool(true), Value::Null, Value::I64(1), text("x")])));
}

#[test]
fn missing_alias_fails() {
    let own = columns(&["a"]);
    let store = storage();
    let context = Rc::new(BlendContext::new(Some("t"), &own, Row(vec![Value::I64(1)]), None));
    let fields = vec![SelectItem::QualifiedWildcard("missing".to_string())];
    let blend = Blend::new(&store, &fields);
    assert_eq!(
        blend.apply(composed(context), &evaluate),
        Err(Error::Blend(BlendError::TableAliasNotFound("missing".to_string())))
    );
}

#[test]
fn missing_alias_fails_whatever_follows() {
    let own = columns(&["a"]);
    let store = storage();
    let context = Rc::new(BlendContext::new(Some("t"), &own, Row(vec![Value::I64(1)]), None));
    let fields = vec![
        select("a"),
        SelectItem::QualifiedWildcard("missing".to_string()),
        select("nowhere"),
        SelectItem::Wildcard,
    ];
    let blend = Blend::new(&store, &fields);
    assert_eq!(
        blend.apply(composed(context), &evaluate),
        Err(Error::Blend(BlendError::TableAliasNotFound("missing".to_string())))
    );
}

#[test]
fn first_failure_in_list_order_is_reported() {
    let own = columns(&["a"]);
    let store = storage();
    let context = Rc::new(BlendContext::new(Some("t"), &own, Row(vec![Value::I64(1)]), None));
    let fields = vec![select("a"), select("second"), select("third")];
    let blend = Blend::new(&store, &fields);
    assert_eq!(blend.apply(composed(context), &evaluate), Err(failed("second")));
}

#[test]
fn every_item_is_evaluated_after_a_failure() {
    let own = columns(&["a"]);
    let store = storage();
    let context = Rc::new(BlendContext::new(Some("t"), &own, Row(vec![Value::I64(1)]), None));
    let fields = vec![select("nowhere"), select("a"), select("a")];
    let blend = Blend::new(&store, &fields);
    assert_eq!(blend.apply(composed(context), &evaluate), Err(failed("nowhere")));
    assert_eq!(store.asked.get(), 3);
}

#[test]
fn failed_context_is_handed_on_without_projection() {
    let store = storage();
    let fields = vec![select("a"), SelectItem::Wildcard];
    let blend = Blend::new(&store, &fields);
    let row = blend.apply(Err(Error::Storage("gone".to_string())), &evaluate);
    assert_eq!(row, Err(Error::Storage("gone".to_string())));
    assert_eq!(store.asked.get(), 0);
}

#[test]
fn values_keep_the_order_of_the_list() {
    let (first, second) = (columns(&["a", "b"]), columns(&["c", "d"]));
    let store = storage();
    let fields = vec![
        select("d"),
        SelectItem::ExprWithAlias {
            expr: column("b"),
            alias: Ident { value: "renamed".to_string(), quote_style: None },
        },
        select("c"),
        select("a"),
    ];
    let blend = Blend::new(&store, &fields);
    let row = blend.apply(composed(joined(&first, &second)), &evaluate);
    assert_eq!(row, Ok(Row(vec![Value::Null, text("x"), Value::Bool(true), Value::I64(1)])));
}

#[test]
fn empty_list_gives_empty_row() {
    let own = columns(&["a"]);
    let store = storage();
    let context = Rc::new(BlendContext::new(Some("t"), &own, Row(vec![Value::I64(1)]), None));
    let fields: Vec<SelectItem> = vec![];
    let blend = Blend::new(&store, &fields);
    assert_eq!(blend.apply(composed(context), &evaluate), Ok(Row(vec![])));
}

#[test]
fn row_shaped_result_is_refused() {
    let own = columns(&["a"]);
    let store = storage();
    let context = Rc::new(BlendContext::new(Some("t"), &own, Row(vec![Value::I64(1)]), None));
    let fields = vec![SelectItem::UnnamedExpr(Expr::Nested(Box::new(column("a"))))];
    let blend = Blend::new(&store, &fields);
    assert_eq!(
        blend.apply(composed(context), &evaluate),
        Err(Error::Evaluate(EvaluateError::ScalarExpected))
    );
}

#[test]
fn set_shaped_result_is_refused() {
    let own = columns(&["a"]);
    let store = storage();
    let context = Rc::new(BlendContext::new(Some("t"), &own, Row(vec![Value::I64(1)]), None));
    let fields = vec![select("a"), SelectItem::UnnamedExpr(Expr::Wildcard)];
    let blend = Blend::new(&store, &fields);
    assert_eq!(
        blend.apply(composed(context), &evaluate),
        Err(Error::Evaluate(EvaluateError::ScalarExpected))
    );
}

#[test]
fn aggregate_results_reach_the_evaluator() {
    let own = columns(&["a"]);
    let store = storage();
    let call = count_call();
    let fields = vec![SelectItem::UnnamedExpr(Expr::Function(count_call())), select("a")];
    let mut results: Aggregated = im_rc::HashMap::new();
    results.insert(&call, Value::I64(42));
    let context = Rc::new(BlendContext::new(Some("t"), &own, Row(vec![Value::I64(1)]), None));
    let blend = Blend::new(&store, &fields);
    let row = blend.apply(Ok(AggregateContext { aggregated: Some(results), next: context }), &evaluate);
    assert_eq!(row, Ok(Row(vec![Value::I64(42), Value::I64(1)])));
}

#[test]
fn aggregate_asked_without_results_fails() {
    let own = columns(&["a"]);
    let store = storage();
    let context = Rc::new(BlendContext::new(Some("t"), &own, Row(vec![Value::I64(1)]), None));
    let fields = vec![SelectItem::UnnamedExpr(Expr::Function(count_call()))];
    let blend = Blend::new(&store, &fields);
    assert_eq!(blend.apply(composed(context), &evaluate), Err(failed("no aggregate")));
}

#[test]
fn evaluator_reads_the_shared_row_context() {
    let own = columns(&["a"]);
    let store = storage();
    let context = Rc::new(BlendContext::new(Some("t"), &own, Row(vec![Value::I64(1)]), None));
    let seen = Rc::clone(&context);
    let same = |_: &Storage,
                environment: Option<Rc<FilterContext>>,
                _: Option<Rc<Aggregated>>,
                _: &Expr,
                _: bool|
     -> Result<Evaluated, Error> {
        let environment = environment.unwrap();
        Ok(Evaluated::Scalar(Value::Bool(Rc::ptr_eq(&environment.context, &seen))))
    };
    let fields = vec![select("a")];
    let blend = Blend::new(&store, &fields);
    assert_eq!(blend.apply(composed(context), &same), Ok(Row(vec![Value::Bool(true)])));
}

#[test]
fn blend_gives_the_values_of_the_row() {
    let (first, second) = (columns(&["a", "b"]), columns(&["c", "d"]));
    let store = storage();
    let fields = vec![select("c"), SelectItem::QualifiedWildcard("t1".to_string())];
    let blend = Blend::new(&store, &fields);
    let values = blend.blend(None, joined(&first, &second), &evaluate);
    assert_eq!(values, Ok(vec![Value::Bool(true), Value::I64(1), text("x")]));
}

#[test]
fn expand_tells_wildcards_from_expressions() {
    let own = columns(&["a"]);
    let context = BlendContext::new(Some("t"), &own, Row(vec![Value::I64(1)]), None);
    assert!(matches!(
        SelectItem::Wildcard.expand(&context),
        Expansion::Known(Ok(values)) if values == vec![Value::I64(1)]
    ));
    assert!(matches!(
        SelectItem::QualifiedWildcard("t".to_string()).expand(&context),
        Expansion::Known(Ok(values)) if values == vec![Value::I64(1)]
    ));
    assert!(matches!(
        SelectItem::QualifiedWildcard("u".to_string()).expand(&context),
        Expansion::Known(Err(Error::Blend(BlendError::TableAliasNotFound(alias)))) if alias == "u"
    ));
    let item = select("a");
    assert!(matches!(item.expand(&context), Expansion::Evaluate(expr) if *expr == column("a")));
    let item = SelectItem::ExprWithAlias {
        expr: column("b"),
        alias: Ident { value: "c".to_string(), quote_style: None },
    };
    assert!(matches!(item.expand(&context), Expansion::Evaluate(expr) if *expr == column("b")));
}

#[test]
fn into_value_takes_scalars_only() {
    assert_eq!(Evaluated::Scalar(text("v")).into_value(), Ok(text("v")));
    assert_eq!(
        Evaluated::Row(Row(vec![text("v")])).into_value(),
        Err(Error::Evaluate(EvaluateError::ScalarExpected))
    );
    assert_eq!(
        Evaluated::Rows(vec![]).into_value(),
        Err(Error::Evaluate(EvaluateError::ScalarExpected))
    );
}

#[test]
fn evaluated_part_is_one_value_or_the_error() {
    assert_eq!(evaluated_part(Ok(Evaluated::Scalar(Value::I64(5)))), Ok(vec![Value::I64(5)]));
    assert_eq!(evaluated_part(Err(failed("e"))), Err(failed("e")));
    assert_eq!(
        evaluated_part(Ok(Evaluated::Row(Row(vec![])))),
        Err(Error::Evaluate(EvaluateError::ScalarExpected))
    );
}

#[test]
fn assemble_concatenates_in_order() {
    let parts = vec![
        Ok(vec![Value::I64(1), Value::I64(2)]),
        Ok(vec![]),
        Ok(vec![Value::I64(3)]),
    ];
    assert_eq!(assemble(parts), Ok(vec![Value::I64(1), Value::I64(2), Value::I64(3)]));
    assert_eq!(assemble(vec![]), Ok(vec![]));
}

#[test]
fn assemble_reports_the_first_error() {
    let parts = vec![
        Ok(vec![Value::I64(1)]),
        Err(failed("second")),
        Err(failed("third")),
        Ok(vec![Value::I64(4)]),
    ];
    assert_eq!(assemble(parts), Err(failed("second")));
    assert_eq!(assemble(vec![Err(failed("only"))]), Err(failed("only")));
    assert_eq!(
        assemble(vec![Ok(vec![]), Ok(vec![Value::Null]), Err(failed("last"))]),
        Err(failed("last"))
    );
}

#[test]
fn parts_settle_in_any_order() {
    let expected = Ok(vec![Value::I64(1), Value::I64(2), Value::I64(3), Value::I64(4)]);
    let part = |position: usize| -> Result<Vec<Value>, Error> {
        match position {
            0 => Ok(vec![Value::I64(1)]),
            1 => Ok(vec![Value::I64(2), Value::I64(3)]),
            _ => Ok(vec![Value::I64(4)]),
        }
    };
    for order in [[0, 1, 2], [2, 1, 0], [1, 2, 0], [2, 0, 1], [0, 2, 1], [1, 0, 2]] {
        let mut parts = Parts::new(3);
        for position in order {
            parts.settle(position, part(position));
        }
        assert_eq!(parts.finish(), Some(expected.clone()));
    }
}

#[test]
fn parts_report_first_error_in_any_order() {
    let part = |position: usize| -> Result<Vec<Value>, Error> {
        match position {
            0 => Ok(vec![Value::I64(1)]),
            1 => Err(failed("second")),
            _ => Err(failed("third")),
        }
    };
    for order in [[0, 1, 2], [2, 1, 0], [2, 0, 1]] {
        let mut parts = Parts::new(3);
        for position in order {
            parts.settle(position, part(position));
        }
        assert_eq!(parts.finish(), Some(Err(failed("second"))));
    }
}

#[test]
fn parts_wait_for_every_item() {
    let mut parts = Parts::new(2);
    parts.settle(1, Ok(vec![Value::I64(2)]));
    assert_eq!(parts.finish(), None);
    let mut parts = Parts::new(2);
    parts.settle(0, Err(failed("first")));
    assert_eq!(parts.finish(), None);
    assert_eq!(Parts::new(0).finish(), Some(Ok(vec![])));
}

#[test]
fn parts_pass_over_unknown_positions() {
    let mut parts = Parts::new(1);
    parts.settle(5, Ok(vec![Value::I64(9)]));
    assert_eq!(parts.finish(), None);
    let mut parts = Parts::new(1);
    parts.settle(0, Ok(vec![Value::I64(1)]));
    parts.settle(1, Ok(vec![Value::I64(9)]));
    assert_eq!(parts.finish(), Some(Ok(vec![Value::I64(1)])));
}

#[test]
fn parts_keep_the_last_part_of_a_position() {
    let mut parts = Parts::new(1);
    parts.settle(0, Ok(vec![Value::I64(1)]));
    parts.settle(0, Ok(vec![Value::I64(2)]));
    assert_eq!(parts.finish(), Some(Ok(vec![Value::I64(2)])));
}

#[test]
fn missing_alias_is_named_in_the_message() {
    let error = BlendError::TableAliasNotFound("missing".to_string());
    assert_eq!(error.message(), "table alias not found: missing");
    assert_eq!(BlendError::TableAliasNotFound(String::new()).message(), "table alias not found: ");
}
