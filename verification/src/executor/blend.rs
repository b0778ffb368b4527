//! Projection of a row context through a SELECT list.
use std::rc::Rc;
use sqlparser::ast::Expr;
use vstd::prelude::*;
use vstd::string::StringExecFns;
use crate::data::{clone_values, Ident, Row, Value};
use crate::executor::context::{
    alias_values, all_values, lemma_alias_found_where_carried, AggregateContext, Aggregated,
    BlendContext, FilterContext, Link,
};
use crate::outside::share;
use crate::result::{Error, EvaluateError};

verus! {

/// Why a projection failed on its own account.
#[derive(Debug, PartialEq)]
pub enum BlendError {
    /// A qualified wildcard names an alias that no link of the row context
    /// carries.
    TableAliasNotFound(String),
}

impl BlendError {
    /// What the error says.
    pub open spec fn text(&self) -> Seq<char> {
        match *self {
            BlendError::TableAliasNotFound(alias) => "table alias not found: "@ + alias@,
        }
    }

    /// The error in words.
    pub fn message(&self) -> (text: String)
        ensures
            text@ == self.text(),
    {
        match self {
            BlendError::TableAliasNotFound(alias) => String::from_str(
                "table alias not found: ",
            ).concat(alias.as_str()),
        }
    }
}

impl Clone for BlendError {
    fn clone(&self) -> (copy: Self)
        ensures
            copy == *self,
    {
        match self {
            BlendError::TableAliasNotFound(alias) => BlendError::TableAliasNotFound(alias.clone()),
        }
    }
}

/// One item of a SELECT list.
#[derive(Debug, PartialEq)]
pub enum SelectItem {
    /// An expression without an alias.
    UnnamedExpr(Expr),
    /// An expression followed by an alias.
    ExprWithAlias { expr: Expr, alias: Ident },
    /// `alias.*`: every column bound to the alias.
    QualifiedWildcard(String),
    /// `*`: every column of the row.
    Wildcard,
}

/// What the evaluator makes of an expression.
#[derive(Debug, PartialEq)]
pub enum Evaluated {
    /// One scalar.
    Scalar(Value),
    /// A row of values.
    Row(Row),
    /// Any number of rows.
    Rows(Vec<Row>),
}

impl Evaluated {
    /// The scalar that this result stands for, where it is one.
    pub open spec fn scalar(&self) -> Result<Value, Error> {
        match *self {
            Evaluated::Scalar(value) => Ok(value),
            _ => Err(Error::Evaluate(EvaluateError::ScalarExpected)),
        }
    }

    /// Turns the result into the one value that a row can hold.
    pub fn into_value(self) -> (value: Result<Value, Error>)
        ensures
            value == self.scalar(),
    {
        match self {
            Evaluated::Scalar(value) => Ok(value),
            _ => Err(Error::Evaluate(EvaluateError::ScalarExpected)),
        }
    }
}

/// What one item contributes to the row: its values, or why it has none.
pub open spec fn part_view(part: Result<Vec<Value>, Error>) -> Result<Seq<Value>, Error> {
    match part {
        Ok(values) => Ok(values@),
        Err(error) => Err(error),
    }
}

/// The rows and errors of `parts`, each row as the values it holds.
pub open spec fn part_views(parts: Seq<Result<Vec<Value>, Error>>) -> Seq<Result<Seq<Value>, Error>> {
    Seq::new(parts.len(), |i: int| part_view(parts[i]))
}

/// What a projection returns, with the row as the values it holds.
pub open spec fn row_view(row: Result<Row, Error>) -> Result<Seq<Value>, Error> {
    match row {
        Ok(row) => Ok(row@),
        Err(error) => Err(error),
    }
}

/// What an expression item contributes, given the evaluator's answer: the
/// one scalar it evaluated to, or the error of the evaluation or of the
/// conversion.
pub open spec fn evaluated_values(outcome: Result<Evaluated, Error>) -> Result<Seq<Value>, Error> {
    match outcome {
        Ok(evaluated) => match evaluated.scalar() {
            Ok(value) => Ok(seq![value]),
            Err(error) => Err(error),
        },
        Err(error) => Err(error),
    }
}

/// The parts of a row put together: the values of every part, in the order
/// of the parts, unless a part failed; then the error of the first part that
/// did.
pub open spec fn assembled(parts: Seq<Result<Seq<Value>, Error>>) -> Result<Seq<Value>, Error>
    decreases parts.len(),
{
    if parts.len() == 0 {
        Ok(Seq::empty())
    } else {
        match assembled(parts.drop_last()) {
            Err(error) => Err(error),
            Ok(before) => match parts.last() {
                Err(error) => Err(error),
                Ok(values) => Ok(before + values),
            },
        }
    }
}

/// What the items of `fields` contribute over the row context `chain`, where
/// `outcomes[i]` is the evaluator's answer for the expression of item `i`.
pub open spec fn item_parts(
    fields: Seq<SelectItem>,
    chain: Seq<Link>,
    outcomes: Seq<Result<Evaluated, Error>>,
) -> Seq<Result<Seq<Value>, Error>> {
    Seq::new(fields.len(), |i: int| fields[i].values(chain, outcomes[i]))
}

/// The projection of the row context `chain` through `fields`.
pub open spec fn projected(
    fields: Seq<SelectItem>,
    chain: Seq<Link>,
    outcomes: Seq<Result<Evaluated, Error>>,
) -> Result<Seq<Value>, Error> {
    assembled(item_parts(fields, chain, outcomes))
}

/// What is to be done for one item of a SELECT list.
#[derive(Debug, PartialEq)]
pub enum Expansion<'a> {
    /// The row context alone decides what the item contributes.
    Known(Result<Vec<Value>, Error>),
    /// The expression is to be evaluated.
    Evaluate(&'a Expr),
}

impl SelectItem {
    /// The expression that the evaluator is asked about, where the item has
    /// one.
    pub open spec fn expr(&self) -> Option<Expr> {
        match *self {
            SelectItem::UnnamedExpr(expr) => Some(expr),
            SelectItem::ExprWithAlias { expr, .. } => Some(expr),
            _ => None,
        }
    }

    /// What the item contributes over the row context `chain`. `outcome` is
    /// the evaluator's answer for the item's expression; a wildcard has none
    /// and does not depend on it.
    pub open spec fn values(&self, chain: Seq<Link>, outcome: Result<Evaluated, Error>) -> Result<
        Seq<Value>,
        Error,
    > {
        match *self {
            SelectItem::Wildcard => Ok(all_values(chain)),
            SelectItem::QualifiedWildcard(alias) => match alias_values(chain, alias@) {
                Some(values) => Ok(values),
                None => Err(Error::Blend(BlendError::TableAliasNotFound(alias))),
            },
            _ => evaluated_values(outcome),
        }
    }

    /// Decides what is to be done for the item: a wildcard is expanded here,
    /// an expression is handed out for evaluation.
    pub fn expand<'a>(&'a self, context: &BlendContext) -> (expansion: Expansion<'a>)
        ensures
            match expansion {
                Expansion::Known(part) => self.expr() is None && forall|
                    outcome: Result<Evaluated, Error>,
                |
                    part_view(part) == #[trigger] self.values(context.chain(), outcome),
                Expansion::Evaluate(expr) => self.expr() == Some(*expr),
            },
    {
        match self {
            SelectItem::Wildcard => Expansion::Known(Ok(context.get_all_values())),
            SelectItem::QualifiedWildcard(alias) => {
                match context.get_alias_values(alias.as_str()) {
                    Some(values) => Expansion::Known(Ok(values)),
                    None => Expansion::Known(
                        Err(Error::Blend(BlendError::TableAliasNotFound(alias.clone()))),
                    ),
                }
            },
            SelectItem::UnnamedExpr(expr) => Expansion::Evaluate(expr),
            SelectItem::ExprWithAlias { expr, .. } => Expansion::Evaluate(expr),
        }
    }
}

/// Turns the evaluator's answer for an expression into what the item
/// contributes: one value, or the error.
pub fn evaluated_part(outcome: Result<Evaluated, Error>) -> (part: Result<Vec<Value>, Error>)
    ensures
        part_view(part) == evaluated_values(outcome),
{
    match outcome {
        Ok(evaluated) => match evaluated.into_value() {
            Ok(value) => {
                let mut values: Vec<Value> = Vec::new();
                values.push(value);
                assert(values@ =~= seq![value]);
                Ok(values)
            },
            Err(error) => Err(error),
        },
        Err(error) => Err(error),
    }
}

/// Where every part before the failed part `first` holds values,
/// `assembled` gives the error of `first`.
pub proof fn lemma_first_failure_is_reported(parts: Seq<Result<Seq<Value>, Error>>, first: int)
    requires
        0 <= first < parts.len(),
        parts[first] is Err,
        forall|i: int| 0 <= i < first ==> parts[i] is Ok,
    ensures
        assembled(parts) == Err::<Seq<Value>, Error>(parts[first]->Err_0),
    decreases parts.len(),
{
    let before = parts.drop_last();
    if first == parts.len() - 1 {
        lemma_no_failure_is_concatenation(before);
    } else {
        lemma_first_failure_is_reported(before, first);
    }
}

/// Where every part holds values, `assembled` gives the values of all of
/// them, part after part.
pub proof fn lemma_no_failure_is_concatenation(parts: Seq<Result<Seq<Value>, Error>>)
    requires
        forall|i: int| 0 <= i < parts.len() ==> parts[i] is Ok,
    ensures
        assembled(parts) == Ok::<Seq<Value>, Error>(
            Seq::new(parts.len(), |i: int| parts[i]->Ok_0).flatten(),
        ),
    decreases parts.len(),
{
    let all = Seq::new(parts.len(), |i: int| parts[i]->Ok_0);
    if parts.len() == 0 {
        assert(all =~= Seq::<Seq<Value>>::empty());
    } else {
        let before = parts.drop_last();
        lemma_no_failure_is_concatenation(before);
        let most = Seq::new(before.len(), |i: int| before[i]->Ok_0);
        assert(all.drop_last() =~= most);
        all.lemma_flatten_and_flatten_alt_are_equivalent();
        most.lemma_flatten_and_flatten_alt_are_equivalent();
    }
}

/// Order preservation: where every item of the SELECT list has values, the
/// projection is the values of the items one after the other, in the order
/// of the list.
pub proof fn lemma_projection_keeps_order(
    fields: Seq<SelectItem>,
    chain: Seq<Link>,
    outcomes: Seq<Result<Evaluated, Error>>,
)
    requires
        forall|i: int| 0 <= i < fields.len() ==> fields[i].values(chain, outcomes[i]) is Ok,
    ensures
        projected(fields, chain, outcomes) == Ok::<Seq<Value>, Error>(
            Seq::new(fields.len(), |i: int| fields[i].values(chain, outcomes[i])->Ok_0).flatten(),
        ),
{
    let parts = item_parts(fields, chain, outcomes);
    lemma_no_failure_is_concatenation(parts);
    assert(Seq::new(parts.len(), |i: int| parts[i]->Ok_0) =~= Seq::new(
        fields.len(),
        |i: int| fields[i].values(chain, outcomes[i])->Ok_0,
    ));
}

/// Failing together: where item `first` fails and every item before it has
/// values, the projection fails with the error of item `first`, whatever
/// becomes of the items after it.
pub proof fn lemma_projection_reports_first_failure(
    fields: Seq<SelectItem>,
    chain: Seq<Link>,
    outcomes: Seq<Result<Evaluated, Error>>,
    first: int,
)
    requires
        0 <= first < fields.len(),
        fields[first].values(chain, outcomes[first]) is Err,
        forall|i: int| 0 <= i < first ==> fields[i].values(chain, outcomes[i]) is Ok,
    ensures
        projected(fields, chain, outcomes) == Err::<Seq<Value>, Error>(
            fields[first].values(chain, outcomes[first])->Err_0,
        ),
{
    lemma_first_failure_is_reported(item_parts(fields, chain, outcomes), first);
}

/// Alias resolution: where item `at` is `alias.*`, no link of the row
/// context carries `alias`, and every item before it has values, the
/// projection fails with `TableAliasNotFound(alias)`.
pub proof fn lemma_missing_alias_fails(
    fields: Seq<SelectItem>,
    chain: Seq<Link>,
    outcomes: Seq<Result<Evaluated, Error>>,
    at: int,
    alias: String,
)
    requires
        0 <= at < fields.len(),
        fields[at] == SelectItem::QualifiedWildcard(alias),
        forall|k: int| 0 <= k < chain.len() ==> chain[k].alias != Some(alias@),
        forall|i: int| 0 <= i < at ==> fields[i].values(chain, outcomes[i]) is Ok,
    ensures
        projected(fields, chain, outcomes) == Err::<Seq<Value>, Error>(
            Error::Blend(BlendError::TableAliasNotFound(alias)),
        ),
{
    lemma_alias_found_where_carried(chain, alias@);
    lemma_projection_reports_first_failure(fields, chain, outcomes, at);
}

/// Puts the parts of a row together: the values of every part in the order
/// of the parts, or the error of the first part that failed.
pub fn assemble(parts: Vec<Result<Vec<Value>, Error>>) -> (values: Result<Vec<Value>, Error>)
    ensures
        part_view(values) == assembled(part_views(parts@)),
{
    let ghost views = part_views(parts@);
    let mut rest = parts;
    let mut i: usize = 0;
    while i < rest.len()
        invariant
            i <= rest.len(),
            views == part_views(parts@),
            views == part_views(rest@),
            forall|k: int| 0 <= k < i ==> views[k] is Ok,
        decreases rest.len() - i,
    {
        if rest[i].is_err() {
            proof {
                lemma_first_failure_is_reported(views, i as int);
                assert(views[i as int] == part_view(rest[i as int]));
            }
            let failed = rest.swap_remove(i);
            if let Err(error) = failed {
                return Err(error);
            }
            proof {
                assert(false);
            }
        }
        i += 1;
    }
    let mut values: Vec<Value> = Vec::new();
    let mut j: usize = 0;
    while j < rest.len()
        invariant
            j <= rest.len(),
            views == part_views(parts@),
            views == part_views(rest@),
            forall|k: int| 0 <= k < rest.len() ==> views[k] is Ok,
            assembled(views.take(j as int)) == Ok::<Seq<Value>, Error>(values@),
        decreases rest.len() - j,
    {
        if let Ok(own) = &rest[j] {
            let mut copy = clone_values(own);
            values.append(&mut copy);
        }
        proof {
            assert(views.take(j + 1).drop_last() =~= views.take(j as int));
            assert(views.take(j + 1).last() == views[j as int]);
        }
        j += 1;
    }
    assert(views.take(rest.len() as int) =~= views);
    Ok(values)
}

/// The parts of one row while its items are worked out side by side: each
/// part is kept at the position of its item, whenever it comes in.
pub struct Parts {
    slots: Vec<Option<Result<Vec<Value>, Error>>>,
}

/// What is kept at one position: nothing yet, or the part.
pub open spec fn slot_view(slot: Option<Result<Vec<Value>, Error>>) -> Option<
    Result<Seq<Value>, Error>,
> {
    match slot {
        Some(part) => Some(part_view(part)),
        None => None,
    }
}

/// The slots after `part` has come in for `position`. A position that the
/// row does not have is passed over.
pub open spec fn placed(
    slots: Seq<Option<Result<Seq<Value>, Error>>>,
    position: int,
    part: Result<Seq<Value>, Error>,
) -> Seq<Option<Result<Seq<Value>, Error>>> {
    if 0 <= position < slots.len() {
        slots.update(position, Some(part))
    } else {
        slots
    }
}

/// The slots after the parts of `done` have come in, in the order of `done`:
/// each is a position and the part of the item at that position.
pub open spec fn settled(
    slots: Seq<Option<Result<Seq<Value>, Error>>>,
    done: Seq<(int, Result<Seq<Value>, Error>)>,
) -> Seq<Option<Result<Seq<Value>, Error>>>
    decreases done.len(),
{
    if done.len() == 0 {
        slots
    } else {
        placed(settled(slots, done.drop_last()), done.last().0, done.last().1)
    }
}

/// Whether no two parts of `done` have come in for the same position.
pub open spec fn each_position_once(done: Seq<(int, Result<Seq<Value>, Error>)>) -> bool {
    forall|i: int, j: int|
        0 <= i < done.len() && 0 <= j < done.len() && i != j ==> (#[trigger] done[i]).0 != (
        #[trigger] done[j]).0
}

/// What is kept at `position` after the parts of `done` have come in, each
/// for a position of its own: the part that came in for `position`, or what
/// was kept there before.
pub proof fn lemma_settled_slot(
    slots: Seq<Option<Result<Seq<Value>, Error>>>,
    done: Seq<(int, Result<Seq<Value>, Error>)>,
    position: int,
)
    requires
        each_position_once(done),
        0 <= position < slots.len(),
    ensures
        settled(slots, done).len() == slots.len(),
        forall|i: int|
            0 <= i < done.len() && (#[trigger] done[i]).0 == position ==> settled(
                slots,
                done,
            )[position] == Some(done[i].1),
        (forall|i: int| 0 <= i < done.len() ==> (#[trigger] done[i]).0 != position) ==> settled(
            slots,
            done,
        )[position] == slots[position],
    decreases done.len(),
{
    if done.len() > 0 {
        let earlier = done.drop_last();
        assert forall|i: int, j: int|
            0 <= i < earlier.len() && 0 <= j < earlier.len() && i != j implies (
        #[trigger] earlier[i]).0 != (#[trigger] earlier[j]).0 by {
            assert(earlier[i] == done[i]);
            assert(earlier[j] == done[j]);
        }
        lemma_settled_slot(slots, earlier, position);
        let last = done.len() - 1;
        assert forall|i: int| 0 <= i < done.len() && (#[trigger] done[i]).0 == position implies settled(
            slots,
            done,
        )[position] == Some(done[i].1) by {
            if i < last {
                assert(earlier[i] == done[i]);
                assert(done[last].0 != done[i].0);
            }
        }
        if forall|i: int| 0 <= i < done.len() ==> (#[trigger] done[i]).0 != position {
            assert forall|i: int| 0 <= i < earlier.len() implies (#[trigger] earlier[i]).0
                != position by {
                assert(earlier[i] == done[i]);
            }
            assert(done[last].0 != position);
        }
    }
}

/// The order in which the parts come in does not matter: where `done` and
/// `other` hold the same parts for the same positions, each position once,
/// the same parts are kept at the same positions after either.
pub proof fn lemma_settling_order_is_immaterial(
    slots: Seq<Option<Result<Seq<Value>, Error>>>,
    done: Seq<(int, Result<Seq<Value>, Error>)>,
    other: Seq<(int, Result<Seq<Value>, Error>)>,
)
    requires
        each_position_once(done),
        each_position_once(other),
        done.to_multiset() == other.to_multiset(),
    ensures
        settled(slots, done) == settled(slots, other),
{
    done.to_multiset_ensures();
    other.to_multiset_ensures();
    if slots.len() == 0 {
        lemma_settled_keeps_length(slots, done);
        lemma_settled_keeps_length(slots, other);
    }
    assert forall|position: int| 0 <= position < slots.len() implies settled(slots, done)[position]
        == settled(slots, other)[position] by {
        lemma_settled_slot(slots, done, position);
        lemma_settled_slot(slots, other, position);
        if exists|i: int| 0 <= i < done.len() && (#[trigger] done[i]).0 == position {
            let i = choose|i: int| 0 <= i < done.len() && (#[trigger] done[i]).0 == position;
            assert(done.contains(done[i]));
            assert(other.to_multiset().count(done[i]) > 0);
            assert(other.contains(done[i]));
            let j = choose|j: int| 0 <= j < other.len() && other[j] == done[i];
            assert(other[j].0 == position);
        } else {
            assert forall|j: int| 0 <= j < other.len() implies (#[trigger] other[j]).0
                != position by {
                assert(other.contains(other[j]));
                assert(done.to_multiset().count(other[j]) > 0);
                assert(done.contains(other[j]));
                let i = choose|i: int| 0 <= i < done.len() && done[i] == other[j];
                assert(done[i].0 == other[j].0);
            }
        }
    }
    lemma_settled_keeps_length(slots, done);
    lemma_settled_keeps_length(slots, other);
    assert(settled(slots, done) =~= settled(slots, other));
}

/// Parts that come in fill slots and make none.
pub proof fn lemma_settled_keeps_length(
    slots: Seq<Option<Result<Seq<Value>, Error>>>,
    done: Seq<(int, Result<Seq<Value>, Error>)>,
)
    ensures
        settled(slots, done).len() == slots.len(),
    decreases done.len(),
{
    if done.len() > 0 {
        lemma_settled_keeps_length(slots, done.drop_last());
    }
}

impl View for Parts {
    type V = Seq<Option<Result<Seq<Value>, Error>>>;

    closed spec fn view(&self) -> Seq<Option<Result<Seq<Value>, Error>>> {
        Seq::new(self.slots@.len(), |i: int| slot_view(self.slots@[i]))
    }
}

impl Parts {
    /// Room for the parts of `len` items, none of them in yet.
    pub fn new(len: usize) -> (parts: Self)
        ensures
            parts@ == Seq::new(len as nat, |i: int| None::<Result<Seq<Value>, Error>>),
    {
        let mut slots: Vec<Option<Result<Vec<Value>, Error>>> = Vec::new();
        let mut i: usize = 0;
        while i < len
            invariant
                i <= len,
                slots@.len() == i,
                forall|k: int| 0 <= k < i ==> slots@[k] is None,
            decreases len - i,
        {
            slots.push(None);
            i += 1;
        }
        let parts = Parts { slots };
        assert(parts@ =~= Seq::new(len as nat, |i: int| None::<Result<Seq<Value>, Error>>));
        parts
    }

    /// Keeps `part` at `position`. A position that the row does not have is
    /// passed over.
    pub fn settle(&mut self, position: usize, part: Result<Vec<Value>, Error>)
        ensures
            final(self)@ == placed(old(self)@, position as int, part_view(part)),
    {
        let ghost before = self@;
        if position < self.slots.len() {
            self.slots[position] = Some(part);
            assert(self@ =~= before.update(position as int, Some(part_view(part))));
        }
    }

    /// The row, once the part of every item is in: the values of every part
    /// in the order of the items, or the error of the first item that
    /// failed. `None` while a part is missing.
    pub fn finish(self) -> (values: Option<Result<Vec<Value>, Error>>)
        ensures
            match values {
                Some(row) => (forall|i: int| 0 <= i < self@.len() ==> self@[i] is Some)
                    && part_view(row) == assembled(
                    Seq::new(self@.len(), |i: int| self@[i]->Some_0),
                ),
                None => exists|i: int| 0 <= i < self@.len() && self@[i] is None,
            },
    {
        let ghost kept = self@;
        let mut slots = self.slots;
        let mut parts: Vec<Result<Vec<Value>, Error>> = Vec::new();
        while slots.len() > 0
            invariant
                kept == self@,
                slots@.len() <= kept.len(),
                forall|k: int| 0 <= k < slots@.len() ==> slot_view(#[trigger] slots@[k]) == kept[k],
                parts@.len() == kept.len() - slots@.len(),
                forall|k: int|
                    0 <= k < parts@.len() ==> Some(part_view(#[trigger] parts@[k])) == kept[kept.len()
                        - 1 - k],
            decreases slots@.len(),
        {
            let ghost at = slots@.len() - 1;
            assert(slot_view(slots@[at]) == kept[at]);
            match slots.pop() {
                Some(Some(part)) => {
                    parts.push(part);
                },
                _ => {
                    assert(0 <= at < self@.len() && self@[at] is None);
                    return None;
                },
            }
        }
        let mut ordered: Vec<Result<Vec<Value>, Error>> = Vec::new();
        while parts.len() > 0
            invariant
                kept == self@,
                parts@.len() <= kept.len(),
                ordered@.len() == kept.len() - parts@.len(),
                forall|k: int|
                    0 <= k < parts@.len() ==> Some(part_view(#[trigger] parts@[k])) == kept[kept.len()
                        - 1 - k],
                forall|k: int|
                    0 <= k < ordered@.len() ==> Some(part_view(#[trigger] ordered@[k])) == kept[k],
            decreases parts@.len(),
        {
            match parts.pop() {
                Some(part) => {
                    ordered.push(part);
                },
                None => {},
            }
        }
        assert forall|i: int| 0 <= i < kept.len() implies kept[i] is Some by {
            assert(Some(part_view(ordered@[i])) == kept[i]);
        }
        assert(part_views(ordered@) =~= Seq::new(kept.len(), |i: int| kept[i]->Some_0));
        Some(assemble(ordered))
    }
}

/// Whether `environment` and `shared` are what the projection of a row hands
/// to the evaluator with every expression: the environment of the row
/// context alone, with no enclosing query, and the row's aggregate results.
pub open spec fn handed<'a>(
    aggregated: Option<Aggregated<'a>>,
    context: Rc<BlendContext<'a>>,
    environment: Option<Rc<FilterContext<'a>>>,
    shared: Option<Rc<Aggregated<'a>>>,
) -> bool {
    &&& environment is Some
    &&& environment->0.context == context
    &&& environment->0.next is None
    &&& match shared {
        Some(results) => aggregated == Some(*results),
        None => aggregated is None,
    }
}

/// A SELECT list over a storage, ready to project rows.
pub struct Blend<'a, S> {
    storage: &'a S,
    fields: &'a [SelectItem],
}

impl<'a, S> Blend<'a, S> {
    /// The storage that the evaluator reads.
    pub closed spec fn storage(&self) -> &'a S {
        self.storage
    }

    /// The SELECT list.
    pub closed spec fn fields(&self) -> Seq<SelectItem> {
        self.fields@
    }

    /// Whether `evaluate` accepts every question that the projection of a
    /// row asks.
    pub open spec fn may_ask<E>(
        &self,
        evaluate: E,
        aggregated: Option<Aggregated<'a>>,
        context: Rc<BlendContext<'a>>,
    ) -> bool where
        E: Fn(
            &'a S,
            Option<Rc<FilterContext<'a>>>,
            Option<Rc<Aggregated<'a>>>,
            &'a Expr,
            bool,
        ) -> Result<Evaluated, Error>,
     {
        forall|i: int, environment: Option<Rc<FilterContext<'a>>>, shared: Option<Rc<Aggregated<'a>>>|
            #![trigger self.fields()[i], handed(aggregated, context, environment, shared)]
            0 <= i < self.fields().len() && self.fields()[i].expr() is Some && handed(
                aggregated,
                context,
                environment,
                shared,
            ) ==> call_requires(
                evaluate,
                (self.storage(), environment, shared, &self.fields()[i].expr()->0, true),
            )
    }

    /// Whether `outcomes` holds, for every expression of the SELECT list and
    /// at its position, an answer that `evaluate` may give for it.
    pub open spec fn answered<E>(
        &self,
        evaluate: E,
        aggregated: Option<Aggregated<'a>>,
        context: Rc<BlendContext<'a>>,
        outcomes: Seq<Result<Evaluated, Error>>,
    ) -> bool where
        E: Fn(
            &'a S,
            Option<Rc<FilterContext<'a>>>,
            Option<Rc<Aggregated<'a>>>,
            &'a Expr,
            bool,
        ) -> Result<Evaluated, Error>,
     {
        &&& outcomes.len() == self.fields().len()
        &&& forall|
            i: int,
            environment: Option<Rc<FilterContext<'a>>>,
            shared: Option<Rc<Aggregated<'a>>>,
        |
            #![trigger self.fields()[i], handed(aggregated, context, environment, shared)]
            0 <= i < self.fields().len() && self.fields()[i].expr() is Some && handed(
                aggregated,
                context,
                environment,
                shared,
            ) ==> call_ensures(
                evaluate,
                (self.storage(), environment, shared, &self.fields()[i].expr()->0, true),
                outcomes[i],
            )
    }

    pub fn new(storage: &'a S, fields: &'a [SelectItem]) -> (blend: Self)
        ensures
            blend.storage() == storage,
            blend.fields() == fields@,
    {
        Blend { storage, fields }
    }

    /// Projects one row, or hands on the failure of the stage that was to
    /// produce it.
    pub fn apply<E>(&self, context: Result<AggregateContext<'a>, Error>, evaluate: &E) -> (row:
        Result<Row, Error>) where
        E: Fn(
            &'a S,
            Option<Rc<FilterContext<'a>>>,
            Option<Rc<Aggregated<'a>>>,
            &'a Expr,
            bool,
        ) -> Result<Evaluated, Error>,

        requires
            context matches Ok(composed) ==> self.may_ask(
                *evaluate,
                composed.aggregated,
                composed.next,
            ),
        ensures
            match context {
                Err(error) => row == Err::<Row, Error>(error),
                Ok(composed) => exists|outcomes: Seq<Result<Evaluated, Error>>|
                    self.answered(*evaluate, composed.aggregated, composed.next, outcomes)
                        && row_view(row) == projected(
                        self.fields(),
                        composed.next.chain(),
                        outcomes,
                    ),
            },
    {
        match context {
            Err(error) => Err(error),
            Ok(composed) => {
                let AggregateContext { aggregated, next } = composed;
                match self.blend(aggregated, next, evaluate) {
                    Ok(values) => Ok(Row(values)),
                    Err(error) => Err(error),
                }
            },
        }
    }

    /// The values that the SELECT list takes from one row. Every item is
    /// worked out, also after one has failed; the error reported is that of
    /// the first item that failed.
    pub fn blend<E>(
        &self,
        aggregated: Option<Aggregated<'a>>,
        context: Rc<BlendContext<'a>>,
        evaluate: &E,
    ) -> (values: Result<Vec<Value>, Error>) where
        E: Fn(
            &'a S,
            Option<Rc<FilterContext<'a>>>,
            Option<Rc<Aggregated<'a>>>,
            &'a Expr,
            bool,
        ) -> Result<Evaluated, Error>,

        requires
            self.may_ask(*evaluate, aggregated, context),
        ensures
            exists|outcomes: Seq<Result<Evaluated, Error>>|
                self.answered(*evaluate, aggregated, context, outcomes) && part_view(values)
                    == projected(self.fields(), context.chain(), outcomes),
    {
        let filter_context = Rc::new(FilterContext::concat(None, share(&context)));
        let ghost results = aggregated;
        let aggregated = match aggregated {
            Some(results) => Some(Rc::new(results)),
            None => None,
        };
        let mut parts: Vec<Result<Vec<Value>, Error>> = Vec::new();
        let ghost mut outcomes: Seq<Result<Evaluated, Error>> = Seq::empty();
        let mut i: usize = 0;
        while i < self.fields.len()
            invariant
                i <= self.fields.len(),
                parts.len() == i,
                outcomes.len() == i,
                self.may_ask(*evaluate, results, context),
                filter_context.context == context,
                filter_context.next is None,
                match aggregated {
                    Some(shared) => results == Some(*shared),
                    None => results is None,
                },
                forall|k: int|
                    0 <= k < i ==> part_view(#[trigger] parts[k]) == self.fields()[k].values(
                        context.chain(),
                        outcomes[k],
                    ),
                forall|
                    k: int,
                    environment: Option<Rc<FilterContext<'a>>>,
                    shared: Option<Rc<Aggregated<'a>>>,
                |
                    #![trigger self.fields()[k], handed(results, context, environment, shared)]
                    0 <= k < i && self.fields()[k].expr() is Some && handed(
                        results,
                        context,
                        environment,
                        shared,
                    ) ==> call_ensures(
                        *evaluate,
                        (self.storage(), environment, shared, &self.fields()[k].expr()->0, true),
                        outcomes[k],
                    ),
            decreases self.fields.len() - i,
        {
            let part = match self.fields[i].expand(&context) {
                Expansion::Known(part) => {
                    proof {
                        outcomes = outcomes.push(Err(Error::SchemaNotFound));
                    }
                    part
                },
                Expansion::Evaluate(expr) => {
                    let environment = Some(share(&filter_context));
                    let shared = match &aggregated {
                        Some(results) => Some(share(results)),
                        None => None,
                    };
                    assert(handed(results, context, environment, shared));
                    let outcome = evaluate(self.storage, environment, shared, expr, true);
                    proof {
                        outcomes = outcomes.push(outcome);
                    }
                    evaluated_part(outcome)
                },
            };
            parts.push(part);
            i += 1;
        }
        let values = assemble(parts);
        proof {
            assert(part_views(parts@) =~= item_parts(self.fields(), context.chain(), outcomes));
            assert(self.answered(*evaluate, results, context, outcomes));
            assert(part_view(values) == projected(self.fields(), context.chain(), outcomes));
        }
        values
    }
}

} // verus!
