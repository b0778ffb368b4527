//! The contexts that bind one composed input row.
use std::rc::Rc;
use vstd::prelude::*;
use sqlparser::ast::Function;
use crate::data::{clone_values, Ident, Row, Value};
use crate::outside::same_text;

verus! {

/// What one link of a row context binds.
pub ghost struct Link {
    pub alias: Option<Seq<char>>,
    pub columns: Seq<Ident>,
    pub row: Seq<Value>,
}

/// The values of every link of `chain`, link after link.
pub open spec fn all_values(chain: Seq<Link>) -> Seq<Value>
    decreases chain.len(),
{
    if chain.len() == 0 {
        Seq::empty()
    } else {
        all_values(chain.drop_last()) + chain.last().row
    }
}

/// The values of the last link of `chain` that carries `alias`, if one does.
pub open spec fn alias_values(chain: Seq<Link>, alias: Seq<char>) -> Option<Seq<Value>>
    decreases chain.len(),
{
    if chain.len() == 0 {
        None
    } else if chain.last().alias == Some(alias) {
        Some(chain.last().row)
    } else {
        alias_values(chain.drop_last(), alias)
    }
}

/// Every value of a chain is there: the values of `chain` followed by those
/// of `more` are the values of the two chains joined.
pub proof fn lemma_all_values_of_joined(chain: Seq<Link>, more: Seq<Link>)
    ensures
        all_values(chain + more) == all_values(chain) + all_values(more),
    decreases more.len(),
{
    if more.len() == 0 {
        assert(chain + more =~= chain);
        assert(all_values(chain) + all_values(more) =~= all_values(chain));
    } else {
        lemma_all_values_of_joined(chain, more.drop_last());
        assert((chain + more).drop_last() =~= chain + more.drop_last());
        assert((chain + more).last() == more.last());
        assert(all_values(chain + more) =~= all_values(chain) + all_values(more));
    }
}

/// An alias has values exactly where a link carries it, and they are those
/// of the last link that does.
pub proof fn lemma_alias_found_where_carried(chain: Seq<Link>, alias: Seq<char>)
    ensures
        alias_values(chain, alias) is None <==> forall|k: int|
            0 <= k < chain.len() ==> (#[trigger] chain[k]).alias != Some(alias),
        forall|k: int|
            0 <= k < chain.len() && (#[trigger] chain[k]).alias == Some(alias) && (forall|later: int|
                k < later < chain.len() ==> (#[trigger] chain[later]).alias != Some(alias))
                ==> alias_values(chain, alias) == Some(chain[k].row),
    decreases chain.len(),
{
    if chain.len() > 0 {
        let parents = chain.drop_last();
        lemma_alias_found_where_carried(parents, alias);
        assert forall|k: int| 0 <= k < parents.len() implies parents[k] == chain[k] by {}
        if chain.last().alias == Some(alias) {
            assert(chain[chain.len() - 1].alias == Some(alias));
        } else {
            if alias_values(chain, alias) is None {
                assert forall|k: int| 0 <= k < chain.len() implies (#[trigger] chain[k]).alias
                    != Some(alias) by {
                    if k < parents.len() {
                        assert(parents[k] == chain[k]);
                    }
                }
            } else {
                let k = choose|k: int|
                    0 <= k < parents.len() && (#[trigger] parents[k]).alias == Some(alias);
                assert(chain[k].alias == Some(alias));
            }
            assert forall|k: int|
                0 <= k < chain.len() && (#[trigger] chain[k]).alias == Some(alias) && (forall|
                    later: int,
                |
                    k < later < chain.len() ==> (#[trigger] chain[later]).alias != Some(
                        alias,
                    )) implies alias_values(chain, alias) == Some(chain[k].row) by {
                assert(k < parents.len());
                assert(parents[k] == chain[k]);
                assert forall|later: int| k < later < parents.len() implies (
                #[trigger] parents[later]).alias != Some(alias) by {
                    assert(parents[later] == chain[later]);
                }
            }
        }
    }
}

/// The row of one table appearance, linked to the rows it was joined to.
///
/// The chain is read from its far end: the link without a parent comes
/// first, this link last. That is the chain order.
pub struct BlendContext<'a> {
    pub table_alias: Option<&'a str>,
    pub columns: &'a [Ident],
    pub row: Row,
    pub next: Option<Rc<BlendContext<'a>>>,
}

impl<'a> BlendContext<'a> {
    /// What this link alone binds.
    pub open spec fn link(&self) -> Link {
        Link {
            alias: match self.table_alias {
                Some(alias) => Some(alias@),
                None => None,
            },
            columns: self.columns@,
            row: self.row@,
        }
    }

    /// The chain that ends in this link.
    pub open spec fn chain(&self) -> Seq<Link>
        decreases self,
    {
        match self.next {
            Some(next) => next.chain().push(self.link()),
            None => seq![self.link()],
        }
    }

    pub fn new(
        table_alias: Option<&'a str>,
        columns: &'a [Ident],
        row: Row,
        next: Option<Rc<BlendContext<'a>>>,
    ) -> (context: Self)
        ensures
            context.table_alias == table_alias,
            context.columns == columns,
            context.row == row,
            context.next == next,
    {
        BlendContext { table_alias, columns, row, next }
    }

    /// Every value of the chain, in chain order.
    pub fn get_all_values(&self) -> (values: Vec<Value>)
        ensures
            values@ == all_values(self.chain()),
        decreases *self,
    {
        let mut values: Vec<Value> = match &self.next {
            Some(next) => next.get_all_values(),
            None => Vec::new(),
        };
        let mut own = clone_values(&self.row.0);
        values.append(&mut own);
        proof {
            let chain = self.chain();
            if self.next is Some {
                assert(chain.drop_last() =~= self.next->0.chain());
            } else {
                assert(chain.drop_last() =~= Seq::<Link>::empty());
            }
            assert(values@ =~= all_values(chain.drop_last()) + chain.last().row);
        }
        values
    }

    /// The values bound to `alias`: those of the nearest link that carries
    /// it, walking from this link towards the far end.
    pub fn get_alias_values(&self, alias: &str) -> (values: Option<Vec<Value>>)
        ensures
            match values {
                Some(found) => alias_values(self.chain(), alias@) == Some(found@),
                None => alias_values(self.chain(), alias@) is None,
            },
        decreases *self,
    {
        let carries = match self.table_alias {
            Some(own) => same_text(own, alias),
            None => false,
        };
        proof {
            let chain = self.chain();
            if self.next is Some {
                assert(chain.drop_last() =~= self.next->0.chain());
            } else {
                assert(chain.drop_last() =~= Seq::<Link>::empty());
            }
        }
        if carries {
            Some(clone_values(&self.row.0))
        } else {
            match &self.next {
                Some(next) => next.get_alias_values(alias),
                None => None,
            }
        }
    }
}

/// The aggregate results of one row, each under the call that computed it.
pub type Aggregated<'a> = im_rc::HashMap<&'a Function, Value>;

/// One composed row as the aggregation stage hands it on: the aggregate
/// results, where the query has any, and the row context.
pub struct AggregateContext<'a> {
    pub aggregated: Option<Aggregated<'a>>,
    pub next: Rc<BlendContext<'a>>,
}

/// The environment in which the evaluator resolves column references: a row
/// context, and the environment of the enclosing query where there is one.
pub struct FilterContext<'a> {
    pub context: Rc<BlendContext<'a>>,
    pub next: Option<Rc<FilterContext<'a>>>,
}

impl<'a> FilterContext<'a> {
    /// The environment of `context` inside that of `outer`.
    pub fn concat(outer: Option<Rc<FilterContext<'a>>>, context: Rc<BlendContext<'a>>) -> (joined:
        Self)
        ensures
            joined.context == context,
            joined.next == outer,
    {
        FilterContext { context, next: outer }
    }
}

} // verus!
