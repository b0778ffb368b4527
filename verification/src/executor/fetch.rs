//! Filtered retrieval of stored rows.
use vstd::prelude::*;
use vstd::std_specs::iter::IteratorSpec;
use crate::data::{Ident, Row};
use crate::outside::as_some;
use crate::result::Error;
use crate::store::{Schema, Store, Stored};

verus! {

/// What a scan yields for one row that passed: the columns, the key and the
/// row; or the error met in its place.
pub type Fetched<'a, T> = Result<(&'a [Ident], T, Row), Error>;

/// The names of the columns of `schema`, in the order of their definitions.
pub open spec fn column_names(schema: Schema) -> Seq<Ident> {
    Seq::new(schema.column_defs@.len(), |i: int| schema.column_defs@[i].name)
}

/// The columns that a scan of a table works with, given the storage's answer
/// on the table's schema.
pub open spec fn columns_of(reply: Result<Schema, Error>) -> Result<Seq<Ident>, Error> {
    match reply {
        Ok(schema) => Ok(column_names(schema)),
        Err(error) => Err(error),
    }
}

/// The names of the columns of `schema`, in the order of their definitions.
pub fn schema_columns(schema: &Schema) -> (columns: Vec<Ident>)
    ensures
        columns@ == column_names(*schema),
{
    let mut columns: Vec<Ident> = Vec::new();
    let mut i: usize = 0;
    while i < schema.column_defs.len()
        invariant
            i <= schema.column_defs.len(),
            columns@ == column_names(*schema).take(i as int),
        decreases schema.column_defs.len() - i,
    {
        columns.push(schema.column_defs[i].name.clone());
        i += 1;
        assert(columns@ =~= column_names(*schema).take(i as int));
    }
    assert(column_names(*schema).take(schema.column_defs.len() as int) =~= column_names(*schema));
    columns
}

/// The columns of a table, as its schema orders them; the storage's error
/// where it has no schema for the table.
pub fn fetch_columns<T, S: Store<T>>(storage: &S, table_name: &str) -> (columns: Result<
    Vec<Ident>,
    Error,
>)
    ensures
        exists|reply: Result<Schema, Error>|
            call_ensures(S::get_schema, (storage, table_name), reply) && match columns {
                Ok(names) => columns_of(reply) == Ok::<Seq<Ident>, Error>(names@),
                Err(error) => columns_of(reply) == Err::<Seq<Ident>, Error>(error),
            },
{
    let reply = storage.get_schema(table_name);
    match reply {
        Ok(schema) => Ok(schema_columns(&schema)),
        Err(error) => Err(error),
    }
}

/// What a scan makes of one stored item, given the verdict of the filter on
/// its row: a storage error and a filter error are handed on, a row that
/// passed is yielded with its key and the columns, a row that did not pass
/// is dropped.
pub open spec fn screened<'a, T>(
    columns: &'a [Ident],
    stored: Stored<T>,
    verdict: Result<bool, Error>,
) -> Option<Fetched<'a, T>> {
    match stored {
        Err(error) => Some(Err(error)),
        Ok((key, row)) => match verdict {
            Err(error) => Some(Err(error)),
            Ok(pass) => if pass {
                Some(Ok((columns, key, row)))
            } else {
                None
            },
        },
    }
}

/// Whether a scan of `table_name` with `filter` may make `fetched` of
/// `stored`: a storage error is handed on without the filter's being asked;
/// of a row, what one of the filter's verdicts on it makes.
pub open spec fn may_yield<'a, T, F>(
    table_name: &'a str,
    columns: &'a [Ident],
    filter: F,
    stored: Stored<T>,
    fetched: Option<Fetched<'a, T>>,
) -> bool where F: Fn(&'a str, &'a [Ident], &Row) -> Result<bool, Error> {
    match stored {
        Err(error) => fetched == Some(Err::<(&'a [Ident], T, Row), Error>(error)),
        Ok((key, row)) => exists|verdict: Result<bool, Error>|
            call_ensures(filter, (table_name, columns, &row), verdict) && fetched == screened(
                columns,
                stored,
                verdict,
            ),
    }
}

/// Decides on one stored item: hands a storage error on, and asks the filter
/// about a row.
pub fn screen<'a, T, F>(
    table_name: &'a str,
    columns: &'a [Ident],
    filter: &F,
    stored: Stored<T>,
) -> (fetched: Option<Fetched<'a, T>>) where
    F: Fn(&'a str, &'a [Ident], &Row) -> Result<bool, Error>,

    requires
        stored matches Ok((_, row)) ==> call_requires(*filter, (table_name, columns, &row)),
    ensures
        may_yield(table_name, columns, *filter, stored, fetched),
{
    match stored {
        Err(error) => Some(Err(error)),
        Ok((key, row)) => {
            let verdict = filter(table_name, columns, &row);
            let ghost seen = verdict;
            let fetched = match verdict {
                Err(error) => Some(Err(error)),
                Ok(pass) => match as_some(pass, (columns, key, row)) {
                    Some(kept) => Some(Ok(kept)),
                    None => None,
                },
            };
            assert(fetched == screened(columns, stored, seen));
            fetched
        },
    }
}

/// Everything that a scan yields of `stored`, in the order of the storage,
/// where `verdicts[k]` is the filter's verdict on the row of `stored[k]`.
pub open spec fn scanned<'a, T>(
    columns: &'a [Ident],
    stored: Seq<Stored<T>>,
    verdicts: Seq<Result<bool, Error>>,
) -> Seq<Fetched<'a, T>>
    decreases stored.len(),
{
    if stored.len() == 0 {
        Seq::empty()
    } else {
        let rest = scanned(columns, stored.drop_first(), verdicts.drop_first());
        match screened(columns, stored[0], verdicts[0]) {
            Some(fetched) => seq![fetched] + rest,
            None => rest,
        }
    }
}

/// A scan that drops the first `taken - 1` items and makes `fetched` of the
/// next one yields `fetched` first, and then what it yields of the items
/// after these.
pub proof fn lemma_scan_yields_first<'a, T>(
    columns: &'a [Ident],
    stored: Seq<Stored<T>>,
    verdicts: Seq<Result<bool, Error>>,
    taken: int,
    fetched: Fetched<'a, T>,
)
    requires
        verdicts.len() == stored.len(),
        0 < taken <= stored.len(),
        forall|k: int| 0 <= k < taken - 1 ==> screened(columns, stored[k], verdicts[k]) is None,
        screened(columns, stored[taken - 1], verdicts[taken - 1]) == Some(fetched),
    ensures
        scanned(columns, stored, verdicts) == seq![fetched] + scanned(
            columns,
            stored.skip(taken),
            verdicts.skip(taken),
        ),
    decreases taken,
{
    if taken == 1 {
        assert(stored.drop_first() =~= stored.skip(1));
        assert(verdicts.drop_first() =~= verdicts.skip(1));
    } else {
        let later = stored.drop_first();
        let later_verdicts = verdicts.drop_first();
        assert forall|k: int| 0 <= k < taken - 2 implies screened(
            columns,
            later[k],
            later_verdicts[k],
        ) is None by {
            assert(later[k] == stored[k + 1]);
            assert(later_verdicts[k] == verdicts[k + 1]);
        }
        assert(later[taken - 2] == stored[taken - 1]);
        assert(later_verdicts[taken - 2] == verdicts[taken - 1]);
        lemma_scan_yields_first(columns, later, later_verdicts, taken - 1, fetched);
        assert(later.skip(taken - 1) =~= stored.skip(taken));
        assert(later_verdicts.skip(taken - 1) =~= verdicts.skip(taken));
    }
}

/// A scan that drops every item yields nothing.
pub proof fn lemma_scan_yields_nothing<'a, T>(
    columns: &'a [Ident],
    stored: Seq<Stored<T>>,
    verdicts: Seq<Result<bool, Error>>,
)
    requires
        verdicts.len() == stored.len(),
        forall|k: int| 0 <= k < stored.len() ==> screened(columns, stored[k], verdicts[k]) is None,
    ensures
        scanned(columns, stored, verdicts) == Seq::<Fetched<'a, T>>::empty(),
    decreases stored.len(),
{
    if stored.len() > 0 {
        let later = stored.drop_first();
        let later_verdicts = verdicts.drop_first();
        assert forall|k: int| 0 <= k < later.len() implies screened(
            columns,
            later[k],
            later_verdicts[k],
        ) is None by {
            assert(later[k] == stored[k + 1]);
            assert(later_verdicts[k] == verdicts[k + 1]);
        }
        lemma_scan_yields_nothing(columns, later, later_verdicts);
    }
}

/// What a scan yields keeps the order of the storage: of two items that are
/// yielded, the one stored first comes first.
pub proof fn lemma_scan_keeps_order<'a, T>(
    columns: &'a [Ident],
    stored: Seq<Stored<T>>,
    verdicts: Seq<Result<bool, Error>>,
    split: int,
)
    requires
        verdicts.len() == stored.len(),
        0 <= split <= stored.len(),
    ensures
        scanned(columns, stored, verdicts) == scanned(
            columns,
            stored.take(split),
            verdicts.take(split),
        ) + scanned(columns, stored.skip(split), verdicts.skip(split)),
    decreases split,
{
    if split == 0 {
        assert(stored.skip(0) =~= stored);
        assert(verdicts.skip(0) =~= verdicts);
        assert(scanned(columns, stored.take(0), verdicts.take(0)) =~= Seq::<
            Fetched<'a, T>,
        >::empty());
        assert(Seq::<Fetched<'a, T>>::empty() + scanned(columns, stored, verdicts) =~= scanned(
            columns,
            stored,
            verdicts,
        ));
    } else {
        let later = stored.drop_first();
        let later_verdicts = verdicts.drop_first();
        lemma_scan_keeps_order(columns, later, later_verdicts, split - 1);
        assert(stored.take(split).drop_first() =~= later.take(split - 1));
        assert(verdicts.take(split).drop_first() =~= later_verdicts.take(split - 1));
        assert(later.skip(split - 1) =~= stored.skip(split));
        assert(later_verdicts.skip(split - 1) =~= verdicts.skip(split));
        assert(stored.take(split)[0] == stored[0]);
        assert(verdicts.take(split)[0] == verdicts[0]);
        let front = scanned(columns, later.take(split - 1), later_verdicts.take(split - 1));
        let back = scanned(columns, stored.skip(split), verdicts.skip(split));
        match screened(columns, stored[0], verdicts[0]) {
            Some(fetched) => {
                assert(seq![fetched] + (front + back) =~= (seq![fetched] + front) + back);
            },
            None => {},
        }
    }
}

/// Starts the scan of a table: asks the storage for the table's rows, and
/// hands its error on where it has none. No row is read yet.
pub fn fetch<'a, T, S, F>(
    storage: &S,
    table_name: &'a str,
    columns: &'a [Ident],
    filter: F,
) -> (scan: Result<Fetch<'a, S::Rows, F>, Error>) where
    S: Store<T>,
    F: Fn(&'a str, &'a [Ident], &Row) -> Result<bool, Error>,

    ensures
        exists|reply: Result<S::Rows, Error>|
            call_ensures(S::get_data, (storage, table_name), reply) && match scan {
                Ok(started) => reply == Ok::<S::Rows, Error>(started.rows) && started.table_name
                    == table_name && started.columns == columns && started.filter == filter,
                Err(error) => reply == Err::<S::Rows, Error>(error),
            },
{
    match storage.get_data(table_name) {
        Ok(rows) => Ok(Fetch { rows, table_name, columns, filter }),
        Err(error) => Err(error),
    }
}

/// The scan of one table: the stored rows that pass the filter, each pulled
/// from the storage only when it is asked for.
pub struct Fetch<'a, I, F> {
    pub rows: I,
    pub table_name: &'a str,
    pub columns: &'a [Ident],
    pub filter: F,
}

impl<'a, T, I, F> Fetch<'a, I, F> where
    I: Iterator<Item = Stored<T>>,
    F: Fn(&'a str, &'a [Ident], &Row) -> Result<bool, Error>,
 {
    /// Whether the scan can go on: the storage's rows come to an end, and
    /// the filter takes every row of the table.
    pub open spec fn ready(&self) -> bool {
        &&& self.rows.obeys_prophetic_iter_laws()
        &&& self.rows.decrease() is Some
        &&& forall|row: Row| #[trigger]
            call_requires(self.filter, (self.table_name, self.columns, &row))
    }

    /// Whether the scan drops each of the first `count` items of `stored`:
    /// each is a row that the filter may refuse.
    pub open spec fn drops(&self, stored: Seq<Stored<T>>, count: int) -> bool {
        forall|k: int|
            0 <= k < count ==> may_yield(
                self.table_name,
                self.columns,
                self.filter,
                #[trigger] stored[k],
                None,
            )
    }

    /// The next row that passes the filter, or the next error; `None` when
    /// the storage has no more rows. The storage is asked for no row beyond
    /// the one that is returned.
    pub fn next(&mut self) -> (fetched: Option<Fetched<'a, T>>)
        requires
            old(self).ready(),
        ensures
            final(self).ready(),
            final(self).table_name == old(self).table_name,
            final(self).columns == old(self).columns,
            final(self).filter == old(self).filter,
            exists|taken: int|
                #![trigger old(self).rows.remaining().skip(taken)]
                {
                    &&& 0 <= taken <= old(self).rows.remaining().len()
                    &&& final(self).rows.remaining() == old(self).rows.remaining().skip(taken)
                    &&& match fetched {
                        Some(found) => taken > 0 && old(self).drops(
                            old(self).rows.remaining(),
                            taken - 1,
                        ) && may_yield(
                            old(self).table_name,
                            old(self).columns,
                            old(self).filter,
                            old(self).rows.remaining()[taken - 1],
                            fetched,
                        ),
                        None => taken == old(self).rows.remaining().len() && old(self).drops(
                            old(self).rows.remaining(),
                            taken,
                        ),
                    }
                },
    {
        let ghost stored = self.rows.remaining();
        let ghost mut taken: int = 0;
        loop
            invariant
                self.ready(),
                self.table_name == old(self).table_name,
                self.columns == old(self).columns,
                self.filter == old(self).filter,
                stored == old(self).rows.remaining(),
                0 <= taken <= stored.len(),
                self.rows.remaining() == stored.skip(taken),
                old(self).drops(stored, taken),
            decreases self.rows.decrease()->0,
        {
            match self.rows.next() {
                None => {
                    return None;
                },
                Some(item) => {
                    proof {
                        assert(item == stored[taken]);
                        assert(stored.skip(taken).drop_first() =~= stored.skip(taken + 1));
                        taken = taken + 1;
                    }
                    let fetched = screen(self.table_name, self.columns, &self.filter, item);
                    if fetched.is_some() {
                        proof {
                            assert(self.rows.remaining() == stored.skip(taken));
                            assert(old(self).drops(stored, taken - 1));
                            assert(may_yield(
                                old(self).table_name,
                                old(self).columns,
                                old(self).filter,
                                stored[taken - 1],
                                fetched,
                            ));
                        }
                        return fetched;
                    }
                },
            }
        }
    }

    /// Whether `verdicts` holds, for every row of `stored` and at its
    /// position, a verdict that the filter may give on it.
    pub open spec fn judged(&self, stored: Seq<Stored<T>>, verdicts: Seq<Result<bool, Error>>) -> bool {
        &&& verdicts.len() == stored.len()
        &&& forall|k: int|
            0 <= k < stored.len() && (#[trigger] stored[k]) is Ok ==> call_ensures(
                self.filter,
                (self.table_name, self.columns, &stored[k]->Ok_0.1),
                verdicts[k],
            )
    }

    /// Everything that is left of the scan: the rows that pass and the
    /// errors, in the order of the storage. The storage is read to its end.
    pub fn collect(&mut self) -> (all: Vec<Fetched<'a, T>>)
        requires
            old(self).ready(),
        ensures
            final(self).ready(),
            final(self).table_name == old(self).table_name,
            final(self).columns == old(self).columns,
            final(self).filter == old(self).filter,
            final(self).rows.remaining().len() == 0,
            exists|verdicts: Seq<Result<bool, Error>>|
                old(self).judged(old(self).rows.remaining(), verdicts) && all@ == scanned(
                    old(self).columns,
                    old(self).rows.remaining(),
                    verdicts,
                ),
    {
        let ghost stored = self.rows.remaining();
        let ghost mut verdicts: Seq<Result<bool, Error>> = Seq::empty();
        let mut all: Vec<Fetched<'a, T>> = Vec::new();
        loop
            invariant
                self.ready(),
                self.table_name == old(self).table_name,
                self.columns == old(self).columns,
                self.filter == old(self).filter,
                stored == old(self).rows.remaining(),
                verdicts.len() <= stored.len(),
                self.rows.remaining() == stored.skip(verdicts.len() as int),
                old(self).judged(stored.take(verdicts.len() as int), verdicts),
                all@ == scanned(self.columns, stored.take(verdicts.len() as int), verdicts),
            decreases self.rows.decrease()->0,
        {
            let ghost done = verdicts.len() as int;
            match self.rows.next() {
                None => {
                    proof {
                        assert(stored.take(done) =~= stored);
                    }
                    return all;
                },
                Some(item) => {
                    let ghost seen = item;
                    let fetched = screen(self.table_name, self.columns, &self.filter, item);
                    proof {
                        assert(seen == stored[done]);
                        assert(stored.skip(done).drop_first() =~= stored.skip(done + 1));
                        let verdict = match seen {
                            Ok((_, row)) => choose|verdict: Result<bool, Error>|
                                call_ensures(
                                    self.filter,
                                    (self.table_name, self.columns, &row),
                                    verdict,
                                ) && fetched == screened(self.columns, seen, verdict),
                            Err(_) => Ok(false),
                        };
                        assert(fetched == screened(self.columns, seen, verdict));
                        let before = stored.take(done);
                        let now = stored.take(done + 1);
                        let judged = verdicts.push(verdict);
                        lemma_scan_keeps_order(self.columns, now, judged, done);
                        assert(now.take(done) =~= before);
                        assert(judged.take(done) =~= verdicts);
                        assert(now.skip(done) =~= seq![seen]);
                        assert(judged.skip(done) =~= seq![verdict]);
                        assert(scanned(
                            self.columns,
                            seq![seen].drop_first(),
                            seq![verdict].drop_first(),
                        ) =~= Seq::<Fetched<'a, T>>::empty());
                        assert(seq![seen][0] == seen && seq![verdict][0] == verdict);
                        assert(scanned(self.columns, seq![seen], seq![verdict]) =~= match fetched {
                            Some(found) => seq![found],
                            None => Seq::empty(),
                        });
                        assert forall|k: int|
                            0 <= k < now.len() && (#[trigger] now[k]) is Ok implies call_ensures(
                            self.filter,
                            (self.table_name, self.columns, &now[k]->Ok_0.1),
                            judged[k],
                        ) by {
                            if k < done {
                                assert(before[k] == now[k]);
                            }
                        }
                        verdicts = judged;
                    }
                    match fetched {
                        Some(found) => {
                            all.push(found);
                        },
                        None => {
                            assert(all@ + Seq::<Fetched<'a, T>>::empty() =~= all@);
                        },
                    }
                },
            }
        }
    }
}

} // verus!
