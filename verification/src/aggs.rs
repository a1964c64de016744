//! The aggregations of a response, and the iterator that reads them row by
//! row.

use crate::error::AggregationError;
use crate::flatten::{
    ends_well, finished, groups, has_stats, lemma_descent_decreases, lemma_end_is_final,
    lemma_row_takes_work, pull, read_member, read_members, rows_left, shape, stack_weight, start,
    with_stat, Columns, Cursor, Level, Progress, Pulled, Shape,
};
use crate::json::{lookup, Json};
use crate::row::Row;
use crate::text::{join, same};
use vstd::prelude::*;
use vstd::slice::slice_subrange;

verus! {

/// The tree of aggregation results of a response.
#[derive(Debug, PartialEq)]
pub struct Aggregations(Json);

/// What the value of one member of a bucket is taken for, with the parts of
/// the value that are read on.
#[derive(Debug)]
pub enum Child<'a> {
    /// A nested bucket aggregation: its buckets.
    Buckets(&'a Vec<Json>),
    /// A metric with a single value: the value.
    Metric(&'a Json),
    /// A bundle of statistics: the members of the object.
    Stats(&'a Vec<(String, Json)>),
    /// The bounds of a standard deviation alone: the members of the
    /// `std_deviation_bounds` object.
    Bounds(&'a Vec<(String, Json)>),
    /// Anything else.
    Plain,
}

impl<'a> View for Child<'a> {
    type V = Shape;

    open spec fn view(&self) -> Shape {
        match self {
            Child::Buckets(buckets) => Shape::Buckets(buckets@),
            Child::Metric(single) => Shape::Metric(**single),
            Child::Stats(members) => Shape::Stats(members@),
            Child::Bounds(bounds) => Shape::Bounds(bounds@),
            Child::Plain => Shape::Plain,
        }
    }
}

/// Whether an object has one of the statistics that are known.
fn any_stat(members: &Vec<(String, Json)>) -> (any: bool)
    ensures
        any == has_stats(members@),
{
    lookup(members, "count").is_some() || lookup(members, "min").is_some() || lookup(
        members,
        "max",
    ).is_some() || lookup(members, "avg").is_some() || lookup(members, "sum").is_some() || lookup(
        members,
        "sum_of_squares",
    ).is_some() || lookup(members, "variance").is_some() || lookup(
        members,
        "std_deviation",
    ).is_some()
}

/// Tells what the value of a member of a bucket is to be taken for.
pub fn classify<'a>(value: &'a Json) -> (child: Child<'a>)
    ensures
        child@ == shape(*value),
{
    match value {
        Json::Object(members) => {
            match lookup(members, "buckets") {
                Some(Json::Array(buckets)) => {
                    return Child::Buckets(buckets);
                },
                _ => {},
            }
            match lookup(members, "value") {
                Some(single) => {
                    if single.is_scalar() {
                        return Child::Metric(single);
                    }
                },
                None => {},
            }
            if any_stat(members) {
                return Child::Stats(members);
            }
            match lookup(members, "std_deviation_bounds") {
                Some(Json::Object(bounds)) => Child::Bounds(bounds),
                _ => Child::Plain,
            }
        },
        _ => Child::Plain,
    }
}

/// One depth of the traversal: the name of a bucket aggregation and those of
/// its buckets that have not been visited yet.
#[derive(Debug)]
pub struct Frame<'a> {
    name: &'a String,
    rest: &'a [Json],
}

impl<'a> View for Frame<'a> {
    type V = Level;

    closed spec fn view(&self) -> Level {
        Level { name: self.name@, rest: self.rest@ }
    }
}

/// The depths that a stack of frames stands for.
pub open spec fn levels(frames: Seq<Frame>) -> Seq<Level> {
    Seq::new(frames.len(), |i: int| frames[i]@)
}

impl<'a> Frame<'a> {
    /// The name of the bucket aggregation.
    pub fn name(&self) -> (name: &'a String)
        ensures
            name@ == self@.name,
    {
        self.name
    }

    /// The buckets that have not been visited yet.
    pub fn rest(&self) -> (rest: &'a [Json])
        ensures
            rest@ == self@.rest,
    {
        self.rest
    }
}

/// Writes the column of the statistic `fieldname` of the aggregation
/// `keyname`, where the object has that statistic.
fn insert_value<'a>(
    fieldname: &str,
    json_object: &'a Vec<(String, Json)>,
    keyname: &str,
    rowdata: &mut Row<'a>,
)
    ensures
        final(rowdata)@ == with_stat(old(rowdata)@, keyname@, json_object@, fieldname@),
{
    match lookup(json_object, fieldname) {
        Some(value) => {
            rowdata.insert(join(keyname, fieldname), value);
        },
        None => {},
    }
}

/// Reads one member, `key` with `value`, of a bucket of the aggregation
/// `name`: writes its columns to `row`, or adds the aggregation nested in it
/// to `nested`.
fn read_one<'a>(
    row: &mut Row<'a>,
    nested: &mut Vec<Frame<'a>>,
    name: &'a String,
    key: &'a String,
    value: &'a Json,
) -> (outcome: Result<(), AggregationError>)
    ensures
        match read_member(
            name@,
            key@,
            *value,
            Progress { row: old(row)@, nested: levels(old(nested)@) },
        ) {
            Some(progress) => {
                &&& outcome is Ok
                &&& final(row)@ == progress.row
                &&& levels(final(nested)@) == progress.nested
            },
            None => outcome == Err::<(), AggregationError>(
                AggregationError::MalformedAggregationNode,
            ),
        },
{
    match classify(value) {
        Child::Buckets(buckets) => {
            nested.push(Frame { name: key, rest: buckets.as_slice() });
            assert(levels(nested@) =~= levels(old(nested)@).push(
                Level { name: key@, rest: buckets@ },
            ));
        },
        Child::Metric(single) => {
            row.insert(key.clone(), single);
        },
        Child::Stats(members) => {
            insert_value("count", members, key.as_str(), row);
            insert_value("min", members, key.as_str(), row);
            insert_value("max", members, key.as_str(), row);
            insert_value("avg", members, key.as_str(), row);
            insert_value("sum", members, key.as_str(), row);
            insert_value("sum_of_squares", members, key.as_str(), row);
            insert_value("variance", members, key.as_str(), row);
            insert_value("std_deviation", members, key.as_str(), row);
        },
        Child::Bounds(bounds) => {
            match (lookup(bounds, "upper"), lookup(bounds, "lower")) {
                (Some(upper), Some(lower)) => {
                    row.insert(join(key.as_str(), "std_deviation_bounds_upper"), upper);
                    row.insert(join(key.as_str(), "std_deviation_bounds_lower"), lower);
                },
                _ => {
                    return Err(AggregationError::MalformedAggregationNode);
                },
            }
        },
        Child::Plain => {
            if same(key.as_str(), "key") {
                row.insert(name.clone(), value);
            } else if same(key.as_str(), "doc_count") {
                row.insert(join(name.as_str(), "doc_count"), value);
            }
        },
    }
    Ok(())
}

/// Reads the members of a bucket of the aggregation `name` in their order:
/// writes their columns to `row` and hands back the aggregations nested in
/// the bucket.
fn read_bucket<'a>(row: &mut Row<'a>, name: &'a String, members: &'a Vec<(String, Json)>) -> (outcome:
    Result<Vec<Frame<'a>>, AggregationError>)
    ensures
        match read_members(name@, members@, old(row)@) {
            Some(progress) => {
                &&& outcome matches Ok(nested)
                &&& levels(nested@) == progress.nested
                &&& final(row)@ == progress.row
            },
            None => outcome matches Err(error) && error
                == AggregationError::MalformedAggregationNode,
        },
{
    let mut nested: Vec<Frame<'a>> = Vec::new();
    let mut i: usize = 0;
    assert(levels(nested@) =~= Seq::<Level>::empty());
    while i < members.len()
        invariant
            i <= members@.len(),
            read_members(name@, members@.take(i as int), old(row)@) == Some(
                Progress { row: row@, nested: levels(nested@) },
            ),
        decreases members@.len() - i,
    {
        assert(members@.take(i + 1).drop_last() =~= members@.take(i as int));
        let member = &members[i];
        match read_one(row, &mut nested, name, &member.0, &member.1) {
            Ok(()) => {},
            Err(error) => {
                proof {
                    lemma_read_members_fails(name@, members@, old(row)@, i + 1);
                }
                return Err(error);
            },
        }
        i += 1;
    }
    assert(members@.take(i as int) =~= members@);
    Ok(nested)
}

/// Once the first members cannot be read, the bucket cannot be read.
proof fn lemma_read_members_fails(name: Seq<char>, members: Seq<(String, Json)>, row: Columns, n: int)
    requires
        0 <= n <= members.len(),
        read_members(name, members.take(n), row) is None,
    ensures
        read_members(name, members, row) is None,
    decreases members.len() - n,
{
    if n < members.len() {
        assert(members.take(n + 1).drop_last() =~= members.take(n));
        lemma_read_members_fails(name, members, row, n + 1);
    } else {
        assert(members.take(n) =~= members);
    }
}

impl Aggregations {
    /// The aggregations held in the tree `root`.
    pub fn new(root: Json) -> (aggregations: Aggregations)
        ensures
            aggregations@ == root,
    {
        Aggregations(root)
    }

    /// The tree.
    pub fn root(&self) -> (root: &Json)
        ensures
            *root == self@,
    {
        &self.0
    }

    /// The tree, handed back.
    pub fn into_root(self) -> (root: Json)
        ensures
            root == self@,
    {
        self.0
    }

    /// The bucket aggregations of the root, in the order of its members, each
    /// with its buckets. A member without a `buckets` array is left out. The
    /// root must be an object.
    pub fn top_level_bucket_groups(&self) -> (found: Result<Vec<Frame<'_>>, AggregationError>)
        ensures
            match found {
                Ok(frames) => start(self@) matches Some(cursor) && levels(frames@) == cursor.stack,
                Err(error) => start(self@) is None && error
                    == AggregationError::UnexpectedRootShape,
            },
    {
        match &self.0 {
            Json::Object(members) => {
                let mut frames: Vec<Frame<'_>> = Vec::new();
                let mut i: usize = 0;
                assert(levels(frames@) =~= Seq::<Level>::empty());
                while i < members.len()
                    invariant
                        i <= members@.len(),
                        levels(frames@) == groups(members@.take(i as int)),
                    decreases members@.len() - i,
                {
                    assert(members@.take(i + 1).drop_last() =~= members@.take(i as int));
                    let member = &members[i];
                    match classify(&member.1) {
                        Child::Buckets(buckets) => {
                            let ghost before = frames@;
                            frames.push(Frame { name: &member.0, rest: buckets.as_slice() });
                            assert(levels(frames@) =~= levels(before).push(
                                Level { name: member.0@, rest: buckets@ },
                            ));
                        },
                        _ => {},
                    }
                    i += 1;
                }
                assert(members@.take(i as int) =~= members@);
                Ok(frames)
            },
            _ => Err(AggregationError::UnexpectedRootShape),
        }
    }

    /// The rows of the aggregations, from the first one on.
    pub fn iter(&self) -> (rows: Result<AggregationIterator<'_>, AggregationError>)
        ensures
            match rows {
                Ok(iterator) => start(self@) == Some(iterator@),
                Err(error) => start(self@) is None && error
                    == AggregationError::UnexpectedRootShape,
            },
    {
        AggregationIterator::new(self)
    }
}

impl View for Aggregations {
    type V = Json;

    closed spec fn view(&self) -> Json {
        self.0
    }
}

/// The columns of each of `rows`.
pub open spec fn tables(rows: Seq<Row>) -> Seq<Columns> {
    Seq::new(rows.len(), |i: int| rows[i]@)
}

/// Reads the aggregations of a response row by row, as a table: a row for
/// each bucket that holds no further bucket aggregation, with the columns of
/// the buckets above it.
#[derive(Debug)]
pub struct AggregationIterator<'a> {
    iter_stack: Vec<Frame<'a>>,
    current_row: Row<'a>,
}

impl<'a> View for AggregationIterator<'a> {
    type V = Cursor;

    closed spec fn view(&self) -> Cursor {
        Cursor { stack: levels(self.iter_stack@), row: self.current_row@ }
    }
}

impl<'a> AggregationIterator<'a> {
    /// The iterator over the rows of `a`, before the first row. The root of
    /// the tree must be an object.
    pub fn new(a: &'a Aggregations) -> (rows: Result<AggregationIterator<'a>, AggregationError>)
        ensures
            match rows {
                Ok(iterator) => start(a@) == Some(iterator@),
                Err(error) => start(a@) is None && error == AggregationError::UnexpectedRootShape,
            },
    {
        match a.top_level_bucket_groups() {
            Ok(frames) => Ok(AggregationIterator { iter_stack: frames, current_row: Row::new() }),
            Err(error) => Err(error),
        }
    }

    /// An iterator without rows.
    pub fn empty() -> (rows: AggregationIterator<'a>)
        ensures
            rows@ == finished(),
    {
        let rows = AggregationIterator { iter_stack: Vec::new(), current_row: Row::new() };
        assert(levels(rows.iter_stack@) =~= Seq::<Level>::empty());
        rows
    }

    /// Takes the traversal to its end.
    fn finish(&mut self)
        ensures
            final(self)@ == finished(),
    {
        self.iter_stack.clear();
        self.current_row.clear();
        assert(levels(self.iter_stack@) =~= Seq::<Level>::empty());
    }

    /// The next row, if there is one.
    ///
    /// A row is a copy of the columns written so far: the columns of a bucket
    /// stay in the rows that follow until another bucket writes them anew.
    /// Once a bucket is found malformed, this is said once, and there are no
    /// more rows.
    pub fn next(&mut self) -> (pulled: Option<Result<Row<'a>, AggregationError>>)
        ensures
            final(self)@ == pull(old(self)@).0,
            match pull(old(self)@).1 {
                Pulled::Row(columns) => pulled matches Some(Ok(row)) && row@ == columns,
                Pulled::Malformed => pulled matches Some(Err(error)) && error
                    == AggregationError::MalformedAggregationNode,
                Pulled::Exhausted => pulled is None,
            },
    {
        loop
            invariant
                pull(self@) == pull(old(self)@),
            decreases stack_weight(self@.stack),
        {
            let ghost before = self@;
            match self.iter_stack.pop() {
                None => {
                    self.finish();
                    return None;
                },
                Some(top) => {
                    assert(levels(self.iter_stack@) =~= before.stack.drop_last());
                    assert(top@ == before.stack.last());
                    if top.rest.len() == 0 {
                        continue ;
                    }
                    let bucket = &top.rest[0];
                    let rest = slice_subrange(top.rest, 1, top.rest.len());
                    assert(rest@ =~= top.rest@.drop_first());
                    let ghost below = self.iter_stack@;
                    self.iter_stack.push(Frame { name: top.name, rest });
                    assert(levels(self.iter_stack@) =~= levels(below).push(
                        Level { name: top.name@, rest: rest@ },
                    ));
                    match bucket {
                        Json::Object(members) => {
                            match read_bucket(&mut self.current_row, top.name, members) {
                                Ok(mut nested) => {
                                    if nested.len() == 0 {
                                        return Some(Ok(self.current_row.snapshot()));
                                    }
                                    let ghost kept = self.iter_stack@;
                                    let ghost added = nested@;
                                    self.iter_stack.append(&mut nested);
                                    assert(levels(self.iter_stack@) =~= levels(kept) + levels(
                                        added,
                                    ));
                                    proof {
                                        lemma_descent_decreases(before, members@);
                                    }
                                },
                                Err(error) => {
                                    self.finish();
                                    return Some(Err(error));
                                },
                            }
                        },
                        _ => {
                            self.finish();
                            return Some(Err(AggregationError::MalformedAggregationNode));
                        },
                    }
                },
            }
        }
    }

    /// All the rows that are left, in their order. A malformed bucket
    /// anywhere ahead is an error, and the rows before it are not handed out.
    pub fn collect(&mut self) -> (rows: Result<Vec<Row<'a>>, AggregationError>)
        ensures
            final(self)@ == finished(),
            match rows {
                Ok(found) => ends_well(old(self)@) && tables(found@) == rows_left(old(self)@),
                Err(error) => !ends_well(old(self)@) && error
                    == AggregationError::MalformedAggregationNode,
            },
    {
        let mut found: Vec<Row<'a>> = Vec::new();
        assert(tables(found@) =~= Seq::<Columns>::empty());
        loop
            invariant
                ends_well(self@) == ends_well(old(self)@),
                tables(found@) + rows_left(self@) == rows_left(old(self)@),
            decreases stack_weight(self@.stack),
        {
            let ghost before = self@;
            let ghost sofar = found@;
            match self.next() {
                None => {
                    proof {
                        lemma_end_is_final(before);
                        assert(tables(found@) + rows_left(before) =~= tables(found@));
                    }
                    return Ok(found);
                },
                Some(Ok(row)) => {
                    proof {
                        lemma_row_takes_work(before);
                    }
                    found.push(row);
                    assert(tables(found@) =~= tables(sofar) + seq![row@]);
                    assert(tables(found@) + rows_left(self@) =~= tables(sofar) + (seq![row@]
                        + rows_left(self@)));
                },
                Some(Err(error)) => {
                    proof {
                        lemma_end_is_final(before);
                    }
                    return Err(error);
                },
            }
        }
    }
}

} // verus!
