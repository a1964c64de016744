//! The flattening of an aggregation tree into rows, as a function on plain
//! values: what one pull does to the traversal and what it hands out.

use crate::json::{
    find, lemma_weight_of_first, lemma_weight_of_found, scalar, weight, weight_of_items,
    weight_of_members, Json,
};
use crate::text::joined;
use vstd::prelude::*;

verus! {

/// The columns of a row: column name to value.
pub type Columns = Map<Seq<char>, Json>;

/// One depth of the traversal: the name of a bucket aggregation and those of
/// its buckets that have not been visited yet.
pub struct Level {
    pub name: Seq<char>,
    pub rest: Seq<Json>,
}

/// The traversal between two pulls: the depths being walked, the deepest
/// last, and the columns written so far.
pub struct Cursor {
    pub stack: Seq<Level>,
    pub row: Columns,
}

/// What a pull hands out.
pub enum Pulled {
    /// The next row.
    Row(Columns),
    /// A bucket, or the bounds of a statistic, did not have the form it must
    /// have.
    Malformed,
    /// There are no more rows.
    Exhausted,
}

/// What the value of one member of a bucket is taken for.
pub enum Shape {
    /// A nested bucket aggregation: its buckets.
    Buckets(Seq<Json>),
    /// A metric with a single value: the value.
    Metric(Json),
    /// A bundle of statistics: the members of the object.
    Stats(Seq<(String, Json)>),
    /// The bounds of a standard deviation alone: the members of the
    /// `std_deviation_bounds` object.
    Bounds(Seq<(String, Json)>),
    /// Anything else.
    Plain,
}

/// Whether an object has one of the statistics that are known.
pub open spec fn has_stats(members: Seq<(String, Json)>) -> bool {
    ||| find(members, "count"@) is Some
    ||| find(members, "min"@) is Some
    ||| find(members, "max"@) is Some
    ||| find(members, "avg"@) is Some
    ||| find(members, "sum"@) is Some
    ||| find(members, "sum_of_squares"@) is Some
    ||| find(members, "variance"@) is Some
    ||| find(members, "std_deviation"@) is Some
}

/// The shape of a member's value. An object is tried for a `buckets` array,
/// then for a scalar `value`, then for statistics, then for
/// `std_deviation_bounds`, in this order; the first one found decides.
pub open spec fn shape(value: Json) -> Shape {
    match value {
        Json::Object(members) => match find(members@, "buckets"@) {
            Some(Json::Array(items)) => Shape::Buckets(items@),
            _ => shape_without_buckets(members@),
        },
        _ => Shape::Plain,
    }
}

/// The shape of an object that has no `buckets` array.
pub open spec fn shape_without_buckets(members: Seq<(String, Json)>) -> Shape {
    if find(members, "value"@) is Some && scalar(find(members, "value"@)->0) {
        Shape::Metric(find(members, "value"@)->0)
    } else if has_stats(members) {
        Shape::Stats(members)
    } else {
        match find(members, "std_deviation_bounds"@) {
            Some(Json::Object(bounds)) => Shape::Bounds(bounds@),
            _ => Shape::Plain,
        }
    }
}

/// `row` with the column of the statistic `stat` of the aggregation `key`,
/// where the statistic is there.
pub open spec fn with_stat(
    row: Columns,
    key: Seq<char>,
    members: Seq<(String, Json)>,
    stat: Seq<char>,
) -> Columns {
    match find(members, stat) {
        Some(value) => row.insert(joined(key, stat), value),
        None => row,
    }
}

/// `row` with a column for each statistic of the aggregation `key` that is
/// there.
pub open spec fn with_stats(row: Columns, key: Seq<char>, members: Seq<(String, Json)>) -> Columns {
    let row = with_stat(row, key, members, "count"@);
    let row = with_stat(row, key, members, "min"@);
    let row = with_stat(row, key, members, "max"@);
    let row = with_stat(row, key, members, "avg"@);
    let row = with_stat(row, key, members, "sum"@);
    let row = with_stat(row, key, members, "sum_of_squares"@);
    let row = with_stat(row, key, members, "variance"@);
    with_stat(row, key, members, "std_deviation"@)
}

/// What the members of a bucket read so far have given: the columns, and the
/// nested aggregations to descend into.
pub struct Progress {
    pub row: Columns,
    pub nested: Seq<Level>,
}

/// Reads one member, `key` with `value`, of a bucket of the aggregation
/// `name`. Nothing comes back where the bounds of a standard deviation lack
/// `upper` or `lower`.
pub open spec fn read_member(name: Seq<char>, key: Seq<char>, value: Json, so_far: Progress) -> Option<
    Progress,
> {
    match shape(value) {
        Shape::Buckets(buckets) => Some(
            Progress { nested: so_far.nested.push(Level { name: key, rest: buckets }), ..so_far },
        ),
        Shape::Metric(single) => Some(Progress { row: so_far.row.insert(key, single), ..so_far }),
        Shape::Stats(members) => Some(
            Progress { row: with_stats(so_far.row, key, members), ..so_far },
        ),
        Shape::Bounds(bounds) => match (find(bounds, "upper"@), find(bounds, "lower"@)) {
            (Some(upper), Some(lower)) => Some(
                Progress {
                    row: so_far.row.insert(
                        joined(key, "std_deviation_bounds_upper"@),
                        upper,
                    ).insert(joined(key, "std_deviation_bounds_lower"@), lower),
                    ..so_far
                },
            ),
            _ => None,
        },
        Shape::Plain => if key == "key"@ {
            Some(Progress { row: so_far.row.insert(name, value), ..so_far })
        } else if key == "doc_count"@ {
            Some(Progress { row: so_far.row.insert(joined(name, "doc_count"@), value), ..so_far })
        } else {
            Some(so_far)
        },
    }
}

/// Reads the members of a bucket of the aggregation `name` in their order,
/// starting from the columns `row`.
pub open spec fn read_members(name: Seq<char>, members: Seq<(String, Json)>, row: Columns) -> Option<
    Progress,
>
    decreases members.len(),
{
    if members.len() == 0 {
        Some(Progress { row, nested: Seq::empty() })
    } else {
        match read_members(name, members.drop_last(), row) {
            Some(so_far) => read_member(name, members.last().0@, members.last().1, so_far),
            None => None,
        }
    }
}

/// The work that a depth still holds.
pub open spec fn level_weight(level: Level) -> nat {
    1 + weight_of_items(level.rest)
}

/// The work that a stack of depths still holds.
pub open spec fn stack_weight(stack: Seq<Level>) -> nat
    decreases stack.len(),
{
    if stack.len() == 0 {
        0
    } else {
        level_weight(stack.last()) + stack_weight(stack.drop_last())
    }
}

/// Two stacks, one on the other, hold the work of both.
pub proof fn lemma_stack_weight_sum(below: Seq<Level>, above: Seq<Level>)
    ensures
        stack_weight(below + above) == stack_weight(below) + stack_weight(above),
    decreases above.len(),
{
    if above.len() == 0 {
        assert(below + above =~= below);
    } else {
        lemma_stack_weight_sum(below, above.drop_last());
        assert((below + above).drop_last() =~= below + above.drop_last());
    }
}

/// The aggregations nested in a bucket hold less work than the bucket
/// weighs.
pub proof fn lemma_nested_weight(name: Seq<char>, members: Seq<(String, Json)>, row: Columns)
    requires
        read_members(name, members, row) is Some,
    ensures
        stack_weight(read_members(name, members, row)->0.nested) <= weight_of_members(members),
    decreases members.len(),
{
    if members.len() > 0 {
        lemma_nested_weight(name, members.drop_last(), row);
        let so_far = read_members(name, members.drop_last(), row)->0;
        let value = members.last().1;
        let after = read_member(name, members.last().0@, value, so_far)->0;
        match shape(value) {
            Shape::Buckets(buckets) => {
                let inner = value->Object_0;
                lemma_weight_of_found(inner@, "buckets"@);
                let level = Level { name: members.last().0@, rest: buckets };
                assert(after.nested == so_far.nested.push(level));
                assert(after.nested.drop_last() =~= so_far.nested);
                assert(find(inner@, "buckets"@)->0 matches Json::Array(items) && items@ == buckets);
                assert(level_weight(level) == weight(find(inner@, "buckets"@)->0));
                assert(weight(value) == 1 + weight_of_members(inner@));
            },
            _ => {
                assert(after.nested == so_far.nested);
            },
        }
    }
}

/// The bucket aggregations among the members of the root, in the order of
/// the members: a member without a `buckets` array is left out.
pub open spec fn groups(members: Seq<(String, Json)>) -> Seq<Level>
    decreases members.len(),
{
    if members.len() == 0 {
        Seq::empty()
    } else {
        let before = groups(members.drop_last());
        match shape(members.last().1) {
            Shape::Buckets(buckets) => before.push(
                Level { name: members.last().0@, rest: buckets },
            ),
            _ => before,
        }
    }
}

/// The traversal before the first pull: a depth for each bucket aggregation
/// of the root, and no columns. There is none where the root is no object.
pub open spec fn start(root: Json) -> Option<Cursor> {
    match root {
        Json::Object(members) => Some(Cursor { stack: groups(members@), row: Map::empty() }),
        _ => None,
    }
}

/// The traversal when it is over: nothing to walk, no columns.
pub open spec fn finished() -> Cursor {
    Cursor { stack: Seq::empty(), row: Map::empty() }
}

/// One pull: the traversal after it, and what it hands out.
///
/// A depth without buckets left is given up. Else the next bucket of the
/// deepest depth is read: its columns are written over those of the row, and
/// the aggregations nested in it become new depths. A bucket with none is a
/// leaf, and the row as it then stands is handed out; else the pull goes on
/// below. A bucket that is no object, or one of whose members cannot be read,
/// ends the traversal.
pub open spec fn pull(cursor: Cursor) -> (Cursor, Pulled)
    decreases stack_weight(cursor.stack),
{
    if cursor.stack.len() == 0 {
        (finished(), Pulled::Exhausted)
    } else {
        let top = cursor.stack.last();
        let below = cursor.stack.drop_last();
        if top.rest.len() == 0 {
            pull(Cursor { stack: below, row: cursor.row })
        } else {
            let kept = below.push(Level { name: top.name, rest: top.rest.drop_first() });
            match top.rest[0] {
                Json::Object(members) => match read_members(top.name, members@, cursor.row) {
                    Some(progress) => if progress.nested.len() > 0 {
                        proof {
                            lemma_descent_decreases(cursor, members@);
                        }
                        pull(Cursor { stack: kept + progress.nested, row: progress.row })
                    } else {
                        (Cursor { stack: kept, row: progress.row }, Pulled::Row(progress.row))
                    },
                    None => (finished(), Pulled::Malformed),
                },
                _ => (finished(), Pulled::Malformed),
            }
        }
    }
}

/// Reading a bucket leaves less work than there was before.
pub proof fn lemma_descent_decreases(cursor: Cursor, members: Seq<(String, Json)>)
    requires
        cursor.stack.len() > 0,
        cursor.stack.last().rest.len() > 0,
        cursor.stack.last().rest[0] matches Json::Object(found) && found@ == members,
        read_members(cursor.stack.last().name, members, cursor.row) is Some,
    ensures
        ({
            let top = cursor.stack.last();
            let kept = cursor.stack.drop_last().push(
                Level { name: top.name, rest: top.rest.drop_first() },
            );
            let progress = read_members(top.name, members, cursor.row)->0;
            stack_weight(kept + progress.nested) < stack_weight(cursor.stack)
        }),
{
    let top = cursor.stack.last();
    let below = cursor.stack.drop_last();
    let kept = below.push(Level { name: top.name, rest: top.rest.drop_first() });
    let progress = read_members(top.name, members, cursor.row)->0;
    lemma_nested_weight(top.name, members, cursor.row);
    lemma_stack_weight_sum(kept, progress.nested);
    lemma_weight_of_first(top.rest);
    assert(kept.drop_last() =~= below);
}

/// A pull that hands out no row ends the traversal: nothing is left to walk
/// and the columns are gone.
pub proof fn lemma_end_is_final(cursor: Cursor)
    requires
        !(pull(cursor).1 is Row),
    ensures
        pull(cursor).0 == finished(),
    decreases stack_weight(cursor.stack),
{
    if cursor.stack.len() > 0 {
        let top = cursor.stack.last();
        let below = cursor.stack.drop_last();
        if top.rest.len() == 0 {
            lemma_end_is_final(Cursor { stack: below, row: cursor.row });
        } else {
            let kept = below.push(Level { name: top.name, rest: top.rest.drop_first() });
            if top.rest[0] is Object {
                let members = top.rest[0]->Object_0;
                let read = read_members(top.name, members@, cursor.row);
                if read is Some && read->0.nested.len() > 0 {
                    lemma_descent_decreases(cursor, members@);
                    lemma_end_is_final(Cursor { stack: kept + read->0.nested, row: read->0.row });
                }
            }
        }
    }
}

/// A pull that hands out a row leaves less work than there was.
pub proof fn lemma_row_takes_work(cursor: Cursor)
    requires
        pull(cursor).1 is Row,
    ensures
        stack_weight(pull(cursor).0.stack) < stack_weight(cursor.stack),
    decreases stack_weight(cursor.stack),
{
    let top = cursor.stack.last();
    let below = cursor.stack.drop_last();
    if top.rest.len() == 0 {
        lemma_row_takes_work(Cursor { stack: below, row: cursor.row });
    } else {
        let kept = below.push(Level { name: top.name, rest: top.rest.drop_first() });
        let members = top.rest[0]->Object_0;
        let read = read_members(top.name, members@, cursor.row);
        lemma_descent_decreases(cursor, members@);
        if read->0.nested.len() > 0 {
            lemma_row_takes_work(Cursor { stack: kept + read->0.nested, row: read->0.row });
        } else {
            assert(kept + read->0.nested =~= kept);
        }
    }
}

/// The rows that a traversal still has, in the order in which the pulls hand
/// them out: those before a malformed bucket, where there is one.
pub open spec fn rows_left(cursor: Cursor) -> Seq<Columns>
    decreases stack_weight(cursor.stack),
{
    match pull(cursor).1 {
        Pulled::Row(row) => {
            proof {
                lemma_row_takes_work(cursor);
            }
            seq![row] + rows_left(pull(cursor).0)
        },
        _ => Seq::empty(),
    }
}

/// Whether a traversal comes to its end without meeting a malformed bucket.
pub open spec fn ends_well(cursor: Cursor) -> bool
    decreases stack_weight(cursor.stack),
{
    match pull(cursor).1 {
        Pulled::Row(_) => {
            proof {
                lemma_row_takes_work(cursor);
            }
            ends_well(pull(cursor).0)
        },
        Pulled::Malformed => false,
        Pulled::Exhausted => true,
    }
}

} // verus!
