//! The rows of a tree told bucket by bucket: what each bucket gives, and in
//! which order, without the stack of the traversal.

use crate::flatten::{
    ends_well, lemma_descent_decreases, lemma_nested_weight, lemma_stack_weight_sum, pull,
    read_members, rows_left, stack_weight, Columns, Cursor, Level, Pulled,
};
use crate::json::{lemma_weight_of_first, weight, Json};
use vstd::prelude::*;

verus! {

/// What walking a part of the tree gives: the rows in their order, the
/// columns as they stand afterwards, and whether the part was walked to its
/// end. Where it was not, a malformed bucket was met, and the rows are those
/// before it.
pub struct Walk {
    pub rows: Seq<Columns>,
    pub row: Columns,
    pub whole: bool,
}

/// A walk that stops at once at a malformed bucket.
pub open spec fn stopped() -> Walk {
    Walk { rows: Seq::empty(), row: Map::empty(), whole: false }
}

/// Walks one bucket of the aggregation `name`, the columns being `row`.
///
/// The columns of the bucket are written first. A bucket without nested
/// aggregations gives one row, the columns as they then stand. Any other
/// bucket gives the rows of its nested aggregations and none of its own.
pub open spec fn walk_bucket(name: Seq<char>, bucket: Json, row: Columns) -> Walk
    decreases weight(bucket), 0nat,
{
    match bucket {
        Json::Object(members) => match read_members(name, members@, row) {
            Some(progress) => if progress.nested.len() > 0 {
                proof {
                    lemma_nested_weight(name, members@, row);
                }
                walk_stack(progress.nested, progress.row)
            } else {
                Walk { rows: seq![progress.row], row: progress.row, whole: true }
            },
            None => stopped(),
        },
        _ => stopped(),
    }
}

/// Walks a stack of depths, the columns being `row`: the last depth first,
/// and in each depth the buckets in their order, each with the columns that
/// the walk before it has left.
pub open spec fn walk_stack(stack: Seq<Level>, row: Columns) -> Walk
    decreases stack_weight(stack), 1nat,
{
    if stack.len() == 0 {
        Walk { rows: Seq::empty(), row, whole: true }
    } else {
        let top = stack.last();
        let below = stack.drop_last();
        if top.rest.len() == 0 {
            walk_stack(below, row)
        } else {
            proof {
                lemma_bucket_taken(stack);
            }
            let first = walk_bucket(top.name, top.rest[0], row);
            if first.whole {
                let others = walk_stack(
                    below.push(Level { name: top.name, rest: top.rest.drop_first() }),
                    first.row,
                );
                Walk { rows: first.rows + others.rows, row: others.row, whole: others.whole }
            } else {
                first
            }
        }
    }
}

/// The next bucket of a stack weighs no more than the stack, and the stack
/// without it weighs less.
pub proof fn lemma_bucket_taken(stack: Seq<Level>)
    requires
        stack.len() > 0,
        stack.last().rest.len() > 0,
    ensures
        weight(stack.last().rest[0]) < stack_weight(stack),
        stack_weight(
            stack.drop_last().push(
                Level { name: stack.last().name, rest: stack.last().rest.drop_first() },
            ),
        ) < stack_weight(stack),
{
    let top = stack.last();
    let kept = stack.drop_last().push(Level { name: top.name, rest: top.rest.drop_first() });
    lemma_weight_of_first(top.rest);
    assert(kept.drop_last() =~= stack.drop_last());
}

/// Walking two stacks, one on the other, is walking the upper one and then
/// the lower one.
pub proof fn lemma_walk_stacked(below: Seq<Level>, above: Seq<Level>, row: Columns)
    ensures
        walk_stack(below + above, row) == ({
            let first = walk_stack(above, row);
            if first.whole {
                let others = walk_stack(below, first.row);
                Walk { rows: first.rows + others.rows, row: others.row, whole: others.whole }
            } else {
                first
            }
        }),
    decreases stack_weight(above),
{
    let all = below + above;
    if above.len() == 0 {
        assert(all =~= below);
        let others = walk_stack(below, row);
        assert(Seq::<Columns>::empty() + others.rows =~= others.rows);
    } else {
        let top = above.last();
        assert(all.last() == top);
        assert(all.drop_last() =~= below + above.drop_last());
        if top.rest.len() == 0 {
            lemma_walk_stacked(below, above.drop_last(), row);
        } else {
            lemma_bucket_taken(above);
            let first = walk_bucket(top.name, top.rest[0], row);
            let level = Level { name: top.name, rest: top.rest.drop_first() };
            assert(all.drop_last().push(level) =~= below + above.drop_last().push(level));
            if first.whole {
                lemma_walk_stacked(below, above.drop_last().push(level), first.row);
                let upper = walk_stack(above.drop_last().push(level), first.row);
                if upper.whole {
                    let others = walk_stack(below, upper.row);
                    assert(first.rows + (upper.rows + others.rows) =~= (first.rows + upper.rows)
                        + others.rows);
                }
            }
        }
    }
}

/// The rows that the pulls hand out are the rows of the walk, in the same
/// order: every bucket without nested aggregations gives its row once, depth
/// first, and a traversal meets a malformed bucket where the walk does.
pub proof fn lemma_pulls_walk_the_tree(cursor: Cursor)
    ensures
        rows_left(cursor) == walk_stack(cursor.stack, cursor.row).rows,
        ends_well(cursor) == walk_stack(cursor.stack, cursor.row).whole,
    decreases stack_weight(cursor.stack),
{
    let walked = walk_stack(cursor.stack, cursor.row);
    if cursor.stack.len() == 0 {
        assert(pull(cursor).1 is Exhausted);
    } else {
        let top = cursor.stack.last();
        let below = cursor.stack.drop_last();
        if top.rest.len() == 0 {
            let next = Cursor { stack: below, row: cursor.row };
            lemma_pulls_walk_the_tree(next);
            assert(pull(cursor) == pull(next));
            assert(rows_left(cursor) == rows_left(next));
            assert(ends_well(cursor) == ends_well(next));
        } else {
            lemma_bucket_taken(cursor.stack);
            let kept = below.push(Level { name: top.name, rest: top.rest.drop_first() });
            let first = walk_bucket(top.name, top.rest[0], cursor.row);
            if top.rest[0] is Object {
                let members = top.rest[0]->Object_0;
                let read = read_members(top.name, members@, cursor.row);
                if read is Some {
                    let progress = read->0;
                    if progress.nested.len() > 0 {
                        let next = Cursor { stack: kept + progress.nested, row: progress.row };
                        lemma_descent_decreases(cursor, members@);
                        lemma_pulls_walk_the_tree(next);
                        lemma_walk_stacked(kept, progress.nested, progress.row);
                        assert(pull(cursor) == pull(next));
                        assert(rows_left(cursor) == rows_left(next));
                        assert(ends_well(cursor) == ends_well(next));
                        assert(first == walk_stack(progress.nested, progress.row));
                    } else {
                        let next = Cursor { stack: kept, row: progress.row };
                        lemma_pulls_walk_the_tree(next);
                        assert(pull(cursor) == (next, Pulled::Row(progress.row)));
                        assert(rows_left(cursor) == seq![progress.row] + rows_left(next));
                        assert(ends_well(cursor) == ends_well(next));
                        assert(first == Walk {
                            rows: seq![progress.row],
                            row: progress.row,
                            whole: true,
                        });
                    }
                } else {
                    assert(pull(cursor).1 is Malformed);
                    assert(first == stopped());
                }
            } else {
                assert(pull(cursor).1 is Malformed);
                assert(first == stopped());
            }
        }
    }
}

} // verus!
