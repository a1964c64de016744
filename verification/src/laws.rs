//! What holds of every traversal.

use crate::flatten::{
    finished, lemma_descent_decreases, lemma_end_is_final, pull, read_member, read_members,
    rows_left, stack_weight, Columns, Cursor, Level, Progress, Pulled,
};
use crate::json::Json;
use vstd::prelude::*;

verus! {

/// Exhaustion is terminal: once a pull has said that there are no more rows,
/// every later pull says so too, and leaves the traversal as it is.
pub proof fn lemma_exhaustion_is_terminal(cursor: Cursor)
    requires
        pull(cursor).1 is Exhausted,
    ensures
        pull(pull(cursor).0) == (pull(cursor).0, Pulled::Exhausted),
{
    lemma_end_is_final(cursor);
}

/// After a malformed bucket has been reported there are no more rows.
pub proof fn lemma_nothing_after_malformed(cursor: Cursor)
    requires
        pull(cursor).1 is Malformed,
    ensures
        pull(pull(cursor).0) == (pull(cursor).0, Pulled::Exhausted),
{
    lemma_end_is_final(cursor);
}

/// A traversal with nothing to walk, such as that of a response without
/// aggregations, has no row.
pub proof fn lemma_nothing_to_walk(row: Columns)
    ensures
        pull(Cursor { stack: Seq::empty(), row }) == (finished(), Pulled::Exhausted),
        rows_left(finished()) == Seq::<Columns>::empty(),
{
}

/// Where the next bucket to visit is no object, the pull reports it and hands
/// out no row.
pub proof fn lemma_bucket_must_be_object(cursor: Cursor)
    requires
        cursor.stack.len() > 0,
        cursor.stack.last().rest.len() > 0,
        !(cursor.stack.last().rest[0] is Object),
    ensures
        pull(cursor) == (finished(), Pulled::Malformed),
{
}

/// Reading a member takes no column away.
pub proof fn lemma_member_keeps_columns(
    name: Seq<char>,
    key: Seq<char>,
    value: Json,
    so_far: Progress,
    column: Seq<char>,
)
    requires
        read_member(name, key, value, so_far) is Some,
        so_far.row.contains_key(column),
    ensures
        read_member(name, key, value, so_far)->0.row.contains_key(column),
{
}

/// Reading a bucket takes no column away.
pub proof fn lemma_bucket_keeps_columns(
    name: Seq<char>,
    members: Seq<(String, Json)>,
    row: Columns,
    column: Seq<char>,
)
    requires
        read_members(name, members, row) is Some,
        row.contains_key(column),
    ensures
        read_members(name, members, row)->0.row.contains_key(column),
    decreases members.len(),
{
    if members.len() > 0 {
        lemma_bucket_keeps_columns(name, members.drop_last(), row, column);
        lemma_member_keeps_columns(
            name,
            members.last().0@,
            members.last().1,
            read_members(name, members.drop_last(), row)->0,
            column,
        );
    }
}

/// A column once written is in every row that follows: a pull that hands out
/// a row hands out each column that there was before it.
pub proof fn lemma_columns_carry_over(cursor: Cursor, column: Seq<char>)
    requires
        pull(cursor).1 is Row,
        cursor.row.contains_key(column),
    ensures
        pull(cursor).1->Row_0.contains_key(column),
        pull(cursor).0.row == pull(cursor).1->Row_0,
    decreases stack_weight(cursor.stack),
{
    let top = cursor.stack.last();
    let below = cursor.stack.drop_last();
    if top.rest.len() == 0 {
        lemma_columns_carry_over(Cursor { stack: below, row: cursor.row }, column);
    } else {
        let kept = below.push(Level { name: top.name, rest: top.rest.drop_first() });
        let members = top.rest[0]->Object_0;
        let read = read_members(top.name, members@, cursor.row);
        lemma_bucket_keeps_columns(top.name, members@, cursor.row, column);
        if read->0.nested.len() > 0 {
            lemma_descent_decreases(cursor, members@);
            lemma_columns_carry_over(
                Cursor { stack: kept + read->0.nested, row: read->0.row },
                column,
            );
        }
    }
}

} // verus!
