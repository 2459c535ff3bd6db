//! The interleaver: merges a command line sequence and an output line
//! sequence into one merged sequence, by concatenation (append mode) or by
//! the positional pairing rule (interleave mode).
//!
//! In interleave mode each command is emitted in order; a command that does
//! not begin with `SET` additionally consumes one slot of the output
//! sequence (emitting the line there, when one exists) and advances the
//! output cursor. Output lines left unconsumed at the end are flushed, in
//! order, as a trailing block.

use vstd::prelude::*;

verus! {

use vstd::multiset::Multiset;

/// A command is a SET command when its text begins with the literal prefix
/// `SET` — a plain character-prefix check, not a tokenized match.
pub open spec fn is_set_command(line: Seq<char>) -> bool {
    line.len() >= 3 && line[0] == 'S' && line[1] == 'E' && line[2] == 'T'
}

/// Executable prefix check for [`is_set_command`].
pub fn starts_with_set(line: &String) -> (r: bool)
    ensures
        r == is_set_command(line@),
{
    let s = line.as_str();
    let n = s.unicode_len();
    n >= 3 && s.get_char(0) == 'S' && s.get_char(1) == 'E' && s.get_char(2) == 'T'
}

/// The interleave-mode walk over the remaining commands, with the output
/// cursor at `cursor`: each command is emitted; a non-SET command pairs with
/// `output[cursor]` when that line exists and advances the cursor either
/// way; once the commands are exhausted, the output lines from the cursor
/// on are flushed.
pub open spec fn walk(commands: Seq<Seq<char>>, output: Seq<Seq<char>>, cursor: int) -> Seq<
    Seq<char>,
>
    recommends
        0 <= cursor,
    decreases commands.len(),
{
    if commands.len() == 0 {
        if cursor < output.len() {
            output.skip(cursor)
        } else {
            Seq::empty()
        }
    } else if is_set_command(commands[0]) {
        seq![commands[0]] + walk(commands.drop_first(), output, cursor)
    } else if cursor < output.len() {
        seq![commands[0], output[cursor]] + walk(commands.drop_first(), output, cursor + 1)
    } else {
        seq![commands[0]] + walk(commands.drop_first(), output, cursor + 1)
    }
}

/// The merged sequence: plain concatenation in append mode, the positional
/// pairing walk (with the cursor at the start of `output`) otherwise.
pub open spec fn merged_lines(
    commands: Seq<Seq<char>>,
    output: Seq<Seq<char>>,
    append_mode: bool,
) -> Seq<Seq<char>> {
    if append_mode {
        commands + output
    } else {
        walk(commands, output, 0)
    }
}

/// Merges the two line sequences according to `append_mode`, as
/// [`merged_lines`] describes.
pub fn interleave(commands: &Vec<String>, output: &Vec<String>, append_mode: bool) -> (merged: Vec<
    String,
>)
    ensures
        merged.deep_view() == merged_lines(commands.deep_view(), output.deep_view(), append_mode),
{
    let mut merged: Vec<String> = Vec::new();
    if append_mode {
        let mut i: usize = 0;
        while i < commands.len()
            invariant
                i <= commands.len(),
                merged@.len() == i,
                forall|k: int| 0 <= k < i ==> merged@[k]@ == commands@[k]@,
            decreases commands.len() - i,
        {
            merged.push(commands[i].clone());
            i = i + 1;
        }
        let mut j: usize = 0;
        while j < output.len()
            invariant
                j <= output.len(),
                merged@.len() == commands@.len() + j,
                forall|k: int| 0 <= k < commands@.len() ==> merged@[k]@ == commands@[k]@,
                forall|k: int| 0 <= k < j ==> merged@[commands@.len() + k]@ == output@[k]@,
            decreases output.len() - j,
        {
            merged.push(output[j].clone());
            j = j + 1;
        }
        proof {
            assert(merged.deep_view() =~= commands.deep_view() + output.deep_view());
        }
    } else {
        let ghost goal = walk(commands.deep_view(), output.deep_view(), 0);
        let mut cursor: usize = 0;
        let mut i: usize = 0;
        proof {
            assert(commands.deep_view().skip(0) =~= commands.deep_view());
        }
        while i < commands.len()
            invariant
                i <= commands.len(),
                cursor <= i,
                goal == merged.deep_view() + walk(
                    commands.deep_view().skip(i as int),
                    output.deep_view(),
                    cursor as int,
                ),
            decreases commands.len() - i,
        {
            let ghost rest = commands.deep_view().skip(i as int);
            proof {
                assert(rest.len() == commands.deep_view().len() - i);
                assert(rest[0] == commands.deep_view()[i as int]);
                assert(rest.drop_first() =~= commands.deep_view().skip(i as int + 1));
            }
            let command = commands[i].clone();
            merged.push(command);
            let is_set = starts_with_set(&commands[i]);
            if !is_set {
                if cursor < output.len() {
                    merged.push(output[cursor].clone());
                    proof {
                        assert(merged.deep_view() =~= (merged.deep_view().subrange(
                            0,
                            merged.deep_view().len() - 2,
                        ) + seq![rest[0], output.deep_view()[cursor as int]]));
                    }
                }
                cursor = cursor + 1;
            }
            i = i + 1;
            proof {
                let m = merged.deep_view();
                let rest2 = commands.deep_view().skip(i as int);
                if is_set_command(rest[0]) {
                    assert(m =~= m.subrange(0, m.len() - 1) + seq![rest[0]]);
                    assert(goal == m + walk(rest2, output.deep_view(), cursor as int)) by {
                        assert((m.subrange(0, m.len() - 1) + seq![rest[0]]) + walk(
                            rest2,
                            output.deep_view(),
                            cursor as int,
                        ) =~= m.subrange(0, m.len() - 1) + (seq![rest[0]] + walk(
                            rest2,
                            output.deep_view(),
                            cursor as int,
                        )));
                    }
                } else if (cursor - 1) < output.deep_view().len() {
                    assert((m.subrange(0, m.len() - 2) + seq![
                        rest[0],
                        output.deep_view()[cursor - 1],
                    ]) + walk(rest2, output.deep_view(), cursor as int) =~= m.subrange(
                        0,
                        m.len() - 2,
                    ) + (seq![rest[0], output.deep_view()[cursor - 1]] + walk(
                        rest2,
                        output.deep_view(),
                        cursor as int,
                    )));
                } else {
                    assert(m =~= m.subrange(0, m.len() - 1) + seq![rest[0]]);
                    assert((m.subrange(0, m.len() - 1) + seq![rest[0]]) + walk(
                        rest2,
                        output.deep_view(),
                        cursor as int,
                    ) =~= m.subrange(0, m.len() - 1) + (seq![rest[0]] + walk(
                        rest2,
                        output.deep_view(),
                        cursor as int,
                    )));
                }
            }
        }
        proof {
            assert(commands.deep_view().skip(commands.deep_view().len() as int)
                =~= Seq::<Seq<char>>::empty());
        }
        let mut j: usize = cursor;
        while j < output.len()
            invariant
                cursor <= j,
                j <= output.len() || j == cursor,
                goal == merged.deep_view() + walk(
                    Seq::<Seq<char>>::empty(),
                    output.deep_view(),
                    j as int,
                ),
            decreases output.len() - j,
        {
            merged.push(output[j].clone());
            j = j + 1;
            proof {
                let m = merged.deep_view();
                assert(m =~= m.subrange(0, m.len() - 1) + seq![output.deep_view()[j - 1]]);
                if j < output.deep_view().len() {
                    assert(output.deep_view().skip(j - 1) =~= seq![
                        output.deep_view()[j - 1],
                    ] + output.deep_view().skip(j as int));
                } else {
                    assert(output.deep_view().skip(j - 1) =~= seq![output.deep_view()[j - 1]]);
                }
                assert((m.subrange(0, m.len() - 1) + seq![output.deep_view()[j - 1]]) + walk(
                    Seq::<Seq<char>>::empty(),
                    output.deep_view(),
                    j as int,
                ) =~= m.subrange(0, m.len() - 1) + (seq![output.deep_view()[j - 1]] + walk(
                    Seq::<Seq<char>>::empty(),
                    output.deep_view(),
                    j as int,
                )));
            }
        }
        proof {
            assert(goal == merged.deep_view() + Seq::<Seq<char>>::empty());
            assert(merged.deep_view() + Seq::<Seq<char>>::empty() =~= merged.deep_view());
        }
    }
    merged
}

/// Append correctness: in append mode the merged sequence is the full
/// command sequence followed by the full output sequence, so its length is
/// the sum of the two lengths.
pub proof fn lemma_append_mode(commands: Seq<Seq<char>>, output: Seq<Seq<char>>)
    ensures
        merged_lines(commands, output, true) == commands + output,
        merged_lines(commands, output, true).len() == commands.len() + output.len(),
{
}

proof fn lemma_walk_multiset(commands: Seq<Seq<char>>, output: Seq<Seq<char>>, cursor: int)
    requires
        0 <= cursor,
    ensures
        walk(commands, output, cursor).to_multiset() == commands.to_multiset().add(
            output.skip(
                if cursor <= output.len() {
                    cursor
                } else {
                    output.len() as int
                },
            ).to_multiset(),
        ),
    decreases commands.len(),
{
    broadcast use vstd::seq_lib::group_to_multiset_ensures;
    broadcast use vstd::multiset::group_multiset_axioms;
    broadcast use vstd::seq_lib::lemma_multiset_commutative;

    let j = if cursor <= output.len() {
        cursor
    } else {
        output.len() as int
    };
    if commands.len() == 0 {
        assert(commands.to_multiset() =~= Multiset::<Seq<char>>::empty());
        if cursor < output.len() {
            assert(walk(commands, output, cursor) == output.skip(cursor));
        } else {
            assert(output.skip(j) =~= Seq::<Seq<char>>::empty());
            assert(walk(commands, output, cursor) =~= Seq::<Seq<char>>::empty());
        }
    } else {
        let head = commands[0];
        let rest = commands.drop_first();
        assert(commands =~= seq![head] + rest);
        if is_set_command(head) {
            lemma_walk_multiset(rest, output, cursor);
            assert(walk(commands, output, cursor).to_multiset() =~= commands.to_multiset().add(
                output.skip(j).to_multiset(),
            ));
        } else if cursor < output.len() {
            lemma_walk_multiset(rest, output, cursor + 1);
            let j2 = if cursor + 1 <= output.len() {
                cursor + 1
            } else {
                output.len() as int
            };
            assert(output.skip(j) =~= seq![output[cursor]] + output.skip(j2));
            assert(seq![head, output[cursor]] =~= seq![head] + seq![output[cursor]]);
            assert(walk(commands, output, cursor).to_multiset() =~= commands.to_multiset().add(
                output.skip(j).to_multiset(),
            ));
        } else {
            lemma_walk_multiset(rest, output, cursor + 1);
            assert(output.skip(j) =~= Seq::<Seq<char>>::empty());
            assert(walk(commands, output, cursor).to_multiset() =~= commands.to_multiset().add(
                output.skip(j).to_multiset(),
            ));
        }
    }
}

/// Content conservation: in either mode, the multiset of lines in the
/// merged sequence is the multiset union of the lines in the command
/// sequence and the lines in the output sequence — no line is fabricated,
/// dropped, or duplicated.
pub proof fn lemma_content_conservation(
    commands: Seq<Seq<char>>,
    output: Seq<Seq<char>>,
    append_mode: bool,
)
    ensures
        merged_lines(commands, output, append_mode).to_multiset() == commands.to_multiset().add(
            output.to_multiset(),
        ),
{
    broadcast use vstd::seq_lib::lemma_multiset_commutative;

    if append_mode {
    } else {
        lemma_walk_multiset(commands, output, 0);
        assert(output.skip(0) =~= output);
    }
}

/// SET skip: a SET command at the head of the walk contributes only itself
/// to the merged sequence; the output cursor does not advance and no output
/// line is paired with it.
pub proof fn lemma_set_skip(commands: Seq<Seq<char>>, output: Seq<Seq<char>>, cursor: int)
    requires
        0 <= cursor,
        0 < commands.len(),
        is_set_command(commands[0]),
    ensures
        walk(commands, output, cursor) == seq![commands[0]] + walk(
            commands.drop_first(),
            output,
            cursor,
        ),
{
}

proof fn lemma_all_set_walk(commands: Seq<Seq<char>>, output: Seq<Seq<char>>, cursor: int)
    requires
        0 <= cursor,
        forall|i: int| 0 <= i < commands.len() ==> is_set_command(#[trigger] commands[i]),
    ensures
        walk(commands, output, cursor) == commands + walk(
            Seq::<Seq<char>>::empty(),
            output,
            cursor,
        ),
    decreases commands.len(),
{
    if commands.len() == 0 {
        assert(commands + walk(Seq::<Seq<char>>::empty(), output, cursor) =~= walk(
            Seq::<Seq<char>>::empty(),
            output,
            cursor,
        ));
        assert(commands =~= Seq::<Seq<char>>::empty());
    } else {
        let rest = commands.drop_first();
        lemma_all_set_walk(rest, output, cursor);
        assert(seq![commands[0]] + (rest + walk(Seq::<Seq<char>>::empty(), output, cursor))
            =~= commands + walk(Seq::<Seq<char>>::empty(), output, cursor));
    }
}

/// When every command is a SET command no output slot is consumed during
/// the walk, so the entire output sequence is appended as a trailing block
/// and the interleave-mode merge coincides with plain concatenation.
pub proof fn lemma_all_set_concat(commands: Seq<Seq<char>>, output: Seq<Seq<char>>)
    requires
        forall|i: int| 0 <= i < commands.len() ==> is_set_command(#[trigger] commands[i]),
    ensures
        merged_lines(commands, output, false) == commands + output,
{
    lemma_all_set_walk(commands, output, 0);
    if output.len() > 0 {
        assert(output.skip(0) =~= output);
    } else {
        assert(commands + walk(Seq::<Seq<char>>::empty(), output, 0) =~= commands + output);
    }
}

/// The number of output slots the command walk consumes: one for each
/// command that is not a SET command.
pub open spec fn consumed_slots(commands: Seq<Seq<char>>) -> int
    decreases commands.len(),
{
    if commands.len() == 0 {
        0
    } else if is_set_command(commands[0]) {
        consumed_slots(commands.drop_first())
    } else {
        1 + consumed_slots(commands.drop_first())
    }
}

proof fn lemma_consumed_slots_nonneg(commands: Seq<Seq<char>>)
    ensures
        0 <= consumed_slots(commands),
    decreases commands.len(),
{
    if commands.len() > 0 {
        lemma_consumed_slots_nonneg(commands.drop_first());
    }
}

proof fn lemma_walk_flush(commands: Seq<Seq<char>>, output: Seq<Seq<char>>, cursor: int)
    requires
        0 <= cursor,
    ensures
        ({
            let j = if cursor + consumed_slots(commands) <= output.len() {
                cursor + consumed_slots(commands)
            } else {
                output.len() as int
            };
            walk(commands, output, cursor) == walk(commands, output.take(j), cursor)
                + output.skip(j)
        }),
    decreases commands.len(),
{
    lemma_consumed_slots_nonneg(commands);
    let j = if cursor + consumed_slots(commands) <= output.len() {
        cursor + consumed_slots(commands)
    } else {
        output.len() as int
    };
    if commands.len() == 0 {
        if cursor < output.len() {
            assert(walk(commands, output.take(j), cursor) + output.skip(j) =~= output.skip(
                cursor,
            ));
        } else {
            assert(walk(commands, output.take(j), cursor) + output.skip(j) =~= walk(
                commands,
                output,
                cursor,
            ));
        }
    } else {
        let head = commands[0];
        let rest = commands.drop_first();
        lemma_consumed_slots_nonneg(rest);
        if is_set_command(head) {
            lemma_walk_flush(rest, output, cursor);
            assert(seq![head] + (walk(rest, output.take(j), cursor) + output.skip(j)) =~= (
            seq![head] + walk(rest, output.take(j), cursor)) + output.skip(j));
        } else if cursor < output.len() {
            lemma_walk_flush(rest, output, cursor + 1);
            assert(cursor < j <= output.len());
            assert(output.take(j)[cursor] == output[cursor]);
            assert(seq![head, output[cursor]] + (walk(rest, output.take(j), cursor + 1)
                + output.skip(j)) =~= (seq![head, output[cursor]] + walk(
                rest,
                output.take(j),
                cursor + 1,
            )) + output.skip(j));
        } else {
            lemma_walk_flush(rest, output, cursor + 1);
            assert(output.skip(j) =~= Seq::<Seq<char>>::empty());
            assert(output.take(j) =~= output);
            assert(walk(rest, output, cursor + 1) =~= walk(rest, output, cursor + 1) + output.skip(
                j,
            ));
            assert(seq![head] + (walk(rest, output.take(j), cursor + 1) + output.skip(j)) =~= (
            seq![head] + walk(rest, output.take(j), cursor + 1)) + output.skip(j));
        }
    }
}

/// Trailing flush: the output lines not consumed by the command walk — those
/// past the first `consumed_slots(commands)` — appear, in original order, as
/// a contiguous suffix of the interleave-mode merged sequence.
pub proof fn lemma_trailing_flush(commands: Seq<Seq<char>>, output: Seq<Seq<char>>)
    ensures
        ({
            let k = if consumed_slots(commands) <= output.len() {
                consumed_slots(commands)
            } else {
                output.len() as int
            };
            merged_lines(commands, output, false) == merged_lines(commands, output.take(k), false)
                + output.skip(k)
        }),
{
    lemma_consumed_slots_nonneg(commands);
    lemma_walk_flush(commands, output, 0);
}

/// With no commands at all, the interleave-mode merge is the output
/// sequence verbatim.
pub proof fn lemma_no_commands(output: Seq<Seq<char>>)
    ensures
        merged_lines(Seq::<Seq<char>>::empty(), output, false) == output,
{
    if output.len() > 0 {
        assert(output.skip(0) =~= output);
    } else {
        assert(output =~= Seq::<Seq<char>>::empty());
    }
}

} // verus!
