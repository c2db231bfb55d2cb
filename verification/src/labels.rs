//! The labels of a lowered program: none occurs twice, and every jump goes
//! to one of them.

use crate::text::decimal;
use crate::util::{label_number, lemma_ids_distinct};
use crate::vm::{loop_count, op_loop_count, Op};
use crate::x86::{close_label, lower, lower_op, open_label, Asm};
use vstd::prelude::*;

verus! {

/// Which label an instruction of a lowered program is: the one that opens
/// or the one that closes (`true` for opening) the loop with the given
/// count, or none.
pub type Mark = Option<(bool, int)>;

/// The text of the label that a mark stands for.
pub open spec fn mark_text(opening: bool, count: int) -> Seq<char> {
    if opening {
        open_label(label_number(count))
    } else {
        close_label(label_number(count))
    }
}

/// As many marks of no label.
pub open spec fn unmarked(n: nat) -> Seq<Mark> {
    Seq::new(n, |i: int| None::<(bool, int)>)
}

/// The marks of the instructions that one instruction is lowered to.
pub open spec fn op_marks(op: Op, count: int) -> Seq<Mark>
    decreases op,
{
    match op {
        Op::Loop(body) => seq![None, None, Some((true, count))] + marks(body, count + 1) + seq![
            None,
            None,
            Some((false, count)),
        ],
        _ => unmarked(lower_op(op, count).len()),
    }
}

/// The marks of the instructions that a program is lowered to.
pub open spec fn marks(code: Seq<Op>, count: int) -> Seq<Mark>
    decreases code,
{
    if code.len() == 0 {
        Seq::empty()
    } else {
        marks(code.drop_last(), count) + op_marks(
            code.last(),
            count + loop_count(code.drop_last()),
        )
    }
}

/// An instruction is the label that its mark stands for, and no label where
/// it has no mark.
pub open spec fn agrees(line: Asm, mark: Mark) -> bool {
    match mark {
        Some((opening, count)) => line == Asm::Label(mark_text(opening, count)),
        None => !(line is Label),
    }
}

/// The marks of a lowered instruction say which of its instructions are
/// labels and of which loop, and every loop marked is one of its own.
proof fn lemma_op_marks(op: Op, count: int)
    ensures
        op_marks(op, count).len() == lower_op(op, count).len(),
        forall|i: int|
            0 <= i < op_marks(op, count).len() ==> agrees(
                lower_op(op, count)[i],
                #[trigger] op_marks(op, count)[i],
            ),
        forall|i: int|
            0 <= i < op_marks(op, count).len() ==> (#[trigger] op_marks(op, count)[i]
                matches Some((_, k)) ==> count <= k < count + op_loop_count(op)),
        forall|i: int, j: int|
            0 <= i < j < op_marks(op, count).len() && op_marks(op, count)[i] is Some ==> op_marks(
                op,
                count,
            )[i] != op_marks(op, count)[j],
    decreases op, 1nat,
{
    match op {
        Op::Loop(body) => {
            lemma_marks(body, count + 1);
        },
        Op::Move(offset) => {
        },
        Op::Write(offset) => {
        },
        Op::Read(offset) => {
        },
        _ => {},
    }
}

/// The marks of a lowered program say which of its instructions are labels
/// and of which loop; every loop marked is one of its own, and no mark
/// occurs twice.
pub proof fn lemma_marks(code: Seq<Op>, count: int)
    ensures
        marks(code, count).len() == lower(code, count).len(),
        forall|i: int|
            0 <= i < marks(code, count).len() ==> agrees(
                lower(code, count)[i],
                #[trigger] marks(code, count)[i],
            ),
        forall|i: int|
            0 <= i < marks(code, count).len() ==> (#[trigger] marks(code, count)[i] matches Some(
                (_, k),
            ) ==> count <= k < count + loop_count(code)),
        forall|i: int, j: int|
            0 <= i < j < marks(code, count).len() && marks(code, count)[i] is Some ==> marks(
                code,
                count,
            )[i] != marks(code, count)[j],
    decreases code, 0nat,
{
    if code.len() > 0 {
        let before = code.drop_last();
        let next = count + loop_count(before);
        lemma_marks(before, count);
        lemma_op_marks(code.last(), next);
    }
}

/// The two kinds of label never share a text, and two labels of one kind
/// share theirs only if their loops have the same count, as long as the
/// counts are less than a full turn of the counter apart.
pub proof fn lemma_mark_text_injective(a: (bool, int), b: (bool, int))
    requires
        a != b,
        -(usize::MAX as int) <= a.1 - b.1 <= usize::MAX as int,
    ensures
        mark_text(a.0, a.1) != mark_text(b.0, b.1),
{
    reveal_strlit(".L_OPEN_");
    reveal_strlit(".L_CLOSE_");
    let x = mark_text(a.0, a.1);
    let y = mark_text(b.0, b.1);
    if a.0 != b.0 {
        assert(x[3] != y[3]);
    } else {
        lemma_ids_distinct(a.1, b.1);
        let p = decimal(label_number(a.1) as nat);
        let q = decimal(label_number(b.1) as nat);
        if a.0 {
            assert((".L_OPEN_"@ + p).skip(8) =~= p);
            assert((".L_OPEN_"@ + q).skip(8) =~= q);
        } else {
            assert((".L_CLOSE_"@ + p).skip(9) =~= p);
            assert((".L_CLOSE_"@ + q).skip(9) =~= q);
        }
    }
}

/// No label occurs twice in a lowered program, as long as the program has
/// no more loops than the counter has values.
pub proof fn lemma_labels_distinct(code: Seq<Op>, count: int, i: int, j: int)
    requires
        loop_count(code) <= usize::MAX as int + 1,
        0 <= i < j < lower(code, count).len(),
        lower(code, count)[i] is Label,
        lower(code, count)[j] is Label,
    ensures
        lower(code, count)[i] != lower(code, count)[j],
{
    lemma_marks(code, count);
    let a = marks(code, count)[i];
    let b = marks(code, count)[j];
    assert(agrees(lower(code, count)[i], a));
    assert(agrees(lower(code, count)[j], b));
    lemma_mark_text_injective(a.unwrap(), b.unwrap());
}

/// The label that an instruction jumps to, if it is a jump.
pub open spec fn target(line: Asm) -> Option<Seq<char>> {
    match line {
        Asm::Jif(_, label) => Some(label),
        _ => None,
    }
}

/// Every jump among the instructions goes to a label among them.
pub open spec fn jumps_land(lines: Seq<Asm>) -> bool {
    forall|i: int|
        0 <= i < lines.len() ==> (target(#[trigger] lines[i]) matches Some(label) ==> exists|j: int|
            0 <= j < lines.len() && lines[j] == Asm::Label(label))
}

/// Instructions in which every jump lands, put end to end, are
/// instructions in which every jump lands.
proof fn lemma_jumps_land_concat(a: Seq<Asm>, b: Seq<Asm>)
    requires
        jumps_land(a),
        jumps_land(b),
    ensures
        jumps_land(a + b),
{
    let whole = a + b;
    assert forall|i: int| 0 <= i < whole.len() implies (target(#[trigger] whole[i]) matches Some(
        label,
    ) ==> exists|j: int| 0 <= j < whole.len() && whole[j] == Asm::Label(label)) by {
        if let Some(label) = target(whole[i]) {
            if i < a.len() {
                assert(whole[i] == a[i]);
                let j = choose|j: int| 0 <= j < a.len() && a[j] == Asm::Label(label);
                assert(whole[j] == Asm::Label(label));
            } else {
                assert(whole[i] == b[i - a.len()]);
                let j = choose|j: int| 0 <= j < b.len() && b[j] == Asm::Label(label);
                assert(whole[j + a.len()] == Asm::Label(label));
            }
        }
    }
}

/// A loop around instructions in which every jump lands is made of
/// instructions in which every jump lands: it adds two jumps and the two
/// labels that they go to.
proof fn lemma_jumps_land_loop(body: Seq<Op>, count: int)
    requires
        jumps_land(lower(body, count + 1)),
    ensures
        jumps_land(lower_op(Op::Loop(body), count)),
{
    let inner = lower(body, count + 1);
    let whole = lower_op(Op::Loop(body), count);
    let last = whole.len() - 1;
    assert(whole[2] == Asm::Label(open_label(label_number(count))));
    assert(whole[last] == Asm::Label(close_label(label_number(count))));
    assert forall|i: int| 0 <= i < whole.len() implies (target(#[trigger] whole[i]) matches Some(
        label,
    ) ==> exists|j: int| 0 <= j < whole.len() && whole[j] == Asm::Label(label)) by {
        if let Some(label) = target(whole[i]) {
            if 3 <= i < 3 + inner.len() {
                assert(whole[i] == inner[i - 3]);
                let j = choose|j: int| 0 <= j < inner.len() && inner[j] == Asm::Label(label);
                assert(whole[j + 3] == Asm::Label(label));
            }
        }
    }
}

/// Every jump that one instruction is lowered to goes to a label that it
/// is lowered to.
proof fn lemma_op_jumps_land(op: Op, count: int)
    ensures
        jumps_land(lower_op(op, count)),
    decreases op, 1nat,
{
    match op {
        Op::Loop(body) => {
            lemma_jumps_land(body, count + 1);
            lemma_jumps_land_loop(body, count);
        },
        _ => {},
    }
}

/// Every jump in a lowered program goes to a label of the program.
pub proof fn lemma_jumps_land(code: Seq<Op>, count: int)
    ensures
        jumps_land(lower(code, count)),
    decreases code, 0nat,
{
    if code.len() > 0 {
        let before = code.drop_last();
        lemma_jumps_land(before, count);
        lemma_op_jumps_land(code.last(), count + loop_count(before));
        lemma_jumps_land_concat(
            lower(before, count),
            lower_op(code.last(), count + loop_count(before)),
        );
    }
}

} // verus!
