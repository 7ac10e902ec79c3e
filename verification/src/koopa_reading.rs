//! What the text of Koopa IR says when it is read by the rules of Koopa IR.
//!
//! A line is its words. The rules here say which words an instruction, a variable or a function is
//! read from and what its operators compute; they know nothing of how a text is put together.

use crate::global_values;
use crate::ir::{self, BlockV, FuncV, GlobalV, InitV, InstV, IrOperand, IrType, ProgV};
use crate::ir_to_koopa;
use crate::opt::const_fold;
use crate::reading::{self, gap_after, is_word, list_after, numeral, word_after, words};
use crate::text;
use crate::words::{divides, quotient, remainder, wrap};
use vstd::prelude::*;

verus! {

// ── Operators ────────────────────────────────────────────────────────────────

/// One for what holds, zero for what does not.
pub open spec fn one_if(b: bool) -> int {
    if b {
        1
    } else {
        0
    }
}

/// What a binary instruction of Koopa IR computes from two integers.
pub open spec fn computed(op: Seq<char>, l: int, r: int) -> Option<int> {
    if op == "add"@ {
        Some(wrap(l + r) as int)
    } else if op == "sub"@ {
        Some(wrap(l - r) as int)
    } else if op == "mul"@ {
        Some(wrap(l * r) as int)
    } else if op == "div"@ {
        Some(quotient(l, r))
    } else if op == "mod"@ {
        Some(remainder(l, r))
    } else if op == "eq"@ {
        Some(one_if(l == r))
    } else if op == "ne"@ {
        Some(one_if(l != r))
    } else if op == "lt"@ {
        Some(one_if(l < r))
    } else if op == "gt"@ {
        Some(one_if(l > r))
    } else if op == "le"@ {
        Some(one_if(l <= r))
    } else if op == "ge"@ {
        Some(one_if(l >= r))
    } else {
        None
    }
}

// ── Instructions ─────────────────────────────────────────────────────────────

/// Whether a word is an operand: the numeral of an integer, or a name.
pub open spec fn is_operand(p: ProgV, w: Seq<char>, op: IrOperand) -> bool {
    match op {
        IrOperand::Int(n) => numeral(w) == Some(n as int),
        IrOperand::Local(l) => l < p.local_names.len() ==> w == p.local_names[l as int],
        IrOperand::Global(g) => g < p.global_names.len() ==> w == p.global_names[g as int],
        IrOperand::Undef => w == "undef"@,
    }
}

/// Whether words are operands.
pub open spec fn are_operands(p: ProgV, ws: Seq<Seq<char>>, ops: Seq<IrOperand>) -> bool {
    ws.len() == ops.len() && forall|k: int|
        0 <= k < ops.len() ==> is_operand(p, #[trigger] ws[k], ops[k])
}

/// The label that control goes to at the end of a block: of two, the first where the condition is
/// not zero.
pub open spec fn destination(ws: Seq<Seq<char>>, cond: int) -> Option<Seq<char>> {
    if ws.len() == 4 && ws[0] == "br"@ {
        Some(
            if cond != 0 {
                ws[2]
            } else {
                ws[3]
            },
        )
    } else if ws.len() == 2 && ws[0] == "jump"@ {
        Some(ws[1])
    } else {
        None
    }
}

/// The words after `name =`.
pub open spec fn assigned(ws: Seq<Seq<char>>, name: Seq<char>, rest: Seq<Seq<char>>) -> bool {
    ws.len() >= 2 && ws[0] == name && ws[1] == "="@ && ws.skip(2) == rest
}

/// Whether words are a binary instruction, and what it computes.
pub open spec fn computes(
    p: ProgV,
    ws: Seq<Seq<char>>,
    dest: usize,
    lhs: IrOperand,
    rhs: IrOperand,
    value: spec_fn(i32, i32) -> i32,
) -> bool {
    &&& ws.len() == 5
    &&& ws[0] == p.local_names[dest as int] && ws[1] == "="@
    &&& is_operand(p, ws[3], lhs) && is_operand(p, ws[4], rhs)
    &&& forall|l: i32, r: i32|
        (divides(l, r) || !(ws[2] == "div"@ || ws[2] == "mod"@)) ==> #[trigger] computed(
            ws[2],
            l as int,
            r as int,
        ) == Some(value(l, r) as int)
}

/// Whether words are an instruction with a result and some operands.
pub open spec fn operates(
    p: ProgV,
    ws: Seq<Seq<char>>,
    dest: usize,
    op: Seq<char>,
    ops: Seq<IrOperand>,
) -> bool {
    ws.len() >= 3 && ws[0] == p.local_names[dest as int] && ws[1] == "="@ && ws[2] == op
        && are_operands(p, ws.skip(3), ops)
}

/// Whether words are an instruction that is no comparison and no arithmetic.
pub open spec fn reads_plain(p: ProgV, ws: Seq<Seq<char>>, i: InstV) -> bool {
    match i {
        InstV::Alloc { dest, ty } => ws.len() >= 3 && ws[0] == p.global_names[dest as int] && ws[1]
            == "="@ && ws[2] == "alloc"@ && ws.skip(3) == words(ir::type_text(ty)),
        InstV::Load { dest, src } => operates(p, ws, dest, "load"@, seq![src]),
        InstV::Store { value, ptr } => ws.len() == 3 && ws[0] == "store"@ && is_operand(
            p,
            ws[1],
            value,
        ) && is_operand(p, ws[2], ptr),
        InstV::GetPtr { dest, ptr, index, .. } => operates(
            p,
            ws,
            dest,
            "getptr"@,
            seq![ptr, index],
        ),
        InstV::GetElemPtr { dest, ptr, index, .. } => operates(
            p,
            ws,
            dest,
            "getelemptr"@,
            seq![ptr, index],
        ),
        InstV::Call { dest: Some(d), func, args } => ws.len() >= 4 && ws[0]
            == p.local_names[d as int] && ws[1] == "="@ && ws[2] == "call"@ && ws[3] == seq!['@']
            + p.func_names[func as int] && are_operands(p, ws.skip(4), args),
        InstV::Call { dest: None, func, args } => ws.len() >= 2 && ws[0] == "call"@ && ws[1]
            == seq!['@'] + p.func_names[func as int] && are_operands(p, ws.skip(2), args),
        InstV::Br { cond, then_bb, else_bb } => ws.len() == 4 && is_operand(p, ws[1], cond)
            && forall|v: int| #[trigger]
            destination(ws, v) == Some(
                p.block_names[if v != 0 {
                    then_bb
                } else {
                    else_bb
                } as int],
            ),
        InstV::Jump { target } => forall|v: int| #[trigger]
            destination(ws, v) == Some(p.block_names[target as int]),
        InstV::Ret { value: Some(v) } => ws.len() == 2 && ws[0] == "ret"@ && is_operand(p, ws[1], v),
        InstV::Ret { value: None } => ws.len() == 1 && ws[0] == "ret"@,
        _ => true,
    }
}

/// Whether words are an instruction by the rules of Koopa IR.
pub open spec fn reads(p: ProgV, ws: Seq<Seq<char>>, i: InstV) -> bool {
    match i {
        InstV::Arith { dest, op, lhs, rhs } => computes(
            p,
            ws,
            dest,
            lhs,
            rhs,
            |l: i32, r: i32| const_fold::arith_value(op, l, r),
        ),
        InstV::Icmp { dest, op, lhs, rhs } => computes(
            p,
            ws,
            dest,
            lhs,
            rhs,
            |l: i32, r: i32| const_fold::compare_value(op, l, r),
        ),
        _ => reads_plain(p, ws, i),
    }
}

/// Whether all names of a program are words.
pub open spec fn names_are_words(p: ProgV) -> bool {
    &&& forall|k: int| 0 <= k < p.local_names.len() ==> is_word(#[trigger] p.local_names[k])
    &&& forall|k: int| 0 <= k < p.global_names.len() ==> is_word(#[trigger] p.global_names[k])
    &&& forall|k: int| 0 <= k < p.block_names.len() ==> is_word(#[trigger] p.block_names[k])
    &&& forall|k: int| 0 <= k < p.func_names.len() ==> is_word(#[trigger] p.func_names[k])
}

// ── Reading what is written ──────────────────────────────────────────────────

/// The gaps and words of Koopa IR.
pub proof fn literals()
    ensures
        "  "@ =~= seq![' ', ' '] && " "@ =~= seq![' '] && ", "@ =~= seq![',', ' '],
        "\n"@ =~= seq!['\n'] && "("@ =~= seq!['('] && ")\n"@ =~= seq![')', '\n'],
        " = "@ =~= " "@ + "="@ + " "@ && is_word("="@),
        " = load "@ =~= " "@ + "="@ + " "@ + "load"@ + " "@ && is_word("load"@),
        " = alloc "@ =~= " "@ + "="@ + " "@ + "alloc"@ + " "@ && is_word("alloc"@),
        "  store "@ =~= "  "@ + "store"@ + " "@ && is_word("store"@),
        "  br "@ =~= "  "@ + "br"@ + " "@ && is_word("br"@),
        "  jump "@ =~= "  "@ + "jump"@ + " "@ && is_word("jump"@),
        "  ret "@ =~= "  "@ + "ret"@ + " "@ && "  ret\n"@ =~= "  "@ + "ret"@ + "\n"@,
        is_word("ret"@) && is_word("getptr"@) && is_word("getelemptr"@) && is_word("undef"@),
        "call @"@ =~= "call"@ + " "@ + seq!['@'] && is_word("call"@),
        is_word("add"@) && is_word("sub"@) && is_word("mul"@) && is_word("div"@) && is_word(
            "mod"@,
        ),
        is_word("eq"@) && is_word("ne"@) && is_word("lt"@) && is_word("gt"@) && is_word("le"@)
            && is_word("ge"@),
        is_word("zeroinit"@) && is_word("global"@),
        "global "@ =~= "global"@ + " "@ && "{"@ =~= seq!['{'] && "}"@ =~= seq!['}'],
        "%?"@ =~= seq!['%', '?'] && "@?"@ =~= seq!['@', '?'],
{
    reveal_strlit("  ");
    reveal_strlit(" ");
    reveal_strlit(", ");
    reveal_strlit("\n");
    reveal_strlit("(");
    reveal_strlit(")\n");
    reveal_strlit(" = ");
    reveal_strlit("=");
    reveal_strlit(" = load ");
    reveal_strlit("load");
    reveal_strlit(" = alloc ");
    reveal_strlit("alloc");
    reveal_strlit("  store ");
    reveal_strlit("store");
    reveal_strlit("  br ");
    reveal_strlit("br");
    reveal_strlit("  jump ");
    reveal_strlit("jump");
    reveal_strlit("  ret ");
    reveal_strlit("  ret\n");
    reveal_strlit("ret");
    reveal_strlit("getptr");
    reveal_strlit("getelemptr");
    reveal_strlit("undef");
    reveal_strlit("call @");
    reveal_strlit("call");
    reveal_strlit("add");
    reveal_strlit("sub");
    reveal_strlit("mul");
    reveal_strlit("div");
    reveal_strlit("mod");
    reveal_strlit("eq");
    reveal_strlit("ne");
    reveal_strlit("lt");
    reveal_strlit("gt");
    reveal_strlit("le");
    reveal_strlit("ge");
    reveal_strlit("zeroinit");
    reveal_strlit("global");
    reveal_strlit("global ");
    reveal_strlit("{");
    reveal_strlit("}");
    reveal_strlit("%?");
    reveal_strlit("@?");
}

/// No two operators have one name.
pub proof fn operators_differ()
    ensures
        "add"@ != "sub"@ && "add"@ != "mul"@ && "add"@ != "div"@ && "add"@ != "mod"@,
        "sub"@ != "mul"@ && "sub"@ != "div"@ && "sub"@ != "mod"@,
        "mul"@ != "div"@ && "mul"@ != "mod"@ && "div"@ != "mod"@,
        "add"@.len() == 3 && "sub"@.len() == 3 && "mul"@.len() == 3 && "div"@.len() == 3
            && "mod"@.len() == 3,
        "eq"@.len() == 2 && "ne"@.len() == 2 && "lt"@.len() == 2 && "gt"@.len() == 2
            && "le"@.len() == 2 && "ge"@.len() == 2,
        "eq"@ != "ne"@ && "eq"@ != "lt"@ && "eq"@ != "gt"@ && "eq"@ != "le"@ && "eq"@ != "ge"@,
        "ne"@ != "lt"@ && "ne"@ != "gt"@ && "ne"@ != "le"@ && "ne"@ != "ge"@,
        "lt"@ != "gt"@ && "lt"@ != "le"@ && "lt"@ != "ge"@,
        "gt"@ != "le"@ && "gt"@ != "ge"@ && "le"@ != "ge"@,
{
    reveal_strlit("add");
    reveal_strlit("sub");
    reveal_strlit("mul");
    reveal_strlit("div");
    reveal_strlit("mod");
    reveal_strlit("eq");
    reveal_strlit("ne");
    reveal_strlit("lt");
    reveal_strlit("gt");
    reveal_strlit("le");
    reveal_strlit("ge");
    assert("add"@[0] == 'a' && "sub"@[0] == 's' && "mul"@[0] == 'm' && "div"@[0] == 'd'
        && "mod"@[0] == 'm' && "mul"@[1] == 'u' && "mod"@[1] == 'o');
    assert("eq"@[0] == 'e' && "ne"@[0] == 'n' && "lt"@[0] == 'l' && "gt"@[0] == 'g' && "le"@[0]
        == 'l' && "ge"@[0] == 'g');
    assert("lt"@[1] == 't' && "gt"@[1] == 't' && "le"@[1] == 'e' && "ge"@[1] == 'e');
}

/// An operand is written as a word that is read as the operand.
proof fn operands_are_read(p: ProgV, op: IrOperand)
    requires
        names_are_words(p),
    ensures
        is_word(ir_to_koopa::op_text(p, op)),
        is_operand(p, ir_to_koopa::op_text(p, op), op),
{
    literals();
    match op {
        IrOperand::Int(n) => reading::numerals_denote(n as int),
        IrOperand::Local(l) => {
            reading::numerals_denote(l as int);
            let s = "%?"@ + text::dec_nat(l as nat);
            assert forall|i: int| 0 <= i < s.len() implies !reading::gap(#[trigger] s[i]) by {
                if i >= 2 {
                    assert(s[i] == text::dec_nat(l as nat)[i - 2]);
                }
            }
        },
        IrOperand::Global(g) => {
            reading::numerals_denote(g as int);
            let s = "@?"@ + text::dec_nat(g as nat);
            assert forall|i: int| 0 <= i < s.len() implies !reading::gap(#[trigger] s[i]) by {
                if i >= 2 {
                    assert(s[i] == text::dec_nat(g as nat)[i - 2]);
                }
            }
        },
        IrOperand::Undef => {},
    }
}

/// The words of an instruction with two operands.
proof fn two_op_words(p: ProgV, dest: usize, op: Seq<char>, lhs: IrOperand, rhs: IrOperand)
    requires
        names_are_words(p),
        dest < p.local_names.len(),
        is_word(op),
    ensures
        words(ir_to_koopa::two_op_text(p, dest, op, lhs, rhs)) == seq![
            p.local_names[dest as int],
            "="@,
            op,
            ir_to_koopa::op_text(p, lhs),
            ir_to_koopa::op_text(p, rhs),
        ],
{
    literals();
    operands_are_read(p, lhs);
    operands_are_read(p, rhs);
    let d = p.local_names[dest as int];
    let l = ir_to_koopa::op_text(p, lhs);
    let r = ir_to_koopa::op_text(p, rhs);
    let x0 = "  "@;
    reading::words_of_gap(x0);
    word_after(x0, d);
    let x1 = x0 + d;
    gap_after(x1, " "@);
    word_after(x1 + " "@, "="@);
    gap_after(x1 + " "@ + "="@, " "@);
    assert(x1 + " = "@ =~= x1 + " "@ + "="@ + " "@);
    let x2 = x1 + " = "@;
    word_after(x2, op);
    gap_after(x2 + op, " "@);
    word_after(x2 + op + " "@, l);
    let x3 = x2 + op + " "@ + l;
    gap_after(x3, ", "@);
    word_after(x3 + ", "@, r);
    gap_after(x3 + ", "@ + r, "\n"@);
    assert(words(ir_to_koopa::two_op_text(p, dest, op, lhs, rhs)) =~= seq![d, "="@, op, l, r]);
}

proof fn arith_is_read(p: ProgV, i: InstV)
    requires
        names_are_words(p),
        ir_to_koopa::inst_named(p, i),
        i is Arith,
    ensures
        reads(p, words(ir_to_koopa::inst_text(p, i)), i),
{
    if let InstV::Arith { dest, op, lhs, rhs } = i {
        literals();
        operators_differ();
        let o = ir::arith_text(op);
        two_op_words(p, dest, o, lhs, rhs);
        operands_are_read(p, lhs);
        operands_are_read(p, rhs);
        assert forall|l: i32, r: i32|
            (divides(l, r) || !(o == "div"@ || o == "mod"@)) implies #[trigger] computed(
            o,
            l as int,
            r as int,
        ) == Some(const_fold::arith_value(op, l, r) as int) by {
            crate::words::wrapping_is_wrap(l, r);
            if divides(l, r) {
                crate::words::division_rounds(l, r);
            }
        }
    }
}

proof fn comparison_is_read(p: ProgV, i: InstV)
    requires
        names_are_words(p),
        ir_to_koopa::inst_named(p, i),
        i is Icmp,
    ensures
        reads(p, words(ir_to_koopa::inst_text(p, i)), i),
{
    if let InstV::Icmp { dest, op, lhs, rhs } = i {
        literals();
        operators_differ();
        two_op_words(p, dest, ir::cmp_text(op), lhs, rhs);
        operands_are_read(p, lhs);
        operands_are_read(p, rhs);
    }
}

/// A call after what is there.
proof fn call_words(p: ProgV, x: Seq<char>, func: usize, args: Seq<IrOperand>)
    requires
        names_are_words(p),
        func < p.func_names.len(),
        x.len() == 0 || reading::gap(x.last()),
    ensures
        words(x + ir_to_koopa::call_text(p, func, args)) == words(x) + (seq![
            "call"@,
            seq!['@'] + p.func_names[func as int],
        ] + args.map_values(|a: IrOperand| ir_to_koopa::op_text(p, a))),
        are_operands(p, args.map_values(|a: IrOperand| ir_to_koopa::op_text(p, a)), args),
{
    literals();
    let f = seq!['@'] + p.func_names[func as int];
    let items = args.map_values(|a: IrOperand| ir_to_koopa::op_text(p, a));
    assert(is_word(f)) by {
        assert forall|i: int| 0 <= i < f.len() implies !reading::gap(#[trigger] f[i]) by {
            if i > 0 {
                assert(f[i] == p.func_names[func as int][i - 1]);
            }
        }
    }
    assert forall|k: int| 0 <= k < items.len() implies is_word(#[trigger] items[k]) && is_operand(
        p,
        items[k],
        args[k],
    ) by {
        operands_are_read(p, args[k]);
    }
    word_after(x, "call"@);
    gap_after(x + "call"@, " "@);
    word_after(x + "call"@ + " "@, f);
    let y = x + "call"@ + " "@ + f;
    gap_after(y, "("@);
    list_after(y + "("@, items);
    gap_after(y + "("@ + text::join(items, ", "@), ")\n"@);
    assert(x + ir_to_koopa::call_text(p, func, args) =~= y + "("@ + text::join(items, ", "@)
        + ")\n"@);
    assert(words(x).push("call"@).push(f) + items =~= words(x) + (seq!["call"@, f] + items));
}

proof fn memory_is_read(p: ProgV, i: InstV)
    requires
        names_are_words(p),
        ir_to_koopa::inst_named(p, i),
        i is Load || i is Store || i is GetPtr || i is GetElemPtr || i is Alloc,
    ensures
        reads(p, words(ir_to_koopa::inst_text(p, i)), i),
{
    literals();
    reading::words_of_gap("  "@);
    match i {
        InstV::Load { dest, src } => {
            operands_are_read(p, src);
            let d = p.local_names[dest as int];
            let s = ir_to_koopa::op_text(p, src);
            let x = "  "@ + d;
            word_after("  "@, d);
            gap_after(x, " "@);
            word_after(x + " "@, "="@);
            gap_after(x + " "@ + "="@, " "@);
            word_after(x + " "@ + "="@ + " "@, "load"@);
            gap_after(x + " "@ + "="@ + " "@ + "load"@, " "@);
            assert(x + " = load "@ =~= x + " "@ + "="@ + " "@ + "load"@ + " "@);
            word_after(x + " = load "@, s);
            gap_after(x + " = load "@ + s, "\n"@);
            let ws = words(ir_to_koopa::inst_text(p, i));
            assert(ws =~= seq![d, "="@, "load"@, s]);
            assert(ws.skip(3) =~= seq![s]);
        },
        InstV::Store { value, ptr } => {
            operands_are_read(p, value);
            operands_are_read(p, ptr);
            let v = ir_to_koopa::op_text(p, value);
            let a = ir_to_koopa::op_text(p, ptr);
            word_after("  "@, "store"@);
            gap_after("  "@ + "store"@, " "@);
            word_after("  store "@, v);
            gap_after("  store "@ + v, ", "@);
            word_after("  store "@ + v + ", "@, a);
            gap_after("  store "@ + v + ", "@ + a, "\n"@);
            assert(words(ir_to_koopa::inst_text(p, i)) =~= seq!["store"@, v, a]);
        },
        InstV::GetPtr { dest, ptr, index, .. } => {
            two_op_words(p, dest, "getptr"@, ptr, index);
            operands_are_read(p, ptr);
            operands_are_read(p, index);
            assert(words(ir_to_koopa::inst_text(p, i)).skip(3) =~= seq![
                ir_to_koopa::op_text(p, ptr),
                ir_to_koopa::op_text(p, index),
            ]);
        },
        InstV::GetElemPtr { dest, ptr, index, .. } => {
            two_op_words(p, dest, "getelemptr"@, ptr, index);
            operands_are_read(p, ptr);
            operands_are_read(p, index);
            assert(words(ir_to_koopa::inst_text(p, i)).skip(3) =~= seq![
                ir_to_koopa::op_text(p, ptr),
                ir_to_koopa::op_text(p, index),
            ]);
        },
        InstV::Alloc { dest, ty } => {
            let d = p.global_names[dest as int];
            let x = "  "@ + d;
            word_after("  "@, d);
            gap_after(x, " "@);
            word_after(x + " "@, "="@);
            gap_after(x + " "@ + "="@, " "@);
            word_after(x + " "@ + "="@ + " "@, "alloc"@);
            gap_after(x + " "@ + "="@ + " "@ + "alloc"@, " "@);
            assert(x + " = alloc "@ =~= x + " "@ + "="@ + " "@ + "alloc"@ + " "@);
            let ts = ir::type_text(ty);
            reading::words_of_two(x + " = alloc "@, ts);
            gap_after(x + " = alloc "@ + ts, "\n"@);
            let ws = words(ir_to_koopa::inst_text(p, i));
            assert(ws =~= seq![d, "="@, "alloc"@] + words(ts));
            assert(ws.skip(3) =~= words(ts));
        },
        _ => {},
    }
}

proof fn control_is_read(p: ProgV, i: InstV)
    requires
        names_are_words(p),
        ir_to_koopa::inst_named(p, i),
        i is Br || i is Jump || i is Ret || i is Call,
    ensures
        reads(p, words(ir_to_koopa::inst_text(p, i)), i),
{
    literals();
    reading::words_of_gap("  "@);
    match i {
        InstV::Br { cond, then_bb, else_bb } => {
            operands_are_read(p, cond);
            let c = ir_to_koopa::op_text(p, cond);
            let a = p.block_names[then_bb as int];
            let b = p.block_names[else_bb as int];
            word_after("  "@, "br"@);
            gap_after("  "@ + "br"@, " "@);
            word_after("  br "@, c);
            let x = "  br "@ + c;
            gap_after(x, ", "@);
            word_after(x + ", "@, a);
            gap_after(x + ", "@ + a, ", "@);
            word_after(x + ", "@ + a + ", "@, b);
            gap_after(x + ", "@ + a + ", "@ + b, "\n"@);
            assert(words(ir_to_koopa::inst_text(p, i)) =~= seq!["br"@, c, a, b]);
        },
        InstV::Jump { target } => {
            let a = p.block_names[target as int];
            word_after("  "@, "jump"@);
            gap_after("  "@ + "jump"@, " "@);
            word_after("  jump "@, a);
            gap_after("  jump "@ + a, "\n"@);
            assert(words(ir_to_koopa::inst_text(p, i)) =~= seq!["jump"@, a]);
            assert("br"@ != "jump"@) by {
                reveal_strlit("br");
                reveal_strlit("jump");
                assert("br"@.len() == 2);
            }
        },
        InstV::Ret { value } => {
            word_after("  "@, "ret"@);
            match value {
                Some(v) => {
                    operands_are_read(p, v);
                    let s = ir_to_koopa::op_text(p, v);
                    gap_after("  "@ + "ret"@, " "@);
                    word_after("  ret "@, s);
                    gap_after("  ret "@ + s, "\n"@);
                    assert(words(ir_to_koopa::inst_text(p, i)) =~= seq!["ret"@, s]);
                },
                None => {
                    gap_after("  "@ + "ret"@, "\n"@);
                    assert(words(ir_to_koopa::inst_text(p, i)) =~= seq!["ret"@]);
                },
            }
        },
        InstV::Call { dest, func, args } => {
            let items = args.map_values(|a: IrOperand| ir_to_koopa::op_text(p, a));
            let f = seq!['@'] + p.func_names[func as int];
            match dest {
                Some(d) => {
                    let n = p.local_names[d as int];
                    let x = "  "@ + n;
                    word_after("  "@, n);
                    gap_after(x, " "@);
                    word_after(x + " "@, "="@);
                    gap_after(x + " "@ + "="@, " "@);
                    assert(x + " = "@ =~= x + " "@ + "="@ + " "@);
                    call_words(p, x + " = "@, func, args);
                    let ws = words(ir_to_koopa::inst_text(p, i));
                    assert(ws =~= seq![n, "="@, "call"@, f] + items);
                    assert(ws.skip(4) =~= items);
                },
                None => {
                    call_words(p, "  "@, func, args);
                    let ws = words(ir_to_koopa::inst_text(p, i));
                    assert(ws =~= seq!["call"@, f] + items);
                    assert(ws.skip(2) =~= items);
                },
            }
        },
        _ => {},
    }
}

/// Reading the text of an instruction by the rules of Koopa IR gives the instruction: its operator
/// computes what the instruction means, its operands stand where they are read, and a branch goes
/// to the label of its first block where the condition is not zero and of its second where it is.
pub proof fn instructions_are_read(p: ProgV, i: InstV)
    requires
        names_are_words(p),
        ir_to_koopa::inst_named(p, i),
        !(i is Phi) && !(i is Asm),
    ensures
        reads(p, words(ir_to_koopa::inst_text(p, i)), i),
{
    match i {
        InstV::Arith { .. } => arith_is_read(p, i),
        InstV::Icmp { .. } => comparison_is_read(p, i),
        InstV::Br { .. } => control_is_read(p, i),
        InstV::Jump { .. } => control_is_read(p, i),
        InstV::Ret { .. } => control_is_read(p, i),
        InstV::Call { .. } => control_is_read(p, i),
        _ => memory_is_read(p, i),
    }
}

// ── Global variables ─────────────────────────────────────────────────────────

/// How many single values a value of a type is made of.
pub open spec fn leaves(ty: IrType) -> int
    decreases ty,
{
    match ty {
        IrType::Array(inner, n) => n * leaves(*inner),
        _ => 1,
    }
}

/// What an element starts with by the words of an initial value: nothing but zeros, or the values
/// one after another.
pub open spec fn initial(ws: Seq<Seq<char>>, q: int) -> Option<int> {
    if ws == seq!["zeroinit"@] {
        Some(0)
    } else if 0 <= q < ws.len() {
        numeral(ws[q])
    } else {
        None
    }
}

proof fn leaves_are_counted(ty: IrType)
    ensures
        leaves(ty) >= 0,
    decreases ty,
{
    if let IrType::Array(inner, n) = ty {
        leaves_are_counted(*inner);
        let e = leaves(*inner);
        assert(n * e >= 0) by (nonlinear_arith)
            requires
                n >= 0,
                e >= 0,
        ;
    }
}

/// Whether words are the numerals of the values from a position on.
spec fn are_values(ws: Seq<Seq<char>>, vals: Seq<i32>, pos: int, n: int) -> bool {
    ws.len() == n && forall|k: int|
        0 <= k < n ==> numeral(#[trigger] ws[k]) == Some(
            ir_to_koopa::value_at(vals, pos + k) as int,
        )
}

proof fn nested_is_read(ty: IrType, vals: Seq<i32>, pos: int)
    ensures
        ir_to_koopa::nested_init(ty, vals, pos).1 == pos + leaves(ty),
        are_values(words(ir_to_koopa::nested_init(ty, vals, pos).0), vals, pos, leaves(ty)),
    decreases ty, 0int,
{
    match ty {
        IrType::Array(inner, len) => {
            literals();
            items_are_read(*inner, len as int, vals, pos);
            let items = ir_to_koopa::nested_items(*inner, len as int, vals, pos).0;
            let s = text::join(items, ", "@);
            reading::words_of_gap("{"@);
            reading::words_of_two("{"@, s);
            gap_after("{"@ + s, "}"@);
            assert(words("{"@ + s + "}"@) =~= words(s));
        },
        _ => {
            let v = ir_to_koopa::value_at(vals, pos) as int;
            reading::numerals_denote(v);
            reading::words_of_word(text::dec_int(v));
        },
    }
}

proof fn items_are_read(inner: IrType, n: int, vals: Seq<i32>, pos: int)
    requires
        0 <= n,
    ensures
        ir_to_koopa::nested_items(inner, n, vals, pos).1 == pos + n * leaves(inner),
        ir_to_koopa::nested_items(inner, n, vals, pos).0.len() == n,
        are_values(
            words(text::join(ir_to_koopa::nested_items(inner, n, vals, pos).0, ", "@)),
            vals,
            pos,
            n * leaves(inner),
        ),
    decreases inner, n + 1,
{
    let e = leaves(inner);
    leaves_are_counted(inner);
    if n <= 0 {
        assert(0 * e == 0);
        assert(words(Seq::empty()) =~= Seq::<Seq<char>>::empty());
    } else {
        literals();
        let k = n - 1;
        items_are_read(inner, k, vals, pos);
        let (items, mid) = ir_to_koopa::nested_items(inner, k, vals, pos);
        nested_is_read(inner, vals, mid);
        let (item, end) = ir_to_koopa::nested_init(inner, vals, mid);
        let all = items.push(item);
        assert(n * e == k * e + e) by (nonlinear_arith)
            requires
                n == k + 1,
        ;
        assert(k * e >= 0) by (nonlinear_arith)
            requires
                k >= 0,
                e >= 0,
        ;
        assert(all.drop_last() =~= items);
        let front = text::join(items, ", "@);
        if k == 0 {
            assert(text::join(all, ", "@) == item);
            assert(words(item) =~= words(text::join(all, ", "@)));
        } else {
            gap_after(front, ", "@);
            reading::words_of_two(front + ", "@, item);
            assert(words(text::join(all, ", "@)) =~= words(front) + words(item));
        }
        let ws = words(text::join(all, ", "@));
        assert forall|j: int| 0 <= j < n * e implies numeral(#[trigger] ws[j]) == Some(
            ir_to_koopa::value_at(vals, pos + j) as int,
        ) by {
            if j >= k * e {
                assert(ws[j] == words(item)[j - k * e]);
            } else {
                assert(ws[j] == words(front)[j]);
            }
        }
    }
}

/// A shape has as many elements as its type has single values.
proof fn shape_has_leaves(ty: IrType, dims: Seq<i32>)
    requires
        global_values::has_shape(ty, dims),
        forall|i: int| 0 <= i < dims.len() ==> 0 <= #[trigger] dims[i],
    ensures
        leaves(ty) == global_values::elements(dims),
    decreases dims.len(),
{
    if dims.len() > 0 {
        let rest = dims.drop_first();
        assert forall|i: int| 0 <= i < rest.len() implies 0 <= #[trigger] rest[i] by {
            assert(rest[i] == dims[i + 1]);
        }
        if let IrType::Array(inner, len) = ty {
            shape_has_leaves(*inner, rest);
            crate::riscv_data::first_times_rest(dims);
        }
    }
}

/// Reading the text of a global variable gives its name, its type, and for each of its elements
/// what the element starts with.
#[verifier::rlimit(80)]
#[verifier::spinoff_prover]
pub proof fn variables_are_read(p: ProgV, n: int, dims: Seq<i32>)
    requires
        names_are_words(p),
        0 <= n < p.globals.len(),
        p.globals[n].name < p.global_names.len(),
        global_values::has_shape(p.globals[n].ty, dims),
        forall|i: int| 0 <= i < dims.len() ==> 0 <= #[trigger] dims[i],
    ensures
        ({
            let g = p.globals[n];
            let kind = words(ir::type_text(g.ty));
            let ws = words(ir_to_koopa::global_text(p, g));
            let values = ws.skip(4 + kind.len() as int);
            &&& ws.len() >= 4 + kind.len()
            &&& ws[0] == "global"@ && ws[1] == p.global_names[g.name as int] && ws[2] == "="@
                && ws[3] == "alloc"@
            &&& ws.subrange(4, 4 + kind.len() as int) == kind
            &&& forall|q: int|
                0 <= q < global_values::elements(dims) ==> #[trigger] initial(values, q) == Some(
                    global_values::start_value(p, n, q) as int,
                )
        }),
{
    literals();
    let g = p.globals[n];
    let name = p.global_names[g.name as int];
    let ty = ir::type_text(g.ty);
    let init = ir_to_koopa::init_text(g);
    let kind = words(ty);
    reading::words_of_word("global"@);
    gap_after("global"@, " "@);
    word_after("global "@, name);
    let x = "global "@ + name;
    gap_after(x, " "@);
    word_after(x + " "@, "="@);
    gap_after(x + " "@ + "="@, " "@);
    word_after(x + " "@ + "="@ + " "@, "alloc"@);
    gap_after(x + " "@ + "="@ + " "@ + "alloc"@, " "@);
    assert(x + " = alloc "@ =~= x + " "@ + "="@ + " "@ + "alloc"@ + " "@);
    let y = x + " = alloc "@;
    reading::words_of_two(y, ty);
    gap_after(y + ty, ", "@);
    reading::words_of_two(y + ty + ", "@, init);
    gap_after(y + ty + ", "@ + init, "\n"@);
    let ws = words(ir_to_koopa::global_text(p, g));
    let head = seq!["global"@, name, "="@, "alloc"@];
    assert(ws =~= head + kind + words(init));
    let values = ws.skip(4 + kind.len() as int);
    assert(values =~= words(init));
    assert(ws.subrange(4, 4 + kind.len() as int) =~= kind);
    shape_has_leaves(g.ty, dims);
    match g.init {
        InitV::Zero => {
            reading::words_of_word("zeroinit"@);
        },
        InitV::Values(vals) => {
            let e = leaves(g.ty);
            if vals.len() == 1 && g.ty == IrType::I32 {
                reading::numerals_denote(vals[0] as int);
                reading::words_of_word(text::dec_int(vals[0] as int));
            } else {
                nested_is_read(g.ty, vals, 0);
            }
            assert forall|q: int| 0 <= q < e implies #[trigger] initial(values, q) == Some(
                global_values::start_value(p, n, q) as int,
            ) by {
                assert(numeral(values[q]) == Some(ir_to_koopa::value_at(vals, q) as int));
                zero_is_no_numeral();
                if values == seq!["zeroinit"@] {
                    assert(values[0] == "zeroinit"@);
                }
            }
        },
    }
}

proof fn zero_is_no_numeral()
    ensures
        numeral("zeroinit"@) is None,
{
    reveal_strlit("zeroinit");
    assert("zeroinit"@[0] == 'z');
}

// ── Types ────────────────────────────────────────────────────────────────────

/// Whether a text is a type by the rules of Koopa IR.
pub open spec fn reads_type(s: Seq<char>, ty: IrType) -> bool
    decreases ty,
{
    match ty {
        IrType::I32 => s == "i32"@,
        IrType::Void => s == "void"@,
        IrType::Ptr(inner) => s.len() > 0 && s[0] == '*' && reads_type(s.skip(1), *inner),
        IrType::Array(inner, n) => exists|k: int|
            0 < k && k + 2 < s.len() && #[trigger] s[k] == ',' && s[k + 1] == ' ' && s[0] == '['
                && s.last() == ']' && reads_type(s.subrange(1, k), *inner) && numeral(
                s.subrange(k + 2, s.len() - 1),
            ) == Some(n as int),
    }
}

/// Reading the text of a type gives the type.
pub proof fn types_are_read(ty: IrType)
    ensures
        reads_type(ir::type_text(ty), ty),
    decreases ty,
{
    match ty {
        IrType::Ptr(inner) => {
            reveal_strlit("*");
            types_are_read(*inner);
            let s = ir::type_text(ty);
            assert(s.skip(1) =~= ir::type_text(*inner));
        },
        IrType::Array(inner, n) => {
            reveal_strlit("[");
            reveal_strlit("]");
            reveal_strlit(", ");
            types_are_read(*inner);
            reading::numerals_denote(n as int);
            let s = ir::type_text(ty);
            let t = ir::type_text(*inner);
            let d = text::dec_nat(n as nat);
            let k = 1 + t.len() as int;
            assert(s.subrange(1, k) =~= t);
            assert(s.subrange(k + 2, s.len() - 1) =~= d);
            assert(s[k] == ',' && s[k + 1] == ' ');
        },
        _ => {},
    }
}

// ── Lines ────────────────────────────────────────────────────────────────────

/// Whether a text is one line with its end.
spec fn is_line(s: Seq<char>) -> bool {
    s.len() > 0 && s.last() == '\n' && reading::in_line(s.drop_last())
}

proof fn in_line_two(x: Seq<char>, y: Seq<char>)
    requires
        reading::in_line(x),
        reading::in_line(y),
    ensures
        reading::in_line(x + y),
{
    assert forall|i: int| 0 <= i < (x + y).len() implies #[trigger] (x + y)[i] != '\n' by {
        if i < x.len() {
            assert((x + y)[i] == x[i]);
        } else {
            assert((x + y)[i] == y[i - x.len()]);
        }
    }
}

proof fn line_ends(x: Seq<char>)
    requires
        reading::in_line(x),
    ensures
        is_line(x + "\n"@),
{
    reveal_strlit("\n");
    assert((x + "\n"@).drop_last() =~= x);
}

proof fn words_are_in_line(w: Seq<char>)
    requires
        is_word(w),
    ensures
        reading::in_line(w),
{
    assert forall|i: int| 0 <= i < w.len() implies #[trigger] w[i] != '\n' by {
        assert(!reading::gap(w[i]));
    }
}

proof fn types_are_in_line(ty: IrType)
    ensures
        reading::in_line(ir::type_text(ty)),
    decreases ty,
{
    reveal_strlit("i32");
    reveal_strlit("void");
    reveal_strlit("*");
    reveal_strlit("[");
    reveal_strlit("]");
    reveal_strlit(", ");
    match ty {
        IrType::Ptr(inner) => {
            types_are_in_line(*inner);
            in_line_two("*"@, ir::type_text(*inner));
        },
        IrType::Array(inner, n) => {
            types_are_in_line(*inner);
            reading::numerals_denote(n as int);
            let t = ir::type_text(*inner);
            let d = text::dec_nat(n as nat);
            in_line_two("["@, t);
            in_line_two("["@ + t, ", "@);
            in_line_two("["@ + t + ", "@, d);
            in_line_two("["@ + t + ", "@ + d, "]"@);
        },
        _ => {},
    }
}

proof fn lists_are_in_line(items: Seq<Seq<char>>)
    requires
        forall|i: int| 0 <= i < items.len() ==> reading::in_line(#[trigger] items[i]),
    ensures
        reading::in_line(text::join(items, ", "@)),
    decreases items.len(),
{
    reveal_strlit(", ");
    if items.len() > 1 {
        let front = items.drop_last();
        assert forall|i: int| 0 <= i < front.len() implies reading::in_line(#[trigger] front[i]) by {
            assert(front[i] == items[i]);
        }
        lists_are_in_line(front);
        in_line_two(text::join(front, ", "@), ", "@);
        assert(reading::in_line(items[items.len() - 1]));
        in_line_two(text::join(front, ", "@) + ", "@, items.last());
    }
}

proof fn operands_are_in_line(p: ProgV, op: IrOperand)
    requires
        names_are_words(p),
    ensures
        reading::in_line(ir_to_koopa::op_text(p, op)),
{
    operands_are_read(p, op);
    words_are_in_line(ir_to_koopa::op_text(p, op));
}

proof fn two_ops_are_a_line(p: ProgV, dest: usize, op: Seq<char>, lhs: IrOperand, rhs: IrOperand)
    requires
        names_are_words(p),
        dest < p.local_names.len(),
        is_word(op),
    ensures
        is_line(ir_to_koopa::two_op_text(p, dest, op, lhs, rhs)),
{
    reveal_strlit("  ");
    reveal_strlit(" ");
    reveal_strlit(", ");
    reveal_strlit(" = ");
    let d = p.local_names[dest as int];
    words_are_in_line(d);
    words_are_in_line(op);
    operands_are_in_line(p, lhs);
    operands_are_in_line(p, rhs);
    let l = ir_to_koopa::op_text(p, lhs);
    let r = ir_to_koopa::op_text(p, rhs);
    in_line_two("  "@, d);
    in_line_two("  "@ + d, " = "@);
    in_line_two("  "@ + d + " = "@, op);
    in_line_two("  "@ + d + " = "@ + op, " "@);
    let x = "  "@ + d + " = "@ + op + " "@;
    in_line_two(x, l);
    in_line_two(x + l, ", "@);
    in_line_two(x + l + ", "@, r);
    line_ends(x + l + ", "@ + r);
}

proof fn calls_are_a_line(p: ProgV, x: Seq<char>, func: usize, args: Seq<IrOperand>)
    requires
        names_are_words(p),
        func < p.func_names.len(),
        reading::in_line(x),
    ensures
        is_line(x + ir_to_koopa::call_text(p, func, args)),
{
    reveal_strlit("call @");
    reveal_strlit("(");
    reveal_strlit(")");
    reveal_strlit(")\n");
    reveal_strlit("\n");
    let f = p.func_names[func as int];
    words_are_in_line(f);
    let items = args.map_values(|a: IrOperand| ir_to_koopa::op_text(p, a));
    assert forall|i: int| 0 <= i < items.len() implies reading::in_line(#[trigger] items[i]) by {
        operands_are_in_line(p, args[i]);
    }
    lists_are_in_line(items);
    let j = text::join(items, ", "@);
    in_line_two("call @"@, f);
    in_line_two("call @"@ + f, "("@);
    in_line_two("call @"@ + f + "("@, j);
    let y = "call @"@ + f + "("@ + j;
    in_line_two(y, ")"@);
    in_line_two(x, y + ")"@);
    line_ends(x + (y + ")"@));
    assert(x + (y + ")"@) + "\n"@ =~= x + ir_to_koopa::call_text(p, func, args));
}

/// Whether an instruction can be written on a line: inline assembly holds no line end.
pub open spec fn fits_line(i: InstV) -> bool {
    i matches InstV::Asm { code, .. } ==> reading::in_line(code)
}

proof fn comparison_is_a_line(p: ProgV, i: InstV)
    requires
        names_are_words(p),
        ir_to_koopa::inst_named(p, i),
        i is Icmp,
    ensures
        is_line(ir_to_koopa::inst_text(p, i)),
{
    literals();
    if let InstV::Icmp { dest, op, lhs, rhs } = i {
        two_ops_are_a_line(p, dest, ir::cmp_text(op), lhs, rhs);
    }
}

/// The text of an instruction is one line.
#[verifier::rlimit(80)]
#[verifier::spinoff_prover]
proof fn instructions_are_lines(p: ProgV, i: InstV)
    requires
        names_are_words(p),
        ir_to_koopa::inst_named(p, i),
        fits_line(i),
    ensures
        is_line(ir_to_koopa::inst_text(p, i)),
{
    literals();
    reveal_strlit("  ");
    reveal_strlit("\n");
    match i {
        InstV::Alloc { dest, ty } => {
            reveal_strlit(" = alloc ");
            let d = p.global_names[dest as int];
            words_are_in_line(d);
            types_are_in_line(ty);
            in_line_two("  "@, d);
            in_line_two("  "@ + d, " = alloc "@);
            in_line_two("  "@ + d + " = alloc "@, ir::type_text(ty));
            line_ends("  "@ + d + " = alloc "@ + ir::type_text(ty));
        },
        InstV::Load { dest, src } => {
            reveal_strlit(" = load ");
            let d = p.local_names[dest as int];
            words_are_in_line(d);
            operands_are_in_line(p, src);
            let s = ir_to_koopa::op_text(p, src);
            in_line_two("  "@, d);
            in_line_two("  "@ + d, " = load "@);
            in_line_two("  "@ + d + " = load "@, s);
            line_ends("  "@ + d + " = load "@ + s);
        },
        InstV::Store { value, ptr } => {
            reveal_strlit("  store ");
            reveal_strlit(", ");
            operands_are_in_line(p, value);
            operands_are_in_line(p, ptr);
            let v = ir_to_koopa::op_text(p, value);
            let a = ir_to_koopa::op_text(p, ptr);
            in_line_two("  store "@, v);
            in_line_two("  store "@ + v, ", "@);
            in_line_two("  store "@ + v + ", "@, a);
            line_ends("  store "@ + v + ", "@ + a);
        },
        InstV::Arith { dest, op, lhs, rhs } => {
            two_ops_are_a_line(p, dest, ir::arith_text(op), lhs, rhs);
        },
        InstV::GetPtr { dest, ptr, index, .. } => {
            two_ops_are_a_line(p, dest, "getptr"@, ptr, index);
        },
        InstV::GetElemPtr { dest, ptr, index, .. } => {
            two_ops_are_a_line(p, dest, "getelemptr"@, ptr, index);
        },
        InstV::Call { dest, func, args } => match dest {
            Some(d) => {
                reveal_strlit(" = ");
                let n = p.local_names[d as int];
                words_are_in_line(n);
                in_line_two("  "@, n);
                in_line_two("  "@ + n, " = "@);
                calls_are_a_line(p, "  "@ + n + " = "@, func, args);
            },
            None => calls_are_a_line(p, "  "@, func, args),
        },
        InstV::Br { cond, then_bb, else_bb } => {
            reveal_strlit("  br ");
            reveal_strlit(", ");
            operands_are_in_line(p, cond);
            let c = ir_to_koopa::op_text(p, cond);
            let a = p.block_names[then_bb as int];
            let b = p.block_names[else_bb as int];
            words_are_in_line(a);
            words_are_in_line(b);
            in_line_two("  br "@, c);
            in_line_two("  br "@ + c, ", "@);
            in_line_two("  br "@ + c + ", "@, a);
            in_line_two("  br "@ + c + ", "@ + a, ", "@);
            in_line_two("  br "@ + c + ", "@ + a + ", "@, b);
            line_ends("  br "@ + c + ", "@ + a + ", "@ + b);
        },
        InstV::Jump { target } => {
            reveal_strlit("  jump ");
            let a = p.block_names[target as int];
            words_are_in_line(a);
            in_line_two("  jump "@, a);
            line_ends("  jump "@ + a);
        },
        InstV::Ret { value: Some(v) } => {
            reveal_strlit("  ret ");
            operands_are_in_line(p, v);
            in_line_two("  ret "@, ir_to_koopa::op_text(p, v));
            line_ends("  ret "@ + ir_to_koopa::op_text(p, v));
        },
        InstV::Ret { value: None } => {
            reveal_strlit("  ret\n");
            reveal_strlit("  ret");
            line_ends("  ret"@);
            assert("  ret"@ + "\n"@ =~= "  ret\n"@);
        },
        InstV::Phi { .. } => {
            reveal_strlit("  // phi (unexpected)\n");
            reveal_strlit("  // phi (unexpected)");
            line_ends("  // phi (unexpected)"@);
            assert("  // phi (unexpected)"@ + "\n"@ =~= "  // phi (unexpected)\n"@);
        },
        InstV::Asm { code, .. } => {
            reveal_strlit("  // asm(\"");
            reveal_strlit("\")  ; not supported in Koopa IR\n");
            reveal_strlit("\")  ; not supported in Koopa IR");
            in_line_two("  // asm(\""@, code);
            in_line_two("  // asm(\""@ + code, "\")  ; not supported in Koopa IR"@);
            let s = "  // asm(\""@ + code + "\")  ; not supported in Koopa IR"@;
            line_ends(s);
            assert(s + "\n"@ =~= ir_to_koopa::inst_text(p, i));
        },
        _ => comparison_is_a_line(p, i),
    }
}

/// The lines of one line.
proof fn line_is_one(s: Seq<char>)
    requires
        is_line(s),
    ensures
        reading::lines(s) == seq![s.drop_last()],
        reading::whole_lines(s),
        words(s.drop_last()) == words(s),
{
    let l = s.drop_last();
    reading::lines_of_line(l);
    assert(l + seq!['\n'] =~= s);
    gap_after(l, seq!['\n']);
}

/// Whether lines are instructions, one on each.
pub open spec fn reads_all(p: ProgV, ls: Seq<Seq<char>>, instrs: Seq<InstV>) -> bool {
    ls.len() == instrs.len() && forall|k: int|
        0 <= k < instrs.len() ==> reads(p, words(#[trigger] ls[k]), instrs[k])
}

proof fn lists_of_instructions_are_read(p: ProgV, instrs: Seq<InstV>)
    requires
        names_are_words(p),
        forall|k: int|
            0 <= k < instrs.len() ==> ir_to_koopa::inst_named(p, #[trigger] instrs[k])
                && fits_line(instrs[k]) && !(instrs[k] is Phi),
    ensures
        reading::whole_lines(ir_to_koopa::insts_text(p, instrs)),
        reads_all(p, reading::lines(ir_to_koopa::insts_text(p, instrs)), instrs),
    decreases instrs.len(),
{
    if instrs.len() > 0 {
        let front = instrs.drop_last();
        assert forall|k: int| 0 <= k < front.len() implies ir_to_koopa::inst_named(
            p,
            #[trigger] front[k],
        ) && fits_line(front[k]) && !(front[k] is Phi) by {
            assert(front[k] == instrs[k]);
        }
        lists_of_instructions_are_read(p, front);
        let i = instrs.last();
        assert(i == instrs[instrs.len() - 1]);
        instructions_are_lines(p, i);
        let x = ir_to_koopa::insts_text(p, front);
        let y = ir_to_koopa::inst_text(p, i);
        line_is_one(y);
        reading::lines_of_two(x, y);
        if !(i is Asm) {
            instructions_are_read(p, i);
        }
        let ls = reading::lines(x + y);
        assert(ls =~= reading::lines(x).push(y.drop_last()));
        assert forall|k: int| 0 <= k < instrs.len() implies reads(
            p,
            words(#[trigger] ls[k]),
            instrs[k],
        ) by {
            if k < front.len() {
                assert(ls[k] == reading::lines(x)[k]);
                assert(front[k] == instrs[k]);
            }
        }
    }
}

/// How many lines the first `k` blocks of a function take, each with its label.
pub open spec fn lines_before(blocks: Seq<BlockV>, k: int) -> int
    decreases k,
{
    if k <= 0 {
        0
    } else {
        lines_before(blocks, k - 1) + 1 + ir_to_koopa::written(blocks, k - 1).len()
    }
}

/// Whether lines are blocks from an index on: each starts with its label, and its instructions
/// follow.
pub open spec fn reads_blocks(
    p: ProgV,
    ls: Seq<Seq<char>>,
    from: int,
    blocks: Seq<BlockV>,
    n: int,
) -> bool {
    forall|k: int|
        0 <= k < n ==> {
            let at = from + lines_before(blocks, k);
            let code = ir_to_koopa::written(blocks, k);
            &&& 0 <= at && at + 1 + code.len() <= ls.len()
            &&& ls[at] == p.block_names[(#[trigger] blocks[k]).label as int] + ":"@
            &&& reads_all(p, ls.subrange(at + 1, at + 1 + code.len()), code)
        }
}

/// Whether the instructions that are written for a block can be.
pub open spec fn can_write(p: ProgV, blocks: Seq<BlockV>, k: int) -> bool {
    &&& blocks[k].label < p.block_names.len()
    &&& forall|i: int|
        0 <= i < ir_to_koopa::written(blocks, k).len() ==> ir_to_koopa::inst_named(
            p,
            #[trigger] ir_to_koopa::written(blocks, k)[i],
        ) && fits_line(ir_to_koopa::written(blocks, k)[i])
}

#[verifier::rlimit(80)]
#[verifier::spinoff_prover]
proof fn blocks_are_read(p: ProgV, blocks: Seq<BlockV>, n: int)
    requires
        names_are_words(p),
        0 <= n <= blocks.len(),
        forall|k: int| 0 <= k < blocks.len() ==> can_write(p, blocks, k) && (#[trigger] blocks[k]).label
            < p.block_names.len(),
    ensures
        reading::whole_lines(ir_to_koopa::blocks_text(p, blocks, n)),
        reading::lines(ir_to_koopa::blocks_text(p, blocks, n)).len() == lines_before(blocks, n),
        reads_blocks(p, reading::lines(ir_to_koopa::blocks_text(p, blocks, n)), 0, blocks, n),
    decreases n,
{
    if n > 0 {
        let k = n - 1;
        blocks_are_read(p, blocks, k);
        assert(blocks[k].label < p.block_names.len());
        let name = p.block_names[blocks[k].label as int];
        let code = ir_to_koopa::written(blocks, k);
        ir_to_koopa::written_has_no_phi(blocks, k);
        assert(can_write(p, blocks, k));
        lists_of_instructions_are_read(p, code);
        reveal_strlit(":");
        reveal_strlit(":\n");
        reveal_strlit("\n");
        words_are_in_line(name);
        in_line_two(name, ":"@);
        line_ends(name + ":"@);
        let label = name + ":\n"@;
        assert(name + ":"@ + "\n"@ =~= label);
        line_is_one(label);
        assert(label.drop_last() =~= name + ":"@);
        let x = ir_to_koopa::blocks_text(p, blocks, k);
        let z = ir_to_koopa::insts_text(p, code);
        reading::lines_of_two(x, label);
        assert((x + label).last() == label.last());
        reading::lines_of_two(x + label, z);
        let before = reading::lines(x);
        let tail = reading::lines(z);
        let ls = reading::lines(x + label + z);
        assert(ls =~= before + seq![name + ":"@] + tail);
        if z.len() > 0 {
            assert((x + label + z).last() == z.last());
        } else {
            assert(x + label + z =~= x + label);
        }
        assert forall|j: int| 0 <= j < n implies ({
            let at = lines_before(blocks, j);
            let c = ir_to_koopa::written(blocks, j);
            &&& 0 <= at && at + 1 + c.len() <= ls.len()
            &&& ls[at] == p.block_names[(#[trigger] blocks[j]).label as int] + ":"@
            &&& reads_all(p, ls.subrange(at + 1, at + 1 + c.len()), c)
        }) by {
            let at = lines_before(blocks, j);
            let c = ir_to_koopa::written(blocks, j);
            if j < k {
                assert(blocks[j].label < p.block_names.len());
                assert(ls[at] == before[at]);
                assert(ls.subrange(at + 1, at + 1 + c.len()) =~= before.subrange(
                    at + 1,
                    at + 1 + c.len(),
                ));
            } else {
                assert(ls.subrange(at + 1, at + 1 + c.len()) =~= tail);
            }
        }
    }
}

/// Reading the text of a function line by line gives its blocks: after the first line each block
/// starts with its label and goes on with its instructions, one on each line, and the last line
/// closes the function.
#[verifier::rlimit(80)]
#[verifier::spinoff_prover]
pub proof fn functions_are_read(p: ProgV, f: FuncV)
    requires
        names_are_words(p),
        f.name < p.func_names.len(),
        forall|k: int| 0 <= k < f.params.len() ==> (#[trigger] f.params[k]).0 < p.global_names.len(),
        forall|k: int|
            0 <= k < f.blocks.len() ==> can_write(p, f.blocks, k) && (#[trigger] f.blocks[k]).label
                < p.block_names.len(),
    ensures
        ({
            let ls = reading::lines(ir_to_koopa::func_text(p, f));
            let n = f.blocks.len() as int;
            &&& ls.len() == lines_before(f.blocks, n) + 2
            &&& ls.last() == "}"@
            &&& reads_blocks(p, ls, 1, f.blocks, n)
        }),
{
    let n = f.blocks.len() as int;
    blocks_are_read(p, f.blocks, n);
    reveal_strlit("fun @");
    reveal_strlit("(");
    reveal_strlit(")");
    reveal_strlit(": ");
    reveal_strlit(" {");
    reveal_strlit(" {\n");
    reveal_strlit("\n");
    reveal_strlit("}");
    reveal_strlit("}\n");
    let name = p.func_names[f.name as int];
    words_are_in_line(name);
    let items = f.params.map_values(
        |q: (usize, IrType)| p.global_names[q.0 as int] + ": "@ + ir::type_text(q.1),
    );
    assert forall|k: int| 0 <= k < items.len() implies reading::in_line(#[trigger] items[k]) by {
        let q = f.params[k];
        words_are_in_line(p.global_names[q.0 as int]);
        types_are_in_line(q.1);
        in_line_two(p.global_names[q.0 as int], ": "@);
        in_line_two(p.global_names[q.0 as int] + ": "@, ir::type_text(q.1));
    }
    lists_are_in_line(items);
    let ps = ir_to_koopa::params_text(p, f.params);
    let ret = ir_to_koopa::ret_text(f.ret_type);
    types_are_in_line(f.ret_type);
    if !(f.ret_type is Void) {
        in_line_two(": "@, ir::type_text(f.ret_type));
    }
    in_line_two("fun @"@, name);
    in_line_two("fun @"@ + name, "("@);
    in_line_two("fun @"@ + name + "("@, ps);
    in_line_two("fun @"@ + name + "("@ + ps, ")"@);
    let a = "fun @"@ + name + "("@ + ps + ")"@;
    in_line_two(a, ret);
    in_line_two(a + ret, " {"@);
    line_ends(a + ret + " {"@);
    let head = a + ret + " {\n"@;
    assert(a + ret + " {"@ + "\n"@ =~= head);
    line_is_one(head);
    line_ends("}"@);
    assert("}"@ + "\n"@ =~= "}\n"@);
    line_is_one("}\n"@);
    assert("}\n"@.drop_last() =~= "}"@);
    let body = ir_to_koopa::blocks_text(p, f.blocks, n);
    reading::lines_of_two(head, body);
    if body.len() > 0 {
        assert((head + body).last() == body.last());
    } else {
        assert(head + body =~= head);
    }
    reading::lines_of_two(head + body, "}\n"@);
    let ls = reading::lines(ir_to_koopa::func_text(p, f));
    let inner = reading::lines(body);
    assert(ls =~= seq![head.drop_last()] + inner + seq!["}"@]);
    assert forall|k: int| 0 <= k < n implies ({
        let at = 1 + lines_before(f.blocks, k);
        let c = ir_to_koopa::written(f.blocks, k);
        &&& 0 <= at && at + 1 + c.len() <= ls.len()
        &&& ls[at] == p.block_names[(#[trigger] f.blocks[k]).label as int] + ":"@
        &&& reads_all(p, ls.subrange(at + 1, at + 1 + c.len()), c)
    }) by {
        let at = lines_before(f.blocks, k);
        let c = ir_to_koopa::written(f.blocks, k);
        assert(ls[at + 1] == inner[at]);
        assert(ls.subrange(at + 2, at + 2 + c.len()) =~= inner.subrange(at + 1, at + 1 + c.len()));
    }
}

} // verus!
