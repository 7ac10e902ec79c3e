//! What memory holds at the symbols of global variables when a program starts.

use crate::frame;
use crate::global_values;
use crate::ir::{GlobalV, InitV, IrType, ProgV};
use crate::ir_to_riscv;
use crate::reading::{self, is_word, lines, numeral, words};
use crate::riscv_reading;
use crate::text;
use vstd::prelude::*;

verus! {

/// The words of memory that a line of data stands for: `.word` gives one, `.zero` as many zeros as
/// fill the bytes it names.
pub open spec fn line_words(s: Seq<char>) -> Seq<int> {
    let ws = words(s);
    if ws.len() == 2 && ws[0] == ".word"@ && numeral(ws[1]) is Some {
        seq![numeral(ws[1])->0]
    } else if ws.len() == 2 && ws[0] == ".zero"@ && numeral(ws[1]) is Some {
        Seq::new((numeral(ws[1])->0 / 4) as nat, |i: int| 0int)
    } else {
        Seq::empty()
    }
}

/// The words of memory that lines of data stand for, one line after another.
pub open spec fn image(ls: Seq<Seq<char>>) -> Seq<int>
    decreases ls.len(),
{
    if ls.len() == 0 {
        Seq::empty()
    } else {
        image(ls.drop_last()) + line_words(ls.last())
    }
}

proof fn directives()
    ensures
        ".word"@ != ".zero"@,
        is_word(".word"@) && is_word(".zero"@),
        "\n  .word "@ =~= seq!['\n'] + "  "@ + ".word"@ + " "@,
        "\n  .zero "@ =~= seq!['\n'] + "  "@ + ".zero"@ + " "@,
        "  "@ =~= seq![' ', ' '] && " "@ =~= seq![' '] && "\n"@ =~= seq!['\n'] && ":"@ =~= seq![':'],
{
    reveal_strlit(".word");
    reveal_strlit(".zero");
    reveal_strlit("\n  .word ");
    reveal_strlit("\n  .zero ");
    reveal_strlit("  ");
    reveal_strlit(" ");
    reveal_strlit("\n");
    reveal_strlit(":");
    assert(".word"@[1] == 'w' && ".zero"@[1] == 'z');
}

/// A line of a directive and a number.
proof fn directive_is_read(d: Seq<char>, n: int)
    requires
        is_word(d),
    ensures
        words("  "@ + d + " "@ + text::dec_int(n)) == seq![d, text::dec_int(n)],
        reading::in_line("  "@ + d + " "@ + text::dec_int(n)),
        numeral(text::dec_int(n)) == Some(n),
{
    directives();
    reading::numerals_denote(n);
    riscv_reading::words_are_in_line(d);
    let v = text::dec_int(n);
    reading::words_of_gap("  "@);
    reading::word_after("  "@, d);
    reading::gap_after("  "@ + d, " "@);
    reading::word_after("  "@ + d + " "@, v);
    let s = "  "@ + d + " "@ + v;
    assert(words(s) =~= seq![d, v]);
    assert forall|i: int| 0 <= i < s.len() implies #[trigger] s[i] != '\n' by {
        if 2 <= i < 2 + d.len() {
            assert(s[i] == d[i - 2]);
        } else if i >= 3 + d.len() {
            assert(s[i] == v[i - 3 - d.len()]);
        }
    }
}

/// The lines of a variable with its first `n` values.
proof fn values_are_read(name: Seq<char>, vals: Seq<i32>, n: int)
    requires
        is_word(name),
        0 <= n <= vals.len(),
    ensures
        ({
            let ls = lines(name + ":"@ + ir_to_riscv::words(vals, n) + "\n"@);
            &&& ls.len() == n + 1
            &&& ls[0] == name + ":"@
            &&& image(ls.skip(1)).len() == n
            &&& forall|i: int| 0 <= i < n ==> #[trigger] image(ls.skip(1))[i] == vals[i]
        }),
    decreases n,
{
    directives();
    riscv_reading::words_are_in_line(name);
    if n == 0 {
        let s = name + ":"@;
        assert(reading::in_line(s)) by {
            assert forall|i: int| 0 <= i < s.len() implies #[trigger] s[i] != '\n' by {
                if i < name.len() {
                    assert(s[i] == name[i]);
                }
            }
        }
        reading::lines_of_line(s);
        assert(name + ":"@ + ir_to_riscv::words(vals, 0) + "\n"@ =~= s + seq!['\n']);
        assert(lines(s + seq!['\n']).skip(1) =~= Seq::empty());
    } else {
        let k = n - 1;
        values_are_read(name, vals, k);
        let x = name + ":"@ + ir_to_riscv::words(vals, k) + "\n"@;
        let v = vals[k] as int;
        let s = "  "@ + ".word"@ + " "@ + text::dec_int(v);
        directive_is_read(".word"@, v);
        let all = name + ":"@ + ir_to_riscv::words(vals, n) + "\n"@;
        assert(all =~= x + (s + seq!['\n']));
        assert(x.last() == '\n');
        reading::lines_of_two(x, s + seq!['\n']);
        reading::lines_of_line(s);
        let before = lines(x);
        let ls = lines(all);
        assert(ls =~= before.push(s));
        assert(ls.skip(1).drop_last() =~= before.skip(1));
        assert(ls.skip(1).last() == s);
        assert(line_words(s) =~= seq![v]);
        assert forall|i: int| 0 <= i < n implies #[trigger] image(ls.skip(1))[i] == vals[i] by {
            if i < k {
                assert(image(ls.skip(1))[i] == image(before.skip(1))[i]);
            }
        }
    }
}

/// The size of a shape in words.
proof fn shape_has_size(ty: IrType, dims: Seq<i32>)
    requires
        global_values::has_shape(ty, dims),
        forall|i: int| 0 <= i < dims.len() ==> 0 <= #[trigger] dims[i],
    ensures
        frame::type_size(ty) matches Some(n) ==> n == 4 * global_values::elements(dims),
    decreases dims.len(),
{
    if dims.len() > 0 {
        let rest = dims.drop_first();
        assert forall|i: int| 0 <= i < rest.len() implies 0 <= #[trigger] rest[i] by {
            assert(rest[i] == dims[i + 1]);
        }
        if let IrType::Array(inner, len) = ty {
            shape_has_size(*inner, rest);
            first_times_rest(dims);
            if let Some(s) = frame::type_size(*inner) {
                let e = global_values::elements(rest);
                assert(s * len == 4 * (len * e)) by (nonlinear_arith)
                    requires
                        s == 4 * e,
                ;
            }
        }
    }
}

/// The number of elements is that of a row times the number of rows.
pub proof fn first_times_rest(dims: Seq<i32>)
    requires
        dims.len() > 0,
    ensures
        global_values::elements(dims) == dims[0] * global_values::elements(dims.drop_first()),
    decreases dims.len(),
{
    let rest = dims.drop_first();
    if dims.len() == 1 {
        assert(dims.drop_last() =~= Seq::empty());
        assert(rest =~= Seq::empty());
        assert(global_values::elements(dims.drop_last()) == 1);
        assert(global_values::elements(rest) == 1);
    } else {
        first_times_rest(dims.drop_last());
        assert(dims.drop_last().drop_first() =~= rest.drop_last());
        assert(dims.drop_last()[0] == dims[0]);
        assert(rest.last() == dims.last());
        let a = dims[0] as int;
        let b = global_values::elements(rest.drop_last());
        let c = dims.last() as int;
        assert((a * b) * c == a * (b * c)) by (nonlinear_arith);
    }
}

/// The data of a global variable: its symbol, and from there on a word for each of its elements,
/// which is what the element starts with.
pub proof fn variables_are_laid_out(p: ProgV, n: int, dims: Seq<i32>)
    requires
        0 <= n < p.globals.len(),
        p.globals[n].name < p.global_names.len(),
        is_word(ir_to_riscv::bare(p.global_names[p.globals[n].name as int])),
        global_values::has_shape(p.globals[n].ty, dims),
        forall|i: int| 0 <= i < dims.len() ==> 0 <= #[trigger] dims[i],
        ir_to_riscv::global_ready(p, p.globals[n]),
        p.globals[n].init matches InitV::Values(vals) ==> vals.len() == global_values::elements(
            dims,
        ),
    ensures
        ({
            let ls = lines(ir_to_riscv::global_data(p, p.globals[n]));
            let name = ir_to_riscv::bare(p.global_names[p.globals[n].name as int]);
            &&& ls.len() > 0
            &&& ls[0] == name + ":"@
            &&& image(ls.skip(1)).len() == global_values::elements(dims)
            &&& forall|q: int|
                0 <= q < global_values::elements(dims) ==> #[trigger] image(ls.skip(1))[q]
                    == global_values::start_value(p, n, q)
        }),
{
    directives();
    let g = p.globals[n];
    let name = ir_to_riscv::bare(p.global_names[g.name as int]);
    match g.init {
        InitV::Values(vals) => {
            values_are_read(name, vals, vals.len() as int);
        },
        InitV::Zero => {
            shape_has_size(g.ty, dims);
            let size = frame::type_size(g.ty)->0;
            values_are_read(name, Seq::empty(), 0);
            assert(ir_to_riscv::words(Seq::empty(), 0) =~= Seq::empty());
            let x = name + ":"@ + ir_to_riscv::words(Seq::empty(), 0) + "\n"@;
            directive_is_read(".zero"@, size as int);
            reading::numerals_denote(size as int);
            let s = "  "@ + ".zero"@ + " "@ + text::dec_int(size as int);
            let all = ir_to_riscv::global_data(p, g);
            assert(all =~= x + (s + seq!['\n']));
            assert(x.last() == '\n');
            reading::lines_of_two(x, s + seq!['\n']);
            reading::lines_of_line(s);
            let ls = lines(all);
            assert(ls =~= lines(x).push(s));
            assert(ls.skip(1) =~= seq![s]);
            assert(ls.skip(1).drop_last() =~= Seq::empty());
            assert(image(ls.skip(1).drop_last()) =~= Seq::empty());
            assert(image(ls.skip(1)) =~= line_words(s));
        },
    }
}

} // verus!
