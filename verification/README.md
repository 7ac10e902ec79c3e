# A verified SysY compiler

A compiler from SysY, a small subset of C, to Koopa IR and to RISC-V assembly. Every function of
the library in `src/` has a contract that Verus proves; `app/` is the command line around it.

    compiler -koopa <input.sy> -o <output.koopa>
    compiler -riscv <input.sy> -o <output.s>

## From text to output

| Modules | What they do |
|---|---|
| `lexer`, `grammar`, `parser`, `ast` | From bytes to tokens and a syntax tree |
| `translate`, `ast_to_ir`, `ir_builder`, `scopes`, `eval` | From the tree to the intermediate representation |
| `ir`, `cfg`, `domtree`, `ssa`, `promotion` | The representation, its graph, and the promotion of variables to SSA values |
| `opt` | Constant folding, dead code elimination, value numbering, inlining, and the manager that runs them |
| `ir_to_koopa`, `ir_to_riscv`, `frame`, `leaf_code`, `reg_alloc` | Text from the representation; small functions that call none go without a frame |
| `koopa_text`, `koopa_gen`, `riscv_text`, `riscv_gen` | Text straight from the tree |
| `codegen`, `cli`, `error`, `text`, `names` | The pipeline, the command line, errors and strings |

Functions that produce something say what in terms of spec functions over sequences and maps;
where one comes with a separate model (`translate`, `promotion`, `koopa_text`, `riscv_text`,
`grammar`), the model stands in a module of its own.

## Laws

| Modules | What they show |
|---|---|
| `links`, `translation_links`, `pass_links` | Programs refer only to names, blocks and functions that are there; translated functions define no SSA value twice |
| `translation_blocks`, `pass_blocks` | Blocks end in one branch or return |
| `translation_flow` | In translated functions SSA values are used where their definitions dominate, and all blocks can be reached |
| `meaning` | What the instructions of a function do |
| `translation_meaning`, `statement_meaning`, `function_meaning` | The instructions of expressions, statements and functions do what these say |
| `pass_meaning`, `numbering_meaning` | Folding, elimination and numbering leave what a function does |
| `forwarding_meaning`, `promotion_meaning`, `promotion_lowering` | So does the promotion of variables, alone and with the lowering of its phis |
| `lowering_meaning`, `live_lowering` | So does the lowering of phis |
| `promoted_form`, `thinning` | Promotion leaves the form that passes take, and folding, elimination and numbering keep it |
| `inlining_meaning` | The body in place of a call does what the call does |
| `pipeline_meaning` | A compiled function does what the translated one does, and so what its source says |

Each law says under which conditions it holds:

- Folding asks for nothing. Elimination asks that blocks end in branches or returns.
- Numbering asks also that no SSA value is defined twice or used before its definition.
- Promotion asks that SSA values are used where their definitions dominate, that nothing leads to
  the entry, and that what is promoted is out of reach from outside and starts with no value.
- Lowering asks that each phi has one value from each block that leads to its own, and that the
  copies for it overwrite nothing that counts on another way.
- The whole way, from the source of a function to its compiled blocks, asks that each of its
  variables has a name of its own, that calls do what the functions with their names do, that the
  element at index zero of an array is where the array is, and that variables start at zero. It says
  nothing of a body that uses a variable without a value.

No call of a translated program carries the index of a function, so that the pipeline inlines
nothing; `opt::inline` serves programs whose calls do.

Every value of a function without a frame has a register (`leaf_code`), and the frontiers that phis
are placed by are those of dominance (`promotion_tree`).

`promotion_tree`, `promotion_phis`, `promotion_rename` and `promotion_values` hold the steps of the
proof about promotion.
