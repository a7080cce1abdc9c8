use std::rc::Rc;

use brainfsym::ast::Prog;
use brainfsym::cached_solver::CachedSolver;
use brainfsym::path_group::PathGroup;

#[test]
/// Credit:
/// https://aodrulez.blogspot.com/2011/09/detailed-analysis-of-my-brainfuck.html
fn aodrulez_crackme() {
    let solver = CachedSolver::new();

    let prog = Prog::from_str(
        "Aodrulez's Brainfuck Crackme V1\
# -------------------------------------------------\
# (Its very Easy)\
>++++++++++[>++++++++>++++++++++>+++++++++++>++++++\
+++++>++++++++++>+++++++++++>+++>++++++>+++><<<<<<<\
<<<-]>+++>+>++++>----->--->-->++>-->++><<<<<<<<<<>.\
>.>.>.>.>.>.>.>.>,>,>,>,>,>,<[>-<-]#>[>+++>++++++>+\
+++>+++>+++++++>+++++++++++>+++++++++++>++++++++++>\
+++++++++++>++++++++++>++++++++++++>++++++++++++>++\
+++++++++>++++++++++>++++++++++++>+++++++++++>+++++\
++++++>+++++++++++>++++++++++++>+++++>+++><<<<<<<<<\
<<<<<<<<<<<<<-]>++>-->+>++>--->+>>+++>++++>--->----\
>--->-->--->---->----->+>>----->---->++><<<<<<<<<<<\
<<<<<<<<<<<>.>.>.>.>.>.>.>.>.>.>.>.>.>.>.>.>.>.>.>.>.",
    )
    .unwrap();
    let mut path_group = PathGroup::make_entry(Rc::new(prog), 64, solver);
    let res = path_group
        .explore_until_output(b"Serial :  :) Congratulations.", 50_000_000)
        .unwrap();

    // Constraints for keygen
    assert_eq!(res.input.len(), 6);
    assert_eq!(res.input[4] + 10, res.input[5]);
}
