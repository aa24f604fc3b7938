//! The executor's decision logic: which commands of a parsed line are to be
//! spawned, in what order, and whether the session ends after the line. The
//! process work itself (fork, exec, wait) is OS territory and sits outside
//! the verified core; it receives the plan computed here.

use crate::lexer::{functions_model, Command, Function};
use crate::model::{spec_run_list, wants_quit, FunctionModel};
use vstd::prelude::*;

verus! {

/// The verdict on one input line: end the session or keep going.
#[derive(PartialEq, Eq, Debug)]
pub enum ToQuit {
    Quit,
    Continue,
}

/// Copies a command, field by field.
fn copy_command(c: &Command) -> (r: Command)
    ensures
        r.model() == c.model(),
{
    let mut arguments: Vec<String> = Vec::new();
    let mut k: usize = 0;
    proof {
        assert(arguments.deep_view() =~= c.arguments.deep_view().subrange(0, 0));
    }
    while k < c.arguments.len()
        invariant
            k <= c.arguments@.len(),
            arguments.deep_view() == c.arguments.deep_view().subrange(0, k as int),
        decreases c.arguments@.len() - k,
    {
        let ghost prev = arguments.deep_view();
        arguments.push(c.arguments[k].clone());
        proof {
            assert(arguments.deep_view() =~= prev.push(c.arguments@[k as int]@));
            assert(prev.push(c.arguments@[k as int]@) =~= c.arguments.deep_view().subrange(
                0,
                k as int + 1,
            ));
        }
        k += 1;
    }
    proof {
        assert(c.arguments.deep_view().subrange(0, k as int) =~= c.arguments.deep_view());
    }
    Command { progname: c.progname.clone(), arguments }
}

/// Decides what one parsed line asks of the operating system: the commands to
/// spawn, in directive order, and whether the session is to end once they
/// have all been dispatched and reaped. A termination directive anywhere in
/// the line sets the verdict to `Quit` and contributes no command.
pub fn plan_execution(functions: &Vec<Function>) -> (r: (Vec<Command>, ToQuit))
    ensures
        r.0@.map_values(|c: Command| c.model()) == spec_run_list(functions_model(functions@)),
        (r.1 == ToQuit::Quit) <==> wants_quit(functions_model(functions@)),
{
    let ghost fsm = functions_model(functions@);
    let mut commands: Vec<Command> = Vec::new();
    let mut quit_after_execution = false;
    let mut i: usize = 0;
    proof {
        assert(commands@.map_values(|c: Command| c.model()) + spec_run_list(fsm)
            =~= spec_run_list(fsm));
        assert(fsm.subrange(0, fsm.len() as int) =~= fsm);
    }
    while i < functions.len()
        invariant
            fsm == functions_model(functions@),
            i <= functions@.len(),
            commands@.map_values(|c: Command| c.model()) + spec_run_list(
                fsm.subrange(i as int, fsm.len() as int),
            ) == spec_run_list(fsm),
            quit_after_execution <==> wants_quit(fsm.subrange(0, i as int)),
        decreases functions@.len() - i,
    {
        let ghost prev = commands@.map_values(|c: Command| c.model());
        let ghost rest = fsm.subrange(i as int, fsm.len() as int);
        proof {
            assert(rest[0] == fsm[i as int]);
            assert(rest.drop_first() =~= fsm.subrange(i as int + 1, fsm.len() as int));
        }
        match &functions[i] {
            Function::Quit => {
                quit_after_execution = true;
                proof {
                    assert(fsm[i as int] is Quit);
                }
            },
            Function::ShellCommand(command) => {
                commands.push(copy_command(command));
                proof {
                    assert(fsm[i as int] == FunctionModel::Run(command.model()));
                    assert(commands@.map_values(|c: Command| c.model()) =~= prev + seq![
                        command.model(),
                    ]);
                    assert(prev + seq![command.model()] + spec_run_list(rest.drop_first())
                        =~= prev + spec_run_list(rest));
                }
            },
        }
        proof {
            let pre = fsm.subrange(0, i as int);
            let post = fsm.subrange(0, i as int + 1);
            if wants_quit(post) {
                let k = choose|k: int| 0 <= k < post.len() && post[k] is Quit;
                if k < i as int {
                    assert(pre[k] == post[k]);
                    assert(wants_quit(pre));
                } else {
                    assert(post[i as int] == fsm[i as int]);
                }
            }
            if wants_quit(pre) {
                let k = choose|k: int| 0 <= k < pre.len() && pre[k] is Quit;
                assert(post[k] == pre[k]);
                assert(wants_quit(post));
            }
            if fsm[i as int] is Quit {
                assert(post[i as int] is Quit);
                assert(wants_quit(post));
            }
        }
        i += 1;
    }
    proof {
        assert(fsm.subrange(i as int, fsm.len() as int) =~= Seq::<FunctionModel>::empty());
        assert(commands@.map_values(|c: Command| c.model()) + spec_run_list(
            Seq::<FunctionModel>::empty(),
        ) =~= commands@.map_values(|c: Command| c.model()));
        assert(fsm.subrange(0, i as int) =~= fsm);
    }
    let to_quit = if quit_after_execution {
        ToQuit::Quit
    } else {
        ToQuit::Continue
    };
    (commands, to_quit)
}

} // verus!
