//! The lifetime signatures of a module as text.
use vstd::prelude::*;
use crate::analysis::{
    ProgramLifetimes, analysis_of, assoc_get, distinct_keys, find_key,
    lemma_each_function_has_its_result, program_results,
};
use crate::ir::{Function, Module};
use crate::lifetimes::render;
use crate::text::{join, lemma_join_step, push_char};

verus! {

/// The line of one function: its signature, or a note that there is none.
pub open spec fn module_line(
    results: Seq<(Seq<char>, crate::lifetimes::FunctionLifetimesView)>,
    f: Function,
) -> Seq<char> {
    match assoc_get(results, f.name@) {
        Some(fl) => render(fl),
        None => "Unable to generate lifetimes for function "@ + f.name@,
    }
}

/// The lines of the functions of a module, in order, joined by line breaks
/// (`\r\n`).
pub open spec fn module_text(
    results: Seq<(Seq<char>, crate::lifetimes::FunctionLifetimesView)>,
    fs: Seq<Function>,
) -> Seq<char> {
    join(fs.map_values(|f: Function| module_line(results, f)), seq!['\r', '\n'])
}

/// The signature of each function of `module` as recorded in `pl`, one per
/// line; see [`module_text`].
pub fn pretty_print_module(pl: &mut ProgramLifetimes, module: &Module) -> (s: String)
    requires
        distinct_keys(old(pl)@),
    ensures
        final(pl)@ == old(pl)@,
        s@ == module_text(old(pl)@, module.functions@),
{
    let ghost results = pl@;
    let ghost lines = module.functions@.map_values(|f: Function| module_line(results, f));
    let mut out = String::new();
    let n = module.functions.len();
    proof {
        assert(lines.take(0) =~= Seq::<Seq<char>>::empty());
    }
    for i in 0..n
        invariant
            n == module.functions@.len(),
            results == pl@,
            distinct_keys(results),
            lines == module.functions@.map_values(|f: Function| module_line(results, f)),
            out@ == join(lines.take(i as int), seq!['\r', '\n']),
    {
        let func = &module.functions[i];
        let found = find_key(&pl.results, &func.name);
        let line = match found {
            Some(j) => {
                proof {
                    assert(results[j as int].0 == func.name@);
                    let c = choose|c: int| 0 <= c < results.len() && results[c].0 == func.name@;
                    assert(c == j);
                    assert(results[j as int].1 == pl.results@[j as int].1@);
                }
                pl.results[j].1.to_string()
            },
            None => {
                proof {
                    assert(forall|k: int| 0 <= k < results.len() ==> results[k].0 != func.name@);
                }
                let mut t = String::new();
                t.append("Unable to generate lifetimes for function ");
                t.append(func.name.as_str());
                t
            },
        };
        if i > 0 {
            push_char(&mut out, '\r');
            push_char(&mut out, '\n');
        }
        out.append(line.as_str());
        proof {
            assert(line@ == lines[i as int]);
            lemma_join_step(lines, seq!['\r', '\n'], i as int);
            assert(out@ =~= join(lines.take(i + 1), seq!['\r', '\n']));
        }
    }
    proof {
        assert(lines.take(n as int) =~= lines);
    }
    out
}

/// In the text of a module whose functions were analysed in turn, the line
/// of a function that no later function shares a name with is the text of
/// its own signature.
pub proof fn lemma_line_of_analysed_function(fs: Seq<Function>, i: int)
    requires
        0 <= i < fs.len(),
        forall|j: int| i < j < fs.len() ==> #[trigger] fs[j].name@ != fs[i].name@,
    ensures
        module_line(program_results(fs), fs[i]) == render(analysis_of(fs[i])->Some_0),
{
    lemma_each_function_has_its_result(fs, i);
}

} // verus!
