//! Include directives: the formulae of a problem with those of the files
//! that it includes.
use crate::tptp_parser::ast::{
    entries, entry_view, formula_entries, formula_entry, texts, AnnotatedFormula, EntryT,
    TptpInput,
};
use crate::tptp_parser::parser::{formula_name, include_selects, selected};
use vstd::prelude::*;

verus! {

/// The files that the entries include, in the order of the directives.
pub open spec fn included_files(es: Seq<EntryT>) -> Seq<Seq<char>>
    decreases es.len(),
{
    if es.len() == 0 {
        Seq::empty()
    } else {
        match es.last() {
            EntryT::Include(file, _) => included_files(es.drop_last()).push(file),
            _ => included_files(es.drop_last()),
        }
    }
}

/// The name of a formula; an include directive has none.
pub open spec fn entry_name(e: EntryT) -> Seq<char> {
    match e {
        EntryT::Clause(name, _, _) => name,
        EntryT::Formula(name, _, _) => name,
        EntryT::Include(_, _) => Seq::empty(),
    }
}

/// Whether a formula is taken from an included file: where names are
/// given, only a formula of one of these names.
pub open spec fn taken(e: EntryT, names: Option<Seq<Seq<char>>>) -> bool {
    match names {
        Some(list) => list.contains(entry_name(e)),
        None => true,
    }
}

/// The formulae that are taken from an included file, in their order.
pub open spec fn selection(fs: Seq<EntryT>, names: Option<Seq<Seq<char>>>) -> Seq<EntryT>
    decreases fs.len(),
{
    if fs.len() == 0 {
        fs
    } else if taken(fs.last(), names) {
        selection(fs.drop_last(), names).push(fs.last())
    } else {
        selection(fs.drop_last(), names)
    }
}

/// The formulae of a problem: its own formulae and, at the place of each
/// include directive, the formulae that are taken from the included file.
/// `included` holds, for each directive in turn, the formulae of its file.
pub open spec fn gathered(es: Seq<EntryT>, included: Seq<Seq<EntryT>>) -> Seq<EntryT>
    decreases es.len(),
{
    if es.len() == 0 {
        Seq::empty()
    } else {
        match es.last() {
            EntryT::Include(_, names) => gathered(es.drop_last(), included.drop_last())
                + selection(included.last(), names),
            e => gathered(es.drop_last(), included).push(e),
        }
    }
}

/// The values of the formulae of several files.
pub open spec fn nested(v: Seq<Vec<AnnotatedFormula>>) -> Seq<Seq<EntryT>> {
    Seq::new(v.len(), |i: int| formula_entries(v[i]@))
}

/// The names of the files that the entries include, in the order of the
/// directives.
pub fn include_paths(inputs: &Vec<TptpInput>) -> (paths: Vec<String>)
    ensures
        texts(paths@) == included_files(entries(inputs@)),
{
    let ghost es = entries(inputs@);
    let mut paths: Vec<String> = Vec::new();
    let n = inputs.len();
    let mut i: usize = 0;
    proof {
        assert(texts(paths@) =~= included_files(es.take(0)));
    }
    while i < n
        invariant
            0 <= i <= n,
            n == inputs@.len(),
            es == entries(inputs@),
            texts(paths@) == included_files(es.take(i as int)),
        decreases n - i,
    {
        proof {
            assert(es.take(i as int + 1).drop_last() =~= es.take(i as int));
            assert(es.take(i as int + 1).last() == es[i as int]);
        }
        match &inputs[i] {
            TptpInput::Incl(incl) => {
                let ghost before = texts(paths@);
                paths.push(incl.0.clone());
                proof {
                    assert(texts(paths@) =~= before.push(incl.0@));
                }
            },
            TptpInput::AnnForm(_) => {},
        }
        i += 1;
    }
    proof {
        assert(es.take(n as int) =~= es);
    }
    paths
}

/// Adds the formulae that are taken from an included file.
fn take_selected(
    out: &mut Vec<AnnotatedFormula>,
    file: &Vec<AnnotatedFormula>,
    names: &Option<Vec<String>>,
)
    ensures
        formula_entries(final(out)@) == formula_entries(old(out)@) + selection(
            formula_entries(file@),
            match names {
                Some(list) => Some(texts(list@)),
                None => None,
            },
        ),
{
    let ghost start = formula_entries(out@);
    let ghost fs = formula_entries(file@);
    let ghost wanted = match names {
        Some(list) => Some(texts(list@)),
        None => None,
    };
    let n = file.len();
    let mut i: usize = 0;
    proof {
        assert(formula_entries(out@) =~= start + selection(fs.take(0), wanted));
    }
    while i < n
        invariant
            0 <= i <= n,
            n == file@.len(),
            fs == formula_entries(file@),
            wanted == match names {
                Some(list) => Some(texts(list@)),
                None => None,
            },
            formula_entries(out@) == start + selection(fs.take(i as int), wanted),
        decreases n - i,
    {
        proof {
            assert(fs.take(i as int + 1).drop_last() =~= fs.take(i as int));
            assert(fs.take(i as int + 1).last() == fs[i as int]);
            if let Some(list) = names {
                if selected(file@[i as int], list@) {
                    let k = choose|k: int|
                        0 <= k < list@.len() && (#[trigger] list@[k])@ == formula_name(
                            file@[i as int],
                        );
                    assert(texts(list@)[k] == entry_name(fs[i as int]));
                }
                if texts(list@).contains(entry_name(fs[i as int])) {
                    let k = choose|k: int|
                        0 <= k < texts(list@).len() && texts(list@)[k] == entry_name(
                            fs[i as int],
                        );
                    assert(list@[k]@ == formula_name(file@[i as int]));
                }
            }
        }
        if include_selects(&file[i], names) {
            let ghost before = formula_entries(out@);
            out.push(file[i].clone());
            proof {
                assert(formula_entries(out@) =~= before.push(fs[i as int]));
                assert(formula_entries(out@) =~= start + selection(
                    fs.take(i as int + 1),
                    wanted,
                ));
            }
        }
        i += 1;
    }
    proof {
        assert(fs.take(n as int) =~= fs);
    }
}

/// Puts the formulae of a problem together: its own formulae and, at the
/// place of each include directive, the formulae that are taken from the
/// included file. `included` holds, for each directive in turn, the
/// formulae of its file.
pub fn gather(inputs: &Vec<TptpInput>, included: &Vec<Vec<AnnotatedFormula>>) -> (r: Vec<
    AnnotatedFormula,
>)
    requires
        included@.len() == included_files(entries(inputs@)).len(),
    ensures
        formula_entries(r@) == gathered(entries(inputs@), nested(included@)),
{
    let ghost es = entries(inputs@);
    let ghost inc = nested(included@);
    let mut out: Vec<AnnotatedFormula> = Vec::new();
    let n = inputs.len();
    let files = included.len();
    let mut i: usize = 0;
    let mut k: usize = 0;
    proof {
        assert(formula_entries(out@) =~= gathered(es.take(0), inc.take(0)));
    }
    while i < n
        invariant
            0 <= i <= n,
            n == inputs@.len(),
            es == entries(inputs@),
            inc == nested(included@),
            included@.len() == included_files(es).len(),
            k == included_files(es.take(i as int)).len(),
            k <= files,
            files == included@.len(),
            formula_entries(out@) == gathered(es.take(i as int), inc.take(k as int)),
        decreases n - i,
    {
        proof {
            assert(es.take(i as int + 1).drop_last() =~= es.take(i as int));
            assert(es.take(i as int + 1).last() == es[i as int]);
            lemma_included_files_take(es, i as int + 1);
        }
        match &inputs[i] {
            TptpInput::AnnForm(f) => {
                let ghost before = formula_entries(out@);
                out.push(f.clone());
                proof {
                    assert(formula_entries(out@) =~= before.push(es[i as int]));
                }
            },
            TptpInput::Incl(incl) => {
                proof {
                    assert(inc.take(k as int + 1).drop_last() =~= inc.take(k as int));
                    assert(inc.take(k as int + 1).last() == inc[k as int]);
                }
                proof {
                    assert(included_files(es.take(i as int + 1)).len() == k + 1);
                }
                take_selected(&mut out, &included[k], &incl.1);
                k = k + 1;
            },
        }
        i += 1;
    }
    proof {
        assert(es.take(n as int) =~= es);
        assert(inc.take(k as int) =~= inc);
    }
    out
}

/// The first entries include no more files than all the entries.
pub proof fn lemma_included_files_take(es: Seq<EntryT>, i: int)
    requires
        0 <= i <= es.len(),
    ensures
        included_files(es.take(i)).len() <= included_files(es).len(),
    decreases es.len() - i,
{
    if i < es.len() {
        assert(es.take(i + 1).drop_last() =~= es.take(i));
        lemma_included_files_take(es, i + 1);
    } else {
        assert(es.take(i) =~= es);
    }
}

} // verus!
