use crate::nodes::expr::{spanned_view, Expr, ExprV};
use crate::span::{Span, Spanned};
use vstd::prelude::*;

verus! {

/// A function definition: its ordered parameter names and its body.
#[derive(Debug, PartialEq)]
pub struct Func {
    pub args: Vec<String>,
    pub body: Spanned<Expr>,
}

/// The mathematical image of a function definition.
pub struct FuncV {
    pub args: Seq<Seq<char>>,
    pub body: (ExprV, Span),
}

/// The image of a list of parameter names.
pub open spec fn names_view(ps: Seq<String>) -> Seq<Seq<char>> {
    ps.map_values(|a: String| a@)
}

/// The image of a function definition.
pub open spec fn func_view(f: Func) -> FuncV {
    FuncV { args: names_view(f.args@), body: spanned_view(f.body) }
}

/// The image of a list of named definitions.
pub open spec fn entries_view(es: Seq<(String, Func)>) -> Seq<(Seq<char>, FuncV)> {
    es.map_values(|p: (String, Func)| (p.0@, func_view(p.1)))
}

/// The program's function table: a mapping from function name to definition,
/// built once by the parser (in source order, names unique) and treated as
/// immutable for the duration of one evaluation.
#[derive(Debug)]
pub struct FuncTable {
    entries: Vec<(String, Func)>,
}

/// Looks a name up in a sequence of named definitions: the first entry whose
/// name matches, if any.
pub open spec fn table_lookup(t: Seq<(Seq<char>, FuncV)>, name: Seq<char>) -> Option<FuncV>
    decreases t.len(),
{
    if t.len() == 0 {
        None
    } else if t[0].0 == name {
        Some(t[0].1)
    } else {
        table_lookup(t.drop_first(), name)
    }
}

impl View for FuncTable {
    type V = Seq<(Seq<char>, FuncV)>;

    closed spec fn view(&self) -> Seq<(Seq<char>, FuncV)> {
        entries_view(self.entries@)
    }
}

impl FuncTable {
    /// Wraps a list of named definitions, in order, as a function table.
    pub fn from_entries(entries: Vec<(String, Func)>) -> (t: FuncTable)
        ensures
            t@ == entries_view(entries@),
    {
        FuncTable { entries }
    }

    /// The number of definitions.
    pub fn len(&self) -> (n: usize)
        ensures
            n == self@.len(),
    {
        self.entries.len()
    }

    /// The definition under `name`, if any.
    pub fn get(&self, name: &str) -> (r: Option<&Func>)
        ensures
            match table_lookup(self@, name@) {
                Some(fv) => r matches Some(f) && func_view(*f) == fv,
                None => r is None,
            },
    {
        let owned = name.to_owned();
        let n = self.entries.len();
        proof {
            assert(self@.subrange(0, n as int) =~= self@);
        }
        let mut idx: usize = 0;
        while idx < n
            invariant
                n == self.entries.len(),
                n == self@.len(),
                owned@ == name@,
                0 <= idx <= n,
                table_lookup(self@, name@) == table_lookup(
                    self@.subrange(idx as int, n as int),
                    name@,
                ),
            decreases n - idx,
        {
            proof {
                assert(self@[idx as int] == (
                    self.entries@[idx as int].0@,
                    func_view(self.entries@[idx as int].1),
                ));
                assert(self@.subrange(idx as int, n as int)[0] == self@[idx as int]);
                assert(self@.subrange(idx as int, n as int).drop_first() =~= self@.subrange(
                    idx as int + 1,
                    n as int,
                ));
            }
            if self.entries[idx].0 == owned {
                return Some(&self.entries[idx].1);
            }
            idx = idx + 1;
        }
        None
    }

    /// Whether `name` is defined.
    pub fn contains(&self, name: &str) -> (r: bool)
        ensures
            r == (table_lookup(self@, name@) is Some),
    {
        self.get(name).is_some()
    }
}

} // verus!
