use vstd::prelude::*;

verus! {

/// The native functions that the backend can bind a bodiless declaration
/// to, by name. Each name maps to the number of a native symbol, which the
/// backend resolves to the symbol itself.
pub struct FfiRegistry {
    pub functions: Vec<(String, usize)>,
}

/// The symbol registered under `name`: its last entry.
pub open spec fn symbol_of(e: Seq<(String, usize)>, name: Seq<char>) -> Option<usize>
    decreases e.len(),
{
    if e.len() == 0 {
        None
    } else if e.last().0@ == name {
        Some(e.last().1)
    } else {
        symbol_of(e.drop_last(), name)
    }
}

/// The symbol number of `putchard`, which prints a character.
pub const PUTCHARD: usize = 0;

/// The symbol number of `printd`, which prints a number on a line.
pub const PRINTD: usize = 1;

impl FfiRegistry {
    pub fn new() -> (r: Self)
        ensures
            symbol_of(r.functions@, "putchard"@) == Some(PUTCHARD),
            symbol_of(r.functions@, "printd"@) == Some(PRINTD),
            forall|n: Seq<char>|
                n != "putchard"@ && n != "printd"@ ==> #[trigger] symbol_of(r.functions@, n) is None,
    {
        let mut functions: Vec<(String, usize)> = Vec::new();
        functions.push(("putchard".to_owned(), PUTCHARD));
        functions.push(("printd".to_owned(), PRINTD));
        let r = FfiRegistry { functions };
        proof {
            reveal_strlit("putchard");
            reveal_strlit("printd");
            assert("putchard"@.len() != "printd"@.len());
            reveal_with_fuel(symbol_of, 3);
        }
        r
    }

    pub fn get(&self, name: &str) -> (r: Option<usize>)
        ensures
            r == symbol_of(self.functions@, name@),
    {
        let key = name.to_owned();
        let mut i = self.functions.len();
        assert(self.functions@.take(i as int) =~= self.functions@);
        while i > 0
            invariant
                i <= self.functions@.len(),
                key@ == name@,
                symbol_of(self.functions@, name@) == symbol_of(self.functions@.take(i as int), name@),
            decreases i,
        {
            assert(self.functions@.take(i as int).drop_last() =~= self.functions@.take(i - 1));
            if self.functions[i - 1].0 == key {
                return Some(self.functions[i - 1].1);
            }
            i -= 1;
        }
        None
    }
}

} // verus!
