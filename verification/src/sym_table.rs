//! The operator table.
//!
//! The scanner classifies every identifier-like token uniformly as a name;
//! which spellings a language treats as operators or keywords is decided
//! later, against a separate, swappable table like this one.

use vstd::prelude::*;

use vstd::string::StrSliceExecFns;

verus! {

/// The set of spellings a sequence of operator strings holds.
pub open spec fn spelling_set(ops: Seq<String>) -> Set<Seq<char>> {
    ops.map_values(|s: String| s@).to_set()
}

/// Compares two string slices character by character.
fn str_eq(a: &str, b: &str) -> (r: bool)
    ensures
        r == (a@ == b@),
{
    let na = a.unicode_len();
    let nb = b.unicode_len();
    if na != nb {
        assert(a@ != b@);
        return false;
    }
    let mut i: usize = 0;
    while i < na
        invariant
            i <= na,
            na == a@.len(),
            na == b@.len(),
            forall|j: int| 0 <= j < i ==> a@[j] == b@[j],
        decreases na - i,
    {
        if a.get_char(i) != b.get_char(i) {
            return false;
        }
        i = i + 1;
    }
    assert(a@ =~= b@);
    true
}

/// Table of operators: the spellings a consumer reclassifies from plain
/// names into operators.
pub struct OpTable {
    operators: Vec<String>,
}

impl View for OpTable {
    type V = Set<Seq<char>>;

    closed spec fn view(&self) -> Set<Seq<char>> {
        spelling_set(self.operators@)
    }
}

impl OpTable {
    /// Creates an [`OpTable`] from the given operator spellings.
    pub fn new(operators: Vec<String>) -> (t: OpTable)
        ensures
            t@ == spelling_set(operators@),
    {
        OpTable { operators }
    }

    /// Checks if the given string is a recognized operator.
    pub fn contains(&self, s: &str) -> (r: bool)
        ensures
            r == self@.contains(s@),
    {
        let mut i: usize = 0;
        while i < self.operators.len()
            invariant
                i <= self.operators@.len(),
                forall|j: int| 0 <= j < i ==> self.operators@[j]@ != s@,
            decreases self.operators@.len() - i,
        {
            if str_eq(self.operators[i].as_str(), s) {
                assert(spelling_set(self.operators@).contains(s@)) by {
                    assert(self.operators@.map_values(|o: String| o@)[i as int] == s@);
                    assert(self.operators@.map_values(|o: String| o@).contains(s@));
                }
                return true;
            }
            i = i + 1;
        }
        assert(!spelling_set(self.operators@).contains(s@)) by {
            let mapped = self.operators@.map_values(|o: String| o@);
            assert(forall|j: int| 0 <= j < mapped.len() ==> mapped[j] != s@);
            assert(!mapped.contains(s@));
        }
        false
    }
}

} // verus!
