//! A table of shared strings: equal texts are stored once and handed out as
//! handles to that one copy.

use std::rc::Rc;
use vstd::prelude::*;

verus! {

/// Hands out shared handles to strings, one stored copy per distinct text.
/// Nothing is ever removed.
pub struct StrIntern {
    table: Vec<Rc<String>>,
}

/// Another handle to the string that `h` points to: `Rc::clone`, which
/// copies the pointer and not the string.
#[verifier::external_body]
pub(crate) fn share(h: &Rc<String>) -> (r: Rc<String>)
    ensures
        r == *h,
{
    Rc::clone(h)
}

impl StrIntern {
    /// No text is stored twice.
    #[verifier::type_invariant]
    spec fn distinct(self) -> bool {
        self.table.deep_view().no_duplicates()
    }

    /// The texts that have been interned so far.
    pub closed spec fn view(&self) -> Set<Seq<char>> {
        self.table.deep_view().to_set()
    }

    /// An empty table.
    pub fn new() -> (r: Self)
        ensures
            r@ == Set::<Seq<char>>::empty(),
    {
        let r = StrIntern { table: Vec::new() };
        proof {
            assert(r.table.deep_view() =~= Seq::<Seq<char>>::empty());
            assert(r@ =~= Set::<Seq<char>>::empty());
        }
        r
    }

    /// A handle to the stored copy of `s`, which is stored first if the
    /// table does not hold it yet.
    pub fn get(&mut self, s: &str) -> (r: Rc<String>)
        ensures
            r@ == s@,
            final(self)@ == old(self)@.insert(s@),
    {
        proof {
            use_type_invariant(&*self);
        }
        let wanted: String = s.to_owned();
        let mut i: usize = 0;
        while i < self.table.len()
            invariant
                i <= self.table.len(),
                wanted@ == s@,
                *self == *old(self),
                forall|k: int| 0 <= k < i ==> self.table.deep_view()[k] != s@,
            decreases self.table.len() - i,
        {
            if *self.table[i] == wanted {
                let r = share(&self.table[i]);
                proof {
                    assert(self.table.deep_view()[i as int] == s@);
                    assert(self@.contains(s@));
                    assert(self@ =~= self@.insert(s@));
                }
                return r;
            }
            i += 1;
        }
        let interned: Rc<String> = Rc::new(wanted);
        let r = share(&interned);
        let ghost before = self.table.deep_view();
        // The table grows outside the struct, which meanwhile holds an empty
        // one: at every moment the struct holds a table without duplicates.
        let mut table: Vec<Rc<String>> = Vec::new();
        proof {
            assert(table.deep_view() =~= Seq::<Seq<char>>::empty());
        }
        std::mem::swap(&mut self.table, &mut table);
        table.push(interned);
        proof {
            assert(table.deep_view() =~= before.push(s@));
            assert(!before.contains(s@));
            assert(before.push(s@).no_duplicates());
        }
        std::mem::swap(&mut self.table, &mut table);
        proof {
            assert(self.table.deep_view() =~= before.push(s@));
            assert(!before.contains(s@));
            assert(self@ =~= old(self)@.insert(s@)) by {
                assert forall|x: Seq<char>| self@.contains(x) <==> old(self)@.insert(s@).contains(
                    x,
                ) by {
                    if before.push(s@).contains(x) {
                        let k = choose|k: int| 0 <= k < before.len() + 1 && before.push(s@)[k] == x;
                        if k < before.len() {
                            assert(before[k] == x);
                        }
                    }
                    if before.contains(x) {
                        let k = choose|k: int| 0 <= k < before.len() && before[k] == x;
                        assert(before.push(s@)[k] == x);
                    }
                    assert(before.push(s@)[before.len() as int] == s@);
                }
            }
        }
        r
    }
}

} // verus!
