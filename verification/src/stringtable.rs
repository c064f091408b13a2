use vstd::prelude::*;

verus! {

/// Gives each distinct name a small id, in order of first registration from 0.
#[derive(Clone)]
pub struct StringTable {
    names: Vec<String>,
}

impl StringTable {
    /// The registered names; a name's id is its position.
    pub closed spec fn names_view(&self) -> Seq<Seq<char>> {
        self.names@.map_values(|s: String| s@)
    }

    /// No name is registered twice.
    pub closed spec fn wf(&self) -> bool {
        &&& self.names_view().no_duplicates()
        &&& self.names@.len() <= u32::MAX
    }

    pub fn new() -> (t: Self)
        ensures
            t.wf(),
            t.names_view() == Seq::<Seq<char>>::empty(),
    {
        let t = StringTable { names: Vec::new() };
        proof {
            assert(t.names_view() =~= Seq::<Seq<char>>::empty());
        }
        t
    }

    /// The id of `name`: its existing id when registered before, else the next
    /// free id, under which it is now registered.
    pub fn register(&mut self, name: String) -> (id: u32)
        requires
            old(self).wf(),
            old(self).names_view().contains(name@) || old(self).names_view().len() < u32::MAX,
        ensures
            final(self).wf(),
            old(self).names_view().contains(name@) ==> final(self).names_view() == old(self).names_view()
                && id < old(self).names_view().len() && old(self).names_view()[id as int] == name@,
            !old(self).names_view().contains(name@) ==> final(self).names_view() == old(self).names_view().push(name@)
                && id == old(self).names_view().len(),
    {
        let mut i: usize = 0;
        while i < self.names.len()
            invariant
                i <= self.names@.len(),
                self.names@ == old(self).names@,
                old(self).wf(),
                forall|k: int| 0 <= k < i ==> self.names_view()[k] != name@,
            decreases self.names@.len() - i,
        {
            if self.names[i] == name {
                proof {
                    assert(self.names_view()[i as int] == name@);
                }
                return i as u32;
            }
            i = i + 1;
        }
        proof {
            assert(!self.names_view().contains(name@)) by {
                if self.names_view().contains(name@) {
                    let k = choose|k: int| 0 <= k < self.names_view().len() && self.names_view()[k] == name@;
                    assert(self.names_view()[k] != name@);
                }
            }
        }
        let id = self.names.len() as u32;
        let ghost before = self.names_view();
        self.names.push(name);
        proof {
            assert(self.names_view() =~= before.push(name@));
            assert(self.names_view().no_duplicates()) by {
                let s = self.names_view();
                assert forall|a: int, b: int| 0 <= a < s.len() && 0 <= b < s.len() && a != b implies s[a] != s[b] by {
                    if a < before.len() && b < before.len() {
                        assert(s[a] == before[a] && s[b] == before[b]);
                    } else if a < before.len() {
                        assert(s[a] == before[a]);
                        assert(before.contains(before[a]));
                    } else if b < before.len() {
                        assert(s[b] == before[b]);
                        assert(before.contains(before[b]));
                    }
                }
            }
        }
        id
    }

    /// The name registered under `id`, if any.
    pub fn get_name(&self, id: u32) -> (r: Option<&String>)
        ensures
            id < self.names_view().len() ==> (r matches Some(s) && s@ == self.names_view()[id as int]),
            id >= self.names_view().len() ==> r is None,
    {
        if (id as usize) < self.names.len() {
            Some(&self.names[id as usize])
        } else {
            None
        }
    }
}

impl Default for StringTable {
    fn default() -> (t: Self)
        ensures
            t.wf(),
            t.names_view() == Seq::<Seq<char>>::empty(),
    {
        StringTable::new()
    }
}

/// Registering a name twice gives the same id, and different names get
/// different ids.
pub proof fn lemma_ids_are_stable(t: StringTable, a: int, b: int)
    requires
        t.wf(),
        0 <= a < t.names_view().len(),
        0 <= b < t.names_view().len(),
        a != b,
    ensures
        t.names_view()[a] != t.names_view()[b],
{
}

} // verus!
