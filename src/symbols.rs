use vstd::prelude::*;
use crate::error::AsmError;
use crate::text::{chars_of, same_seq, slice_of};

verus! {

/// First RAM address handed to a variable.
pub const FIRST_VARIABLE: usize = 16;

/// Variables are allocated below this address.
pub const RAM_LIMIT: usize = 16384;

/// What a symbol table holds: each name's address, and the address that the
/// next new variable gets.
pub struct Symbols {
    pub map: Map<Seq<char>, nat>,
    pub next: nat,
}

/// The names present in every fresh table.
pub open spec fn preloaded() -> Map<Seq<char>, nat> {
    Map::empty()
        .insert("R0"@, 0nat).insert("R1"@, 1nat).insert("R2"@, 2nat).insert("R3"@, 3nat)
        .insert("R4"@, 4nat).insert("R5"@, 5nat).insert("R6"@, 6nat).insert("R7"@, 7nat)
        .insert("R8"@, 8nat).insert("R9"@, 9nat).insert("R10"@, 10nat).insert("R11"@, 11nat)
        .insert("R12"@, 12nat).insert("R13"@, 13nat).insert("R14"@, 14nat)
        .insert("R15"@, 15nat).insert("SCREEN"@, 16384nat).insert("KBD"@, 24576nat)
        .insert("SP"@, 0nat).insert("LCL"@, 1nat).insert("ARG"@, 2nat).insert("THIS"@, 3nat)
        .insert("THAT"@, 4nat)
}

/// A name bound to `addr`; the variable cursor stays.
pub open spec fn bind(st: Symbols, name: Seq<char>, addr: nat) -> Symbols {
    Symbols { map: st.map.insert(name, addr), next: st.next }
}

/// A name given the cursor's address; the cursor moves on.
pub open spec fn allocate(st: Symbols, name: Seq<char>) -> Symbols {
    Symbols { map: st.map.insert(name, st.next), next: st.next + 1 }
}

/// Names and their addresses, with a cursor for new variables.
pub struct SymbolTable {
    names: Vec<Vec<char>>,
    addrs: Vec<usize>,
    ix: usize,
    map: Ghost<Map<Seq<char>, nat>>,
}

impl View for SymbolTable {
    type V = Symbols;

    closed spec fn view(&self) -> Symbols {
        Symbols { map: self.map@, next: self.ix as nat }
    }
}

impl SymbolTable {
    /// Names and addresses pair up, each stored name once, matching the
    /// model; the cursor lies in the variable range.
    pub closed spec fn wf(&self) -> bool {
        &&& self.names.len() == self.addrs.len()
        &&& FIRST_VARIABLE <= self.ix <= RAM_LIMIT
        &&& forall|i: int|
            0 <= i < self.names.len() ==> #[trigger] self.map@.contains_key(self.names[i]@)
                && self.map@[self.names[i]@] == self.addrs[i] as nat
        &&& forall|k: Seq<char>|
            #[trigger] self.map@.contains_key(k) ==> exists|i: int|
                0 <= i < self.names.len() && self.names[i]@ == k
        &&& forall|i: int, j: int|
            0 <= i < j < self.names.len() ==> self.names[i]@ != self.names[j]@
    }

    /// The cursor of a well-formed table lies in the variable range.
    pub proof fn lemma_cursor(&self)
        requires
            self.wf(),
        ensures
            FIRST_VARIABLE <= self@.next <= RAM_LIMIT,
    {
    }

    /// A table holding the preloaded names, with the cursor at the first
    /// variable address.
    pub fn new() -> (r: SymbolTable)
        ensures
            r.wf(),
            r@.map == preloaded(),
            r@.next == FIRST_VARIABLE,
    {
        let mut t = SymbolTable {
            names: Vec::new(),
            addrs: Vec::new(),
            ix: FIRST_VARIABLE,
            map: Ghost(Map::empty()),
        };
        let _ = t.insert(&chars_of("R0"), Some(0));
        let _ = t.insert(&chars_of("R1"), Some(1));
        let _ = t.insert(&chars_of("R2"), Some(2));
        let _ = t.insert(&chars_of("R3"), Some(3));
        let _ = t.insert(&chars_of("R4"), Some(4));
        let _ = t.insert(&chars_of("R5"), Some(5));
        let _ = t.insert(&chars_of("R6"), Some(6));
        let _ = t.insert(&chars_of("R7"), Some(7));
        let _ = t.insert(&chars_of("R8"), Some(8));
        let _ = t.insert(&chars_of("R9"), Some(9));
        let _ = t.insert(&chars_of("R10"), Some(10));
        let _ = t.insert(&chars_of("R11"), Some(11));
        let _ = t.insert(&chars_of("R12"), Some(12));
        let _ = t.insert(&chars_of("R13"), Some(13));
        let _ = t.insert(&chars_of("R14"), Some(14));
        let _ = t.insert(&chars_of("R15"), Some(15));
        let _ = t.insert(&chars_of("SCREEN"), Some(16384));
        let _ = t.insert(&chars_of("KBD"), Some(24576));
        let _ = t.insert(&chars_of("SP"), Some(0));
        let _ = t.insert(&chars_of("LCL"), Some(1));
        let _ = t.insert(&chars_of("ARG"), Some(2));
        let _ = t.insert(&chars_of("THIS"), Some(3));
        let _ = t.insert(&chars_of("THAT"), Some(4));
        assert(t@.map =~= preloaded());
        t
    }

    /// Where `name` stands among the stored names.
    fn position(&self, name: &Vec<char>) -> (r: Option<usize>)
        requires
            self.wf(),
        ensures
            r is Some ==> r->0 < self.names.len() && self.names[r->0 as int]@ == name@,
            r is None ==> !self@.map.contains_key(name@),
    {
        let mut i: usize = 0;
        while i < self.names.len()
            invariant
                self.wf(),
                i <= self.names.len(),
                forall|j: int| 0 <= j < i ==> self.names[j]@ != name@,
            decreases self.names.len() - i,
        {
            if same_seq(&self.names[i], name) {
                return Some(i);
            }
            i += 1;
        }
        None
    }

    /// The address bound to `name`, if any.
    pub fn get(&self, name: &Vec<char>) -> (r: Option<usize>)
        requires
            self.wf(),
        ensures
            r is Some <==> self@.map.contains_key(name@),
            r is Some ==> r->0 as nat == self@.map[name@],
    {
        match self.position(name) {
            Some(i) => {
                assert(self.map@.contains_key(self.names[i as int]@));
                Some(self.addrs[i])
            },
            None => None,
        }
    }

    /// With an address, binds `element` to it. Without one, binds `element`
    /// to the cursor and advances the cursor, unless RAM is used up.
    pub fn insert(&mut self, element: &Vec<char>, n: Option<usize>) -> (r: Result<usize, AsmError>)
        requires
            old(self).wf(),
        ensures
            final(self).wf(),
            match n {
                Some(a) => r == Ok::<usize, AsmError>(a) && final(self)@ == bind(
                    old(self)@,
                    element@,
                    a as nat,
                ),
                None => if old(self)@.next < RAM_LIMIT {
                    r == Ok::<usize, AsmError>(old(self)@.next as usize) && final(self)@ == allocate(
                        old(self)@,
                        element@,
                    )
                } else {
                    r == Err::<usize, AsmError>(AsmError::SymbolSpaceExhausted) && final(self)@
                        == old(self)@
                },
            },
    {
        let addr = match n {
            Some(a) => a,
            None => {
                if self.ix < RAM_LIMIT {
                    self.ix
                } else {
                    return Err(AsmError::SymbolSpaceExhausted);
                }
            },
        };
        let ghost old_names = self.names@;
        let ghost old_addrs = self.addrs@;
        let ghost old_map = self.map@;
        let found = self.position(element);
        match found {
            Some(i) => {
                self.addrs.set(i, addr);
            },
            None => {
                let copy = slice_of(element, 0, element.len());
                assert(copy@ =~= element@);
                self.names.push(copy);
                self.addrs.push(addr);
            },
        }
        self.map = Ghost(self.map@.insert(element@, addr as nat));
        if n.is_none() {
            self.ix = self.ix + 1;
        }
        assert forall|i: int| 0 <= i < self.names.len() implies #[trigger] self.map@.contains_key(
            self.names[i]@) && self.map@[self.names[i]@] == self.addrs[i] as nat by {
            if i < old_names.len() {
                assert(old_names[i] == self.names[i]);
                assert(old_map.contains_key(old_names[i]@));
                if self.names[i]@ != element@ {
                    assert(old_addrs[i] == self.addrs[i]);
                } else if let Some(p) = found {
                    assert(p == i);
                }
            }
        }
        assert forall|k: Seq<char>| #[trigger] self.map@.contains_key(k) implies exists|i: int|
            0 <= i < self.names.len() && self.names[i]@ == k by {
            if k != element@ {
                let i = choose|i: int| 0 <= i < old_names.len() && old_names[i]@ == k;
                assert(self.names[i]@ == k);
            } else {
                let i = if self.names.len() > old_names.len() { old_names.len() as int } else {
                    choose|i: int| 0 <= i < old_names.len() && old_names[i]@ == k
                };
                assert(self.names[i]@ == k);
            }
        }
        assert forall|i: int, j: int|
            0 <= i < j < self.names.len() implies self.names[i]@ != self.names[j]@ by {
            if j < old_names.len() {
                assert(old_names[i] == self.names[i]);
                assert(old_names[j] == self.names[j]);
            } else {
                assert(old_names[i] == self.names[i]);
                assert(old_map.contains_key(old_names[i]@));
            }
        }
        assert(forall|i: int|
            0 <= i < self.names.len() ==> #[trigger] self.map@.contains_key(self.names[i]@)
                && self.map@[self.names[i]@] == self.addrs[i] as nat);
        assert(forall|k: Seq<char>|
            #[trigger] self.map@.contains_key(k) ==> exists|i: int|
                0 <= i < self.names.len() && self.names[i]@ == k);
        Ok(addr)
    }
}

} // verus!
