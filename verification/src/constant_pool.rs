//! The constants of a script.

use std::collections::HashMap;
use vstd::hash_map::StringHashMap;
use vstd::prelude::*;

verus! {

broadcast use vstd::std_specs::hash::group_hash_axioms;

/// A constant: a string, or a number as the bits of a double precision number.
#[derive(Clone, Debug, PartialEq)]
pub enum Constant {
    Number(u64),
    Str(String),
}

/// What a [`Constant`] holds.
pub enum ConstantView {
    Number(u64),
    Str(Seq<char>),
}

impl View for Constant {
    type V = ConstantView;

    open spec fn view(&self) -> ConstantView {
        match *self {
            Constant::Number(bits) => ConstantView::Number(bits),
            Constant::Str(string) => ConstantView::Str(string@),
        }
    }
}

/// Where a pool has a constant, or where it would be added.
pub open spec fn constant_index(constants: Seq<ConstantView>, constant: ConstantView) -> int {
    if constants.contains(constant) {
        constants.index_of(constant)
    } else {
        constants.len() as int
    }
}

/// A pool with a constant in it.
pub open spec fn constants_with(
    constants: Seq<ConstantView>,
    constant: ConstantView,
) -> Seq<ConstantView> {
    if constants.contains(constant) {
        constants
    } else {
        constants.push(constant)
    }
}

/// The constants of a script, each held once, in the order in which they were first added.
pub struct ConstantPool {
    constants: Vec<Constant>,
    strings: StringHashMap<usize>,
    numbers: HashMap<u64, usize>,
}

impl View for ConstantPool {
    type V = Seq<ConstantView>;

    closed spec fn view(&self) -> Seq<ConstantView> {
        self.constants@.map_values(|constant: Constant| constant@)
    }
}

impl ConstantPool {
    /// No constant is held twice.
    pub proof fn lemma_distinct(&self)
        requires
            self.wf(),
        ensures
            self@.no_duplicates(),
    {
    }

    /// The lookup tables give the place of every constant, and no other.
    pub closed spec fn wf(&self) -> bool {
        &&& self@.no_duplicates()
        &&& forall|text: Seq<char>| #[trigger]
            self.strings@.contains_key(text) ==> self.strings@[text] < self@.len()
                && self@[self.strings@[text] as int] == ConstantView::Str(text)
        &&& forall|bits: u64| #[trigger]
            self.numbers@.contains_key(bits) ==> self.numbers@[bits] < self@.len()
                && self@[self.numbers@[bits] as int] == ConstantView::Number(bits)
        &&& forall|i: int|
            0 <= i < self@.len() ==> match #[trigger] self@[i] {
                ConstantView::Str(text) => self.strings@.contains_key(text),
                ConstantView::Number(bits) => self.numbers@.contains_key(bits),
            }
    }

    /// A pool without constants.
    pub fn new() -> (pool: Self)
        ensures
            pool.wf(),
            pool@ == Seq::<ConstantView>::empty(),
    {
        let pool = ConstantPool {
            constants: Vec::new(),
            strings: StringHashMap::new(),
            numbers: HashMap::new(),
        };
        assert(pool@ =~= Seq::<ConstantView>::empty());
        pool
    }

    /// The number of constants.
    pub fn len(&self) -> (len: usize)
        ensures
            len == self@.len(),
    {
        self.constants.len()
    }

    /// All constants, in the order of their indices.
    pub fn constants(&self) -> (constants: &Vec<Constant>)
        ensures
            constants@.map_values(|constant: Constant| constant@) == self@,
    {
        &self.constants
    }

    /// Adds a string to the pool unless it is already there, and returns its index.
    pub fn add_string(&mut self, text: &str) -> (index: usize)
        requires
            old(self).wf(),
        ensures
            final(self).wf(),
            final(self)@ == constants_with(old(self)@, ConstantView::Str(text@)),
            index == constant_index(old(self)@, ConstantView::Str(text@)),
            index < final(self)@.len(),
            final(self)@[index as int] == ConstantView::Str(text@),
    {
        let ghost constant = ConstantView::Str(text@);
        match self.strings.get(text) {
            Some(index) => {
                proof {
                    lemma_only_index(self@, constant, *index as int);
                }
                *index
            },
            None => {
                let index = self.constants.len();
                proof {
                    if self@.contains(constant) {
                        let i = self@.index_of(constant);
                        assert(self@[i] == constant);
                    }
                    lemma_push_distinct(self@, constant);
                }
                self.constants.push(Constant::Str(text.to_owned()));
                self.strings.insert(text.to_owned(), index);
                assert(self@ =~= old(self)@.push(constant));
                index
            },
        }
    }

    /// Adds a number to the pool unless it is already there, and returns its index.
    pub fn add_number(&mut self, bits: u64) -> (index: usize)
        requires
            old(self).wf(),
        ensures
            final(self).wf(),
            final(self)@ == constants_with(old(self)@, ConstantView::Number(bits)),
            index == constant_index(old(self)@, ConstantView::Number(bits)),
            index < final(self)@.len(),
            final(self)@[index as int] == ConstantView::Number(bits),
    {
        let ghost constant = ConstantView::Number(bits);
        match self.numbers.get(&bits) {
            Some(index) => {
                proof {
                    lemma_only_index(self@, constant, *index as int);
                }
                *index
            },
            None => {
                let index = self.constants.len();
                proof {
                    if self@.contains(constant) {
                        let i = self@.index_of(constant);
                        assert(self@[i] == constant);
                    }
                    lemma_push_distinct(self@, constant);
                }
                self.constants.push(Constant::Number(bits));
                self.numbers.insert(bits, index);
                assert(self@ =~= old(self)@.push(constant));
                index
            },
        }
    }

    /// Whether the constant with the given index is the given string.
    pub fn is_string(&self, index: usize, text: &str) -> (r: bool)
        requires
            index < self@.len(),
        ensures
            r == (self@[index as int] == ConstantView::Str(text@)),
    {
        match &self.constants[index] {
            Constant::Str(string) => *string == text.to_owned(),
            Constant::Number(_) => false,
        }
    }
}

/// Where no constant occurs twice, the one place of a constant is where it is found.
pub proof fn lemma_only_index(constants: Seq<ConstantView>, constant: ConstantView, index: int)
    requires
        constants.no_duplicates(),
        0 <= index < constants.len(),
        constants[index] == constant,
    ensures
        constants.contains(constant),
        constant_index(constants, constant) == index,
{
    assert(constants.contains(constant));
    assert(constants[constants.index_of(constant)] == constant);
}

/// A constant that is new keeps the others distinct.
pub proof fn lemma_push_distinct(constants: Seq<ConstantView>, constant: ConstantView)
    requires
        constants.no_duplicates(),
        !constants.contains(constant),
    ensures
        constants.push(constant).no_duplicates(),
{
    let pushed = constants.push(constant);
    assert forall|i: int, j: int|
        0 <= i < pushed.len() && 0 <= j < pushed.len() && i != j implies pushed[i]
        != pushed[j] by {
        if i == constants.len() {
            assert(pushed[j] == constants[j]);
        } else if j == constants.len() {
            assert(pushed[i] == constants[i]);
        }
    }
}

} // verus!
