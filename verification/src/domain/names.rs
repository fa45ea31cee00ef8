//! Sets of names without repetition.

use vstd::prelude::*;

use crate::domain::text;
use crate::domain::text::{compare_text, TextOrder};

verus! {

/// Whether every text of a list comes before all later ones.
pub open spec fn ascending(names: Seq<Seq<char>>) -> bool {
    forall|i: int, j: int|
        0 <= i < j < names.len() ==> text::comes_before(
            #[trigger] names[i],
            #[trigger] names[j],
        )
}

/// The texts behind a list of strings.
pub open spec fn texts(names: Seq<String>) -> Seq<Seq<char>> {
    Seq::new(names.len(), |i: int| names[i]@)
}

/// The texts of a list that are not empty.
pub open spec fn named(names: Seq<String>) -> Set<Seq<char>> {
    Set::new(|name: Seq<char>| name.len() > 0 && texts(names).contains(name))
}

/// A set of non-empty names, kept in ascending order. Its view is the set.
#[derive(Debug)]
pub struct NameSet {
    names: Vec<String>,
}

impl NameSet {
    #[verifier::type_invariant]
    closed spec fn in_order(self) -> bool {
        &&& ascending(texts(self.names@))
        &&& forall|i: int| 0 <= i < self.names@.len() ==> (#[trigger] self.names@[i])@.len() > 0
    }

    /// The names as a set.
    pub closed spec fn view(&self) -> Set<Seq<char>> {
        texts(self.names@).to_set()
    }

    /// The names in ascending order.
    pub closed spec fn list(&self) -> Seq<Seq<char>> {
        texts(self.names@)
    }

    /// The set without names.
    pub fn empty() -> (r: NameSet)
        ensures
            r@ == Set::<Seq<char>>::empty(),
            r.list() == Seq::<Seq<char>>::empty(),
            ascending(r.list()),
    {
        let r = NameSet { names: Vec::new() };
        assert(texts(r.names@) =~= Seq::<Seq<char>>::empty());
        assert(r@ =~= Set::<Seq<char>>::empty());
        r
    }

    /// Collects names: repetitions and empty names are dropped, and the others are
    /// listed in ascending order.
    pub fn from_names(names: Vec<String>) -> (r: NameSet)
        ensures
            r@ == named(names@),
            r.list().to_set() == named(names@),
            ascending(r.list()),
    {
        let mut set = NameSet::empty();
        let mut i: usize = 0;
        assert(set@ =~= named(names@.take(0)));
        while i < names.len()
            invariant
                i <= names@.len(),
                set@ == named(names@.take(i as int)),
            decreases names@.len() - i,
        {
            let ghost before = set@;
            let name = names[i].clone();
            let ghost word = name@;
            if !name.as_str().is_empty() {
                set.add_name(name);
            }
            proof {
                let older = names@.take(i as int);
                let newer = names@.take(i + 1);
                assert forall|s: Seq<char>| named(newer).contains(s) <==> (named(older).contains(s)
                    || (s == word && word.len() > 0)) by {
                    if texts(older).contains(s) {
                        let k = choose|k: int| 0 <= k < older.len() && texts(older)[k] == s;
                        assert(texts(newer)[k] == s);
                    }
                    if s == word {
                        assert(texts(newer)[i as int] == s);
                    }
                    if texts(newer).contains(s) {
                        let k = choose|k: int| 0 <= k < newer.len() && texts(newer)[k] == s;
                        if k < i {
                            assert(texts(older)[k] == s);
                        }
                    }
                }
                assert(set@ =~= named(newer));
            }
            i += 1;
        }
        assert(names@.take(i as int) =~= names@);
        proof {
            use_type_invariant(&set);
        }
        set
    }

    /// Adds one name.
    fn add_name(&mut self, name: String)
        requires
            name@.len() > 0,
        ensures
            final(self)@ == old(self)@.insert(name@),
    {
        proof {
            use_type_invariant(&*self);
        }
        let mut names: Vec<String> = Vec::new();
        core::mem::swap(&mut names, &mut self.names);
        let ghost start = names@;
        let ghost word = name@;
        let mut at: usize = 0;
        let mut found: bool = false;
        while at < names.len()
            invariant_except_break
                !found,
            invariant
                names@ == start,
                ascending(texts(start)),
                at <= start.len(),
                name@ == word,
                forall|k: int| 0 <= k < at ==> text::comes_before(
                    texts(start)[k],
                    word,
                ),
            ensures
                found ==> at < start.len() && texts(start)[at as int] == word,
                !found ==> at == start.len() || text::comes_before(
                    word,
                    texts(start)[at as int],
                ),
            decreases start.len() - at,
        {
            match compare_text(names[at].as_str(), name.as_str()) {
                TextOrder::Before => {
                    at += 1;
                },
                TextOrder::Same => {
                    found = true;
                    break;
                },
                TextOrder::After => {
                    break;
                },
            }
        }
        if !found {
            names.insert(at, name);
            proof {
                let list = texts(names@);
                assert(list =~= texts(start).insert(at as int, word));
                assert forall|i: int, j: int| 0 <= i < j < list.len() implies text::comes_before(
                    #[trigger] list[i],
                    #[trigger] list[j],
                ) by {
                    if i == at {
                        if j > at + 1 {
                            text::lemma_before_is_transitive(
                                word,
                                texts(start)[at as int],
                                texts(start)[j - 1],
                            );
                        }
                    } else if j == at {
                    } else {
                        let p = if i < at {
                            i
                        } else {
                            i - 1
                        };
                        let q = if j < at {
                            j
                        } else {
                            j - 1
                        };
                        assert(list[i] == texts(start)[p]);
                        assert(list[j] == texts(start)[q]);
                    }
                }
                assert forall|s: Seq<char>| list.contains(s) <==> texts(start).contains(s) || s
                    == word by {
                    if texts(start).contains(s) {
                        let k = choose|k: int| 0 <= k < start.len() && texts(start)[k] == s;
                        if k < at {
                            assert(list[k] == s);
                        } else {
                            assert(list[k + 1] == s);
                        }
                    }
                    if s == word {
                        assert(list[at as int] == s);
                    }
                    if list.contains(s) {
                        let k = choose|k: int| 0 <= k < list.len() && list[k] == s;
                        if k < at {
                            assert(texts(start)[k] == s);
                        } else if k > at {
                            assert(texts(start)[k - 1] == s);
                        }
                    }
                }
            }
        }
        self.names = names;
        assert(self@ =~= texts(start).to_set().insert(word));
    }

    /// Number of names.
    pub fn len(&self) -> (r: usize)
        ensures
            r == self@.len(),
            r == self.list().len(),
            ascending(self.list()),
            self.list().no_duplicates(),
            self.list().to_set() == self@,
    {
        proof {
            use_type_invariant(self);
            assert forall|i: int, j: int| 0 <= i < self.list().len() && 0 <= j < self.list().len()
                && i != j implies self.list()[i] != self.list()[j] by {
                if i < j {
                    text::lemma_before_is_strict(self.list()[i], self.list()[j]);
                } else {
                    text::lemma_before_is_strict(self.list()[j], self.list()[i]);
                }
            }
            self.list().unique_seq_to_set();
        }
        self.names.len()
    }

    /// Whether the set has no names.
    pub fn is_empty(&self) -> (r: bool)
        ensures
            r == (self@ == Set::<Seq<char>>::empty()),
            r == (self.list().len() == 0),
    {
        proof {
            if self.names@.len() > 0 {
                assert(texts(self.names@).contains(texts(self.names@)[0]));
                assert(self@.contains(texts(self.names@)[0]));
            } else {
                assert(self@ =~= Set::<Seq<char>>::empty());
            }
        }
        self.names.is_empty()
    }

    /// Whether a name is in the set.
    pub fn contains(&self, name: &str) -> (r: bool)
        ensures
            r == self@.contains(name@),
    {
        let mut i: usize = 0;
        while i < self.names.len()
            invariant
                i <= self.names@.len(),
                forall|k: int| 0 <= k < i ==> texts(self.names@)[k] != name@,
            decreases self.names@.len() - i,
        {
            if matches!(compare_text(self.names[i].as_str(), name), TextOrder::Same) {
                assert(texts(self.names@)[i as int] == name@);
                return true;
            }
            i += 1;
        }
        false
    }

    /// The name at a place of the ascending list.
    pub fn name_at(&self, i: usize) -> (r: &String)
        requires
            i < self.list().len(),
        ensures
            r@ == self.list()[i as int],
            ascending(self.list()),
            self.list().to_set() == self@,
    {
        proof {
            use_type_invariant(self);
        }
        &self.names[i]
    }
}

/// A set that is made of names holds every one of them that is not empty, and nothing
/// else.
pub proof fn lemma_named_holds_what_is_not_empty(names: Seq<String>, name: Seq<char>)
    ensures
        named(names).contains(name) <==> name.len() > 0 && exists|i: int|
            0 <= i < names.len() && (#[trigger] names[i])@ == name,
{
    if texts(names).contains(name) {
        let i = choose|i: int| 0 <= i < texts(names).len() && texts(names)[i] == name;
        assert(names[i]@ == name);
    }
    if exists|i: int| 0 <= i < names.len() && (#[trigger] names[i])@ == name {
        let i = choose|i: int| 0 <= i < names.len() && (#[trigger] names[i])@ == name;
        assert(texts(names)[i] == name);
    }
}

} // verus!
