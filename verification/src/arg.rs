//! Declared arguments and the table of parsed results.

pub mod args;

use vstd::prelude::*;
use crate::text::{push_char, texts};

verus! {

/// How many parameters an option or subcommand takes.
#[derive(Debug, Clone, Copy)]
pub enum ParameterCount {
    /// No parameters.
    Zero,
    /// More than `n` parameters.
    More(usize),
    /// Fewer than `n` parameters.
    Less(usize),
    /// Exactly `n` parameters.
    Exact(usize),
}

impl Default for ParameterCount {
    fn default() -> (r: Self)
        ensures
            r is Zero,
    {
        ParameterCount::Zero
    }
}

/// The kind of an argument.
#[derive(Debug, PartialEq, Eq, Structural, Clone, Copy)]
pub enum ArgType {
    /// Matched by a token equal to the argument's name.
    Subcommand,
    /// Matched by a token with `-` or `--` in front.
    Option,
}

impl Default for ArgType {
    fn default() -> (r: Self)
        ensures
            r is Option,
    {
        ArgType::Option
    }
}

/// A declared command line argument.
#[derive(Debug)]
pub struct Arg {
    /// Short form (unused by a subcommand).
    pub short: Option<char>,
    /// Long form (unused by a subcommand, which is matched by its name).
    pub long: Option<String>,
    /// The name under which the argument's parameters are stored.
    pub name: String,
    /// Option or subcommand.
    pub kind: ArgType,
    /// Number of parameters the argument takes.
    pub parameter_count: ParameterCount,
}

/// The mathematical content of an [`Arg`].
pub ghost struct ArgView {
    pub short: Option<char>,
    pub long: Option<Seq<char>>,
    pub name: Seq<char>,
    pub kind: ArgType,
    pub parameter_count: ParameterCount,
}

impl View for Arg {
    type V = ArgView;

    open spec fn view(&self) -> ArgView {
        ArgView {
            short: self.short,
            long: match self.long {
                Some(l) => Some(l@),
                None => None,
            },
            name: self.name@,
            kind: self.kind,
            parameter_count: self.parameter_count,
        }
    }
}

/// The views of a sequence of declared arguments.
pub open spec fn arg_views(v: Seq<Arg>) -> Seq<ArgView> {
    v.map_values(|a: Arg| a@)
}

impl Default for Arg {
    fn default() -> (r: Self)
        ensures
            r@ == (ArgView {
                short: None,
                long: None,
                name: Seq::<char>::empty(),
                kind: ArgType::Option,
                parameter_count: ParameterCount::Zero,
            }),
    {
        Arg {
            short: None,
            long: None,
            name: String::new(),
            kind: ArgType::Option,
            parameter_count: ParameterCount::Zero,
        }
    }
}

impl ArgView {
    /// The text that names this argument in a message: its name, followed by
    /// the short and long forms it has.
    pub open spec fn text(self) -> Seq<char> {
        match (self.short, self.long) {
            (Some(c), Some(l)) => "(Argument "@ + self.name + " [short: -"@ + seq![c] + ", long: --"@
                + l + " ] )"@,
            (Some(c), None) => "(Argument "@ + self.name + "[short: -"@ + seq![c] + "])"@,
            (None, Some(l)) => "(Argument "@ + self.name + " [long: --"@ + l + " ] )"@,
            (None, None) => "(Argument "@ + self.name + ")"@,
        }
    }
}

impl Arg {
    /// Renders the argument for a message.
    pub fn to_text(&self) -> (r: String)
        ensures
            r@ == self@.text(),
    {
        let mut out = String::from_str("(Argument ");
        out.append(self.name.as_str());
        match (&self.short, &self.long) {
            (Some(c), Some(l)) => {
                out.append(" [short: -");
                push_char(&mut out, *c);
                out.append(", long: --");
                out.append(l.as_str());
                out.append(" ] )");
                proof {
                    assert(out@ =~= self@.text());
                }
            },
            (Some(c), None) => {
                out.append("[short: -");
                push_char(&mut out, *c);
                out.append("])");
                proof {
                    assert(out@ =~= self@.text());
                }
            },
            (None, Some(l)) => {
                out.append(" [long: --");
                out.append(l.as_str());
                out.append(" ] )");
                proof {
                    assert(out@ =~= self@.text());
                }
            },
            (None, None) => {
                out.append(")");
            },
        }
        out
    }
}

/// A table of parsed results, as a map from names to optional parameter lists.
pub type Table = Map<Seq<char>, Option<Seq<Seq<char>>>>;

/// The parameters stored under one name: `None` until the name is matched.
pub open spec fn slot_view(v: Option<Vec<String>>) -> Option<Seq<Seq<char>>> {
    match v {
        Some(l) => Some(texts(l@)),
        None => None,
    }
}

/// The names of a sequence of slots.
spec fn slot_names(slots: Seq<Slot>) -> Seq<Seq<char>> {
    slots.map_values(|s: Slot| s.name@)
}

/// One named slot of the result table.
#[derive(Debug)]
struct Slot {
    name: String,
    value: Option<Vec<String>>,
}

/// The result of a parse: for each declared name the parameters it captured,
/// or `None` if it never appeared, and under the program's name the tokens
/// that belong to no option or subcommand.
///
/// Its view is a map from names to optional parameter lists.
#[derive(Debug)]
pub struct Args {
    slots: Vec<Slot>,
}

impl Args {
    /// The names of the slots, in the order in which they were made.
    pub closed spec fn names(&self) -> Seq<Seq<char>> {
        slot_names(self.slots@)
    }

    /// No name has two slots.
    #[verifier::type_invariant]
    spec fn distinct(&self) -> bool {
        slot_names(self.slots@).no_duplicates()
    }

    /// What the slot at `i` holds.
    pub closed spec fn value_at(&self, i: int) -> Option<Seq<Seq<char>>> {
        slot_view(self.slots@[i].value)
    }

    proof fn lemma_first(&self, k: Seq<char>, i: int)
        requires
            0 <= i < self.names().len(),
            self.names()[i] == k,
            forall|j: int| 0 <= j < i ==> self.names()[j] != k,
        ensures
            self.names().index_of_first(k) == Some(i),
            self@.contains_key(k),
            self@[k] == self.value_at(i),
    {
        let names = self.names();
        names.index_of_first_ensures(k);
        assert(names.contains(k));
        let f = names.index_of_first(k).unwrap();
        if f < i {
            assert(names[f] != k);
        }
        if i < f {
            assert(names[i] != k);
        }
    }

    proof fn lemma_absent(&self, k: Seq<char>)
        requires
            forall|j: int| 0 <= j < self.slots@.len() ==> self.slots@[j].name@ != k,
        ensures
            !self@.contains_key(k),
    {
        let names = self.names();
        if names.contains(k) {
            let j = choose|j: int| 0 <= j < names.len() && names[j] == k;
            assert(self.slots@[j].name@ != k);
        }
    }

    /// Index of the slot named `name`, if there is one.
    fn find(&self, name: &str) -> (r: Option<usize>)
        ensures
            match r {
                Some(i) => i < self.slots@.len() && self@.contains_key(name@) && self@[name@]
                    == self.value_at(i as int) && self.slots@[i as int].name@ == name@
                    && self.names().index_of_first(name@) == Some(i as int),
                None => !self@.contains_key(name@) && (forall|j: int|
                    0 <= j < self.slots@.len() ==> self.slots@[j].name@ != name@),
            },
    {
        let mut i: usize = 0;
        while i < self.slots.len()
            invariant
                i <= self.slots@.len(),
                forall|j: int| 0 <= j < i ==> self.slots@[j].name@ != name@,
            decreases self.slots@.len() - i,
        {
            if str_eq(self.slots[i].name.as_str(), name) {
                proof {
                    assert forall|j: int| 0 <= j < i implies self.names()[j] != name@ by {
                        assert(self.slots@[j].name@ != name@);
                    }
                    self.lemma_first(name@, i as int);
                }
                return Some(i);
            }
            i += 1;
        }
        proof {
            self.lemma_absent(name@);
        }
        None
    }

    /// An empty table.
    pub fn new() -> (r: Self)
        ensures
            r@ == Table::empty(),
    {
        let r = Args { slots: Vec::new() };
        proof {
            assert(r.names() =~= Seq::<Seq<char>>::empty());
            assert(r@ =~= Table::empty());
        }
        r
    }

    /// Stores `value` under `name`, replacing what was stored there.
    pub fn insert(&mut self, name: String, value: Option<Vec<String>>)
        ensures
            final(self)@ == old(self)@.insert(name@, slot_view(value)),
    {
        let found = self.find(name.as_str());
        proof {
            use_type_invariant(&*self);
        }
        let ghost before = *self;
        let ghost key = name@;
        let ghost val = slot_view(value);
        let mut slots: Vec<Slot> = Vec::new();
        std::mem::swap(&mut slots, &mut self.slots);
        match found {
            Some(i) => {
                slots.set(i, Slot { name, value });
                proof {
                    assert(slot_names(slots@) =~= before.names());
                }
                self.slots = slots;
                proof {
                    assert forall|k: Seq<char>| self@.contains_key(k) implies #[trigger] self@[k]
                        == before@.insert(key, val)[k] by {
                        before.names().index_of_first_ensures(k);
                    }
                    assert(self@ =~= before@.insert(key, val));
                }
            },
            None => {
                slots.push(Slot { name, value });
                proof {
                    assert(slot_names(slots@) =~= before.names().push(key));
                    assert forall|j: int| 0 <= j < before.names().len() implies before.names()[j]
                        != key by {
                        assert(before.slots@[j].name@ != key);
                    }
                }
                self.slots = slots;
                proof {
                    let n = before.slots@.len() as int;
                    self.lemma_first(key, n);
                    let goal = before@.insert(key, val);
                    assert forall|k: Seq<char>| #[trigger]
                        self@.dom().contains(k) == goal.dom().contains(k) && (self@.dom().contains(k)
                        ==> self@[k] == goal[k]) by {
                        if k == key {
                        } else if before.names().contains(k) {
                            before.names().index_of_first_ensures(k);
                            let f = before.names().index_of_first(k).unwrap();
                            assert forall|j: int| 0 <= j < f implies self.names()[j] != k by {
                                assert(before.names()[j] != k);
                            }
                            assert(self.names()[f] == before.names()[f]);
                            self.lemma_first(k, f);
                            assert(self.value_at(f) == before.value_at(f));
                        } else if self.names().contains(k) {
                            let j = choose|j: int| 0 <= j < self.names().len() && self.names()[j] == k;
                            assert(before.names()[j] == k);
                        }
                    }
                    assert(self@ =~= before@.insert(key, val));
                }
            },
        }
    }

    /// The list stored under `name`: `None` if the name is not in the table.
    pub fn get(&self, name: &str) -> (r: Option<&Option<Vec<String>>>)
        ensures
            match r {
                Some(v) => self@.contains_key(name@) && self@[name@] == slot_view(*v),
                None => !self@.contains_key(name@),
            },
    {
        match self.find(name) {
            Some(i) => Some(&self.slots[i].value),
            None => None,
        }
    }

    /// The names in the table, each once, in the order in which they were
    /// first stored.
    pub fn keys(&self) -> (r: Vec<String>)
        ensures
            texts(r@).no_duplicates(),
            texts(r@).to_set() == self@.dom(),
            r@.len() == self@.dom().len(),
    {
        proof {
            use_type_invariant(self);
        }
        let mut r: Vec<String> = Vec::new();
        let mut i: usize = 0;
        proof {
            assert(texts(r@) =~= self.names().subrange(0, 0));
        }
        while i < self.slots.len()
            invariant
                i <= self.slots@.len(),
                texts(r@) == self.names().subrange(0, i as int),
            decreases self.slots@.len() - i,
        {
            let ghost prev = r@;
            r.push(self.slots[i].name.clone());
            proof {
                assert(texts(r@) =~= texts(prev).push(self.slots@[i as int].name@));
                assert(texts(r@) =~= self.names().subrange(0, i + 1));
            }
            i += 1;
        }
        proof {
            assert(texts(r@) =~= self.names());
            assert(self@.dom() =~= self.names().to_set());
            self.names().unique_seq_to_set();
        }
        r
    }

    /// The number of names in the table.
    pub fn len(&self) -> (r: usize)
        ensures
            r == self@.dom().len(),
    {
        proof {
            use_type_invariant(self);
            assert(self@.dom() =~= self.names().to_set());
            self.names().unique_seq_to_set();
        }
        self.slots.len()
    }

    /// Adds `captured` at the end of the list under `name`, which starts
    /// empty if the name had no list yet.
    pub fn record(&mut self, name: &str, captured: Vec<String>)
        ensures
            final(self)@ == recorded(old(self)@, name@, texts(captured@)),
    {
        let found = self.find(name);
        proof {
            use_type_invariant(&*self);
        }
        let ghost before = *self;
        let ghost key = name@;
        let ghost val = recorded(before@, key, texts(captured@))[key];
        match found {
            Some(i) => {
                let mut slots: Vec<Slot> = Vec::new();
                std::mem::swap(&mut slots, &mut self.slots);
                let slot = slots.remove(i);
                let mut captured = captured;
                let ghost cap = captured@;
                let Slot { name: slot_name, value: slot_value } = slot;
                let list = match slot_value {
                    Some(mut l) => {
                        l.append(&mut captured);
                        proof {
                            assert(texts(l@) =~= texts(before.slots@[i as int].value.unwrap()@)
                                + texts(cap));
                        }
                        l
                    },
                    None => captured,
                };
                slots.insert(i, Slot { name: slot_name, value: Some(list) });
                proof {
                    assert(slot_names(slots@) =~= before.names());
                }
                self.slots = slots;
                proof {
                    assert(self.slots@.len() == before.slots@.len());
                    assert(self.value_at(i as int) == val);
                    assert forall|j: int| 0 <= j < self.slots@.len() && j != i implies self.slots@[j]
                        == before.slots@[j] by {}
                    assert forall|k: Seq<char>| self@.contains_key(k) implies #[trigger] self@[k]
                        == before@.insert(key, val)[k] by {
                        before.names().index_of_first_ensures(k);
                    }
                    assert(self@ =~= before@.insert(key, val));
                }
            },
            None => {
                self.insert(String::from_str(name), Some(captured));
            },
        }
    }
}

/// The table after `more` was added at the end of the list under `key`.
pub open spec fn recorded(m: Table, key: Seq<char>, more: Seq<Seq<char>>) -> Table {
    m.insert(
        key,
        Some(
            if m.contains_key(key) && m[key] is Some {
                m[key].unwrap() + more
            } else {
                more
            },
        ),
    )
}

impl View for Args {
    type V = Table;

    closed spec fn view(&self) -> Table {
        let names = self.names();
        Map::new(
            |k: Seq<char>| names.contains(k),
            |k: Seq<char>| self.value_at(names.index_of_first(k).unwrap()),
        )
    }
}

/// Whether two strings hold the same text.
pub fn str_eq(a: &str, b: &str) -> (r: bool)
    ensures
        r == (a@ == b@),
{
    let x = String::from_str(a);
    let y = String::from_str(b);
    x == y
}

} // verus!
