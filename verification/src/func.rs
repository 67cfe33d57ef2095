//! Functions and the scopes that know them.

use vstd::prelude::*;

use crate::error::ParseResult;
use crate::syntax::FuncHeader;

verus! {

/// The context for parsing a function.
#[derive(Debug)]
pub struct FuncContext<'s, P> {
    /// The header of the function to be parsed.
    pub header: &'s FuncHeader,
    /// The body source if the function has a body, otherwise nothing.
    pub body: Option<&'s str>,
    /// The current scope containing function definitions.
    pub scope: &'s Scope<P>,
}

/// Parses invocations of a function. This is implemented by the users of the
/// parser, and nothing is known of what it returns.
pub trait ParseFunc: Sized {
    /// The function that an invocation is parsed to.
    type Function;

    /// Parse the header and body of an invocation.
    fn parse(&self, context: FuncContext<'_, Self>) -> ParseResult<Self::Function>;
}

/// A map from identifiers to functions.
#[derive(Debug)]
pub struct Scope<P> {
    parsers: Vec<(String, P)>,
}

impl<P> View for Scope<P> {
    type V = Map<Seq<char>, P>;

    closed spec fn view(&self) -> Map<Seq<char>, P> {
        Map::new(
            |name: Seq<char>| exists|i: int| self.is_first(name, i),
            |name: Seq<char>| self.parsers@[choose|i: int| self.is_first(name, i)].1,
        )
    }
}

impl<P> Scope<P> {
    /// Whether the entry number `i` is for the name.
    spec fn is_for(self, name: Seq<char>, i: int) -> bool {
        0 <= i < self.parsers@.len() && self.parsers@[i].0@ == name
    }

    /// Whether the entry number `i` is the first one for the name.
    spec fn is_first(self, name: Seq<char>, i: int) -> bool {
        self.is_for(name, i) && forall|j: int| 0 <= j < i ==> !self.is_for(name, j)
    }

    /// The first entry for a name is what the scope maps the name to.
    proof fn lemma_lookup(self, name: Seq<char>, i: int)
        requires
            self.is_first(name, i),
        ensures
            self@.dom().contains(name),
            self@[name] == self.parsers@[i].1,
    {
        let k = choose|k: int| self.is_first(name, k);
        assert(self.is_first(name, k));
        assert(k == i);
    }

    /// Create a new empty scope.
    pub fn new() -> (scope: Scope<P>)
        ensures
            scope@ == Map::<Seq<char>, P>::empty(),
    {
        let scope = Scope { parsers: Vec::new() };
        assert(scope@ =~= Map::<Seq<char>, P>::empty());
        scope
    }

    /// The number of the entry for a name.
    fn position(&self, name: &str) -> (position: Option<usize>)
        ensures
            match position {
                Some(i) => self.is_first(name@, i as int),
                None => forall|i: int| !self.is_for(name@, i),
            },
    {
        let wanted = name.to_owned();
        let mut i: usize = 0;
        while i < self.parsers.len()
            invariant
                0 <= i <= self.parsers@.len(),
                wanted@ == name@,
                forall|j: int| 0 <= j < i ==> !self.is_for(name@, j),
            decreases self.parsers@.len() - i,
        {
            if self.parsers[i].0 == wanted {
                return Some(i);
            }
            i += 1;
        }
        None
    }

    /// Add a function to the scope giving it a name.
    pub fn add(&mut self, name: &str, parser: P)
        ensures
            final(self)@ == old(self)@.insert(name@, parser),
    {
        let entry = (name.to_owned(), parser);
        let i: usize = match self.position(name) {
            Some(i) => {
                self.parsers.set(i, entry);
                i
            },
            None => {
                self.parsers.push(entry);
                self.parsers.len() - 1
            },
        };
        proof {
            let before = *old(self);
            let after = *self;
            assert(forall|j: int| 0 <= j < i ==> after.is_for(name@, j) == before.is_for(name@, j));
            assert(after.is_first(name@, i as int));
            after.lemma_lookup(name@, i as int);
            assert forall|other: Seq<char>| other != name@ implies {
                &&& #[trigger] after@.dom().contains(other) == before@.dom().contains(other)
                &&& before@.dom().contains(other) ==> after@[other] == before@[other]
            } by {
                assert(forall|j: int| after.is_for(other, j) == before.is_for(other, j));
                assert forall|j: int| after.is_first(other, j) == before.is_first(other, j) by {}
                if exists|j: int| before.is_first(other, j) {
                    let j = choose|j: int| before.is_first(other, j);
                    before.lemma_lookup(other, j);
                    after.lemma_lookup(other, j);
                }
            }
            assert(after@ =~= before@.insert(name@, parser));
        }
    }

    /// Return the parser with the given name if there is one.
    pub fn get_parser(&self, name: &str) -> (parser: Option<&P>)
        ensures
            match parser {
                Some(parser) => self@.dom().contains(name@) && *parser == self@[name@],
                None => !self@.dom().contains(name@),
            },
    {
        match self.position(name) {
            Some(i) => {
                proof {
                    self.lemma_lookup(name@, i as int);
                }
                Some(&self.parsers[i].1)
            },
            None => None,
        }
    }
}

} // verus!
