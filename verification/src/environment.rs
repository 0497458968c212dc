//! The global scope of a running program: its variables and its procedures.
use crate::error::usize_decimal;
use crate::grammar::{Stmt, StmtView};
use crate::natural::{decimal_repr, Natural};
use vstd::prelude::*;
use vstd::string::StringExecFns;
use vstd::hash_map::StringHashMap;

verus! {

/// What an `Environment` stands for: the values of the variables that have
/// one, and the bodies of the procedures declared.
pub struct EnvView {
    pub vars: Map<Seq<char>, nat>,
    pub procs: Map<Seq<char>, StmtView>,
}

/// The value of a variable: every variable starts out as zero.
pub open spec fn var_value(env: EnvView, name: Seq<char>) -> nat {
    if env.vars.dom().contains(name) {
        env.vars[name]
    } else {
        0
    }
}

/// The variable that receives the `i`-th initial value (counting from 0):
/// `x1`, `x2`, ...; `x0` is left for the answer.
pub open spec fn init_name(i: nat) -> Seq<char> {
    "x"@ + decimal_repr(i + 1)
}

/// The variables that the initial values `init` set.
pub open spec fn init_vars(init: Seq<nat>) -> Map<Seq<char>, nat>
    decreases init.len(),
{
    if init.len() == 0 {
        Map::empty()
    } else {
        init_vars(init.drop_last()).insert(init_name((init.len() - 1) as nat), init.last())
    }
}

/// Reading a variable after assigning it gives the value assigned; every
/// other variable keeps its value.
pub proof fn lemma_read_after_write(env: EnvView, name: Seq<char>, other: Seq<char>, value: nat)
    ensures
        var_value(EnvView { vars: env.vars.insert(name, value), ..env }, name) == value,
        other != name ==> var_value(EnvView { vars: env.vars.insert(name, value), ..env }, other)
            == var_value(env, other),
{
}

/// Different positions give different names.
pub proof fn lemma_init_name_injective(i: nat, j: nat)
    requires
        init_name(i) == init_name(j),
    ensures
        i == j,
{
    let p = "x"@;
    assert((p + decimal_repr(i + 1)).skip(p.len() as int) == decimal_repr(i + 1));
    assert((p + decimal_repr(j + 1)).skip(p.len() as int) == decimal_repr(j + 1));
    crate::natural::lemma_decimal_repr_injective(i + 1, j + 1);
}

/// The initial values are stored to `x1`, `x2`, ... in order, and to no
/// other variable.
pub proof fn lemma_initial_values(init: Seq<nat>)
    ensures
        forall|i: int|
            0 <= i < init.len() ==> #[trigger] init_vars(init).dom().contains(init_name(i as nat))
                && init_vars(init)[init_name(i as nat)] == init[i],
        forall|k: Seq<char>|
            #[trigger] init_vars(init).dom().contains(k) ==> exists|i: int|
                0 <= i < init.len() && k == #[trigger] init_name(i as nat),
    decreases init.len(),
{
    if init.len() > 0 {
        let t = init.drop_last();
        let n = (init.len() - 1) as nat;
        lemma_initial_values(t);
        assert forall|i: int| 0 <= i < init.len() implies #[trigger] init_vars(init).dom().contains(
            init_name(i as nat),
        ) && init_vars(init)[init_name(i as nat)] == init[i] by {
            assert(init_vars(init) == init_vars(t).insert(init_name(n), init.last()));
            if i < init.len() - 1 {
                if init_name(i as nat) == init_name(n) {
                    lemma_init_name_injective(i as nat, n);
                }
                assert(t[i] == init[i]);
                assert(init_vars(t).dom().contains(init_name(i as nat)));
                assert(init_vars(t)[init_name(i as nat)] == t[i]);
            }
        }
        assert forall|k: Seq<char>| #[trigger] init_vars(init).dom().contains(k) implies exists|i: int|
            0 <= i < init.len() && k == #[trigger] init_name(i as nat) by {
            if k == init_name(n) {
                assert(0 <= n < init.len() && k == init_name(n as int as nat));
            } else {
                assert(init_vars(t).dom().contains(k));
                let i = choose|i: int| 0 <= i < t.len() && k == #[trigger] init_name(i as nat);
                assert(0 <= i < init.len() && k == init_name(i as nat));
            }
        }
    }
}

/// The first initial value goes to `x1`, and no initial value goes to `x0`,
/// which starts at 0 for the answer.
pub proof fn lemma_x1_and_x0(init: Seq<nat>)
    ensures
        init.len() > 0 ==> init_vars(init).dom().contains("x1"@) && init_vars(init)["x1"@] == init[0],
        !init_vars(init).dom().contains("x0"@),
{
    lemma_initial_values(init);
    reveal_strlit("x");
    reveal_strlit("x1");
    reveal_strlit("x0");
    assert(decimal_repr(1) == seq!['1']);
    assert(init_name(0) == "x1"@);
    if init.len() > 0 {
        assert(init_vars(init).dom().contains(init_name((0int) as nat)));
        assert(init_vars(init)[init_name((0int) as nat)] == init[0]);
    }
    if init_vars(init).dom().contains("x0"@) {
        let i = choose|i: int| 0 <= i < init.len() && "x0"@ == #[trigger] init_name(i as nat);
        let p = "x"@;
        assert((p + decimal_repr((i + 1) as nat)).skip(1) == decimal_repr((i + 1) as nat));
        assert("x0"@.skip(1) == seq!['0']);
        assert(decimal_repr(0) == seq!['0']);
        crate::natural::lemma_decimal_repr_injective((i + 1) as nat, 0);
    }
}

/// The global scope of a running program.
pub struct Environment<'a> {
    vars: StringHashMap<Natural>,
    procs: StringHashMap<&'a Stmt>,
}

impl<'a> View for Environment<'a> {
    type V = EnvView;

    closed spec fn view(&self) -> EnvView {
        EnvView {
            vars: self.vars@.map_values(|n: Natural| n@),
            procs: self.procs@.map_values(|p: &'a Stmt| p@),
        }
    }
}

fn init_name_of(i: usize) -> (r: String)
    requires
        i < usize::MAX,
    ensures
        r@ == init_name(i as nat),
{
    let mut r = String::from_str("x");
    let digits = usize_decimal(i + 1);
    r.append(digits.as_str());
    r
}

impl<'a> Environment<'a> {
    /// An environment where the initial values are stored to `x1`, `x2`, ...
    /// and no procedure is declared.
    pub fn new(init: Vec<Natural>) -> (r: Environment<'a>)
        ensures
            r@.vars == init_vars(init@.map_values(|n: Natural| n@)),
            r@.procs == Map::<Seq<char>, StmtView>::empty(),
    {
        let mut environment = Environment { vars: StringHashMap::new(), procs: StringHashMap::new() };
        let ghost values = init@.map_values(|n: Natural| n@);
        proof {
            assert(environment@.vars == Map::<Seq<char>, nat>::empty());
            assert(environment@.procs == Map::<Seq<char>, StmtView>::empty());
            assert(values.take(0) == Seq::<nat>::empty());
        }
        let mut index: usize = 0;
        while index < init.len()
            invariant
                index <= init.len(),
                values == init@.map_values(|n: Natural| n@),
                environment@.vars == init_vars(values.take(index as int)),
                environment@.procs == Map::<Seq<char>, StmtView>::empty(),
            decreases init.len() - index,
        {
            let name = init_name_of(index);
            let num = init[index].duplicate();
            environment.assign(name, num);
            proof {
                assert(values.take(index + 1).drop_last() == values.take(index as int));
            }
            index = index + 1;
        }
        proof {
            assert(values.take(init.len() as int) == values);
        }
        environment
    }

    fn assign(&mut self, name: String, num: Natural)
        ensures
            final(self)@ == (EnvView { vars: old(self)@.vars.insert(name@, num@), ..old(self)@ }),
    {
        let ghost v = num@;
        self.vars.insert(name, num);
        proof {
            assert(self@.vars =~= old(self)@.vars.insert(name@, v));
        }
    }

    /// Gives the variable `name` the value `num`.
    pub fn assign_var(&mut self, name: &str, num: Natural)
        ensures
            final(self)@ == (EnvView { vars: old(self)@.vars.insert(name@, num@), ..old(self)@ }),
    {
        self.assign(name.to_owned(), num);
    }

    /// The value of the variable `name`; zero where it has none.
    pub fn retrieve_var(&self, name: &str) -> (r: Natural)
        ensures
            r@ == var_value(self@, name@),
    {
        match self.vars.get(name) {
            Some(n) => n.duplicate(),
            None => Natural::zero(),
        }
    }

    /// Declares the procedure `name` with the body `proc`.
    pub fn assign_proc(&mut self, name: &str, proc: &'a Stmt)
        ensures
            final(self)@ == (EnvView { procs: old(self)@.procs.insert(name@, proc@), ..old(self)@ }),
    {
        self.procs.insert(name.to_owned(), proc);
        proof {
            assert(self@.procs =~= old(self)@.procs.insert(name@, proc@));
        }
    }

    /// The body of the procedure `name`, if it has been declared.
    pub fn retrieve_proc(&self, name: &str) -> (r: Option<&'a Stmt>)
        ensures
            r is Some <==> self@.procs.dom().contains(name@),
            r matches Some(p) ==> p@ == self@.procs[name@],
    {
        match self.procs.get(name) {
            Some(p) => Some(*p),
            None => None,
        }
    }
}

} // verus!
