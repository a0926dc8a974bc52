//! The command words and the `NAME=VALUE` expressions they take.
//!
//! The surrounding program parses its arguments, hands the strings over and
//! performs the file reads and writes; everything decided here — which
//! command runs, how an expression splits, what a `set` does to the map —
//! is checked.

use vstd::prelude::*;
use crate::errors::EnvError;
use crate::store::State;
use crate::text::{push_char, str_chars};

verus! {

broadcast use vstd::string::group_string_axioms;

/// The two commands the store understands.
#[derive(Debug, Clone, Copy, PartialEq, Eq, Structural)]
pub enum Command {
    /// Print every variable as a `NAME=VALUE` line.
    Export,
    /// Assign one or more variables, then save.
    SetVar,
}

impl Command {
    /// The command a word names, or `EnvError::UnknownCommand`.
    pub fn from_str(s: &str) -> (r: Result<Command, EnvError>)
        ensures
            s@ == "set"@ ==> r == Ok::<Command, EnvError>(Command::SetVar),
            s@ == "export"@ ==> r == Ok::<Command, EnvError>(Command::Export),
            s@ != "set"@ && s@ != "export"@ ==> r == Err::<Command, EnvError>(
                EnvError::UnknownCommand,
            ),
    {
        proof {
            reveal_strlit("set");
            reveal_strlit("export");
            assert("set"@.len() == 3);
            assert("export"@.len() == 6);
        }
        let t = s.to_owned();
        if t == "set".to_owned() {
            Ok(Command::SetVar)
        } else if t == "export".to_owned() {
            Ok(Command::Export)
        } else {
            Err(EnvError::UnknownCommand)
        }
    }
}

/// The position of the first `=` in a string, if it has one.
pub open spec fn eq_pos(s: Seq<char>) -> Option<int>
    decreases s.len(),
{
    if s.len() == 0 {
        None
    } else if s[0] == '=' {
        Some(0)
    } else {
        match eq_pos(s.drop_first()) {
            Some(j) => Some(j + 1),
            None => None,
        }
    }
}

proof fn lemma_eq_pos_none(s: Seq<char>)
    requires
        forall|j: int| 0 <= j < s.len() ==> s[j] != '=',
    ensures
        eq_pos(s) is None,
    decreases s.len(),
{
    if s.len() > 0 {
        assert forall|j: int| 0 <= j < s.drop_first().len() implies s.drop_first()[j] != '=' by {
            assert(s.drop_first()[j] == s[j + 1]);
        }
        lemma_eq_pos_none(s.drop_first());
    }
}

proof fn lemma_eq_pos_found(s: Seq<char>, i: int)
    requires
        0 <= i < s.len(),
        s[i] == '=',
        forall|j: int| 0 <= j < i ==> s[j] != '=',
    ensures
        eq_pos(s) == Some(i),
    decreases i,
{
    if i > 0 {
        assert(s[0] != '=');
        assert forall|j: int| 0 <= j < i - 1 implies s.drop_first()[j] != '=' by {
            assert(s.drop_first()[j] == s[j + 1]);
        }
        assert(s.drop_first()[i - 1] == s[i]);
        lemma_eq_pos_found(s.drop_first(), i - 1);
    }
}

/// Split a `NAME=VALUE` expression at its first `=`: the name is what stands
/// before it, the value everything after it, further `=` signs included.
/// An expression without any `=` is rejected with
/// `EnvError::InvalidExpression`.
pub fn parse_set_env_expr(set_env_expr: &String) -> (r: Result<(String, String), EnvError>)
    ensures
        eq_pos(set_env_expr@) is None ==> r == Err::<(String, String), EnvError>(
            EnvError::InvalidExpression,
        ),
        eq_pos(set_env_expr@) matches Some(j) ==> r matches Ok(p) && p.0@ == set_env_expr@.take(j)
            && p.1@ == set_env_expr@.skip(j + 1),
{
    let cs = str_chars(set_env_expr.as_str());
    let n = cs.len();
    let mut pos: usize = n;
    let mut i: usize = 0;
    while i < n
        invariant
            i <= n,
            n == cs@.len(),
            cs@ == set_env_expr@,
            pos <= n,
            pos == n ==> forall|j: int| 0 <= j < i ==> cs@[j] != '=',
            pos < n ==> pos < i && cs@[pos as int] == '=' && (forall|j: int|
                0 <= j < pos ==> cs@[j] != '='),
        decreases n - i,
    {
        if pos == n && cs[i] == '=' {
            pos = i;
        }
        i = i + 1;
    }
    if pos == n {
        proof {
            lemma_eq_pos_none(set_env_expr@);
        }
        return Err(EnvError::InvalidExpression);
    }
    proof {
        lemma_eq_pos_found(set_env_expr@, pos as int);
    }
    let mut name = String::new();
    let mut k: usize = 0;
    while k < pos
        invariant
            k <= pos <= n,
            n == cs@.len(),
            cs@ == set_env_expr@,
            name@ == set_env_expr@.take(k as int),
        decreases pos - k,
    {
        push_char(&mut name, cs[k]);
        proof {
            assert(name@ =~= set_env_expr@.take(k + 1 as int));
        }
        k = k + 1;
    }
    let mut value = String::new();
    let mut t: usize = pos + 1;
    while t < n
        invariant
            pos + 1 <= t <= n,
            n == cs@.len(),
            cs@ == set_env_expr@,
            value@ == set_env_expr@.subrange(pos + 1 as int, t as int),
        decreases n - t,
    {
        push_char(&mut value, cs[t]);
        proof {
            assert(value@ =~= set_env_expr@.subrange(pos + 1 as int, t + 1 as int));
        }
        t = t + 1;
    }
    proof {
        assert(value@ =~= set_env_expr@.skip(pos + 1 as int));
    }
    Ok((name, value))
}

/// True when every expression holds an `=`.
pub open spec fn exprs_ok(exprs: Seq<Seq<char>>) -> bool {
    forall|i: int| 0 <= i < exprs.len() ==> eq_pos(#[trigger] exprs[i]) is Some
}

/// The map after the assignments are applied in order; a later assignment
/// to the same name overwrites an earlier one.
pub open spec fn apply_exprs(m: Map<Seq<char>, Seq<char>>, exprs: Seq<Seq<char>>) -> Map<
    Seq<char>,
    Seq<char>,
>
    decreases exprs.len(),
{
    if exprs.len() == 0 {
        m
    } else {
        match eq_pos(exprs[0]) {
            Some(j) => apply_exprs(
                m.insert(exprs[0].take(j), exprs[0].skip(j + 1)),
                exprs.drop_first(),
            ),
            None => m,
        }
    }
}

/// The character sequences a vector of strings stands for.
pub open spec fn strings_view(xs: Seq<String>) -> Seq<Seq<char>> {
    xs.map_values(|s: String| s@)
}

impl State {
    /// Apply `set` expressions in argument order. Every expression is
    /// checked first: if any holds no `=`, the call fails with
    /// `EnvError::InvalidExpression` and the store is left untouched, so
    /// nothing half-applied can be saved.
    pub fn apply_set_exprs(&mut self, exprs: &Vec<String>) -> (r: Result<(), EnvError>)
        requires
            old(self).wf(),
        ensures
            final(self).wf(),
            exprs_ok(strings_view(exprs@)) ==> r is Ok && final(self).as_map() == apply_exprs(
                old(self).as_map(),
                strings_view(exprs@),
            ),
            !exprs_ok(strings_view(exprs@)) ==> r == Err::<(), EnvError>(
                EnvError::InvalidExpression,
            ) && *final(self) == *old(self),
    {
        let ghost sv = strings_view(exprs@);
        let mut parsed: Vec<(String, String)> = Vec::new();
        let n = exprs.len();
        let mut i: usize = 0;
        while i < n
            invariant
                i <= n,
                n == exprs@.len(),
                sv == strings_view(exprs@),
                old(self).wf(),
                *self == *old(self),
                parsed@.len() == i,
                forall|j: int|
                    0 <= j < i ==> eq_pos(#[trigger] sv[j]) is Some && parsed@[j].0@ == sv[j].take(
                        eq_pos(sv[j])->0,
                    ) && parsed@[j].1@ == sv[j].skip(eq_pos(sv[j])->0 + 1),
            decreases n - i,
        {
            match parse_set_env_expr(&exprs[i]) {
                Ok(p) => {
                    parsed.push(p);
                },
                Err(_) => {
                    proof {
                        assert(eq_pos(sv[i as int]) is None);
                        assert(!exprs_ok(sv));
                    }
                    return Err(EnvError::InvalidExpression);
                },
            }
            i = i + 1;
        }
        proof {
            assert(exprs_ok(sv));
        }
        let m = parsed.len();
        let mut t: usize = 0;
        proof {
            assert(sv.skip(0) =~= sv);
        }
        while t < m
            invariant
                t <= m,
                m == parsed@.len(),
                m == sv.len(),
                exprs_ok(sv),
                self.wf(),
                forall|j: int|
                    0 <= j < m ==> eq_pos(#[trigger] sv[j]) is Some && parsed@[j].0@ == sv[j].take(
                        eq_pos(sv[j])->0,
                    ) && parsed@[j].1@ == sv[j].skip(eq_pos(sv[j])->0 + 1),
                apply_exprs(old(self).as_map(), sv) == apply_exprs(
                    self.as_map(),
                    sv.skip(t as int),
                ),
            decreases m - t,
        {
            let p = &parsed[t];
            let ghost before = self.as_map();
            proof {
                assert(sv.skip(t as int)[0] == sv[t as int]);
                assert(sv.skip(t as int).drop_first() =~= sv.skip(t + 1 as int));
            }
            self.set_env(&p.0, &p.1);
            t = t + 1;
        }
        proof {
            assert(sv.skip(m as int) =~= Seq::<Seq<char>>::empty());
        }
        Ok(())
    }
}

} // verus!

