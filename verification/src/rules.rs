//! Rules written a line each: the name of a kind, a colon, and the names of
//! the kinds that follow it, with commas between them.

use crate::grid::rows_view;
use crate::text::same_text;
use vstd::prelude::*;

verus! {

/// What becomes of a thing of one kind: the kinds of the things that follow
/// it.
pub struct Rule {
    /// The kind that the rule is about.
    pub head: Vec<char>,
    /// The kinds of what follows one of that kind.
    pub kids: Vec<Vec<char>>,
}

/// A rule as plain text: the kind, and the kinds it turns into.
pub type Turn = (Seq<char>, Seq<Seq<char>>);

impl View for Rule {
    type V = Turn;

    /// The kind, and the kinds it turns into.
    open spec fn view(&self) -> Turn {
        (self.head@, rows_view(self.kids@))
    }
}

/// The rules `rules` as plain text.
pub open spec fn turns_of(rules: Seq<Rule>) -> Seq<Turn> {
    Seq::new(rules.len(), |i: int| rules[i]@)
}

/// The place of the rule for `kind` among the first `n` rules; of several,
/// the last one counts.
pub open spec fn turn_index(turns: Seq<Turn>, kind: Seq<char>, n: nat) -> Option<int>
    decreases n,
{
    if n == 0 {
        None
    } else if turns[n - 1].0 == kind {
        Some(n - 1)
    } else {
        turn_index(turns, kind, (n - 1) as nat)
    }
}

/// What the place found for a kind is like.
pub proof fn lemma_turn_index(turns: Seq<Turn>, kind: Seq<char>, n: nat)
    requires
        n <= turns.len(),
    ensures
        turn_index(turns, kind, n) matches Some(i) ==> 0 <= i < n && turns[i].0 == kind,
    decreases n,
{
    if n > 0 {
        lemma_turn_index(turns, kind, (n - 1) as nat);
    }
}

/// The place of the rule for `kind`; of several, the last one counts.
pub fn find_rule(rules: &Vec<Rule>, kind: &[char]) -> (r: Option<usize>)
    ensures
        match r {
            Some(i) => turn_index(turns_of(rules@), kind@, rules@.len()) == Some(i as int),
            None => turn_index(turns_of(rules@), kind@, rules@.len()) is None,
        },
{
    let mut n: usize = rules.len();
    while n > 0
        invariant
            n <= rules.len(),
            turn_index(turns_of(rules@), kind@, rules@.len()) == turn_index(
                turns_of(rules@),
                kind@,
                n as nat,
            ),
        decreases n,
    {
        assert(turns_of(rules@)[n - 1].0 == rules@[n - 1].head@);
        if same_text(rules[n - 1].head.as_slice(), kind) {
            return Some(n - 1);
        }
        n -= 1;
    }
    None
}

} // verus!
